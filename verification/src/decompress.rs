//! The decompressor: consumes a stream of encoded chunks and reconstructs
//! the original buffer by copying literals and replaying back-references
//! against the already-produced output.

use crate::codec::spec_backref_copy;
use crate::codec::spec_decode;
use crate::LzError;
use vstd::prelude::*;

verus! {

/// What decompression yields on `input`: `None` when the stream is empty or
/// malformed, otherwise the decoded buffer.
pub open spec fn spec_decompress(input: Seq<u8>) -> Option<Seq<u8>> {
    if input.len() == 0 {
        None
    } else {
        spec_decode(input, Seq::<u8>::empty())
    }
}

/// Decodes the whole encoded stream, returning the reconstructed buffer, or
/// a malformed-stream error exactly when no well-formed stream was given.
#[verifier::rlimit(60)]
pub fn decompress(input: &[u8]) -> (r: Result<Vec<u8>, LzError>)
    ensures
        match r {
            Ok(out) => spec_decompress(input@) == Some(out@),
            Err(e) => spec_decompress(input@) is None && e == LzError::MalformedStream,
        },
{
    let n = input.len();
    if n == 0 {
        return Err(LzError::MalformedStream);
    }
    let mut out: Vec<u8> = Vec::new();
    let mut pos: usize = 0;
    assert(input@.skip(0) =~= input@);
    assert(out@ =~= Seq::<u8>::empty());
    while pos < n
        invariant
            n == input@.len(),
            pos <= n,
            spec_decode(input@.skip(pos as int), out@) == spec_decode(input@, Seq::<u8>::empty()),
        decreases n - pos,
    {
        let ghost rest0 = input@.skip(pos as int);
        let tag = input[pos];
        assert(rest0[0] == tag);
        let is_backref = tag >= 128;
        let is_long = if is_backref {
            tag >= 192
        } else {
            tag >= 64
        };
        let len: usize;
        let mut cur: usize;
        if is_long {
            if n - pos < 3 {
                assert(spec_decode(rest0, out@) is None);
                return Err(LzError::MalformedStream);
            }
            len = (input[pos + 1] as usize) * 256 + (input[pos + 2] as usize);
            cur = pos + 3;
            assert(rest0[1] == input@[pos + 1] && rest0[2] == input@[pos + 2]);
        } else {
            len = if is_backref {
                (tag - 128) as usize
            } else {
                tag as usize
            };
            cur = pos + 1;
        }
        let ghost rest1 = if is_long {
            rest0.skip(3)
        } else {
            rest0.skip(1)
        };
        assert(rest1 =~= input@.skip(cur as int));
        if is_backref {
            if cur == n {
                assert(rest1.len() == 0);
                assert(spec_decode(rest0, out@) is None);
                return Err(LzError::MalformedStream);
            }
            let d0 = input[cur];
            assert(rest1[0] == d0);
            let dist: usize;
            if d0 >= 128 {
                if n - cur < 2 {
                    assert(spec_decode(rest0, out@) is None);
                    return Err(LzError::MalformedStream);
                }
                dist = ((d0 - 128) as usize) * 256 + (input[cur + 1] as usize);
                assert(rest1[1] == input@[cur + 1]);
                cur = cur + 2;
            } else {
                dist = d0 as usize;
                cur = cur + 1;
            }
            let ghost rest2 = input@.skip(cur as int);
            assert(rest2 =~= if d0 >= 128 {
                rest1.skip(2)
            } else {
                rest1.skip(1)
            });
            if dist == 0 || dist > out.len() {
                assert(spec_decode(rest0, out@) is None);
                return Err(LzError::MalformedStream);
            }
            assert(spec_decode(rest0, out@) == spec_decode(
                rest2,
                spec_backref_copy(out@, dist as nat, len as nat),
            ));
            let ghost out0 = out@;
            let mut k: usize = 0;
            while k < len
                invariant
                    k <= len,
                    1 <= dist <= out0.len(),
                    out@ == spec_backref_copy(out0, dist as nat, k as nat),
                    out@.len() == out0.len() + k,
                decreases len - k,
            {
                let b = out[out.len() - dist];
                out.push(b);
                k = k + 1;
            }
            pos = cur;
        } else {
            if len > n - cur {
                assert(spec_decode(rest0, out@) is None);
                return Err(LzError::MalformedStream);
            }
            assert(spec_decode(rest0, out@) == spec_decode(
                rest1.skip(len as int),
                out@ + rest1.take(len as int),
            ));
            let ghost out0 = out@;
            let mut k: usize = 0;
            while k < len
                invariant
                    k <= len,
                    n == input@.len(),
                    cur + len <= n,
                    out@ == out0 + input@.subrange(cur as int, cur + k),
                decreases len - k,
            {
                let b = input[cur + k];
                out.push(b);
                assert(input@.subrange(cur as int, cur + k + 1) =~= input@.subrange(
                    cur as int,
                    cur + k,
                ).push(input@[cur + k]));
                k = k + 1;
            }
            assert(out@ =~= out0 + rest1.take(len as int));
            assert(rest1.skip(len as int) =~= input@.skip(cur + len));
            pos = cur + len;
        }
    }
    assert(input@.skip(n as int) =~= Seq::<u8>::empty());
    Ok(out)
}

} // verus!
