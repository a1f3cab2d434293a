//! The round-trip law: decoding what the compressor emits yields the
//! original buffer.

use crate::codec::spec_backref_bytes;
use crate::codec::spec_backref_copy;
use crate::codec::spec_decode;
use crate::codec::spec_lit_bytes;
use crate::codec::spec_lit_header;
use crate::codec::MAX_DIST;
use crate::codec::MAX_LEN;
use crate::codec::MAX_LIT;
use crate::compress::lemma_best_match_len_bound;
use crate::compress::lemma_run_len_prefix;
use crate::compress::spec_best_match;
use crate::compress::spec_compress;
use crate::compress::spec_compress_loop;
use crate::compress::spec_match_len;
use crate::compress::spec_scan;
use crate::compress::spec_window_len;
use crate::compress::spec_window_start;
use crate::decompress::spec_decompress;
use vstd::prelude::*;

verus! {

/// Chunks are self-delimiting, so decoding distributes over concatenation:
/// whatever follows a well-formed stream is decoded from the state that
/// stream produced.
proof fn lemma_decode_append(s1: Seq<u8>, s2: Seq<u8>, out: Seq<u8>)
    requires
        spec_decode(s1, out) is Some,
    ensures
        spec_decode(s1 + s2, out) == spec_decode(s2, spec_decode(s1, out)->0),
    decreases s1.len(),
{
    if s1.len() == 0 {
        assert(s1 + s2 =~= s2);
    } else {
        let c = s1 + s2;
        assert(c[0] == s1[0]);
        let tag = s1[0];
        let is_backref = tag >= 128;
        let is_long = if is_backref {
            tag >= 192
        } else {
            tag >= 64
        };
        if is_long {
            assert(s1.len() >= 3);
            assert(c[1] == s1[1] && c[2] == s1[2]);
        }
        let len: nat = if is_long {
            (s1[1] as nat) * 256 + (s1[2] as nat)
        } else if is_backref {
            (tag - 128) as nat
        } else {
            tag as nat
        };
        let rest1 = if is_long {
            s1.skip(3)
        } else {
            s1.skip(1)
        };
        let crest1 = if is_long {
            c.skip(3)
        } else {
            c.skip(1)
        };
        assert(crest1 =~= rest1 + s2);
        if is_backref {
            assert(rest1.len() > 0);
            assert(crest1[0] == rest1[0]);
            if rest1[0] >= 128 {
                assert(rest1.len() >= 2);
                assert(crest1[1] == rest1[1]);
                let dist: nat = ((rest1[0] - 128) as nat) * 256 + (rest1[1] as nat);
                assert(1 <= dist <= out.len());
                let out2 = spec_backref_copy(out, dist, len);
                assert(crest1.skip(2) =~= rest1.skip(2) + s2);
                lemma_decode_append(rest1.skip(2), s2, out2);
            } else {
                let dist: nat = rest1[0] as nat;
                assert(1 <= dist <= out.len());
                let out2 = spec_backref_copy(out, dist, len);
                assert(crest1.skip(1) =~= rest1.skip(1) + s2);
                lemma_decode_append(rest1.skip(1), s2, out2);
            }
        } else {
            assert(len <= rest1.len());
            assert(crest1.take(len as int) =~= rest1.take(len as int));
            assert(crest1.skip(len as int) =~= rest1.skip(len as int) + s2);
            lemma_decode_append(rest1.skip(len as int), s2, out + rest1.take(len as int));
        }
    }
}

/// Decoding the serialized form of one literal chunk appends its bytes.
proof fn lemma_decode_lit_single(data: Seq<u8>, out: Seq<u8>)
    requires
        data.len() <= MAX_LIT,
    ensures
        spec_decode(spec_lit_bytes(data), out) == Some(out + data),
{
    let s = spec_lit_bytes(data);
    let l = data.len();
    if l < 64 {
        assert(s[0] == l as u8);
        assert(s[0] < 64);
        assert(s[0] as nat == l);
        let rest1 = s.skip(1);
        assert(rest1 =~= data);
        assert(rest1.take(l as int) =~= data);
        assert(rest1.skip(l as int) =~= Seq::<u8>::empty());
        assert(spec_decode(Seq::<u8>::empty(), out + data) == Some(out + data));
    } else {
        vstd::arithmetic::div_mod::lemma_fundamental_div_mod(l as int, 256);
        assert(s[0] == 0x40u8 && s[1] == (l / 256) as u8 && s[2] == (l % 256) as u8);
        assert(l / 256 < 256);
        assert(s[1] as nat == l / 256 && s[2] as nat == l % 256);
        assert((s[1] as nat) * 256 + (s[2] as nat) == l);
        let rest1 = s.skip(3);
        assert(rest1 =~= data);
        assert(rest1.take(l as int) =~= data);
        assert(rest1.skip(l as int) =~= Seq::<u8>::empty());
        assert(spec_decode(Seq::<u8>::empty(), out + data) == Some(out + data));
    }
}

/// Decoding the serialized form of one back-reference replays it against
/// the output produced so far.
proof fn lemma_decode_backref_single(dist: nat, len: nat, out: Seq<u8>)
    requires
        1 <= dist <= MAX_DIST,
        dist <= out.len(),
        len <= 65535,
    ensures
        spec_decode(spec_backref_bytes(dist, len), out) == Some(
            spec_backref_copy(out, dist, len),
        ),
{
    let s = spec_backref_bytes(dist, len);
    let lenpart: Seq<u8> = if len < 64 {
        seq![(128 + len) as u8]
    } else {
        seq![0xC0u8, (len / 256) as u8, (len % 256) as u8]
    };
    let distpart: Seq<u8> = if dist < 128 {
        seq![dist as u8]
    } else {
        seq![(128 + dist / 256) as u8, (dist % 256) as u8]
    };
    assert(s == lenpart + distpart);
    let hlen: int = if len < 64 {
        1
    } else {
        3
    };
    if len < 64 {
        assert(s[0] == (128 + len) as u8);
        assert(128 <= s[0] < 192);
        assert((s[0] - 128) as nat == len);
    } else {
        vstd::arithmetic::div_mod::lemma_fundamental_div_mod(len as int, 256);
        assert(s[0] == 0xC0u8 && s[1] == (len / 256) as u8 && s[2] == (len % 256) as u8);
        assert(len / 256 < 256);
        assert((s[1] as nat) * 256 + (s[2] as nat) == len);
    }
    let rest1 = s.skip(hlen);
    assert(rest1 =~= distpart);
    if dist < 128 {
        assert(rest1[0] == dist as u8);
        assert(rest1[0] < 128);
        assert(rest1[0] as nat == dist);
        assert(rest1.skip(1) =~= Seq::<u8>::empty());
    } else {
        vstd::arithmetic::div_mod::lemma_fundamental_div_mod(dist as int, 256);
        assert(dist / 256 < 128);
        assert(rest1[0] == (128 + dist / 256) as u8);
        assert(rest1[0] >= 128);
        assert(rest1[1] == (dist % 256) as u8);
        assert(((rest1[0] - 128) as nat) * 256 + (rest1[1] as nat) == dist);
        assert(rest1.skip(2) =~= Seq::<u8>::empty());
    }
    assert(spec_decode(Seq::<u8>::empty(), spec_backref_copy(out, dist, len)) == Some(
        spec_backref_copy(out, dist, len),
    ));
}

/// Replaying a back-reference whose source bytes repeat the input extends
/// the decoded prefix by exactly the matched bytes.
proof fn lemma_backref_copy_matches(s: Seq<u8>, i: int, dist: nat, len: nat)
    requires
        1 <= dist <= i,
        i + len <= s.len(),
        forall|k: int| 0 <= k < len ==> #[trigger] s[i - dist + k] == s[i + k],
    ensures
        spec_backref_copy(s.take(i), dist, len) == s.take(i + len),
    decreases len,
{
    if len == 0 {
        assert(s.take(i) =~= s.take(i + 0));
    } else {
        lemma_backref_copy_matches(s, i, dist, (len - 1) as nat);
        let prev = spec_backref_copy(s.take(i), dist, (len - 1) as nat);
        assert(prev == s.take(i + len - 1));
        assert(prev[i + len - 1 - dist] == s[i + len - 1 - dist]);
        assert(s[i - dist + (len - 1)] == s[i + (len - 1)]);
        assert(prev.push(s[i + len - 1]) =~= s.take(i + len));
    }
}

/// The scan's best candidate really matches: its distance is in range and
/// the bytes it would copy equal the bytes at the scan position.
proof fn lemma_scan_match_props(
    s: Seq<u8>,
    i: int,
    j: int,
    win: int,
    start: int,
    best_len: nat,
    best_dist: nat,
)
    requires
        0 <= start,
        start + win <= i,
        i <= s.len(),
        start >= i - MAX_DIST,
        0 <= j,
        best_len <= MAX_LEN,
        best_len > 0 ==> 1 <= best_dist <= MAX_DIST && best_dist <= i && (forall|k: int|
            0 <= k < best_len ==> #[trigger] s[i - best_dist + k] == s[i + k]),
    ensures
        ({
            let r = spec_scan(s, i, j, win, start, best_len, best_dist);
            r.0 <= MAX_LEN && (r.0 > 0 ==> 1 <= r.1 <= MAX_DIST && r.1 <= i && (forall|k: int|
                0 <= k < r.0 ==> #[trigger] s[i - r.1 + k] == s[i + k]))
        }),
    decreases win - j,
{
    if j >= win {
    } else {
        let l = spec_match_len(s, start + j, i);
        if l > best_len {
            let d = (i - (start + j)) as nat;
            lemma_run_len_prefix(s, start + j, i);
            assert forall|k: int| 0 <= k < l implies #[trigger] s[i - d + k] == s[i + k] by {
                assert(s[(start + j) + k] == s[i + k]);
            }
            lemma_scan_match_props(s, i, j + 1, win, start, l, d);
        } else {
            lemma_scan_match_props(s, i, j + 1, win, start, best_len, best_dist);
        }
    }
}

/// The compressor's window always starts at a valid offset and never
/// reaches past the scan position.
proof fn lemma_window_shape(i: int)
    requires
        1 <= i,
    ensures
        0 <= spec_window_start(i),
        spec_window_start(i) + spec_window_len(i) <= i,
        spec_window_start(i) >= i - MAX_DIST,
{
}

/// Every state the compression loop can be in decodes back to the input
/// prefix it has consumed; hence the finished stream decodes to the whole
/// input.
proof fn lemma_compress_loop_decodes(s: Seq<u8>, i: int, acc: Seq<u8>, out: Seq<u8>)
    requires
        1 <= i <= s.len(),
        acc.len() < MAX_LIT,
        acc.len() <= i,
        acc == s.subrange(i - acc.len(), i),
        spec_decode(out, Seq::<u8>::empty()) == Some(s.take(i - acc.len())),
    ensures
        spec_decode(spec_compress_loop(s, i, acc, out), Seq::<u8>::empty()) == Some(s),
    decreases s.len() - i,
{
    if i >= s.len() {
        assert(i == s.len());
        if acc.len() != 0 {
            lemma_decode_append(out, spec_lit_bytes(acc), Seq::<u8>::empty());
            lemma_decode_lit_single(acc, s.take(i - acc.len()));
            assert(s.take(i - acc.len()) + acc =~= s);
        } else {
            assert(s.take(i - 0) =~= s);
        }
    } else {
        let bm = spec_best_match(s, i);
        let ln = bm.0;
        let d = bm.1;
        if ln > 6 {
            lemma_best_match_len_bound(s, i);
            assert(i + ln <= s.len());
            lemma_window_shape(i);
            lemma_scan_match_props(s, i, 0, spec_window_len(i), spec_window_start(i), 0, 0);
            assert(1 <= d <= MAX_DIST && d <= i);
            assert(ln <= MAX_LEN);
            let out1 = if acc.len() != 0 {
                out + spec_lit_bytes(acc)
            } else {
                out
            };
            if acc.len() != 0 {
                lemma_decode_append(out, spec_lit_bytes(acc), Seq::<u8>::empty());
                lemma_decode_lit_single(acc, s.take(i - acc.len()));
                assert(s.take(i - acc.len()) + acc =~= s.take(i));
            }
            assert(spec_decode(out1, Seq::<u8>::empty()) == Some(s.take(i)));
            let out2 = out1 + spec_backref_bytes(d, ln);
            lemma_decode_append(out1, spec_backref_bytes(d, ln), Seq::<u8>::empty());
            lemma_decode_backref_single(d, ln, s.take(i));
            lemma_backref_copy_matches(s, i, d, ln);
            assert(spec_decode(out2, Seq::<u8>::empty()) == Some(s.take(i + ln)));
            assert(Seq::<u8>::empty() =~= s.subrange(i + ln, i + ln));
            lemma_compress_loop_decodes(s, i + ln, Seq::<u8>::empty(), out2);
        } else {
            let acc1 = acc.push(s[i]);
            assert(acc1 =~= s.subrange(i + 1 - acc1.len(), i + 1));
            if acc1.len() >= MAX_LIT {
                lemma_decode_append(out, spec_lit_bytes(acc1), Seq::<u8>::empty());
                lemma_decode_lit_single(acc1, s.take(i - acc.len()));
                assert(s.take(i - acc.len()) + acc1 =~= s.take(i + 1));
                assert(Seq::<u8>::empty() =~= s.subrange(i + 1, i + 1));
                lemma_compress_loop_decodes(
                    s,
                    i + 1,
                    Seq::<u8>::empty(),
                    out + spec_lit_bytes(acc1),
                );
            } else {
                lemma_compress_loop_decodes(s, i + 1, acc1, out);
            }
        }
    }
}

/// Round-trip law: for every non-empty buffer, decompressing the
/// compressor's output yields the buffer back.
pub proof fn lemma_round_trip(b: Seq<u8>)
    requires
        b.len() > 0,
    ensures
        spec_decompress(spec_compress(b)) == Some(b),
{
    assert(seq![b[0]] =~= b.subrange(0, 1));
    assert(b.take(0) =~= Seq::<u8>::empty());
    lemma_compress_loop_decodes(b, 1, seq![b[0]], Seq::<u8>::empty());
    if spec_compress(b).len() == 0 {
        assert(spec_decode(spec_compress(b), Seq::<u8>::empty()) == Some(Seq::<u8>::empty()));
        assert(false);
    }
}

} // verus!
