//! The compressor: scans the input left to right, at each position searches
//! the preceding window for the longest matching run, and emits literal and
//! back-reference chunks.

use crate::codec::spec_backref_bytes;
use crate::codec::spec_lit_bytes;
use crate::codec::BackRef;
use crate::codec::Chunk;
use crate::codec::LitData;
use crate::codec::MAX_DIST;
use crate::codec::MAX_LEN;
use crate::codec::MAX_LIT;
use crate::LzError;
use vstd::prelude::*;

verus! {

/// How many consecutive bytes of `s` starting at `src` equal the bytes
/// starting at `pos`, stopping at the end of `s`.
pub open spec fn spec_run_len(s: Seq<u8>, src: int, pos: int) -> nat
    recommends
        0 <= src <= pos,
    decreases s.len() - pos,
{
    if pos >= s.len() || s[src] != s[pos] {
        0
    } else {
        (spec_run_len(s, src + 1, pos + 1) + 1) as nat
    }
}

/// The matching run at `src` against `pos`, capped at `MAX_LEN`.
pub open spec fn spec_match_len(s: Seq<u8>, src: int, pos: int) -> nat {
    if spec_run_len(s, src, pos) > MAX_LEN {
        MAX_LEN as nat
    } else {
        spec_run_len(s, src, pos)
    }
}

/// The first window offset eligible as a match source for position `i`.
pub open spec fn spec_window_start(i: int) -> int {
    if i > MAX_DIST {
        i - MAX_DIST
    } else {
        0
    }
}

/// How many window offsets are scanned for position `i`.
pub open spec fn spec_window_len(i: int) -> int {
    if i > MAX_LEN {
        MAX_LEN as int
    } else {
        i
    }
}

/// Scans window offsets `j..win` in increasing order, keeping the first
/// strictly longer match found; returns the best `(length, distance)`.
pub open spec fn spec_scan(
    s: Seq<u8>,
    i: int,
    j: int,
    win: int,
    start: int,
    best_len: nat,
    best_dist: nat,
) -> (nat, nat)
    decreases win - j,
{
    if j >= win {
        (best_len, best_dist)
    } else {
        let l = spec_match_len(s, start + j, i);
        if l > best_len {
            spec_scan(s, i, j + 1, win, start, l, (i - (start + j)) as nat)
        } else {
            spec_scan(s, i, j + 1, win, start, best_len, best_dist)
        }
    }
}

/// The longest match for position `i` over its whole window, with the
/// distance of the first offset that attains it.
pub open spec fn spec_best_match(s: Seq<u8>, i: int) -> (nat, nat) {
    spec_scan(s, i, 0, spec_window_len(i), spec_window_start(i), 0, 0)
}

proof fn lemma_run_len_bound(s: Seq<u8>, src: int, pos: int)
    requires
        pos <= s.len(),
    ensures
        spec_run_len(s, src, pos) <= s.len() - pos,
    decreases s.len() - pos,
{
    if pos >= s.len() || s[src] != s[pos] {
    } else {
        lemma_run_len_bound(s, src + 1, pos + 1);
    }
}

proof fn lemma_scan_len_bound(
    s: Seq<u8>,
    i: int,
    j: int,
    win: int,
    start: int,
    best_len: nat,
    best_dist: nat,
)
    requires
        i <= s.len(),
        best_len <= s.len() - i,
    ensures
        spec_scan(s, i, j, win, start, best_len, best_dist).0 <= s.len() - i,
    decreases win - j,
{
    if j >= win {
    } else {
        let l = spec_match_len(s, start + j, i);
        lemma_run_len_bound(s, start + j, i);
        if l > best_len {
            lemma_scan_len_bound(s, i, j + 1, win, start, l, (i - (start + j)) as nat);
        } else {
            lemma_scan_len_bound(s, i, j + 1, win, start, best_len, best_dist);
        }
    }
}

/// The best match never runs past the end of the input.
pub proof fn lemma_best_match_len_bound(s: Seq<u8>, i: int)
    requires
        i <= s.len(),
    ensures
        i + spec_best_match(s, i).0 <= s.len() || spec_best_match(s, i).0 == 0,
{
    if i < 0 {
        assert(spec_window_len(i) <= 0);
    } else {
        lemma_scan_len_bound(s, i, 0, spec_window_len(i), spec_window_start(i), 0, 0);
    }
}

/// Every byte pair inside a matching run agrees.
pub(crate) proof fn lemma_run_len_prefix(s: Seq<u8>, src: int, pos: int)
    ensures
        forall|k: int|
            0 <= k < spec_run_len(s, src, pos) ==> #[trigger] s[src + k] == s[pos + k],
    decreases s.len() - pos,
{
    if pos >= s.len() || s[src] != s[pos] {
    } else {
        lemma_run_len_prefix(s, src + 1, pos + 1);
        assert forall|k: int|
            0 <= k < spec_run_len(s, src, pos) implies #[trigger] s[src + k] == s[pos + k] by {
            if k > 0 {
                assert(s[(src + 1) + (k - 1)] == s[(pos + 1) + (k - 1)]);
            }
        }
    }
}

/// Splitting a matching run: if the first `k` byte pairs agree, the run is
/// `k` plus the run that continues after them.
proof fn lemma_run_len_split(s: Seq<u8>, src: int, pos: int, k: int)
    requires
        0 <= k,
        pos + k <= s.len(),
        forall|m: int| 0 <= m < k ==> #[trigger] s[src + m] == s[pos + m],
    ensures
        spec_run_len(s, src, pos) == k + spec_run_len(s, src + k, pos + k),
    decreases k,
{
    if k == 0 {
    } else {
        assert(s[src + 0] == s[pos + 0]);
        assert(s[src] == s[pos]);
        assert forall|m: int| 0 <= m < k - 1 implies #[trigger] s[(src + 1) + m] == s[(pos + 1)
            + m] by {
            assert(s[src + (m + 1)] == s[pos + (m + 1)]);
        }
        lemma_run_len_split(s, src + 1, pos + 1, k - 1);
    }
}

/// One compression step as a pure function of the remaining input: either a
/// qualifying back-reference is emitted (flushing the pending literal run
/// first), or one byte joins the literal run, which is flushed when it
/// reaches the codec's size limit; a final non-empty run is flushed when the
/// input is exhausted.
pub open spec fn spec_compress_loop(s: Seq<u8>, i: int, acc: Seq<u8>, out: Seq<u8>) -> Seq<u8>
    decreases s.len() - i, 0int,
{
    if i >= s.len() {
        if acc.len() != 0 {
            out + spec_lit_bytes(acc)
        } else {
            out
        }
    } else {
        let bm = spec_best_match(s, i);
        if bm.0 > 6 {
            proof {
                lemma_best_match_len_bound(s, i);
            }
            let out1 = if acc.len() != 0 {
                out + spec_lit_bytes(acc)
            } else {
                out
            };
            spec_compress_loop(
                s,
                i + bm.0,
                Seq::<u8>::empty(),
                out1 + spec_backref_bytes(bm.1, bm.0),
            )
        } else {
            let acc1 = acc.push(s[i]);
            if acc1.len() >= MAX_LIT {
                spec_compress_loop(s, i + 1, Seq::<u8>::empty(), out + spec_lit_bytes(acc1))
            } else {
                spec_compress_loop(s, i + 1, acc1, out)
            }
        }
    }
}

/// What compression yields on a non-empty buffer `s`: the first byte seeds
/// the literal run, and the scan proceeds from position 1.
pub open spec fn spec_compress(s: Seq<u8>) -> Seq<u8>
    recommends
        s.len() > 0,
{
    spec_compress_loop(s, 1, seq![s[0]], Seq::<u8>::empty())
}

/// Appends all of `src` to `out`.
fn push_all(out: &mut Vec<u8>, src: &Vec<u8>)
    ensures
        final(out)@ == old(out)@ + src@,
{
    assert(old(out)@ + src@.take(0) =~= old(out)@);
    let mut k: usize = 0;
    while k < src.len()
        invariant
            k <= src@.len(),
            out@ == old(out)@ + src@.take(k as int),
        decreases src@.len() - k,
    {
        out.push(src[k]);
        assert(src@.take(k + 1) =~= src@.take(k as int).push(src@[k as int]));
        k = k + 1;
    }
    assert(src@.take(src@.len() as int) =~= src@);
}

/// Compresses `input` into a stream of encoded chunks, or reports an
/// invalid-input error exactly when the buffer is empty.
#[verifier::rlimit(80)]
pub fn compress(input: &[u8]) -> (r: Result<Vec<u8>, LzError>)
    ensures
        match r {
            Ok(out) => input@.len() > 0 && out@ == spec_compress(input@),
            Err(e) => input@.len() == 0 && e == LzError::InvalidInput,
        },
{
    let n = input.len();
    if n == 0 {
        return Err(LzError::InvalidInput);
    }
    let mut output: Vec<u8> = Vec::new();
    let mut acc: Vec<u8> = Vec::new();
    acc.push(input[0]);
    assert(acc@ =~= seq![input@[0]]);
    assert(output@ =~= Seq::<u8>::empty());
    let mut i: usize = 1;
    while i < n
        invariant
            n == input@.len(),
            1 <= i <= n,
            acc@.len() < MAX_LIT,
            spec_compress_loop(input@, i as int, acc@, output@) == spec_compress(input@),
        decreases n - i,
    {
        let start_index: usize = if i > MAX_DIST {
            i - MAX_DIST
        } else {
            0
        };
        let win_len: usize = if i > MAX_LEN {
            MAX_LEN
        } else {
            i
        };
        assert(start_index == spec_window_start(i as int));
        assert(win_len == spec_window_len(i as int));
        assert(start_index + win_len <= i);
        let mut max_len: usize = 0;
        let mut best_dist: usize = 0;
        let mut j: usize = 0;
        while j < win_len
            invariant
                n == input@.len(),
                1 <= i < n,
                j <= win_len,
                start_index + win_len <= i,
                start_index >= i - MAX_DIST,
                max_len <= MAX_LEN,
                max_len <= n - i,
                max_len > 0 ==> 1 <= best_dist <= MAX_DIST,
                spec_scan(
                    input@,
                    i as int,
                    j as int,
                    win_len as int,
                    start_index as int,
                    max_len as nat,
                    best_dist as nat,
                ) == spec_best_match(input@, i as int),
            decreases win_len - j,
        {
            let src = start_index + j;
            let mut len: usize = 0;
            while len < MAX_LEN && i + len < n && input[src + len] == input[i + len]
                invariant
                    n == input@.len(),
                    src < i < n,
                    i + len <= n,
                    len <= MAX_LEN,
                    forall|m: int| 0 <= m < len ==> #[trigger] input@[src + m] == input@[i + m],
                decreases n - i - len,
            {
                len = len + 1;
            }
            proof {
                lemma_run_len_split(input@, src as int, i as int, len as int);
                if len == MAX_LEN {
                    assert(spec_run_len(input@, src as int, i as int) >= MAX_LEN);
                } else if i + len == n {
                    assert(spec_run_len(input@, src + len, i + len) == 0);
                } else {
                    assert(input@[src + len] != input@[i + len]);
                    assert(spec_run_len(input@, src + len, i + len) == 0);
                }
                assert(len == spec_match_len(input@, src as int, i as int));
            }
            if len > max_len {
                max_len = len;
                best_dist = i - src;
            }
            j = j + 1;
        }
        if max_len > 6 {
            let ghost acc0 = acc@;
            let ghost out0 = output@;
            if acc.len() != 0 {
                let chunk = Chunk::Data(LitData { data: acc });
                let bs = chunk.bytes();
                push_all(&mut output, &bs);
                acc = Vec::new();
            }
            let br = Chunk::BackRef(BackRef { dist: best_dist as u16, len: max_len as u16 });
            let bs2 = br.bytes();
            push_all(&mut output, &bs2);
            i = i + max_len;
            proof {
                assert(acc@ =~= Seq::<u8>::empty());
                let out1 = if acc0.len() != 0 {
                    out0 + spec_lit_bytes(acc0)
                } else {
                    out0
                };
                assert(output@ == out1 + spec_backref_bytes(best_dist as nat, max_len as nat));
                assert(spec_compress_loop(input@, i as int, acc@, output@) == spec_compress(
                    input@,
                ));
            }
        } else {
            acc.push(input[i]);
            let ghost acc1 = acc@;
            if acc.len() >= MAX_LIT {
                let ghost out0 = output@;
                let chunk = Chunk::Data(LitData { data: acc });
                let bs = chunk.bytes();
                push_all(&mut output, &bs);
                acc = Vec::new();
                assert(acc@ =~= Seq::<u8>::empty());
                assert(output@ == out0 + spec_lit_bytes(acc1));
            }
            i = i + 1;
        }
    }
    if acc.len() != 0 {
        let chunk = Chunk::Data(LitData { data: acc });
        let bs = chunk.bytes();
        push_all(&mut output, &bs);
    }
    Ok(output)
}

} // verus!
