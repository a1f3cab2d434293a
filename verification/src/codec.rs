//! The chunk codec: the two chunk variants and their binary wire format.
//!
//! A chunk starts with a tag byte. Bit 7 distinguishes literal runs (0) from
//! back-references (1); bit 6 distinguishes the short header, whose low six
//! bits hold the length directly (0..=63), from the long header, which is
//! followed by the length as a big-endian 16-bit integer. A back-reference
//! header is followed by the distance: one byte when it is below 128, else
//! two bytes holding the high seven bits (with bit 7 set) and the low eight.

use vstd::prelude::*;

verus! {

/// Largest distance a back-reference may look backward.
pub const MAX_DIST: usize = 32767;

/// Largest length a single back-reference may copy.
pub const MAX_LEN: usize = 32767;

/// Largest number of bytes a single literal chunk may carry.
pub const MAX_LIT: usize = 65535;

/// A back-reference: copy `len` bytes starting `dist` bytes before the
/// current end of the output.
pub struct BackRef {
    pub dist: u16,
    pub len: u16,
}

/// A run of raw bytes copied verbatim into the output.
pub struct LitData {
    pub data: Vec<u8>,
}

/// One encoded unit of the stream.
pub enum Chunk {
    Data(LitData),
    BackRef(BackRef),
}

/// The header bytes of a literal chunk of `len` bytes.
pub open spec fn spec_lit_header(len: nat) -> Seq<u8>
    recommends
        len <= MAX_LIT,
{
    if len < 64 {
        seq![len as u8]
    } else {
        seq![0x40u8, (len / 256) as u8, (len % 256) as u8]
    }
}

/// The full serialized form of a literal chunk carrying `data`.
pub open spec fn spec_lit_bytes(data: Seq<u8>) -> Seq<u8>
    recommends
        data.len() <= MAX_LIT,
{
    spec_lit_header(data.len()) + data
}

/// The full serialized form of a back-reference `(dist, len)`.
pub open spec fn spec_backref_bytes(dist: nat, len: nat) -> Seq<u8>
    recommends
        1 <= dist <= MAX_DIST,
        len <= 65535,
{
    (if len < 64 {
        seq![(128 + len) as u8]
    } else {
        seq![0xC0u8, (len / 256) as u8, (len % 256) as u8]
    }) + (if dist < 128 {
        seq![dist as u8]
    } else {
        seq![(128 + dist / 256) as u8, (dist % 256) as u8]
    })
}

/// The output after replaying a back-reference `(dist, len)` against `out`:
/// `len` bytes are appended one at a time, each read `dist` positions before
/// the current end, so a copy may overlap the bytes it is itself producing.
pub open spec fn spec_backref_copy(out: Seq<u8>, dist: nat, len: nat) -> Seq<u8>
    recommends
        1 <= dist <= out.len(),
    decreases len,
{
    if len == 0 {
        out
    } else {
        let prev = spec_backref_copy(out, dist, (len - 1) as nat);
        prev.push(prev[prev.len() - dist])
    }
}

/// Decodes the whole stream `input` chunk by chunk, appending to `out`;
/// `None` means the stream is malformed: a header or a literal payload is
/// truncated, or a back-reference's distance is zero or exceeds the output
/// produced so far.
pub open spec fn spec_decode(input: Seq<u8>, out: Seq<u8>) -> Option<Seq<u8>>
    decreases input.len(),
{
    if input.len() == 0 {
        Some(out)
    } else {
        let tag = input[0];
        let is_backref = tag >= 128;
        let is_long = if is_backref { tag >= 192 } else { tag >= 64 };
        if is_long && input.len() < 3 {
            None
        } else {
            let len: nat = if is_long {
                (input[1] as nat) * 256 + (input[2] as nat)
            } else if is_backref {
                (tag - 128) as nat
            } else {
                tag as nat
            };
            let rest1 = if is_long { input.skip(3) } else { input.skip(1) };
            if is_backref {
                if rest1.len() == 0 {
                    None
                } else if rest1[0] >= 128 {
                    if rest1.len() < 2 {
                        None
                    } else {
                        let dist: nat = ((rest1[0] - 128) as nat) * 256 + (rest1[1] as nat);
                        if 1 <= dist <= out.len() {
                            spec_decode(rest1.skip(2), spec_backref_copy(out, dist, len))
                        } else {
                            None
                        }
                    }
                } else {
                    let dist: nat = rest1[0] as nat;
                    if 1 <= dist <= out.len() {
                        spec_decode(rest1.skip(1), spec_backref_copy(out, dist, len))
                    } else {
                        None
                    }
                }
            } else {
                if len <= rest1.len() {
                    spec_decode(rest1.skip(len as int), out + rest1.take(len as int))
                } else {
                    None
                }
            }
        }
    }
}

impl Chunk {
    /// The ranges the wire format can represent: a literal chunk carries at
    /// most `MAX_LIT` bytes, a back-reference's distance lies in
    /// `1..=MAX_DIST`.
    pub open spec fn wf(self) -> bool {
        match self {
            Chunk::Data(d) => d.data@.len() <= MAX_LIT,
            Chunk::BackRef(b) => 1 <= b.dist <= MAX_DIST,
        }
    }

    /// The chunk's serialized form.
    pub open spec fn spec_bytes(self) -> Seq<u8> {
        match self {
            Chunk::Data(d) => spec_lit_bytes(d.data@),
            Chunk::BackRef(b) => spec_backref_bytes(b.dist as nat, b.len as nat),
        }
    }

    /// Serializes the chunk, always preferring the short header form.
    pub fn bytes(&self) -> (r: Vec<u8>)
        requires
            self.wf(),
        ensures
            r@ == self.spec_bytes(),
    {
        let mut output: Vec<u8> = Vec::new();
        match self {
            Chunk::Data(data) => {
                let len: usize = data.data.len();
                if len < 64 {
                    output.push(len as u8);
                } else {
                    output.push(0x40);
                    output.push((len / 256) as u8);
                    output.push((len % 256) as u8);
                }
                assert(output@ =~= spec_lit_header(len as nat));
                let mut k: usize = 0;
                while k < data.data.len()
                    invariant
                        k <= data.data@.len(),
                        output@ == spec_lit_header(data.data@.len()) + data.data@.take(k as int),
                    decreases data.data@.len() - k,
                {
                    output.push(data.data[k]);
                    assert(data.data@.take(k + 1) =~= data.data@.take(k as int).push(
                        data.data@[k as int],
                    ));
                    k = k + 1;
                }
                assert(data.data@.take(data.data@.len() as int) =~= data.data@);
            }
            Chunk::BackRef(br) => {
                let len: u16 = br.len;
                let dist: u16 = br.dist;
                if len < 64 {
                    output.push(128 + len as u8);
                } else {
                    output.push(0xC0);
                    output.push((len / 256) as u8);
                    output.push((len % 256) as u8);
                }
                if dist < 128 {
                    output.push(dist as u8);
                } else {
                    output.push(128 + (dist / 256) as u8);
                    output.push((dist % 256) as u8);
                }
                assert(output@ =~= spec_backref_bytes(dist as nat, len as nat));
            }
        }
        output
    }
}

} // verus!
