//! Block framing: the 32-byte block header and the metadata sub-blocks that
//! follow it.

use vstd::prelude::*;
use crate::error::{Error, Scope};
use crate::format::{
    DSD_FLAG, FINAL_BLOCK, Flags, HYBRID_FLAG, INITIAL_BLOCK, MAX_BLOCK_SAMPLES, MAX_STREAM_VERS,
    MIN_STREAM_VERS,
};

verus! {

/// The size of a block header in bytes.
pub const HEADER_LEN: usize = 32;

/// The little-endian 16-bit value at byte `o`.
pub open spec fn le16(s: Seq<u8>, o: int) -> u16 {
    (s[o] + 256 * s[o + 1]) as u16
}

/// The little-endian 32-bit value at byte `o`.
pub open spec fn le32(s: Seq<u8>, o: int) -> u32 {
    (s[o] + 256 * s[o + 1] + 65536 * s[o + 2] + 16777216 * s[o + 3]) as u32
}

pub fn read_le16(s: &[u8], o: usize) -> (r: u16)
    requires
        o + 2 <= s@.len(),
    ensures
        r == le16(s@, o as int),
{
    let b0 = s[o];
    let b1 = s[o + 1];
    assert((b0 as u16) | ((b1 as u16) << 8u16) == b0 + 256 * b1) by (bit_vector);
    (b0 as u16) | ((b1 as u16) << 8)
}

pub fn read_le32(s: &[u8], o: usize) -> (r: u32)
    requires
        o + 4 <= s@.len(),
    ensures
        r == le32(s@, o as int),
{
    let b0 = s[o];
    let b1 = s[o + 1];
    let b2 = s[o + 2];
    let b3 = s[o + 3];
    assert((b0 as u32) | ((b1 as u32) << 8u32) | ((b2 as u32) << 16u32) | ((b3 as u32) << 24u32)
        == b0 + 256 * b1 + 65536 * b2 + 16777216 * b3) by (bit_vector);
    (b0 as u32) | ((b1 as u32) << 8) | ((b2 as u32) << 16) | ((b3 as u32) << 24)
}

/// A parsed block header.
#[derive(Clone, Copy, Debug)]
pub struct BlockHeader {
    /// The block's size less 8 (the magic and this field).
    pub ck_size: u32,
    pub version: u16,
    pub block_index_u8: u8,
    pub total_samples_u8: u8,
    pub total_samples: u32,
    pub block_index: u32,
    /// The number of frames in this block.
    pub block_samples: u32,
    pub flags: Flags,
    /// The checksum of the decoded samples.
    pub crc: u32,
}

/// The header fields at the start of `s`.
pub open spec fn header_of(s: Seq<u8>) -> BlockHeader {
    BlockHeader {
        ck_size: le32(s, 4),
        version: le16(s, 8),
        block_index_u8: s[10],
        total_samples_u8: s[11],
        total_samples: le32(s, 12),
        block_index: le32(s, 16),
        block_samples: le32(s, 20),
        flags: Flags(le32(s, 24)),
        crc: le32(s, 28),
    }
}

pub open spec fn has_magic(s: Seq<u8>) -> bool {
    s[0] == 0x77u8 && s[1] == 0x76u8 && s[2] == 0x70u8 && s[3] == 0x6bu8
}

/// A count clamped to the machine word.
pub open spec fn clamp_usize(n: int) -> usize {
    if n > usize::MAX {
        usize::MAX
    } else {
        n as usize
    }
}

/// Parsing the block header at the start of `s`, with every check a block
/// must pass: magic, version, a sane and present size, and a scope this
/// codec handles (no DSD, no hybrid, one block per frame, at most
/// `MAX_BLOCK_SAMPLES` frames).
pub open spec fn parse_header(s: Seq<u8>) -> Result<BlockHeader, Error> {
    if s.len() < 32 {
        Err(Error::Truncated { need: 32, have: s.len() as usize })
    } else if !has_magic(s) {
        Err(Error::BadMagic)
    } else {
        let h = header_of(s);
        let f = h.flags.0;
        if h.version < MIN_STREAM_VERS || h.version > MAX_STREAM_VERS {
            Err(Error::UnsupportedVersion(h.version))
        } else if h.ck_size < 24 || h.ck_size % 2 != 0 {
            Err(Error::BadBlockSize)
        } else if h.ck_size + 8 > s.len() {
            Err(Error::Truncated { need: clamp_usize(h.ck_size + 8), have: s.len() as usize })
        } else if f & DSD_FLAG != 0 {
            Err(Error::OutOfScope(Scope::Dsd))
        } else if f & HYBRID_FLAG != 0 {
            Err(Error::OutOfScope(Scope::Hybrid))
        } else if f & INITIAL_BLOCK == 0 || f & FINAL_BLOCK == 0 {
            Err(Error::OutOfScope(Scope::MoreThanTwoChannels))
        } else if h.block_samples > MAX_BLOCK_SAMPLES {
            Err(Error::BadBlockSize)
        } else {
            Ok(h)
        }
    }
}

/// The blocks of a stream in order: each a header and its sub-block area;
/// parsing stops at the first malformed block, whose error ends the list.
pub open spec fn blocks_of(s: Seq<u8>) -> Seq<Result<(BlockHeader, Seq<u8>), Error>>
    decreases s.len(),
{
    if s.len() == 0 {
        Seq::empty()
    } else {
        match parse_header(s) {
            Err(e) => seq![Err(e)],
            Ok(h) => {
                let n = h.ck_size + 8;
                seq![Ok((h, s.subrange(32, n)))] + blocks_of(s.skip(n))
            },
        }
    }
}

fn parse_header_exec(s: &[u8], pos: usize) -> (r: Result<BlockHeader, Error>)
    requires
        pos <= s@.len(),
    ensures
        r == parse_header(s@.skip(pos as int)),
{
    let ghost t = s@.skip(pos as int);
    let have = s.len() - pos;
    if have < HEADER_LEN {
        return Err(Error::Truncated { need: 32, have });
    }
    if !(s[pos] == 0x77 && s[pos + 1] == 0x76 && s[pos + 2] == 0x70 && s[pos + 3] == 0x6b) {
        return Err(Error::BadMagic);
    }
    let ck_size = read_le32(s, pos + 4);
    let version = read_le16(s, pos + 8);
    let total_samples = read_le32(s, pos + 12);
    let block_index = read_le32(s, pos + 16);
    let block_samples = read_le32(s, pos + 20);
    let flags = read_le32(s, pos + 24);
    let crc = read_le32(s, pos + 28);
    let h = BlockHeader {
        ck_size,
        version,
        block_index_u8: s[pos + 10],
        total_samples_u8: s[pos + 11],
        total_samples,
        block_index,
        block_samples,
        flags: Flags(flags),
        crc,
    };
    proof {
        assert(h == header_of(t));
    }
    if version < MIN_STREAM_VERS || version > MAX_STREAM_VERS {
        return Err(Error::UnsupportedVersion(version));
    }
    if ck_size < 24 || ck_size % 2 != 0 {
        return Err(Error::BadBlockSize);
    }
    if (ck_size as u64) + 8 > have as u64 {
        let need = if (ck_size as u64) + 8 > usize::MAX as u64 {
            usize::MAX
        } else {
            ck_size as usize + 8
        };
        return Err(Error::Truncated { need, have });
    }
    if flags & DSD_FLAG != 0 {
        return Err(Error::OutOfScope(Scope::Dsd));
    }
    if flags & HYBRID_FLAG != 0 {
        return Err(Error::OutOfScope(Scope::Hybrid));
    }
    if flags & INITIAL_BLOCK == 0 || flags & FINAL_BLOCK == 0 {
        return Err(Error::OutOfScope(Scope::MoreThanTwoChannels));
    }
    if block_samples > MAX_BLOCK_SAMPLES {
        return Err(Error::BadBlockSize);
    }
    Ok(h)
}

/// One block: its header and its sub-block area.
pub struct Block<'a> {
    pub header: BlockHeader,
    pub data: &'a [u8],
}

/// The blocks of a stream, in order.
pub struct Blocks<'a> {
    stream: &'a [u8],
    pos: usize,
    done: bool,
}

impl<'a> Blocks<'a> {
    /// The blocks still to come.
    pub closed spec fn pending(&self) -> Seq<Result<(BlockHeader, Seq<u8>), Error>> {
        if self.done {
            Seq::empty()
        } else {
            blocks_of(self.stream@.skip(self.pos as int))
        }
    }

    pub closed spec fn wf(&self) -> bool {
        self.pos <= self.stream@.len()
    }

    pub fn new(stream: &'a [u8]) -> (r: Self)
        ensures
            r.wf(),
            r.pending() == blocks_of(stream@),
    {
        assert(stream@.skip(0) =~= stream@);
        Blocks { stream, pos: 0, done: false }
    }

    /// The next block, or its parse error (after which there are no more).
    pub fn next(&mut self) -> (r: Option<Result<Block<'a>, Error>>)
        requires
            old(self).wf(),
        ensures
            final(self).wf(),
            old(self).pending().len() == 0 ==> r is None && final(self).pending().len() == 0,
            old(self).pending().len() > 0 ==> {
                &&& final(self).pending() == old(self).pending().drop_first()
                &&& match old(self).pending()[0] {
                    Err(e) => r == Some(Err::<Block<'a>, Error>(e)),
                    Ok((h, d)) => r matches Some(Ok(b)) && b.header == h && b.data@ == d
                        && d.len() + 24 == h.ck_size && h.block_samples <= MAX_BLOCK_SAMPLES,
                }
            },
    {
        let ghost t = self.stream@.skip(self.pos as int);
        if self.done || self.pos == self.stream.len() {
            return None;
        }
        match parse_header_exec(self.stream, self.pos) {
            Err(e) => {
                self.done = true;
                Some(Err(e))
            },
            Ok(h) => {
                let n = h.ck_size as usize + 8;
                let data = slice_range(self.stream, self.pos + HEADER_LEN, self.pos + n);
                self.pos = self.pos + n;
                proof {
                    assert(data@ =~= t.subrange(32, n as int));
                    assert(self.stream@.skip(self.pos as int) =~= t.skip(n as int));
                    assert(blocks_of(t).drop_first() =~= blocks_of(t.skip(n as int)));
                }
                Some(Ok(Block { header: h, data }))
            },
        }
    }
}

/// The sub-slice `s[a..b]`.
pub fn slice_range<'a>(s: &'a [u8], a: usize, b: usize) -> (r: &'a [u8])
    requires
        a <= b <= s@.len(),
    ensures
        r@ == s@.subrange(a as int, b as int),
{
    &s[a..b]
}

/// The metadata sub-blocks of a block's data area in order: each an
/// identifier (framing bits removed) and its data; parsing stops at the
/// first malformed one, whose error ends the list.
pub open spec fn subs_of(d: Seq<u8>) -> Seq<Result<(u8, Seq<u8>), Error>>
    decreases d.len(),
{
    if d.len() == 0 {
        Seq::empty()
    } else {
        let idb = d[0];
        let large = idb & 0x80u8 != 0;
        let hl: int = if large {
            4
        } else {
            2
        };
        if d.len() < hl {
            seq![Err(Error::Truncated { need: hl as usize, have: d.len() as usize })]
        } else {
            let words: int = if large {
                d[1] + 256 * d[2] + 65536 * d[3]
            } else {
                d[1] as int
            };
            let size = 2 * words;
            let odd = idb & 0x40u8 != 0;
            if d.len() < hl + size {
                seq![Err(Error::Truncated { need: (hl + size) as usize, have: d.len() as usize })]
            } else if odd && size == 0 {
                seq![Err(Error::BadSubBlock { id: idb & 0x3fu8 })]
            } else {
                let dl = if odd {
                    size - 1
                } else {
                    size
                };
                seq![Ok((idb & 0x3fu8, d.subrange(hl, hl + dl)))] + subs_of(d.skip(hl + size))
            }
        }
    }
}

/// Every sub-block's data lies within the area it was parsed from.
pub proof fn lemma_subs_within(d: Seq<u8>)
    ensures
        forall|i: int| 0 <= i < subs_of(d).len() ==> (#[trigger] subs_of(d)[i] matches Ok((id, x)) ==> x.len() <= d.len()),
    decreases d.len(),
{
    if d.len() > 0 {
        let idb = d[0];
        let large = idb & 0x80u8 != 0;
        let hl: int = if large {
            4
        } else {
            2
        };
        if d.len() >= hl {
            let words: int = if large {
                d[1] + 256 * d[2] + 65536 * d[3]
            } else {
                d[1] as int
            };
            let size = 2 * words;
            let odd = idb & 0x40u8 != 0;
            if d.len() >= hl + size && !(odd && size == 0) {
                let rest = d.skip(hl + size);
                lemma_subs_within(rest);
                assert forall|i: int| 0 <= i < subs_of(d).len() implies (#[trigger] subs_of(d)[i] matches Ok((id, x)) ==> x.len() <= d.len()) by {
                    if i > 0 {
                        assert(subs_of(d)[i] == subs_of(rest)[i - 1]);
                    }
                }
            }
        }
    }
}

/// One metadata sub-block.
pub struct SubBlock<'a> {
    pub id: u8,
    pub data: &'a [u8],
}

/// The sub-blocks of a block, in order.
pub struct SubBlocks<'a> {
    data: &'a [u8],
    pos: usize,
    done: bool,
}

impl<'a> Block<'a> {
    pub fn sub_blocks(&self) -> (r: SubBlocks<'a>)
        ensures
            r.wf(),
            r.pending() == subs_of(self.data@),
    {
        assert(self.data@.skip(0) =~= self.data@);
        SubBlocks { data: self.data, pos: 0, done: false }
    }
}

impl<'a> SubBlocks<'a> {
    /// The sub-blocks still to come.
    pub closed spec fn pending(&self) -> Seq<Result<(u8, Seq<u8>), Error>> {
        if self.done {
            Seq::empty()
        } else {
            subs_of(self.data@.skip(self.pos as int))
        }
    }

    pub closed spec fn wf(&self) -> bool {
        self.pos <= self.data@.len()
    }

    /// The next sub-block, or its framing error (after which there are no
    /// more).
    pub fn next(&mut self) -> (r: Option<Result<SubBlock<'a>, Error>>)
        requires
            old(self).wf(),
        ensures
            final(self).wf(),
            old(self).pending().len() == 0 ==> r is None && final(self).pending().len() == 0,
            old(self).pending().len() > 0 ==> {
                &&& final(self).pending() == old(self).pending().drop_first()
                &&& match old(self).pending()[0] {
                    Err(e) => r == Some(Err::<SubBlock<'a>, Error>(e)),
                    Ok((id, d)) => r matches Some(Ok(b)) && b.id == id && b.data@ == d,
                }
            },
    {
        let ghost t = self.data@.skip(self.pos as int);
        if self.done || self.pos == self.data.len() {
            return None;
        }
        let have = self.data.len() - self.pos;
        let idb = self.data[self.pos];
        let large = idb & 0x80 != 0;
        let hl: usize = if large { 4 } else { 2 };
        if have < hl {
            self.done = true;
            return Some(Err(Error::Truncated { need: hl, have }));
        }
        let words: usize = if large {
            let b1 = self.data[self.pos + 1];
            let b2 = self.data[self.pos + 2];
            let b3 = self.data[self.pos + 3];
            assert((b1 as u32) | ((b2 as u32) << 8u32) | ((b3 as u32) << 16u32) == b1 + 256 * b2
                + 65536 * b3) by (bit_vector);
            ((b1 as u32) | ((b2 as u32) << 8) | ((b3 as u32) << 16)) as usize
        } else {
            self.data[self.pos + 1] as usize
        };
        let size = 2 * words;
        let odd = idb & 0x40 != 0;
        if have < hl + size {
            self.done = true;
            return Some(Err(Error::Truncated { need: hl + size, have }));
        }
        if odd && size == 0 {
            self.done = true;
            return Some(Err(Error::BadSubBlock { id: idb & 0x3f }));
        }
        let dl = if odd { size - 1 } else { size };
        let data = slice_range(self.data, self.pos + hl, self.pos + hl + dl);
        self.pos = self.pos + hl + size;
        proof {
            assert(data@ =~= t.subrange(hl as int, (hl + dl) as int));
            assert(self.data@.skip(self.pos as int) =~= t.skip((hl + size) as int));
            assert(subs_of(t).drop_first() =~= subs_of(t.skip((hl + size) as int)));
        }
        Some(Ok(SubBlock { id: idb & 0x3f, data }))
    }
}

} // verus!
