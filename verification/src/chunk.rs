//! Chunks: one contiguous region granted by the memory source, with its
//! bookkeeping (start address, layout, bump finger) and its owned bytes.
//!
//! The bookkeeping footer is budgeted at the high end of the region itself,
//! as in a fully intrusive layout; the record is owned here, but its
//! footprint is kept: the usable bytes of a chunk of `size` total bytes are
//! `size - CHUNK_FOOTER_SIZE`, and the finger never enters the footer.

use vstd::prelude::*;
use vstd::pervasive::VecAdditionalExecFns;
use crate::arith::is_pow2;
use crate::source::RegionModel;

verus! {

/// Size in bytes of the bookkeeping footer embedded at the high end of each
/// chunk: start address, layout size, layout alignment, next-chunk link and
/// bump finger — five eight-byte words.
pub const CHUNK_FOOTER_SIZE: usize = 40;

/// Alignment the footer itself needs; every chunk is at least this aligned.
pub const CHUNK_FOOTER_ALIGN: usize = 8;

/// Typical bookkeeping overhead a system allocator adds per region.
pub const MALLOC_OVERHEAD: usize = 16;

/// Total size of the first chunk, footer included: small, since chunks
/// double as the arena grows, and shaved by the allocator's own overhead.
pub const DEFAULT_CHUNK_SIZE_WITH_FOOTER: usize = 512 - MALLOC_OVERHEAD;

/// A size/alignment pair describing a requested or granted region.
#[derive(Clone, Copy, PartialEq, Eq, Structural, Debug)]
pub struct Layout {
    pub size: usize,
    pub align: usize,
}

impl Layout {
    /// The alignment is a power of two, as every layout's must be.
    pub open spec fn wf(&self) -> bool {
        is_pow2(self.align as int)
    }
}

/// Build a layout from a size and a power-of-two alignment.
pub fn layout_from_size_align(size: usize, align: usize) -> (l: Layout)
    requires
        is_pow2(align as int),
    ensures
        l.wf(),
        l.size == size,
        l.align == align,
{
    Layout { size, align }
}

/// One chunk: the granted region's base address and layout, the bump finger,
/// and the usable bytes themselves.
pub struct Chunk {
    /// Base address of the region, as granted by the memory source.
    pub data: usize,
    /// Total size of the region, footer included.
    pub size: usize,
    /// Alignment the region was granted with.
    pub align: usize,
    /// The bump finger: address of the next free byte.
    pub ptr: usize,
    /// The usable bytes `[data, data + size - CHUNK_FOOTER_SIZE)`.
    pub buf: Vec<u8>,
}

/// Mathematical image of a `Chunk`.
#[verifier::ext_equal]
pub ghost struct ChunkModel {
    pub data: int,
    pub size: int,
    pub align: int,
    pub ptr: int,
    pub buf: Seq<u8>,
}

impl View for Chunk {
    type V = ChunkModel;

    open spec fn view(&self) -> ChunkModel {
        ChunkModel {
            data: self.data as int,
            size: self.size as int,
            align: self.align as int,
            ptr: self.ptr as int,
            buf: self.buf@,
        }
    }
}

/// Address of the footer: first byte past the usable region.
pub open spec fn footer_of(c: ChunkModel) -> int {
    c.data + c.size - CHUNK_FOOTER_SIZE
}

/// The region this chunk occupies, with the layout it was granted under.
pub open spec fn region_of(c: ChunkModel) -> RegionModel {
    RegionModel { data: c.data, size: c.size, align: c.align }
}

/// The bytes committed so far: the prefix of the usable region up to the
/// bump finger.
pub open spec fn used_bytes(c: ChunkModel) -> Seq<u8> {
    c.buf.subrange(0, c.ptr - c.data)
}

/// Well-formedness of a chunk's bookkeeping.
pub open spec fn chunk_inv(c: ChunkModel) -> bool {
    &&& is_pow2(c.align)
    &&& CHUNK_FOOTER_ALIGN <= c.align
    &&& c.size % (CHUNK_FOOTER_ALIGN as int) == 0
    &&& CHUNK_FOOTER_SIZE <= c.size
    &&& 1 <= c.data
    &&& c.data % c.align == 0
    &&& c.data + c.size <= usize::MAX
    &&& c.data <= c.ptr <= footer_of(c)
    &&& c.buf.len() == c.size - CHUNK_FOOTER_SIZE
}

/// The eight little-endian bytes of a 64-bit value.
pub open spec fn u64_le(v: u64) -> Seq<u8> {
    Seq::new(8, |i: int| ((v >> ((8 * i) as u64)) & 0xff) as u8)
}

/// Reading back the eight bytes written for a value yields the value: the
/// little-endian store round-trips.
pub proof fn lemma_u64_le_round_trip(v: u64)
    ensures
        u64_le(v).len() == 8,
        vstd::bytes::spec_u64_from_le_bytes(u64_le(v)) == v,
{
    vstd::bytes::lemma_auto_spec_u64_to_from_le_bytes();
    vstd::bytes::spec_u64_to_le_bytes_to_open(v);
    assert(v >> 0u64 == v) by (bit_vector);
    assert(u64_le(v) =~= vstd::bytes::spec_u64_to_le_bytes_open(v));
}

/// `s` with the window starting at `off` replaced by `bytes`.
pub open spec fn write_seq(s: Seq<u8>, off: int, bytes: Seq<u8>) -> Seq<u8> {
    Seq::new(
        s.len(),
        |i: int|
            if off <= i < off + bytes.len() {
                bytes[i - off]
            } else {
                s[i]
            },
    )
}

/// Write the little-endian bytes of `v` into `buf` at offset `off`.
pub fn write_u64_le(buf: &mut Vec<u8>, off: usize, v: u64)
    requires
        off + 8 <= old(buf).len(),
        off + 8 <= usize::MAX,
    ensures
        final(buf)@ =~= write_seq(old(buf)@, off as int, u64_le(v)),
{
    let mut k: usize = 0;
    while k < 8
        invariant
            k <= 8,
            off + 8 <= usize::MAX,
            off + 8 <= buf@.len(),
            buf@.len() == old(buf)@.len(),
            forall|i: int|
                off <= i < off + k ==> buf@[i] == u64_le(v)[i - off],
            forall|i: int|
                0 <= i < buf@.len() && !(off <= i < off + k) ==> buf@[i] == old(buf)@[i],
        decreases 8 - k,
    {
        let shift = (8 * k) as u64;
        proof {
            assert((v >> shift) & 0xff <= 0xff) by (bit_vector);
        }
        let byte = ((v >> shift) & 0xff) as u8;
        buf.set(off + k, byte);
        k = k + 1;
    }
}

/// A vector of `n` zero bytes: fresh chunk memory.
pub fn zeroed(n: usize) -> (v: Vec<u8>)
    ensures
        v@ =~= Seq::new(n as nat, |i: int| 0u8),
{
    let mut v: Vec<u8> = Vec::new();
    let mut i: usize = 0;
    while i < n
        invariant
            i <= n,
            v@.len() == i,
            forall|k: int| 0 <= k < i ==> v@[k] == 0u8,
        decreases n - i,
    {
        v.push(0u8);
        i = i + 1;
    }
    v
}

} // verus!
