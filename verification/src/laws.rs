//! The allocator's laws: properties that hold of every allocation sequence,
//! stated over the arena's mathematical model and proved from the same spec
//! functions the executable contracts use.

use vstd::prelude::*;
use crate::arith::{spec_round_up, is_pow2, lemma_round_up, lemma_pow2_8, lemma_pow2_pos, lemma_pow2_divides, lemma_mod_zero_transitive};
use crate::chunk::{ChunkModel, footer_of, region_of, chunk_inv, used_bytes, u64_le, lemma_u64_le_round_trip, CHUNK_FOOTER_ALIGN};
use crate::source::{spec_grant_base, RegionModel};
use crate::arena::{BumpModel, cur, inv, fits_in_current, grow_align, spec_alloc_layout, spec_store_u64, spec_reset, spec_destroy};

verus! {

/// Each fast-path allocation returns a region that lies inside the usable
/// part of the current chunk — at or past the finger, ending at or before
/// the footer — and leaves the finger at the region's end.
pub proof fn lemma_bump_within(b: BumpModel, size: int, align: int)
    requires
        inv(b),
        is_pow2(align),
        size >= 0,
        fits_in_current(b, size, align),
    ensures
        ({
            let (b1, a) = spec_alloc_layout(b, size, align);
            &&& cur(b).data <= cur(b).ptr <= a
            &&& a + size <= footer_of(cur(b))
            &&& cur(b1).ptr == a + size
            &&& a % align == 0
        }),
{
    assert(chunk_inv(b.chunks[b.chunks.len() - 1]));
    lemma_pow2_pos(align);
    lemma_round_up(cur(b).ptr, align);
}

/// Bump monotonicity: the regions of two consecutive fast-path allocations
/// never overlap — the second begins at or past the end of the first — and
/// both lie inside the chunk's usable region.
pub proof fn lemma_bump_monotonic(b: BumpModel, s1: int, a1: int, s2: int, a2: int)
    requires
        inv(b),
        is_pow2(a1),
        is_pow2(a2),
        s1 >= 0,
        s2 >= 0,
        fits_in_current(b, s1, a1),
        fits_in_current(spec_alloc_layout(b, s1, a1).0, s2, a2),
    ensures
        ({
            let (b1, r1) = spec_alloc_layout(b, s1, a1);
            let (b2, r2) = spec_alloc_layout(b1, s2, a2);
            &&& cur(b).data <= r1
            &&& r1 + s1 <= r2
            &&& r2 + s2 <= footer_of(cur(b))
        }),
{
    lemma_bump_within(b, s1, a1);
    let (b1, r1) = spec_alloc_layout(b, s1, a1);
    lemma_pow2_pos(a2);
    lemma_round_up(cur(b1).ptr, a2);
}

/// Alignment correctness: for every power-of-two alignment, the returned
/// address is a multiple of it, whichever path serves the request.
pub proof fn lemma_alloc_aligned(b: BumpModel, size: int, align: int)
    requires
        inv(b),
        is_pow2(align),
    ensures
        spec_alloc_layout(b, size, align).1 % align == 0,
{
    assert(chunk_inv(b.chunks[b.chunks.len() - 1]));
    lemma_pow2_pos(align);
    if fits_in_current(b, size, align) {
        lemma_round_up(cur(b).ptr, align);
    } else {
        let nalign = grow_align(cur(b).align, align);
        lemma_round_up(b.source.next_base, nalign);
        lemma_pow2_divides(align, nalign);
        lemma_mod_zero_transitive(spec_grant_base(b.source, nalign), align, nalign);
    }
}

/// Growth correctness: a request the current chunk cannot hold creates
/// exactly one new chunk — the older chunks untouched — sized at least
/// double the previous chunk and at least the rounded request, and the
/// request is served from the new chunk's start, within its usable region.
pub proof fn lemma_growth(b: BumpModel, size: int, align: int)
    requires
        inv(b),
        is_pow2(align),
        size >= 0,
        !fits_in_current(b, size, align),
    ensures
        ({
            let (b1, r) = spec_alloc_layout(b, size, align);
            &&& b1.chunks.len() == b.chunks.len() + 1
            &&& forall|i: int|
                0 <= i < b.chunks.len() ==> b1.chunks[i] == #[trigger] b.chunks[i]
            &&& cur(b1).size >= 2 * cur(b).size
            &&& cur(b1).size >= spec_round_up(size, CHUNK_FOOTER_ALIGN as int)
            &&& r == cur(b1).data
            &&& cur(b1).ptr == r + size
            &&& r + size <= footer_of(cur(b1))
        }),
{
    lemma_round_up(size, CHUNK_FOOTER_ALIGN as int);
}

/// Destruction releases everything: destroying an arena that was never
/// reset hands back precisely its chunks' regions, oldest first, each
/// exactly once.
pub proof fn lemma_destroy_releases_each_once(b: BumpModel)
    requires
        inv(b),
        b.source.released.len() == 0,
    ensures
        ({
            let rel = spec_destroy(b).released;
            &&& rel.len() == b.chunks.len()
            &&& forall|i: int|
                0 <= i < b.chunks.len() ==> rel[i] == region_of(#[trigger] b.chunks[i])
            &&& rel.no_duplicates()
        }),
{
    let rel = spec_destroy(b).released;
    let regions = b.chunks.map_values(|cm: ChunkModel| region_of(cm));
    assert(rel =~= regions);
    assert forall|i: int, j: int|
        0 <= i < rel.len() && 0 <= j < rel.len() && i != j implies rel[i] != rel[j] by {
        let lo = if i < j {
            i
        } else {
            j
        };
        let hi = if i < j {
            j
        } else {
            i
        };
        assert(chunk_inv(b.chunks[lo]));
        assert(b.chunks[lo].data + b.chunks[lo].size <= b.chunks[hi].data);
    }
}

/// An allocated value round-trips: after a 64-bit store, the eight bytes at
/// the returned address — in the chunk that served the request — are exactly
/// the little-endian image of the value, and decoding them yields it back.
pub proof fn lemma_store_round_trip(b: BumpModel, v: u64)
    requires
        inv(b),
    ensures
        ({
            let (b1, addr) = spec_alloc_layout(b, 8, 8);
            let b2 = spec_store_u64(b1, addr, v);
            let c = cur(b2);
            &&& c.data <= addr
            &&& addr + 8 == c.ptr
            &&& c.buf.subrange(addr - c.data, addr - c.data + 8) =~= u64_le(v)
            &&& vstd::bytes::spec_u64_from_le_bytes(
                c.buf.subrange(addr - c.data, addr - c.data + 8),
            ) == v
        }),
{
    assert(chunk_inv(b.chunks[b.chunks.len() - 1]));
    lemma_pow2_8();
    lemma_u64_le_round_trip(v);
    let (b1, addr) = spec_alloc_layout(b, 8, 8);
    let b2 = spec_store_u64(b1, addr, v);
    let c = cur(b2);
    if fits_in_current(b, 8, 8) {
        lemma_round_up(cur(b).ptr, 8);
    } else {
        lemma_round_up(8, CHUNK_FOOTER_ALIGN as int);
        lemma_round_up(b.source.next_base, grow_align(cur(b).align, 8));
        lemma_pow2_pos(grow_align(cur(b).align, 8));
    }
    assert(c.buf.subrange(addr - c.data, addr - c.data + 8) =~= u64_le(v));
}

/// The total committed bytes across a sequence of chunks: what every bump
/// finger has passed.
pub open spec fn total_used(chunks: Seq<ChunkModel>) -> int
    decreases chunks.len(),
{
    if chunks.len() == 0 {
        0
    } else {
        total_used(chunks.drop_last()) + (chunks.last().ptr - chunks.last().data)
    }
}

/// The total length of a sequence of byte ranges.
pub open spec fn total_len(out: Seq<Seq<u8>>) -> int
    decreases out.len(),
{
    if out.len() == 0 {
        0
    } else {
        total_len(out.drop_last()) + out.last().len()
    }
}

/// Iteration coverage: byte ranges that report, chunk for chunk, the used
/// prefix of each chunk have total length exactly the bytes committed via
/// the bump fingers — no more, no less.
pub proof fn lemma_iteration_coverage(chunks: Seq<ChunkModel>, out: Seq<Seq<u8>>)
    requires
        out.len() == chunks.len(),
        forall|i: int| 0 <= i < chunks.len() ==> chunk_inv(#[trigger] chunks[i]),
        forall|i: int| 0 <= i < out.len() ==> #[trigger] out[i] == used_bytes(chunks[i]),
    ensures
        total_len(out) == total_used(chunks),
    decreases chunks.len(),
{
    if chunks.len() > 0 {
        let cs = chunks.drop_last();
        let os = out.drop_last();
        assert forall|i: int| 0 <= i < os.len() implies #[trigger] os[i] == used_bytes(cs[i]) by {
            assert(out[i] == used_bytes(chunks[i]));
        }
        lemma_iteration_coverage(cs, os);
        assert(chunk_inv(chunks[chunks.len() - 1]));
        assert(out.last().len() == chunks.last().ptr - chunks.last().data);
    }
}

/// All the requests of a sequence are served by the fast path, one after
/// the other, without growing the arena.
pub open spec fn all_fast(b: BumpModel, reqs: Seq<(int, int)>) -> bool
    decreases reqs.len(),
{
    reqs.len() == 0 || {
        &&& fits_in_current(b, reqs[0].0, reqs[0].1)
        &&& all_fast(spec_alloc_layout(b, reqs[0].0, reqs[0].1).0, reqs.drop_first())
    }
}

/// The arena after serving a sequence of requests, with the addresses the
/// requests returned, in order.
pub open spec fn run_allocs(b: BumpModel, reqs: Seq<(int, int)>) -> (BumpModel, Seq<int>)
    decreases reqs.len(),
{
    if reqs.len() == 0 {
        (b, Seq::empty())
    } else {
        let step = spec_alloc_layout(b, reqs[0].0, reqs[0].1);
        let rest = run_allocs(step.0, reqs.drop_first());
        (rest.0, seq![step.1] + rest.1)
    }
}

/// A fast-path run leaves the chunk count and the current chunk's start and
/// size untouched: only the finger moves.
pub proof fn lemma_run_allocs_shape(b: BumpModel, reqs: Seq<(int, int)>)
    requires
        b.chunks.len() >= 1,
        all_fast(b, reqs),
    ensures
        run_allocs(b, reqs).0.chunks.len() == b.chunks.len(),
        run_allocs(b, reqs).0.chunks.last().data == cur(b).data,
        run_allocs(b, reqs).0.chunks.last().size == cur(b).size,
    decreases reqs.len(),
{
    if reqs.len() > 0 {
        let step = spec_alloc_layout(b, reqs[0].0, reqs[0].1);
        lemma_run_allocs_shape(step.0, reqs.drop_first());
    }
}

/// The addresses a fast-path run returns depend only on the current chunk's
/// start, size and finger: two arenas that agree there get the same
/// addresses.
pub proof fn lemma_run_allocs_last_only(b1: BumpModel, b2: BumpModel, reqs: Seq<(int, int)>)
    requires
        b1.chunks.len() >= 1,
        b2.chunks.len() >= 1,
        cur(b1).data == cur(b2).data,
        cur(b1).size == cur(b2).size,
        cur(b1).ptr == cur(b2).ptr,
        all_fast(b1, reqs),
    ensures
        all_fast(b2, reqs),
        run_allocs(b2, reqs).1 =~= run_allocs(b1, reqs).1,
    decreases reqs.len(),
{
    if reqs.len() > 0 {
        let step1 = spec_alloc_layout(b1, reqs[0].0, reqs[0].1);
        let step2 = spec_alloc_layout(b2, reqs[0].0, reqs[0].1);
        lemma_run_allocs_last_only(step1.0, step2.0, reqs.drop_first());
    }
}

/// Resetting an already reset arena changes nothing: one chunk stays, its
/// finger stays at its start, and nothing more is released.
pub proof fn lemma_reset_idempotent(b: BumpModel)
    requires
        b.chunks.len() >= 1,
    ensures
        spec_reset(spec_reset(b)) =~= spec_reset(b),
{
    let b1 = spec_reset(b);
    assert(b1.chunks.drop_last().map_values(|cm: ChunkModel| region_of(cm))
        =~= Seq::<RegionModel>::empty());
    assert(spec_reset(b1).source.released =~= b1.source.released);
    assert(spec_reset(b1).chunks =~= b1.chunks);
}

/// Reset idempotence, replay half: after a run of fast-path allocations
/// from a rewound chunk and a reset, replaying the same requests yields
/// exactly the same addresses — the same address range is reused.
pub proof fn lemma_reset_replay(b: BumpModel, reqs: Seq<(int, int)>)
    requires
        inv(b),
        cur(b).ptr == cur(b).data,
        all_fast(b, reqs),
    ensures
        ({
            let run1 = run_allocs(b, reqs);
            let after_reset = spec_reset(run1.0);
            &&& all_fast(after_reset, reqs)
            &&& run_allocs(after_reset, reqs).1 =~= run1.1
        }),
{
    lemma_run_allocs_shape(b, reqs);
    let run1 = run_allocs(b, reqs);
    let after_reset = spec_reset(run1.0);
    lemma_run_allocs_last_only(b, after_reset, reqs);
}

} // verus!
