//! The arena itself: an owned sequence of chunks, oldest first, whose last
//! member is the chunk currently receiving allocations, together with the
//! memory source the chunks were granted from.
//!
//! Allocation tries the bump fast path against the current chunk; when the
//! chunk is full a larger one is acquired (doubling the previous size, or
//! covering the request plus the footer, whichever is larger) and the
//! request is served from its start. `reset` collapses the list back to the
//! newest chunk; `destroy` hands every chunk's region back to the source.

use vstd::prelude::*;
use crate::arith::{spec_round_up, max_int, lemma_round_up, lemma_pow2_pos, lemma_pow2_8, lemma_pow2_divides, lemma_mod_zero_transitive, lemma_mod_zero_add, lemma_mod_zero_scale, round_up_to};
use crate::chunk::{Chunk, ChunkModel, Layout, layout_from_size_align, footer_of, region_of, chunk_inv, zeroed, u64_le, write_seq, write_u64_le, used_bytes, CHUNK_FOOTER_SIZE, CHUNK_FOOTER_ALIGN, DEFAULT_CHUNK_SIZE_WITH_FOOTER};
use crate::source::{MemorySource, SourceModel, spec_grant_base, source_fits};

verus! {

/// A fatal allocation condition: the request cannot be satisfied at all.
#[derive(Clone, Copy, PartialEq, Eq, Structural, Debug)]
pub enum AllocError {
    /// The address or size arithmetic the request needs would overflow.
    Overflow,
    /// The memory source cannot supply a further region.
    Exhausted,
}

/// An arena to bump allocate into.
pub struct Bump {
    /// Every chunk this arena has been granted, oldest first; the last is
    /// the chunk currently receiving allocations.
    pub chunks: Vec<Chunk>,
    /// The memory source the chunks were granted from.
    pub source: MemorySource,
}

/// Mathematical image of a `Bump`.
#[verifier::ext_equal]
pub ghost struct BumpModel {
    pub chunks: Seq<ChunkModel>,
    pub source: SourceModel,
}

impl View for Bump {
    type V = BumpModel;

    open spec fn view(&self) -> BumpModel {
        BumpModel {
            chunks: self.chunks@.map_values(|c: Chunk| c@),
            source: self.source@,
        }
    }
}

/// The chunk currently receiving allocations: the newest one.
pub open spec fn cur(b: BumpModel) -> ChunkModel {
    b.chunks.last()
}

/// The arena's invariant: at least one chunk, each well formed, granted in
/// address order without overlap, all below the source's next free address.
pub open spec fn inv(b: BumpModel) -> bool {
    &&& 1 <= b.chunks.len()
    &&& forall|i: int| 0 <= i < b.chunks.len() ==> chunk_inv(#[trigger] b.chunks[i])
    &&& forall|i: int, j: int|
        #![trigger b.chunks[i], b.chunks[j]]
        0 <= i < j < b.chunks.len() ==> b.chunks[i].data + b.chunks[i].size <= b.chunks[j].data
    &&& forall|i: int|
        0 <= i < b.chunks.len() ==> (#[trigger] b.chunks[i]).data + b.chunks[i].size
            <= b.source.next_base
    &&& 1 <= b.source.next_base
}

/// The size of a grown chunk: double the previous chunk, or the rounded
/// request plus room for the footer, whichever is larger.
pub open spec fn grow_size(old_size: int, req_size: int) -> int {
    max_int(
        2 * old_size,
        spec_round_up(req_size, CHUNK_FOOTER_ALIGN as int) + CHUNK_FOOTER_SIZE,
    )
}

/// The alignment of a grown chunk: the larger of the previous chunk's and
/// the request's.
pub open spec fn grow_align(old_align: int, req_align: int) -> int {
    max_int(old_align, req_align)
}

/// The bump finger can be rounded up without leaving the address space.
pub open spec fn round_up_fits(b: BumpModel, align: int) -> bool {
    cur(b).ptr + align - 1 <= usize::MAX
}

/// The rounded finger plus the request stays representable.
pub open spec fn bump_fits_memory(b: BumpModel, size: int, align: int) -> bool {
    spec_round_up(cur(b).ptr, align) + size <= usize::MAX
}

/// The request fits in the current chunk: the fast path succeeds.
pub open spec fn fits_in_current(b: BumpModel, size: int, align: int) -> bool {
    spec_round_up(cur(b).ptr, align) + size <= footer_of(cur(b))
}

/// The arithmetic of the growth path stays representable.
pub open spec fn grow_math_fits(b: BumpModel, size: int, align: int) -> bool {
    &&& 2 * cur(b).size <= usize::MAX
    &&& size + CHUNK_FOOTER_ALIGN - 1 <= usize::MAX
    &&& spec_round_up(size, CHUNK_FOOTER_ALIGN as int) + CHUNK_FOOTER_SIZE <= usize::MAX
}

/// The request is representationally impossible: some address or size
/// computation it needs would overflow. This is the first fatal condition.
pub open spec fn alloc_overflows(b: BumpModel, size: int, align: int) -> bool {
    ||| !round_up_fits(b, align)
    ||| !bump_fits_memory(b, size, align)
    ||| (!fits_in_current(b, size, align) && !grow_math_fits(b, size, align))
}

/// The arithmetic is fine but the memory source cannot supply the grown
/// chunk. This is the second fatal condition.
pub open spec fn alloc_exhausts(b: BumpModel, size: int, align: int) -> bool {
    &&& !alloc_overflows(b, size, align)
    &&& !fits_in_current(b, size, align)
    &&& !source_fits(
        b.source,
        grow_size(cur(b).size, size),
        grow_align(cur(b).align, align),
    )
}

/// The request succeeds: neither fatal condition holds.
pub open spec fn can_alloc(b: BumpModel, size: int, align: int) -> bool {
    &&& !alloc_overflows(b, size, align)
    &&& !alloc_exhausts(b, size, align)
}

/// The fast path: round the finger up, advance it by the size, return the
/// rounded address. Only the current chunk's finger changes.
pub open spec fn spec_fast_alloc(b: BumpModel, size: int, align: int) -> (BumpModel, int) {
    let c = cur(b);
    let a = spec_round_up(c.ptr, align);
    (
        BumpModel {
            chunks: b.chunks.update(b.chunks.len() - 1, ChunkModel { ptr: a + size, ..c }),
            source: b.source,
        },
        a,
    )
}

/// The growth path: a new chunk is granted, spliced on as the newest, its
/// finger advanced by exactly the request's size, and its start returned.
pub open spec fn spec_grow_alloc(b: BumpModel, size: int, align: int) -> (BumpModel, int) {
    let c = cur(b);
    let nsize = grow_size(c.size, size);
    let nalign = grow_align(c.align, align);
    let base = spec_grant_base(b.source, nalign);
    let nc = ChunkModel {
        data: base,
        size: nsize,
        align: nalign,
        ptr: base + size,
        buf: Seq::new((nsize - CHUNK_FOOTER_SIZE) as nat, |i: int| 0u8),
    };
    (
        BumpModel {
            chunks: b.chunks.push(nc),
            source: SourceModel { next_base: base + nsize, released: b.source.released },
        },
        base,
    )
}

/// What allocation does: the fast path when the request fits the current
/// chunk, the growth path otherwise. Meaningful whenever `can_alloc` holds.
pub open spec fn spec_alloc_layout(b: BumpModel, size: int, align: int) -> (BumpModel, int) {
    if fits_in_current(b, size, align) {
        spec_fast_alloc(b, size, align)
    } else {
        spec_grow_alloc(b, size, align)
    }
}

/// The arena after the committed region at `addr` in the newest chunk is
/// filled with the little-endian bytes of `v`.
pub open spec fn spec_store_u64(b: BumpModel, addr: int, v: u64) -> BumpModel {
    let k = b.chunks.len() - 1;
    let c = b.chunks[k];
    BumpModel {
        chunks: b.chunks.update(
            k,
            ChunkModel { buf: write_seq(c.buf, addr - c.data, u64_le(v)), ..c },
        ),
        source: b.source,
    }
}

/// The arena after a reset: only the newest chunk remains, its finger
/// rewound to its start, and every older chunk's region has been handed
/// back to the source, oldest first.
pub open spec fn spec_reset(b: BumpModel) -> BumpModel {
    let c = cur(b);
    BumpModel {
        chunks: seq![ChunkModel { ptr: c.data, ..c }],
        source: SourceModel {
            next_base: b.source.next_base,
            released: b.source.released + b.chunks.drop_last().map_values(
                |cm: ChunkModel| region_of(cm),
            ),
        },
    }
}

/// The source after the arena is destroyed: every chunk's region handed
/// back, oldest first.
pub open spec fn spec_destroy(b: BumpModel) -> SourceModel {
    SourceModel {
        next_base: b.source.next_base,
        released: b.source.released + b.chunks.map_values(|cm: ChunkModel| region_of(cm)),
    }
}

impl Bump {
    /// The arena's invariant, as a predicate on the concrete value.
    pub open spec fn wf(&self) -> bool {
        inv(self@)
    }

    /// The layout of a first chunk: small default size, footer alignment.
    fn default_chunk_layout() -> (l: Layout)
        ensures
            l.wf(),
            l.size == DEFAULT_CHUNK_SIZE_WITH_FOOTER,
            l.align == CHUNK_FOOTER_ALIGN,
    {
        proof {
            lemma_pow2_8();
        }
        layout_from_size_align(DEFAULT_CHUNK_SIZE_WITH_FOOTER, CHUNK_FOOTER_ALIGN)
    }

    /// Acquire one new chunk from the source and initialize its bookkeeping.
    ///
    /// With no prior layouts this is the arena's first chunk, of the default
    /// layout. Otherwise `layouts` is the current chunk's layout and the
    /// layout of the request that forced the growth, and the new chunk's
    /// layout follows the growth rule.
    fn new_chunk(source: &mut MemorySource, layouts: Option<(Layout, Layout)>) -> (c: Chunk)
        requires
            old(source).wf(),
            match layouts {
                None => source_fits(
                    old(source)@,
                    DEFAULT_CHUNK_SIZE_WITH_FOOTER as int,
                    CHUNK_FOOTER_ALIGN as int,
                ),
                Some((old_l, req)) => {
                    &&& old_l.wf()
                    &&& req.wf()
                    &&& CHUNK_FOOTER_ALIGN <= old_l.align
                    &&& old_l.size as int % (CHUNK_FOOTER_ALIGN as int) == 0
                    &&& CHUNK_FOOTER_SIZE <= old_l.size
                    &&& 2 * old_l.size <= usize::MAX
                    &&& req.size + CHUNK_FOOTER_ALIGN - 1 <= usize::MAX
                    &&& spec_round_up(req.size as int, CHUNK_FOOTER_ALIGN as int)
                        + CHUNK_FOOTER_SIZE <= usize::MAX
                    &&& source_fits(
                        old(source)@,
                        grow_size(old_l.size as int, req.size as int),
                        grow_align(old_l.align as int, req.align as int),
                    )
                },
            },
        ensures
            final(source).wf(),
            chunk_inv(c@),
            c@.ptr == c@.data,
            c@.buf =~= Seq::new((c@.size - CHUNK_FOOTER_SIZE) as nat, |i: int| 0u8),
            c@.data == spec_grant_base(old(source)@, c@.align),
            old(source)@.next_base <= c@.data,
            final(source)@.next_base == c@.data + c@.size,
            final(source)@.released =~= old(source)@.released,
            match layouts {
                None => c@.size == DEFAULT_CHUNK_SIZE_WITH_FOOTER as int && c@.align
                    == CHUNK_FOOTER_ALIGN as int,
                Some((old_l, req)) => c@.size == grow_size(old_l.size as int, req.size as int)
                    && c@.align == grow_align(old_l.align as int, req.align as int),
            },
    {
        let l = match layouts {
            None => Self::default_chunk_layout(),
            Some((old_l, requested)) => {
                let old_doubled = old_l.size * 2;
                proof {
                    lemma_pow2_8();
                    lemma_round_up(requested.size as int, CHUNK_FOOTER_ALIGN as int);
                }
                let requested_size = round_up_to(requested.size, CHUNK_FOOTER_ALIGN);
                let with_footer = requested_size + CHUNK_FOOTER_SIZE;
                let size = if old_doubled >= with_footer {
                    old_doubled
                } else {
                    with_footer
                };
                let align = if old_l.align >= requested.align {
                    old_l.align
                } else {
                    requested.align
                };
                layout_from_size_align(size, align)
            },
        };
        let size = l.size;
        proof {
            lemma_pow2_8();
            match layouts {
                None => {},
                Some((old_l, req)) => {
                    lemma_round_up(req.size as int, CHUNK_FOOTER_ALIGN as int);
                    lemma_mod_zero_scale(old_l.size as int, 2, CHUNK_FOOTER_ALIGN as int);
                    lemma_mod_zero_add(
                        spec_round_up(req.size as int, CHUNK_FOOTER_ALIGN as int),
                        CHUNK_FOOTER_SIZE as int,
                        CHUNK_FOOTER_ALIGN as int,
                    );
                },
            }
        }
        let data = source.request_region(size, l.align);
        let buf = zeroed(size - CHUNK_FOOTER_SIZE);
        let c = Chunk { data, size, align: l.align, ptr: data, buf };
        proof {
            lemma_pow2_pos(c@.align);
        }
        c
    }

    /// Construct a new arena with one default-sized chunk to allocate into.
    pub fn new() -> (b: Bump)
        ensures
            b.wf(),
            b@.chunks.len() == 1,
            b@.chunks[0].size == DEFAULT_CHUNK_SIZE_WITH_FOOTER as int,
            b@.chunks[0].align == CHUNK_FOOTER_ALIGN as int,
            b@.chunks[0].ptr == b@.chunks[0].data,
            b@.chunks[0].buf =~= Seq::new(
                (DEFAULT_CHUNK_SIZE_WITH_FOOTER - CHUNK_FOOTER_SIZE) as nat,
                |i: int| 0u8,
            ),
            b@.source.released =~= Seq::<crate::source::RegionModel>::empty(),
            b@.source.next_base == b@.chunks[0].data + b@.chunks[0].size,
    {
        let mut source = MemorySource::new();
        proof {
            lemma_pow2_8();
            lemma_round_up(1, CHUNK_FOOTER_ALIGN as int);
        }
        let chunk = Self::new_chunk(&mut source, None);
        let mut chunks: Vec<Chunk> = Vec::new();
        chunks.push(chunk);
        let b = Bump { chunks, source };
        proof {
            assert(b@.chunks =~= seq![chunk@]);
        }
        b
    }

    /// The error reported when a request's address or size arithmetic
    /// cannot be represented at all.
    pub fn overflow(&self) -> (e: AllocError)
        ensures
            e == AllocError::Overflow,
    {
        AllocError::Overflow
    }

    /// Allocate space for an object of the given layout, returning the
    /// address of the reserved region. The region's bytes start zeroed and
    /// are the caller's to fill; alignment must be a power of two and the
    /// request must be satisfiable (`can_alloc`) — an unsatisfiable request
    /// is a fatal condition, reported by `try_alloc_layout` instead.
    pub fn alloc_layout(&mut self, layout: Layout) -> (r: usize)
        requires
            old(self).wf(),
            layout.wf(),
            can_alloc(old(self)@, layout.size as int, layout.align as int),
        ensures
            final(self).wf(),
            final(self)@ =~= spec_alloc_layout(
                old(self)@,
                layout.size as int,
                layout.align as int,
            ).0,
            r as int == spec_alloc_layout(old(self)@, layout.size as int, layout.align as int).1,
            r as int % layout.align as int == 0,
    {
        proof {
            lemma_pow2_pos(layout.align as int);
        }
        let n = self.chunks.len();
        let ptr = self.chunks[n - 1].ptr;
        proof {
            lemma_round_up(ptr as int, layout.align as int);
        }
        let aligned = round_up_to(ptr, layout.align);
        let footer = self.chunks[n - 1].data + self.chunks[n - 1].size - CHUNK_FOOTER_SIZE;
        let new_ptr = aligned + layout.size;
        if new_ptr <= footer {
            let mut c = self.chunks.pop().unwrap();
            c.ptr = new_ptr;
            self.chunks.push(c);
            proof {
                let size = layout.size as int;
                let align = layout.align as int;
                let b0 = old(self)@;
                assert(self@.chunks =~= b0.chunks.update(
                    b0.chunks.len() - 1,
                    ChunkModel { ptr: aligned as int + size, ..cur(b0) },
                ));
                assert(self@ =~= spec_fast_alloc(b0, size, align).0);
                assert forall|i: int| 0 <= i < self@.chunks.len() implies chunk_inv(
                    #[trigger] self@.chunks[i],
                ) by {
                    assert(chunk_inv(b0.chunks[i]));
                }
                assert(inv(self@));
            }
            return aligned;
        }
        self.alloc_layout_slow(layout)
    }

    /// The growth path: acquire a larger chunk from the source, splice it on
    /// as the newest, and serve the request from its start. Invoked only
    /// once the fast path has found the current chunk too small.
    fn alloc_layout_slow(&mut self, layout: Layout) -> (r: usize)
        requires
            old(self).wf(),
            layout.wf(),
            can_alloc(old(self)@, layout.size as int, layout.align as int),
            !fits_in_current(old(self)@, layout.size as int, layout.align as int),
        ensures
            final(self).wf(),
            final(self)@ =~= spec_grow_alloc(
                old(self)@,
                layout.size as int,
                layout.align as int,
            ).0,
            r as int == spec_grow_alloc(old(self)@, layout.size as int, layout.align as int).1,
            r as int % layout.align as int == 0,
    {
        let ghost b0 = old(self)@;
        let ghost size = layout.size as int;
        let ghost align = layout.align as int;
        let n = self.chunks.len();
        let current_layout = layout_from_size_align(
            self.chunks[n - 1].size,
            self.chunks[n - 1].align,
        );
        let footer = Self::new_chunk(&mut self.source, Some((current_layout, layout)));
        let mut c = footer;
        let r = c.data;
        proof {
            lemma_pow2_8();
            lemma_round_up(size, CHUNK_FOOTER_ALIGN as int);
            assert(size + CHUNK_FOOTER_SIZE <= c@.size);
        }
        c.ptr = c.data + layout.size;
        self.chunks.push(c);
        proof {
            let (b1, addr) = spec_grow_alloc(b0, size, align);
            assert(self@.chunks =~= b1.chunks);
            assert(self@ =~= b1);
            // the new chunk is well formed and in address order
            assert(chunk_inv(self@.chunks.last()));
            assert forall|i: int| 0 <= i < self@.chunks.len() implies chunk_inv(
                #[trigger] self@.chunks[i],
            ) by {
                if i < b0.chunks.len() {
                    assert(chunk_inv(b0.chunks[i]));
                }
            }
            assert(inv(self@));
            // the returned base is aligned for the request
            lemma_pow2_pos(align);
            lemma_pow2_pos(cur(b0).align);
            let nalign = grow_align(cur(b0).align, align);
            lemma_pow2_divides(align, nalign);
            lemma_mod_zero_transitive(r as int, align, nalign);
        }
        r
    }

    /// Allocate a 64-bit value in the arena and return the address of the
    /// region now holding its little-endian bytes.
    pub fn alloc_val(&mut self, val: u64) -> (r: usize)
        requires
            old(self).wf(),
            can_alloc(old(self)@, 8, 8),
        ensures
            final(self).wf(),
            r as int == spec_alloc_layout(old(self)@, 8, 8).1,
            final(self)@ =~= spec_store_u64(spec_alloc_layout(old(self)@, 8, 8).0, r as int, val),
            r as int % 8 == 0,
    {
        proof {
            lemma_pow2_8();
        }
        let layout = layout_from_size_align(8, CHUNK_FOOTER_ALIGN);
        let ghost b0 = old(self)@;
        let p = self.alloc_layout(layout);
        proof {
            let (b1, addr) = spec_alloc_layout(b0, 8, 8);
            let c = b1.chunks.last();
            if fits_in_current(b0, 8, 8) {
                lemma_round_up(cur(b0).ptr, 8);
            }
            assert(c.data <= addr && addr + 8 == c.ptr);
        }
        let mut c = self.chunks.pop().unwrap();
        let off = p - c.data;
        write_u64_le(&mut c.buf, off, val);
        self.chunks.push(c);
        proof {
            let (b1, addr) = spec_alloc_layout(b0, 8, 8);
            assert(self@.chunks =~= spec_store_u64(b1, p as int, val).chunks);
            assert(self@ =~= spec_store_u64(b1, p as int, val));
            assert forall|i: int| 0 <= i < self@.chunks.len() implies chunk_inv(
                #[trigger] self@.chunks[i],
            ) by {
                assert(chunk_inv(b1.chunks[i]));
            }
            assert(inv(self@));
        }
        p
    }

    /// Try to allocate space for the given layout: the address on success,
    /// or which of the two fatal conditions makes the request impossible —
    /// overflowing arithmetic, or an exhausted memory source. On failure
    /// the arena is left exactly as it was.
    pub fn try_alloc_layout(&mut self, layout: Layout) -> (r: Result<usize, AllocError>)
        requires
            old(self).wf(),
            layout.wf(),
        ensures
            final(self).wf(),
            match r {
                Ok(addr) => {
                    &&& can_alloc(old(self)@, layout.size as int, layout.align as int)
                    &&& final(self)@ =~= spec_alloc_layout(
                        old(self)@,
                        layout.size as int,
                        layout.align as int,
                    ).0
                    &&& addr as int == spec_alloc_layout(
                        old(self)@,
                        layout.size as int,
                        layout.align as int,
                    ).1
                    &&& addr as int % layout.align as int == 0
                },
                Err(e) => {
                    &&& !can_alloc(old(self)@, layout.size as int, layout.align as int)
                    &&& final(self)@ =~= old(self)@
                    &&& (e == AllocError::Overflow <==> alloc_overflows(
                        old(self)@,
                        layout.size as int,
                        layout.align as int,
                    ))
                    &&& (e == AllocError::Exhausted <==> alloc_exhausts(
                        old(self)@,
                        layout.size as int,
                        layout.align as int,
                    ))
                },
            },
    {
        proof {
            lemma_pow2_pos(layout.align as int);
            lemma_pow2_8();
        }
        let n = self.chunks.len();
        let ptr = self.chunks[n - 1].ptr;
        if layout.align - 1 > usize::MAX - ptr {
            return Err(self.overflow());
        }
        proof {
            lemma_round_up(ptr as int, layout.align as int);
        }
        let aligned = round_up_to(ptr, layout.align);
        if layout.size > usize::MAX - aligned {
            return Err(self.overflow());
        }
        let footer = self.chunks[n - 1].data + self.chunks[n - 1].size - CHUNK_FOOTER_SIZE;
        if aligned + layout.size <= footer {
            return Ok(self.alloc_layout(layout));
        }
        let csize = self.chunks[n - 1].size;
        if csize > usize::MAX / 2 {
            proof {
                assert(2 * csize as int > usize::MAX) by (nonlinear_arith)
                    requires
                        csize as int > usize::MAX as int / 2,
                ;
            }
            return Err(self.overflow());
        }
        proof {
            assert(2 * csize as int <= usize::MAX) by (nonlinear_arith)
                requires
                    csize as int <= usize::MAX as int / 2,
            ;
        }
        if layout.size > usize::MAX - (CHUNK_FOOTER_ALIGN - 1) {
            return Err(self.overflow());
        }
        proof {
            lemma_round_up(layout.size as int, CHUNK_FOOTER_ALIGN as int);
        }
        let rounded = round_up_to(layout.size, CHUNK_FOOTER_ALIGN);
        if rounded > usize::MAX - CHUNK_FOOTER_SIZE {
            return Err(self.overflow());
        }
        // the growth arithmetic fits; check the source can supply the chunk
        let old_doubled = csize * 2;
        let with_footer = rounded + CHUNK_FOOTER_SIZE;
        let nsize = if old_doubled >= with_footer {
            old_doubled
        } else {
            with_footer
        };
        let calign = self.chunks[n - 1].align;
        let nalign = if calign >= layout.align {
            calign
        } else {
            layout.align
        };
        if nalign - 1 > usize::MAX - self.source.next_base {
            return Err(AllocError::Exhausted);
        }
        proof {
            lemma_pow2_pos(nalign as int);
            lemma_round_up(self.source.next_base as int, nalign as int);
        }
        let base = round_up_to(self.source.next_base, nalign);
        if nsize > usize::MAX - base {
            return Err(AllocError::Exhausted);
        }
        Ok(self.alloc_layout(layout))
    }

    /// Reset the arena, reclaiming every allocation at once.
    ///
    /// The newest (largest) chunk is kept and its bump finger rewound to its
    /// start; every older chunk's region is handed back to the memory
    /// source, oldest first. No per-object cleanup of the reclaimed bytes
    /// is run — the arena holds opaque bytes and owes none.
    pub fn reset(&mut self)
        requires
            old(self).wf(),
        ensures
            final(self).wf(),
            final(self)@ =~= spec_reset(old(self)@),
            final(self)@.chunks.len() == 1,
            final(self)@.chunks[0].ptr == final(self)@.chunks[0].data,
    {
        let ghost b0 = old(self)@;
        let mut kept = self.chunks.pop().unwrap();
        kept.ptr = kept.data;
        let n = self.chunks.len();
        let mut i: usize = 0;
        while i < n
            invariant
                n == self.chunks.len(),
                i <= n,
                self.chunks@.map_values(|c: Chunk| c@) =~= b0.chunks.drop_last(),
                self.source.wf(),
                self.source@.next_base == b0.source.next_base,
                self.source@.released =~= b0.source.released + b0.chunks.drop_last().map_values(
                    |cm: ChunkModel| region_of(cm),
                ).take(i as int),
            decreases n - i,
        {
            let data = self.chunks[i].data;
            let size = self.chunks[i].size;
            let align = self.chunks[i].align;
            self.source.release_region(data, size, align);
            i = i + 1;
            proof {
                let regions = b0.chunks.drop_last().map_values(|cm: ChunkModel| region_of(cm));
                assert(self.source@.released =~= b0.source.released + regions.take(i as int));
            }
        }
        self.chunks.clear();
        self.chunks.push(kept);
        proof {
            let regions = b0.chunks.drop_last().map_values(|cm: ChunkModel| region_of(cm));
            assert(regions.take(n as int) =~= regions);
            assert(self@.chunks =~= spec_reset(b0).chunks);
            assert(self@ =~= spec_reset(b0));
            assert(chunk_inv(b0.chunks.last()));
            assert(inv(self@));
        }
    }

    /// Destroy the arena, handing every chunk's region back to the memory
    /// source, oldest first, each with the exact layout it was granted
    /// under. The source is returned so the release record can be read.
    pub fn destroy(self) -> (s: MemorySource)
        requires
            self.wf(),
        ensures
            s.wf(),
            s@ =~= spec_destroy(self@),
    {
        let ghost b0 = self@;
        let Bump { chunks, mut source } = self;
        let n = chunks.len();
        let mut i: usize = 0;
        while i < n
            invariant
                n == chunks.len(),
                i <= n,
                chunks@.map_values(|c: Chunk| c@) =~= b0.chunks,
                source.wf(),
                source@.next_base == b0.source.next_base,
                source@.released =~= b0.source.released + b0.chunks.map_values(
                    |cm: ChunkModel| region_of(cm),
                ).take(i as int),
            decreases n - i,
        {
            let data = chunks[i].data;
            let size = chunks[i].size;
            let align = chunks[i].align;
            source.release_region(data, size, align);
            i = i + 1;
            proof {
                let regions = b0.chunks.map_values(|cm: ChunkModel| region_of(cm));
                assert(source@.released =~= b0.source.released + regions.take(i as int));
            }
        }
        proof {
            let regions = b0.chunks.map_values(|cm: ChunkModel| region_of(cm));
            assert(regions.take(n as int) =~= regions);
            assert(source@ =~= spec_destroy(b0));
        }
        source
    }

    /// Read back the eight committed bytes at `addr` in chunk `idx` as the
    /// little-endian value they encode.
    pub fn read_u64(&self, idx: usize, addr: usize) -> (r: u64)
        requires
            self.wf(),
            idx < self@.chunks.len(),
            self@.chunks[idx as int].data <= addr,
            addr + 8 <= self@.chunks[idx as int].ptr,
        ensures
            r == vstd::bytes::spec_u64_from_le_bytes(
                self@.chunks[idx as int].buf.subrange(
                    addr - self@.chunks[idx as int].data,
                    addr - self@.chunks[idx as int].data + 8,
                ),
            ),
    {
        proof {
            assert(chunk_inv(self@.chunks[idx as int]));
        }
        let data = self.chunks[idx].data;
        let off = addr - data;
        let mut bytes: Vec<u8> = Vec::new();
        let mut k: usize = 0;
        while k < 8
            invariant
                k <= 8,
                inv(self@),
                idx < self.chunks.len(),
                off == addr - self@.chunks[idx as int].data,
                off + 8 <= self.chunks[idx as int].buf.len(),
                bytes@.len() == k,
                forall|i: int|
                    0 <= i < k ==> bytes@[i] == self@.chunks[idx as int].buf[off + i],
            decreases 8 - k,
        {
            let byte = self.chunks[idx].buf[off + k];
            bytes.push(byte);
            k = k + 1;
        }
        proof {
            assert(bytes@ =~= self@.chunks[idx as int].buf.subrange(
                off as int,
                off as int + 8,
            ));
        }
        vstd::bytes::u64_from_le_bytes(bytes.as_slice())
    }

    /// The committed bytes of every chunk, oldest chunk first: each entry is
    /// the chunk's start address and the prefix of its usable region that
    /// the bump finger has passed. The bytes are reported as the arena holds
    /// them; what they mean is entirely the caller's affair.
    pub fn each_allocated_chunk(&self) -> (out: Vec<(usize, Vec<u8>)>)
        requires
            self.wf(),
        ensures
            out@.len() == self@.chunks.len(),
            forall|i: int|
                0 <= i < out@.len() ==> (#[trigger] out@[i]).0 as int == self@.chunks[i].data
                    && out@[i].1@ =~= used_bytes(self@.chunks[i]),
    {
        let n = self.chunks.len();
        let mut out: Vec<(usize, Vec<u8>)> = Vec::new();
        let mut i: usize = 0;
        while i < n
            invariant
                n == self.chunks.len(),
                i <= n,
                inv(self@),
                out@.len() == i,
                forall|k: int|
                    0 <= k < i ==> (#[trigger] out@[k]).0 as int == self@.chunks[k].data
                        && out@[k].1@ =~= used_bytes(self@.chunks[k]),
            decreases n - i,
        {
            proof {
                assert(chunk_inv(self@.chunks[i as int]));
            }
            let data = self.chunks[i].data;
            let used = self.chunks[i].ptr - data;
            let mut bytes: Vec<u8> = Vec::new();
            let mut j: usize = 0;
            while j < used
                invariant
                    i < n,
                    n == self.chunks.len(),
                    inv(self@),
                    used as int == self@.chunks[i as int].ptr - self@.chunks[i as int].data,
                    used <= self.chunks[i as int].buf.len(),
                    bytes@.len() == j,
                    j <= used,
                    forall|k: int|
                        0 <= k < j ==> bytes@[k] == self@.chunks[i as int].buf[k],
                decreases used - j,
            {
                let byte = self.chunks[i].buf[j];
                bytes.push(byte);
                j = j + 1;
            }
            proof {
                assert(bytes@ =~= used_bytes(self@.chunks[i as int]));
            }
            out.push((data, bytes));
            i = i + 1;
        }
        out
    }
}

} // verus!
