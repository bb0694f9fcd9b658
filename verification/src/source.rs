//! The system memory source, modelled as owned bookkeeping.
//!
//! Real backing memory lives in each chunk's own buffer; the source models
//! the address space: it grants fresh, aligned, non-overlapping base
//! addresses from a monotone counter and records every region that is
//! returned to it, so that reclamation can be stated exactly.

use vstd::prelude::*;
use crate::arith::{spec_round_up, is_pow2, lemma_round_up, lemma_pow2_pos, round_up_to};

verus! {

/// One granted region of the address space: base address and the exact
/// layout it was requested with.
#[derive(Clone, Copy, PartialEq, Eq, Structural, Debug)]
pub struct Region {
    pub data: usize,
    pub size: usize,
    pub align: usize,
}

/// Mathematical image of a `Region`.
#[verifier::ext_equal]
pub ghost struct RegionModel {
    pub data: int,
    pub size: int,
    pub align: int,
}

impl View for Region {
    type V = RegionModel;

    open spec fn view(&self) -> RegionModel {
        RegionModel { data: self.data as int, size: self.size as int, align: self.align as int }
    }
}

/// The memory source: a monotone next-free-address counter and the record
/// of every region handed back to it.
pub struct MemorySource {
    pub next_base: usize,
    pub released: Vec<Region>,
}

/// Mathematical image of a `MemorySource`.
#[verifier::ext_equal]
pub ghost struct SourceModel {
    pub next_base: int,
    pub released: Seq<RegionModel>,
}

impl View for MemorySource {
    type V = SourceModel;

    open spec fn view(&self) -> SourceModel {
        SourceModel {
            next_base: self.next_base as int,
            released: self.released@.map_values(|r: Region| r@),
        }
    }
}

/// The base address the source grants to the next request of this alignment.
pub open spec fn spec_grant_base(s: SourceModel, align: int) -> int {
    spec_round_up(s.next_base, align)
}

/// The source can satisfy a request without exhausting the address space.
pub open spec fn source_fits(s: SourceModel, size: int, align: int) -> bool {
    &&& s.next_base + align - 1 <= usize::MAX
    &&& spec_grant_base(s, align) + size <= usize::MAX
}

impl MemorySource {
    /// Addresses start above zero and stay representable.
    pub open spec fn wf(&self) -> bool {
        1 <= self@.next_base
    }

    /// A fresh source: nothing granted, nothing released.
    pub fn new() -> (s: MemorySource)
        ensures
            s.wf(),
            s@.next_base == 1,
            s@.released =~= Seq::<RegionModel>::empty(),
    {
        let s = MemorySource { next_base: 1, released: Vec::new() };
        proof {
            assert(s@.released =~= Seq::<RegionModel>::empty());
        }
        s
    }

    /// Grant a fresh region of `size` bytes aligned to `align`: the base is
    /// the next free address rounded up, and everything granted before lies
    /// strictly below it.
    pub fn request_region(&mut self, size: usize, align: usize) -> (base: usize)
        requires
            old(self).wf(),
            is_pow2(align as int),
            source_fits(old(self)@, size as int, align as int),
        ensures
            final(self).wf(),
            base as int == spec_grant_base(old(self)@, align as int),
            base as int % align as int == 0,
            old(self)@.next_base <= base as int,
            base + size <= usize::MAX,
            final(self)@.next_base == base + size,
            final(self)@.released =~= old(self)@.released,
    {
        proof {
            lemma_pow2_pos(align as int);
            lemma_round_up(self.next_base as int, align as int);
        }
        let base = round_up_to(self.next_base, align);
        self.next_base = base + size;
        base
    }

    /// Take a region back; the caller passes the exact layout it was
    /// granted with, and the region is appended to the release record.
    pub fn release_region(&mut self, data: usize, size: usize, align: usize)
        requires
            old(self).wf(),
        ensures
            final(self).wf(),
            final(self)@.next_base == old(self)@.next_base,
            final(self)@.released =~= old(self)@.released.push(
                RegionModel { data: data as int, size: size as int, align: align as int },
            ),
    {
        self.released.push(Region { data, size, align });
        proof {
            assert(self@.released =~= old(self)@.released.push(
                RegionModel { data: data as int, size: size as int, align: align as int },
            ));
        }
    }
}

} // verus!
