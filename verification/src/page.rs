//! Virtual pages and their decomposition into the four table indices.

use vstd::prelude::*;
use crate::frame::PAGE_SIZE;

verus! {

/// Number of virtual pages in the canonical 48-bit address space.
pub const PAGE_COUNT: u64 = 0x10_0000_0000;

/// One level's worth of entries in a page table.
pub const ENTRY_COUNT: usize = 512;

/// A representation of one page of virtual memory, identified by its virtual
/// page index.  A page is purely a value: it carries no allocator tie.
#[derive(PartialEq, Eq, Structural, Debug, Clone, Copy)]
pub struct Page {
    pub index: u64,
}

/// The top-level table index of a page, from the highest nine bits of its
/// 36-bit index.
pub open spec fn p4s(p: Page) -> int {
    ((p.index >> 27) & 0x1ff) as int
}

/// The third-level table index of a page.
pub open spec fn p3s(p: Page) -> int {
    ((p.index >> 18) & 0x1ff) as int
}

/// The second-level table index of a page.
pub open spec fn p2s(p: Page) -> int {
    ((p.index >> 9) & 0x1ff) as int
}

/// The leaf-level table index of a page.
pub open spec fn p1s(p: Page) -> int {
    (p.index & 0x1ff) as int
}

impl Page {
    /// A page index lies within the canonical 48-bit virtual address space.
    pub open spec fn wf(self) -> bool {
        self.index < PAGE_COUNT
    }

    /// Constructs the page with the given virtual page index.
    pub fn new(index: u64) -> (r: Page)
        requires
            index < PAGE_COUNT,
        ensures
            r.index == index,
            r.wf(),
    {
        Page { index }
    }

    /// Retrieves the page containing a particular virtual address.  Addresses
    /// outside the canonical 48-bit space are a caller error and are excluded
    /// here outright.
    pub fn containing_address(address: u64) -> (r: Page)
        requires
            address < 0x1_0000_0000_0000,
        ensures
            r.index == (address as int) / (PAGE_SIZE as int),
            r.wf(),
    {
        proof {
            assert((address as int) / (PAGE_SIZE as int) < 0x10_0000_0000) by(nonlinear_arith)
                requires address < 0x1_0000_0000_0000;
        }
        Page { index: address / PAGE_SIZE }
    }

    /// The virtual address at which this page starts.
    pub fn start_address(&self) -> (r: u64)
        requires
            self.wf(),
        ensures
            r == self.index * PAGE_SIZE,
    {
        proof {
            let x = self.index;
            assert(x * 4096 == x << 12 && x << 12 <= 0xffff_ffff_f000u64) by(bit_vector)
                requires x < 0x10_0000_0000;
        }
        self.index << 12
    }

    /// The top-level table index this page decomposes into.
    pub fn p4_index(&self) -> (r: usize)
        ensures
            r == p4s(*self),
            r < ENTRY_COUNT,
    {
        proof {
            let x = self.index;
            assert((x >> 27) & 0x1ff < 512) by(bit_vector);
        }
        ((self.index >> 27) & 0x1ff) as usize
    }

    /// The third-level table index this page decomposes into.
    pub fn p3_index(&self) -> (r: usize)
        ensures
            r == p3s(*self),
            r < ENTRY_COUNT,
    {
        proof {
            let x = self.index;
            assert((x >> 18) & 0x1ff < 512) by(bit_vector);
        }
        ((self.index >> 18) & 0x1ff) as usize
    }

    /// The second-level table index this page decomposes into.
    pub fn p2_index(&self) -> (r: usize)
        ensures
            r == p2s(*self),
            r < ENTRY_COUNT,
    {
        proof {
            let x = self.index;
            assert((x >> 9) & 0x1ff < 512) by(bit_vector);
        }
        ((self.index >> 9) & 0x1ff) as usize
    }

    /// The leaf-level table index this page decomposes into.
    pub fn p1_index(&self) -> (r: usize)
        ensures
            r == p1s(*self),
            r < ENTRY_COUNT,
    {
        proof {
            let x = self.index;
            assert(x & 0x1ff < 512) by(bit_vector);
        }
        (self.index & 0x1ff) as usize
    }
}

/// Every table index of a page lies below 512.
pub proof fn lemma_page_index_bounds(p: Page)
    ensures
        0 <= p4s(p) < 512,
        0 <= p3s(p) < 512,
        0 <= p2s(p) < 512,
        0 <= p1s(p) < 512,
{
    let x = p.index;
    assert((x >> 27) & 0x1ff < 512 && (x >> 18) & 0x1ff < 512 && (x >> 9) & 0x1ff < 512 && x
        & 0x1ff < 512) by(bit_vector);
}

/// Two well-formed pages with the same four table indices are the same page.
pub proof fn lemma_page_indices_injective(p: Page, q: Page)
    requires
        p.wf(),
        q.wf(),
        p4s(p) == p4s(q),
        p3s(p) == p3s(q),
        p2s(p) == p2s(q),
        p1s(p) == p1s(q),
    ensures
        p.index == q.index,
{
    let a = p.index;
    let b = q.index as u64;
    assert(a == b) by(bit_vector)
        requires
            a < 0x10_0000_0000,
            b < 0x10_0000_0000,
            (a >> 27) & 0x1ff == (b >> 27) & 0x1ff,
            (a >> 18) & 0x1ff == (b >> 18) & 0x1ff,
            (a >> 9) & 0x1ff == (b >> 9) & 0x1ff,
            a & 0x1ff == b & 0x1ff;
}

} // verus!
