//! Active and inactive page tables, the temporary page used to bootstrap
//! new tables, and the kernel remap protocol.

use vstd::prelude::*;
use crate::frame::{Frame, FrameAllocator, PAGE_SIZE};
use crate::page::{lemma_page_index_bounds, p1s, p2s, p3s, p4s, Page, PAGE_COUNT};
use crate::table::{
    efr, ent0, lemma_entry_roundtrip, lemma_zero_entry, mappable, mk_entry, mk_entry_spec, present,
    zero_table, FLAG_PRESENT, FLAG_WRITABLE,
};
use crate::mapper::{
    allocator_ok, c1, c2, c3, has_room, in_hier, lemma_hier_agree, lemma_in_hier_dom, missing,
    t1, t2, t3, upd, walk, wf_hier, MapError, Mapper,
};
use crate::table::TableArena;

verus! {

/// The tiny private frame reserve of a temporary page: at most three frames,
/// enough for the three intermediate tables a single mapping can require.
pub struct TinyAllocator {
    pub s0: Option<Frame>,
    pub s1: Option<Frame>,
    pub s2: Option<Frame>,
}

impl TinyAllocator {
    /// Fills the reserve with up to three frames from `allocator`.
    pub fn new<A: FrameAllocator>(allocator: &mut A) -> (r: TinyAllocator)
        requires
            old(allocator).inv(),
        ensures
            r.inv(),
            final(allocator).inv(),
            forall|f: int|
                #[trigger] r.frames().contains(f) ==> old(allocator).frames().contains(f),
            forall|f: int|
                #[trigger] final(allocator).frames().contains(f) ==> old(allocator).frames().contains(f)
                    && !r.frames().contains(f),
            forall|n: int|
                #[trigger] has_room(old(allocator).frames(), n + 3) ==> has_room(
                    final(allocator).frames(),
                    n,
                ),
            has_room(old(allocator).frames(), 3) ==> has_room(r.frames(), 3),
            forall|i: int| old(allocator).accepts(i) ==> #[trigger] final(allocator).accepts(i),
    {
        let ghost fs0 = allocator.frames();
        let s0 = allocator.alloc_frame();
        proof {
            match &s0 {
                Some(f) => {
                    crate::mapper::lemma_room_remove_all(fs0, f.index as int);
                },
                None => {},
            }
        }
        let ghost fs1 = allocator.frames();
        let s1 = allocator.alloc_frame();
        proof {
            match &s1 {
                Some(f) => {
                    crate::mapper::lemma_room_remove_all(fs1, f.index as int);
                },
                None => {},
            }
        }
        let ghost fs2 = allocator.frames();
        let s2 = allocator.alloc_frame();
        proof {
            match &s2 {
                Some(f) => {
                    crate::mapper::lemma_room_remove_all(fs2, f.index as int);
                },
                None => {},
            }
        }
        let r = TinyAllocator { s0, s1, s2 };
        proof {
            if has_room(fs0, 3) {
                assert(!fs0.is_empty()) by {
                    if fs0.is_empty() {
                        crate::mapper::lemma_no_room_empty(fs0, 3);
                    }
                }
                assert(!fs1.is_empty()) by {
                    if fs1.is_empty() {
                        crate::mapper::lemma_no_room_empty(fs1, 2);
                    }
                }
                assert(!fs2.is_empty()) by {
                    if fs2.is_empty() {
                        crate::mapper::lemma_no_room_empty(fs2, 1);
                    }
                }
                let a = r.s0.unwrap().index as int;
                let b = r.s1.unwrap().index as int;
                let c = r.s2.unwrap().index as int;
                assert(r.frames() =~= Set::<int>::empty().insert(a).insert(b).insert(c));
                assert(r.frames().len() == 3);
            }
        }
        r
    }

    /// The frames still held in the reserve.
    pub open spec fn frames_spec(self) -> Set<int> {
        Set::new(
            |i: int| slot_is(self.s0, i) || slot_is(self.s1, i) || slot_is(self.s2, i),
        )
    }
}

/// The tiny reserve never holds more than three frames.
pub proof fn lemma_tiny_len(t: TinyAllocator)
    ensures
        t.frames().finite(),
        t.frames().len() <= 3,
{
    let v0: int = match t.s0 {
        Some(f) => f.index as int,
        None => -1,
    };
    let v1: int = match t.s1 {
        Some(f) => f.index as int,
        None => -1,
    };
    let v2: int = match t.s2 {
        Some(f) => f.index as int,
        None => -1,
    };
    let s3 = Set::<int>::empty().insert(v0).insert(v1).insert(v2);
    assert(t.frames().subset_of(s3));
    vstd::set_lib::lemma_len_subset(t.frames(), s3);
}

/// Whether an optional slot holds the frame with index `i`.
pub open spec fn slot_is(o: Option<Frame>, i: int) -> bool {
    match o {
        Some(f) => f.index == i,
        None => false,
    }
}

/// The frame a slot holds is well formed.
pub open spec fn slot_wf(o: Option<Frame>) -> bool {
    match o {
        Some(f) => f.wf(),
        None => true,
    }
}

/// Two slots do not hold the same frame.
pub open spec fn slots_distinct(a: Option<Frame>, b: Option<Frame>) -> bool {
    match (a, b) {
        (Some(f), Some(g)) => f.index != g.index,
        _ => true,
    }
}

impl FrameAllocator for TinyAllocator {
    open spec fn frames(&self) -> Set<int> {
        self.frames_spec()
    }

    open spec fn inv(&self) -> bool {
        &&& slot_wf(self.s0)
        &&& slot_wf(self.s1)
        &&& slot_wf(self.s2)
        &&& slots_distinct(self.s0, self.s1)
        &&& slots_distinct(self.s0, self.s2)
        &&& slots_distinct(self.s1, self.s2)
    }

    open spec fn accepts(&self, index: int) -> bool {
        self.s0 is None || self.s1 is None || self.s2 is None
    }

    fn alloc_frame(&mut self) -> (r: Option<Frame>) {
        if self.s0.is_some() {
            let f = self.s0.take().unwrap();
            proof {
                assert(self.frames() =~= old(self).frames().remove(f.index as int));
            }
            Some(f)
        } else if self.s1.is_some() {
            let f = self.s1.take().unwrap();
            proof {
                assert(self.frames() =~= old(self).frames().remove(f.index as int));
            }
            Some(f)
        } else if self.s2.is_some() {
            let f = self.s2.take().unwrap();
            proof {
                assert(self.frames() =~= old(self).frames().remove(f.index as int));
            }
            Some(f)
        } else {
            proof {
                assert(self.frames() =~= Set::<int>::empty());
            }
            None
        }
    }

    fn dealloc_frame(&mut self, frame: Frame) {
        if self.s0.is_none() {
            self.s0 = Some(frame);
            proof {
                assert(self.frames() =~= old(self).frames().insert(frame.index as int));
            }
        } else if self.s1.is_none() {
            self.s1 = Some(frame);
            proof {
                assert(self.frames() =~= old(self).frames().insert(frame.index as int));
            }
        } else {
            self.s2 = Some(frame);
            proof {
                assert(self.frames() =~= old(self).frames().insert(frame.index as int));
            }
        }
    }
}

/// The page table the hardware currently walks.  Exactly one exists; it owns
/// the model's arena of table frames and the table base register.
pub struct ActivePageTable {
    pub mapper: Mapper,
}

impl ActivePageTable {
    /// A well-formed active table: the register names a self-mapped root
    /// whose recursive slot holds the canonical present-and-writable
    /// self-entry.
    pub open spec fn wf(self) -> bool {
        &&& self.mapper.wf()
        &&& self.mapper.straight()
        &&& mappable(self.mapper.active_p4 as int)
        &&& ent0(self.mapper.tables@, self.mapper.active_p4 as int, 511) == mk_entry_spec(
            self.mapper.active_p4 as int,
            FLAG_PRESENT | FLAG_WRITABLE,
        )
    }

    /// The leaf entry the active hierarchy holds for `page`.
    pub open spec fn translation(self, page: Page) -> Option<u64> {
        self.mapper.translation(page)
    }

    /// Takes charge of the hardware's paging state.  The state is modelled
    /// as a fresh arena holding the one table the register points at, with
    /// its recursive slot installed; whatever else the boot environment
    /// mapped plays no part in the remap and is not represented.
    pub fn new(p4_frame: Frame) -> (r: ActivePageTable)
        requires
            mappable(p4_frame.index as int),
        ensures
            r.wf(),
            r.mapper.active_p4 == p4_frame.index,
            r.mapper.tables@.dom() =~= Set::<int>::empty().insert(p4_frame.index as int),
            forall|q: Page|
                q.wf() && p4s(q) != 511 ==> #[trigger] r.translation(q) is None,
    {
        let mut tables = TableArena::new();
        tables.install_zeroed(p4_frame.index);
        proof {
            lemma_zero_entry();
            assert((0x1u64 | 0x2u64) & 0x000f_ffff_ffff_f000u64 == 0 && (0x1u64 | 0x2u64)
                & 0x1u64 == 0x1u64) by(bit_vector);
            assert(FLAG_PRESENT | FLAG_WRITABLE == 0x1u64 | 0x2u64);
            lemma_entry_roundtrip(p4_frame.index, FLAG_PRESENT | FLAG_WRITABLE);
        }
        let e = mk_entry(p4_frame.index, FLAG_PRESENT | FLAG_WRITABLE);
        tables.set_entry(p4_frame.index, 511, e);
        let r = ActivePageTable { mapper: Mapper { tables, active_p4: p4_frame.index } };
        proof {
            let m = r.mapper.tables@;
            let rt = p4_frame.index as int;
            assert(m[rt] == zero_table().update(511, e));
            assert forall|x: int| 0 <= x < 511 implies !present(#[trigger] ent0(m, rt, x)) by {
                assert(m[rt][x] == 0u64);
            }
            assert(r.mapper.root() == rt);
            assert(wf_hier(m, rt)) by {
                assert forall|i: int| c3(m, rt, i) implies m.dom().contains(
                    #[trigger] t3(m, rt, i),
                ) && t3(m, rt, i) != rt by {
                    assert(false);
                }
            }
            assert forall|q: Page| q.wf() && p4s(q) != 511 implies #[trigger] r.translation(
                q,
            ) is None by {
                lemma_page_index_bounds(q);
                assert(!present(ent0(m, rt, p4s(q))));
            }
            assert(r.mapper.tables@.dom() =~= Set::<int>::empty().insert(p4_frame.index as int));
        }
        r
    }

    /// Switches to a constructed inactive table, making it the one the
    /// hardware walks; the previously active table comes back as inactive.
    /// The hardware flushes its translation cache on its own when the table
    /// base register is rewritten.
    pub fn switch(&mut self, new_table: InactivePageTable) -> (old_table: InactivePageTable)
        requires
            old(self).mapper.tables.wf(),
            mappable(new_table.p4_frame.index as int),
            old(self).mapper.tables@.dom().contains(new_table.p4_frame.index as int),
            wf_hier(old(self).mapper.tables@, new_table.p4_frame.index as int),
            ent0(old(self).mapper.tables@, new_table.p4_frame.index as int, 511) == mk_entry_spec(
                new_table.p4_frame.index as int,
                FLAG_PRESENT | FLAG_WRITABLE,
            ),
        ensures
            final(self).wf(),
            final(self).mapper.active_p4 == new_table.p4_frame.index,
            final(self).mapper.tables@ == old(self).mapper.tables@,
            old_table.p4_frame.index == old(self).mapper.active_p4,
            forall|q: Page| #[trigger]
                final(self).translation(q) == walk(
                    old(self).mapper.tables@,
                    new_table.p4_frame.index as int,
                    q,
                ),
    {
        let old_frame = Frame { index: self.mapper.active_p4 };
        self.mapper.active_p4 = new_table.p4_frame.index;
        proof {
            assert((0x1u64 | 0x2u64) & 0x000f_ffff_ffff_f000u64 == 0 && (0x1u64 | 0x2u64)
                & 0x1u64 == 0x1u64) by(bit_vector);
            assert(FLAG_PRESENT | FLAG_WRITABLE == 0x1u64 | 0x2u64);
            lemma_entry_roundtrip(new_table.p4_frame.index, FLAG_PRESENT | FLAG_WRITABLE);
            assert(self.mapper.root() == new_table.p4_frame.index as int);
        }
        InactivePageTable { p4_frame: old_frame }
    }
}


/// A single reserved virtual page, backed by a tiny private frame reserve,
/// used to map an arbitrary physical frame into the address space
/// transiently: the only sanctioned way to reach a table frame that is not
/// yet wired into the recursive mapping.
pub struct TemporaryPage {
    pub page: Page,
    pub allocator: TinyAllocator,
}

impl TemporaryPage {
    /// The reserved page is a valid, ordinary page and the reserve is sound.
    pub open spec fn wf(self) -> bool {
        &&& self.page.wf()
        &&& p4s(self.page) != 511
        &&& self.allocator.inv()
    }

    /// Reserves the page and fills the private reserve from `allocator`.
    pub fn new<A: FrameAllocator>(page: Page, allocator: &mut A) -> (r: TemporaryPage)
        requires
            page.wf(),
            p4s(page) != 511,
            old(allocator).inv(),
        ensures
            r.wf(),
            r.page == page,
            final(allocator).inv(),
            forall|f: int|
                #[trigger] r.allocator.frames().contains(f) ==> old(allocator).frames().contains(
                    f,
                ),
            forall|f: int|
                #[trigger] final(allocator).frames().contains(f) ==> old(allocator).frames().contains(f)
                    && !r.allocator.frames().contains(f),
            forall|n: int|
                #[trigger] has_room(old(allocator).frames(), n + 3) ==> has_room(
                    final(allocator).frames(),
                    n,
                ),
            has_room(old(allocator).frames(), 3) ==> has_room(r.allocator.frames(), 3),
            forall|i: int| old(allocator).accepts(i) ==> #[trigger] final(allocator).accepts(i),
    {
        TemporaryPage { page, allocator: TinyAllocator::new(allocator) }
    }

    /// Maps `frame` at the reserved page, writable, in the active table,
    /// drawing any intermediate tables from the private reserve.  Returns
    /// the frame index, which is how the model addresses the newly reachable
    /// table.
    pub fn map_table_frame(&mut self, frame: Frame, active_table: &mut ActivePageTable) -> (r: u64)
        requires
            old(self).wf(),
            old(active_table).wf(),
            mappable(frame.index as int),
            old(active_table).translation(old(self).page) is None,
            allocator_ok(
                old(self).allocator.frames(),
                old(active_table).mapper.tables@,
                old(active_table).mapper.root(),
            ),
            !old(self).allocator.frames().contains(old(active_table).mapper.active_p4 as int),
            has_room(
                old(self).allocator.frames(),
                missing(
                    old(active_table).mapper.tables@,
                    old(active_table).mapper.root(),
                    old(self).page,
                ),
            ),
        ensures
            r == frame.index,
            final(self).wf(),
            final(self).page == old(self).page,
            final(active_table).wf(),
            final(active_table).mapper.active_p4 == old(active_table).mapper.active_p4,
            final(active_table).mapper.root() == old(active_table).mapper.root(),
            final(active_table).translation(old(self).page) == Some(
                mk_entry_spec(frame.index as int, FLAG_WRITABLE | FLAG_PRESENT),
            ),
            forall|q: Page|
                q.wf() && p4s(q) != 511 && q.index != old(self).page.index
                    ==> #[trigger] final(active_table).translation(q) == old(active_table).translation(q),
            forall|t: int|
                #[trigger] old(active_table).mapper.tables@.dom().contains(t) ==> final(active_table).mapper.tables@.dom().contains(t),
            forall|t: int|
                #[trigger] final(active_table).mapper.tables@.dom().contains(t) ==> old(active_table).mapper.tables@.dom().contains(t) || old(self).allocator.frames().contains(t),
            forall|t: int|
                old(active_table).mapper.tables@.dom().contains(t) && !in_hier(
                    old(active_table).mapper.tables@,
                    old(active_table).mapper.root(),
                    t,
                ) && !old(self).allocator.frames().contains(t) ==> #[trigger] final(active_table).mapper.tables@[t] == old(active_table).mapper.tables@[t],
            forall|t: int|
                #[trigger] in_hier(
                    final(active_table).mapper.tables@,
                    old(active_table).mapper.root(),
                    t,
                ) ==> in_hier(
                    old(active_table).mapper.tables@,
                    old(active_table).mapper.root(),
                    t,
                ) || old(self).allocator.frames().contains(t),
            forall|f: int|
                final(self).allocator.frames().contains(f) ==> #[trigger] old(self).allocator.frames().contains(f),
            allocator_ok(
                final(self).allocator.frames(),
                final(active_table).mapper.tables@,
                old(active_table).mapper.root(),
            ),
            forall|n: int|
                #[trigger] has_room(final(self).allocator.frames(), n) <==> has_room(
                    old(self).allocator.frames(),
                    n + missing(
                        old(active_table).mapper.tables@,
                        old(active_table).mapper.root(),
                        old(self).page,
                    ),
                ),
            missing(
                old(active_table).mapper.tables@,
                old(active_table).mapper.root(),
                old(self).page,
            ) == 0 ==> final(self).allocator == old(self).allocator && (forall|t: int|
                t != t1(
                    old(active_table).mapper.tables@,
                    old(active_table).mapper.root(),
                    p4s(old(self).page),
                    p3s(old(self).page),
                    p2s(old(self).page),
                ) ==> (#[trigger] final(active_table).mapper.tables@.dom().contains(t)
                    <==> old(active_table).mapper.tables@.dom().contains(t)) && (old(active_table).mapper.tables@.dom().contains(t) ==> final(active_table).mapper.tables@[t]
                    == old(active_table).mapper.tables@[t])),
    {
        proof {
            assert(0x2u64 & 0x000f_ffff_ffff_f000u64 == 0 && (0x2u64 | 0x1u64) == (0x1u64
                | 0x2u64)) by(bit_vector);
            assert(FLAG_WRITABLE == 0x2u64);
        }
        let idx = frame.index;
        let page = Page { index: self.page.index };
        let res = active_table.mapper.map_to(page, frame, FLAG_WRITABLE, &mut self.allocator);
        match res {
            Ok(()) => {},
            Err(_) => {
                proof {
                    assert(false);
                }
            },
        }
        idx
    }

    /// Removes the transient mapping, returning the mapped frame to the
    /// private reserve.
    pub fn unmap(&mut self, active_table: &mut ActivePageTable)
        requires
            old(self).wf(),
            old(active_table).wf(),
            old(active_table).translation(old(self).page) is Some,
            match old(active_table).translation(old(self).page) {
                Some(e) => old(self).allocator.accepts(efr(e))
                    && !old(self).allocator.frames().contains(efr(e)),
                None => false,
            },
        ensures
            final(self).wf(),
            final(self).page == old(self).page,
            final(active_table).wf(),
            final(active_table).mapper.active_p4 == old(active_table).mapper.active_p4,
            final(active_table).mapper.root() == old(active_table).mapper.root(),
            final(active_table).translation(old(self).page) is None,
            forall|q: Page|
                q.wf() && p4s(q) != 511 && q.index != old(self).page.index
                    ==> #[trigger] final(active_table).translation(q) == old(active_table).translation(q),
            match old(active_table).translation(old(self).page) {
                Some(e) => final(self).allocator.frames() == old(self).allocator.frames().insert(
                    efr(e),
                ),
                None => false,
            },
            forall|t: int|
                #[trigger] final(active_table).mapper.tables@.dom().contains(t) <==> old(active_table).mapper.tables@.dom().contains(t),
            forall|t: int|
                #[trigger] in_hier(
                    final(active_table).mapper.tables@,
                    old(active_table).mapper.root(),
                    t,
                ) <==> in_hier(
                    old(active_table).mapper.tables@,
                    old(active_table).mapper.root(),
                    t,
                ),
            forall|t: int|
                !in_hier(
                    old(active_table).mapper.tables@,
                    old(active_table).mapper.root(),
                    t,
                ) && old(active_table).mapper.tables@.dom().contains(t) ==> #[trigger] final(active_table).mapper.tables@[t] == old(active_table).mapper.tables@[t],
            missing(
                final(active_table).mapper.tables@,
                old(active_table).mapper.root(),
                old(self).page,
            ) == 0,
    {
        let page = Page { index: self.page.index };
        active_table.mapper.unmap(page, &mut self.allocator);
    }
}

/// Owns the top-level frame of a constructed table hierarchy that the
/// hardware is not currently walking.
pub struct InactivePageTable {
    pub p4_frame: Frame,
}

impl InactivePageTable {
    /// Builds a fresh inactive table in `frame`: the frame is transiently
    /// mapped through the temporary page, zeroed, and given its own
    /// recursive self-reference, then unmapped again.  `frame` must be
    /// freshly allocated and otherwise unreferenced.
    pub fn new(
        frame: Frame,
        active_table: &mut ActivePageTable,
        temporary_page: &mut TemporaryPage,
    ) -> (r: InactivePageTable)
        requires
            old(active_table).wf(),
            old(temporary_page).wf(),
            mappable(frame.index as int),
            !old(active_table).mapper.tables@.dom().contains(frame.index as int),
            old(active_table).translation(old(temporary_page).page) is None,
            forall|f: int|
                #[trigger] old(temporary_page).allocator.frames().contains(f) ==> mappable(f)
                    && !old(active_table).mapper.tables@.dom().contains(f),
            !old(temporary_page).allocator.frames().contains(frame.index as int),
            has_room(old(temporary_page).allocator.frames(), 3),
            missing(
                old(active_table).mapper.tables@,
                old(active_table).mapper.root(),
                old(temporary_page).page,
            ) == 3,
        ensures
            r.p4_frame.index == frame.index,
            final(active_table).wf(),
            final(active_table).mapper.active_p4 == old(active_table).mapper.active_p4,
            final(active_table).mapper.root() == old(active_table).mapper.root(),
            final(temporary_page).wf(),
            final(temporary_page).page == old(temporary_page).page,
            final(active_table).translation(old(temporary_page).page) is None,
            forall|q: Page|
                q.wf() && p4s(q) != 511 && q.index != old(temporary_page).page.index
                    ==> #[trigger] final(active_table).translation(q) == old(active_table).translation(q),
            final(active_table).mapper.tables@.dom().contains(frame.index as int),
            wf_hier(final(active_table).mapper.tables@, frame.index as int),
            ent0(final(active_table).mapper.tables@, frame.index as int, 511) == mk_entry_spec(
                frame.index as int,
                FLAG_PRESENT | FLAG_WRITABLE,
            ),
            forall|t: int|
                #[trigger] in_hier(final(active_table).mapper.tables@, frame.index as int, t)
                    <==> t == frame.index as int,
            !in_hier(
                final(active_table).mapper.tables@,
                old(active_table).mapper.root(),
                frame.index as int,
            ),
            missing(
                final(active_table).mapper.tables@,
                old(active_table).mapper.root(),
                old(temporary_page).page,
            ) == 0,
            forall|f: int|
                #[trigger] final(temporary_page).allocator.frames().contains(f) ==> mappable(f)
                    && !in_hier(
                    final(active_table).mapper.tables@,
                    old(active_table).mapper.root(),
                    f,
                ) && f != old(active_table).mapper.active_p4 as int,
            forall|i: int| final(temporary_page).allocator.accepts(i),
            forall|t: int|
                #[trigger] old(active_table).mapper.tables@.dom().contains(t) ==> final(active_table).mapper.tables@.dom().contains(t),
            forall|t: int|
                #[trigger] final(active_table).mapper.tables@.dom().contains(t) ==> old(active_table).mapper.tables@.dom().contains(t) || old(
                    temporary_page,
                ).allocator.frames().contains(t) || t == frame.index as int,
    {
        let ghost m0 = active_table.mapper.tables@;
        let ghost r_act = active_table.mapper.root();
        let ghost tf0 = temporary_page.allocator.frames();
        proof {
            assert(allocator_ok(tf0, m0, r_act)) by {
                assert forall|f: int| #[trigger] tf0.contains(f) implies mappable(f) && !in_hier(
                    m0,
                    r_act,
                    f,
                ) by {
                    if in_hier(m0, r_act, f) {
                        lemma_in_hier_dom(m0, r_act, f);
                    }
                }
            }
            assert(!tf0.contains(active_table.mapper.active_p4 as int));
        }
        let handle = temporary_page.map_table_frame(frame.clone(), active_table);
        let ghost at1 = *active_table;
        let ghost m1 = active_table.mapper.tables@;
        let ghost tf1 = temporary_page.allocator.frames();
        proof {
            // The tiny reserve is exhausted: all three frames went into the
            // scratch page's chain, so the reserve can take one back.
            assert(tf1 =~= Set::<int>::empty()) by {
                lemma_tiny_len(old(temporary_page).allocator);
                assert(!has_room(tf0, 4));
                assert(has_room(tf1, 1) <==> has_room(tf0, 4));
                lemma_tiny_len(temporary_page.allocator);
                if !tf1.is_empty() {
                    let x = tf1.choose();
                    assert(tf1.contains(x));
                    assert(tf1.len() >= 1);
                    assert(has_room(tf1, 1));
                }
            }
            assert(temporary_page.allocator.s0 is None) by {
                if temporary_page.allocator.s0 is Some {
                    assert(tf1.contains(temporary_page.allocator.s0.unwrap().index as int));
                }
            }
            assert(temporary_page.allocator.s1 is None) by {
                if temporary_page.allocator.s1 is Some {
                    assert(tf1.contains(temporary_page.allocator.s1.unwrap().index as int));
                }
            }
            assert(temporary_page.allocator.s2 is None) by {
                if temporary_page.allocator.s2 is Some {
                    assert(tf1.contains(temporary_page.allocator.s2.unwrap().index as int));
                }
            }
            // The new frame is not a table of the active hierarchy.
            assert(!m1.dom().contains(frame.index as int));
            assert(!in_hier(m1, r_act, frame.index as int)) by {
                if in_hier(m1, r_act, frame.index as int) {
                    lemma_in_hier_dom(m1, r_act, frame.index as int);
                }
            }
            let m2 = m1.insert(frame.index as int, zero_table());
            assert forall|t: int| #[trigger] in_hier(m1, r_act, t) implies m2.dom().contains(t)
                && m2[t] == m1[t] by {
                lemma_in_hier_dom(m1, r_act, t);
            }
            lemma_hier_agree(m1, m2, r_act);
        }
        active_table.mapper.tables.install_zeroed(handle);
        let ghost m2 = active_table.mapper.tables@;
        proof {
            assert((0x1u64 | 0x2u64) & 0x000f_ffff_ffff_f000u64 == 0 && (0x1u64 | 0x2u64)
                & 0x1u64 == 0x1u64) by(bit_vector);
            assert(FLAG_PRESENT | FLAG_WRITABLE == 0x1u64 | 0x2u64);
            lemma_entry_roundtrip(frame.index, FLAG_PRESENT | FLAG_WRITABLE);
        }
        let e = mk_entry(handle, FLAG_PRESENT | FLAG_WRITABLE);
        proof {
            let m3 = upd(m2, frame.index as int, 511, e);
            assert forall|t: int| #[trigger] in_hier(m2, r_act, t) implies m3.dom().contains(t)
                && m3[t] == m2[t] by {
                lemma_in_hier_dom(m2, r_act, t);
                assert(t != frame.index as int);
            }
            lemma_hier_agree(m2, m3, r_act);
        }
        active_table.mapper.tables.set_entry(handle, 511, e);
        let ghost m3 = active_table.mapper.tables@;
        proof {
            lemma_zero_entry();
            assert(m3 == upd(m2, frame.index as int, 511, e));
            let n = frame.index as int;
            assert(m3[n] == zero_table().update(511, e));
            assert forall|x: int| 0 <= x < 511 implies !present(#[trigger] ent0(m3, n, x)) by {
                assert(m3[n][x] == 0u64);
            }
            assert(wf_hier(m3, n)) by {
                assert forall|i: int| c3(m3, n, i) implies m3.dom().contains(
                    #[trigger] t3(m3, n, i),
                ) && t3(m3, n, i) != n by {
                    assert(false);
                }
            }
            assert forall|t: int| #[trigger] in_hier(m3, n, t) implies t == n by {
                if t != n {
                    if exists|x: int| c3(m3, n, x) && #[trigger] t3(m3, n, x) == t {
                        let x = choose|x: int| c3(m3, n, x) && #[trigger] t3(m3, n, x) == t;
                        assert(false);
                    } else if exists|x: int, y: int|
                        c2(m3, n, x, y) && #[trigger] t2(m3, n, x, y) == t {
                        let (x, y) = choose|x: int, y: int|
                            c2(m3, n, x, y) && #[trigger] t2(m3, n, x, y) == t;
                        assert(false);
                    } else if exists|x: int, y: int, z: int|
                        c1(m3, n, x, y, z) && #[trigger] t1(m3, n, x, y, z) == t {
                        let (x, y, z) = choose|x: int, y: int, z: int|
                            c1(m3, n, x, y, z) && #[trigger] t1(m3, n, x, y, z) == t;
                        assert(false);
                    }
                }
            }
            // The scratch translation still names the frame.
            assert(active_table.translation(temporary_page.page) == Some(
                mk_entry_spec(n, FLAG_WRITABLE | FLAG_PRESENT),
            ));
            assert(efr(mk_entry_spec(n, FLAG_WRITABLE | FLAG_PRESENT)) == n) by {
                assert((0x2u64 | 0x1u64) == (0x1u64 | 0x2u64)) by(bit_vector);
                lemma_entry_roundtrip(frame.index, FLAG_PRESENT | FLAG_WRITABLE);
            }
        }
        let ghost at3 = *active_table;
        temporary_page.unmap(active_table);
        proof {
            let n = frame.index as int;
            let mF = active_table.mapper.tables@;
            assert(!in_hier(m3, r_act, n));
            assert(mF[n] == m3[n]);
            assert forall|t: int| in_hier(m3, n, t) implies mF.dom().contains(t) && mF[t]
                == m3[t] by {
                assert(t == n);
            }
            lemma_hier_agree(m3, mF, n);
            assert(missing(mF, r_act, temporary_page.page) == 0);
            assert forall|q: Page|
                q.wf() && p4s(q) != 511 && q.index != temporary_page.page.index implies #[trigger] walk(
                mF,
                r_act,
                q,
            ) == walk(m0, r_act, q) by {
                assert(active_table.translation(q) == at3.translation(q));
                assert(at3.translation(q) == walk(m3, r_act, q));
                assert(walk(m3, r_act, q) == walk(m2, r_act, q));
                assert(walk(m2, r_act, q) == walk(m1, r_act, q));
                assert(walk(m1, r_act, q) == at1.translation(q));
                assert(at1.translation(q) == old(active_table).translation(q));
            }
            assert(!in_hier(mF, r_act, n));
            assert(mF.dom().contains(n));
            assert(temporary_page.allocator.frames() =~= Set::<int>::empty().insert(n));
            assert forall|f: int|
                #[trigger] temporary_page.allocator.frames().contains(f) implies mappable(f)
                    && !in_hier(mF, r_act, f) && f != old(active_table).mapper.active_p4 as int by {
                assert(f == n);
            }
            assert forall|i: int| temporary_page.allocator.accepts(i) by {
                if temporary_page.allocator.s0 is Some && temporary_page.allocator.s1 is Some
                    && temporary_page.allocator.s2 is Some {
                    assert(temporary_page.allocator.frames().contains(
                        temporary_page.allocator.s0.unwrap().index as int,
                    ));
                    assert(temporary_page.allocator.frames().contains(
                        temporary_page.allocator.s1.unwrap().index as int,
                    ));
                    assert(temporary_page.allocator.frames().contains(
                        temporary_page.allocator.s2.unwrap().index as int,
                    ));
                    assert(false);
                }
            }
        }
        InactivePageTable { p4_frame: frame }
    }
}

/// One identity-mapped region: every frame index from `start` to `end`
/// inclusive is mapped at the page of the same index, with `flags`.
pub struct MapRegion {
    pub start: u64,
    pub end: u64,
    pub flags: u64,
}

/// A region stays within the canonical low half and clear of the recursive
/// slot, with a proper flag word.
pub open spec fn region_ok(reg: MapRegion) -> bool {
    &&& reg.end < PAGE_COUNT
    &&& crate::table::flags_wf(reg.flags)
    &&& forall|x: int|
        reg.start <= x <= reg.end ==> #[trigger] p4s(Page { index: x as u64 }) != 511
}

/// Whether `x` lies in the region.
pub open spec fn region_has(reg: MapRegion, x: int) -> bool {
    reg.start <= x <= reg.end
}

/// The regions are pairwise disjoint and each is well formed.
pub open spec fn regions_ok(rs: Seq<MapRegion>) -> bool {
    &&& forall|i: int| 0 <= i < rs.len() ==> region_ok(#[trigger] rs[i])
    &&& forall|i: int, j: int, x: int|
        0 <= i < j < rs.len() && #[trigger] region_has(rs[i], x) ==> !(#[trigger] region_has(
            rs[j],
            x,
        ))
}

/// The walk a list of identity regions describes: the canonical entry for
/// a covered page, nothing for any other page.
pub open spec fn covered_walk(rs: Seq<MapRegion>, q: Page) -> Option<u64>
    decreases rs.len(),
{
    if rs.len() == 0 {
        None
    } else if region_has(rs.last(), q.index as int) {
        Some(mk_entry_spec(q.index as int, rs.last().flags | FLAG_PRESENT))
    } else {
        covered_walk(rs.drop_last(), q)
    }
}

impl ActivePageTable {
    /// Edits the inactive table through the active table's own addressing:
    /// the recursive slot is pointed at the inactive table's frame after the
    /// current top-level frame is backed up through the scratch page, the
    /// given identity regions are mapped, and the slot is restored.  On
    /// hardware, the whole translation cache is flushed right after the
    /// swap and right after the restore; those two flushes bracket the
    /// window in which the slot's meaning is borrowed.
    #[verifier::loop_isolation(false)]
    #[verifier::rlimit(100)]
    pub fn with<A: FrameAllocator>(
        &mut self,
        table: &mut InactivePageTable,
        scratch_page: &mut TemporaryPage,
        regions: &Vec<MapRegion>,
        allocator: &mut A,
    ) -> (res: Result<(), MapError>)
        requires
            old(self).wf(),
            old(scratch_page).wf(),
            old(allocator).inv(),
            mappable(old(table).p4_frame.index as int),
            old(self).mapper.tables@.dom().contains(old(table).p4_frame.index as int),
            wf_hier(old(self).mapper.tables@, old(table).p4_frame.index as int),
            ent0(old(self).mapper.tables@, old(table).p4_frame.index as int, 511) == mk_entry_spec(
                old(table).p4_frame.index as int,
                FLAG_PRESENT | FLAG_WRITABLE,
            ),
            forall|t: int|
                #[trigger] in_hier(
                    old(self).mapper.tables@,
                    old(table).p4_frame.index as int,
                    t,
                ) <==> t == old(table).p4_frame.index as int,
            !in_hier(
                old(self).mapper.tables@,
                old(self).mapper.root(),
                old(table).p4_frame.index as int,
            ),
            old(self).translation(old(scratch_page).page) is None,
            missing(
                old(self).mapper.tables@,
                old(self).mapper.root(),
                old(scratch_page).page,
            ) == 0,
            forall|f: int|
                #[trigger] old(scratch_page).allocator.frames().contains(f) ==> mappable(f)
                    && !in_hier(old(self).mapper.tables@, old(self).mapper.root(), f) && f != old(
                    self,
                ).mapper.active_p4 as int,
            forall|i: int| old(scratch_page).allocator.accepts(i),
            forall|f: int|
                #[trigger] old(allocator).frames().contains(f) ==> mappable(f) && !old(
                    self,
                ).mapper.tables@.dom().contains(f),
            regions_ok(regions@),
        ensures
            final(self).wf(),
            final(self).mapper.active_p4 == old(self).mapper.active_p4,
            final(scratch_page).wf(),
            final(scratch_page).page == old(scratch_page).page,
            final(table).p4_frame == old(table).p4_frame,
            final(allocator).inv(),
            forall|q: Page|
                q.wf() && p4s(q) != 511 && q.index != old(scratch_page).page.index
                    ==> #[trigger] final(self).translation(q) == old(self).translation(q),
            final(self).translation(old(scratch_page).page) is None,
            final(self).mapper.tables@.dom().contains(old(table).p4_frame.index as int),
            wf_hier(final(self).mapper.tables@, old(table).p4_frame.index as int),
            ent0(final(self).mapper.tables@, old(table).p4_frame.index as int, 511)
                == mk_entry_spec(old(table).p4_frame.index as int, FLAG_PRESENT | FLAG_WRITABLE),
            forall|f: int|
                #[trigger] final(allocator).frames().contains(f) ==> old(allocator).frames().contains(f)
                    && !final(self).mapper.tables@.dom().contains(f),
            forall|i: int| old(allocator).accepts(i) ==> #[trigger] final(allocator).accepts(i),
            res is Ok ==> forall|q: Page|
                q.wf() && p4s(q) != 511 ==> #[trigger] walk(
                    final(self).mapper.tables@,
                    old(table).p4_frame.index as int,
                    q,
                ) == covered_walk(regions@, q),
            res is Ok || res == Err::<(), MapError>(MapError::FrameExhausted),
    {
        let ghost m0 = self.mapper.tables@;
        let ghost r0 = self.mapper.root();
        let ghost cr3 = self.mapper.active_p4 as int;
        let ghost n0 = table.p4_frame.index as int;
        let ghost fs0 = allocator.frames();
        let ghost scr = scratch_page.page;

        // Back up the original top-level frame and map it at the scratch
        // page, so the recursive slot can be rewritten through ordinary
        // addressing after the swap.
        let backup_ix = self.mapper.active_p4;
        let backup = Frame { index: backup_ix };
        proof {
            assert(allocator_ok(scratch_page.allocator.frames(), m0, r0));
        }
        let _h = scratch_page.map_table_frame(backup, self);
        let ghost at1 = *self;
        let ghost m1 = self.mapper.tables@;
        proof {
            // Nothing was allocated and only the scratch page's leaf table
            // changed, so the inactive hierarchy is untouched.
            lemma_page_index_bounds(scr);
            let cl = t1(m0, r0, p4s(scr), p3s(scr), p2s(scr));
            assert(in_hier(m0, r0, cl)) by {
                assert(c1(m0, r0, p4s(scr), p3s(scr), p2s(scr)) && t1(
                    m0,
                    r0,
                    p4s(scr),
                    p3s(scr),
                    p2s(scr),
                ) == cl);
            }
            assert(cl != n0);
            assert forall|t: int| #[trigger] in_hier(m0, n0, t) implies m1.dom().contains(t)
                && m1[t] == m0[t] by {
                assert(t == n0);
                lemma_in_hier_dom(m0, n0, t);
            }
            lemma_hier_agree(m0, m1, n0);
            assert((0x1u64 | 0x2u64) & 0x000f_ffff_ffff_f000u64 == 0 && (0x1u64 | 0x2u64)
                & 0x1u64 == 0x1u64) by(bit_vector);
            assert(FLAG_PRESENT | FLAG_WRITABLE == 0x1u64 | 0x2u64);
            lemma_entry_roundtrip(table.p4_frame.index, FLAG_PRESENT | FLAG_WRITABLE);
            lemma_entry_roundtrip(backup_ix, FLAG_PRESENT | FLAG_WRITABLE);
        }
        // Swap the recursive slot: the mapper now edits the inactive table.
        // On hardware, flush the whole translation cache here.
        let e_swap = mk_entry(table.p4_frame.index, FLAG_PRESENT | FLAG_WRITABLE);
        proof {
            let m2 = upd(m1, cr3, 511, e_swap);
            assert forall|t: int| #[trigger] in_hier(m1, n0, t) implies m2.dom().contains(t)
                && m2[t] == m1[t] by {
                assert(t == n0);
                lemma_in_hier_dom(m1, n0, t);
            }
            lemma_hier_agree(m1, m2, n0);
        }
        self.mapper.tables.set_entry(backup_ix, 511, e_swap);
        let ghost m2 = self.mapper.tables@;
        proof {
            assert(m2 == upd(m1, cr3, 511, e_swap));
            assert(self.mapper.root() == n0);
            assert(self.mapper.wf());
            assert(!in_hier(m2, n0, cr3));
        }

        // Map every region into the borrowed hierarchy.
        proof {
            assert forall|q: Page| q.wf() && p4s(q) != 511 implies #[trigger] walk(
                m2,
                n0,
                q,
            ) is None by {
                lemma_page_index_bounds(q);
                if present(ent0(m2, n0, p4s(q))) {
                    assert(c3(m2, n0, p4s(q)));
                    assert(in_hier(m2, n0, t3(m2, n0, p4s(q)))) by {
                        assert(c3(m2, n0, p4s(q)) && t3(m2, n0, p4s(q)) == t3(m2, n0, p4s(q)));
                    }
                    assert(t3(m2, n0, p4s(q)) != n0);
                    assert(false);
                }
            }
            assert(regions@.take(0int).len() == 0);
        }
        let mut failed: bool = false;
        let mut ri: usize = 0;
        while ri < regions.len()
            invariant
                self.mapper.active_p4 as int == cr3,
                self.mapper.root() == n0,
                self.mapper.wf(),
                !in_hier(self.mapper.tables@, n0, cr3),
                allocator.inv(),
                regions_ok(regions@),
                ri <= regions@.len(),
                forall|f: int|
                    #[trigger] allocator.frames().contains(f) ==> mappable(f)
                        && !self.mapper.tables@.dom().contains(f) && fs0.contains(f),
                forall|i: int| old(allocator).accepts(i) ==> #[trigger] allocator.accepts(i),
                forall|t: int|
                    #[trigger] m2.dom().contains(t) ==> self.mapper.tables@.dom().contains(t),
                forall|t: int|
                    #[trigger] m2.dom().contains(t) && t != n0 ==> self.mapper.tables@[t] == m2[t],
                ent0(self.mapper.tables@, n0, 511) == ent0(m2, n0, 511),
                forall|t: int|
                    #[trigger] in_hier(self.mapper.tables@, n0, t) ==> t == n0 || !m2.dom().contains(t),
                !failed ==> forall|q: Page|
                    q.wf() && p4s(q) != 511 ==> #[trigger] walk(self.mapper.tables@, n0, q)
                        == covered_walk(regions@.take(ri as int), q),
            decreases regions@.len() - ri,
        {
            let reg_start = regions[ri].start;
            let reg_end = regions[ri].end;
            let reg_flags = regions[ri].flags;
            if !failed && reg_start <= reg_end {
                let mut idx: u64 = reg_start;
                while idx <= reg_end && !failed
                    invariant
                        self.mapper.active_p4 as int == cr3,
                        self.mapper.root() == n0,
                        self.mapper.wf(),
                        !in_hier(self.mapper.tables@, n0, cr3),
                        allocator.inv(),
                        regions_ok(regions@),
                        ri < regions@.len(),
                        reg_start == regions@[ri as int].start,
                        reg_end == regions@[ri as int].end,
                        reg_flags == regions@[ri as int].flags,
                        reg_start <= idx <= reg_end + 1,
                        forall|f: int|
                            #[trigger] allocator.frames().contains(f) ==> mappable(f)
                                && !self.mapper.tables@.dom().contains(f) && fs0.contains(f),
                        forall|i: int|
                            old(allocator).accepts(i) ==> #[trigger] allocator.accepts(i),
                        forall|t: int|
                            #[trigger] m2.dom().contains(t) ==> self.mapper.tables@.dom().contains(
                                t,
                            ),
                        forall|t: int|
                            #[trigger] m2.dom().contains(t) && t != n0 ==> self.mapper.tables@[t]
                                == m2[t],
                        ent0(self.mapper.tables@, n0, 511) == ent0(m2, n0, 511),
                        forall|t: int|
                            #[trigger] in_hier(self.mapper.tables@, n0, t) ==> t == n0
                                || !m2.dom().contains(t),
                        !failed ==> forall|q: Page|
                            q.wf() && p4s(q) != 511 ==> #[trigger] walk(
                                self.mapper.tables@,
                                n0,
                                q,
                            ) == (if regions@[ri as int].start <= q.index < idx {
                                Some(
                                    mk_entry_spec(
                                        q.index as int,
                                        regions@[ri as int].flags | FLAG_PRESENT,
                                    ),
                                )
                            } else {
                                covered_walk(regions@.take(ri as int), q)
                            }),
                    decreases reg_end + 1 - idx, (if failed { 0int } else { 1int }),
                {
                    let ghost mpPre = self.mapper;
                    let ghost mPre = self.mapper.tables@;
                    let ghost fsPre = allocator.frames();
                    proof {
                        assert(region_has(regions@[ri as int], idx as int));
                        assert(region_ok(regions@[ri as int]));
                        assert(p4s(Page { index: (idx as int) as u64 }) != 511);
                        assert((idx as int) as u64 == idx);
                        assert(idx < PAGE_COUNT);
                        assert forall|f: int| #[trigger] allocator.frames().contains(
                            f,
                        ) implies mappable(f) && !in_hier(self.mapper.tables@, n0, f) by {
                            if in_hier(self.mapper.tables@, n0, f) {
                                lemma_in_hier_dom(self.mapper.tables@, n0, f);
                            }
                        }
                        assert(!allocator.frames().contains(cr3)) by {
                            assert(m2.dom().contains(cr3));
                        }
                        // The page is not yet mapped: it lies past the
                        // already-mapped prefix.
                        assert(walk(mPre, n0, Page { index: idx }) is None) by {
                            let q = Page { index: idx };
                            lemma_page_index_bounds(q);
                            assert(!(regions@[ri as int].start <= q.index < idx));
                            lemma_covered_none(regions@, ri as int, idx as int);
                        }
                    }
                    let res = self.mapper.identity_map(Frame { index: idx }, reg_flags, allocator);
                    match res {
                        Ok(()) => {
                            proof {
                                assert forall|q: Page|
                                    q.wf() && p4s(q) != 511 implies #[trigger] walk(
                                    self.mapper.tables@,
                                    n0,
                                    q,
                                ) == (if regions@[ri as int].start <= q.index < idx + 1 {
                                    Some(
                                        mk_entry_spec(
                                            q.index as int,
                                            regions@[ri as int].flags | FLAG_PRESENT,
                                        ),
                                    )
                                } else {
                                    covered_walk(regions@.take(ri as int), q)
                                }) by {
                                    if q.index != idx {
                                        assert(self.mapper.translation(q) == mpPre.translation(q));
                                        assert(mpPre.translation(q) == walk(mPre, n0, q));
                                        assert(self.mapper.translation(q) == walk(
                                            self.mapper.tables@,
                                            n0,
                                            q,
                                        ));
                                    }
                                }
                                assert forall|t: int|
                                    #[trigger] in_hier(self.mapper.tables@, n0, t) implies t == n0
                                    || !m2.dom().contains(t) by {
                                    if in_hier(mPre, n0, t) {
                                    } else {
                                        assert(fsPre.contains(t));
                                    }
                                }
                            }
                            proof {
                                assert forall|f: int| #[trigger] allocator.frames().contains(
                                    f,
                                ) implies mappable(f) && !self.mapper.tables@.dom().contains(f)
                                    && fs0.contains(f) by {
                                    assert(fsPre.contains(f));
                                    assert(!mPre.dom().contains(f));
                                }
                            }
                            idx = idx + 1;
                        },
                        Err(_) => {
                            proof {
                                assert(res != Err::<(), MapError>(MapError::AlreadyInUse));
                                assert forall|f: int| #[trigger] allocator.frames().contains(
                                    f,
                                ) implies mappable(f) && !self.mapper.tables@.dom().contains(f)
                                    && fs0.contains(f) by {
                                    assert(fsPre.contains(f));
                                    assert(!mPre.dom().contains(f));
                                }
                            }
                            failed = true;
                        },
                    }
                }
            }
            proof {
                if !failed {
                    assert forall|q: Page| q.wf() && p4s(q) != 511 implies #[trigger] walk(
                        self.mapper.tables@,
                        n0,
                        q,
                    ) == covered_walk(regions@.take(ri as int + 1), q) by {
                        lemma_covered_take_step(regions@, ri as int, q);
                    }
                }
            }
            ri = ri + 1;
        }
        proof {
            if !failed {
                assert(regions@.take(regions@.len() as int) =~= regions@);
            }
        }

        // Restore the original recursive slot through the scratch-page
        // mapping, and flush the whole translation cache again on hardware.
        let ghost mL = self.mapper.tables@;
        let e_back = mk_entry(backup_ix, FLAG_PRESENT | FLAG_WRITABLE);
        self.mapper.tables.set_entry(backup_ix, 511, e_back);
        let ghost mR = self.mapper.tables@;
        proof {
            assert(mR == upd(mL, cr3, 511, e_back));
            assert(mR[cr3] =~= m1[cr3]) by {
                assert(mL[cr3] == m2[cr3]);
                assert(m2[cr3] == m1[cr3].update(511, e_swap));
                assert(ent0(m1, cr3, 511) == mk_entry_spec(cr3, FLAG_PRESENT | FLAG_WRITABLE));
                assert(m1[cr3].len() == 512);
                assert(m1[cr3][511] == e_back);
            }
            assert forall|t: int| #[trigger] in_hier(m1, r0, t) implies mR.dom().contains(t)
                && mR[t] == m1[t] by {
                lemma_in_hier_dom(m1, r0, t);
                assert(m1.dom().contains(t));
                assert(m2.dom().contains(t));
                if t != cr3 {
                    assert(!in_hier(m1, n0, t));
                    assert(t != n0) by {
                        assert(in_hier(m1, n0, n0));
                    }
                    assert(mL[t] == m2[t]);
                    assert(m2[t] == m1[t]);
                    assert(mR[t] == mL[t]);
                }
            }
            lemma_hier_agree(m1, mR, r0);
            assert(self.mapper.root() == r0);
            assert(self.mapper.wf());
            // The inactive hierarchy is untouched by the restore.
            assert forall|t: int| #[trigger] in_hier(mL, n0, t) implies mR.dom().contains(t)
                && mR[t] == mL[t] by {
                lemma_in_hier_dom(mL, n0, t);
                assert(t != cr3);
            }
            lemma_hier_agree(mL, mR, n0);
        }
        let ghost at2 = *self;
        proof {
            assert((0x2u64 | 0x1u64) == (0x1u64 | 0x2u64)) by(bit_vector);
            lemma_entry_roundtrip(backup_ix, FLAG_WRITABLE | FLAG_PRESENT);
            assert(self.translation(scr) == walk(mR, r0, scr));
            assert(walk(mR, r0, scr) == walk(m1, r0, scr));
            assert(walk(m1, r0, scr) == at1.translation(scr));
            assert(at1.translation(scr) == Some(
                mk_entry_spec(backup_ix as int, FLAG_WRITABLE | FLAG_PRESENT),
            ));
            assert(efr(mk_entry_spec(backup_ix as int, FLAG_WRITABLE | FLAG_PRESENT)) == cr3);
        }
        scratch_page.unmap(self);
        proof {
            let mF = self.mapper.tables@;
            // The scratch unmap writes one table of the active hierarchy,
            // which the inactive hierarchy does not share.
            assert forall|t: int| #[trigger] in_hier(mR, n0, t) implies mF.dom().contains(t)
                && mF[t] == mR[t] by {
                lemma_in_hier_dom(mR, n0, t);
                assert(!in_hier(mR, r0, t)) by {
                    if in_hier(mR, r0, t) {
                        assert(in_hier(mL, n0, t));
                        assert(t == n0 || !m2.dom().contains(t)) by {
                            assert(in_hier(mL, n0, t) ==> t == n0 || !m2.dom().contains(t));
                        }
                        assert(in_hier(m1, r0, t));
                        lemma_in_hier_dom(m1, r0, t);
                        assert(m2.dom().contains(t));
                        assert(t != n0);
                        assert(false);
                    }
                }
            }
            lemma_hier_agree(mR, mF, n0);
            assert forall|q: Page|
                q.wf() && p4s(q) != 511 && q.index != scr.index implies #[trigger] self.translation(
                q,
            ) == old(self).translation(q) by {
                assert(self.translation(q) == at2.translation(q));
                assert(at2.translation(q) == walk(mR, r0, q));
                assert(walk(mR, r0, q) == walk(m1, r0, q));
                assert(walk(m1, r0, q) == at1.translation(q));
                assert(at1.translation(q) == old(self).translation(q));
            }
            if !failed {
                assert forall|q: Page| q.wf() && p4s(q) != 511 implies #[trigger] walk(
                    mF,
                    n0,
                    q,
                ) == covered_walk(regions@, q) by {
                    assert(walk(mF, n0, q) == walk(mR, n0, q));
                    assert(walk(mR, n0, q) == walk(mL, n0, q));
                }
            }
            assert(ent0(mF, n0, 511) == ent0(mL, n0, 511)) by {
                assert(in_hier(mL, n0, n0));
            }
        }
        if failed {
            Err(MapError::FrameExhausted)
        } else {
            Ok(())
        }
    }
}

/// A page past the mapped prefix of disjoint regions is not covered by it.
pub proof fn lemma_covered_none(rs: Seq<MapRegion>, ri: int, x: int)
    requires
        regions_ok(rs),
        0 <= ri < rs.len(),
        region_has(rs[ri], x),
    ensures
        covered_walk(rs.take(ri), Page { index: x as u64 }) is None,
    decreases ri,
{
    if ri > 0 {
        let pre = rs.take(ri);
        assert(pre.last() == rs[ri - 1]);
        assert(!region_has(rs[ri - 1], x));
        assert(pre.drop_last() =~= rs.take(ri - 1));
        lemma_covered_none_helper(rs, ri - 1, ri, x);
    }
}

/// Helper: no region before `ri` covers `x` when region `ri` does.
pub proof fn lemma_covered_none_helper(rs: Seq<MapRegion>, k: int, ri: int, x: int)
    requires
        regions_ok(rs),
        0 <= k <= ri < rs.len(),
        region_has(rs[ri], x),
    ensures
        covered_walk(rs.take(k), Page { index: x as u64 }) is None,
    decreases k,
{
    if k > 0 {
        let pre = rs.take(k);
        assert(pre.last() == rs[k - 1]);
        assert(!region_has(rs[k - 1], x));
        assert(pre.drop_last() =~= rs.take(k - 1));
        lemma_covered_none_helper(rs, k - 1, ri, x);
    }
}

/// Extending the prefix by one fully mapped region extends its walk.
pub proof fn lemma_covered_take_step(rs: Seq<MapRegion>, ri: int, q: Page)
    requires
        0 <= ri < rs.len(),
    ensures
        covered_walk(rs.take(ri + 1), q) == (if region_has(rs[ri], q.index as int) {
            Some(mk_entry_spec(q.index as int, rs[ri].flags | FLAG_PRESENT))
        } else {
            covered_walk(rs.take(ri), q)
        }),
{
    let ext = rs.take(ri + 1);
    assert(ext.last() == rs[ri]);
    assert(ext.drop_last() =~= rs.take(ri));
}

/// What the boot-information collaborator supplies about one ELF section of
/// the kernel image.
pub struct SectionInfo {
    pub start: u64,
    pub size: u64,
    pub allocated: bool,
    pub writable: bool,
    pub executable: bool,
}

/// The plain values the remap protocol reads out of the boot information:
/// the kernel's section list and the extent of the boot-information
/// structure itself.
pub struct BootInfo {
    pub sections: Vec<SectionInfo>,
    pub multiboot_start: u64,
    pub multiboot_end: u64,
}

/// Frame of the hardware text-mode display buffer.
pub const VGA_BUFFER_FRAME: u64 = 0xb8000 / 4096;

/// Virtual page index of the scratch sentinel, far outside the kernel range.
pub const SCRATCH_PAGE_INDEX: u64 = 0xabadcafe;

/// What the remap protocol demands of the boot data: allocated sections are
/// page-aligned, non-empty and lie in the low canonical half, as does the
/// boot-information block.
pub open spec fn boot_ok(b: BootInfo) -> bool {
    &&& forall|i: int|
        0 <= i < b.sections@.len() && (#[trigger] b.sections@[i]).allocated ==> b.sections@[i].start
            % PAGE_SIZE == 0 && b.sections@[i].size >= 1 && b.sections@[i].start
            + b.sections@[i].size <= 0x8000_0000_0000
    &&& 0 < b.multiboot_start < b.multiboot_end
    &&& b.multiboot_end <= 0x8000_0000_0000
}

/// The identity region an allocated section spans.
pub open spec fn sec_region(s: SectionInfo) -> MapRegion {
    MapRegion {
        start: s.start / PAGE_SIZE,
        end: ((s.start + s.size - 1) as u64) / PAGE_SIZE,
        flags: crate::table::section_flags(s.writable, s.executable),
    }
}

/// The regions of the allocated sections, in order.
pub open spec fn sec_regions(ss: Seq<SectionInfo>) -> Seq<MapRegion>
    decreases ss.len(),
{
    if ss.len() == 0 {
        Seq::empty()
    } else if ss.last().allocated {
        sec_regions(ss.drop_last()).push(sec_region(ss.last()))
    } else {
        sec_regions(ss.drop_last())
    }
}

/// The display-buffer region.
pub open spec fn vga_region() -> MapRegion {
    MapRegion { start: VGA_BUFFER_FRAME, end: VGA_BUFFER_FRAME, flags: FLAG_WRITABLE }
}

/// The boot-information region.
pub open spec fn mb_region(b: BootInfo) -> MapRegion {
    MapRegion {
        start: b.multiboot_start / PAGE_SIZE,
        end: ((b.multiboot_end - 1) as u64) / PAGE_SIZE,
        flags: FLAG_PRESENT | FLAG_WRITABLE,
    }
}

/// Everything the remap maps into the new table: the allocated kernel
/// sections, the display buffer, and the boot-information block.
pub open spec fn remap_regions(b: BootInfo) -> Seq<MapRegion> {
    sec_regions(b.sections@).push(vga_region()).push(mb_region(b))
}

/// A frame index below the low canonical half decomposes to an ordinary
/// top-level index.
pub proof fn lemma_low_not_recursive(x: u64)
    requires
        x < 0x8_0000_0000,
    ensures
        p4s(Page { index: x }) != 511,
{
    assert((x >> 27) & 0x1ff != 511) by(bit_vector)
        requires x < 0x8_0000_0000u64;
}

/// The flag word of a section uses only flag bits.
pub proof fn lemma_section_flags_wf(w: bool, x: bool)
    ensures
        crate::table::flags_wf(crate::table::section_flags(w, x)),
{
    let f = crate::table::section_flags(w, x);
    assert(1u64 << 63 == 0x8000_0000_0000_0000u64) by(bit_vector);
    assert((0u64 | 0u64) & 0x000f_ffff_ffff_f000u64 == 0 && (0u64 | 0x8000_0000_0000_0000u64)
        & 0x000f_ffff_ffff_f000u64 == 0 && (0x2u64 | 0u64) & 0x000f_ffff_ffff_f000u64 == 0 && (
    0x2u64 | 0x8000_0000_0000_0000u64) & 0x000f_ffff_ffff_f000u64 == 0) by(bit_vector);
}

/// A covered page's entry names the page's own frame: identity mapping.
pub proof fn lemma_covered_efr(rs: Seq<MapRegion>, q: Page)
    requires
        forall|i: int| 0 <= i < rs.len() ==> region_ok(#[trigger] rs[i]),
        q.wf(),
    ensures
        match covered_walk(rs, q) {
            Some(e) => efr(e) == q.index as int,
            None => true,
        },
    decreases rs.len(),
{
    if rs.len() > 0 {
        if region_has(rs.last(), q.index as int) {
            let fl = rs.last().flags;
            assert((fl | 0x1u64) & 0x000f_ffff_ffff_f000u64 == 0) by(bit_vector)
                requires fl & 0x000f_ffff_ffff_f000u64 == 0;
            lemma_entry_roundtrip(q.index, fl | FLAG_PRESENT);
        } else {
            lemma_covered_efr(rs.drop_last(), q);
        }
    }
}

/// Builds the region list the remap maps: one region per allocated section,
/// then the display buffer, then the boot-information block.
pub fn regions_of(boot_info: &BootInfo) -> (r: Vec<MapRegion>)
    requires
        boot_ok(*boot_info),
    ensures
        r@ == remap_regions(*boot_info),
        forall|i: int| 0 <= i < r@.len() ==> region_ok(#[trigger] r@[i]),
{
    let mut v: Vec<MapRegion> = Vec::new();
    let mut i: usize = 0;
    while i < boot_info.sections.len()
        invariant
            i <= boot_info.sections@.len(),
            boot_ok(*boot_info),
            v@ == sec_regions(boot_info.sections@.take(i as int)),
        decreases boot_info.sections@.len() - i,
    {
        let s = &boot_info.sections[i];
        if s.allocated {
            let start_frame = s.start / PAGE_SIZE;
            let end_frame = (s.start + s.size - 1) / PAGE_SIZE;
            let flags = crate::table::flags_from_section(s.writable, s.executable);
            v.push(MapRegion { start: start_frame, end: end_frame, flags });
        }
        proof {
            assert(boot_info.sections@.take(i + 1).drop_last() =~= boot_info.sections@.take(
                i as int,
            ));
            assert(boot_info.sections@.take(i + 1).last() == boot_info.sections@[i as int]);
        }
        i = i + 1;
    }
    proof {
        assert(boot_info.sections@.take(boot_info.sections@.len() as int)
            =~= boot_info.sections@);
    }
    v.push(MapRegion { start: VGA_BUFFER_FRAME, end: VGA_BUFFER_FRAME, flags: FLAG_WRITABLE });
    let mb_start = boot_info.multiboot_start / PAGE_SIZE;
    let mb_end = (boot_info.multiboot_end - 1) / PAGE_SIZE;
    v.push(MapRegion { start: mb_start, end: mb_end, flags: FLAG_PRESENT | FLAG_WRITABLE });
    proof {
        assert(v@ =~= remap_regions(*boot_info));
        assert forall|ri: int| 0 <= ri < v@.len() implies region_ok(#[trigger] v@[ri]) by {
            lemma_regions_ok_rec(boot_info.sections@);
            assert(region_ok(vga_region())) by {
                assert(0x2u64 & 0x000f_ffff_ffff_f000u64 == 0) by(bit_vector);
                assert forall|x: int|
                    vga_region().start <= x <= vga_region().end implies #[trigger] p4s(
                    Page { index: x as u64 },
                ) != 511 by {
                    lemma_low_not_recursive(x as u64);
                }
            }
            assert(region_ok(mb_region(*boot_info))) by {
                assert((0x1u64 | 0x2u64) & 0x000f_ffff_ffff_f000u64 == 0) by(bit_vector);
                assert(FLAG_PRESENT | FLAG_WRITABLE == 0x1u64 | 0x2u64);
                assert(mb_region(*boot_info).end < 0x8_0000_0000) by(nonlinear_arith)
                    requires boot_ok(*boot_info);
                assert forall|x: int|
                    mb_region(*boot_info).start <= x <= mb_region(*boot_info).end
                    implies #[trigger] p4s(Page { index: x as u64 }) != 511 by {
                    lemma_low_not_recursive(x as u64);
                }
            }
        }
    }
    v
}

/// Every section region is well formed.
pub proof fn lemma_regions_ok_rec(ss: Seq<SectionInfo>)
    requires
        forall|i: int|
            0 <= i < ss.len() && (#[trigger] ss[i]).allocated ==> ss[i].start % PAGE_SIZE == 0
                && ss[i].size >= 1 && ss[i].start + ss[i].size <= 0x8000_0000_0000,
    ensures
        forall|ri: int| 0 <= ri < sec_regions(ss).len() ==> region_ok(#[trigger] sec_regions(ss)[ri]),
    decreases ss.len(),
{
    if ss.len() > 0 {
        lemma_regions_ok_rec(ss.drop_last());
        if ss.last().allocated {
            let s = ss.last();
            assert(s.allocated && ss[ss.len() - 1] == s);
            assert(region_ok(sec_region(s))) by {
                lemma_section_flags_wf(s.writable, s.executable);
                assert(sec_region(s).end < 0x8_0000_0000) by(nonlinear_arith)
                    requires s.start + s.size <= 0x8000_0000_0000, s.size >= 1;
                assert forall|x: int|
                    sec_region(s).start <= x <= sec_region(s).end implies #[trigger] p4s(
                    Page { index: x as u64 },
                ) != 511 by {
                    lemma_low_not_recursive(x as u64);
                }
            }
            assert forall|ri: int| 0 <= ri < sec_regions(ss).len() implies region_ok(
                #[trigger] sec_regions(ss)[ri],
            ) by {
                if ri < sec_regions(ss.drop_last()).len() {
                    assert(sec_regions(ss)[ri] == sec_regions(ss.drop_last())[ri]);
                } else {
                    assert(sec_regions(ss)[ri] == sec_region(ss.last()));
                }
            }
        }
    }
}

/// Builds a new table hierarchy that maps exactly what the boot data calls
/// for, switches the hardware to it, and turns the page that held the old
/// top-level table into an unmapped guard page.
#[verifier::rlimit(100)]
pub fn remap_kernel<A: FrameAllocator>(
    active_table: ActivePageTable,
    allocator: &mut A,
    boot_info: &BootInfo,
) -> (r: Result<ActivePageTable, MapError>)
    requires
        active_table.wf(),
        active_table.mapper.active_p4 < 0x8_0000_0000,
        boot_ok(*boot_info),
        regions_ok(remap_regions(*boot_info)),
        old(allocator).inv(),
        forall|f: int|
            #[trigger] old(allocator).frames().contains(f) ==> mappable(f)
                && !active_table.mapper.tables@.dom().contains(f),
        forall|i: int| mappable(i) ==> #[trigger] old(allocator).accepts(i),
        has_room(old(allocator).frames(), 4),
        active_table.translation(Page { index: SCRATCH_PAGE_INDEX }) is None,
        missing(
            active_table.mapper.tables@,
            active_table.mapper.root(),
            Page { index: SCRATCH_PAGE_INDEX },
        ) == 3,
    ensures
        match r {
            Ok(t) => {
                &&& t.wf()
                &&& t.translation(Page { index: active_table.mapper.active_p4 }) is None
                &&& forall|q: Page|
                    q.wf() && p4s(q) != 511 ==> #[trigger] t.translation(q) == (if q.index
                        == active_table.mapper.active_p4 {
                        None
                    } else {
                        covered_walk(remap_regions(*boot_info), q)
                    })
            },
            Err(e) => e == MapError::FrameExhausted,
        },
    {
        let ghost m0 = active_table.mapper.tables@;
        let ghost fs0 = allocator.frames();
        let ghost cr3 = active_table.mapper.active_p4 as int;
        let mut active_table = active_table;
        let old_p4_ix = active_table.mapper.active_p4;
        proof {
            assert((0xabadcafeu64 >> 27) & 0x1ff != 511 && 0xabadcafeu64 < 0x10_0000_0000u64)
                by(bit_vector);
        }
        let mut scratch_page = TemporaryPage::new(Page::new(SCRATCH_PAGE_INDEX), allocator);
        let frame = match allocator.alloc_frame() {
            Some(f) => f,
            None => {
                return Err(MapError::FrameExhausted);
            },
        };
        let ghost nf = frame.index as int;
        proof {
            assert(!active_table.mapper.tables@.dom().contains(nf));
            assert(!scratch_page.allocator.frames().contains(nf));
            assert(has_room(scratch_page.allocator.frames(), 3));
        }
        let mut new_table = InactivePageTable::new(frame, &mut active_table, &mut scratch_page);
        let ghost at2 = active_table;
        let regions = regions_of(boot_info);
        proof {
            assert forall|f: int| #[trigger] allocator.frames().contains(f) implies mappable(f)
                && !active_table.mapper.tables@.dom().contains(f) by {
                assert(fs0.contains(f));
            }
        }
        let res = active_table.with(&mut new_table, &mut scratch_page, &regions, allocator);
        match res {
            Ok(()) => {},
            Err(_) => {
                return Err(MapError::FrameExhausted);
            },
        }
        let ghost at3 = active_table;
        let old_table = active_table.switch(new_table);
        let ghost at4 = active_table;
        let old_p4_page = Page::new(old_table.p4_frame.index);
        proof {
            lemma_low_not_recursive(old_p4_page.index);
            assert(old_p4_page.index == old_p4_ix);
            assert forall|q: Page| q.wf() && p4s(q) != 511 implies #[trigger] at4.translation(q)
                == covered_walk(remap_regions(*boot_info), q) by {
                assert(at4.translation(q) == walk(at3.mapper.tables@, nf, q));
            }
        }
        if active_table.mapper.translate_page(old_p4_page).is_some() {
            proof {
                lemma_covered_efr(remap_regions(*boot_info), old_p4_page);
                assert(active_table.translation(old_p4_page) == covered_walk(
                    remap_regions(*boot_info),
                    old_p4_page,
                ));
                assert(!allocator.frames().contains(cr3)) by {
                    assert(m0.dom().contains(cr3));
                }
                assert(mappable(cr3));
            }
            active_table.mapper.unmap(old_p4_page, allocator);
            proof {
                assert forall|q: Page|
                    q.wf() && p4s(q) != 511 && q.index != old_p4_ix implies #[trigger] active_table.translation(
                    q,
                ) == covered_walk(remap_regions(*boot_info), q) by {
                    assert(active_table.translation(q) == at4.translation(q));
                }
            }
        }
        Ok(active_table)
    }

/// The extent of the loaded kernel image: the least start address and the
/// greatest end address over the allocated sections, or nothing when no
/// section is allocated.  This is the part of early initialisation that
/// computes rather than reads hardware.
pub fn kernel_extent(sections: &Vec<SectionInfo>) -> (r: Option<(u64, u64)>)
    requires
        forall|i: int|
            0 <= i < sections@.len() && (#[trigger] sections@[i]).allocated ==> sections@[i].start
                + sections@[i].size <= 0x8000_0000_0000,
    ensures
        match r {
            Some((lo, hi)) => {
                &&& exists|i: int|
                    0 <= i < sections@.len() && (#[trigger] sections@[i]).allocated
                        && sections@[i].start == lo
                &&& exists|i: int|
                    0 <= i < sections@.len() && (#[trigger] sections@[i]).allocated
                        && sections@[i].start + sections@[i].size == hi
                &&& forall|i: int|
                    0 <= i < sections@.len() && (#[trigger] sections@[i]).allocated ==> lo
                        <= sections@[i].start && sections@[i].start + sections@[i].size <= hi
            },
            None => forall|i: int|
                0 <= i < sections@.len() ==> !(#[trigger] sections@[i]).allocated,
        },
{
    let mut r: Option<(u64, u64)> = None;
    let mut i: usize = 0;
    while i < sections.len()
        invariant
            i <= sections@.len(),
            forall|k: int|
                0 <= k < sections@.len() && (#[trigger] sections@[k]).allocated ==> sections@[k].start
                    + sections@[k].size <= 0x8000_0000_0000,
            match r {
                Some((lo, hi)) => {
                    &&& exists|k: int|
                        0 <= k < i && (#[trigger] sections@[k]).allocated && sections@[k].start
                            == lo
                    &&& exists|k: int|
                        0 <= k < i && (#[trigger] sections@[k]).allocated && sections@[k].start
                            + sections@[k].size == hi
                    &&& forall|k: int|
                        0 <= k < i && (#[trigger] sections@[k]).allocated ==> lo
                            <= sections@[k].start && sections@[k].start + sections@[k].size <= hi
                },
                None => forall|k: int| 0 <= k < i ==> !(#[trigger] sections@[k]).allocated,
            },
        decreases sections@.len() - i,
    {
        let s = &sections[i];
        if s.allocated {
            let send = s.start + s.size;
            r = match r {
                None => Some((s.start, send)),
                Some((lo, hi)) => Some(
                    (
                        if s.start < lo {
                            s.start
                        } else {
                            lo
                        },
                        if send > hi {
                            send
                        } else {
                            hi
                        },
                    ),
                ),
            };
        }
        i = i + 1;
    }
    r
}

} // verus!
