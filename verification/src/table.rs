//! Table entries, entry flags, and the arena of physical frames that hold
//! page tables.
//!
//! Each table occupies one physical frame interpreted as 512 eight-byte
//! entries: bits 12..52 hold the physical frame's start address, the low
//! twelve bits and the top bit hold flags.  The arena maps a physical frame
//! index to the 512 entries stored in that frame; it is the model's stand-in
//! for physical memory holding page tables.

use vstd::prelude::*;
use crate::page::ENTRY_COUNT;

verus! {

pub const FLAG_PRESENT: u64 = 0x1;
pub const FLAG_WRITABLE: u64 = 0x2;
pub const FLAG_USER_ACCESSIBLE: u64 = 0x4;
pub const FLAG_WRITE_THROUGH: u64 = 0x8;
pub const FLAG_NO_CACHE: u64 = 0x10;
pub const FLAG_ACCESSED: u64 = 0x20;
pub const FLAG_DIRTY: u64 = 0x40;
pub const FLAG_HUGE_PAGE: u64 = 0x80;
pub const FLAG_GLOBAL: u64 = 0x100;
pub const FLAG_NO_EXECUTE: u64 = 1u64 << 63;

/// The bits of an entry that hold the target frame's start address.
pub const ENTRY_ADDR_MASK: u64 = 0x000f_ffff_ffff_f000;

/// Frame indices that fit in an entry's address bits (52-bit physical
/// addresses).
pub open spec fn mappable(i: int) -> bool {
    0 <= i < 0x100_0000_0000
}

/// A flag word uses only the flag bits of an entry.
pub open spec fn flags_wf(f: u64) -> bool {
    f & ENTRY_ADDR_MASK == 0
}

/// Whether an entry's present bit is set.
pub open spec fn present(e: u64) -> bool {
    e & FLAG_PRESENT == FLAG_PRESENT
}

/// The frame index an entry points at.
pub open spec fn efr(e: u64) -> int {
    ((e & ENTRY_ADDR_MASK) >> 12) as int
}

/// The flag bits of an entry.
pub open spec fn eflags(e: u64) -> u64 {
    e & !ENTRY_ADDR_MASK
}

/// The entry that points frame `i` with flag word `f`.
pub open spec fn mk_entry_spec(i: int, f: u64) -> u64 {
    ((i as u64) << 12) | f
}

/// Packing a frame index and a flag word into an entry and reading them back
/// is the identity.
pub proof fn lemma_entry_roundtrip(i: u64, f: u64)
    requires
        i < 0x100_0000_0000,
        f & ENTRY_ADDR_MASK == 0,
    ensures
        efr(mk_entry_spec(i as int, f)) == i,
        eflags(mk_entry_spec(i as int, f)) == f,
        present(mk_entry_spec(i as int, f)) == (f & FLAG_PRESENT == FLAG_PRESENT),
        mk_entry_spec(i as int, f) & f == f,
{
    assert((((i << 12) | f) & 0x000f_ffff_ffff_f000u64) >> 12 == i
        && ((i << 12) | f) & !0x000f_ffff_ffff_f000u64 == f
        && (((i << 12) | f) & 0x1 == 0x1) == (f & 0x1 == 0x1)
        && ((i << 12) | f) & f == f) by(bit_vector)
        requires
            i < 0x100_0000_0000u64,
            f & 0x000f_ffff_ffff_f000u64 == 0;
}

/// The entry a successful mapping writes carries every flag that was asked
/// for, plus the present bit.
pub proof fn lemma_mapped_entry_flags(i: u64, f: u64)
    requires
        i < 0x100_0000_0000,
        f & ENTRY_ADDR_MASK == 0,
    ensures
        mk_entry_spec(i as int, f | FLAG_PRESENT) & (f | FLAG_PRESENT) == (f | FLAG_PRESENT),
        present(mk_entry_spec(i as int, f | FLAG_PRESENT)),
        efr(mk_entry_spec(i as int, f | FLAG_PRESENT)) == i,
{
    assert((f | 0x1u64) & 0x000f_ffff_ffff_f000u64 == 0 && (f | 0x1u64) & 0x1u64 == 0x1u64)
        by(bit_vector)
        requires f & 0x000f_ffff_ffff_f000u64 == 0;
    lemma_entry_roundtrip(i, f | FLAG_PRESENT);
}

/// Whether an entry's present bit is set.
pub fn is_present(e: u64) -> (r: bool)
    ensures
        r == present(e),
{
    e & FLAG_PRESENT == FLAG_PRESENT
}

/// The frame index an entry points at.
pub fn entry_frame(e: u64) -> (r: u64)
    ensures
        r == efr(e),
        mappable(r as int),
{
    proof {
        assert((e & 0x000f_ffff_ffff_f000u64) >> 12 < 0x100_0000_0000u64) by(bit_vector);
    }
    (e & ENTRY_ADDR_MASK) >> 12
}

/// Packs a frame index and a flag word into an entry.
pub fn mk_entry(i: u64, f: u64) -> (r: u64)
    requires
        mappable(i as int),
        flags_wf(f),
    ensures
        r == mk_entry_spec(i as int, f),
{
    (i << 12) | f
}

/// The flag word an ELF section's attributes call for.
pub open spec fn section_flags(writable: bool, executable: bool) -> u64 {
    (if writable {
        FLAG_WRITABLE
    } else {
        0u64
    }) | (if executable {
        0u64
    } else {
        FLAG_NO_EXECUTE
    })
}

/// Derives entry flags from an ELF section's attributes: writable sections
/// get the writable bit, non-executable sections get the no-execute bit.
pub fn flags_from_section(writable: bool, executable: bool) -> (r: u64)
    ensures
        flags_wf(r),
        r == section_flags(writable, executable),
        r & FLAG_WRITABLE == FLAG_WRITABLE <==> writable,
        r & FLAG_NO_EXECUTE == FLAG_NO_EXECUTE <==> !executable,
{
    let w: u64 = if writable {
        FLAG_WRITABLE
    } else {
        0
    };
    let x: u64 = if executable {
        0
    } else {
        FLAG_NO_EXECUTE
    };
    proof {
        assert(1u64 << 63 == 0x8000_0000_0000_0000u64) by(bit_vector);
        assert((w | x) & 0x000f_ffff_ffff_f000u64 == 0
            && ((w | x) & 0x2 == 0x2) == (w == 0x2)
            && ((w | x) & 0x8000_0000_0000_0000 == 0x8000_0000_0000_0000) == (x
            == 0x8000_0000_0000_0000)) by(bit_vector)
            requires
                w == 0 || w == 0x2,
                x == 0 || x == 0x8000_0000_0000_0000u64;
    }
    w | x
}

/// A zero entry is not present and points nowhere.
pub proof fn lemma_zero_entry()
    ensures
        !present(0u64),
        efr(0u64) == 0,
{
    assert(0u64 & 0x1u64 == 0u64 && (0u64 & 0x000f_ffff_ffff_f000u64) >> 12 == 0u64) by(bit_vector);
}

/// The contents of a freshly zeroed table frame.
pub open spec fn zero_table() -> Seq<u64> {
    Seq::new(ENTRY_COUNT as nat, |k: int| 0u64)
}

/// The arena of physical frames that hold page tables, keyed by frame index.
///
/// This models the portion of physical memory that the paging code reads and
/// writes as tables; data frames are referenced by entries but have no
/// contents here.
pub struct TableArena {
    pub slots: Vec<(u64, Vec<u64>)>,
}

impl TableArena {
    /// Keys are distinct and every stored table has exactly 512 entries.
    pub open spec fn wf(self) -> bool {
        &&& (forall|i: int, j: int|
            0 <= i < j < self.slots@.len() ==> (#[trigger] self.slots@[i]).0 != (
            #[trigger] self.slots@[j]).0)
        &&& (forall|i: int|
            0 <= i < self.slots@.len() ==> (#[trigger] self.slots@[i]).1@.len() == ENTRY_COUNT)
    }

    /// The arena viewed as a map from frame index to table contents.
    pub open spec fn view(self) -> Map<int, Seq<u64>> {
        Map::new(
            |t: int| exists|i: int| 0 <= i < self.slots@.len() && (#[trigger] self.slots@[i]).0 == t,
            |t: int|
                {
                    let i = choose|i: int|
                        0 <= i < self.slots@.len() && (#[trigger] self.slots@[i]).0 == t;
                    self.slots@[i].1@
                },
        )
    }

    /// An empty arena.
    pub fn new() -> (r: TableArena)
        ensures
            r.wf(),
            r@ == Map::<int, Seq<u64>>::empty(),
    {
        let r = TableArena { slots: Vec::new() };
        proof {
            assert(r@ =~= Map::<int, Seq<u64>>::empty());
        }
        r
    }

    /// If slot `i` holds key `t`, the view at `t` is that slot's table.
    pub proof fn lemma_slot_view(self, i: int)
        requires
            self.wf(),
            0 <= i < self.slots@.len(),
        ensures
            self@.contains_key(self.slots@[i].0 as int),
            self@[self.slots@[i].0 as int] == self.slots@[i].1@,
    {
        let t = self.slots@[i].0 as int;
        assert(exists|k: int| 0 <= k < self.slots@.len() && (#[trigger] self.slots@[k]).0 == t);
        let k = choose|k: int| 0 <= k < self.slots@.len() && (#[trigger] self.slots@[k]).0 == t;
        if k != i {
            assert(self.slots@[k].0 != self.slots@[i].0);
        }
    }

    /// Finds the slot holding frame `t`, if any.
    fn find(&self, t: u64) -> (r: Option<usize>)
        requires
            self.wf(),
        ensures
            match r {
                Some(i) => i < self.slots@.len() && self.slots@[i as int].0 == t
                    && self@.contains_key(t as int) && self@[t as int] == self.slots@[i as int].1@,
                None => !self@.contains_key(t as int),
            },
    {
        let mut i: usize = 0;
        while i < self.slots.len()
            invariant
                self.wf(),
                i <= self.slots@.len(),
                forall|k: int| 0 <= k < i ==> (#[trigger] self.slots@[k]).0 != t,
            decreases self.slots@.len() - i,
        {
            if self.slots[i].0 == t {
                proof {
                    self.lemma_slot_view(i as int);
                }
                return Some(i);
            }
            i = i + 1;
        }
        proof {
            assert(forall|k: int|
                0 <= k < self.slots@.len() ==> (#[trigger] self.slots@[k]).0 != t);
        }
        None
    }

    /// Whether the arena holds a table for frame `t`.
    pub fn contains(&self, t: u64) -> (r: bool)
        requires
            self.wf(),
        ensures
            r == self@.contains_key(t as int),
    {
        self.find(t).is_some()
    }

    /// Reads entry `idx` of the table in frame `t`; a frame the arena does
    /// not hold reads as all zeroes, like memory never linked into a table.
    pub fn entry_or_zero(&self, t: u64, idx: usize) -> (r: u64)
        requires
            self.wf(),
            idx < ENTRY_COUNT,
        ensures
            r == ent0(self@, t as int, idx as int),
    {
        match self.find(t) {
            Some(i) => self.slots[i].1[idx],
            None => 0,
        }
    }

    /// Overwrites entry `idx` of the table in frame `t`.
    pub fn set_entry(&mut self, t: u64, idx: usize, e: u64)
        requires
            old(self).wf(),
            old(self)@.contains_key(t as int),
            idx < ENTRY_COUNT,
        ensures
            final(self).wf(),
            final(self)@ == old(self)@.insert(t as int, old(self)@[t as int].update(idx as int, e)),
    {
        let i = match self.find(t) {
            Some(i) => i,
            None => {
                proof {
                    assert(false);
                }
                0
            },
        };
        let tbl: &mut Vec<u64> = &mut self.slots[i].1;
        tbl.set(idx, e);
        proof {
            assert(forall|k: int|
                0 <= k < self.slots@.len() && k != i ==> self.slots@[k] == old(self).slots@[k]);
            assert(self.slots@[i as int].0 == t);
            assert forall|u: int| self@.contains_key(u) implies old(self)@.insert(
                t as int,
                old(self)@[t as int].update(idx as int, e),
            ).contains_key(u) by {
                let k = choose|k: int|
                    0 <= k < self.slots@.len() && (#[trigger] self.slots@[k]).0 == u;
                old(self).lemma_slot_view(k);
            }
            assert forall|u: int|
                old(self)@.insert(
                    t as int,
                    old(self)@[t as int].update(idx as int, e),
                ).contains_key(u) implies self@.contains_key(u) && self@[u] == old(self)@.insert(
                t as int,
                old(self)@[t as int].update(idx as int, e),
            )[u] by {
                let k = choose|k: int|
                    0 <= k < old(self).slots@.len() && (#[trigger] old(self).slots@[k]).0 == u;
                old(self).lemma_slot_view(k);
                self.lemma_slot_view(k);
                if u == t as int {
                    assert(k == i) by {
                        if k != i {
                            assert(old(self).slots@[k].0 != old(self).slots@[i as int].0);
                        }
                    }
                }
            }
            assert(self@ =~= old(self)@.insert(
                t as int,
                old(self)@[t as int].update(idx as int, e),
            ));
        }
    }

    /// Installs a freshly zeroed table for frame `t`, overwriting whatever
    /// the arena held for it.  Models zeroing a frame before first use as a
    /// table.
    pub fn install_zeroed(&mut self, t: u64)
        requires
            old(self).wf(),
        ensures
            final(self).wf(),
            final(self)@ == old(self)@.insert(t as int, zero_table()),
    {
        let mut z: Vec<u64> = Vec::new();
        while z.len() < ENTRY_COUNT
            invariant
                z@.len() <= ENTRY_COUNT,
                forall|k: int| 0 <= k < z@.len() ==> z@[k] == 0u64,
            decreases ENTRY_COUNT - z@.len(),
        {
            z.push(0);
        }
        proof {
            assert(z@ =~= zero_table());
        }
        match self.find(t) {
            Some(i) => {
                let tbl: &mut (u64, Vec<u64>) = &mut self.slots[i];
                tbl.1 = z;
                proof {
                    assert(forall|k: int|
                        0 <= k < self.slots@.len() && k != i ==> self.slots@[k] == old(
                            self,
                        ).slots@[k]);
                    assert(self.slots@[i as int].0 == t);
                    assert forall|u: int| self@.contains_key(u) implies old(self)@.insert(
                        t as int,
                        zero_table(),
                    ).contains_key(u) by {
                        let k = choose|k: int|
                            0 <= k < self.slots@.len() && (#[trigger] self.slots@[k]).0 == u;
                        old(self).lemma_slot_view(k);
                    }
                    assert forall|u: int|
                        old(self)@.insert(t as int, zero_table()).contains_key(
                            u,
                        ) implies self@.contains_key(u) && self@[u] == old(self)@.insert(
                        t as int,
                        zero_table(),
                    )[u] by {
                        let k = choose|k: int|
                            0 <= k < old(self).slots@.len() && (#[trigger] old(self).slots@[k]).0
                                == u;
                        old(self).lemma_slot_view(k);
                        self.lemma_slot_view(k);
                        if u == t as int {
                            assert(k == i) by {
                                if k != i {
                                    assert(old(self).slots@[k].0 != old(self).slots@[i as int].0);
                                }
                            }
                        }
                    }
                    assert(self@ =~= old(self)@.insert(t as int, zero_table()));
                }
            },
            None => {
                self.slots.push((t, z));
                proof {
                    let n = self.slots@.len() - 1;
                    assert(self.slots@[n].0 == t);
                    assert(forall|k: int| 0 <= k < n ==> self.slots@[k] == old(self).slots@[k]);
                    assert forall|u: int| self@.contains_key(u) implies old(self)@.insert(
                        t as int,
                        zero_table(),
                    ).contains_key(u) by {
                        let k = choose|k: int|
                            0 <= k < self.slots@.len() && (#[trigger] self.slots@[k]).0 == u;
                        if k < n {
                            old(self).lemma_slot_view(k);
                        }
                    }
                    assert forall|u: int|
                        old(self)@.insert(t as int, zero_table()).contains_key(
                            u,
                        ) implies self@.contains_key(u) && self@[u] == old(self)@.insert(
                        t as int,
                        zero_table(),
                    )[u] by {
                        if u == t as int {
                            self.lemma_slot_view(n);
                        } else {
                            let k = choose|k: int|
                                0 <= k < old(self).slots@.len() && (#[trigger] old(
                                    self,
                                ).slots@[k]).0 == u;
                            old(self).lemma_slot_view(k);
                            self.lemma_slot_view(k);
                        }
                    }
                    assert(self@ =~= old(self)@.insert(t as int, zero_table()));
                }
            },
        }
    }
}

/// Reads entry `i` of table `t` in `m`, treating an absent or malformed
/// table as all zeroes.
pub open spec fn ent0(m: Map<int, Seq<u64>>, t: int, i: int) -> u64 {
    if m.contains_key(t) && m[t].len() == ENTRY_COUNT && 0 <= i < ENTRY_COUNT {
        m[t][i]
    } else {
        0u64
    }
}

} // verus!
