//! The mapper: the single place that performs the four-level table walk for
//! a virtual page against whatever table hierarchy is currently wired
//! through the recursive slot.
//!
//! The mapper holds the arena of table frames and the model's stand-in for
//! the hardware's table base register (`active_p4`).  As on the hardware,
//! the hierarchy it walks is the one reached through entry 511 of the frame
//! that register names; swapping that one entry therefore redirects every
//! operation to another hierarchy, which is how an inactive table is edited
//! in place.

use vstd::prelude::*;
use crate::frame::{Frame, FrameAllocator, MAX_FRAME_INDEX, PAGE_SIZE};
use crate::page::{lemma_page_index_bounds, p1s, p2s, p3s, p4s, Page, ENTRY_COUNT, PAGE_COUNT};
use crate::table::{
    efr, ent0, flags_wf, is_present, lemma_zero_entry, mappable, mk_entry, mk_entry_spec, present,
    zero_table, entry_frame, lemma_entry_roundtrip, TableArena, FLAG_PRESENT, FLAG_WRITABLE,
};

verus! {

/// The ways a mapping operation can fail.
#[derive(PartialEq, Eq, Debug)]
pub enum MapError {
    /// The page already has a present leaf entry; overwriting it would
    /// silently leak the frame it points at.
    AlreadyInUse,
    /// The frame allocator ran out of physical memory.
    FrameExhausted,
}

/// The frame the level-3 table for top-level index `i` lives in.
pub open spec fn t3(m: Map<int, Seq<u64>>, r: int, i: int) -> int {
    efr(ent0(m, r, i))
}

/// The frame the level-2 table for indices `i, j` lives in.
pub open spec fn t2(m: Map<int, Seq<u64>>, r: int, i: int, j: int) -> int {
    efr(ent0(m, t3(m, r, i), j))
}

/// The frame the level-1 table for indices `i, j, k` lives in.
pub open spec fn t1(m: Map<int, Seq<u64>>, r: int, i: int, j: int, k: int) -> int {
    efr(ent0(m, t2(m, r, i, j), k))
}

/// The root table has a present child table at top-level index `i`.
/// Index 511 is the recursive slot, never an ordinary child.
pub open spec fn c3(m: Map<int, Seq<u64>>, r: int, i: int) -> bool {
    0 <= i < 511 && present(ent0(m, r, i))
}

/// The hierarchy has a present level-2 table at indices `i, j`.
pub open spec fn c2(m: Map<int, Seq<u64>>, r: int, i: int, j: int) -> bool {
    c3(m, r, i) && 0 <= j < ENTRY_COUNT && present(ent0(m, t3(m, r, i), j))
}

/// The hierarchy has a present level-1 table at indices `i, j, k`.
pub open spec fn c1(m: Map<int, Seq<u64>>, r: int, i: int, j: int, k: int) -> bool {
    c2(m, r, i, j) && 0 <= k < ENTRY_COUNT && present(ent0(m, t2(m, r, i, j), k))
}

/// Frame `t` holds one of the tables of the hierarchy rooted at `r`.
pub open spec fn in_hier(m: Map<int, Seq<u64>>, r: int, t: int) -> bool {
    ||| t == r
    ||| exists|i: int| c3(m, r, i) && #[trigger] t3(m, r, i) == t
    ||| exists|i: int, j: int| c2(m, r, i, j) && #[trigger] t2(m, r, i, j) == t
    ||| exists|i: int, j: int, k: int| c1(m, r, i, j, k) && #[trigger] t1(m, r, i, j, k) == t
}

/// Well-formedness of the hierarchy rooted at `r`: the root is self-mapped
/// through its recursive slot, every present non-leaf entry points at a
/// table the arena holds, and no table frame serves two positions.
pub open spec fn wf_hier(m: Map<int, Seq<u64>>, r: int) -> bool {
    &&& m.dom().contains(r)
    &&& (forall|t: int| #[trigger] m.dom().contains(t) ==> m[t].len() == ENTRY_COUNT)
    &&& present(ent0(m, r, 511))
    &&& t3(m, r, 511) == r
    &&& (forall|i: int|
        c3(m, r, i) ==> m.dom().contains(#[trigger] t3(m, r, i)) && t3(m, r, i) != r)
    &&& (forall|i: int, j: int|
        c2(m, r, i, j) ==> m.dom().contains(#[trigger] t2(m, r, i, j)) && t2(m, r, i, j) != r)
    &&& (forall|i: int, j: int, k: int|
        c1(m, r, i, j, k) ==> m.dom().contains(#[trigger] t1(m, r, i, j, k)) && t1(m, r, i, j, k)
            != r)
    &&& (forall|i: int, i2: int|
        c3(m, r, i) && c3(m, r, i2) && i != i2 ==> #[trigger] t3(m, r, i) != #[trigger] t3(
            m,
            r,
            i2,
        ))
    &&& (forall|i: int, j: int, i2: int, j2: int|
        c2(m, r, i, j) && c2(m, r, i2, j2) && (i != i2 || j != j2) ==> #[trigger] t2(m, r, i, j)
            != #[trigger] t2(m, r, i2, j2))
    &&& (forall|i: int, j: int, k: int, i2: int, j2: int, k2: int|
        c1(m, r, i, j, k) && c1(m, r, i2, j2, k2) && (i != i2 || j != j2 || k != k2)
            ==> #[trigger] t1(m, r, i, j, k) != #[trigger] t1(m, r, i2, j2, k2))
    &&& (forall|i: int, i2: int, j2: int|
        c3(m, r, i) && c2(m, r, i2, j2) ==> #[trigger] t3(m, r, i) != #[trigger] t2(m, r, i2, j2))
    &&& (forall|i: int, i2: int, j2: int, k2: int|
        c3(m, r, i) && c1(m, r, i2, j2, k2) ==> #[trigger] t3(m, r, i) != #[trigger] t1(
            m,
            r,
            i2,
            j2,
            k2,
        ))
    &&& (forall|i: int, j: int, i2: int, j2: int, k2: int|
        c2(m, r, i, j) && c1(m, r, i2, j2, k2) ==> #[trigger] t2(m, r, i, j) != #[trigger] t1(
            m,
            r,
            i2,
            j2,
            k2,
        ))
}

/// The four-level walk for page `p` in the hierarchy rooted at `r`: the
/// present leaf entry if every level is present, nothing otherwise.
pub open spec fn walk(m: Map<int, Seq<u64>>, r: int, p: Page) -> Option<u64> {
    if !present(ent0(m, r, p4s(p))) {
        None
    } else if !present(ent0(m, t3(m, r, p4s(p)), p3s(p))) {
        None
    } else if !present(ent0(m, t2(m, r, p4s(p), p3s(p)), p2s(p))) {
        None
    } else {
        let e = ent0(m, t1(m, r, p4s(p), p3s(p), p2s(p)), p1s(p));
        if present(e) {
            Some(e)
        } else {
            None
        }
    }
}

/// The arena after overwriting entry `x` of the table in frame `t`.
pub open spec fn upd(m: Map<int, Seq<u64>>, t: int, x: int, e: u64) -> Map<int, Seq<u64>> {
    m.insert(t, m[t].update(x, e))
}

/// How many intermediate tables a mapping of page `p` would still have to
/// create.
pub open spec fn missing(m: Map<int, Seq<u64>>, r: int, p: Page) -> int {
    if !present(ent0(m, r, p4s(p))) {
        3
    } else if !present(ent0(m, t3(m, r, p4s(p)), p3s(p))) {
        2
    } else if !present(ent0(m, t2(m, r, p4s(p), p3s(p)), p2s(p))) {
        1
    } else {
        0
    }
}

/// Every frame in `fs` is mappable and holds no table of the hierarchy
/// rooted at `r`: what the surrounding system owes any allocator it hands
/// to a mapping operation.
pub open spec fn allocator_ok(fs: Set<int>, m: Map<int, Seq<u64>>, r: int) -> bool {
    forall|f: int| #[trigger] fs.contains(f) ==> mappable(f) && !in_hier(m, r, f)
}

/// The set `s` can still supply `n` frames.
pub open spec fn has_room(s: Set<int>, n: int) -> bool {
    n <= 0 || (s.finite() ==> s.len() >= n)
}

/// Taking one element out of a set trades room for `n` frames against room
/// for `n - 1`.
pub proof fn lemma_room_remove_all(s: Set<int>, a: int)
    requires
        s.contains(a),
    ensures
        forall|n: int| #[trigger] has_room(s, n) <==> has_room(s.remove(a), n - 1),
        forall|n: int| has_room(s.remove(a), n - 1) ==> #[trigger] has_room(s, n),
{
    assert forall|n: int| #[trigger] has_room(s, n) <==> has_room(s.remove(a), n - 1) by {
        lemma_room_remove(s, a, n);
    }
}

/// Taking one element out of a set trades room for `n` frames against room
/// for `n - 1`.
pub proof fn lemma_room_remove(s: Set<int>, a: int, n: int)
    requires
        s.contains(a),
    ensures
        has_room(s, n) <==> has_room(s.remove(a), n - 1),
{
    if n < 1 {
        if s.finite() {
            assert(s.remove(a).len() == s.len() - 1);
        } else {
            if s.remove(a).finite() {
                assert(s =~= s.remove(a).insert(a));
            }
        }
        return;
    }
    if s.finite() {
        assert(s.remove(a).len() == s.len() - 1);
    } else {
        if s.remove(a).finite() {
            assert(s =~= s.remove(a).insert(a));
        }
    }
}

/// An empty set has no room for a frame.
pub proof fn lemma_no_room_empty(s: Set<int>, n: int)
    requires
        s.is_empty(),
        1 <= n,
    ensures
        !has_room(s, n),
{
    assert(s =~= Set::<int>::empty());
}

/// Every table of a well-formed hierarchy is held by the arena.
pub proof fn lemma_in_hier_dom(m: Map<int, Seq<u64>>, r: int, t: int)
    requires
        wf_hier(m, r),
        in_hier(m, r, t),
    ensures
        m.dom().contains(t),
{
    if t == r {
    } else if exists|i: int| c3(m, r, i) && #[trigger] t3(m, r, i) == t {
        let i = choose|i: int| c3(m, r, i) && #[trigger] t3(m, r, i) == t;
        assert(m.dom().contains(t3(m, r, i)));
    } else if exists|i: int, j: int| c2(m, r, i, j) && #[trigger] t2(m, r, i, j) == t {
        let (i, j) = choose|i: int, j: int| c2(m, r, i, j) && #[trigger] t2(m, r, i, j) == t;
        assert(m.dom().contains(t2(m, r, i, j)));
    } else {
        let (i, j, k) = choose|i: int, j: int, k: int|
            c1(m, r, i, j, k) && #[trigger] t1(m, r, i, j, k) == t;
        assert(m.dom().contains(t1(m, r, i, j, k)));
    }
}

/// If two arenas agree on every table of a well-formed hierarchy, the
/// hierarchy is well formed in both and walks, positions and membership all
/// coincide.
#[verifier::rlimit(60)]
pub proof fn lemma_hier_agree(m: Map<int, Seq<u64>>, m2: Map<int, Seq<u64>>, r: int)
    requires
        wf_hier(m, r),
        forall|t: int| #[trigger] m2.dom().contains(t) ==> m2[t].len() == ENTRY_COUNT,
        forall|t: int| #[trigger] in_hier(m, r, t) ==> m2.dom().contains(t) && m2[t] == m[t],
    ensures
        wf_hier(m2, r),
        forall|i: int| #[trigger] ent0(m2, r, i) == ent0(m, r, i),
        forall|i: int| (#[trigger] c3(m2, r, i) <==> c3(m, r, i)) && t3(m2, r, i) == t3(m, r, i),
        forall|i: int, j: int|
            (#[trigger] c2(m2, r, i, j) <==> c2(m, r, i, j)) && (c3(m, r, i) ==> t2(m2, r, i, j)
                == t2(m, r, i, j)),
        forall|i: int, j: int, k: int|
            (#[trigger] c1(m2, r, i, j, k) <==> c1(m, r, i, j, k)) && (c2(m, r, i, j) ==> t1(
                m2,
                r,
                i,
                j,
                k,
            ) == t1(m, r, i, j, k)),
        forall|t: int| #[trigger] in_hier(m2, r, t) <==> in_hier(m, r, t),
        forall|p: Page|
            p.wf() && p4s(p) != 511 ==> #[trigger] walk(m2, r, p) == walk(m, r, p),
{
    assert(in_hier(m, r, r));
    assert(m2.dom().contains(r) && m2[r] == m[r]);
    assert forall|i: int| #[trigger] ent0(m2, r, i) == ent0(m, r, i) by {}
    assert forall|i: int| (#[trigger] c3(m2, r, i) <==> c3(m, r, i)) && t3(m2, r, i) == t3(
        m,
        r,
        i,
    ) by {}
    assert forall|i: int, j: int| c3(m, r, i) implies #[trigger] ent0(m2, t3(m, r, i), j) == ent0(
        m,
        t3(m, r, i),
        j,
    ) by {
        assert(in_hier(m, r, t3(m, r, i)));
    }
    assert forall|i: int, j: int|
        (#[trigger] c2(m2, r, i, j) <==> c2(m, r, i, j)) && (c3(m, r, i) ==> t2(m2, r, i, j) == t2(
            m,
            r,
            i,
            j,
        )) by {
        if c3(m, r, i) {
            assert(ent0(m2, t3(m, r, i), j) == ent0(m, t3(m, r, i), j));
        }
    }
    assert forall|i: int, j: int, k: int| c2(m, r, i, j) implies #[trigger] ent0(
        m2,
        t2(m, r, i, j),
        k,
    ) == ent0(m, t2(m, r, i, j), k) by {
        assert(in_hier(m, r, t2(m, r, i, j)));
    }
    assert forall|i: int, j: int, k: int|
        (#[trigger] c1(m2, r, i, j, k) <==> c1(m, r, i, j, k)) && (c2(m, r, i, j) ==> t1(
            m2,
            r,
            i,
            j,
            k,
        ) == t1(m, r, i, j, k)) by {
        if c2(m, r, i, j) {
            assert(ent0(m2, t2(m, r, i, j), k) == ent0(m, t2(m, r, i, j), k));
        }
    }
    assert forall|i: int, j: int, k: int, l: int| c1(m, r, i, j, k) implies #[trigger] ent0(
        m2,
        t1(m, r, i, j, k),
        l,
    ) == ent0(m, t1(m, r, i, j, k), l) by {
        assert(in_hier(m, r, t1(m, r, i, j, k)));
    }
    assert forall|i: int| c3(m2, r, i) implies m2.dom().contains(#[trigger] t3(m2, r, i)) && t3(
        m2,
        r,
        i,
    ) != r by {
        assert(c3(m, r, i));
        assert(in_hier(m, r, t3(m, r, i)));
    }
    assert forall|i: int, j: int| c2(m2, r, i, j) implies m2.dom().contains(
        #[trigger] t2(m2, r, i, j),
    ) && t2(m2, r, i, j) != r by {
        assert(c2(m, r, i, j));
        assert(in_hier(m, r, t2(m, r, i, j)));
    }
    assert forall|i: int, j: int, k: int| c1(m2, r, i, j, k) implies m2.dom().contains(
        #[trigger] t1(m2, r, i, j, k),
    ) && t1(m2, r, i, j, k) != r by {
        assert(c1(m, r, i, j, k));
        assert(in_hier(m, r, t1(m, r, i, j, k)));
    }
    assert(wf_hier(m2, r));
    assert forall|t: int| #[trigger] in_hier(m2, r, t) <==> in_hier(m, r, t) by {
        if in_hier(m2, r, t) && t != r {
            if exists|x: int| c3(m2, r, x) && #[trigger] t3(m2, r, x) == t {
                let x = choose|x: int| c3(m2, r, x) && #[trigger] t3(m2, r, x) == t;
                assert(c3(m, r, x) && t3(m, r, x) == t);
            } else if exists|x: int, y: int| c2(m2, r, x, y) && #[trigger] t2(m2, r, x, y) == t {
                let (x, y) = choose|x: int, y: int|
                    c2(m2, r, x, y) && #[trigger] t2(m2, r, x, y) == t;
                assert(c2(m, r, x, y) && t2(m, r, x, y) == t);
            } else if exists|x: int, y: int, z: int|
                c1(m2, r, x, y, z) && #[trigger] t1(m2, r, x, y, z) == t {
                let (x, y, z) = choose|x: int, y: int, z: int|
                    c1(m2, r, x, y, z) && #[trigger] t1(m2, r, x, y, z) == t;
                assert(c1(m, r, x, y, z) && t1(m, r, x, y, z) == t);
            }
        }
        if in_hier(m, r, t) && t != r {
            if exists|x: int| c3(m, r, x) && #[trigger] t3(m, r, x) == t {
                let x = choose|x: int| c3(m, r, x) && #[trigger] t3(m, r, x) == t;
                assert(c3(m2, r, x) && t3(m2, r, x) == t);
            } else if exists|x: int, y: int| c2(m, r, x, y) && #[trigger] t2(m, r, x, y) == t {
                let (x, y) = choose|x: int, y: int|
                    c2(m, r, x, y) && #[trigger] t2(m, r, x, y) == t;
                assert(c2(m2, r, x, y) && t2(m2, r, x, y) == t);
            } else if exists|x: int, y: int, z: int|
                c1(m, r, x, y, z) && #[trigger] t1(m, r, x, y, z) == t {
                let (x, y, z) = choose|x: int, y: int, z: int|
                    c1(m, r, x, y, z) && #[trigger] t1(m, r, x, y, z) == t;
                assert(c1(m2, r, x, y, z) && t1(m2, r, x, y, z) == t);
            }
        }
    }
    assert forall|p: Page| p.wf() && p4s(p) != 511 implies #[trigger] walk(m2, r, p) == walk(
        m,
        r,
        p,
    ) by {
        lemma_page_index_bounds(p);
        let i = p4s(p);
        let j = p3s(p);
        let k = p2s(p);
        let l = p1s(p);
        assert(0 <= i < 511 && 0 <= j < 512 && 0 <= k < 512 && 0 <= l < 512);
        if present(ent0(m, r, i)) && present(ent0(m, t3(m, r, i), j)) && present(
            ent0(m, t2(m, r, i, j), k),
        ) {
            assert(c1(m, r, i, j, k));
            assert(ent0(m2, t1(m, r, i, j, k), l) == ent0(m, t1(m, r, i, j, k), l));
        }
    }
}

/// Attaching a fresh zeroed table below position `(parent, idx)` of the
/// hierarchy preserves well-formedness and every walk, and extends the
/// chain.  `level` says which level the parent table sits at: 4, 3 or 2.
#[verifier::rlimit(100)]
pub proof fn lemma_attach(
    m: Map<int, Seq<u64>>,
    r: int,
    level: int,
    i: int,
    j: int,
    k: int,
    parent: int,
    idx: int,
    f: int,
    e: u64,
)
    requires
        wf_hier(m, r),
        0 <= i < 511,
        0 <= j < ENTRY_COUNT,
        0 <= k < ENTRY_COUNT,
        level == 4 || level == 3 || level == 2,
        level == 4 ==> !present(ent0(m, r, i)) && parent == r && idx == i,
        level == 3 ==> c3(m, r, i) && !present(ent0(m, t3(m, r, i), j)) && parent == t3(m, r, i)
            && idx == j,
        level == 2 ==> c2(m, r, i, j) && !present(ent0(m, t2(m, r, i, j), k)) && parent == t2(
            m,
            r,
            i,
            j,
        ) && idx == k,
        m.dom().contains(f),
        m[f] == zero_table(),
        !in_hier(m, r, f),
        present(e),
        efr(e) == f,
    ensures
        ({
            let m2 = upd(m, parent, idx, e);
            &&& wf_hier(m2, r)
            &&& (forall|p: Page|
                p.wf() && p4s(p) != 511 ==> #[trigger] walk(m2, r, p) == walk(m, r, p))
            &&& (forall|t: int|
                #[trigger] in_hier(m2, r, t) <==> in_hier(m, r, t) || t == f)
            &&& (level == 4 ==> c3(m2, r, i) && t3(m2, r, i) == f)
            &&& (level == 3 ==> c2(m2, r, i, j) && t2(m2, r, i, j) == f && c3(m2, r, i) && t3(
                m2,
                r,
                i,
            ) == t3(m, r, i))
            &&& (level == 2 ==> c1(m2, r, i, j, k) && t1(m2, r, i, j, k) == f && c2(m2, r, i, j)
                && t2(m2, r, i, j) == t2(m, r, i, j) && c3(m2, r, i) && t3(m2, r, i) == t3(
                m,
                r,
                i,
            ))
            &&& present(ent0(m2, r, 511)) && t3(m2, r, 511) == r
            &&& ent0(m2, r, 511) == ent0(m, r, 511)
        }),
{
    lemma_zero_entry();
    let m2 = upd(m, parent, idx, e);
    assert(m2 == m.insert(parent, m[parent].update(idx, e)));
    assert(in_hier(m, r, parent)) by {
        if level == 3 {
            assert(c3(m, r, i) && t3(m, r, i) == t3(m, r, i));
        }
        if level == 2 {
            assert(c2(m, r, i, j) && t2(m, r, i, j) == t2(m, r, i, j));
        }
    }
    lemma_in_hier_dom(m, r, parent);
    assert(f != parent && f != r);
    // Which positions keep their old entries: every table other than the
    // parent, and the parent at every index other than idx.
    assert forall|t: int, x: int|
        t != parent implies #[trigger] ent0(m2, t, x) == ent0(m, t, x) by {}
    assert forall|x: int| x != idx implies #[trigger] ent0(m2, parent, x) == ent0(
        m,
        parent,
        x,
    ) by {}
    assert(ent0(m2, parent, idx) == e);
    // The old hierarchy tables other than the parent are untouched, and the
    // fresh frame is distinct from all of them.
    assert forall|t: int| in_hier(m, r, t) implies #[trigger] m2.dom().contains(t) by {
        lemma_in_hier_dom(m, r, t);
    }
    // Characterize positions in m2.
    if level == 4 {
        assert forall|x: int|
            x != i implies (#[trigger] c3(m2, r, x) <==> c3(m, r, x)) && t3(m2, r, x) == t3(
            m,
            r,
            x,
        ) by {}
        assert(c3(m2, r, i) && t3(m2, r, i) == f);
        assert forall|x: int, y: int| #[trigger] c2(m2, r, x, y) || c2(m, r, x, y) implies (c2(
            m2,
            r,
            x,
            y,
        ) <==> c2(m, r, x, y) && x != i) && (c2(m, r, x, y) && x != i ==> t2(m2, r, x, y) == t2(
            m,
            r,
            x,
            y,
        )) by {
            if x == i {
                assert(t3(m2, r, i) == f);
                assert(ent0(m2, f, y) == ent0(m, f, y));
                assert(!present(ent0(m2, f, y)));
                assert(!c2(m, r, x, y));
            } else {
                if c3(m, r, x) {
                    assert(t3(m, r, x) != r);
                    assert(ent0(m2, t3(m, r, x), y) == ent0(m, t3(m, r, x), y));
                }
            }
        }
        assert forall|x: int, y: int, z: int|
            #[trigger] c1(m2, r, x, y, z) || c1(m, r, x, y, z) implies (c1(m2, r, x, y, z) <==> c1(
            m,
            r,
            x,
            y,
            z,
        ) && x != i) && (c1(m, r, x, y, z) && x != i ==> t1(m2, r, x, y, z) == t1(
            m,
            r,
            x,
            y,
            z,
        )) by {
            if x != i && c2(m, r, x, y) {
                assert(t2(m, r, x, y) != r);
                assert(ent0(m2, t2(m, r, x, y), z) == ent0(m, t2(m, r, x, y), z));
                assert(t2(m2, r, x, y) == t2(m, r, x, y));
            }
        }
    } else if level == 3 {
        assert forall|x: int|
            (#[trigger] c3(m2, r, x) <==> c3(m, r, x)) && t3(m2, r, x) == t3(m, r, x) by {
            assert(ent0(m2, r, x) == ent0(m, r, x));
        }
        assert forall|x: int, y: int|
            #[trigger] c2(m2, r, x, y) || c2(m, r, x, y) implies (c2(m2, r, x, y) <==> (c2(
            m,
            r,
            x,
            y,
        ) || (x == i && y == j))) && (c2(m, r, x, y) ==> t2(m2, r, x, y) == t2(m, r, x, y)) && (x
            == i && y == j ==> t2(m2, r, x, y) == f) by {
            if c3(m, r, x) {
                if t3(m, r, x) == parent {
                    assert(x == i);
                } else {
                    assert(ent0(m2, t3(m, r, x), y) == ent0(m, t3(m, r, x), y));
                }
            }
        }
        assert forall|x: int, y: int, z: int|
            #[trigger] c1(m2, r, x, y, z) || c1(m, r, x, y, z) implies (c1(m2, r, x, y, z) <==> c1(
            m,
            r,
            x,
            y,
            z,
        )) && (c1(m, r, x, y, z) ==> t1(m2, r, x, y, z) == t1(m, r, x, y, z)) by {
            if x == i && y == j {
                if c2(m2, r, x, y) && !c2(m, r, x, y) {
                    assert(t2(m2, r, x, y) == f);
                    assert(ent0(m2, f, z) == ent0(m, f, z));
                    assert(!present(ent0(m2, f, z)));
                }
            } else {
                if c2(m, r, x, y) {
                    assert(t2(m, r, x, y) != parent) by {
                        assert(t3(m, r, i) != t2(m, r, x, y));
                    }
                    assert(ent0(m2, t2(m, r, x, y), z) == ent0(m, t2(m, r, x, y), z));
                    assert(t2(m2, r, x, y) == t2(m, r, x, y));
                }
            }
        }
    } else {
        assert forall|x: int|
            (#[trigger] c3(m2, r, x) <==> c3(m, r, x)) && t3(m2, r, x) == t3(m, r, x) by {
            assert(ent0(m2, r, x) == ent0(m, r, x));
        }
        assert forall|x: int, y: int|
            (#[trigger] c2(m2, r, x, y) <==> c2(m, r, x, y)) && (c2(m, r, x, y) ==> t2(m2, r, x, y)
                == t2(m, r, x, y)) by {
            if c3(m, r, x) {
                assert(t3(m, r, x) != parent) by {
                    assert(t3(m, r, x) != t2(m, r, i, j));
                }
                assert(ent0(m2, t3(m, r, x), y) == ent0(m, t3(m, r, x), y));
            }
        }
        assert forall|x: int, y: int, z: int|
            #[trigger] c1(m2, r, x, y, z) || c1(m, r, x, y, z) implies (c1(m2, r, x, y, z) <==> (c1(
            m,
            r,
            x,
            y,
            z,
        ) || (x == i && y == j && z == k))) && (c1(m, r, x, y, z) ==> t1(m2, r, x, y, z) == t1(
            m,
            r,
            x,
            y,
            z,
        )) && (x == i && y == j && z == k ==> t1(m2, r, x, y, z) == f) by {
            if c2(m, r, x, y) {
                if t2(m, r, x, y) == parent {
                    assert(x == i && y == j);
                } else {
                    assert(ent0(m2, t2(m, r, x, y), z) == ent0(m, t2(m, r, x, y), z));
                }
            }
        }
    }
    // Well-formedness of the new hierarchy: the fresh frame is distinct from
    // every old table because it was outside the hierarchy.
    assert forall|x: int| c3(m, r, x) implies #[trigger] t3(m, r, x) != f by {
        assert(in_hier(m, r, t3(m, r, x)));
    }
    assert forall|x: int, y: int| c2(m, r, x, y) implies #[trigger] t2(m, r, x, y) != f by {
        assert(in_hier(m, r, t2(m, r, x, y)));
    }
    assert forall|x: int, y: int, z: int| c1(m, r, x, y, z) implies #[trigger] t1(m, r, x, y, z)
        != f by {
        assert(in_hier(m, r, t1(m, r, x, y, z)));
    }
    assert(wf_hier(m2, r));
    // Membership in the new hierarchy.
    assert forall|t: int| #[trigger] in_hier(m2, r, t) implies in_hier(m, r, t) || t == f by {
        if t != r && t != f {
            if exists|x: int| c3(m2, r, x) && #[trigger] t3(m2, r, x) == t {
                let x = choose|x: int| c3(m2, r, x) && #[trigger] t3(m2, r, x) == t;
                assert(c3(m, r, x) && t3(m, r, x) == t);
            } else if exists|x: int, y: int| c2(m2, r, x, y) && #[trigger] t2(m2, r, x, y) == t {
                let (x, y) = choose|x: int, y: int|
                    c2(m2, r, x, y) && #[trigger] t2(m2, r, x, y) == t;
                assert(c2(m, r, x, y) && t2(m, r, x, y) == t);
            } else {
                let (x, y, z) = choose|x: int, y: int, z: int|
                    c1(m2, r, x, y, z) && #[trigger] t1(m2, r, x, y, z) == t;
                assert(c1(m, r, x, y, z) && t1(m, r, x, y, z) == t);
            }
        }
    }
    assert forall|t: int| in_hier(m, r, t) || t == f implies #[trigger] in_hier(m2, r, t) by {
        if t == f {
            if level == 4 {
                assert(c3(m2, r, i) && t3(m2, r, i) == f);
            } else if level == 3 {
                assert(c2(m2, r, i, j) && t2(m2, r, i, j) == f);
            } else {
                assert(c1(m2, r, i, j, k) && t1(m2, r, i, j, k) == f);
            }
        } else if t != r {
            if exists|x: int| c3(m, r, x) && #[trigger] t3(m, r, x) == t {
                let x = choose|x: int| c3(m, r, x) && #[trigger] t3(m, r, x) == t;
                assert(c3(m2, r, x) && t3(m2, r, x) == t);
            } else if exists|x: int, y: int| c2(m, r, x, y) && #[trigger] t2(m, r, x, y) == t {
                let (x, y) = choose|x: int, y: int|
                    c2(m, r, x, y) && #[trigger] t2(m, r, x, y) == t;
                assert(c2(m2, r, x, y) && t2(m2, r, x, y) == t);
            } else if exists|x: int, y: int, z: int|
                c1(m, r, x, y, z) && #[trigger] t1(m, r, x, y, z) == t {
                let (x, y, z) = choose|x: int, y: int, z: int|
                    c1(m, r, x, y, z) && #[trigger] t1(m, r, x, y, z) == t;
                assert(c1(m2, r, x, y, z) && t1(m2, r, x, y, z) == t);
            }
        }
    }
    // Walks are preserved: the chain below the new child is all zeroes.
    assert forall|p: Page| p.wf() && p4s(p) != 511 implies #[trigger] walk(m2, r, p) == walk(
        m,
        r,
        p,
    ) by {
        lemma_page_index_bounds(p);
        let x = p4s(p);
        let y = p3s(p);
        let z = p2s(p);
        let l = p1s(p);
        assert(0 <= x < 511 && 0 <= y < 512 && 0 <= z < 512 && 0 <= l < 512);
        if c1(m, r, x, y, z) {
            assert(c1(m2, r, x, y, z) && t1(m2, r, x, y, z) == t1(m, r, x, y, z));
            assert(t1(m, r, x, y, z) != parent) by {
                if level == 4 {
                    assert(t1(m, r, x, y, z) != r);
                } else if level == 3 {
                    assert(t3(m, r, i) != t1(m, r, x, y, z));
                } else {
                    assert(t2(m, r, i, j) != t1(m, r, x, y, z));
                }
            }
            assert(ent0(m2, t1(m2, r, x, y, z), l) == ent0(m, t1(m, r, x, y, z), l));
        } else {
            if walk(m2, r, p) is Some {
                assert(c1(m2, r, x, y, z));
                if level == 2 && x == i && y == j && z == k {
                    assert(t1(m2, r, x, y, z) == f);
                    assert(ent0(m2, f, l) == ent0(m, f, l));
                    assert(!present(ent0(m2, f, l)));
                    assert(false);
                } else {
                    assert(c1(m, r, x, y, z));
                    assert(false);
                }
            }
            assert(walk(m, r, p) is None);
        }
    }
}

/// Setting the leaf entry of an existing level-1 table changes exactly that
/// page's walk and nothing else.
#[verifier::rlimit(100)]
pub proof fn lemma_set_leaf(
    m: Map<int, Seq<u64>>,
    r: int,
    i: int,
    j: int,
    k: int,
    cc: int,
    l: int,
    e: u64,
)
    requires
        wf_hier(m, r),
        c1(m, r, i, j, k),
        cc == t1(m, r, i, j, k),
        0 <= l < ENTRY_COUNT,
    ensures
        ({
            let m2 = upd(m, cc, l, e);
            &&& wf_hier(m2, r)
            &&& (forall|p: Page|
                p.wf() && p4s(p) != 511 && !(p4s(p) == i && p3s(p) == j && p2s(p) == k && p1s(p)
                    == l) ==> #[trigger] walk(m2, r, p) == walk(m, r, p))
            &&& (forall|p: Page|
                p.wf() && p4s(p) == i && p3s(p) == j && p2s(p) == k && p1s(p) == l
                    ==> #[trigger] walk(m2, r, p) == (if present(e) {
                    Some(e)
                } else {
                    None::<u64>
                }))
            &&& (forall|t: int| #[trigger] in_hier(m2, r, t) <==> in_hier(m, r, t))
            &&& present(ent0(m2, r, 511)) && t3(m2, r, 511) == r
            &&& ent0(m2, r, 511) == ent0(m, r, 511)
            &&& (forall|x: int|
                (#[trigger] c3(m2, r, x) <==> c3(m, r, x)) && t3(m2, r, x) == t3(m, r, x))
            &&& (forall|x: int, y: int|
                (#[trigger] c2(m2, r, x, y) <==> c2(m, r, x, y)) && (c3(m, r, x) ==> t2(
                    m2,
                    r,
                    x,
                    y,
                ) == t2(m, r, x, y)))
            &&& (forall|x: int, y: int, z: int|
                (#[trigger] c1(m2, r, x, y, z) <==> c1(m, r, x, y, z)) && (c2(m, r, x, y) ==> t1(
                    m2,
                    r,
                    x,
                    y,
                    z,
                ) == t1(m, r, x, y, z)))
        }),
{
    let c = cc;
    let m2 = upd(m, cc, l, e);
    assert(m2 == m.insert(c, m[c].update(l, e)));
    assert(in_hier(m, r, c)) by {
        assert(c1(m, r, i, j, k) && t1(m, r, i, j, k) == c);
    }
    lemma_in_hier_dom(m, r, c);
    assert(c != r);
    assert forall|t: int, x: int| t != c implies #[trigger] ent0(m2, t, x) == ent0(m, t, x) by {}
    assert forall|x: int| x != l implies #[trigger] ent0(m2, c, x) == ent0(m, c, x) by {}
    // No non-leaf position reads the level-1 table, so the structure is
    // unchanged.
    assert forall|x: int|
        (#[trigger] c3(m2, r, x) <==> c3(m, r, x)) && t3(m2, r, x) == t3(m, r, x) by {
        assert(ent0(m2, r, x) == ent0(m, r, x));
    }
    assert forall|x: int, y: int|
        (#[trigger] c2(m2, r, x, y) <==> c2(m, r, x, y)) && (c3(m, r, x) ==> t2(m2, r, x, y) == t2(
            m,
            r,
            x,
            y,
        )) by {
        if c3(m, r, x) {
            assert(t3(m, r, x) != c) by {
                assert(t3(m, r, x) != t1(m, r, i, j, k));
            }
            assert(ent0(m2, t3(m, r, x), y) == ent0(m, t3(m, r, x), y));
        }
    }
    assert forall|x: int, y: int, z: int|
        (#[trigger] c1(m2, r, x, y, z) <==> c1(m, r, x, y, z)) && (c2(m, r, x, y) ==> t1(
            m2,
            r,
            x,
            y,
            z,
        ) == t1(m, r, x, y, z)) by {
        if c2(m, r, x, y) {
            assert(t2(m, r, x, y) != c) by {
                assert(t2(m, r, x, y) != t1(m, r, i, j, k));
            }
            assert(ent0(m2, t2(m, r, x, y), z) == ent0(m, t2(m, r, x, y), z));
        }
    }
    assert(wf_hier(m2, r));
    assert forall|t: int| #[trigger] in_hier(m2, r, t) <==> in_hier(m, r, t) by {
        if in_hier(m2, r, t) && t != r {
            if exists|x: int| c3(m2, r, x) && #[trigger] t3(m2, r, x) == t {
                let x = choose|x: int| c3(m2, r, x) && #[trigger] t3(m2, r, x) == t;
                assert(c3(m, r, x) && t3(m, r, x) == t);
            } else if exists|x: int, y: int| c2(m2, r, x, y) && #[trigger] t2(m2, r, x, y) == t {
                let (x, y) = choose|x: int, y: int|
                    c2(m2, r, x, y) && #[trigger] t2(m2, r, x, y) == t;
                assert(c2(m, r, x, y) && t2(m, r, x, y) == t);
            } else if exists|x: int, y: int, z: int|
                c1(m2, r, x, y, z) && #[trigger] t1(m2, r, x, y, z) == t {
                let (x, y, z) = choose|x: int, y: int, z: int|
                    c1(m2, r, x, y, z) && #[trigger] t1(m2, r, x, y, z) == t;
                assert(c1(m, r, x, y, z) && t1(m, r, x, y, z) == t);
            }
        }
        if in_hier(m, r, t) && t != r {
            if exists|x: int| c3(m, r, x) && #[trigger] t3(m, r, x) == t {
                let x = choose|x: int| c3(m, r, x) && #[trigger] t3(m, r, x) == t;
                assert(c3(m2, r, x) && t3(m2, r, x) == t);
            } else if exists|x: int, y: int| c2(m, r, x, y) && #[trigger] t2(m, r, x, y) == t {
                let (x, y) = choose|x: int, y: int|
                    c2(m, r, x, y) && #[trigger] t2(m, r, x, y) == t;
                assert(c2(m2, r, x, y) && t2(m2, r, x, y) == t);
            } else if exists|x: int, y: int, z: int|
                c1(m, r, x, y, z) && #[trigger] t1(m, r, x, y, z) == t {
                let (x, y, z) = choose|x: int, y: int, z: int|
                    c1(m, r, x, y, z) && #[trigger] t1(m, r, x, y, z) == t;
                assert(c1(m2, r, x, y, z) && t1(m2, r, x, y, z) == t);
            }
        }
    }
    assert forall|p: Page| p.wf() && p4s(p) != 511 && !(p4s(p) == i && p3s(p) == j && p2s(p) == k
        && p1s(p) == l) implies #[trigger] walk(m2, r, p) == walk(m, r, p) by {
        lemma_page_index_bounds(p);
        let x = p4s(p);
        let y = p3s(p);
        let z = p2s(p);
        let w = p1s(p);
        assert(0 <= x < 511 && 0 <= y < 512 && 0 <= z < 512 && 0 <= w < 512);
        if c1(m, r, x, y, z) {
            assert(t1(m2, r, x, y, z) == t1(m, r, x, y, z));
            if x == i && y == j && z == k {
                assert(w != l);
                assert(ent0(m2, c, w) == ent0(m, c, w));
            } else {
                assert(t1(m, r, x, y, z) != c) by {
                    assert(t1(m, r, x, y, z) != t1(m, r, i, j, k));
                }
                assert(ent0(m2, t1(m, r, x, y, z), w) == ent0(m, t1(m, r, x, y, z), w));
            }
        }
    }
    assert forall|p: Page| p.wf() && p4s(p) == i && p3s(p) == j && p2s(p) == k && p1s(p)
        == l implies #[trigger] walk(m2, r, p) == (if present(e) {
        Some(e)
    } else {
        None::<u64>
    }) by {
        assert(c1(m2, r, i, j, k) && t1(m2, r, i, j, k) == c);
        assert(ent0(m2, c, l) == e) by {
            assert(m2[c] == m[c].update(l, e));
        }
    }
}

/// The mapper itself: the arena of table frames plus the model's stand-in
/// for the hardware's table base register.
pub struct Mapper {
    pub tables: TableArena,
    pub active_p4: u64,
}

impl Mapper {
    /// The root of the hierarchy the mapper currently edits: whatever frame
    /// the recursive slot of the hardware-walked table points at.
    pub open spec fn root(self) -> int {
        t3(self.tables@, self.active_p4 as int, 511)
    }

    /// The mapper walks a well-formed hierarchy through a present recursive
    /// slot.
    pub open spec fn wf(self) -> bool {
        &&& self.tables.wf()
        &&& self.tables@.dom().contains(self.active_p4 as int)
        &&& present(ent0(self.tables@, self.active_p4 as int, 511))
        &&& wf_hier(self.tables@, self.root())
    }

    /// The hardware register names the root directly: the normal state
    /// outside the borrow window of an inactive-table edit.
    pub open spec fn straight(self) -> bool {
        self.active_p4 as int == self.root()
    }

    /// Whether the register frame is safe under edits of the current
    /// hierarchy: it either is the root or stands entirely outside it.
    pub open spec fn reg_clear(self) -> bool {
        self.active_p4 as int == self.root() || !in_hier(
            self.tables@,
            self.root(),
            self.active_p4 as int,
        )
    }

    /// The leaf entry the current hierarchy holds for `page`.
    pub open spec fn translation(self, page: Page) -> Option<u64> {
        walk(self.tables@, self.root(), page)
    }

    /// The frame holding the current root table.
    pub fn root_frame(&self) -> (r: u64)
        requires
            self.tables.wf(),
        ensures
            r as int == self.root(),
            mappable(r as int),
    {
        let e = self.tables.entry_or_zero(self.active_p4, 511);
        entry_frame(e)
    }

    /// Translates a virtual page to the frame it maps, or nothing when any
    /// level of the hierarchy is absent.
    pub fn translate_page(&self, page: Page) -> (r: Option<Frame>)
        requires
            self.tables.wf(),
        ensures
            match (r, self.translation(page)) {
                (Some(f), Some(e)) => f.index as int == efr(e) && f.wf() && mappable(
                    f.index as int,
                ),
                (None, None) => true,
                _ => false,
            },
    {
        let rt = self.root_frame();
        let e4 = self.tables.entry_or_zero(rt, page.p4_index());
        if !is_present(e4) {
            return None;
        }
        let a = entry_frame(e4);
        let e3 = self.tables.entry_or_zero(a, page.p3_index());
        if !is_present(e3) {
            return None;
        }
        let b = entry_frame(e3);
        let e2 = self.tables.entry_or_zero(b, page.p2_index());
        if !is_present(e2) {
            return None;
        }
        let c = entry_frame(e2);
        let e1 = self.tables.entry_or_zero(c, page.p1_index());
        if !is_present(e1) {
            return None;
        }
        let f = entry_frame(e1);
        proof {
            assert(MAX_FRAME_INDEX >= 0x100_0000_0000) by {
                vstd::arithmetic::div_mod::lemma_div_is_ordered(
                    0x1000_0000_0000_0000,
                    u64::MAX as int,
                    PAGE_SIZE as int,
                );
            }
        }
        Some(Frame { index: f })
    }

    /// Translates a virtual address to the physical address it maps.
    pub fn translate(&self, virtual_address: u64) -> (r: Option<u64>)
        requires
            self.tables.wf(),
            virtual_address < 0x1_0000_0000_0000,
        ensures
            match self.translation(Page { index: virtual_address / PAGE_SIZE }) {
                Some(e) => r == Some(
                    (efr(e) * PAGE_SIZE as int + virtual_address as int % PAGE_SIZE as int) as u64,
                ),
                None => r is None,
            },
    {
        let page = Page::containing_address(virtual_address);
        match self.translate_page(page) {
            Some(f) => {
                let offset = virtual_address % PAGE_SIZE;
                Some(f.index * PAGE_SIZE + offset)
            },
            None => None,
        }
    }

    /// Maps `page` to `frame` with `flags` plus the present bit, creating
    /// whatever intermediate tables are absent out of `allocator`.  Fails
    /// without touching anything when the page is already mapped, and with
    /// no translation changed when the allocator runs dry.
    #[verifier::rlimit(100)]
    pub fn map_to<A: FrameAllocator>(
        &mut self,
        page: Page,
        frame: Frame,
        flags: u64,
        allocator: &mut A,
    ) -> (res: Result<(), MapError>)
        requires
            old(self).wf(),
            old(self).reg_clear(),
            page.wf(),
            p4s(page) != 511,
            mappable(frame.index as int),
            flags_wf(flags),
            old(allocator).inv(),
            allocator_ok(old(allocator).frames(), old(self).tables@, old(self).root()),
            !old(allocator).frames().contains(old(self).active_p4 as int),
        ensures
            final(self).wf(),
            final(self).reg_clear(),
            final(self).active_p4 == old(self).active_p4,
            final(self).root() == old(self).root(),
            final(allocator).inv(),
            forall|i: int| old(allocator).accepts(i) ==> #[trigger] final(allocator).accepts(i),
            forall|f: int|
                final(allocator).frames().contains(f) ==> #[trigger] old(allocator).frames().contains(f),
            allocator_ok(final(allocator).frames(), final(self).tables@, old(self).root()),
            forall|t: int|
                #[trigger] old(self).tables@.dom().contains(t) ==> final(self).tables@.dom().contains(t),
            forall|t: int|
                #[trigger] final(self).tables@.dom().contains(t) ==> old(self).tables@.dom().contains(t) || old(allocator).frames().contains(t),
            forall|t: int|
                old(self).tables@.dom().contains(t) && !in_hier(
                    old(self).tables@,
                    old(self).root(),
                    t,
                ) && !old(allocator).frames().contains(t) ==> #[trigger] final(self).tables@[t]
                    == old(self).tables@[t],
            forall|t: int|
                #[trigger] in_hier(final(self).tables@, old(self).root(), t) ==> in_hier(
                    old(self).tables@,
                    old(self).root(),
                    t,
                ) || old(allocator).frames().contains(t),
            ent0(final(self).tables@, old(self).active_p4 as int, 511) == ent0(
                old(self).tables@,
                old(self).active_p4 as int,
                511,
            ),
            ent0(final(self).tables@, old(self).root(), 511) == ent0(
                old(self).tables@,
                old(self).root(),
                511,
            ),
            forall|n: int|
                #[trigger] has_room(old(allocator).frames(), n + 3) ==> has_room(
                    final(allocator).frames(),
                    n,
                ),
            forall|f: int|
                #[trigger] final(allocator).frames().contains(f) && !old(self).tables@.dom().contains(f) ==> !final(self).tables@.dom().contains(f),
            res == Ok::<(), MapError>(()) <==> !(old(self).translation(page) is Some) && has_room(
                old(allocator).frames(),
                missing(old(self).tables@, old(self).root(), page),
            ),
            res is Ok ==> (forall|n: int|
                #[trigger] has_room(final(allocator).frames(), n) <==> has_room(
                    old(allocator).frames(),
                    n + missing(old(self).tables@, old(self).root(), page),
                )),
            missing(old(self).tables@, old(self).root(), page) == 0 && res is Ok
                ==> *final(allocator) == *old(allocator) && (forall|t: int|
                t != t1(
                    old(self).tables@,
                    old(self).root(),
                    p4s(page),
                    p3s(page),
                    p2s(page),
                ) ==> (#[trigger] final(self).tables@.dom().contains(t)
                    <==> old(self).tables@.dom().contains(t)) && (old(self).tables@.dom().contains(
                    t,
                ) ==> final(self).tables@[t] == old(self).tables@[t])),
            match res {
                Ok(()) => {
                    &&& final(self).translation(page) == Some(
                        mk_entry_spec(frame.index as int, flags | FLAG_PRESENT),
                    )
                    &&& forall|q: Page|
                        q.wf() && p4s(q) != 511 && q.index != page.index
                            ==> #[trigger] final(self).translation(q) == old(self).translation(q)
                },
                Err(MapError::AlreadyInUse) => {
                    &&& old(self).translation(page) is Some
                    &&& final(self).tables@ == old(self).tables@
                    &&& *final(allocator) == *old(allocator)
                },
                Err(MapError::FrameExhausted) => {
                    &&& !(old(self).translation(page) is Some)
                    &&& forall|q: Page|
                        q.wf() && p4s(q) != 511
                            ==> #[trigger] final(self).translation(q) == old(self).translation(q)
                },
            },
    {
        proof {
            lemma_page_index_bounds(page);
            lemma_zero_entry();
            assert((0x1u64 | 0x2u64) & 0x000f_ffff_ffff_f000u64 == 0 && (0x1u64 | 0x2u64)
                & 0x1u64 == 0x1u64) by(bit_vector);
            assert(FLAG_PRESENT | FLAG_WRITABLE == 0x1u64 | 0x2u64);
        }
        let ghost m0 = self.tables@;
        let ghost r = self.root();
        let ghost fs0 = allocator.frames();
        let ghost reg = self.active_p4 as int;
        let ghost miss = missing(m0, r, page);
        let ghost mut left: int = miss;
        if self.translate_page(page).is_some() {
            return Err(MapError::AlreadyInUse);
        }
        let rt = self.root_frame();
        let i = page.p4_index();
        let j = page.p3_index();
        let k = page.p2_index();
        let l = page.p1_index();

        // Level 4: find or create the level-3 table.
        let e4 = self.tables.entry_or_zero(rt, i);
        let a: u64;
        if is_present(e4) {
            a = entry_frame(e4);
        } else {
            match allocator.alloc_frame() {
                None => {
                    proof {
                        lemma_no_room_empty(fs0, miss);
                    }
                    return Err(MapError::FrameExhausted);
                },
                Some(fr) => {
                    let fi = fr.index;
                    proof {
                        assert(fs0.contains(fi as int));
                        lemma_room_remove(fs0, fi as int, left);
                        lemma_room_remove_all(fs0, fi as int);
                        left = left - 1;
                        let m1 = m0.insert(fi as int, zero_table());
                        assert forall|t: int| #[trigger] in_hier(m0, r, t) implies m1.dom().contains(
                            t,
                        ) && m1[t] == m0[t] by {
                            lemma_in_hier_dom(m0, r, t);
                        }
                        lemma_hier_agree(m0, m1, r);
                    }
                    self.tables.install_zeroed(fi);
                    let e = mk_entry(fi, FLAG_PRESENT | FLAG_WRITABLE);
                    proof {
                        lemma_entry_roundtrip(fi, FLAG_PRESENT | FLAG_WRITABLE);
                        lemma_attach(
                            self.tables@,
                            r,
                            4,
                            i as int,
                            j as int,
                            k as int,
                            r,
                            i as int,
                            fi as int,
                            e,
                        );
                    }
                    let ghost mP = self.tables@;
                    self.tables.set_entry(rt, i, e);
                    proof {
                        assert(self.tables@ == upd(mP, r, i as int, e));
                        assert(ent0(self.tables@, reg, 511) == ent0(m0, reg, 511)) by {
                            if reg != r {
                                assert(!in_hier(m0, r, reg));
                            }
                        }
                        assert forall|f: int| #[trigger] allocator.frames().contains(f) implies
                            mappable(f) && !in_hier(self.tables@, r, f) by {
                            assert(fs0.contains(f));
                            assert(f != fi as int);
                            assert(!in_hier(m0, r, f));
                            let m1 = m0.insert(fi as int, zero_table());
                            assert(!in_hier(m1, r, f));
                            assert(in_hier(self.tables@, r, f) ==> in_hier(m1, r, f) || f
                                == fi as int);
                        }
                    }
                    a = fi;
                },
            }
        }
        let ghost mA = self.tables@;
        let ghost fsA = allocator.frames();
        proof {
            assert(wf_hier(mA, r));
            assert(c3(mA, r, i as int) && t3(mA, r, i as int) == a as int);
            assert(allocator_ok(fsA, mA, r)) by {
                assert forall|f: int| #[trigger] fsA.contains(f) implies mappable(f) && !in_hier(
                    mA,
                    r,
                    f,
                ) by {
                    assert(fs0.contains(f));
                }
            }
            assert(has_room(fs0, miss) <==> has_room(fsA, left));
            assert(ent0(mA, reg, 511) == ent0(m0, reg, 511));
            assert(forall|q: Page|
                q.wf() && p4s(q) != 511 ==> #[trigger] walk(mA, r, q) == walk(m0, r, q));
            assert(forall|t: int|
                #[trigger] in_hier(mA, r, t) ==> in_hier(m0, r, t) || fs0.contains(t));
            assert(forall|t: int| #[trigger] m0.dom().contains(t) ==> mA.dom().contains(t));
            assert(forall|t: int|
                #[trigger] mA.dom().contains(t) ==> m0.dom().contains(t) || fs0.contains(t));
        }

        // Level 3: find or create the level-2 table.
        let e3 = self.tables.entry_or_zero(a, j);
        let b: u64;
        if is_present(e3) {
            b = entry_frame(e3);
        } else {
            match allocator.alloc_frame() {
                None => {
                    proof {
                        assert(left >= 1);
                        lemma_no_room_empty(fsA, left);
                    }
                    return Err(MapError::FrameExhausted);
                },
                Some(fr) => {
                    let fi = fr.index;
                    proof {
                        assert(left >= 1);
                        assert(fsA.contains(fi as int));
                        lemma_room_remove(fsA, fi as int, left);
                        lemma_room_remove_all(fsA, fi as int);
                        left = left - 1;
                        let m1 = mA.insert(fi as int, zero_table());
                        assert forall|t: int| #[trigger] in_hier(mA, r, t) implies m1.dom().contains(
                            t,
                        ) && m1[t] == mA[t] by {
                            lemma_in_hier_dom(mA, r, t);
                        }
                        lemma_hier_agree(mA, m1, r);
                    }
                    self.tables.install_zeroed(fi);
                    let e = mk_entry(fi, FLAG_PRESENT | FLAG_WRITABLE);
                    proof {
                        lemma_entry_roundtrip(fi, FLAG_PRESENT | FLAG_WRITABLE);
                        assert(t3(self.tables@, r, i as int) == a as int);
                        lemma_attach(
                            self.tables@,
                            r,
                            3,
                            i as int,
                            j as int,
                            k as int,
                            a as int,
                            j as int,
                            fi as int,
                            e,
                        );
                    }
                    let ghost mP = self.tables@;
                    self.tables.set_entry(a, j, e);
                    proof {
                        assert(self.tables@ == upd(mP, a as int, j as int, e));
                        assert(ent0(self.tables@, reg, 511) == ent0(mA, reg, 511)) by {
                            if reg != r {
                                assert(!in_hier(mA, r, reg));
                            }
                        }
                        assert forall|f: int| #[trigger] allocator.frames().contains(f) implies
                            mappable(f) && !in_hier(self.tables@, r, f) by {
                            assert(fsA.contains(f));
                            assert(f != fi as int);
                            assert(!in_hier(mA, r, f));
                            let m1 = mA.insert(fi as int, zero_table());
                            assert(!in_hier(m1, r, f));
                            assert(in_hier(self.tables@, r, f) ==> in_hier(m1, r, f) || f
                                == fi as int);
                        }
                    }
                    b = fi;
                },
            }
        }
        let ghost mB = self.tables@;
        let ghost fsB = allocator.frames();
        proof {
            assert(wf_hier(mB, r));
            assert(c2(mB, r, i as int, j as int) && t2(mB, r, i as int, j as int) == b as int);
            assert(allocator_ok(fsB, mB, r)) by {
                assert forall|f: int| #[trigger] fsB.contains(f) implies mappable(f) && !in_hier(
                    mB,
                    r,
                    f,
                ) by {
                    assert(fsA.contains(f));
                    assert(fs0.contains(f));
                }
            }
            assert(has_room(fs0, miss) <==> has_room(fsB, left));
            assert(ent0(mB, reg, 511) == ent0(m0, reg, 511));
            assert(forall|q: Page|
                q.wf() && p4s(q) != 511 ==> #[trigger] walk(mB, r, q) == walk(mA, r, q));
            assert(forall|t: int|
                #[trigger] in_hier(mB, r, t) ==> in_hier(mA, r, t) || fsA.contains(t));
            assert(forall|t: int| #[trigger] mA.dom().contains(t) ==> mB.dom().contains(t));
            assert(forall|t: int|
                #[trigger] mB.dom().contains(t) ==> mA.dom().contains(t) || fsA.contains(t));
        }

        // Level 2: find or create the level-1 table.
        let e2 = self.tables.entry_or_zero(b, k);
        let c: u64;
        if is_present(e2) {
            c = entry_frame(e2);
        } else {
            match allocator.alloc_frame() {
                None => {
                    proof {
                        assert(left >= 1);
                        lemma_no_room_empty(fsB, left);
                    }
                    return Err(MapError::FrameExhausted);
                },
                Some(fr) => {
                    let fi = fr.index;
                    proof {
                        assert(left >= 1);
                        assert(fsB.contains(fi as int));
                        lemma_room_remove(fsB, fi as int, left);
                        lemma_room_remove_all(fsB, fi as int);
                        left = left - 1;
                        let m1 = mB.insert(fi as int, zero_table());
                        assert forall|t: int| #[trigger] in_hier(mB, r, t) implies m1.dom().contains(
                            t,
                        ) && m1[t] == mB[t] by {
                            lemma_in_hier_dom(mB, r, t);
                        }
                        lemma_hier_agree(mB, m1, r);
                    }
                    self.tables.install_zeroed(fi);
                    let e = mk_entry(fi, FLAG_PRESENT | FLAG_WRITABLE);
                    proof {
                        lemma_entry_roundtrip(fi, FLAG_PRESENT | FLAG_WRITABLE);
                        assert(t2(self.tables@, r, i as int, j as int) == b as int);
                        lemma_attach(
                            self.tables@,
                            r,
                            2,
                            i as int,
                            j as int,
                            k as int,
                            b as int,
                            k as int,
                            fi as int,
                            e,
                        );
                    }
                    let ghost mP = self.tables@;
                    self.tables.set_entry(b, k, e);
                    proof {
                        assert(self.tables@ == upd(mP, b as int, k as int, e));
                        assert(ent0(self.tables@, reg, 511) == ent0(mB, reg, 511)) by {
                            if reg != r {
                                assert(!in_hier(mB, r, reg));
                            }
                        }
                        assert forall|f: int| #[trigger] allocator.frames().contains(f) implies
                            mappable(f) && !in_hier(self.tables@, r, f) by {
                            assert(fsB.contains(f));
                            assert(f != fi as int);
                            assert(!in_hier(mB, r, f));
                            let m1 = mB.insert(fi as int, zero_table());
                            assert(!in_hier(m1, r, f));
                            assert(in_hier(self.tables@, r, f) ==> in_hier(m1, r, f) || f
                                == fi as int);
                        }
                    }
                    c = fi;
                },
            }
        }
        let ghost mC = self.tables@;
        let ghost fsC = allocator.frames();
        proof {
            assert(wf_hier(mC, r));
            assert(c1(mC, r, i as int, j as int, k as int) && t1(
                mC,
                r,
                i as int,
                j as int,
                k as int,
            ) == c as int);
            assert(left == 0);
            assert(has_room(fs0, miss));
            assert(allocator_ok(fsC, mC, r)) by {
                assert forall|f: int| #[trigger] fsC.contains(f) implies mappable(f) && !in_hier(
                    mC,
                    r,
                    f,
                ) by {
                    assert(fsB.contains(f));
                    assert(fsA.contains(f));
                    assert(fs0.contains(f));
                }
            }
            assert(ent0(mC, reg, 511) == ent0(m0, reg, 511));
            assert(forall|q: Page|
                q.wf() && p4s(q) != 511 ==> #[trigger] walk(mC, r, q) == walk(mB, r, q));
            assert(forall|t: int|
                #[trigger] in_hier(mC, r, t) ==> in_hier(mB, r, t) || fsB.contains(t));
            assert(forall|t: int| #[trigger] mB.dom().contains(t) ==> mC.dom().contains(t));
            assert(forall|t: int|
                #[trigger] mC.dom().contains(t) ==> mB.dom().contains(t) || fsB.contains(t));
        }

        // Leaf: write the entry.
        proof {
            assert((flags | 0x1u64) & 0x000f_ffff_ffff_f000u64 == 0 && (flags | 0x1u64) & 0x1u64
                == 0x1u64) by(bit_vector)
                requires flags & 0x000f_ffff_ffff_f000u64 == 0;
        }
        let e = mk_entry(frame.index, flags | FLAG_PRESENT);
        proof {
            lemma_entry_roundtrip(frame.index, flags | FLAG_PRESENT);
            lemma_set_leaf(mC, r, i as int, j as int, k as int, c as int, l as int, e);
        }
        self.tables.set_entry(c, l, e);
        proof {
            assert(self.tables@ == upd(mC, c as int, l as int, e));
            assert(ent0(self.tables@, reg, 511) == ent0(mC, reg, 511)) by {
                if reg != r {
                    assert(!in_hier(mC, r, reg));
                }
            }
            let mF = self.tables@;
            assert(self.root() == r);
            assert(wf_hier(mF, r));
            assert(walk(mF, r, page) == Some(mk_entry_spec(frame.index as int, flags
                | FLAG_PRESENT)));
            assert forall|q: Page|
                q.wf() && p4s(q) != 511 && q.index != page.index implies #[trigger] walk(
                mF,
                r,
                q,
            ) == walk(m0, r, q) by {
                lemma_page_index_bounds(q);
                if p4s(q) == i as int && p3s(q) == j as int && p2s(q) == k as int && p1s(q)
                    == l as int {
                    crate::page::lemma_page_indices_injective(q, page);
                    assert(false);
                }
                assert(walk(mF, r, q) == walk(mC, r, q));
                assert(walk(mC, r, q) == walk(mB, r, q));
                assert(walk(mB, r, q) == walk(mA, r, q));
                assert(walk(mA, r, q) == walk(m0, r, q));
            }
            assert forall|t: int|
                m0.dom().contains(t) && !in_hier(m0, r, t) && !fs0.contains(t) implies #[trigger] mF[t]
                == m0[t] by {
                assert(t != r);
                assert(!in_hier(mA, r, t) && !in_hier(mB, r, t) && !in_hier(mC, r, t));
                assert(in_hier(mA, r, a as int));
                assert(in_hier(mB, r, b as int));
                assert(in_hier(mC, r, c as int));
                assert(mA[t] == m0[t]);
                assert(mB[t] == mA[t]);
                assert(mC[t] == mB[t]);
                assert(mF[t] == mC[t]);
            }
            assert(forall|t: int|
                #[trigger] in_hier(mF, r, t) ==> in_hier(m0, r, t) || fs0.contains(t));
            assert(forall|t: int| #[trigger] m0.dom().contains(t) ==> mF.dom().contains(t));
            assert(forall|t: int|
                #[trigger] mF.dom().contains(t) ==> m0.dom().contains(t) || fs0.contains(t));
        }
        Ok(())
    }

    /// Maps `page` to a frame taken from `allocator`.
    pub fn map<A: FrameAllocator>(
        &mut self,
        page: Page,
        flags: u64,
        allocator: &mut A,
    ) -> (res: Result<(), MapError>)
        requires
            old(self).wf(),
            old(self).reg_clear(),
            page.wf(),
            p4s(page) != 511,
            flags_wf(flags),
            old(allocator).inv(),
            allocator_ok(old(allocator).frames(), old(self).tables@, old(self).root()),
            !old(allocator).frames().contains(old(self).active_p4 as int),
        ensures
            final(self).wf(),
            final(self).reg_clear(),
            final(self).active_p4 == old(self).active_p4,
            final(self).root() == old(self).root(),
            final(allocator).inv(),
            forall|i: int| old(allocator).accepts(i) ==> #[trigger] final(allocator).accepts(i),
            forall|f: int|
                final(allocator).frames().contains(f) ==> #[trigger] old(allocator).frames().contains(f),
            allocator_ok(final(allocator).frames(), final(self).tables@, old(self).root()),
            ent0(final(self).tables@, old(self).active_p4 as int, 511) == ent0(
                old(self).tables@,
                old(self).active_p4 as int,
                511,
            ),
            ent0(final(self).tables@, old(self).root(), 511) == ent0(
                old(self).tables@,
                old(self).root(),
                511,
            ),
            forall|n: int|
                #[trigger] has_room(old(allocator).frames(), n + 4) ==> has_room(
                    final(allocator).frames(),
                    n,
                ),
            forall|f: int|
                #[trigger] final(allocator).frames().contains(f) && !old(self).tables@.dom().contains(f) ==> !final(self).tables@.dom().contains(f),
            res == Ok::<(), MapError>(()) <==> !(old(self).translation(page) is Some) && has_room(
                old(allocator).frames(),
                1 + missing(old(self).tables@, old(self).root(), page),
            ),
            match res {
                Ok(()) => {
                    &&& exists|fi: int|
                        #[trigger] old(allocator).frames().contains(fi) && final(self).translation(
                            page,
                        ) == Some(mk_entry_spec(fi, flags | FLAG_PRESENT))
                    &&& forall|q: Page|
                        q.wf() && p4s(q) != 511 && q.index != page.index
                            ==> #[trigger] final(self).translation(q) == old(self).translation(q)
                },
                Err(MapError::AlreadyInUse) => {
                    &&& old(self).translation(page) is Some
                    &&& final(self).tables@ == old(self).tables@
                    &&& *final(allocator) == *old(allocator)
                },
                Err(MapError::FrameExhausted) => {
                    &&& !(old(self).translation(page) is Some)
                    &&& forall|q: Page|
                        q.wf() && p4s(q) != 511
                            ==> #[trigger] final(self).translation(q) == old(self).translation(q)
                },
            },
    {
        let ghost fs0 = allocator.frames();
        let ghost m0 = self.tables@;
        let ghost r = self.root();
        if self.translate_page(page).is_some() {
            return Err(MapError::AlreadyInUse);
        }
        match allocator.alloc_frame() {
            None => {
                proof {
                    lemma_no_room_empty(fs0, 1 + missing(m0, r, page));
                }
                Err(MapError::FrameExhausted)
            },
            Some(fr) => {
                proof {
                    assert(fs0.contains(fr.index as int));
                    lemma_room_remove(fs0, fr.index as int, 1 + missing(m0, r, page));
                    lemma_room_remove_all(fs0, fr.index as int);
                }
                let ghost fi = fr.index as int;
                let ghost fsA = allocator.frames();
                let res = self.map_to(page, fr, flags, allocator);
                proof {
                    if res is Ok {
                        assert(fs0.contains(fi) && final(self).translation(page) == Some(
                            mk_entry_spec(fi, flags | FLAG_PRESENT),
                        ));
                    }
                    assert forall|n: int| #[trigger] has_room(fs0, n + 4) implies has_room(
                        allocator.frames(),
                        n,
                    ) by {
                        lemma_room_remove(fs0, fi, n + 4);
                        assert(has_room(fsA, n + 3));
                    }
                }
                res
            },
        }
    }

    /// Maps the page whose virtual index equals `frame`'s physical index to
    /// `frame` itself: an identity mapping.
    pub fn identity_map<A: FrameAllocator>(
        &mut self,
        frame: Frame,
        flags: u64,
        allocator: &mut A,
    ) -> (res: Result<(), MapError>)
        requires
            old(self).wf(),
            old(self).reg_clear(),
            frame.index < PAGE_COUNT,
            p4s(Page { index: frame.index }) != 511,
            flags_wf(flags),
            old(allocator).inv(),
            allocator_ok(old(allocator).frames(), old(self).tables@, old(self).root()),
            !old(allocator).frames().contains(old(self).active_p4 as int),
        ensures
            final(self).wf(),
            final(self).reg_clear(),
            final(self).active_p4 == old(self).active_p4,
            final(self).root() == old(self).root(),
            final(allocator).inv(),
            forall|i: int| old(allocator).accepts(i) ==> #[trigger] final(allocator).accepts(i),
            forall|f: int|
                final(allocator).frames().contains(f) ==> #[trigger] old(allocator).frames().contains(f),
            allocator_ok(final(allocator).frames(), final(self).tables@, old(self).root()),
            forall|t: int|
                #[trigger] old(self).tables@.dom().contains(t) ==> final(self).tables@.dom().contains(t),
            forall|t: int|
                #[trigger] final(self).tables@.dom().contains(t) ==> old(self).tables@.dom().contains(t) || old(allocator).frames().contains(t),
            forall|t: int|
                old(self).tables@.dom().contains(t) && !in_hier(
                    old(self).tables@,
                    old(self).root(),
                    t,
                ) && !old(allocator).frames().contains(t) ==> #[trigger] final(self).tables@[t]
                    == old(self).tables@[t],
            forall|t: int|
                #[trigger] in_hier(final(self).tables@, old(self).root(), t) ==> in_hier(
                    old(self).tables@,
                    old(self).root(),
                    t,
                ) || old(allocator).frames().contains(t),
            ent0(final(self).tables@, old(self).active_p4 as int, 511) == ent0(
                old(self).tables@,
                old(self).active_p4 as int,
                511,
            ),
            ent0(final(self).tables@, old(self).root(), 511) == ent0(
                old(self).tables@,
                old(self).root(),
                511,
            ),
            forall|n: int|
                #[trigger] has_room(old(allocator).frames(), n + 3) ==> has_room(
                    final(allocator).frames(),
                    n,
                ),
            forall|f: int|
                #[trigger] final(allocator).frames().contains(f) && !old(self).tables@.dom().contains(f) ==> !final(self).tables@.dom().contains(f),
            res == Ok::<(), MapError>(()) <==> !(old(self).translation(Page { index: frame.index })
                is Some) && has_room(
                old(allocator).frames(),
                missing(old(self).tables@, old(self).root(), Page { index: frame.index }),
            ),
            match res {
                Ok(()) => {
                    &&& final(self).translation(Page { index: frame.index }) == Some(
                        mk_entry_spec(frame.index as int, flags | FLAG_PRESENT),
                    )
                    &&& forall|q: Page|
                        q.wf() && p4s(q) != 511 && q.index != frame.index
                            ==> #[trigger] final(self).translation(q) == old(self).translation(q)
                },
                Err(MapError::AlreadyInUse) => {
                    &&& old(self).translation(Page { index: frame.index }) is Some
                    &&& final(self).tables@ == old(self).tables@
                    &&& *final(allocator) == *old(allocator)
                },
                Err(MapError::FrameExhausted) => {
                    &&& !(old(self).translation(Page { index: frame.index }) is Some)
                    &&& forall|q: Page|
                        q.wf() && p4s(q) != 511
                            ==> #[trigger] final(self).translation(q) == old(self).translation(q)
                },
            },
    {
        let page = Page::new(frame.index);
        self.map_to(page, frame, flags, allocator)
    }

    /// Unmaps `page`, which must be mapped, and hands the frame it pointed
    /// at back to `allocator`.  On hardware the cached translation for the
    /// one virtual address is invalidated at this point.
    pub fn unmap<A: FrameAllocator>(&mut self, page: Page, allocator: &mut A)
        requires
            old(self).wf(),
            old(self).reg_clear(),
            page.wf(),
            p4s(page) != 511,
            old(self).translation(page) is Some,
            old(allocator).inv(),
            match old(self).translation(page) {
                Some(e) => old(allocator).accepts(efr(e)) && !old(allocator).frames().contains(
                    efr(e),
                ),
                None => false,
            },
        ensures
            final(self).wf(),
            final(self).reg_clear(),
            final(self).active_p4 == old(self).active_p4,
            final(self).root() == old(self).root(),
            final(allocator).inv(),
            final(self).translation(page) is None,
            forall|q: Page|
                q.wf() && p4s(q) != 511 && q.index != page.index ==> #[trigger] final(self).translation(q)
                    == old(self).translation(q),
            match old(self).translation(page) {
                Some(e) => final(allocator).frames() == old(allocator).frames().insert(efr(e)),
                None => false,
            },
            forall|t: int|
                #[trigger] final(self).tables@.dom().contains(t) <==> old(self).tables@.dom().contains(t),
            forall|t: int|
                #[trigger] in_hier(final(self).tables@, old(self).root(), t) <==> in_hier(
                    old(self).tables@,
                    old(self).root(),
                    t,
                ),
            forall|t: int|
                !in_hier(old(self).tables@, old(self).root(), t) && old(self).tables@.dom().contains(t)
                    ==> #[trigger] final(self).tables@[t] == old(self).tables@[t],
            ent0(final(self).tables@, old(self).active_p4 as int, 511) == ent0(
                old(self).tables@,
                old(self).active_p4 as int,
                511,
            ),
            ent0(final(self).tables@, old(self).root(), 511) == ent0(
                old(self).tables@,
                old(self).root(),
                511,
            ),
            missing(final(self).tables@, old(self).root(), page) == 0,
    {
        proof {
            lemma_page_index_bounds(page);
            lemma_zero_entry();
        }
        let ghost m0 = self.tables@;
        let ghost r = self.root();
        let ghost reg = self.active_p4 as int;
        let rt = self.root_frame();
        let i = page.p4_index();
        let j = page.p3_index();
        let k = page.p2_index();
        let l = page.p1_index();
        let e4 = self.tables.entry_or_zero(rt, i);
        let a = entry_frame(e4);
        let e3 = self.tables.entry_or_zero(a, j);
        let b = entry_frame(e3);
        let e2 = self.tables.entry_or_zero(b, k);
        let c = entry_frame(e2);
        let e1 = self.tables.entry_or_zero(c, l);
        let freed = entry_frame(e1);
        proof {
            assert(present(e4) && present(e3) && present(e2) && present(e1));
            assert(c1(m0, r, i as int, j as int, k as int));
            lemma_set_leaf(m0, r, i as int, j as int, k as int, c as int, l as int, 0u64);
        }
        self.tables.set_entry(c, l, 0);
        proof {
            assert(self.tables@ == upd(m0, c as int, l as int, 0u64));
            assert(ent0(self.tables@, reg, 511) == ent0(m0, reg, 511)) by {
                if reg != r {
                    assert(!in_hier(m0, r, reg));
                }
            }
            assert(self.root() == r);
            assert(in_hier(m0, r, c as int)) by {
                assert(c1(m0, r, i as int, j as int, k as int) && t1(
                    m0,
                    r,
                    i as int,
                    j as int,
                    k as int,
                ) == c as int);
            }
            lemma_in_hier_dom(m0, r, c as int);
            assert forall|t: int|
                #[trigger] self.tables@.dom().contains(t) <==> m0.dom().contains(t) by {}
            assert(MAX_FRAME_INDEX >= 0x100_0000_0000) by {
                vstd::arithmetic::div_mod::lemma_div_is_ordered(
                    0x1000_0000_0000_0000,
                    u64::MAX as int,
                    PAGE_SIZE as int,
                );
            }
            assert forall|q: Page|
                q.wf() && p4s(q) != 511 && q.index != page.index implies #[trigger] walk(
                self.tables@,
                r,
                q,
            ) == walk(m0, r, q) by {
                lemma_page_index_bounds(q);
                if p4s(q) == i as int && p3s(q) == j as int && p2s(q) == k as int && p1s(q)
                    == l as int {
                    crate::page::lemma_page_indices_injective(q, page);
                    assert(false);
                }
            }
        }
        allocator.dealloc_frame(Frame { index: freed });
    }
}

} // verus!
