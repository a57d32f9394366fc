//! Search state and propagation.
//!
//! ```text
//! color: Vec<u8>    // 0..=k, or UNASSIGNED = 0xFF
//! dom:   Vec<u32>   // bitmask of still-permitted colours, bits 0..=k
//! trail: Vec<(u32, u32)>   // (vertex, previous dom)
//! ```
//!
//! Undo pops trail entries back to a recorded offset, restoring `dom` and
//! clearing `color`. No adjacency list exists anywhere; every neighbour is
//! recomputed from bitmasks.
//!
//! The class sizes, the per-colour availability counts and the number of
//! assigned vertices are kept as running counters; the invariant `wf` says
//! that each equals the count it stands for, so restoring colours and
//! domains restores them too.
use vstd::prelude::*;
use std::collections::VecDeque;
use crate::bits::{
    bit, popcount, pop_from, below, colex, low_mask, lemma_low_mask, lemma_bit_cleared,
    lemma_bits_logic, lemma_pop_clear_bit, lemma_pop_bound, drop_each_from, is_drop, lemma_drop_each,
    lemma_low_mask_pop, count_ones32,
};
use crate::solver::matching::{subset, matchable, supported};
use crate::combi::Combi;
use crate::stats::Rule;
use crate::util::Bitset;
use super::{Config, PropagatorMode};

verus! {

/// The colour of a vertex that has none yet.
pub const UNASSIGNED: u8 = 0xFF;

/// Cap on the assignment stack scanned when a class gains an anchor; beyond
/// it the anchor is simply not made, which only weakens Rules D and E.
const ANCHOR_INIT_SCAN_CAP: usize = 65536;

// ---------------------------------------------------------------------------
// Counting over vertex indices
// ---------------------------------------------------------------------------

/// The Rule D target `N_{a+1}`: how many other blocks of a class meet a
/// block in `a` or `k-2-a` points, together.
pub open spec fn d_target(k: u32, a: int) -> int {
    crate::combi::floor_pos(crate::combi::n_num_spec(k as nat, (a + 1) as nat), k + 1)
}

/// The Rule E target `M_{a+1}`, for the blocks of one other class.
pub open spec fn e_target(k: u32, a: int) -> int {
    crate::combi::floor_pos(crate::combi::m_num_spec(k as nat, (a + 1) as nat), k + 1)
}

/// One where `p` holds, else zero.
pub open spec fn ind(p: bool) -> nat {
    if p {
        1
    } else {
        0
    }
}

/// Members of class `c` among the first `n` vertices.
pub open spec fn class_count(col: Seq<u8>, c: int, n: nat) -> nat
    decreases n,
{
    if n == 0 {
        0
    } else {
        class_count(col, c, (n - 1) as nat) + ind(col[n - 1] as int == c)
    }
}

/// Unassigned vertices among the first `n` that still permit colour `c`.
pub open spec fn open_count(col: Seq<u8>, dom: Seq<u32>, c: int, n: nat) -> nat
    decreases n,
{
    if n == 0 {
        0
    } else {
        open_count(col, dom, c, (n - 1) as nat) + ind(col[n - 1] == UNASSIGNED && bit(dom[n - 1], c))
    }
}

/// Assigned vertices among the first `n`.
pub open spec fn set_count(col: Seq<u8>, n: nat) -> nat
    decreases n,
{
    if n == 0 {
        0
    } else {
        set_count(col, (n - 1) as nat) + ind(col[n - 1] != UNASSIGNED)
    }
}

/// The weight of one vertex: one more than the size of its domain while
/// it is unassigned, nothing once assigned.
pub open spec fn vweight(col: u8, d: u32) -> nat {
    if col == UNASSIGNED {
        popcount(d) + 1
    } else {
        0
    }
}

/// The propagation measure over the first `n` vertices.
pub open spec fn weight(col: Seq<u8>, dom: Seq<u32>, n: nat) -> nat
    decreases n,
{
    if n == 0 {
        0
    } else {
        weight(col, dom, (n - 1) as nat) + vweight(col[n - 1], dom[n - 1])
    }
}

/// Two states that agree on the first `n` vertices but `v`.
pub open spec fn agree_but(col0: Seq<u8>, dom0: Seq<u32>, col1: Seq<u8>, dom1: Seq<u32>, n: nat, v: int) -> bool {
    &&& forall|u: int| 0 <= u < n && u != v ==> #[trigger] col0[u] == col1[u]
    &&& forall|u: int| 0 <= u < n && u != v ==> #[trigger] dom0[u] == dom1[u]
}

/// Changing one vertex changes each count by that vertex's share.
pub proof fn lemma_counts_update(col0: Seq<u8>, dom0: Seq<u32>, col1: Seq<u8>, dom1: Seq<u32>, k: int, n: nat, v: int)
    requires
        agree_but(col0, dom0, col1, dom1, n, v),
    ensures
        0 <= v < n ==> class_count(col1, k, n) + ind(col0[v] as int == k) == class_count(col0, k, n) + ind(col1[v] as int == k),
        0 <= v < n ==> open_count(col1, dom1, k, n) + ind(col0[v] == UNASSIGNED && bit(dom0[v], k))
            == open_count(col0, dom0, k, n) + ind(col1[v] == UNASSIGNED && bit(dom1[v], k)),
        0 <= v < n ==> set_count(col1, n) + ind(col0[v] != UNASSIGNED) == set_count(col0, n) + ind(col1[v] != UNASSIGNED),
        0 <= v < n ==> weight(col1, dom1, n) + vweight(col0[v], dom0[v]) == weight(col0, dom0, n) + vweight(col1[v], dom1[v]),
        !(0 <= v < n) ==> class_count(col1, k, n) == class_count(col0, k, n),
        !(0 <= v < n) ==> open_count(col1, dom1, k, n) == open_count(col0, dom0, k, n),
        !(0 <= v < n) ==> set_count(col1, n) == set_count(col0, n),
        !(0 <= v < n) ==> weight(col1, dom1, n) == weight(col0, dom0, n),
    decreases n,
{
    if n > 0 {
        let m = (n - 1) as nat;
        assert(agree_but(col0, dom0, col1, dom1, m, v));
        lemma_counts_update(col0, dom0, col1, dom1, k, m, v);
        if m != v {
            assert(col0[m as int] == col1[m as int]);
            assert(dom0[m as int] == dom1[m as int]);
        }
    }
}

proof fn lemma_counts_le(col: Seq<u8>, dom: Seq<u32>, k: int, n: nat)
    ensures
        class_count(col, k, n) <= n,
        open_count(col, dom, k, n) <= n,
        set_count(col, n) <= n,
    decreases n,
{
    if n > 0 {
        lemma_counts_le(col, dom, k, (n - 1) as nat);
    }
}

proof fn lemma_counts_ge(col: Seq<u8>, dom: Seq<u32>, k: int, n: nat, v: int)
    requires
        0 <= v < n,
    ensures
        ind(col[v] as int == k) <= class_count(col, k, n),
        ind(col[v] == UNASSIGNED && bit(dom[v], k)) <= open_count(col, dom, k, n),
        ind(col[v] != UNASSIGNED) <= set_count(col, n),
        vweight(col[v], dom[v]) <= weight(col, dom, n),
    decreases n,
{
    let m = (n - 1) as nat;
    if v < m {
        lemma_counts_ge(col, dom, k, m, v);
    }
}

pub proof fn lemma_counts_bounds(col: Seq<u8>, dom: Seq<u32>, k: int, n: nat, v: int)
    requires
        0 <= v < n,
    ensures
        ind(col[v] as int == k) <= class_count(col, k, n) <= n,
        ind(col[v] == UNASSIGNED && bit(dom[v], k)) <= open_count(col, dom, k, n) <= n,
        ind(col[v] != UNASSIGNED) <= set_count(col, n) <= n,
        vweight(col[v], dom[v]) <= weight(col, dom, n),
{
    lemma_counts_le(col, dom, k, n);
    lemma_counts_ge(col, dom, k, n, v);
}

/// The counts of a state with every vertex unassigned and the domain `d`.
pub proof fn lemma_counts_fresh(col: Seq<u8>, dom: Seq<u32>, d: u32, k: int, n: nat)
    requires
        forall|u: int| 0 <= u < n ==> #[trigger] col[u] == UNASSIGNED,
        forall|u: int| 0 <= u < n ==> #[trigger] dom[u] == d,
        0 <= k < 255,
    ensures
        class_count(col, k, n) == 0,
        open_count(col, dom, k, n) == if bit(d, k) { n } else { 0 },
        set_count(col, n) == 0,
    decreases n,
{
    if n > 0 {
        lemma_counts_fresh(col, dom, d, k, (n - 1) as nat);
        assert(col[n - 1] == UNASSIGNED);
        assert(dom[n - 1] == d);
    }
}


// ---------------------------------------------------------------------------
// Anchors (Rules D and E)
// ---------------------------------------------------------------------------

/// Whether the stack entry `e` is a member of class `oc`, other than the
/// anchor's own vertex `idx`, whose block meets `amask` in `a` points.
pub open spec fn entry_meets(e: (u32, u32, u8), idx: int, amask: u32, oc: int, a: int) -> bool {
    e.0 as int != idx && e.2 as int == oc && popcount(e.1 & amask) == a
}

/// The entries of the assignment stack `s` that `entry_meets` counts.
pub open spec fn stack_meet(s: Seq<(u32, u32, u8)>, idx: int, amask: u32, oc: int, a: int) -> nat
    decreases s.len(),
{
    if s.len() == 0 {
        0
    } else {
        stack_meet(s.drop_last(), idx, amask, oc, a) + ind(entry_meets(s.last(), idx, amask, oc, a))
    }
}

/// Pushing an entry adds its share.
pub proof fn lemma_stack_meet_push(s: Seq<(u32, u32, u8)>, e: (u32, u32, u8), idx: int, amask: u32, oc: int, a: int)
    ensures
        stack_meet(s.push(e), idx, amask, oc, a) == stack_meet(s, idx, amask, oc, a) + ind(entry_meets(e, idx, amask, oc, a)),
{
    assert(s.push(e).drop_last() =~= s);
}

pub proof fn lemma_stack_meet_le(s: Seq<(u32, u32, u8)>, idx: int, amask: u32, oc: int, a: int)
    ensures
        stack_meet(s, idx, amask, oc, a) <= s.len(),
    decreases s.len(),
{
    if s.len() > 0 {
        lemma_stack_meet_le(s.drop_last(), idx, amask, oc, a);
    }
}

/// The slot of class `oc` and size `a` in a flattened `(class, size)` table.
pub open spec fn slot(km1: int, oc: int, a: int) -> int {
    oc * km1 + a
}

/// An anchor's tables hold the counts they stand for over the stack `s`.
pub closed spec fn anchor_counts_ok(c: Combi, s: Seq<(u32, u32, u8)>, an: Anchor, cls: int) -> bool {
    let km1 = c.k - 1;
    &&& an.same@.len() == km1
    &&& an.other@.len() == km1 * c.colors
    &&& forall|a: int| 0 <= a < km1 ==> #[trigger] an.same@[a] == stack_meet(s, an.idx as int, an.mask, cls, a)
    &&& forall|oc: int, a: int| 0 <= oc < c.colors && 0 <= a < km1 ==> #[trigger] an.other@[slot(km1, oc, a)] == (if oc == cls {
        0
    } else {
        stack_meet(s, an.idx as int, an.mask, oc, a)
    })
}

/// Every anchor names a vertex and counts the stack `s`.
closed spec fn anchors_count(c: Combi, anchors: Seq<Vec<Anchor>>, s: Seq<(u32, u32, u8)>) -> bool {
    &&& anchors.len() == c.colors
    &&& forall|cls: int, i: int| 0 <= cls < c.colors && 0 <= i < anchors[cls]@.len() ==> {
        let an = #[trigger] anchors[cls]@[i];
        &&& an.idx < c.num_vertices
        &&& names(c, an.idx as int, an.mask)
        &&& anchor_counts_ok(c, s, an, cls)
    }
}

/// The same anchors, in the same places, whatever their tables hold.
closed spec fn same_shapes(a0: Seq<Vec<Anchor>>, a1: Seq<Vec<Anchor>>) -> bool {
    &&& a1.len() == a0.len()
    &&& forall|cls: int| 0 <= cls < a0.len() ==> #[trigger] a1[cls]@.len() == a0[cls]@.len()
    &&& forall|cls: int, i: int| 0 <= cls < a0.len() && 0 <= i < a0[cls]@.len() ==> #[trigger] a1[cls]@[i].shape() == a0[cls]@[i].shape()
}

/// Each anchor stands where its vertex was pushed, under its own class, and
/// each class's anchors stand in stack order.
closed spec fn anchors_placed(c: Combi, anchors: Seq<Vec<Anchor>>, s: Seq<(u32, u32, u8)>) -> bool {
    &&& forall|cls: int, i: int| 0 <= cls < c.colors && 0 <= i < anchors[cls]@.len() ==> {
        let an = #[trigger] anchors[cls]@[i];
        &&& 0 <= an.spos@ < s.len()
        &&& s[an.spos@].0 == an.idx
        &&& s[an.spos@].2 as int == cls
    }
    &&& forall|cls: int, i: int, j: int| 0 <= cls < c.colors && 0 <= i < j < anchors[cls]@.len() ==>
        (#[trigger] anchors[cls]@[i]).spos@ < (#[trigger] anchors[cls]@[j]).spos@
}

proof fn lemma_placed_shapes(c: Combi, a0: Seq<Vec<Anchor>>, a1: Seq<Vec<Anchor>>, s: Seq<(u32, u32, u8)>)
    requires
        a0.len() == c.colors,
        anchors_placed(c, a0, s),
        same_shapes(a0, a1),
    ensures
        anchors_placed(c, a1, s),
{
    assert forall|cls: int, i: int| 0 <= cls < c.colors && 0 <= i < a1[cls]@.len() implies {
        &&& 0 <= (#[trigger] a1[cls]@[i]).spos@ < s.len()
        &&& s[a1[cls]@[i].spos@].0 == a1[cls]@[i].idx
        &&& s[a1[cls]@[i].spos@].2 as int == cls
    } by {
        assert(a1[cls]@[i].shape() == a0[cls]@[i].shape());
    }
    assert forall|cls: int, i: int, j: int| 0 <= cls < c.colors && 0 <= i < j < a1[cls]@.len() implies
        (#[trigger] a1[cls]@[i]).spos@ < (#[trigger] a1[cls]@[j]).spos@ by {
        assert(a1[cls]@[i].shape() == a0[cls]@[i].shape());
        assert(a1[cls]@[j].shape() == a0[cls]@[j].shape());
    }
}

/// With no anchors there is nothing to count or place.
proof fn lemma_no_anchors(c: Combi, a: Seq<Vec<Anchor>>, s: Seq<(u32, u32, u8)>)
    requires
        a.len() == c.colors,
        forall|cls: int| 0 <= cls < c.colors ==> (#[trigger] a[cls])@.len() == 0,
    ensures
        anchors_count(c, a, s),
        anchors_placed(c, a, s),
{
}

/// Pushing an entry leaves every anchor in place.
proof fn lemma_placed_push(c: Combi, a: Seq<Vec<Anchor>>, s: Seq<(u32, u32, u8)>, e: (u32, u32, u8))
    requires
        anchors_placed(c, a, s),
    ensures
        anchors_placed(c, a, s.push(e)),
{
    assert forall|cls: int, i: int| 0 <= cls < c.colors && 0 <= i < a[cls]@.len() implies {
        &&& 0 <= (#[trigger] a[cls]@[i]).spos@ < s.push(e).len()
        &&& s.push(e)[a[cls]@[i].spos@].0 == a[cls]@[i].idx
        &&& s.push(e)[a[cls]@[i].spos@].2 as int == cls
    } by {
        let p = a[cls]@[i].spos@;
        assert(s.push(e)[p] == s[p]);
    }
}

/// A new anchor for the top entry joins its class's list last.
proof fn lemma_anchor_push(c: Combi, a0: Seq<Vec<Anchor>>, a1: Seq<Vec<Anchor>>, s: Seq<(u32, u32, u8)>, cls: int, an: Anchor)
    requires
        anchors_count(c, a0, s),
        anchors_placed(c, a0, s),
        s.len() > 0,
        0 <= cls < c.colors,
        a1.len() == a0.len(),
        forall|k: int| 0 <= k < a0.len() && k != cls ==> #[trigger] a1[k]@ == a0[k]@,
        a1[cls]@ == a0[cls]@.push(an),
        an.idx < c.num_vertices,
        names(c, an.idx as int, an.mask),
        anchor_counts_ok(c, s, an, cls),
        an.spos@ == s.len() - 1,
        s.last().0 == an.idx,
        s.last().2 as int == cls,
        forall|k: int, i: int| 0 <= k < c.colors && 0 <= i < a0[k]@.len() ==> (#[trigger] a0[k]@[i]).idx != an.idx,
    ensures
        anchors_count(c, a1, s),
        anchors_placed(c, a1, s),
{
    let n = s.len();
    assert forall|k: int, i: int| 0 <= k < c.colors && 0 <= i < a1[k]@.len() implies
        (k == cls && i == a0[k]@.len() && #[trigger] a1[k]@[i] == an) || (i < a0[k]@.len() && a1[k]@[i] == a0[k]@[i]) by {
        if k != cls {
            assert(a1[k]@ == a0[k]@);
        }
    }
    assert forall|k: int, i: int| 0 <= k < c.colors && 0 <= i < a0[k]@.len() implies (#[trigger] a0[k]@[i]).spos@ < n - 1 by {
        let p = a0[k]@[i].spos@;
        assert(s[p].0 == a0[k]@[i].idx);
    }
    assert forall|k: int, i: int, j: int| 0 <= k < c.colors && 0 <= i < j < a1[k]@.len() implies
        (#[trigger] a1[k]@[i]).spos@ < (#[trigger] a1[k]@[j]).spos@ by {
        assert(a1[k]@[i] == a0[k]@[i]);
        if j < a0[k]@.len() {
            assert(a1[k]@[j] == a0[k]@[j]);
        } else {
            assert(a0[k]@[i].spos@ < n - 1);
        }
    }
}

/// Once the newest anchor of the top entry's class is dropped where it is
/// the top entry's vertex, no anchor is that vertex and each stands below
/// the top.
proof fn lemma_top_not_anchor(c: Combi, a0: Seq<Vec<Anchor>>, a1: Seq<Vec<Anchor>>, s: Seq<(u32, u32, u8)>, cls: int)
    requires
        s.len() > 0,
        0 <= cls < c.colors,
        s.last().2 as int == cls,
        forall|i: int, j: int| 0 <= i < j < s.len() ==> (#[trigger] s[i]).0 != (#[trigger] s[j]).0,
        anchors_count(c, a0, s),
        anchors_placed(c, a0, s),
        a1.len() == a0.len(),
        forall|k: int| 0 <= k < a0.len() && k != cls ==> #[trigger] a1[k]@ == a0[k]@,
        a0[cls]@.len() > 0 && a0[cls]@.last().idx == s.last().0 ==> a1[cls]@ == a0[cls]@.drop_last(),
        !(a0[cls]@.len() > 0 && a0[cls]@.last().idx == s.last().0) ==> a1[cls]@ == a0[cls]@,
    ensures
        anchors_count(c, a1, s),
        anchors_placed(c, a1, s.drop_last()),
        forall|k: int, i: int| 0 <= k < c.colors && 0 <= i < a1[k]@.len() ==> (#[trigger] a1[k]@[i]).idx != s.last().0,
{
    let n = s.len();
    let v = s.last().0;
    assert forall|k: int, i: int| 0 <= k < c.colors && 0 <= i < a1[k]@.len() implies i < a0[k]@.len() && (#[trigger] a1[k]@[i]) == a0[k]@[i] by {
        if k != cls {
            assert(a1[k]@ == a0[k]@);
        }
    }
    assert forall|k: int, i: int| 0 <= k < c.colors && 0 <= i < a1[k]@.len() implies (#[trigger] a1[k]@[i]).idx != v && a1[k]@[i].spos@ < n - 1 by {
        let an = a1[k]@[i];
        assert(an == a0[k]@[i]);
        let p = an.spos@;
        assert(0 <= p < n && s[p].0 == an.idx && s[p].2 as int == k);
        if p == n - 1 {
            assert(k == cls);
            let last = a0[cls]@.len() - 1;
            if i < last {
                assert(a0[cls]@[i].spos@ < a0[cls]@[last].spos@);
                assert(0 <= a0[cls]@[last].spos@ < n);
            } else {
                assert(a0[cls]@.last().idx == v);
            }
        } else {
            assert(s[p].0 != s[n - 1].0);
        }
    }
    assert forall|k: int, i: int| 0 <= k < c.colors && 0 <= i < a1[k]@.len() implies {
        &&& 0 <= (#[trigger] a1[k]@[i]).spos@ < s.drop_last().len()
        &&& s.drop_last()[a1[k]@[i].spos@].0 == a1[k]@[i].idx
        &&& s.drop_last()[a1[k]@[i].spos@].2 as int == k
    } by {
        assert(a1[k]@[i] == a0[k]@[i]);
    }
    assert forall|k: int, i: int, j: int| 0 <= k < c.colors && 0 <= i < j < a1[k]@.len() implies
        (#[trigger] a1[k]@[i]).spos@ < (#[trigger] a1[k]@[j]).spos@ by {
        assert(a1[k]@[i] == a0[k]@[i]);
        assert(a1[k]@[j] == a0[k]@[j]);
    }
    assert forall|k: int, i: int| 0 <= k < c.colors && 0 <= i < a1[k]@.len() implies {
        &&& (#[trigger] a1[k]@[i]).idx < c.num_vertices
        &&& names(c, a1[k]@[i].idx as int, a1[k]@[i].mask)
        &&& anchor_counts_ok(c, s, a1[k]@[i], k)
    } by {
        assert(a1[k]@[i] == a0[k]@[i]);
    }
}

pub proof fn lemma_slot_bound(km1: int, ncol: int, oc: int, a: int)
    requires
        0 <= oc < ncol,
        0 <= a < km1,
    ensures
        0 <= slot(km1, oc, a) < km1 * ncol,
        km1 * ncol >= 0,
{
    assert(0 <= oc * km1 + a < km1 * ncol) by (nonlinear_arith)
        requires
            0 <= oc < ncol,
            0 <= a < km1,
    ;
    assert(km1 * ncol >= 0) by (nonlinear_arith)
        requires
            0 <= a < km1,
            0 <= oc < ncol,
    ;
}

// ---------------------------------------------------------------------------
// Undo
// ---------------------------------------------------------------------------

/// `col` with the assignment `e` undone.
pub open spec fn unassign(col: Seq<u8>, e: (u32, u32, u8)) -> Seq<u8> {
    if e.0 < col.len() {
        col.update(e.0 as int, UNASSIGNED)
    } else {
        col
    }
}

/// `dom` with the trail entry `e` undone.
pub open spec fn restore(dom: Seq<u32>, e: (u32, u32)) -> Seq<u32> {
    if e.0 < dom.len() {
        dom.update(e.0 as int, e.1)
    } else {
        dom
    }
}

/// The colours before the assignments `es` were made, newest undone first.
pub open spec fn rewind_colors(col: Seq<u8>, es: Seq<(u32, u32, u8)>) -> Seq<u8>
    decreases es.len(),
{
    if es.len() == 0 {
        col
    } else {
        rewind_colors(unassign(col, es.last()), es.drop_last())
    }
}

/// The domains before the trail entries `es` were written, newest undone
/// first.
pub open spec fn rewind_doms(dom: Seq<u32>, es: Seq<(u32, u32)>) -> Seq<u32>
    decreases es.len(),
{
    if es.len() == 0 {
        dom
    } else {
        rewind_doms(restore(dom, es.last()), es.drop_last())
    }
}

proof fn lemma_rewind_colors_push(col: Seq<u8>, es: Seq<(u32, u32, u8)>, e: (u32, u32, u8))
    ensures
        rewind_colors(col, es.push(e)) == rewind_colors(unassign(col, e), es),
{
    assert(es.push(e).drop_last() =~= es);
}

proof fn lemma_rewind_doms_push(dom: Seq<u32>, es: Seq<(u32, u32)>, e: (u32, u32))
    ensures
        rewind_doms(dom, es.push(e)) == rewind_doms(restore(dom, e), es),
{
    assert(es.push(e).drop_last() =~= es);
}

/// Undoing assignments leaves an unassigned vertex unassigned.
proof fn lemma_rewind_colors_keeps(col: Seq<u8>, es: Seq<(u32, u32, u8)>, u: int)
    requires
        0 <= u < col.len(),
        col[u] == UNASSIGNED,
    ensures
        rewind_colors(col, es)[u] == UNASSIGNED,
        rewind_colors(col, es).len() == col.len(),
    decreases es.len(),
{
    if es.len() > 0 {
        lemma_rewind_colors_keeps(unassign(col, es.last()), es.drop_last(), u);
    }
}

proof fn lemma_rewind_colors_len(col: Seq<u8>, es: Seq<(u32, u32, u8)>)
    ensures
        rewind_colors(col, es).len() == col.len(),
    decreases es.len(),
{
    if es.len() > 0 {
        lemma_rewind_colors_len(unassign(col, es.last()), es.drop_last());
    }
}

proof fn lemma_skip_push<T>(es: Seq<T>, e: T, j: int)
    requires
        0 <= j <= es.len(),
    ensures
        es.push(e).skip(j) == es.skip(j).push(e),
{
    assert(es.push(e).skip(j) =~= es.skip(j).push(e));
}

proof fn lemma_skip_drop_last<T>(es: Seq<T>, j: int)
    requires
        0 <= j < es.len(),
    ensures
        es.drop_last().skip(j) == es.skip(j).drop_last(),
        es.skip(j).last() == es.last(),
        es.skip(j).len() > 0,
{
    assert(es.drop_last().skip(j) =~= es.skip(j).drop_last());
}

// ---------------------------------------------------------------------------
// The state
// ---------------------------------------------------------------------------

/// A vertex's colour and domain agree: the domain holds only colours, and
/// an assigned vertex permits its colour alone.
pub open spec fn cell_ok(col: u8, d: u32, ncol: nat) -> bool {
    &&& below(d, ncol as int)
    &&& (col == UNASSIGNED || (col < ncol && d == 1u32 << (col as u32)))
}

/// `closed` holds exactly the colours whose class is full, when the
/// cardinality rule is on, and none otherwise.
pub open spec fn closed_ok(closed: u32, size: Seq<u64>, m: u64, ncol: nat, card: bool) -> bool {
    forall|t: int| 0 <= t < 32 ==> #[trigger] bit(closed, t) == (card && t < ncol && size[t] == m)
}

/// `mask` is the vertex of index `v`.
pub open spec fn names(c: Combi, v: int, mask: u32) -> bool {
    c.is_vertex(mask) && colex(mask) == v
}

/// A member of a class whose intersection profile with the rest of the
/// assignment is kept up to date for Rules D and E.
pub struct Anchor {
    idx: u32,
    mask: u32,
    /// `c_a` for `a = 0..=k-2`: members of the anchor's class meeting it in
    /// `a` points.
    same: Vec<u32>,
    /// `d_a` per other class: `other[class * (k-1) + a]`.
    other: Vec<u32>,
    /// Where the anchor's vertex stands in the assignment stack.
    spos: Ghost<int>,
}

pub struct Engine {
    pub c: Combi,
    pub cfg: Config,
    pub color: Vec<u8>,
    pub dom: Vec<u32>,
    trail: Vec<(u32, u32)>,
    trail_levels: Vec<usize>,
    assign_stack: Vec<(u32, u32, u8)>,
    assign_levels: Vec<usize>,
    pub assigned: u64,
    pub size: Vec<u64>,
    avail: Vec<u64>,
    pub closed: u32,
    prop_queue: VecDeque<(u32, u32)>,
    in_prop: Bitset,
    force_queue: VecDeque<(u32, u32, u8)>,
    /// Centres awaiting a matching pass, deferred until counting reaches
    /// its fixpoint.
    match_queue: VecDeque<(u32, u32)>,
    in_match: Bitset,
    pub conflict_rule: Rule,
    anchors: Vec<Vec<Anchor>>,
    /// Rule D targets `N_{a+1}`, `a = 0..=k-2`.
    nd_targets: Vec<u64>,
    /// Rule E targets `M_{a+1}`, `a = 0..=k-2`.
    me_targets: Vec<u64>,
    /// Colours and domains at each open level.
    snaps: Ghost<Seq<(Seq<u8>, Seq<u32>)>>,
}

impl Engine {
    /// The colour of every vertex.
    pub closed spec fn cols(&self) -> Seq<u8> {
        self.color@
    }

    /// The domain of every vertex.
    pub closed spec fn doms(&self) -> Seq<u32> {
        self.dom@
    }

    pub closed spec fn combi(&self) -> Combi {
        self.c
    }

    pub closed spec fn config(&self) -> Config {
        self.cfg
    }

    pub closed spec fn num_assigned(&self) -> u64 {
        self.assigned
    }

    /// The colours whose class is full.
    /// Rule D's reachability check on class `cls` passes: it is off, the
    /// class is under nine tenths full, or for every anchor of the class and
    /// every active intersection size `a`, the members counted at `a` and at
    /// its mirror plus the vertices that may still join at those sizes reach
    /// the target.
    pub closed spec fn reach_ok(&self, cls: int) -> bool {
        let km1 = self.c.k - 1;
        ||| !self.cfg.anchor_reach || self.cfg.anchors == 0
        ||| self.size@[cls] * 10 < self.c.m * 9
        ||| forall|ai: int, a: int| 0 <= ai < self.anchors@[cls]@.len() && 1 <= a && a + 1 <= self.c.k - 2 ==> {
            let an = #[trigger] self.anchors@[cls]@[ai];
            let mir = km1 - 1 - a;
            an.same@[a] + an.same@[mir] + eligible_count(self.c, self.color@, self.dom@, self.closed, cls, an.mask, a, self.nv())
                + eligible_count(self.c, self.color@, self.dom@, self.closed, cls, an.mask, mir, self.nv()) >= #[trigger] self.nd_targets@[a]
        }
    }

    /// The rule blamed for the latest conflict.
    pub closed spec fn rule(&self) -> Rule {
        self.conflict_rule
    }

    /// No rule has work queued.
    pub closed spec fn idle(&self) -> bool {
        &&& self.force_queue@.len() == 0
        &&& self.prop_queue@.len() == 0
        &&& self.match_queue@.len() == 0
    }

    /// The assignments queued for rule A, oldest first.
    pub closed spec fn forced(&self) -> Seq<(u32, u32, u8)> {
        self.force_queue@
    }

    pub closed spec fn closed_set(&self) -> u32 {
        self.closed
    }

    pub open spec fn nv(&self) -> nat {
        self.combi().num_vertices as nat
    }

    pub open spec fn ncol(&self) -> nat {
        self.combi().colors as nat
    }

    /// The colours and domains saved by each open `push_level`.
    pub closed spec fn levels(&self) -> Seq<(Seq<u8>, Seq<u32>)> {
        self.snaps@
    }

    /// The propagation measure of the current state.
    pub closed spec fn measure(&self) -> nat {
        weight(self.color@, self.dom@, self.nv())
    }

    pub closed spec fn counters_ok(&self) -> bool {
        let nv = self.nv();
        let ncol = self.ncol();
        &&& self.size@.len() == ncol
        &&& forall|c: int| 0 <= c < ncol ==> #[trigger] self.size@[c] == class_count(self.color@, c, nv)
        &&& forall|c: int| 0 <= c < ncol ==> #[trigger] self.avail@[c] == open_count(self.color@, self.dom@, c, nv)
        &&& self.avail@.len() == ncol
        &&& self.assigned == set_count(self.color@, nv)
        &&& closed_ok(self.closed, self.size@, self.c.m, ncol, self.cfg.cardinality)
        &&& self.cfg.cardinality ==> forall|c: int| 0 <= c < ncol ==> #[trigger] self.size@[c] <= self.c.m
    }

    pub closed spec fn cells_ok(&self) -> bool {
        &&& self.color@.len() == self.nv()
        &&& self.dom@.len() == self.nv()
        &&& forall|u: int| 0 <= u < self.nv() ==> cell_ok(#[trigger] self.color@[u], self.dom@[u], self.ncol())
    }

    pub closed spec fn stacks_ok(&self) -> bool {
        let nv = self.nv();
        let t = self.trail@;
        let a = self.assign_stack@;
        let s = self.snaps@;
        &&& forall|i: int| 0 <= i < t.len() ==> (#[trigger] t[i]).0 < nv && below(t[i].1, self.ncol() as int)
        &&& forall|i: int| 0 <= i < a.len() ==> {
            &&& (#[trigger] a[i]).0 < nv
            &&& names(self.c, a[i].0 as int, a[i].1)
            &&& self.color@[a[i].0 as int] == a[i].2
            &&& a[i].2 < self.ncol()
        }
        &&& forall|i: int, j: int| 0 <= i < j < a.len() ==> (#[trigger] a[i]).0 != (#[trigger] a[j]).0
        &&& a.len() == self.assigned
        &&& self.trail_levels@.len() == s.len()
        &&& self.assign_levels@.len() == s.len()
        &&& forall|i: int, j: int| 0 <= i <= j < s.len() ==> #[trigger] self.trail_levels@[i] <= #[trigger] self.trail_levels@[j]
        &&& forall|i: int, j: int| 0 <= i <= j < s.len() ==> #[trigger] self.assign_levels@[i] <= #[trigger] self.assign_levels@[j]
        &&& forall|i: int| 0 <= i < s.len() ==> #[trigger] self.trail_levels@[i] <= t.len()
        &&& forall|i: int| 0 <= i < s.len() ==> #[trigger] self.assign_levels@[i] <= a.len()
        &&& forall|i: int| 0 <= i < s.len() ==> {
            &&& (#[trigger] s[i]).0 == rewind_colors(self.color@, a.skip(self.assign_levels@[i] as int))
            &&& s[i].1 == rewind_doms(self.dom@, t.skip(self.trail_levels@[i] as int))
        }
        &&& forall|i: int, j: int| 0 <= i < s.len() && self.trail_levels@[i] <= j < t.len() ==>
            (#[trigger] s[i]).0[(#[trigger] t[j]).0 as int] == UNASSIGNED
        &&& forall|j: int| 0 <= j < t.len() ==>
            #[trigger] crate::solver::matching::subset(rewind_doms(self.dom@, t.skip(j + 1))[t[j].0 as int], t[j].1)
    }

    pub closed spec fn queues_ok(&self) -> bool {
        let nv = self.nv();
        &&& forall|i: int| 0 <= i < self.prop_queue@.len() ==> {
            &&& (#[trigger] self.prop_queue@[i]).0 < nv
            &&& names(self.c, self.prop_queue@[i].0 as int, self.prop_queue@[i].1)
        }
        &&& forall|i: int| 0 <= i < self.force_queue@.len() ==> {
            &&& (#[trigger] self.force_queue@[i]).0 < nv
            &&& names(self.c, self.force_queue@[i].0 as int, self.force_queue@[i].1)
            &&& self.force_queue@[i].2 < self.ncol()
        }
        &&& forall|i: int| 0 <= i < self.match_queue@.len() ==> {
            &&& (#[trigger] self.match_queue@[i]).0 < nv
            &&& names(self.c, self.match_queue@[i].0 as int, self.match_queue@[i].1)
        }
        &&& self.in_prop.capacity() >= nv
        &&& self.in_match.capacity() >= nv
    }

    pub closed spec fn targets_ok(&self) -> bool {
        &&& self.nd_targets@.len() == self.c.k - 1
        &&& self.me_targets@.len() == self.c.k - 1
        &&& forall|a: int| 0 <= a < self.c.k - 1 ==> #[trigger] self.nd_targets@[a] == d_target(self.c.k, a)
        &&& forall|a: int| 0 <= a < self.c.k - 1 ==> #[trigger] self.me_targets@[a] == e_target(self.c.k, a)
    }

    /// The anchors: for each class, in assignment order, members of that
    /// class whose tables count the assignment stack.
    pub closed spec fn anchors_ok(&self) -> bool {
        &&& anchors_count(self.c, self.anchors@, self.assign_stack@)
        &&& anchors_placed(self.c, self.anchors@, self.assign_stack@)
        &&& self.cfg.anchors == 0 ==> forall|cls: int| 0 <= cls < self.ncol() ==> (#[trigger] self.anchors@[cls])@.len() == 0
    }

    /// The engine's invariant.
    pub closed spec fn wf(&self) -> bool {
        &&& self.anchors_ok()
        &&& self.targets_ok()
        &&& self.c.wf()
        &&& self.cells_ok()
        &&& self.counters_ok()
        &&& self.stacks_ok()
        &&& self.queues_ok()
    }
}


// ---------------------------------------------------------------------------
// Facts used by the operations
// ---------------------------------------------------------------------------

/// The single bit `c`.
pub proof fn lemma_single_bit(c: u32)
    requires
        c < 32,
    ensures
        forall|t: int| #[trigger] bit(1u32 << c, t) == (t == c),
{
    assert forall|t: int| #[trigger] bit(1u32 << c, t) == (t == c) by {
        if 0 <= t < 32 {
            let tt = t as u32;
            assert((((1u32 << c) >> tt) & 1 == 1) == (tt == c)) by (bit_vector)
                requires
                    c < 32,
                    tt < 32,
            ;
        }
    }
}

/// The lowest set bit of a nonzero mask.
pub proof fn lemma_lowest_bit(x: u32)
    requires
        x != 0,
    ensures
        x.trailing_zeros() < 32,
        bit(x, x.trailing_zeros() as int),
        forall|t: int| 0 <= t < x.trailing_zeros() ==> !#[trigger] bit(x, t),
{
    vstd::std_specs::bits::axiom_u32_trailing_zeros(x);
    let p = x.trailing_zeros();
    assert forall|t: int| 0 <= t < p implies !#[trigger] bit(x, t) by {
        assert((x >> (t as u32)) & 1u32 == 0u32);
    }
}

/// `C(n, r) >= n` for `1 <= r < n`.
proof fn lemma_binom_ge_n(n: nat, r: nat)
    requires
        1 <= r < n,
    ensures
        crate::bits::binom(n, r) >= n,
    decreases n,
{
    if r == 1 {
        crate::witness::lemma_binom_step(n, 0);
        assert(crate::bits::binom(n, 0) == 1);
        let b = crate::bits::binom(n, 1);
        assert(b == n) by (nonlinear_arith)
            requires
                (0 + 1) * b == (n - 0) * 1,
        ;
    } else {
        lemma_binom_ge_n((n - 1) as nat, (r - 1) as nat);
        crate::bits::lemma_binom_pos((n - 1) as nat, r);
        assert(crate::bits::binom(n, r) == crate::bits::binom((n - 1) as nat, (r - 1) as nat) + crate::bits::binom((n - 1) as nat, r));
    }
}

/// The vertex count fits a `u32`, and a class has at least one member.
proof fn lemma_sizes(c: Combi)
    requires
        c.params_ok(),
    ensures
        c.num_vertices <= 0xFFFF_FFFF,
        c.m >= 1,
        c.num_vertices >= c.colors,
        c.colors <= 17,
{
    crate::bits::lemma_binom_fits(c.n as nat, c.r as nat);
    lemma_binom_ge_n(c.n as nat, c.r as nat);
    assert(c.num_vertices / (c.colors as u64) >= 1) by (nonlinear_arith)
        requires
            c.num_vertices >= c.colors,
            c.colors >= 1,
    ;
}

impl Engine {
    /// A fresh state: nothing assigned, every domain full, no open level.
    pub fn new(c: Combi, cfg: Config) -> (e: Engine)
        requires
            c.wf(),
        ensures
            e.wf(),
            e.combi() == c,
            e.config() == cfg,
            e.levels().len() == 0,
            e.cols().len() == c.num_vertices,
            forall|u: int| 0 <= u < c.num_vertices ==> #[trigger] e.cols()[u] == UNASSIGNED && e.doms()[u] == low_mask(c.colors),
    {
        proof {
            lemma_sizes(c);
        }
        let nv = c.num_vertices as usize;
        let ncol = c.colors as usize;
        let full_dom: u32 = if ncol >= 32 {
            u32::MAX
        } else {
            proof {
                crate::bits::lemma_shift_pos(ncol as u32);
            }
            (1u32 << ncol as u32) - 1
        };
        let nd_targets = c.rule_d_targets();
        let me_targets = c.rule_e_targets();
        let mut anchors: Vec<Vec<Anchor>> = Vec::new();
        let mut q: usize = 0;
        while q < ncol
            invariant
                q <= ncol,
                anchors@.len() == q,
                forall|cls: int| 0 <= cls < q ==> (#[trigger] anchors@[cls])@.len() == 0,
            decreases ncol - q,
        {
            anchors.push(Vec::new());
            q += 1;
        }
        let e = Engine {
            anchors,
            nd_targets,
            me_targets,
            color: vec![UNASSIGNED; nv],
            dom: vec![full_dom; nv],
            trail: Vec::new(),
            trail_levels: Vec::new(),
            assign_stack: Vec::new(),
            assign_levels: Vec::new(),
            assigned: 0,
            size: vec![0u64; ncol],
            avail: vec![c.num_vertices; ncol],
            closed: 0,
            prop_queue: VecDeque::new(),
            in_prop: Bitset::new(nv),
            force_queue: VecDeque::new(),
            match_queue: VecDeque::new(),
            in_match: Bitset::new(nv),
            conflict_rule: Rule::A,
            c,
            cfg,
            snaps: Ghost(Seq::empty()),
        };
        proof {
            let n = nv as nat;
            assert(full_dom == low_mask(c.colors));
            lemma_low_mask(c.colors);
            assert forall|u: int| 0 <= u < n implies cell_ok(#[trigger] e.color@[u], e.dom@[u], ncol as nat) by {}
            assert forall|k: int| 0 <= k < ncol implies #[trigger] e.size@[k] == class_count(e.color@, k, n) by {
                lemma_counts_fresh(e.color@, e.dom@, full_dom, k, n);
            }
            assert forall|k: int| 0 <= k < ncol implies #[trigger] e.avail@[k] == open_count(e.color@, e.dom@, k, n) by {
                assert(bit(full_dom, k));
                lemma_counts_fresh(e.color@, e.dom@, full_dom, k, n);
            }
            lemma_counts_fresh(e.color@, e.dom@, full_dom, 0, n);
            crate::bits::lemma_bits_zero();
        }
        e
    }

    /// The domain with the closed colours struck out, for an unassigned
    /// vertex; an assigned vertex keeps its own colour.
    pub fn eff_dom(&self, v: u32) -> (d: u32)
        requires
            self.wf(),
            v < self.combi().num_vertices,
        ensures
            d == if self.cols()[v as int] == UNASSIGNED {
                self.doms()[v as int] & !self.closed_set()
            } else {
                self.doms()[v as int]
            },
    {
        let d = self.dom[v as usize];
        if self.color[v as usize] == UNASSIGNED {
            d & !self.closed
        } else {
            d
        }
    }

    pub fn is_assigned(&self, v: u32) -> (b: bool)
        requires
            self.wf(),
            v < self.combi().num_vertices,
        ensures
            b == (self.cols()[v as int] != UNASSIGNED),
    {
        self.color[v as usize] != UNASSIGNED
    }

    // -- level management ---------------------------------------------------

    /// Open a level: the colours and domains now are what the matching
    /// `pop_level` restores.
    pub fn push_level(&mut self)
        requires
            old(self).wf(),
        ensures
            final(self).wf(),
            final(self).levels() == old(self).levels().push((old(self).cols(), old(self).doms())),
            final(self).cols() == old(self).cols(),
            final(self).doms() == old(self).doms(),
            final(self).combi() == old(self).combi(),
            final(self).config() == old(self).config(),
            final(self).num_assigned() == old(self).num_assigned(),
    {
        let ghost pre = *self;
        self.trail_levels.push(self.trail.len());
        self.assign_levels.push(self.assign_stack.len());
        self.snaps = Ghost(self.snaps@.push((self.color@, self.dom@)));
        proof {
            let s = self.snaps@;
            let n = s.len() - 1;
            assert(self.trail@.skip(self.trail@.len() as int) =~= Seq::<(u32, u32)>::empty());
            assert(self.assign_stack@.skip(self.assign_stack@.len() as int) =~= Seq::<(u32, u32, u8)>::empty());
            assert forall|i: int| 0 <= i < s.len() implies {
                &&& (#[trigger] s[i]).0 == rewind_colors(self.color@, self.assign_stack@.skip(self.assign_levels@[i] as int))
                &&& s[i].1 == rewind_doms(self.dom@, self.trail@.skip(self.trail_levels@[i] as int))
            } by {
                if i < n {
                    assert(s[i] == pre.snaps@[i]);
                    assert(self.assign_levels@[i] == pre.assign_levels@[i]);
                    assert(self.trail_levels@[i] == pre.trail_levels@[i]);
                }
            }
            assert(self.stacks_ok());
        }
    }
}


impl Engine {
    /// Undo the newest assignment above the top level's mark.
    fn unassign_top(&mut self)
        requires
            old(self).wf(),
            old(self).snaps@.len() > 0,
            old(self).assign_stack@.len() > old(self).assign_levels@.last(),
        ensures
            final(self).wf(),
            final(self).snaps == old(self).snaps,
            final(self).trail@ == old(self).trail@,
            final(self).trail_levels@ == old(self).trail_levels@,
            final(self).assign_levels@ == old(self).assign_levels@,
            final(self).assign_stack@ == old(self).assign_stack@.drop_last(),
            final(self).dom@ == old(self).dom@,
            final(self).color@ == unassign(old(self).color@, old(self).assign_stack@.last()),
            final(self).c == old(self).c,
            final(self).cfg == old(self).cfg,
    {
        let n = self.assign_stack.len();
        let (v, mask, c) = self.assign_stack[n - 1];
        let cls = c as usize;
        let ghost pre = *self;
        let ghost nv = self.nv();
        let ghost col0 = self.color@;
        proof {
            assert(pre.assign_stack@[n - 1] == (v, mask, c));
            assert(col0[v as int] == c);
            lemma_counts_bounds(col0, pre.dom@, cls as int, nv, v as int);
            lemma_sizes(self.c);
        }
        // Anchors are made in assignment order, so if `v` is an anchor it is
        // the newest one of its class.
        if self.cfg.anchors > 0 {
            let na = self.anchors[cls].len();
            if na > 0 && self.anchors[cls][na - 1].idx == v {
                self.anchors[cls].pop();
            }
            let ghost a1 = self.anchors@;
            proof {
                lemma_top_not_anchor(self.c, pre.anchors@, a1, pre.assign_stack@, cls as int);
            }
            rule_de_undo(&mut self.anchors, &self.c, v, mask, c, Ghost(self.assign_stack@));
            proof {
                lemma_placed_shapes(self.c, a1, self.anchors@, pre.assign_stack@.drop_last());
            }
        } else {
            proof {
                lemma_no_anchors(self.c, self.anchors@, pre.assign_stack@.drop_last());
            }
        }
        let ghost mid = *self;
        self.assign_stack.pop();
        self.color.set(v as usize, UNASSIGNED);
        let ghost col1 = self.color@;
        proof {
            lemma_counts_update(col0, pre.dom@, col1, pre.dom@, 0, nv, v as int);
        }
        self.assigned = self.assigned - 1;
        if self.cfg.cardinality && self.size[cls] == self.c.m {
            self.closed = self.closed & !(1u32 << c as u32);
        }
        proof {
            lemma_bit_cleared(pre.closed, c as int);
            assert forall|k: int| 0 <= k < self.ncol() implies #[trigger] class_count(col1, k, nv) + ind(c as int == k) == class_count(col0, k, nv) by {
                lemma_counts_update(col0, pre.dom@, col1, pre.dom@, k, nv, v as int);
            }
            assert forall|k: int| 0 <= k < self.ncol() implies #[trigger] open_count(col1, self.dom@, k, nv) == open_count(col0, self.dom@, k, nv) + ind(c as int == k) by {
                lemma_single_bit(c as u32);
                lemma_counts_update(col0, self.dom@, col1, self.dom@, k, nv, v as int);
            }
            lemma_counts_bounds(col1, self.dom@, cls as int, nv, v as int);
        }
        self.size.set(cls, self.size[cls] - 1);
        self.avail.set(cls, self.avail[cls] + 1);
        proof {
            let a0 = pre.assign_stack@;
            let a1 = self.assign_stack@;
            assert(a1 =~= a0.drop_last());
            assert(a0.last() == (v, mask, c));
            assert(unassign(col0, a0.last()) == col1);
            assert forall|u: int| 0 <= u < nv implies cell_ok(#[trigger] self.color@[u], self.dom@[u], self.ncol()) by {
                assert(cell_ok(col0[u], pre.dom@[u], self.ncol()));
            }
            assert forall|i: int| 0 <= i < a1.len() implies {
                &&& (#[trigger] a1[i]).0 < nv
                &&& names(self.c, a1[i].0 as int, a1[i].1)
                &&& self.color@[a1[i].0 as int] == a1[i].2
                &&& a1[i].2 < self.ncol()
            } by {
                assert(a1[i] == a0[i]);
                assert(a0[i].0 != a0[n - 1].0);
            }
            let s = self.snaps@;
            assert forall|i: int| 0 <= i < s.len() implies {
                &&& (#[trigger] s[i]).0 == rewind_colors(self.color@, a1.skip(self.assign_levels@[i] as int))
                &&& s[i].1 == rewind_doms(self.dom@, self.trail@.skip(self.trail_levels@[i] as int))
            } by {
                let al = self.assign_levels@[i] as int;
                assert(al <= self.assign_levels@[s.len() - 1]);
                lemma_skip_drop_last(a0, al);
            }
            assert(self.stacks_ok());
            assert(self.counters_ok());
        }
    }

    /// Undo the newest trail entry above the top level's mark, once every
    /// assignment above it is undone.
    fn restore_top(&mut self)
        requires
            old(self).wf(),
            old(self).snaps@.len() > 0,
            old(self).assign_stack@.len() == old(self).assign_levels@.last(),
            old(self).trail@.len() > old(self).trail_levels@.last(),
        ensures
            final(self).wf(),
            final(self).snaps == old(self).snaps,
            final(self).trail@ == old(self).trail@.drop_last(),
            final(self).trail_levels@ == old(self).trail_levels@,
            final(self).assign_levels@ == old(self).assign_levels@,
            final(self).assign_stack@ == old(self).assign_stack@,
            final(self).color@ == old(self).color@,
            final(self).dom@ == restore(old(self).dom@, old(self).trail@.last()),
            final(self).c == old(self).c,
            final(self).cfg == old(self).cfg,
    {
        let n = self.trail.len();
        let (v, prev) = self.trail[n - 1];
        let ghost pre = *self;
        let ghost nv = self.nv();
        let ghost col = self.color@;
        let ghost dom0 = self.dom@;
        proof {
            lemma_sizes(self.c);
            let s = self.snaps@;
            let top = s.len() - 1;
            let t = pre.trail@;
            assert(t[n - 1] == (v, prev));
            assert(pre.assign_stack@.skip(pre.assign_levels@[top] as int) =~= Seq::<(u32, u32, u8)>::empty());
            assert(s[top].0 == col);
            assert(s[top].0[t[n - 1].0 as int] == UNASSIGNED);
            assert(t.skip(n as int) =~= Seq::<(u32, u32)>::empty());
            assert(crate::solver::matching::subset(dom0[v as int], prev)) by {
                assert(crate::solver::matching::subset(rewind_doms(dom0, t.skip((n - 1) + 1))[t[n - 1].0 as int], t[n - 1].1));
            }
        }
        self.trail.pop();
        let cur = self.dom[v as usize];
        self.dom.set(v as usize, prev);
        let ghost dom1 = self.dom@;
        let mut restored = prev & !cur;
        proof {
            lemma_bits_logic(prev, cur);
            assert forall|k: int| 0 <= k < self.ncol() implies #[trigger] self.avail@[k] + ind(bit(restored, k)) == open_count(col, dom1, k, nv) by {
                lemma_counts_update(col, dom0, col, dom1, k, nv, v as int);
                if bit(cur, k) {
                    assert(bit(prev, k));
                }
            }
        }
        while restored != 0
            invariant
                self.c == pre.c,
                self.cfg == pre.cfg,
                nv == self.nv(),
                v < nv,
                self.color@ == col,
                self.dom@ == dom1,
                self.avail@.len() == self.ncol(),
                below(restored, self.ncol() as int),
                forall|k: int| 0 <= k < self.ncol() ==> #[trigger] self.avail@[k] + ind(bit(restored, k)) == open_count(col, dom1, k, nv),
                nv <= 0xFFFF_FFFF,
                self.size == pre.size,
                self.assigned == pre.assigned,
                self.closed == pre.closed,
                self.trail@ == pre.trail@.drop_last(),
                self.snaps == pre.snaps,
                self.trail_levels == pre.trail_levels,
                self.assign_levels == pre.assign_levels,
                self.assign_stack == pre.assign_stack,
                self.prop_queue == pre.prop_queue,
                self.force_queue == pre.force_queue,
                self.match_queue == pre.match_queue,
                self.in_prop == pre.in_prop,
                self.in_match == pre.in_match,
                self.nd_targets == pre.nd_targets,
                self.me_targets == pre.me_targets,
                self.anchors == pre.anchors,
            decreases restored,
        {
            let b = restored.trailing_zeros();
            proof {
                lemma_lowest_bit(restored);
                lemma_bit_cleared(restored, b as int);
                crate::bits::lemma_clear_smaller(restored, b);
                lemma_counts_bounds(col, dom1, b as int, nv, v as int);
            }
            restored = restored & !(1u32 << b);
            self.avail.set(b as usize, self.avail[b as usize] + 1);
        }
        proof {
            crate::bits::lemma_bits_zero();
            let t0 = pre.trail@;
            let t1 = self.trail@;
            assert(t0.last() == (v, prev));
            assert(restore(dom0, t0.last()) == dom1);
            assert forall|u: int| 0 <= u < nv implies cell_ok(#[trigger] self.color@[u], self.dom@[u], self.ncol()) by {
                assert(cell_ok(col[u], dom0[u], self.ncol()));
            }
            assert forall|i: int| 0 <= i < t1.len() implies (#[trigger] t1[i]).0 < nv && below(t1[i].1, self.ncol() as int) by {
                assert(t1[i] == t0[i]);
            }
            let s = self.snaps@;
            assert forall|i: int| 0 <= i < s.len() implies {
                &&& (#[trigger] s[i]).0 == rewind_colors(self.color@, self.assign_stack@.skip(self.assign_levels@[i] as int))
                &&& s[i].1 == rewind_doms(self.dom@, t1.skip(self.trail_levels@[i] as int))
            } by {
                let tl = self.trail_levels@[i] as int;
                assert(tl <= self.trail_levels@[s.len() - 1]);
                lemma_skip_drop_last(t0, tl);
            }
            assert forall|i: int, j: int| 0 <= i < s.len() && self.trail_levels@[i] <= j < t1.len() implies
                (#[trigger] s[i]).0[(#[trigger] t1[j]).0 as int] == UNASSIGNED by {
                assert(t1[j] == t0[j]);
            }
            assert forall|j: int| 0 <= j < t1.len() implies
                #[trigger] crate::solver::matching::subset(rewind_doms(self.dom@, t1.skip(j + 1))[t1[j].0 as int], t1[j].1) by {
                assert(t1[j] == t0[j]);
                lemma_skip_drop_last(t0, j + 1);
                assert(crate::solver::matching::subset(rewind_doms(dom0, t0.skip(j + 1))[t0[j].0 as int], t0[j].1));
            }
            assert(self.stacks_ok());
            assert(self.counters_ok());
        }
    }

    /// Close the top level: every colour and domain returns to what it was
    /// when the level was opened.
    pub fn pop_level(&mut self)
        requires
            old(self).wf(),
            old(self).levels().len() > 0,
        ensures
            final(self).wf(),
            final(self).levels() == old(self).levels().drop_last(),
            final(self).cols() == old(self).levels().last().0,
            final(self).doms() == old(self).levels().last().1,
            final(self).combi() == old(self).combi(),
            final(self).config() == old(self).config(),
    {
        let ghost pre = *self;
        let nl = self.assign_levels.len();
        let a_mark = self.assign_levels[nl - 1];
        let t_mark = self.trail_levels[nl - 1];
        while self.assign_stack.len() > a_mark
            invariant
                self.wf(),
                self.snaps == pre.snaps,
                self.assign_levels@ == pre.assign_levels@,
                self.trail_levels@ == pre.trail_levels@,
                nl == self.snaps@.len(),
                nl > 0,
                a_mark == self.assign_levels@[nl - 1],
                t_mark == self.trail_levels@[nl - 1],
                self.c == pre.c,
                self.cfg == pre.cfg,
            decreases self.assign_stack@.len(),
        {
            self.unassign_top();
        }
        while self.trail.len() > t_mark
            invariant
                self.wf(),
                self.snaps == pre.snaps,
                self.assign_levels@ == pre.assign_levels@,
                self.trail_levels@ == pre.trail_levels@,
                nl == self.snaps@.len(),
                nl > 0,
                a_mark == self.assign_levels@[nl - 1],
                t_mark == self.trail_levels@[nl - 1],
                self.assign_stack@.len() == a_mark,
                self.c == pre.c,
                self.cfg == pre.cfg,
            decreases self.trail@.len(),
        {
            self.restore_top();
        }
        proof {
            let s = self.snaps@;
            assert(self.assign_stack@.skip(a_mark as int) =~= Seq::<(u32, u32, u8)>::empty());
            assert(self.trail@.skip(t_mark as int) =~= Seq::<(u32, u32)>::empty());
            assert(s[nl - 1].0 == self.color@);
            assert(s[nl - 1].1 == self.dom@);
        }
        self.assign_levels.pop();
        self.trail_levels.pop();
        self.snaps = Ghost(self.snaps@.drop_last());
        proof {
            let s = self.snaps@;
            assert forall|i: int| 0 <= i < s.len() implies {
                &&& (#[trigger] s[i]).0 == rewind_colors(self.color@, self.assign_stack@.skip(self.assign_levels@[i] as int))
                &&& s[i].1 == rewind_doms(self.dom@, self.trail@.skip(self.trail_levels@[i] as int))
            } by {
                assert(s[i] == pre.snaps@[i]);
                assert(self.assign_levels@[i] == pre.assign_levels@[i]);
                assert(self.trail_levels@[i] == pre.trail_levels@[i]);
            }
            assert forall|i: int, j: int| 0 <= i < s.len() && self.trail_levels@[i] <= j < self.trail@.len() implies
                (#[trigger] s[i]).0[(#[trigger] self.trail@[j]).0 as int] == UNASSIGNED by {
                assert(s[i] == pre.snaps@[i]);
                assert(self.trail_levels@[i] == pre.trail_levels@[i]);
            }
            assert(self.stacks_ok());
        }
    }
}


// ---------------------------------------------------------------------------
// Neighbours
// ---------------------------------------------------------------------------

/// The set bits of `x & !y` and of `y` together are those of `x`, where
/// `y` lies inside `x`.
proof fn lemma_pop_complement(x: u32, y: u32, i: int)
    requires
        0 <= i <= 32,
        forall|t: int| #[trigger] bit(y, t) ==> bit(x, t),
    ensures
        pop_from(x & !y, i) + pop_from(y, i) == pop_from(x, i),
    decreases 32 - i,
{
    lemma_bits_logic(x, y);
    if i < 32 {
        lemma_pop_complement(x, y, i + 1);
    }
}

/// The neighbours of a vertex, `mask` with each bit of its complement
/// dropped, are vertices with ranks below the vertex count.
pub proof fn lemma_nbr_vertex(c: Combi, mask: u32, i: int)
    requires
        c.params_ok(),
        c.is_vertex(mask),
        0 <= i < drop_each_from(c.full & !mask, 0).len(),
    ensures
        c.is_vertex(drop_each_from(c.full & !mask, 0)[i]),
        colex(drop_each_from(c.full & !mask, 0)[i]) < c.num_vertices,
{
    let x = c.full & !mask;
    lemma_drop_each(x, 0);
    let e = drop_each_from(x, 0)[i];
    assert(is_drop(x, e));
    let q = choose|q: int| 0 <= q < 32 && bit(x, q) && e == x & !(1u32 << (q as u32));
    lemma_low_mask(c.n);
    lemma_bits_logic(c.full, mask);
    assert forall|t: int| #[trigger] bit(mask, t) implies bit(c.full, t) by {
        if 0 <= t < 32 && t >= c.n {
            assert(!bit(mask, t));
        }
    }
    lemma_pop_complement(c.full, mask, 0);
    lemma_low_mask_pop(c.n, 0);
    lemma_pop_clear_bit(x, q, 0);
    lemma_bit_cleared(x, q);
    assert(below(e, c.n as int)) by {
        assert forall|t: int| c.n <= t < 32 implies !#[trigger] bit(e, t) by {
            assert(!bit(c.full, t));
        }
    }
    crate::combi::law_rank_bijection(c, e, e);
}

impl Engine {
    /// The state is the same but for the conflict attribution.
    pub closed spec fn same_but_rule(&self, other: &Engine) -> bool {
        &&& self.c == other.c
        &&& self.cfg == other.cfg
        &&& self.color@ == other.color@
        &&& self.dom@ == other.dom@
        &&& self.trail@ == other.trail@
        &&& self.trail_levels@ == other.trail_levels@
        &&& self.assign_stack@ == other.assign_stack@
        &&& self.assign_levels@ == other.assign_levels@
        &&& self.assigned == other.assigned
        &&& self.size@ == other.size@
        &&& self.avail@ == other.avail@
        &&& self.closed == other.closed
        &&& self.prop_queue@ == other.prop_queue@
        &&& self.force_queue@ == other.force_queue@
        &&& self.match_queue@ == other.match_queue@
        &&& self.in_prop == other.in_prop
        &&& self.in_match == other.in_match
        &&& self.snaps == other.snaps
    }

    /// Domains only shrink and colours, once given, stay.
    pub closed spec fn grows_from(&self, old: &Engine) -> bool {
        &&& self.color@.len() == old.color@.len()
        &&& self.dom@.len() == old.dom@.len()
        &&& forall|u: int| 0 <= u < old.dom@.len() ==> subset(#[trigger] self.dom@[u], old.dom@[u])
        &&& forall|u: int| 0 <= u < old.color@.len() && old.color@[u] != UNASSIGNED ==> #[trigger] self.color@[u] == old.color@[u]
    }

    /// What stays fixed through propagation: the problem, the settings and
    /// the open levels.
    pub closed spec fn frame(&self, old: &Engine) -> bool {
        &&& self.c == old.c
        &&& self.cfg == old.cfg
        &&& self.snaps == old.snaps
        &&& self.trail_levels@ == old.trail_levels@
        &&& self.assign_levels@ == old.assign_levels@
    }

    pub proof fn lemma_grows_trans(a: &Engine, b: &Engine, c: &Engine)
        requires
            b.grows_from(a),
            c.grows_from(b),
        ensures
            c.grows_from(a),
    {
        assert forall|u: int| 0 <= u < a.dom@.len() implies subset(#[trigger] c.dom@[u], a.dom@[u]) by {
            assert(subset(c.dom@[u], b.dom@[u]));
            assert(subset(b.dom@[u], a.dom@[u]));
            assert forall|t: int| #[trigger] bit(c.dom@[u], t) implies bit(a.dom@[u], t) by {
                assert(bit(b.dom@[u], t));
            }
        }
    }

    /// The matching queue is as it was.
    pub closed spec fn keeps_matches(&self, old: &Engine) -> bool {
        self.match_queue@ == old.match_queue@ && self.in_match == old.in_match
    }

    pub closed spec fn prop_len(&self) -> nat {
        self.prop_queue@.len()
    }

    pub closed spec fn force_len(&self) -> nat {
        self.force_queue@.len()
    }

    pub closed spec fn match_len(&self) -> nat {
        self.match_queue@.len()
    }

    /// Queue `v` for the counting rule unless it is queued already.
    fn enqueue_prop(&mut self, v: u32, mask: u32)
        requires
            old(self).wf(),
            v < old(self).nv(),
            names(old(self).c, v as int, mask),
        ensures
            final(self).wf(),
            final(self).frame(old(self)),
            final(self).color@ == old(self).color@,
            final(self).dom@ == old(self).dom@,
            final(self).trail@ == old(self).trail@,
            final(self).assign_stack@ == old(self).assign_stack@,
            final(self).force_queue@ == old(self).force_queue@,
            final(self).match_queue@ == old(self).match_queue@,
            final(self).in_match == old(self).in_match,
            final(self).assigned == old(self).assigned,
            final(self).size@ == old(self).size@,
            final(self).avail@ == old(self).avail@,
            final(self).closed == old(self).closed,
            final(self).conflict_rule == old(self).conflict_rule,
            final(self).prop_queue@ == (if old(self).in_prop.contains(v as int) { old(self).prop_queue@ } else { old(self).prop_queue@.push((v, mask)) }),
            forall|j: int| #[trigger] final(self).in_prop.contains(j) == (old(self).in_prop.contains(j) || j == v),
    {
        if self.in_prop.test_and_set(v as usize) {
            self.prop_queue.push_back((v, mask));
        }
    }

    /// Remove colour `c` from vertex `u`'s domain. `rule` is the
    /// attribution for any conflict this uncovers.
    fn clear_color(&mut self, u: u32, umask: u32, c: u8, rule: Rule) -> (ok: bool)
        requires
            old(self).wf(),
            u < old(self).nv(),
            names(old(self).c, u as int, umask),
            c < old(self).ncol(),
        ensures
            final(self).wf(),
            final(self).frame(old(self)),
            final(self).grows_from(old(self)),
            final(self).measure() <= old(self).measure(),
            final(self).measure() == old(self).measure() ==> final(self).same_but_rule(old(self)),
            ok ==> !bit(final(self).dom@[u as int], c as int),
            final(self).assign_stack@ == old(self).assign_stack@,
            final(self).match_queue@ == old(self).match_queue@,
            final(self).in_match == old(self).in_match,
            final(self).color@ == old(self).color@,
            !bit(old(self).dom@[u as int], c as int) ==> ok && final(self).dom@ == old(self).dom@,
            bit(old(self).dom@[u as int], c as int) && old(self).color@[u as int] != UNASSIGNED ==> !ok && final(self).dom@ == old(self).dom@
                && final(self).conflict_rule == rule,
            bit(old(self).dom@[u as int], c as int) && old(self).color@[u as int] == UNASSIGNED ==> {
                &&& final(self).dom@ == old(self).dom@.update(u as int, old(self).dom@[u as int] & !(1u32 << c))
                &&& ok == (!(old(self).cfg.cardinality && old(self).size@[c as int] + old(self).avail@[c as int] - 1 < old(self).c.m)
                    && old(self).dom@[u as int] & !(1u32 << c) & !old(self).closed != 0)
            },
    {
        let ui = u as usize;
        let cb = 1u32 << c as u32;
        let old = self.dom[ui];
        proof {
            lemma_single_bit(c as u32);
            lemma_bits_logic(old, cb);
            crate::bits::lemma_bits_zero();
            if old & cb != 0 {
                lemma_lowest_bit(old & cb);
            } else {
                assert(!bit(old & cb, c as int));
                assert(bit(cb, c as int));
                assert(!bit(old, c as int));
            }
        }
        if old & cb == 0 {
            return true;
        }
        if self.color[ui] != UNASSIGNED {
            // an assigned vertex has dom = 1<<color, so this is color[u] == c:
            // two adjacent vertices with the same colour
            self.conflict_rule = rule;
            return false;
        }
        let ghost pre = *self;
        let ghost nv = self.nv();
        let new = old & !cb;
        self.trail.push((u, old));
        self.dom.set(ui, new);
        proof {
            lemma_sizes(self.c);
            let col = self.color@;
            let dom0 = pre.dom@;
            let dom1 = self.dom@;
            assert(agree_but(col, dom0, col, dom1, nv, u as int));
            lemma_counts_update(col, dom0, col, dom1, c as int, nv, u as int);
            lemma_counts_update(col, dom0, col, dom1, 0, nv, u as int);
            lemma_bits_logic(old, cb);
            lemma_pop_clear_bit(old, c as int, 0);
            assert(bit(old, c as int));
            assert forall|k: int| 0 <= k < self.ncol() && k != c implies #[trigger] open_count(col, dom1, k, nv) == open_count(col, dom0, k, nv) by {
                lemma_counts_update(col, dom0, col, dom1, k, nv, u as int);
            }
            lemma_counts_bounds(col, dom0, c as int, nv, u as int);
        }
        self.avail.set(c as usize, self.avail[c as usize] - 1);
        proof {
            let col = self.color@;
            let t0 = pre.trail@;
            let t1 = self.trail@;
            let e = (u, old);
            assert(t1 == t0.push(e));
            assert(restore(self.dom@, e) =~= pre.dom@);
            assert forall|uu: int| 0 <= uu < nv implies cell_ok(#[trigger] self.color@[uu], self.dom@[uu], self.ncol()) by {
                assert(cell_ok(pre.color@[uu], pre.dom@[uu], self.ncol()));
                if uu == u {
                    assert forall|t: int| self.ncol() <= t < 32 implies !#[trigger] bit(new, t) by {
                        assert(!bit(old, t));
                    }
                }
            }
            assert forall|i: int| 0 <= i < t1.len() implies (#[trigger] t1[i]).0 < nv && below(t1[i].1, self.ncol() as int) by {
                if i < t0.len() {
                    assert(t1[i] == t0[i]);
                } else {
                    assert(cell_ok(pre.color@[u as int], old, self.ncol()));
                }
            }
            let s = self.snaps@;
            assert forall|i: int| 0 <= i < s.len() implies {
                &&& (#[trigger] s[i]).0 == rewind_colors(self.color@, self.assign_stack@.skip(self.assign_levels@[i] as int))
                &&& s[i].1 == rewind_doms(self.dom@, t1.skip(self.trail_levels@[i] as int))
            } by {
                let tl = self.trail_levels@[i] as int;
                lemma_skip_push(t0, e, tl);
                lemma_rewind_doms_push(self.dom@, t0.skip(tl), e);
            }
            assert forall|i: int, j: int| 0 <= i < s.len() && self.trail_levels@[i] <= j < t1.len() implies
                (#[trigger] s[i]).0[(#[trigger] t1[j]).0 as int] == UNASSIGNED by {
                if j < t0.len() {
                    assert(t1[j] == t0[j]);
                } else {
                    let al = self.assign_levels@[i] as int;
                    lemma_rewind_colors_keeps(col, self.assign_stack@.skip(al), u as int);
                }
            }
            assert forall|j: int| 0 <= j < t1.len() implies
                #[trigger] subset(rewind_doms(self.dom@, t1.skip(j + 1))[t1[j].0 as int], t1[j].1) by {
                if j < t0.len() {
                    assert(t1[j] == t0[j]);
                    lemma_skip_push(t0, e, j + 1);
                    lemma_rewind_doms_push(self.dom@, t0.skip(j + 1), e);
                    assert(subset(rewind_doms(pre.dom@, t0.skip(j + 1))[t0[j].0 as int], t0[j].1));
                } else {
                    assert(t1.skip(j + 1) =~= Seq::<(u32, u32)>::empty());
                    lemma_bits_logic(old, cb);
                }
            }
            assert(self.stacks_ok());
            assert(self.counters_ok());
            assert(self.cells_ok());
            assert forall|uu: int| 0 <= uu < pre.dom@.len() implies subset(#[trigger] self.dom@[uu], pre.dom@[uu]) by {
                lemma_bits_logic(old, cb);
            }
            assert(self.grows_from(&pre));
        }
        if self.cfg.cardinality && self.size[c as usize] + self.avail[c as usize] < self.c.m {
            self.conflict_rule = Rule::C;
            return false;
        }
        let eff = new & !self.closed;
        if eff == 0 {
            self.conflict_rule = rule;
            return false;
        }
        if count_ones32(eff) == 1 {
            let f = eff.trailing_zeros();
            proof {
                lemma_lowest_bit(eff);
                lemma_bits_logic(new, self.closed);
                lemma_bits_logic(old, cb);
                assert(cell_ok(pre.color@[u as int], old, self.ncol()));
                if f >= self.ncol() {
                    assert(!bit(old, f as int));
                }
            }
            self.force_queue.push_back((u, umask, f as u8));
        }
        self.enqueue_prop(u, umask);
        true
    }
}


impl Engine {
    /// The neighbours of `mask`, as its closed neighbourhood lists them
    /// after the centre.
    pub open spec fn nbrs(c: Combi, mask: u32) -> Seq<u32> {
        drop_each_from(c.full & !mask, 0)
    }

    /// Rule A: give `v` the colour `c` and strike `c` from every neighbour.
    /// Returns `false` on a conflict, whose rule is left in
    /// `conflict_rule`. With Rule A alone in force, a fresh assignment
    /// succeeds exactly when every neighbour keeps a colour.
    #[verifier::spinoff_prover]
    #[verifier::rlimit(50)]
    pub fn assign(&mut self, v: u32, mask: u32, c: u8) -> (ok: bool)
        requires
            old(self).wf(),
            v < old(self).nv(),
            names(old(self).combi(), v as int, mask),
            c < old(self).ncol(),
        ensures
            final(self).wf(),
            final(self).frame(old(self)),
            final(self).grows_from(old(self)),
            final(self).measure() <= old(self).measure(),
            ok && old(self).cols()[v as int] == c ==> final(self).same_but_rule(old(self)),
            ok && old(self).cols()[v as int] != c ==> final(self).measure() < old(self).measure(),
            ok ==> final(self).cols()[v as int] == c,
            old(self).cols()[v as int] == c ==> ok,
            old(self).cols()[v as int] != UNASSIGNED && old(self).cols()[v as int] != c ==> !ok && final(self).rule() == Rule::A,
            old(self).cols()[v as int] == UNASSIGNED && !bit(old(self).doms()[v as int], c as int) ==> !ok && final(self).rule() == Rule::A,
            old(self).cols()[v as int] == UNASSIGNED && old(self).config().cardinality && bit(old(self).closed_set(), c as int) ==> !ok,
            ok && old(self).cols()[v as int] != c ==> forall|i: int| 0 <= i < Self::nbrs(old(self).combi(), mask).len() ==>
                !bit(final(self).doms()[colex(#[trigger] Self::nbrs(old(self).combi(), mask)[i]) as int], c as int),
            final(self).keeps_matches(old(self)),
            old(self).cols()[v as int] == UNASSIGNED && bit(old(self).doms()[v as int], c as int)
                && rule_a_only(old(self).config()) ==> (ok <==> forall|j: int| 0 <= j < Self::nbrs(old(self).combi(), mask).len() ==>
                keeps_a_colour(old(self).cols(), old(self).doms(), colex(#[trigger] Self::nbrs(old(self).combi(), mask)[j]) as int, c)),
            old(self).cols()[v as int] == UNASSIGNED && bit(old(self).doms()[v as int], c as int)
                && rule_a_only(old(self).config()) && !ok ==> forall|cs: Seq<u8>| within_domains(cs, old(self).doms()) && cs[v as int] == c
                ==> exists|j: int| 0 <= j < Self::nbrs(old(self).combi(), mask).len()
                && cs[colex(#[trigger] Self::nbrs(old(self).combi(), mask)[j]) as int] == c,
    {
        let vi = v as usize;
        let cb = 1u32 << c as u32;
        if self.color[vi] != UNASSIGNED {
            if self.color[vi] == c {
                return true;
            }
            self.conflict_rule = Rule::A;
            return false;
        }
        proof {
            lemma_single_bit(c as u32);
            lemma_bits_logic(self.dom@[vi as int], cb);
            crate::bits::lemma_bits_zero();
            if self.dom@[vi as int] & cb != 0 {
                lemma_lowest_bit(self.dom@[vi as int] & cb);
            }
            if bit(self.dom@[vi as int], c as int) {
                assert(bit(self.dom@[vi as int] & cb, c as int));
                assert(!bit(0u32, c as int));
            }
        }
        if self.dom[vi] & cb == 0 {
            self.conflict_rule = Rule::A;
            return false;
        }
        let ghost nv = self.nv();
        proof {
            lemma_sizes(self.c);
            lemma_counts_bounds(self.color@, self.dom@, c as int, nv, v as int);
        }
        if self.cfg.cardinality {
            if self.closed & cb != 0 || self.size[c as usize] + 1 > self.c.m {
                self.conflict_rule = Rule::C;
                return false;
            }
        }
        let ghost pre = *self;
        let was = self.dom[vi];
        self.trail.push((v, was));
        self.dom.set(vi, cb);
        self.color.set(vi, c);
        let ghost col0 = pre.color@;
        let ghost dom0 = pre.dom@;
        let ghost col1 = self.color@;
        let ghost dom1 = self.dom@;
        proof {
            assert(agree_but(col0, dom0, col1, dom1, nv, v as int));
            lemma_counts_update(col0, dom0, col1, dom1, c as int, nv, v as int);
            lemma_counts_bounds(col1, dom1, c as int, nv, v as int);
            assert forall|k: int| 0 <= k < self.ncol() implies #[trigger] class_count(col1, k, nv) == class_count(col0, k, nv) + ind(k == c as int) by {
                lemma_counts_update(col0, dom0, col1, dom1, k, nv, v as int);
            }
            assert forall|k: int| 0 <= k < self.ncol() implies #[trigger] open_count(col1, dom1, k, nv) + ind(bit(was, k)) == open_count(col0, dom0, k, nv) by {
                lemma_counts_update(col0, dom0, col1, dom1, k, nv, v as int);
            }
            lemma_pop_bound(was, 0);
        }
        self.assigned = self.assigned + 1;
        self.size.set(c as usize, self.size[c as usize] + 1);
        if self.size[c as usize] == self.c.m {
            if self.cfg.cardinality {
                self.closed = self.closed | cb;
            }
        }
        proof {
            crate::bits::lemma_bit_set(pre.closed, c as int);
            assert forall|x: int| 0 <= x < self.ncol() implies #[trigger] self.size@[x] <= nv by {
                lemma_counts_bounds(col1, dom1, x, nv, v as int);
                assert(self.size@[x] == class_count(col1, x, nv));
            }
        }
        // v leaves the unassigned pool: every colour it still permitted loses
        // one availability slot.
        let mut card_ok = true;
        let mut rest = was;
        let ghost mid0 = *self;
        while rest != 0
            invariant
                self.c == pre.c,
                self.cfg == pre.cfg,
                self.trail@ == mid0.trail@,
                self.trail_levels@ == mid0.trail_levels@,
                self.assign_stack@ == mid0.assign_stack@,
                self.assign_levels@ == mid0.assign_levels@,
                self.assigned == mid0.assigned,
                self.size@ == mid0.size@,
                self.closed == mid0.closed,
                self.prop_queue@ == mid0.prop_queue@,
                self.force_queue@ == mid0.force_queue@,
                self.match_queue@ == mid0.match_queue@,
                self.in_prop == mid0.in_prop,
                self.in_match == mid0.in_match,
                self.snaps == mid0.snaps,
                self.nd_targets == mid0.nd_targets,
                self.me_targets == mid0.me_targets,
                self.anchors == mid0.anchors,
                v < nv,
                forall|x: int| 0 <= x < self.ncol() ==> #[trigger] self.size@[x] <= nv,
                nv == self.nv(),
                nv <= 0xFFFF_FFFF,
                self.color@ == col1,
                self.dom@ == dom1,
                self.avail@.len() == self.ncol(),
                self.size@.len() == self.ncol(),
                forall|x: int| #[trigger] bit(rest, x) ==> bit(was, x),
                forall|x: int| 0 <= x < self.ncol() ==> #[trigger] self.avail@[x] == open_count(col1, dom1, x, nv) + ind(bit(rest, x)),
                below(was, self.ncol() as int),
                !self.cfg.cardinality ==> card_ok,
            decreases rest,
        {
            let b = rest.trailing_zeros();
            proof {
                lemma_lowest_bit(rest);
                lemma_bit_cleared(rest, b as int);
                crate::bits::lemma_clear_smaller(rest, b);
                assert(bit(was, b as int));
                lemma_counts_bounds(col1, dom1, b as int, nv, v as int);
            }
            rest = rest & !(1u32 << b);
            self.avail.set(b as usize, self.avail[b as usize] - 1);
            if self.cfg.cardinality && self.size[b as usize] + self.avail[b as usize] < self.c.m {
                card_ok = false;
            }
        }
        // Rules D and E count v against the anchors as they stand before v
        // can become one.
        let ghost s0 = self.assign_stack@;
        let ghost an0 = self.anchors@;
        proof {
            assert forall|k: int, i: int| 0 <= k < self.ncol() && 0 <= i < an0[k]@.len() implies (#[trigger] an0[k]@[i]).idx != v by {
                let p = an0[k]@[i].spos@;
                assert(col0[s0[p].0 as int] == s0[p].2);
            }
            lemma_counts_update(col0, dom0, col1, dom1, 0, nv, v as int);
            lemma_counts_bounds(col1, dom1, 0, nv, v as int);
        }
        let mut de_ok = true;
        let mut de_rule = Rule::D;
        if self.cfg.anchors > 0 {
            let (ok1, r1) = rule_de_update(&mut self.anchors, &self.c, v, mask, c, &self.nd_targets, &self.me_targets, Ghost(s0));
            de_ok = ok1;
            de_rule = r1;
            proof {
                lemma_placed_shapes(self.c, an0, self.anchors@, s0);
            }
        } else {
            proof {
                lemma_no_anchors(self.c, self.anchors@, s0.push((v, mask, c)));
            }
        }
        proof {
            assert forall|k: int, i: int| 0 <= k < self.ncol() && 0 <= i < self.anchors@[k]@.len() implies (#[trigger] self.anchors@[k]@[i]).idx != v by {
                if self.cfg.anchors > 0 {
                    assert(self.anchors@[k]@[i].shape() == an0[k]@[i].shape());
                }
            }
            lemma_placed_push(self.c, self.anchors@, s0, (v, mask, c));
        }
        self.assign_stack.push((v, mask, c));
        proof {
            crate::bits::lemma_bits_zero();
            let e = (v, was);
            let t0 = pre.trail@;
            let t1 = self.trail@;
            let a0 = pre.assign_stack@;
            let a1 = self.assign_stack@;
            let ea = (v, mask, c);
            assert(t1 == t0.push(e));
            assert(a1 == a0.push(ea));
            assert(restore(dom1, e) =~= dom0);
            assert(unassign(col1, ea) =~= col0);
            assert(cell_ok(col0[v as int], was, self.ncol()));
            assert forall|uu: int| 0 <= uu < nv implies cell_ok(#[trigger] self.color@[uu], self.dom@[uu], self.ncol()) by {
                assert(cell_ok(col0[uu], dom0[uu], self.ncol()));
                if uu == v {
                    assert forall|t: int| self.ncol() <= t < 32 implies !#[trigger] bit(cb, t) by {}
                }
            }
            assert forall|k: int| 0 <= k < self.ncol() implies #[trigger] self.size@[k] == class_count(self.color@, k, nv) by {
                assert(pre.size@[k] == class_count(col0, k, nv));
            }
            lemma_counts_update(col0, dom0, col1, dom1, 0, nv, v as int);
            assert(self.assigned == set_count(self.color@, nv));
            assert(closed_ok(self.closed, self.size@, self.c.m, self.ncol(), self.cfg.cardinality)) by {
                assert forall|t: int| 0 <= t < 32 implies #[trigger] bit(self.closed, t) == (self.cfg.cardinality && t < self.ncol() && self.size@[t] == self.c.m) by {
                    assert(bit(pre.closed, t) == (self.cfg.cardinality && t < self.ncol() && pre.size@[t] == self.c.m));
                }
            }
            assert(self.counters_ok());
            assert forall|i: int| 0 <= i < t1.len() implies (#[trigger] t1[i]).0 < nv && below(t1[i].1, self.ncol() as int) by {
                if i < t0.len() {
                    assert(t1[i] == t0[i]);
                }
            }
            assert forall|i: int| 0 <= i < a1.len() implies {
                &&& (#[trigger] a1[i]).0 < nv
                &&& names(self.c, a1[i].0 as int, a1[i].1)
                &&& self.color@[a1[i].0 as int] == a1[i].2
                &&& a1[i].2 < self.ncol()
            } by {
                if i < a0.len() {
                    assert(a1[i] == a0[i]);
                    assert(col0[a0[i].0 as int] == a0[i].2);
                    assert(a0[i].0 != v);
                }
            }
            assert forall|i: int, j: int| 0 <= i < j < a1.len() implies (#[trigger] a1[i]).0 != (#[trigger] a1[j]).0 by {
                if j < a0.len() {
                    assert(a1[i] == a0[i] && a1[j] == a0[j]);
                } else {
                    assert(a1[i] == a0[i]);
                    assert(col0[a0[i].0 as int] == a0[i].2);
                }
            }
            let s = self.snaps@;
            assert forall|i: int| 0 <= i < s.len() implies {
                &&& (#[trigger] s[i]).0 == rewind_colors(self.color@, a1.skip(self.assign_levels@[i] as int))
                &&& s[i].1 == rewind_doms(self.dom@, t1.skip(self.trail_levels@[i] as int))
            } by {
                let tl = self.trail_levels@[i] as int;
                let al = self.assign_levels@[i] as int;
                lemma_skip_push(t0, e, tl);
                lemma_rewind_doms_push(self.dom@, t0.skip(tl), e);
                lemma_skip_push(a0, ea, al);
                lemma_rewind_colors_push(self.color@, a0.skip(al), ea);
            }
            assert forall|i: int, j: int| 0 <= i < s.len() && self.trail_levels@[i] <= j < t1.len() implies
                (#[trigger] s[i]).0[(#[trigger] t1[j]).0 as int] == UNASSIGNED by {
                if j < t0.len() {
                    assert(t1[j] == t0[j]);
                } else {
                    let al = self.assign_levels@[i] as int;
                    lemma_rewind_colors_keeps(col0, a0.skip(al), v as int);
                }
            }
            assert forall|j: int| 0 <= j < t1.len() implies
                #[trigger] subset(rewind_doms(self.dom@, t1.skip(j + 1))[t1[j].0 as int], t1[j].1) by {
                if j < t0.len() {
                    assert(t1[j] == t0[j]);
                    lemma_skip_push(t0, e, j + 1);
                    lemma_rewind_doms_push(self.dom@, t0.skip(j + 1), e);
                    assert(subset(rewind_doms(dom0, t0.skip(j + 1))[t0[j].0 as int], t0[j].1));
                } else {
                    assert(t1.skip(j + 1) =~= Seq::<(u32, u32)>::empty());
                }
            }
            assert(self.stacks_ok());
            assert(self.cells_ok());
            assert(self.wf());
            // the measure drops by the weight v had
            lemma_pop_bound(cb, 0);
            assert(self.measure() < pre.measure());
            assert forall|uu: int| 0 <= uu < dom0.len() implies subset(#[trigger] self.dom@[uu], dom0[uu]) by {}
            assert(self.grows_from(&pre));
        }
        // A class that completes is held to the full N_j distribution
        // when asked; a failure means a completed class is not a Steiner
        // system, which the rest of the engine would have had to miss.
        // v may become an anchor of its class.
        let mut anchor_ok = true;
        let mut anchor_rule = Rule::D;
        if self.cfg.anchors > 0 && self.anchors[c as usize].len() < self.cfg.anchors
            && self.assign_stack.len() <= ANCHOR_INIT_SCAN_CAP {
            let ghost a0 = self.anchors@;
            let ghost st = self.assign_stack@;
            proof {
                lemma_counts_le(self.color@, self.dom@, 0, nv);
            }
            let (an, ok2, r2) = new_anchor(
                &self.c,
                &self.assign_stack,
                v,
                mask,
                c,
                &self.nd_targets,
                &self.me_targets,
                Ghost(self.assign_stack@.len() - 1),
            );
            self.anchors[c as usize].push(an);
            anchor_ok = ok2;
            anchor_rule = r2;
            proof {
                lemma_anchor_push(self.c, a0, self.anchors@, st, c as int, an);
                assert(self.wf());
            }
        }
        let mut class_verified = true;
        if self.cfg.verify_classes && self.size[c as usize] == self.c.m {
            if self.verify_class(c as usize).is_err() {
                class_verified = false;
            }
        }
        if !class_verified {
            self.conflict_rule = Rule::D;
            return false;
        }
        if !card_ok {
            self.conflict_rule = Rule::C;
            return false;
        }
        if !de_ok || !anchor_ok {
            self.conflict_rule = if !anchor_ok {
                anchor_rule
            } else {
                de_rule
            };
            return false;
        }
        // Rule A proper: strike c from every neighbour's domain.
        let masks = self.c.closed_nbhd_masks(mask);
        let ghost mid = *self;
        let ghost nb = Self::nbrs(self.c, mask);
        proof {
            assert(self.dom@ == dom1 && self.color@ == col1);
            assert(dom1 == dom0.update(v as int, cb) && col1 == col0.update(v as int, c));
            lemma_nbr_ranks(self.c, mask);
            assert forall|j: int| 0 <= j < nb.len() implies colex(#[trigger] nb[j]) != v by {
                assert(colex(nb[j]) != colex(mask));
            }
            assert forall|j: int| 0 <= j < nb.len() implies self.dom@[colex(#[trigger] nb[j]) as int] == pre.dom@[colex(nb[j]) as int]
                && self.color@[colex(nb[j]) as int] == pre.color@[colex(nb[j]) as int] by {
                assert(colex(nb[j]) != v);
                lemma_nbr_vertex(self.c, mask, j);
            }
        }
        let mut i: usize = 1;
        while i < masks.len()
            invariant
                pre == *old(self),
                old(self).color@[v as int] == UNASSIGNED,
                bit(old(self).dom@[v as int], c as int),
                self.wf(),
                self.frame(&mid),
                self.grows_from(&mid),
                self.measure() <= mid.measure(),
                mid.measure() < pre.measure(),
                mid.grows_from(&pre),
                mid.frame(&pre),
                pre == *old(self),
                v < pre.c.num_vertices,
                self.color@[v as int] == c,
                names(pre.c, v as int, mask),
                c < pre.c.colors,
                masks@ == seq![mask] + nb,
                nb == Self::nbrs(pre.c, mask),
                self.c == pre.c,
                1 <= i <= masks@.len(),
                self.match_queue@ == pre.match_queue@,
                self.in_match == pre.in_match,
                forall|j: int| 0 <= j < i - 1 ==> !bit(self.dom@[colex(#[trigger] nb[j]) as int], c as int),
                rule_a_only(pre.cfg) ==> forall|j: int| 0 <= j < i - 1 ==>
                    keeps_a_colour(pre.color@, pre.dom@, colex(#[trigger] nb[j]) as int, c),
                forall|j: int| i - 1 <= j < nb.len() ==> self.dom@[colex(#[trigger] nb[j]) as int] == pre.dom@[colex(nb[j]) as int]
                    && self.color@[colex(nb[j]) as int] == pre.color@[colex(nb[j]) as int],
                forall|j: int| 0 <= j < nb.len() ==> colex(#[trigger] nb[j]) != v,
                forall|j1: int, j2: int| 0 <= j1 < j2 < nb.len() ==> colex(#[trigger] nb[j1]) != colex(#[trigger] nb[j2]),
                self.cfg == pre.cfg,
            decreases masks@.len() - i,
        {
            let nm = masks[i];
            proof {
                assert(nm == nb[i - 1]);
                lemma_nbr_vertex(self.c, mask, i - 1);
            }
            let ni = self.c.rank(nm);
            let ghost before = *self;
            if !self.clear_color(ni, nm, c, Rule::A) {
                proof {
                    Self::lemma_grows_trans(&mid, &before, self);
                    Self::lemma_grows_trans(&pre, &mid, self);
                    assert(pre == *old(self));
                    assert(self.frame(&before));
                    assert(before.frame(&mid));
                    assert(self.frame(&pre));
                    if rule_a_only(pre.cfg) {
                        let u = colex(nb[i - 1]) as int;
                        assert(before.dom@[u] == pre.dom@[u] && before.color@[u] == pre.color@[u]);
                        lemma_no_closed(before.closed, before.size@, before.c.m, before.ncol());
                        assert(!keeps_a_colour(pre.color@, pre.dom@, u, c));
                        assert forall|cs: Seq<u8>| within_domains(cs, pre.dom@) && cs[v as int] == c implies
                            exists|j: int| 0 <= j < nb.len() && cs[colex(#[trigger] nb[j]) as int] == c by {
                            lemma_nbr_vertex(pre.c, mask, i - 1);
                            before.lemma_wf_facts();
                            assert(cell_ok(before.color@[u], before.dom@[u], before.ncol()));
                            assert(bit(pre.dom@[u], cs[u] as int));
                            lemma_forced_colour(pre.color@[u], pre.dom@[u], before.ncol(), c, cs[u]);
                            assert(cs[colex(nb[i - 1]) as int] == c);
                        }
                    }
                }
                return false;
            }
            proof {
                Self::lemma_grows_trans(&mid, &before, self);
                assert(before.color@[v as int] == c);
                assert(self.color@[v as int] == c);
                let u = colex(nb[i - 1]) as int;
                assert(before.dom@[u] == pre.dom@[u] && before.color@[u] == pre.color@[u]);
                if rule_a_only(pre.cfg) {
                    lemma_no_closed(before.closed, before.size@, before.c.m, before.ncol());
                    assert(keeps_a_colour(pre.color@, pre.dom@, u, c));
                }
                assert forall|j: int| i <= j < nb.len() implies self.dom@[colex(#[trigger] nb[j]) as int] == pre.dom@[colex(nb[j]) as int]
                    && self.color@[colex(nb[j]) as int] == pre.color@[colex(nb[j]) as int] by {
                    assert(colex(nb[j]) != colex(nb[i - 1]));
                    lemma_nbr_vertex(self.c, mask, j);
                    assert(before.dom@[colex(nb[j]) as int] == pre.dom@[colex(nb[j]) as int]);
                }
            }
            proof {
                assert forall|j: int| 0 <= j < i implies !bit(self.dom@[colex(#[trigger] nb[j]) as int], c as int) by {
                    if j < i - 1 {
                        let x = colex(nb[j]) as int;
                        lemma_nbr_vertex(self.c, mask, j);
                        assert(subset(self.dom@[x], before.dom@[x]));
                    }
                }
            }
            i += 1;
        }
        proof {
            Self::lemma_grows_trans(&pre, &mid, self);
        }
        self.enqueue_prop(v, mask);
        true
    }
}


/// The closed neighbourhood of a vertex, centre first: `k + 1` vertices.
pub proof fn lemma_closed_nbhd(c: Combi, center: u32)
    requires
        c.params_ok(),
        c.is_vertex(center),
    ensures
        (seq![center] + Engine::nbrs(c, center)).len() == c.colors,
        forall|i: int| 0 <= i < (seq![center] + Engine::nbrs(c, center)).len() ==> {
            &&& c.is_vertex(#[trigger] (seq![center] + Engine::nbrs(c, center))[i])
            &&& colex((seq![center] + Engine::nbrs(c, center))[i]) < c.num_vertices
        },
{
    let nb = Engine::nbrs(c, center);
    let all = seq![center] + nb;
    lemma_drop_each(c.full & !center, 0);
    lemma_low_mask(c.n);
    assert forall|t: int| #[trigger] bit(center, t) implies bit(c.full, t) by {
        if 0 <= t < 32 && t >= c.n {
            assert(!bit(center, t));
        }
    }
    lemma_pop_complement(c.full, center, 0);
    lemma_low_mask_pop(c.n, 0);
    crate::combi::law_rank_bijection(c, center, center);
    assert forall|i: int| 0 <= i < all.len() implies {
        &&& c.is_vertex(#[trigger] all[i])
        &&& colex(all[i]) < c.num_vertices
    } by {
        if i > 0 {
            assert(all[i] == nb[i - 1]);
            lemma_nbr_vertex(c, center, i - 1);
        }
    }
}

impl Engine {
    /// Everything but the forced-assignment and matching queues and the
    /// conflict attribution is as it was.
    pub closed spec fn same_core(&self, other: &Engine) -> bool {
        &&& self.c == other.c
        &&& self.cfg == other.cfg
        &&& self.color@ == other.color@
        &&& self.dom@ == other.dom@
        &&& self.trail@ == other.trail@
        &&& self.trail_levels@ == other.trail_levels@
        &&& self.assign_stack@ == other.assign_stack@
        &&& self.assign_levels@ == other.assign_levels@
        &&& self.assigned == other.assigned
        &&& self.size@ == other.size@
        &&& self.avail@ == other.avail@
        &&& self.closed == other.closed
        &&& self.prop_queue@ == other.prop_queue@
        &&& self.in_prop == other.in_prop
        &&& self.snaps == other.snaps
    }

    /// `|N[center]| = k+1` equals the number of colours, so every colour must
    /// occur exactly once. Counting how many members still permit each colour
    /// gives conflict at 0 and a forced assignment at 1.
    fn rule_b_center(&mut self, center: u32) -> (ok: bool)
        requires
            old(self).wf(),
            old(self).c.is_vertex(center),
        ensures
            final(self).wf(),
            final(self).same_core(old(self)),
            final(self).match_queue@ == old(self).match_queue@,
            final(self).in_match == old(self).in_match,
            ok == rule_b_ok(old(self).color@, old(self).dom@, old(self).closed, seq![center] + Self::nbrs(old(self).c, center), old(self).c.colors as nat),
            !ok ==> final(self).conflict_rule == Rule::B,
    {
        let ghost pre = *self;
        let masks = self.c.closed_nbhd_masks(center);
        proof {
            lemma_closed_nbhd(self.c, center);
            lemma_sizes(self.c);
        }
        let ncol = self.c.colors as usize;
        let mut permit = [0u8; 18];
        let mut only = [0u32; 18];
        let mut only_mask = [0u32; 18];
        let mut assigned_bits: u32 = 0;
        proof {
            crate::bits::lemma_bits_zero();
        }
        let mut i: usize = 0;
        while i < masks.len()
            invariant
                self.wf(),
                *self == pre,
                pre == *old(self),
                masks@ == seq![center] + Self::nbrs(self.c, center),
                masks@.len() == ncol,
                ncol == self.ncol(),
                ncol <= 17,
                i <= masks@.len(),
                forall|j: int| 0 <= j < masks@.len() ==> {
                    &&& self.c.is_vertex(#[trigger] masks@[j])
                    &&& colex(masks@[j]) < self.c.num_vertices
                },
                forall|b: int| 0 <= b < 18 ==> #[trigger] permit[b] <= i,
                forall|b: int| 0 <= b < 18 && permit[b] > 0 ==> #[trigger] only[b] < self.nv() && names(self.c, only[b] as int, only_mask[b]),
                forall|b: int| 0 <= b < 18 ==> ((#[trigger] permit[b] == 0) <==> forall|j: int| 0 <= j < i ==> !bit(#[trigger] eff_of(self.color@, self.dom@, self.closed, masks@, j), b)),
                forall|t: int| 0 <= t < 32 ==> (#[trigger] bit(assigned_bits, t) <==> exists|j: int| 0 <= j < i && #[trigger] col_of(self.color@, masks@, j) as int == t && col_of(self.color@, masks@, j) != UNASSIGNED),
                forall|j: int| 0 <= j < i ==> #[trigger] eff_of(self.color@, self.dom@, self.closed, masks@, j) != 0,
                forall|j1: int, j2: int| 0 <= j1 < j2 < i && #[trigger] col_of(self.color@, masks@, j1) != UNASSIGNED
                    ==> col_of(self.color@, masks@, j1) != #[trigger] col_of(self.color@, masks@, j2),
            decreases masks@.len() - i,
        {
            let mm = masks[i];
            let idx = self.c.rank(mm);
            let col = self.color[idx as usize];
            let d = if col == UNASSIGNED {
                self.dom[idx as usize] & !self.closed
            } else {
                1u32 << col as u32
            };
            proof {
                assert(idx == colex(masks@[i as int]));
                assert(d == eff_of(self.color@, self.dom@, self.closed, masks@, i as int));
                assert(col == col_of(self.color@, masks@, i as int));
            }
            if d == 0 {
                self.conflict_rule = Rule::B;
                return false;
            }
            let ghost ab0 = assigned_bits;
            if col != UNASSIGNED {
                let b = 1u32 << col as u32;
                proof {
                    assert(cell_ok(self.color@[idx as int], self.dom@[idx as int], self.ncol()));
                    lemma_single_bit(col as u32);
                    lemma_bits_logic(assigned_bits, b);
                    crate::bits::lemma_bits_zero();
                    if assigned_bits & b != 0 {
                        lemma_lowest_bit(assigned_bits & b);
                    } else {
                        assert(!bit(assigned_bits & b, col as int));
                    }
                }
                if assigned_bits & b != 0 {
                    // two assigned members share a colour; they need not be
                    // adjacent, so Rule A cannot see this
                    proof {
                        assert(bit(assigned_bits, col as int));
                        let j = choose|j: int| 0 <= j < i && #[trigger] col_of(self.color@, masks@, j) as int == col as int
                            && col_of(self.color@, masks@, j) != UNASSIGNED;
                        assert(col_of(self.color@, masks@, j) == col_of(self.color@, masks@, i as int));
                    }
                    self.conflict_rule = Rule::B;
                    return false;
                }
                assigned_bits = assigned_bits | b;
                proof {
                    crate::bits::lemma_bit_set(ab0, col as int);
                    assert(!bit(ab0, col as int));
                }
            }
            proof {
                assert forall|t: int| 0 <= t < 32 implies (#[trigger] bit(assigned_bits, t) <==> exists|j: int| 0 <= j < i + 1
                    && #[trigger] col_of(self.color@, masks@, j) as int == t && col_of(self.color@, masks@, j) != UNASSIGNED) by {
                    if bit(assigned_bits, t) && !bit(ab0, t) {
                        assert(col_of(self.color@, masks@, i as int) as int == t && col_of(self.color@, masks@, i as int) != UNASSIGNED);
                    }
                    if exists|j: int| 0 <= j < i + 1 && #[trigger] col_of(self.color@, masks@, j) as int == t && col_of(self.color@, masks@, j) != UNASSIGNED {
                        let j = choose|j: int| 0 <= j < i + 1 && #[trigger] col_of(self.color@, masks@, j) as int == t && col_of(self.color@, masks@, j) != UNASSIGNED;
                        if j < i {
                            assert(bit(ab0, t));
                        }
                    }
                }
                assert forall|j1: int, j2: int| 0 <= j1 < j2 < i + 1 && #[trigger] col_of(self.color@, masks@, j1) != UNASSIGNED
                    implies col_of(self.color@, masks@, j1) != #[trigger] col_of(self.color@, masks@, j2) by {
                    if j2 == i && col_of(self.color@, masks@, j1) == col_of(self.color@, masks@, j2) {
                        assert(bit(ab0, col_of(self.color@, masks@, j1) as int));
                    }
                }
            }
            proof {
                assert(cell_ok(self.color@[idx as int], self.dom@[idx as int], self.ncol()));
                lemma_bits_logic(self.dom@[idx as int], self.closed);
                if col != UNASSIGNED {
                    lemma_single_bit(col as u32);
                }
                assert(below(d, ncol as int));
            }
            let mut rest = d;
            while rest != 0
                invariant
                    *self == pre,
                    i < masks@.len(),
                    masks@.len() == ncol,
                    ncol <= 17,
                    below(rest, ncol as int),
                    idx < self.nv(),
                    names(self.c, idx as int, mm),
                    forall|b: int| 0 <= b < 18 ==> #[trigger] permit[b] <= i + 1,
                    forall|b: int| 0 <= b < 18 && bit(rest, b) ==> #[trigger] permit[b] <= i,
                    forall|b: int| 0 <= b < 18 && permit[b] > 0 ==> #[trigger] only[b] < self.nv() && names(self.c, only[b] as int, only_mask[b]),
                    d == eff_of(self.color@, self.dom@, self.closed, masks@, i as int),
                    forall|t: int| #[trigger] bit(rest, t) ==> bit(d, t),
                    forall|b: int| 0 <= b < 18 ==> ((#[trigger] permit[b] == 0) <==> ((forall|j: int| 0 <= j < i ==> !bit(#[trigger] eff_of(self.color@, self.dom@, self.closed, masks@, j), b))
                        && !(bit(d, b) && !bit(rest, b)))),
                decreases rest,
            {
                let b = rest.trailing_zeros();
                proof {
                    lemma_lowest_bit(rest);
                    lemma_bit_cleared(rest, b as int);
                    crate::bits::lemma_clear_smaller(rest, b);
                }
                let ghost r0 = rest;
                rest = rest & !(1u32 << b);
                let bu = b as usize;
                permit[bu] = permit[bu] + 1;
                only[bu] = idx;
                only_mask[bu] = mm;
                proof {
                    assert(bit(r0, b as int));
                    assert(b < 18) by {
                        if b >= ncol {
                            assert(!bit(r0, b as int));
                        }
                    }
                }
            }
            proof {
                crate::bits::lemma_bits_zero();
                assert forall|b: int| 0 <= b < 18 implies ((#[trigger] permit[b] == 0) <==> forall|j: int| 0 <= j < i + 1 ==> !bit(#[trigger] eff_of(self.color@, self.dom@, self.closed, masks@, j), b)) by {
                    assert(!bit(rest, b));
                    if permit[b] == 0 {
                        assert forall|j: int| 0 <= j < i + 1 implies !bit(#[trigger] eff_of(self.color@, self.dom@, self.closed, masks@, j), b) by {
                            if j == i {
                                assert(!bit(d, b));
                            }
                        }
                    } else {
                        if forall|j: int| 0 <= j < i + 1 ==> !bit(#[trigger] eff_of(self.color@, self.dom@, self.closed, masks@, j), b) {
                            assert(!bit(eff_of(self.color@, self.dom@, self.closed, masks@, i as int), b));
                        }
                    }
                }
            }
            i += 1;
        }
        let mut cc: usize = 0;
        while cc < ncol
            invariant
                self.wf(),
                self.same_core(&pre),
                pre == *old(self),
                self.match_queue@ == pre.match_queue@,
                self.in_match == pre.in_match,
                ncol == self.ncol(),
                ncol <= 17,
                cc <= ncol,
                forall|b: int| 0 <= b < 18 && permit[b] > 0 ==> #[trigger] only[b] < self.nv() && names(self.c, only[b] as int, only_mask[b]),
                masks@ == seq![center] + Self::nbrs(pre.c, center),
                masks@.len() == ncol,
                forall|b: int| 0 <= b < 18 ==> ((#[trigger] permit[b] == 0) <==> forall|j: int| 0 <= j < ncol ==> !bit(#[trigger] eff_of(pre.color@, pre.dom@, pre.closed, masks@, j), b)),
                forall|t: int| 0 <= t < 32 ==> (#[trigger] bit(assigned_bits, t) <==> exists|j: int| 0 <= j < ncol && #[trigger] col_of(pre.color@, masks@, j) as int == t && col_of(pre.color@, masks@, j) != UNASSIGNED),
                forall|j: int| 0 <= j < ncol ==> #[trigger] eff_of(pre.color@, pre.dom@, pre.closed, masks@, j) != 0,
                forall|j1: int, j2: int| 0 <= j1 < j2 < ncol && #[trigger] col_of(pre.color@, masks@, j1) != UNASSIGNED
                    ==> col_of(pre.color@, masks@, j1) != #[trigger] col_of(pre.color@, masks@, j2),
                forall|c2: int| 0 <= c2 < cc && !#[trigger] colour_used(pre.color@, masks@, ncol as nat, c2)
                    ==> colour_open(pre.color@, pre.dom@, pre.closed, masks@, ncol as nat, c2),
                self.conflict_rule == pre.conflict_rule,
            decreases ncol - cc,
        {
            proof {
                lemma_single_bit(cc as u32);
                lemma_bits_logic(assigned_bits, 1u32 << cc as u32);
                crate::bits::lemma_bits_zero();
                if assigned_bits & (1u32 << cc as u32) != 0 {
                    lemma_lowest_bit(assigned_bits & (1u32 << cc as u32));
                } else {
                    assert(!bit(assigned_bits & (1u32 << cc as u32), cc as int));
                }
                if !colour_used(pre.color@, masks@, ncol as nat, cc as int) {
                    if bit(assigned_bits, cc as int) {
                        let j = choose|j: int| 0 <= j < ncol && #[trigger] col_of(pre.color@, masks@, j) as int == cc as int && col_of(pre.color@, masks@, j) != UNASSIGNED;
                        assert(col_of(pre.color@, masks@, j) as int == cc as int);
                    }
                } else {
                    let j = choose|j: int| 0 <= j < ncol && #[trigger] col_of(pre.color@, masks@, j) as int == cc as int;
                    assert(col_of(pre.color@, masks@, j) != UNASSIGNED) by {
                        if col_of(pre.color@, masks@, j) == UNASSIGNED {
                            assert(cc < 17);
                        }
                    }
                    assert(bit(assigned_bits, cc as int));
                }
                if permit[cc as int] == 0 {
                    if colour_open(pre.color@, pre.dom@, pre.closed, masks@, ncol as nat, cc as int) {
                        let j = choose|j: int| 0 <= j < ncol && bit(#[trigger] eff_of(pre.color@, pre.dom@, pre.closed, masks@, j), cc as int);
                        assert(!bit(eff_of(pre.color@, pre.dom@, pre.closed, masks@, j), cc as int));
                    }
                }
                if permit[cc as int] != 0 {
                    assert(!(forall|j: int| 0 <= j < ncol ==> !bit(#[trigger] eff_of(pre.color@, pre.dom@, pre.closed, masks@, j), cc as int)));
                    let j = choose|j: int| !(0 <= j < ncol ==> !bit(#[trigger] eff_of(pre.color@, pre.dom@, pre.closed, masks@, j), cc as int));
                    assert(colour_open(pre.color@, pre.dom@, pre.closed, masks@, ncol as nat, cc as int));
                }
            }
            if assigned_bits & (1u32 << cc as u32) == 0 {
                if permit[cc] == 0 {
                    self.conflict_rule = Rule::B;
                    return false;
                }
                if permit[cc] == 1 {
                    self.force_queue.push_back((only[cc], only_mask[cc], cc as u8));
                }
            }
            cc += 1;
        }
        true
    }
}


impl Engine {
    /// Queue the centre `center_mask` for a matching pass unless it is
    /// queued already.
    fn enqueue_match(&mut self, center_mask: u32)
        requires
            old(self).wf(),
            old(self).c.is_vertex(center_mask),
        ensures
            final(self).wf(),
            final(self).same_core(old(self)),
            final(self).force_queue@ == old(self).force_queue@,
            final(self).match_queue@ == (if old(self).in_match.contains(colex(center_mask) as int) { old(self).match_queue@ } else {
                old(self).match_queue@.push((colex(center_mask) as u32, center_mask))
            }),
            forall|j: int| #[trigger] final(self).in_match.contains(j) == (old(self).in_match.contains(j) || j == colex(center_mask)),
    {
        proof {
            crate::combi::law_rank_bijection(self.c, center_mask, center_mask);
        }
        let ci = self.c.rank(center_mask);
        if self.in_match.test_and_set(ci as usize) {
            self.match_queue.push_back((ci, center_mask));
        }
    }

    /// Rule B at `v` and at each of its neighbours: `N[x]` for every `x` in
    /// `N[v]`.
    fn rule_b_vertex(&mut self, v: u32, vmask: u32) -> (ok: bool)
        requires
            old(self).wf(),
            names(old(self).c, v as int, vmask),
        ensures
            final(self).wf(),
            final(self).same_core(old(self)),
            ok == forall|j: int| 0 <= j < old(self).c.colors ==> #[trigger] rule_b_ok(old(self).color@, old(self).dom@, old(self).closed,
                seq![(seq![vmask] + Self::nbrs(old(self).c, vmask))[j]] + Self::nbrs(old(self).c, (seq![vmask] + Self::nbrs(old(self).c, vmask))[j]),
                old(self).c.colors as nat),
    {
        let ghost pre = *self;
        let matching = matches!(self.cfg.propagator, PropagatorMode::Matching);
        let first = self.rule_b_center(vmask);
        proof {
            let ms = seq![vmask] + Self::nbrs(pre.c, vmask);
            assert(ms[0] == vmask);
            lemma_closed_nbhd(pre.c, vmask);
            assert(first == rule_b_ok(pre.color@, pre.dom@, pre.closed, seq![ms[0]] + Self::nbrs(pre.c, ms[0]), pre.c.colors as nat));
        }
        if !first {
            return false;
        }
        if matching {
            self.enqueue_match(vmask);
        }
        let masks = self.c.closed_nbhd_masks(vmask);
        proof {
            lemma_closed_nbhd(self.c, vmask);
        }
        let mut i: usize = 1;
        while i < masks.len()
            invariant
                self.wf(),
                self.same_core(&pre),
                pre == *old(self),
                masks@ == seq![vmask] + Self::nbrs(self.c, vmask),
                forall|j: int| 0 <= j < masks@.len() ==> self.c.is_vertex(#[trigger] masks@[j]),
                1 <= i <= masks@.len(),
                masks@.len() == pre.c.colors,
                forall|j: int| 0 <= j < i ==> #[trigger] rule_b_ok(pre.color@, pre.dom@, pre.closed,
                    seq![masks@[j]] + Self::nbrs(pre.c, masks@[j]), pre.c.colors as nat),
            decreases masks@.len() - i,
        {
            let nm = masks[i];
            if !self.rule_b_center(nm) {
                proof {
                    assert(!rule_b_ok(pre.color@, pre.dom@, pre.closed, seq![masks@[i as int]] + Self::nbrs(pre.c, masks@[i as int]), pre.c.colors as nat));
                }
                return false;
            }
            if matching {
                self.enqueue_match(nm);
            }
            i += 1;
        }
        true
    }

    /// The colours the members of the closed neighbourhood of `center` may
    /// still take, centre first: an unassigned member's domain without the
    /// closed colours, an assigned member's own colour.
    pub closed spec fn centre_doms(&self, center: u32) -> Seq<u32> {
        let ms = seq![center] + Self::nbrs(self.c, center);
        Seq::new(ms.len(), |j: int| {
            let u = colex(ms[j]) as int;
            if self.color@[u] == UNASSIGNED {
                self.dom@[u] & !self.closed
            } else {
                1u32 << (self.color@[u] as u32)
            }
        })
    }

    /// The vertex of the `j`-th member of the closed neighbourhood of
    /// `center`, centre first.
    pub closed spec fn centre_member(&self, center: u32, j: int) -> int {
        colex((seq![center] + Self::nbrs(self.c, center))[j]) as int
    }

    /// The matching rule at one centre: drop every colour of a member that
    /// no perfect matching of members to colours uses. Without a perfect
    /// matching it fails, on the matching rule; when it succeeds, exactly the
    /// colours no perfect matching gives a member are gone from its domain.
    fn rule_matching_center(&mut self, center: u32) -> (ok: bool)
        requires
            old(self).wf(),
            old(self).c.is_vertex(center),
        ensures
            final(self).wf(),
            final(self).frame(old(self)),
            final(self).grows_from(old(self)),
            final(self).measure() <= old(self).measure(),
            final(self).measure() == old(self).measure() ==> final(self).same_core(old(self)),
            final(self).keeps_matches(old(self)),
            !matchable(old(self).centre_doms(center)) ==> !ok && final(self).rule() == Rule::Matching,
            ok ==> forall|j: int, t: int| 0 <= j < old(self).ncol() && #[trigger] bit(old(self).centre_doms(center)[j], t)
                && !supported(old(self).centre_doms(center), j, t)
                ==> !bit(final(self).doms()[old(self).centre_member(center, j)], t),
            ok ==> forall|j: int, t: int| 0 <= j < old(self).ncol() && #[trigger] supported(old(self).centre_doms(center), j, t)
                && bit(old(self).doms()[old(self).centre_member(center, j)], t)
                ==> bit(final(self).doms()[old(self).centre_member(center, j)], t),
    {
        let ghost pre = *self;
        let masks = self.c.closed_nbhd_masks(center);
        proof {
            lemma_closed_nbhd(self.c, center);
            lemma_sizes(self.c);
        }
        let ncol = self.c.colors as usize;
        let cnt = masks.len();
        let mut doms: Vec<u32> = Vec::new();
        let mut idxs: Vec<u32> = Vec::new();
        let mut i: usize = 0;
        while i < cnt
            invariant
                self.wf(),
                *self == pre,
                cnt == masks@.len(),
                cnt == ncol,
                ncol == self.ncol(),
                i <= cnt,
                masks@ == seq![center] + Self::nbrs(self.c, center),
                forall|j: int| 0 <= j < masks@.len() ==> {
                    &&& self.c.is_vertex(#[trigger] masks@[j])
                    &&& colex(masks@[j]) < self.c.num_vertices
                },
                doms@.len() == i,
                idxs@.len() == i,
                forall|j: int| 0 <= j < i ==> #[trigger] idxs@[j] == colex(masks@[j]),
                forall|j: int| 0 <= j < i ==> below(#[trigger] doms@[j], ncol as int),
                forall|j: int| 0 <= j < i ==> #[trigger] doms@[j] == pre.centre_doms(center)[j],
            decreases cnt - i,
        {
            let idx = self.c.rank(masks[i]);
            let col = self.color[idx as usize];
            let d = if col == UNASSIGNED {
                self.dom[idx as usize] & !self.closed
            } else {
                1u32 << col as u32
            };
            proof {
                assert(cell_ok(self.color@[idx as int], self.dom@[idx as int], self.ncol()));
                lemma_bits_logic(self.dom@[idx as int], self.closed);
                if col != UNASSIGNED {
                    lemma_single_bit(col as u32);
                }
            }
            idxs.push(idx);
            doms.push(d);
            i += 1;
        }
        let ghost cd = pre.centre_doms(center);
        proof {
            assert(doms@ =~= cd);
            lemma_nbr_ranks(self.c, center);
            assert forall|j1: int, j2: int| 0 <= j1 < j2 < cnt implies #[trigger] idxs@[j1] != #[trigger] idxs@[j2] by {
                let nb = Self::nbrs(self.c, center);
                if j1 == 0 {
                    assert(masks@[j2] == nb[j2 - 1]);
                    assert(masks@[0] == center);
                } else {
                    assert(masks@[j1] == nb[j1 - 1] && masks@[j2] == nb[j2 - 1]);
                }
            }
            assert forall|j: int| 0 <= j < cnt implies #[trigger] idxs@[j] as int == pre.centre_member(center, j) by {}
        }
        let mut keep: Vec<u32> = vec![0u32; cnt];
        let ok = crate::solver::matching::filter(doms.as_slice(), ncol, keep.as_mut_slice());
        if !ok {
            self.conflict_rule = Rule::Matching;
            return false;
        }
        let mut i: usize = 0;
        while i < cnt
            invariant
                self.wf(),
                self.frame(&pre),
                self.grows_from(&pre),
                self.measure() <= pre.measure(),
                self.measure() == pre.measure() ==> self.same_core(&pre),
                self.keeps_matches(&pre),
                pre == *old(self),
                cnt == masks@.len(),
                cnt == ncol,
                ncol == self.ncol(),
                doms@.len() == cnt,
                idxs@.len() == cnt,
                keep@.len() == cnt,
                masks@ == seq![center] + Self::nbrs(self.c, center),
                forall|j: int| 0 <= j < masks@.len() ==> {
                    &&& self.c.is_vertex(#[trigger] masks@[j])
                    &&& colex(masks@[j]) < self.c.num_vertices
                },
                forall|j: int| 0 <= j < cnt ==> #[trigger] idxs@[j] == colex(masks@[j]),
                forall|j: int| 0 <= j < cnt ==> below(#[trigger] doms@[j], ncol as int),
                doms@ == cd,
                cd == pre.centre_doms(center),
                matchable(cd),
                forall|j: int, t: int| 0 <= j < cnt && #[trigger] bit(keep@[j], t) ==> supported(cd, j, t),
                forall|j: int, t: int| 0 <= j < cnt && #[trigger] supported(cd, j, t) ==> bit(keep@[j], t),
                forall|j1: int, j2: int| 0 <= j1 < j2 < cnt ==> #[trigger] idxs@[j1] != #[trigger] idxs@[j2],
                forall|j: int| 0 <= j < cnt ==> #[trigger] idxs@[j] as int == pre.centre_member(center, j),
                forall|j: int, t: int| 0 <= j < i && #[trigger] bit(cd[j], t) && !supported(cd, j, t)
                    ==> !bit(self.dom@[idxs@[j] as int], t),
                forall|j: int, t: int| 0 <= j < cnt && #[trigger] supported(cd, j, t) && bit(pre.dom@[idxs@[j] as int], t)
                    ==> bit(self.dom@[idxs@[j] as int], t),
            decreases cnt - i,
        {
            let removed = doms[i] & !keep[i];
            proof {
                lemma_bits_logic(doms@[i as int], keep@[i as int]);
            }
            let ghost start_i = *self;
            let mut rest = removed;
            while rest != 0
                invariant
                    self.wf(),
                    self.frame(&pre),
                    self.grows_from(&pre),
                    self.measure() <= pre.measure(),
                    self.measure() == pre.measure() ==> self.same_core(&pre),
                    self.keeps_matches(&pre),
                    pre == *old(self),
                    i < cnt,
                    cnt == ncol,
                    idxs@.len() == cnt,
                    masks@.len() == cnt,
                    ncol == self.ncol(),
                    below(rest, ncol as int),
                    idxs@[i as int] < self.nv(),
                    names(self.c, idxs@[i as int] as int, masks@[i as int]),
                    doms@ == cd,
                    forall|j: int, t: int| 0 <= j < cnt && #[trigger] bit(keep@[j], t) ==> supported(cd, j, t),
                    forall|j: int, t: int| 0 <= j < cnt && #[trigger] supported(cd, j, t) ==> bit(keep@[j], t),
                    forall|j1: int, j2: int| 0 <= j1 < j2 < cnt ==> #[trigger] idxs@[j1] != #[trigger] idxs@[j2],
                    forall|t: int| #[trigger] bit(rest, t) ==> bit(removed, t),
                    forall|t: int| #[trigger] bit(removed, t) == (bit(cd[i as int], t) && !bit(keep@[i as int], t)),
                    self.grows_from(&start_i),
                    start_i.dom@.len() == pre.dom@.len(),
                    matchable(cd),
                    cd == pre.centre_doms(center),
                    forall|j: int| 0 <= j < cnt ==> #[trigger] idxs@[j] == colex(masks@[j]),
                    forall|j: int| 0 <= j < masks@.len() ==> colex(#[trigger] masks@[j]) < self.c.num_vertices,
                    forall|j: int, t: int| 0 <= j < i && #[trigger] bit(cd[j], t) && !supported(cd, j, t)
                        ==> !bit(start_i.dom@[idxs@[j] as int], t),
                    forall|t: int| #[trigger] bit(removed, t) && !bit(rest, t) ==> !bit(self.dom@[idxs@[i as int] as int], t),
                    forall|j: int, t: int| 0 <= j < cnt && #[trigger] supported(cd, j, t) && bit(pre.dom@[idxs@[j] as int], t)
                        ==> bit(self.dom@[idxs@[j] as int], t),
                decreases rest,
            {
                let b = rest.trailing_zeros();
                proof {
                    lemma_lowest_bit(rest);
                    lemma_bit_cleared(rest, b as int);
                    crate::bits::lemma_clear_smaller(rest, b);
                }
                let ghost rest0 = rest;
                rest = rest & !(1u32 << b);
                let ghost before = *self;
                if !self.clear_color(idxs[i], masks[i], b as u8, Rule::Matching) {
                    proof {
                        Self::lemma_grows_trans(&pre, &before, self);
                    }
                    return false;
                }
                proof {
                    Self::lemma_grows_trans(&pre, &before, self);
                    Self::lemma_grows_trans(&start_i, &before, self);
                    let u = idxs@[i as int] as int;
                    assert(bit(removed, b as int));
                    assert(!supported(cd, i as int, b as int));
                    lemma_bit_cleared(before.dom@[u], b as int);
                    assert((1u32 << (b as u8)) == (1u32 << b)) by (bit_vector)
                        requires
                            b < 32,
                    ;
                    if bit(before.dom@[u], b as int) {
                        assert(before.color@[u] == UNASSIGNED);
                        assert(self.dom@ == before.dom@.update(u, before.dom@[u] & !(1u32 << b)));
                    } else {
                        assert(self.dom@ == before.dom@);
                    }
                    assert forall|t: int| #[trigger] bit(removed, t) && !bit(rest, t) implies !bit(self.dom@[idxs@[i as int] as int], t) by {
                        if t != b {
                            assert(!bit(rest0, t));
                            assert(!bit(before.dom@[u], t));
                            assert(subset(self.dom@[u], before.dom@[u]));
                        }
                    }
                    assert forall|j: int, t: int| 0 <= j < cnt && #[trigger] supported(cd, j, t) && bit(pre.dom@[idxs@[j] as int], t)
                        implies bit(self.dom@[idxs@[j] as int], t) by {
                        let x = idxs@[j] as int;
                        assert(bit(before.dom@[x], t));
                        assert(x < before.dom@.len());
                        if x == u {
                            if j != i {
                                if j < i {
                                    assert(idxs@[j] != idxs@[i as int]);
                                } else {
                                    assert(idxs@[i as int] != idxs@[j]);
                                }
                            }
                            assert(t != b);
                        }
                    }
                }
            }
            proof {
                crate::bits::lemma_bits_zero();
                assert forall|j: int, t: int| 0 <= j < i + 1 && #[trigger] bit(cd[j], t) && !supported(cd, j, t)
                    implies !bit(self.dom@[idxs@[j] as int], t) by {
                    if j < i {
                        assert(!bit(start_i.dom@[idxs@[j] as int], t));
                        assert(subset(self.dom@[idxs@[j] as int], start_i.dom@[idxs@[j] as int]));
                    } else {
                        assert(!bit(keep@[j], t));
                        assert(bit(removed, t));
                    }
                }
            }
            i += 1;
        }
        true
    }

    /// Drop every pending queue entry.
    fn clear_queues(&mut self)
        requires
            old(self).wf(),
        ensures
            final(self).wf(),
            final(self).frame(old(self)),
            final(self).color@ == old(self).color@,
            final(self).dom@ == old(self).dom@,
            final(self).prop_queue@.len() == 0,
            final(self).match_queue@.len() == 0,
            final(self).force_queue@.len() == 0,
    {
        let ghost pre = *self;
        loop
            invariant
                self.wf(),
                self.frame(&pre),
                self.color@ == pre.color@,
                self.dom@ == pre.dom@,
            ensures
                self.wf(),
                self.frame(&pre),
                self.color@ == pre.color@,
                self.dom@ == pre.dom@,
                self.prop_queue@.len() == 0,
            decreases self.prop_queue@.len(),
        {
            match self.prop_queue.pop_front() {
                Some((v, _)) => {
                    self.in_prop.clear(v as usize);
                },
                None => break,
            }
        }
        loop
            invariant
                self.wf(),
                self.frame(&pre),
                self.color@ == pre.color@,
                self.dom@ == pre.dom@,
                self.prop_queue@.len() == 0,
            ensures
                self.wf(),
                self.frame(&pre),
                self.color@ == pre.color@,
                self.dom@ == pre.dom@,
                self.prop_queue@.len() == 0,
                self.match_queue@.len() == 0,
            decreases self.match_queue@.len(),
        {
            match self.match_queue.pop_front() {
                Some((v, _)) => {
                    self.in_match.clear(v as usize);
                },
                None => break,
            }
        }
        self.force_queue.clear();
    }

    /// Queue the assignment of colour `c` to `v`.
    pub fn enqueue_assignment(&mut self, v: u32, mask: u32, c: u8)
        requires
            old(self).wf(),
            v < old(self).nv(),
            names(old(self).combi(), v as int, mask),
            c < old(self).ncol(),
        ensures
            final(self).wf(),
            final(self).frame(old(self)),
            final(self).cols() == old(self).cols(),
            final(self).doms() == old(self).doms(),
            final(self).combi() == old(self).combi(),
            final(self).config() == old(self).config(),
            final(self).levels() == old(self).levels(),
            final(self).forced() == old(self).forced().push((v, mask, c)),
    {
        self.force_queue.push_back((v, mask, c));
    }

    /// Run every queued rule to a fixpoint. Returns `false` on a conflict,
    /// with its rule in `conflict_rule` and the queues emptied.
    pub fn propagate(&mut self) -> (ok: bool)
        requires
            old(self).wf(),
        ensures
            final(self).wf(),
            final(self).frame(old(self)),
            final(self).grows_from(old(self)),
            final(self).combi() == old(self).combi(),
            final(self).config() == old(self).config(),
            final(self).levels() == old(self).levels(),
            final(self).idle(),
    {
        let ghost pre = *self;
        loop
            invariant
                self.wf(),
                self.frame(&pre),
                self.grows_from(&pre),
                pre == *old(self),
            decreases self.measure(), self.prop_len(), self.match_len(), self.force_len(),
        {
            let ghost before = *self;
            if let Some((v, mask, c)) = self.force_queue.pop_front() {
                proof {
                    assert(before.force_queue@[0] == (v, mask, c));
                }
                let ghost popped = *self;
                if !self.assign(v, mask, c) {
                    proof {
                        Self::lemma_grows_trans(&pre, &popped, self);
                    }
                    self.clear_queues();
                    proof {
                        Self::lemma_grows_trans(&pre, &popped, self);
                    }
                    return false;
                }
                proof {
                    Self::lemma_grows_trans(&pre, &popped, self);
                }
                continue;
            }
            if let Some((v, mask)) = self.prop_queue.pop_front() {
                proof {
                    assert(before.prop_queue@[0] == (v, mask));
                }
                self.in_prop.clear(v as usize);
                if !self.rule_b_vertex(v, mask) {
                    self.clear_queues();
                    return false;
                }
                continue;
            }
            // Counting has reached a fixpoint. Only now pay for the
            // matching rule.
            if let Some((ci, mask)) = self.match_queue.pop_front() {
                proof {
                    assert(before.match_queue@[0] == (ci, mask));
                }
                self.in_match.clear(ci as usize);
                let ghost popped = *self;
                if !self.rule_matching_center(mask) {
                    proof {
                        Self::lemma_grows_trans(&pre, &popped, self);
                    }
                    self.clear_queues();
                    proof {
                        Self::lemma_grows_trans(&pre, &popped, self);
                    }
                    return false;
                }
                proof {
                    Self::lemma_grows_trans(&pre, &popped, self);
                }
                continue;
            }
            // Fixpoint. The Rule D reachability direction is the one check
            // that needs a settled state; it gates itself on how full a
            // class is.
            if self.cfg.anchor_reach && self.cfg.anchors > 0 {
                let ncol = self.c.colors as usize;
                let mut cls: usize = 0;
                while cls < ncol
                    invariant
                        self.wf(),
                        self.frame(&pre),
                        self.grows_from(&pre),
                        pre == *old(self),
                        ncol == self.ncol(),
                        cls <= ncol,
                        self.idle(),
                    decreases ncol - cls,
                {
                    let ghost before = *self;
                    if !self.anchor_reach_check(cls) {
                        self.clear_queues();
                        return false;
                    }
                    cls += 1;
                }
            }
            return true;
        }
    }
}


/// Striking colour `c` leaves vertex `u` a colour: `c` is not in its domain,
/// or `u` is unassigned and has another colour left.
pub open spec fn keeps_a_colour(col: Seq<u8>, dom: Seq<u32>, u: int, c: u8) -> bool {
    bit(dom[u], c as int) ==> col[u] == UNASSIGNED && dom[u] & !(1u32 << c) != 0
}

/// Every vertex takes a colour of its domain.
pub open spec fn within_domains(cs: Seq<u8>, dom: Seq<u32>) -> bool {
    &&& cs.len() == dom.len()
    &&& forall|w: int| 0 <= w < dom.len() ==> bit(#[trigger] dom[w], cs[w] as int)
}

/// A vertex that would be left no colour but `c` takes `c` in a colouring
/// within the domains.
proof fn lemma_forced_colour(col: u8, d: u32, ncol: nat, c: u8, x: u8)
    requires
        cell_ok(col, d, ncol),
        ncol <= 32,
        c < 32,
        bit(d, c as int),
        col != UNASSIGNED || d & !(1u32 << c) == 0,
        bit(d, x as int),
    ensures
        x == c,
{
    assert((1u32 << c) == (1u32 << (c as u32))) by (bit_vector);
    lemma_single_bit(c as u32);
    lemma_bits_logic(d, 1u32 << (c as u32));
    crate::bits::lemma_bits_zero();
    if col != UNASSIGNED {
        lemma_single_bit(col as u32);
    } else {
        assert(!bit(d & !(1u32 << (c as u32)), x as int));
    }
}

/// Only Rule A is in force: no cardinality rule, no anchors for Rules D
/// and E, no check of completed classes.
pub open spec fn rule_a_only(cfg: Config) -> bool {
    !cfg.cardinality && cfg.anchors == 0 && !cfg.verify_classes
}

/// The neighbours of a vertex have pairwise different ranks, all different
/// from the vertex's own.
proof fn lemma_nbr_ranks(c: Combi, mask: u32)
    requires
        c.params_ok(),
        c.is_vertex(mask),
    ensures
        forall|j: int| 0 <= j < drop_each_from(c.full & !mask, 0).len() ==>
            colex(#[trigger] drop_each_from(c.full & !mask, 0)[j]) != colex(mask),
        forall|j1: int, j2: int| 0 <= j1 < j2 < drop_each_from(c.full & !mask, 0).len() ==>
            colex(#[trigger] drop_each_from(c.full & !mask, 0)[j1]) != colex(#[trigger] drop_each_from(c.full & !mask, 0)[j2]),
{
    let x = c.full & !mask;
    let nb = drop_each_from(x, 0);
    crate::bits::lemma_drops_distinct(x, 0);
    lemma_bits_logic(c.full, mask);
    assert forall|j: int| 0 <= j < nb.len() implies colex(#[trigger] nb[j]) != colex(mask) by {
        lemma_nbr_vertex(c, mask, j);
        crate::combi::law_rank_bijection(c, nb[j], mask);
        if nb[j] == mask {
            let q = choose|q: int| 0 <= q < 32 && bit(x, q) && #[trigger] nb[j] == x & !(1u32 << (q as u32));
            lemma_bit_cleared(x, q);
            assert forall|t: int| !#[trigger] bit(mask, t) by {
                if bit(mask, t) {
                    assert(bit(nb[j], t));
                }
            }
            lemma_zero_pop(mask, 0);
        }
    }
    assert forall|j1: int, j2: int| 0 <= j1 < j2 < nb.len() implies
        colex(#[trigger] nb[j1]) != colex(#[trigger] nb[j2]) by {
        lemma_nbr_vertex(c, mask, j1);
        lemma_nbr_vertex(c, mask, j2);
        crate::combi::law_rank_bijection(c, nb[j1], nb[j2]);
    }
}

proof fn lemma_zero_pop(x: u32, i: int)
    requires
        0 <= i <= 32,
        forall|t: int| !#[trigger] bit(x, t),
    ensures
        pop_from(x, i) == 0,
    decreases 32 - i,
{
    if i < 32 {
        lemma_zero_pop(x, i + 1);
    }
}

/// Without the cardinality rule no colour is ever closed.
proof fn lemma_no_closed(closed: u32, size: Seq<u64>, m: u64, ncol: nat)
    requires
        closed_ok(closed, size, m, ncol, false),
    ensures
        closed == 0,
        forall|d: u32| d & !closed == d,
{
    crate::bits::lemma_bits_zero();
    crate::bits::lemma_bits_ext(closed, 0u32);
    assert forall|d: u32| d & !closed == d by {
        assert(d & !0u32 == d) by (bit_vector);
    }
}

/// An unassigned vertex that has been narrowed but is not yet forced.
pub open spec fn narrowed(col: u8, d: u32, ncol: nat) -> bool {
    col == UNASSIGNED && 1 <= popcount(d) < ncol
}

/// `(pa, a)` comes first by domain size, then by index.
pub open spec fn before_or_at(pa: nat, a: int, pb: nat, b: int) -> bool {
    pa < pb || (pa == pb && a <= b)
}

/// The minimum-remaining-values choice: the narrowed vertex with the
/// smallest domain and then the lowest index; where no vertex is narrowed,
/// the unassigned vertex with the smallest domain and the lowest index.
pub open spec fn mrv_choice(col: Seq<u8>, dom: Seq<u32>, ncol: nat, nv: nat, v: int) -> bool {
    &&& 0 <= v < nv
    &&& col[v] == UNASSIGNED
    &&& if exists|u: int| 0 <= u < nv && #[trigger] narrowed(col[u], dom[u], ncol) {
        &&& narrowed(col[v], dom[v], ncol)
        &&& forall|u: int| 0 <= u < nv && #[trigger] narrowed(col[u], dom[u], ncol) ==>
            before_or_at(popcount(dom[v]), v, popcount(dom[u]), u)
    } else {
        forall|u: int| 0 <= u < nv && #[trigger] col[u] == UNASSIGNED ==>
            before_or_at(popcount(dom[v]), v, popcount(dom[u]), u)
    }
}

impl Engine {
    /// Minimum-remaining-values selection, ties broken by lowest vertex
    /// index: `None` once every vertex is assigned.
    pub fn select_mrv(&self) -> (r: Option<(u32, u32)>)
        requires
            self.wf(),
        ensures
            match r {
                None => forall|u: int| 0 <= u < self.nv() ==> #[trigger] self.cols()[u] != UNASSIGNED,
                Some((v, mask)) => {
                    &&& mrv_choice(self.cols(), self.doms(), self.ncol(), self.nv(), v as int)
                    &&& names(self.combi(), v as int, mask)
                },
            },
    {
        proof {
            lemma_sizes(self.c);
        }
        let nv = self.c.num_vertices as usize;
        let ncol = self.c.colors;
        let mut best1: Option<(u32, u32)> = None;
        let mut best_all: Option<(u32, u32)> = None;
        let mut v: usize = 0;
        let ghost col = self.color@;
        let ghost dom = self.dom@;
        while v < nv
            invariant
                self.wf(),
                nv == self.nv(),
                ncol == self.ncol(),
                col == self.color@,
                dom == self.dom@,
                nv <= 0xFFFF_FFFF,
                v <= nv,
                match best1 {
                    None => forall|u: int| 0 <= u < v ==> !#[trigger] narrowed(col[u], dom[u], ncol as nat),
                    Some((p, w)) => {
                        &&& w < v
                        &&& narrowed(col[w as int], dom[w as int], ncol as nat)
                        &&& p == popcount(dom[w as int])
                        &&& forall|u: int| 0 <= u < v && #[trigger] narrowed(col[u], dom[u], ncol as nat) ==>
                            before_or_at(p as nat, w as int, popcount(dom[u]), u)
                    },
                },
                match best_all {
                    None => forall|u: int| 0 <= u < v ==> #[trigger] col[u] != UNASSIGNED,
                    Some((p, w)) => {
                        &&& w < v
                        &&& col[w as int] == UNASSIGNED
                        &&& p == popcount(dom[w as int])
                        &&& forall|u: int| 0 <= u < v && #[trigger] col[u] == UNASSIGNED ==>
                            before_or_at(p as nat, w as int, popcount(dom[u]), u)
                    },
                },
            decreases nv - v,
        {
            if self.color[v] == UNASSIGNED {
                let p = count_ones32(self.dom[v]);
                if 1 <= p && p < ncol {
                    match best1 {
                        None => {
                            best1 = Some((p, v as u32));
                        },
                        Some((bp, _)) => {
                            if p < bp {
                                best1 = Some((p, v as u32));
                            }
                        },
                    }
                }
                match best_all {
                    None => {
                        best_all = Some((p, v as u32));
                    },
                    Some((bp, _)) => {
                        if p < bp {
                            best_all = Some((p, v as u32));
                        }
                    },
                }
            }
            v += 1;
        }
        let pick = match best1 {
            Some((_, w)) => Some(w),
            None => match best_all {
                Some((_, w)) => Some(w),
                None => None,
            },
        };
        match pick {
            Some(w) => {
                let mask = self.c.unrank(w);
                Some((w, mask))
            },
            None => None,
        }
    }

    /// A copy of every vertex's colour.
    pub fn colors_snapshot(&self) -> (cs: Vec<u8>)
        requires
            self.wf(),
        ensures
            cs@ == self.cols(),
    {
        let mut cs: Vec<u8> = Vec::new();
        let mut i: usize = 0;
        while i < self.color.len()
            invariant
                i <= self.color@.len(),
                cs@ == self.color@.take(i as int),
            decreases self.color@.len() - i,
        {
            cs.push(self.color[i]);
            i += 1;
            proof {
                assert(cs@ =~= self.color@.take(i as int));
            }
        }
        proof {
            assert(self.color@.take(i as int) =~= self.color@);
        }
        cs
    }
}


impl Engine {
    pub fn combi_ref(&self) -> (c: &Combi)
        ensures
            *c == self.combi(),
    {
        &self.c
    }

    pub fn config_ref(&self) -> (c: &Config)
        ensures
            *c == self.config(),
    {
        &self.cfg
    }

    /// How many vertices are assigned.
    pub fn assigned_count(&self) -> (n: u64)
        ensures
            n == self.num_assigned(),
    {
        self.assigned
    }

    /// The colour of `v`, or `UNASSIGNED`.
    pub fn color_of(&self, v: u32) -> (c: u8)
        requires
            self.wf(),
            v < self.nv(),
        ensures
            c == self.cols()[v as int],
    {
        self.color[v as usize]
    }

    /// The rule blamed for the latest conflict.
    pub fn last_rule(&self) -> (r: Rule)
        ensures
            r == self.rule(),
    {
        self.conflict_rule
    }

    /// Blame a conflict found outside the propagators, such as a link
    /// region that is fully coloured but not a large set, on rule `r`.
    pub fn blame(&mut self, r: Rule)
        requires
            old(self).wf(),
        ensures
            final(self).wf(),
            final(self).same_but_rule(old(self)),
            final(self).cols() == old(self).cols(),
            final(self).doms() == old(self).doms(),
            final(self).levels() == old(self).levels(),
            final(self).combi() == old(self).combi(),
            final(self).config() == old(self).config(),
            final(self).num_assigned() == old(self).num_assigned(),
            final(self).closed_set() == old(self).closed_set(),
            final(self).rule() == r,
    {
        self.conflict_rule = r;
    }

    /// What the invariant says of the sizes.
    pub proof fn lemma_wf_facts(&self)
        requires
            self.wf(),
        ensures
            self.combi().wf(),
            self.cols().len() == self.nv(),
            self.doms().len() == self.nv(),
            self.nv() <= 0xFFFF_FFFF,
            self.ncol() <= 17,
            self.nv() >= self.ncol(),
            self.ncol() == self.combi().k + 1,
            self.num_assigned() <= self.nv(),
            forall|u: int| 0 <= u < self.nv() ==> cell_ok(#[trigger] self.cols()[u], self.doms()[u], self.ncol()),
    {
        lemma_sizes(self.c);
        lemma_counts_le(self.color@, self.dom@, 0, self.nv());
    }

    /// When the counter says every vertex is assigned, every vertex is.
    pub proof fn lemma_all_assigned(&self)
        requires
            self.wf(),
            self.num_assigned() == self.nv(),
        ensures
            forall|u: int| 0 <= u < self.nv() ==> #[trigger] self.cols()[u] != UNASSIGNED,
    {
        assert forall|u: int| 0 <= u < self.nv() implies #[trigger] self.cols()[u] != UNASSIGNED by {
            lemma_set_full(self.color@, self.nv(), u);
        }
    }
}

proof fn lemma_set_full(col: Seq<u8>, n: nat, u: int)
    requires
        set_count(col, n) == n,
        0 <= u < n,
    ensures
        col[u] != UNASSIGNED,
    decreases n,
{
    let m = (n - 1) as nat;
    lemma_counts_le(col, Seq::empty(), 0, m);
    if u < m {
        assert(set_count(col, m) == m);
        lemma_set_full(col, m, u);
    }
}


// ---------------------------------------------------------------------------
// Class verification
// ---------------------------------------------------------------------------

/// The vertex of index `v`.
pub open spec fn vertex_of(c: Combi, v: int) -> u32 {
    choose|m: u32| names(c, v, m)
}

/// The vertices of class `cls` among the first `n`, in index order.
pub open spec fn class_members(c: Combi, col: Seq<u8>, cls: int, n: nat) -> Seq<u32>
    decreases n,
{
    if n == 0 {
        Seq::empty()
    } else {
        class_members(c, col, cls, (n - 1) as nat) + if col[n - 1] as int == cls {
            seq![vertex_of(c, n - 1)]
        } else {
            Seq::empty()
        }
    }
}

/// A class passes the structural check: it has `m` blocks, and for every
/// block and every `a <= k-2`, the other blocks meeting it in `a` or in
/// `k-2-a` points number `N_{a+1}` together.
pub open spec fn class_passes(k: u32, m: u64, bs: Seq<u32>) -> bool {
    &&& bs.len() == m
    &&& forall|i: int, a: int| 0 <= i < bs.len() && 0 <= a < k - 1 ==>
        #[trigger] crate::check::meet_count(bs, i, a as nat, bs.len()) + crate::check::meet_count(bs, i, (k - 2 - a) as nat, bs.len())
            == d_target(k, a)
}

/// No set bits from `i` on.
proof fn lemma_pop_zero_bits(x: u32, i: int)
    requires
        0 <= i <= 32,
        pop_from(x, i) == 0,
    ensures
        forall|t: int| i <= t < 32 ==> !#[trigger] bit(x, t),
    decreases 32 - i,
{
    if i < 32 {
        lemma_pop_zero_bits(x, i + 1);
    }
}

/// Two different blocks of one size meet in fewer points than that size.
pub proof fn lemma_distinct_meet(x: u32, y: u32)
    requires
        popcount(x) == popcount(y),
        x != y,
    ensures
        popcount(x & y) < popcount(x),
{
    lemma_bits_logic(x, y);
    let z = x & y;
    assert forall|t: int| #[trigger] bit(z, t) implies bit(x, t) by {}
    assert forall|t: int| #[trigger] bit(z, t) implies bit(y, t) by {}
    lemma_pop_complement(x, z, 0);
    lemma_pop_complement(y, z, 0);
    if popcount(z) >= popcount(x) {
        lemma_pop_zero_bits(x & !z, 0);
        lemma_pop_zero_bits(y & !z, 0);
        lemma_bits_logic(x, z);
        lemma_bits_logic(y, z);
        assert forall|t: int| 0 <= t < 32 implies #[trigger] bit(x, t) == bit(y, t) by {
            assert(!bit(x & !z, t));
            assert(!bit(y & !z, t));
        }
        crate::bits::lemma_bits_ext(x, y);
    }
}

impl Engine {
    /// Full structural verification of a class against the exact `N_j`
    /// distribution.
    pub fn verify_class(&self, cls: usize) -> (r: Result<(), String>)
        requires
            self.wf(),
        ensures
            r is Ok <==> class_passes(self.combi().k, self.combi().m, class_members(self.combi(), self.cols(), cls as int, self.nv())),
    {
        proof {
            lemma_sizes(self.c);
        }
        let nv = self.c.num_vertices as usize;
        let k = self.c.k;
        let mut members: Vec<u32> = Vec::new();
        let mut v: usize = 0;
        while v < nv
            invariant
                self.wf(),
                nv == self.nv(),
                nv <= 0xFFFF_FFFF,
                v <= nv,
                members@ == class_members(self.c, self.color@, cls as int, v as nat),
                forall|i: int| 0 <= i < members@.len() ==> self.c.is_vertex(#[trigger] members@[i]) && colex(members@[i]) < v,
                forall|i: int, j: int| 0 <= i < j < members@.len() ==> colex(#[trigger] members@[i]) < colex(#[trigger] members@[j]),
            decreases nv - v,
        {
            let ghost before = members@;
            if self.color[v] as usize == cls {
                let m = self.c.unrank(v as u32);
                proof {
                    assert(names(self.c, v as int, m));
                    assert(vertex_of(self.c, v as int) == m);
                }
                members.push(m);
                proof {
                    assert forall|i: int, j: int| 0 <= i < j < members@.len() implies colex(#[trigger] members@[i]) < colex(#[trigger] members@[j]) by {
                        assert(members@[i] == before[i]);
                        if j < before.len() {
                            assert(members@[j] == before[j]);
                        }
                    }
                }
            } else {
                proof {
                    assert(class_members(self.c, self.color@, cls as int, (v + 1) as nat) =~= before);
                }
            }
            v += 1;
        }
        if members.len() as u64 != self.c.m {
            let mut out: Vec<char> = Vec::new();
            crate::text::push_str(&mut out, "class ");
            crate::text::push_decimal(&mut out, cls as u64);
            crate::text::push_str(&mut out, " has ");
            crate::text::push_decimal(&mut out, members.len() as u64);
            crate::text::push_str(&mut out, " members, expected ");
            crate::text::push_decimal(&mut out, self.c.m);
            return Err(crate::text::string_from_chars(&out));
        }
        proof {
            assert forall|i: int, j: int| 0 <= i < members@.len() && 0 <= j < members@.len() && i != j implies
                popcount(#[trigger] members@[i] & #[trigger] members@[j]) < k - 1 by {
                if i < j {
                    assert(colex(members@[i]) < colex(members@[j]));
                } else {
                    assert(colex(members@[j]) < colex(members@[i]));
                }
                lemma_distinct_meet(members@[i], members@[j]);
            }
        }
        let prof = crate::check::intersection_profile(k, &members);
        let km1 = (k - 1) as usize;
        let mut i: usize = 0;
        while i < members.len()
            invariant
                self.wf(),
                k == self.c.k,
                2 <= k <= 16,
                km1 == k - 1,
                prof@.len() == members@.len(),
                members@.len() == self.c.m,
                members@ == class_members(self.c, self.color@, cls as int, self.nv()),
                forall|q: int| 0 <= q < prof@.len() ==> #[trigger] prof@[q]@.len() == k - 1,
                forall|q: int, a: int| 0 <= q < prof@.len() && 0 <= a < k - 1 ==> #[trigger] prof@[q]@[a]
                    == crate::check::meet_count(members@, q, a as nat, members@.len()),
                i <= members@.len(),
                forall|q: int, a: int| 0 <= q < i && 0 <= a < k - 1 ==>
                    #[trigger] crate::check::meet_count(members@, q, a as nat, members@.len()) + crate::check::meet_count(members@, q, (k - 2 - a) as nat, members@.len())
                        == d_target(k, a),
                members@.len() <= 0xFFFF_FFFF,
            decreases members@.len() - i,
        {
            let mut a: usize = 0;
            while a < km1
                invariant
                    self.wf(),
                    k == self.c.k,
                    2 <= k <= 16,
                    km1 == k - 1,
                    i < prof@.len(),
                    prof@.len() == members@.len(),
                    members@.len() == self.c.m,
                    members@ == class_members(self.c, self.color@, cls as int, self.nv()),
                    forall|q: int| 0 <= q < prof@.len() ==> #[trigger] prof@[q]@.len() == k - 1,
                    forall|q: int, a2: int| 0 <= q < prof@.len() && 0 <= a2 < k - 1 ==> #[trigger] prof@[q]@[a2]
                        == crate::check::meet_count(members@, q, a2 as nat, members@.len()),
                    a <= km1,
                    forall|a2: int| 0 <= a2 < a ==>
                        #[trigger] crate::check::meet_count(members@, i as int, a2 as nat, members@.len()) + crate::check::meet_count(members@, i as int, (k - 2 - a2) as nat, members@.len())
                            == d_target(k, a2),
                    members@.len() <= 0xFFFF_FFFF,
                decreases km1 - a,
            {
                let mir = km1 - 1 - a;
                proof {
                    crate::check::lemma_meet_bound(members@, i as int, a as nat, members@.len());
                    crate::check::lemma_meet_bound(members@, i as int, mir as nat, members@.len());
                    assert(self.targets_ok());
                }
                let got = prof[i][a] + prof[i][mir];
                if got != self.nd_targets[a] {
                    proof {
                        let bs = members@;
                        assert(crate::check::meet_count(bs, i as int, a as nat, bs.len()) + crate::check::meet_count(bs, i as int, (k - 2 - a) as nat, bs.len())
                            != d_target(k, a as int));
                    }
                    let mut out: Vec<char> = Vec::new();
                    crate::text::push_str(&mut out, "class ");
                    crate::text::push_decimal(&mut out, cls as u64);
                    crate::text::push_str(&mut out, ": block ");
                    crate::check::push_hex(&mut out, members[i]);
                    crate::text::push_str(&mut out, " has c_");
                    crate::text::push_decimal(&mut out, a as u64);
                    crate::text::push_str(&mut out, "+c_");
                    crate::text::push_decimal(&mut out, mir as u64);
                    crate::text::push_str(&mut out, " = ");
                    crate::text::push_decimal(&mut out, got);
                    crate::text::push_str(&mut out, " but N_");
                    crate::text::push_decimal(&mut out, (a + 1) as u64);
                    crate::text::push_str(&mut out, " = ");
                    crate::text::push_decimal(&mut out, self.nd_targets[a]);
                    return Err(crate::text::string_from_chars(&out));
                }
                a += 1;
            }
            i += 1;
        }
        Ok(())
    }
}






/// Unassigned vertices below `n` that may still take colour `cls` and meet
/// the anchor `amask` in `a` points.
pub open spec fn eligible_count(c: Combi, col: Seq<u8>, dom: Seq<u32>, closed: u32, cls: int, amask: u32, a: int, n: nat) -> nat
    decreases n,
{
    if n == 0 {
        0
    } else {
        eligible_count(c, col, dom, closed, cls, amask, a, (n - 1) as nat) + (if col[n - 1] == UNASSIGNED && bit(dom[n - 1] & !closed, cls)
            && popcount(vertex_of(c, n - 1) & amask) == a { 1nat } else { 0nat })
    }
}

/// The colours member `j` of `ms` may still take: its own colour once
/// given, else its domain less the closed colours.
pub open spec fn eff_of(col: Seq<u8>, dom: Seq<u32>, closed: u32, ms: Seq<u32>, j: int) -> u32 {
    let u = colex(ms[j]) as int;
    if col[u] == UNASSIGNED {
        dom[u] & !closed
    } else {
        1u32 << col[u]
    }
}

/// The colour of member `j` of `ms`.
pub open spec fn col_of(col: Seq<u8>, ms: Seq<u32>, j: int) -> u8 {
    col[colex(ms[j]) as int]
}

/// Rule B's verdict on a closed neighbourhood `ms` of `k` members: every
/// member has a colour left, no two members have the same colour, and
/// every colour that no member has is still open to some member.
pub open spec fn rule_b_ok(col: Seq<u8>, dom: Seq<u32>, closed: u32, ms: Seq<u32>, k: nat) -> bool {
    &&& forall|j: int| 0 <= j < k ==> #[trigger] eff_of(col, dom, closed, ms, j) != 0
    &&& forall|j1: int, j2: int| 0 <= j1 < j2 < k && #[trigger] col_of(col, ms, j1) != UNASSIGNED
        ==> col_of(col, ms, j1) != #[trigger] col_of(col, ms, j2)
    &&& forall|cc: int| 0 <= cc < k && !#[trigger] colour_used(col, ms, k, cc) ==> colour_open(col, dom, closed, ms, k, cc)
}

/// Some member of the first `k` of `ms` has colour `cc`.
pub open spec fn colour_used(col: Seq<u8>, ms: Seq<u32>, k: nat, cc: int) -> bool {
    exists|j: int| 0 <= j < k && #[trigger] col_of(col, ms, j) as int == cc
}

/// Some member of the first `k` of `ms` may still take colour `cc`.
pub open spec fn colour_open(col: Seq<u8>, dom: Seq<u32>, closed: u32, ms: Seq<u32>, k: nat, cc: int) -> bool {
    exists|j: int| 0 <= j < k && bit(#[trigger] eff_of(col, dom, closed, ms, j), cc)
}

/// `vertex_of` names the one vertex of its index.
pub proof fn lemma_vertex_of(c: Combi, v: int, m: u32)
    requires
        names(c, v, m),
    ensures
        vertex_of(c, v) == m,
{
    let w = vertex_of(c, v);
    assert(names(c, v, w));
    crate::bits::lemma_colex_injective(w, m);
}

proof fn lemma_slot_inj(km1: int, oc: int, a: int, oc2: int, a2: int)
    requires
        0 <= a < km1,
        0 <= a2 < km1,
        0 <= oc,
        0 <= oc2,
        slot(km1, oc, a) == slot(km1, oc2, a2),
    ensures
        oc == oc2,
        a == a2,
{
    assert(oc == oc2) by (nonlinear_arith)
        requires
            0 <= a < km1,
            0 <= a2 < km1,
            0 <= oc,
            0 <= oc2,
            oc * km1 + a == oc2 * km1 + a2,
    ;
}

impl Anchor {
    pub closed spec fn shape(&self) -> (u32, u32, int, nat, nat) {
        (self.idx, self.mask, self.spos@, self.same@.len(), self.other@.len())
    }
}

impl Engine {
    /// The Rule D reachability direction. Once class `cls` is within a tenth
    /// of full, each of its anchors must still be able to reach every Rule D
    /// target: the members counted so far at the two mirrored intersection
    /// sizes, plus the unassigned vertices that may still join the class at
    /// those sizes. Returns `false` on a shortfall, blaming Rule D.
    pub fn anchor_reach_check(&mut self, cls: usize) -> (ok: bool)
        requires
            old(self).wf(),
            cls < old(self).ncol(),
        ensures
            final(self).wf(),
            final(self).same_but_rule(old(self)),
            !old(self).config().anchor_reach || old(self).config().anchors == 0 ==> ok,
            ok == old(self).reach_ok(cls as int),
            !ok ==> final(self).rule() == Rule::D,
    {
        if !self.cfg.anchor_reach || self.cfg.anchors == 0 {
            return true;
        }
        proof {
            lemma_sizes(self.c);
            lemma_counts_le(self.color@, self.dom@, cls as int, self.nv());
            assert(self.c.m <= self.c.num_vertices) by (nonlinear_arith)
                requires
                    self.c.m == self.c.num_vertices / (self.c.colors as u64),
                    self.c.colors >= 1,
            ;
        }
        if self.size[cls] * 10 < self.c.m * 9 {
            return true;
        }
        let ghost pre = *self;
        let km1 = (self.c.k - 1) as usize;
        let nv = self.c.num_vertices;
        let bit_c = 1u32 << cls as u32;
        let n_anchors = self.anchors[cls].len();
        let mut ai: usize = 0;
        while ai < n_anchors
            invariant
                self.wf(),
                *self == pre,
                pre == *old(self),
                self.cfg.anchor_reach && self.cfg.anchors > 0,
                cls < self.ncol(),
                km1 == self.c.k - 1,
                nv == self.c.num_vertices,
                nv <= 0xFFFF_FFFF,
                n_anchors == self.anchors@[cls as int]@.len(),
                ai <= n_anchors,
                !(pre.size@[cls as int] * 10 < pre.c.m * 9),
                bit_c == 1u32 << cls as u32,
                forall|ai2: int, a2: int| 0 <= ai2 < ai && 1 <= a2 && a2 + 1 <= pre.c.k - 2 ==> {
                    let an2 = #[trigger] pre.anchors@[cls as int]@[ai2];
                    an2.same@[a2] + an2.same@[pre.c.k - 2 - a2] + eligible_count(pre.c, pre.color@, pre.dom@, pre.closed, cls as int, an2.mask, a2, pre.nv())
                        + eligible_count(pre.c, pre.color@, pre.dom@, pre.closed, cls as int, an2.mask, pre.c.k - 2 - a2, pre.nv()) >= #[trigger] pre.nd_targets@[a2]
                },
            decreases n_anchors - ai,
        {
            let amask = self.anchors[cls][ai].mask;
            let ghost an = self.anchors@[cls as int]@[ai as int];
            proof {
                let p = an.spos@;
                assert(self.assign_stack@[p].0 == an.idx);
                assert(self.color@[self.assign_stack@[p].0 as int] == self.assign_stack@[p].2);
            }
            let mut eligible: Vec<u64> = vec![0u64; km1];
            let mut v: u32 = 0;
            while (v as u64) < nv
                invariant
                    self.wf(),
                    *self == pre,
                pre == *old(self),
                self.cfg.anchor_reach && self.cfg.anchors > 0,
                    cls < self.ncol(),
                    km1 == self.c.k - 1,
                    nv == self.c.num_vertices,
                    nv <= 0xFFFF_FFFF,
                    eligible@.len() == km1,
                    v <= nv,
                    forall|a: int| 0 <= a < km1 ==> #[trigger] eligible@[a] <= v,
                    forall|a: int| 0 <= a < km1 ==> #[trigger] eligible@[a] == eligible_count(pre.c, pre.color@, pre.dom@, pre.closed, cls as int, amask, a, v as nat),
                    bit_c == 1u32 << cls as u32,
                    ai < n_anchors,
                    n_anchors == self.anchors@[cls as int]@.len(),
                    !(pre.size@[cls as int] * 10 < pre.c.m * 9),
                    forall|ai2: int, a2: int| 0 <= ai2 < ai && 1 <= a2 && a2 + 1 <= pre.c.k - 2 ==> {
                    let an2 = #[trigger] pre.anchors@[cls as int]@[ai2];
                    an2.same@[a2] + an2.same@[pre.c.k - 2 - a2] + eligible_count(pre.c, pre.color@, pre.dom@, pre.closed, cls as int, an2.mask, a2, pre.nv())
                        + eligible_count(pre.c, pre.color@, pre.dom@, pre.closed, cls as int, an2.mask, pre.c.k - 2 - a2, pre.nv()) >= #[trigger] pre.nd_targets@[a2]
                },
                    an == self.anchors@[cls as int]@[ai as int],
                    amask == an.mask,
                    names(self.c, an.idx as int, amask),
                    self.color@[an.idx as int] != UNASSIGNED,
                decreases nv - v,
            {
                proof {
                    lemma_single_bit(cls as u32);
                    lemma_bits_logic(self.dom@[v as int] & !self.closed, bit_c);
                    crate::bits::lemma_bits_zero();
                    if self.dom@[v as int] & !self.closed & bit_c != 0 {
                        lemma_lowest_bit(self.dom@[v as int] & !self.closed & bit_c);
                    } else {
                        assert(!bit(self.dom@[v as int] & !self.closed & bit_c, cls as int));
                    }
                }
                let ghost el0 = eligible@;
                if self.color[v as usize] == UNASSIGNED && self.dom[v as usize] & !self.closed & bit_c != 0 {
                    let vm = self.c.unrank(v);
                    proof {
                        assert(colex(vm) != colex(amask));
                        lemma_distinct_meet(amask, vm);
                        crate::bits::lemma_and_comm(vm, amask);
                    }
                    let a = count_ones32(vm & amask) as usize;
                    let x = eligible[a] + 1;
                    eligible.set(a, x);
                    proof {
                        lemma_vertex_of(self.c, v as int, vm);
                    }
                }
                proof {
                    assert forall|a2: int| 0 <= a2 < km1 implies #[trigger] eligible@[a2] == eligible_count(pre.c, pre.color@, pre.dom@, pre.closed, cls as int, amask, a2, (v + 1) as nat) by {
                        assert(el0[a2] == eligible_count(pre.c, pre.color@, pre.dom@, pre.closed, cls as int, amask, a2, v as nat));
                    }
                }
                v += 1;
            }
            let mut a: usize = 0;
            while a < km1
                invariant
                    self.wf(),
                    *self == pre,
                pre == *old(self),
                self.cfg.anchor_reach && self.cfg.anchors > 0,
                    cls < self.ncol(),
                    km1 == self.c.k - 1,
                    nv <= 0xFFFF_FFFF,
                    eligible@.len() == km1,
                    forall|a: int| 0 <= a < km1 ==> #[trigger] eligible@[a] <= nv,
                    an == self.anchors@[cls as int]@[ai as int],
                    ai < n_anchors,
                    n_anchors == self.anchors@[cls as int]@.len(),
                    a <= km1,
                    amask == an.mask,
                    an == pre.anchors@[cls as int]@[ai as int],
                    !(pre.size@[cls as int] * 10 < pre.c.m * 9),
                    forall|ai2: int, a2: int| 0 <= ai2 < ai && 1 <= a2 && a2 + 1 <= pre.c.k - 2 ==> {
                    let an2 = #[trigger] pre.anchors@[cls as int]@[ai2];
                    an2.same@[a2] + an2.same@[pre.c.k - 2 - a2] + eligible_count(pre.c, pre.color@, pre.dom@, pre.closed, cls as int, an2.mask, a2, pre.nv())
                        + eligible_count(pre.c, pre.color@, pre.dom@, pre.closed, cls as int, an2.mask, pre.c.k - 2 - a2, pre.nv()) >= #[trigger] pre.nd_targets@[a2]
                },
                    forall|a3: int| 0 <= a3 < km1 ==> #[trigger] eligible@[a3] == eligible_count(pre.c, pre.color@, pre.dom@, pre.closed, cls as int, amask, a3, nv as nat),
                    nv == pre.nv(),
                    forall|a2: int| 0 <= a2 < a && 1 <= a2 && a2 + 1 <= pre.c.k - 2 ==> {
                        an.same@[a2] + an.same@[pre.c.k - 2 - a2] + eligible_count(pre.c, pre.color@, pre.dom@, pre.closed, cls as int, an.mask, a2, pre.nv())
                            + eligible_count(pre.c, pre.color@, pre.dom@, pre.closed, cls as int, an.mask, pre.c.k - 2 - a2, pre.nv()) >= #[trigger] pre.nd_targets@[a2]
                    },
                decreases km1 - a,
            {
                if self.c.rule_de_active(a as u32) {
                    let mir = km1 - 1 - a;
                    proof {
                        assert(anchor_counts_ok(self.c, self.assign_stack@, an, cls as int));
                    }
                    let have = self.anchors[cls][ai].same[a] as u64 + self.anchors[cls][ai].same[mir] as u64;
                    if have + eligible[a] + eligible[mir] < self.nd_targets[a] {
                        proof {
                            assert(pre.anchors@[cls as int]@[ai as int] == an);
                            assert(1 <= a && a + 1 <= pre.c.k - 2);
                            assert(mir == pre.c.k - 2 - a);
                            assert(!(an.same@[a as int] + an.same@[pre.c.k - 2 - a] + eligible_count(pre.c, pre.color@, pre.dom@, pre.closed, cls as int, an.mask, a as int, pre.nv())
                                + eligible_count(pre.c, pre.color@, pre.dom@, pre.closed, cls as int, an.mask, pre.c.k - 2 - a, pre.nv()) >= pre.nd_targets@[a as int]));
                            assert(!pre.reach_ok(cls as int));
                        }
                        self.conflict_rule = Rule::D;
                        return false;
                    }
                }
                a += 1;
            }
            proof {
                assert forall|ai2: int, a2: int| 0 <= ai2 < ai + 1 && 1 <= a2 && a2 + 1 <= pre.c.k - 2 implies {
                    let an2 = #[trigger] pre.anchors@[cls as int]@[ai2];
                    an2.same@[a2] + an2.same@[pre.c.k - 2 - a2] + eligible_count(pre.c, pre.color@, pre.dom@, pre.closed, cls as int, an2.mask, a2, pre.nv())
                        + eligible_count(pre.c, pre.color@, pre.dom@, pre.closed, cls as int, an2.mask, pre.c.k - 2 - a2, pre.nv()) >= #[trigger] pre.nd_targets@[a2]
                } by {
                    if ai2 == ai {
                        assert(a2 < km1);
                        assert(pre.nd_targets@[a2] == pre.nd_targets@[a2]);
                    }
                }
            }
            ai += 1;
        }
        true
    }
}

/// A new anchor for the vertex `v` (mask `vmask`) of class `col`, standing at
/// `spos` on the stack, with its tables counted over the stack. Also returns
/// whether every Rule D and Rule E sum stays within its target, and the rule
/// to blame where one does not.
fn new_anchor(
    c: &Combi,
    stack: &Vec<(u32, u32, u8)>,
    v: u32,
    vmask: u32,
    col: u8,
    nd: &Vec<u64>,
    me: &Vec<u64>,
    Ghost(spos): Ghost<int>,
) -> (r: (Anchor, bool, Rule))
    requires
        c.wf(),
        col < c.colors,
        v < c.num_vertices,
        names(*c, v as int, vmask),
        stack@.len() <= c.num_vertices,
        forall|i: int| 0 <= i < stack@.len() ==> names(*c, (#[trigger] stack@[i]).0 as int, stack@[i].1) && stack@[i].2 < c.colors,
        nd@.len() == c.k - 1,
        me@.len() == c.k - 1,
    ensures
        anchor_counts_ok(*c, stack@, r.0, col as int),
        r.0.idx == v,
        r.0.mask == vmask,
        r.0.spos@ == spos,
{
    proof {
        crate::bits::lemma_binom_fits(c.n as nat, c.r as nat);
    }
    let km1 = (c.k - 1) as usize;
    let ncol = c.colors as usize;
    proof {
        assert(km1 * ncol <= 16 * 17) by (nonlinear_arith)
            requires
                km1 <= 16,
                ncol <= 17,
        ;
    }
    let mut same: Vec<u32> = vec![0u32; km1];
    let mut other: Vec<u32> = vec![0u32; km1 * ncol];
    let ghost s = stack@;
    let mut i: usize = 0;
    proof {
        assert(s.take(0) =~= Seq::<(u32, u32, u8)>::empty());
        assert forall|oc: int, a: int| 0 <= oc < ncol && 0 <= a < km1 implies #[trigger] other@[slot(km1 as int, oc, a)] == (if oc == col {
            0
        } else {
            stack_meet(s.take(0), v as int, vmask, oc, a)
        }) by {
            lemma_slot_bound(km1 as int, ncol as int, oc, a);
        }
    }
    while i < stack.len()
        invariant
            c.wf(),
            km1 == c.k - 1,
            ncol == c.colors,
            km1 * ncol <= 16 * 17,
            col < c.colors,
            v < c.num_vertices,
            names(*c, v as int, vmask),
            s == stack@,
            s.len() <= c.num_vertices,
            c.num_vertices <= 0xFFFF_FFFF,
            forall|j: int| 0 <= j < s.len() ==> names(*c, (#[trigger] s[j]).0 as int, s[j].1) && s[j].2 < c.colors,
            i <= s.len(),
            same@.len() == km1,
            other@.len() == km1 * ncol,
            forall|a: int| 0 <= a < km1 ==> #[trigger] same@[a] == stack_meet(s.take(i as int), v as int, vmask, col as int, a),
            forall|oc: int, a: int| 0 <= oc < ncol && 0 <= a < km1 ==> #[trigger] other@[slot(km1 as int, oc, a)] == (if oc == col {
                0
            } else {
                stack_meet(s.take(i as int), v as int, vmask, oc, a)
            }),
        decreases s.len() - i,
    {
        let (oi, om, oc) = stack[i];
        let ghost e = s[i as int];
        let ghost t0 = s.take(i as int);
        let ghost t1 = s.take(i + 1);
        proof {
            assert(t1 =~= t0.push(e));
            assert forall|oc2: int, aa: int| #![trigger stack_meet(t1, v as int, vmask, oc2, aa)]
                0 <= oc2 < ncol && 0 <= aa < km1 implies stack_meet(t1, v as int, vmask, oc2, aa)
                    == stack_meet(t0, v as int, vmask, oc2, aa) + ind(entry_meets(e, v as int, vmask, oc2, aa))
                    && stack_meet(t1, v as int, vmask, oc2, aa) <= t1.len() by {
                lemma_stack_meet_push(t0, e, v as int, vmask, oc2, aa);
                lemma_stack_meet_le(t1, v as int, vmask, oc2, aa);
            }
        }
        if oi != v {
            proof {
                assert(colex(om) != colex(vmask));
                lemma_distinct_meet(om, vmask);
            }
            let a = count_ones32(om & vmask) as usize;
            proof {
                assert(e == (oi, om, oc));
                assert(entry_meets(e, v as int, vmask, oc as int, a as int));
                assert(stack_meet(t1, v as int, vmask, oc as int, a as int) <= t1.len());
            }
            if oc == col {
                let x = same[a] + 1;
                same.set(a, x);
                proof {
                    assert forall|aa: int| 0 <= aa < km1 implies #[trigger] same@[aa] == stack_meet(t1, v as int, vmask, col as int, aa) by {}
                    assert forall|oc2: int, aa: int| 0 <= oc2 < ncol && 0 <= aa < km1 implies #[trigger] other@[slot(km1 as int, oc2, aa)] == (if oc2 == col {
                        0
                    } else {
                        stack_meet(t1, v as int, vmask, oc2, aa)
                    }) by {}
                }
            } else {
                proof {
                    lemma_slot_bound(km1 as int, ncol as int, oc as int, a as int);
                }
                let base = oc as usize * km1;
                let x = other[base + a] + 1;
                other.set(base + a, x);
                proof {
                    assert forall|aa: int| 0 <= aa < km1 implies #[trigger] same@[aa] == stack_meet(t1, v as int, vmask, col as int, aa) by {}
                    assert forall|oc2: int, aa: int| 0 <= oc2 < ncol && 0 <= aa < km1 implies #[trigger] other@[slot(km1 as int, oc2, aa)] == (if oc2 == col {
                        0
                    } else {
                        stack_meet(t1, v as int, vmask, oc2, aa)
                    }) by {
                        lemma_slot_bound(km1 as int, ncol as int, oc2, aa);
                        if slot(km1 as int, oc2, aa) == slot(km1 as int, oc as int, a as int) {
                            lemma_slot_inj(km1 as int, oc2, aa, oc as int, a as int);
                        }
                    }
                }
            }
        }
        i += 1;
    }
    proof {
        assert(s.take(s.len() as int) =~= s);
    }
    let mut ok = true;
    let mut rule = Rule::D;
    let mut a: usize = 0;
    while a < km1
        invariant
            c.wf(),
            km1 == c.k - 1,
            ncol == c.colors,
            km1 * ncol <= 16 * 17,
            a <= km1,
            same@.len() == km1,
            other@.len() == km1 * ncol,
            nd@.len() == km1,
            me@.len() == km1,
        decreases km1 - a,
    {
        if c.rule_de_active(a as u32) {
            let mir = km1 - 1 - a;
            if same[a] as u64 + same[mir] as u64 > nd[a] {
                rule = Rule::D;
                ok = false;
            }
            let mut oc: usize = 0;
            while oc < ncol
                invariant
                    km1 == c.k - 1,
                    ncol == c.colors,
                    km1 * ncol <= 16 * 17,
                    a < km1,
                    mir < km1,
                    oc <= ncol,
                    other@.len() == km1 * ncol,
                    me@.len() == km1,
                decreases ncol - oc,
            {
                if oc != col as usize {
                    proof {
                        lemma_slot_bound(km1 as int, ncol as int, oc as int, a as int);
                        lemma_slot_bound(km1 as int, ncol as int, oc as int, mir as int);
                    }
                    let base = oc * km1;
                    if other[base + a] as u64 + other[base + mir] as u64 > me[a] {
                        rule = Rule::E;
                        ok = false;
                    }
                }
                oc += 1;
            }
        }
        a += 1;
    }
    (Anchor { idx: v, mask: vmask, same, other, spos: Ghost(spos) }, ok, rule)
}

/// Count the entry `(v, vmask, col)`, pushed onto the stack `s0`, in every
/// anchor's tables. Returns whether every Rule D and Rule E sum stays within
/// its target, and the rule to blame where one does not.
fn rule_de_update(
    anchors: &mut Vec<Vec<Anchor>>,
    c: &Combi,
    v: u32,
    vmask: u32,
    col: u8,
    nd: &Vec<u64>,
    me: &Vec<u64>,
    Ghost(s0): Ghost<Seq<(u32, u32, u8)>>,
) -> (r: (bool, Rule))
    requires
        c.wf(),
        col < c.colors,
        v < c.num_vertices,
        s0.len() < c.num_vertices,
        names(*c, v as int, vmask),
        nd@.len() == c.k - 1,
        me@.len() == c.k - 1,
        anchors_count(*c, old(anchors)@, s0),
        forall|cls: int, i: int| 0 <= cls < c.colors && 0 <= i < old(anchors)@[cls]@.len() ==> (#[trigger] old(anchors)@[cls]@[i]).idx != v,
    ensures
        anchors_count(*c, final(anchors)@, s0.push((v, vmask, col))),
        same_shapes(old(anchors)@, final(anchors)@),
{
    let ghost a0 = anchors@;
    let ghost s1 = s0.push((v, vmask, col));
    let ncol = c.colors as usize;
    let mut hit_d = false;
    let mut hit_e = false;
    let mut cls: usize = 0;
    while cls < ncol
        invariant
            c.wf(),
            ncol == c.colors,
            cls <= ncol,
            col < c.colors,
            v < c.num_vertices,
            s0.len() < c.num_vertices,
            names(*c, v as int, vmask),
            nd@.len() == c.k - 1,
            me@.len() == c.k - 1,
            s1 == s0.push((v, vmask, col)),
            anchors_count(*c, a0, s0),
            forall|k: int, i: int| 0 <= k < c.colors && 0 <= i < a0[k]@.len() ==> (#[trigger] a0[k]@[i]).idx != v,
            same_shapes(a0, anchors@),
            forall|k: int, i: int| 0 <= k < ncol && 0 <= i < anchors@[k]@.len() ==> anchor_counts_ok(
                *c,
                if k < cls { s1 } else { s0 },
                #[trigger] anchors@[k]@[i],
                k,
            ),
        decreases ncol - cls,
    {
        let n = anchors[cls].len();
        let mut ai: usize = 0;
        while ai < n
            invariant
                c.wf(),
                ncol == c.colors,
                cls < ncol,
                ai <= n,
                n == a0[cls as int]@.len(),
                col < c.colors,
                v < c.num_vertices,
                s0.len() < c.num_vertices,
                names(*c, v as int, vmask),
                nd@.len() == c.k - 1,
                me@.len() == c.k - 1,
                s1 == s0.push((v, vmask, col)),
                anchors_count(*c, a0, s0),
                forall|k: int, i: int| 0 <= k < c.colors && 0 <= i < a0[k]@.len() ==> (#[trigger] a0[k]@[i]).idx != v,
                same_shapes(a0, anchors@),
                forall|k: int, i: int| 0 <= k < ncol && 0 <= i < anchors@[k]@.len() ==> anchor_counts_ok(
                    *c,
                    if k < cls || (k == cls && i < ai) { s1 } else { s0 },
                    #[trigger] anchors@[k]@[i],
                    k,
                ),
            decreases n - ai,
        {
            let ghost before = anchors@;
            proof {
                let an = a0[cls as int]@[ai as int];
                assert(an.shape() == before[cls as int]@[ai as int].shape());
                assert(anchor_counts_ok(*c, s0, before[cls as int]@[ai as int], cls as int));
            }
            let (d, e) = note_assign(&mut anchors[cls][ai], c, cls, v, vmask, col, nd, me, Ghost(s0));
            if d {
                hit_d = true;
            }
            if e {
                hit_e = true;
            }
            proof {
                assert forall|k: int| 0 <= k < a0.len() implies #[trigger] anchors@[k]@.len() == a0[k]@.len() by {
                    assert(before[k]@.len() == a0[k]@.len());
                }
                assert forall|k: int, i: int| 0 <= k < a0.len() && 0 <= i < a0[k]@.len() implies #[trigger] anchors@[k]@[i].shape() == a0[k]@[i].shape() by {
                    assert(before[k]@[i].shape() == a0[k]@[i].shape());
                }
                assert forall|k: int, i: int| 0 <= k < ncol && 0 <= i < anchors@[k]@.len() implies anchor_counts_ok(
                    *c,
                    if k < cls || (k == cls && i < ai + 1) { s1 } else { s0 },
                    #[trigger] anchors@[k]@[i],
                    k,
                ) by {
                    if !(k == cls && i == ai) {
                        assert(anchors@[k]@[i] == before[k]@[i]);
                    }
                }
            }
            ai += 1;
        }
        cls += 1;
    }
    proof {
        assert forall|k: int, i: int| 0 <= k < c.colors && 0 <= i < anchors@[k]@.len() implies {
            &&& (#[trigger] anchors@[k]@[i]).idx < c.num_vertices
            &&& names(*c, anchors@[k]@[i].idx as int, anchors@[k]@[i].mask)
            &&& anchor_counts_ok(*c, s1, anchors@[k]@[i], k)
        } by {
            assert(anchors@[k]@[i].shape() == a0[k]@[i].shape());
        }
    }
    let ok = !hit_d && !hit_e;
    let rule = if hit_e && !hit_d {
        Rule::E
    } else {
        Rule::D
    };
    (ok, rule)
}

/// Take the top entry `(v, vmask, col)` of the stack `s0` out of every
/// anchor's tables.
fn rule_de_undo(
    anchors: &mut Vec<Vec<Anchor>>,
    c: &Combi,
    v: u32,
    vmask: u32,
    col: u8,
    Ghost(s0): Ghost<Seq<(u32, u32, u8)>>,
)
    requires
        c.wf(),
        col < c.colors,
        v < c.num_vertices,
        names(*c, v as int, vmask),
        s0.len() > 0,
        s0.last() == (v, vmask, col),
        anchors_count(*c, old(anchors)@, s0),
        forall|cls: int, i: int| 0 <= cls < c.colors && 0 <= i < old(anchors)@[cls]@.len() ==> (#[trigger] old(anchors)@[cls]@[i]).idx != v,
    ensures
        anchors_count(*c, final(anchors)@, s0.drop_last()),
        same_shapes(old(anchors)@, final(anchors)@),
{
    let ghost a0 = anchors@;
    let ghost s1 = s0.drop_last();
    let ncol = c.colors as usize;
    let mut cls: usize = 0;
    while cls < ncol
        invariant
            c.wf(),
            ncol == c.colors,
            cls <= ncol,
            col < c.colors,
            v < c.num_vertices,
            names(*c, v as int, vmask),
            s0.len() > 0,
            s0.last() == (v, vmask, col),
            s1 == s0.drop_last(),
            anchors_count(*c, a0, s0),
            forall|k: int, i: int| 0 <= k < c.colors && 0 <= i < a0[k]@.len() ==> (#[trigger] a0[k]@[i]).idx != v,
            same_shapes(a0, anchors@),
            forall|k: int, i: int| 0 <= k < ncol && 0 <= i < anchors@[k]@.len() ==> anchor_counts_ok(
                *c,
                if k < cls { s1 } else { s0 },
                #[trigger] anchors@[k]@[i],
                k,
            ),
        decreases ncol - cls,
    {
        let n = anchors[cls].len();
        let mut ai: usize = 0;
        while ai < n
            invariant
                c.wf(),
                ncol == c.colors,
                cls < ncol,
                ai <= n,
                n == a0[cls as int]@.len(),
                col < c.colors,
                v < c.num_vertices,
                names(*c, v as int, vmask),
                s0.len() > 0,
                s0.last() == (v, vmask, col),
                s1 == s0.drop_last(),
                anchors_count(*c, a0, s0),
                forall|k: int, i: int| 0 <= k < c.colors && 0 <= i < a0[k]@.len() ==> (#[trigger] a0[k]@[i]).idx != v,
                same_shapes(a0, anchors@),
                forall|k: int, i: int| 0 <= k < ncol && 0 <= i < anchors@[k]@.len() ==> anchor_counts_ok(
                    *c,
                    if k < cls || (k == cls && i < ai) { s1 } else { s0 },
                    #[trigger] anchors@[k]@[i],
                    k,
                ),
            decreases n - ai,
        {
            let ghost before = anchors@;
            proof {
                let an = a0[cls as int]@[ai as int];
                assert(an.shape() == before[cls as int]@[ai as int].shape());
                assert(anchor_counts_ok(*c, s0, before[cls as int]@[ai as int], cls as int));
            }
            note_unassign(&mut anchors[cls][ai], c, cls, v, vmask, col, Ghost(s0));
            proof {
                assert forall|k: int| 0 <= k < a0.len() implies #[trigger] anchors@[k]@.len() == a0[k]@.len() by {
                    assert(before[k]@.len() == a0[k]@.len());
                }
                assert forall|k: int, i: int| 0 <= k < a0.len() && 0 <= i < a0[k]@.len() implies #[trigger] anchors@[k]@[i].shape() == a0[k]@[i].shape() by {
                    assert(before[k]@[i].shape() == a0[k]@[i].shape());
                }
                assert forall|k: int, i: int| 0 <= k < ncol && 0 <= i < anchors@[k]@.len() implies anchor_counts_ok(
                    *c,
                    if k < cls || (k == cls && i < ai + 1) { s1 } else { s0 },
                    #[trigger] anchors@[k]@[i],
                    k,
                ) by {
                    if !(k == cls && i == ai) {
                        assert(anchors@[k]@[i] == before[k]@[i]);
                    }
                }
            }
            ai += 1;
        }
        cls += 1;
    }
    proof {
        assert forall|k: int, i: int| 0 <= k < c.colors && 0 <= i < anchors@[k]@.len() implies {
            &&& (#[trigger] anchors@[k]@[i]).idx < c.num_vertices
            &&& names(*c, anchors@[k]@[i].idx as int, anchors@[k]@[i].mask)
            &&& anchor_counts_ok(*c, s1, anchors@[k]@[i], k)
        } by {
            assert(anchors@[k]@[i].shape() == a0[k]@[i].shape());
        }
    }
}

/// Count the entry `(v, vmask, col)`, pushed onto the stack `s0`, in anchor
/// `an` of class `cls`. Returns whether the Rule D or the Rule E sum at the
/// entry's intersection size now exceeds its target.
fn note_assign(
    an: &mut Anchor,
    c: &Combi,
    cls: usize,
    v: u32,
    vmask: u32,
    col: u8,
    nd: &Vec<u64>,
    me: &Vec<u64>,
    Ghost(s0): Ghost<Seq<(u32, u32, u8)>>,
) -> (r: (bool, bool))
    requires
        c.wf(),
        cls < c.colors,
        col < c.colors,
        v < c.num_vertices,
        s0.len() < c.num_vertices,
        anchor_counts_ok(*c, s0, *old(an), cls as int),
        old(an).idx != v,
        names(*c, v as int, vmask),
        names(*c, old(an).idx as int, old(an).mask),
        nd@.len() == c.k - 1,
        me@.len() == c.k - 1,
    ensures
        anchor_counts_ok(*c, s0.push((v, vmask, col)), *final(an), cls as int),
        final(an).shape() == old(an).shape(),
{
    let ghost pre = *an;
    let ghost e = (v, vmask, col);
    let ghost s1 = s0.push(e);
    let km1 = (c.k - 1) as usize;
    proof {
        crate::bits::lemma_binom_fits(c.n as nat, c.r as nat);
        let am = an.mask;
        crate::bits::lemma_and_comm(vmask, am);
        assert(colex(am) != colex(vmask));
        lemma_distinct_meet(am, vmask);
        assert forall|oc: int, aa: int| #![trigger stack_meet(s1, pre.idx as int, pre.mask, oc, aa)]
            0 <= oc < c.colors && 0 <= aa < km1 implies stack_meet(s1, pre.idx as int, pre.mask, oc, aa)
                == stack_meet(s0, pre.idx as int, pre.mask, oc, aa) + ind(col as int == oc && popcount(am & vmask) == aa)
                && stack_meet(s1, pre.idx as int, pre.mask, oc, aa) <= s1.len() by {
            lemma_stack_meet_push(s0, e, pre.idx as int, pre.mask, oc, aa);
            lemma_stack_meet_le(s1, pre.idx as int, pre.mask, oc, aa);
        }
    }
    let a = count_ones32(an.mask & vmask) as usize;
    let active = c.rule_de_active(a as u32);
    let mir = km1 - 1 - a;
    let mut hit_d = false;
    let mut hit_e = false;
    if cls == col as usize {
        proof {
            assert(pre.same@[a as int] == stack_meet(s0, pre.idx as int, pre.mask, cls as int, a as int));
            assert(stack_meet(s1, pre.idx as int, pre.mask, cls as int, a as int)
                == stack_meet(s0, pre.idx as int, pre.mask, cls as int, a as int) + ind(col as int == cls as int && popcount(pre.mask & vmask) == a as int));
        }
        let x = an.same[a] + 1;
        an.same[a] = x;
        if active {
            if an.same[a] as u64 + an.same[mir] as u64 > nd[a] {
                hit_d = true;
            }
        }
        proof {
            assert forall|oc: int, aa: int| 0 <= oc < c.colors && 0 <= aa < km1 implies #[trigger] an.other@[slot(km1 as int, oc, aa)] == (if oc == cls {
                0
            } else {
                stack_meet(s1, an.idx as int, an.mask, oc, aa)
            }) by {
                assert(an.other@[slot(km1 as int, oc, aa)] == pre.other@[slot(km1 as int, oc, aa)]);
            }
        }
    } else {
        proof {
            assert((col as usize) * km1 <= 17 * 16) by (nonlinear_arith)
                requires
                    col < 18,
                    km1 <= 16,
            ;
        }
        let base = col as usize * km1;
        proof {
            lemma_slot_bound(km1 as int, c.colors as int, col as int, a as int);
            lemma_slot_bound(km1 as int, c.colors as int, col as int, mir as int);
            assert(base + a == slot(km1 as int, col as int, a as int));
            assert(pre.other@[slot(km1 as int, col as int, a as int)] == stack_meet(s0, pre.idx as int, pre.mask, col as int, a as int));
            assert(stack_meet(s1, pre.idx as int, pre.mask, col as int, a as int)
                == stack_meet(s0, pre.idx as int, pre.mask, col as int, a as int) + ind(col as int == col as int && popcount(pre.mask & vmask) == a as int));
        }
        let x = an.other[base + a] + 1;
        an.other[base + a] = x;
        if active {
            if an.other[base + a] as u64 + an.other[base + mir] as u64 > me[a] {
                hit_e = true;
            }
        }
        proof {
            assert forall|oc: int, aa: int| 0 <= oc < c.colors && 0 <= aa < km1 implies #[trigger] an.other@[slot(km1 as int, oc, aa)] == (if oc == cls {
                0
            } else {
                stack_meet(s1, an.idx as int, an.mask, oc, aa)
            }) by {
                lemma_slot_bound(km1 as int, c.colors as int, oc, aa);
                if slot(km1 as int, oc, aa) == slot(km1 as int, col as int, a as int) {
                    lemma_slot_inj(km1 as int, oc, aa, col as int, a as int);
                } else {
                    assert(an.other@[slot(km1 as int, oc, aa)] == pre.other@[slot(km1 as int, oc, aa)]);
                }
            }
        }
    }
    (hit_d, hit_e)
}

/// Take the top entry `(v, vmask, col)` of the stack `s0` out of anchor
/// `an` of class `cls`.
fn note_unassign(
    an: &mut Anchor,
    c: &Combi,
    cls: usize,
    v: u32,
    vmask: u32,
    col: u8,
    Ghost(s0): Ghost<Seq<(u32, u32, u8)>>,
)
    requires
        c.wf(),
        cls < c.colors,
        col < c.colors,
        v < c.num_vertices,
        s0.len() > 0,
        s0.last() == (v, vmask, col),
        anchor_counts_ok(*c, s0, *old(an), cls as int),
        old(an).idx != v,
        names(*c, v as int, vmask),
        names(*c, old(an).idx as int, old(an).mask),
    ensures
        anchor_counts_ok(*c, s0.drop_last(), *final(an), cls as int),
        final(an).shape() == old(an).shape(),
{
    let ghost pre = *an;
    let ghost s1 = s0.drop_last();
    let km1 = (c.k - 1) as usize;
    proof {
        crate::bits::lemma_binom_fits(c.n as nat, c.r as nat);
        let am = an.mask;
        crate::bits::lemma_and_comm(vmask, am);
        assert(colex(am) != colex(vmask));
        lemma_distinct_meet(am, vmask);
        assert(s1.push(s0.last()) =~= s0);
        assert forall|oc: int, aa: int| #![trigger stack_meet(s1, pre.idx as int, pre.mask, oc, aa)]
            0 <= oc < c.colors && 0 <= aa < km1 implies stack_meet(s1, pre.idx as int, pre.mask, oc, aa)
                + ind(col as int == oc && popcount(am & vmask) == aa) == stack_meet(s0, pre.idx as int, pre.mask, oc, aa) by {
            lemma_stack_meet_push(s1, s0.last(), pre.idx as int, pre.mask, oc, aa);
        }
    }
    let a = count_ones32(an.mask & vmask) as usize;
    if cls == col as usize {
        proof {
            assert(pre.same@[a as int] == stack_meet(s0, pre.idx as int, pre.mask, cls as int, a as int));
            assert(stack_meet(s1, pre.idx as int, pre.mask, cls as int, a as int)
                + ind(col as int == cls as int && popcount(pre.mask & vmask) == a as int) == stack_meet(s0, pre.idx as int, pre.mask, cls as int, a as int));
        }
        let x = an.same[a] - 1;
        an.same[a] = x;
        proof {
            assert forall|oc: int, aa: int| 0 <= oc < c.colors && 0 <= aa < km1 implies #[trigger] an.other@[slot(km1 as int, oc, aa)] == (if oc == cls {
                0
            } else {
                stack_meet(s1, an.idx as int, an.mask, oc, aa)
            }) by {
                assert(an.other@[slot(km1 as int, oc, aa)] == pre.other@[slot(km1 as int, oc, aa)]);
            }
        }
    } else {
        proof {
            assert((col as usize) * km1 <= 17 * 16) by (nonlinear_arith)
                requires
                    col < 18,
                    km1 <= 16,
            ;
        }
        let base = col as usize * km1;
        proof {
            lemma_slot_bound(km1 as int, c.colors as int, col as int, a as int);
            assert(base + a == slot(km1 as int, col as int, a as int));
            assert(pre.other@[slot(km1 as int, col as int, a as int)] == stack_meet(s0, pre.idx as int, pre.mask, col as int, a as int));
            assert(stack_meet(s1, pre.idx as int, pre.mask, col as int, a as int)
                + ind(col as int == col as int && popcount(pre.mask & vmask) == a as int) == stack_meet(s0, pre.idx as int, pre.mask, col as int, a as int));
        }
        let x = an.other[base + a] - 1;
        an.other[base + a] = x;
        proof {
            assert forall|oc: int, aa: int| 0 <= oc < c.colors && 0 <= aa < km1 implies #[trigger] an.other@[slot(km1 as int, oc, aa)] == (if oc == cls {
                0
            } else {
                stack_meet(s1, an.idx as int, an.mask, oc, aa)
            }) by {
                lemma_slot_bound(km1 as int, c.colors as int, oc, aa);
                if slot(km1 as int, oc, aa) == slot(km1 as int, col as int, a as int) {
                    lemma_slot_inj(km1 as int, oc, aa, col as int, a as int);
                } else {
                    assert(an.other@[slot(km1 as int, oc, aa)] == pre.other@[slot(km1 as int, oc, aa)]);
                }
            }
        }
    }
}

} // verus!
