//! What a perfect 1-code is, as a set of vertex indices, and the counting
//! facts that let the code search rule a branch out: a code meets each
//! closed neighbourhood once, so no neighbourhood of a code's vertices holds
//! two `in` vertices, and a code of `m` members leaves room for the `in`
//! and unknown counts.
use vstd::prelude::*;
use crate::bits::colex;
use crate::combi::Combi;
use crate::codesearch::{nbhd, status_count, any_crowded, IN, OUT, UNKNOWN};
use crate::solver::engine::{class_count, lemma_closed_nbhd};

verus! {

/// Position `i` of `nb` names a member of `cs`.
pub open spec fn member_at(cs: Set<int>, nb: Seq<u32>, i: int) -> bool {
    cs.contains(colex(nb[i]) as int)
}

/// Exactly one of the first `k` positions of `nb` names a member of `cs`.
pub open spec fn meets_once(cs: Set<int>, nb: Seq<u32>, k: nat) -> bool {
    &&& exists|j: int| 0 <= j < k && #[trigger] member_at(cs, nb, j)
    &&& forall|i: int, j: int|
        0 <= i < k && 0 <= j < k && #[trigger] member_at(cs, nb, i) && #[trigger] member_at(cs, nb, j) ==> i == j
}

/// `cs` is a perfect 1-code of the graph of `c`: a finite set of vertices
/// that meets every closed neighbourhood exactly once.
pub open spec fn perfect_code_set(c: Combi, cs: Set<int>) -> bool {
    &&& cs.finite()
    &&& forall|u: int| #[trigger] cs.contains(u) ==> 0 <= u < c.num_vertices
    &&& forall|m: u32| #[trigger] c.is_vertex(m) ==> meets_once(cs, nbhd(c, m), c.colors as nat)
}

/// The codes the search looks for: perfect 1-codes, of `m` members when the
/// cardinality rule is on.
pub open spec fn sought(card: bool, c: Combi, cs: Set<int>) -> bool {
    perfect_code_set(c, cs) && (card ==> cs.len() == c.m)
}

/// `cs` respects every decided status: `in` vertices are members, `out`
/// vertices are not.
pub open spec fn agrees(st: Seq<u8>, cs: Set<int>) -> bool {
    forall|u: int| 0 <= u < st.len() ==> (#[trigger] st[u] == IN ==> cs.contains(u)) && (st[u] == OUT ==> !cs.contains(u))
}

/// The members of `cs` below `n`.
pub open spec fn members_below(cs: Set<int>, n: int) -> Set<int> {
    Set::new(|u: int| 0 <= u < n && cs.contains(u))
}

/// A status counted at least once occurs at some position.
pub proof fn lemma_count_pos(c: Combi, st: Seq<u8>, nb: Seq<u32>, s: u8, n: nat) -> (i: int)
    requires
        status_count(c, st, nb, s, n) >= 1,
    ensures
        0 <= i < n,
        st[colex(nb[i]) as int] == s,
    decreases n,
{
    if st[colex(nb[n - 1]) as int] == s {
        n - 1
    } else {
        lemma_count_pos(c, st, nb, s, (n - 1) as nat)
    }
}

/// A status that occurs at a position is counted.
pub proof fn lemma_count_ge1(c: Combi, st: Seq<u8>, nb: Seq<u32>, s: u8, n: nat, p: int)
    requires
        0 <= p < n,
        st[colex(nb[p]) as int] == s,
    ensures
        status_count(c, st, nb, s, n) >= 1,
    decreases n,
{
    if p < n - 1 {
        lemma_count_ge1(c, st, nb, s, (n - 1) as nat, p);
    }
}

/// A status counted twice occurs at two positions.
pub proof fn lemma_count_two(c: Combi, st: Seq<u8>, nb: Seq<u32>, s: u8, n: nat) -> (pq: (int, int))
    requires
        status_count(c, st, nb, s, n) >= 2,
    ensures
        0 <= pq.0 < pq.1 < n,
        st[colex(nb[pq.0]) as int] == s,
        st[colex(nb[pq.1]) as int] == s,
    decreases n,
{
    if st[colex(nb[n - 1]) as int] == s {
        let p = lemma_count_pos(c, st, nb, s, (n - 1) as nat);
        (p, n - 1)
    } else {
        lemma_count_two(c, st, nb, s, (n - 1) as nat)
    }
}

/// A status counted once occurs at one position only.
pub proof fn lemma_count_one(c: Combi, st: Seq<u8>, nb: Seq<u32>, s: u8, n: nat, p: int, q: int)
    requires
        status_count(c, st, nb, s, n) <= 1,
        0 <= p < n,
        0 <= q < n,
        st[colex(nb[p]) as int] == s,
        st[colex(nb[q]) as int] == s,
    ensures
        p == q,
{
    if p != q {
        let (a, b) = if p < q { (p, q) } else { (q, p) };
        lemma_count_pair(c, st, nb, s, n, a, b);
    }
}

proof fn lemma_count_pair(c: Combi, st: Seq<u8>, nb: Seq<u32>, s: u8, n: nat, p: int, q: int)
    requires
        0 <= p < q < n,
        st[colex(nb[p]) as int] == s,
        st[colex(nb[q]) as int] == s,
    ensures
        status_count(c, st, nb, s, n) >= 2,
    decreases n,
{
    if q == n - 1 {
        lemma_count_ge1(c, st, nb, s, (n - 1) as nat, p);
    } else {
        lemma_count_pair(c, st, nb, s, (n - 1) as nat, p, q);
    }
}

/// A perfect 1-code that the statuses agree with meets no closed
/// neighbourhood holding two `in` vertices.
pub proof fn lemma_not_crowded(c: Combi, st: Seq<u8>, cs: Set<int>, m: u32)
    requires
        c.params_ok(),
        c.is_vertex(m),
        st.len() == c.num_vertices,
        perfect_code_set(c, cs),
        agrees(st, cs),
    ensures
        status_count(c, st, nbhd(c, m), IN, c.colors as nat) <= 1,
{
    lemma_closed_nbhd(c, m);
    let nb = nbhd(c, m);
    if status_count(c, st, nb, IN, c.colors as nat) >= 2 {
        let (p, q) = lemma_count_two(c, st, nb, IN, c.colors as nat);
        assert(st[colex(nb[p]) as int] == IN);
        assert(st[colex(nb[q]) as int] == IN);
        assert(member_at(cs, nb, p));
        assert(member_at(cs, nb, q));
        assert(meets_once(cs, nb, c.colors as nat));
    }
}

/// No closed neighbourhood of the first `n` vertices of `ms` is crowded.
pub proof fn lemma_no_crowd(c: Combi, st: Seq<u8>, cs: Set<int>, ms: Seq<u32>, n: nat)
    requires
        c.params_ok(),
        n <= ms.len(),
        forall|i: int| 0 <= i < n ==> c.is_vertex(#[trigger] ms[i]),
        st.len() == c.num_vertices,
        perfect_code_set(c, cs),
        agrees(st, cs),
    ensures
        !any_crowded(c, st, ms, n),
    decreases n,
{
    if n > 0 {
        lemma_no_crowd(c, st, cs, ms, (n - 1) as nat);
        lemma_not_crowded(c, st, cs, ms[n - 1]);
    }
}

/// The members below `n` number at least the `in` statuses and at most the
/// `in` and unknown ones.
pub proof fn lemma_member_count(st: Seq<u8>, cs: Set<int>, n: nat)
    requires
        n <= st.len(),
        forall|u: int| 0 <= u < n ==> #[trigger] st[u] <= OUT,
        agrees(st, cs),
    ensures
        members_below(cs, n as int).finite(),
        class_count(st, IN as int, n) <= members_below(cs, n as int).len(),
        members_below(cs, n as int).len() <= class_count(st, IN as int, n) + class_count(st, UNKNOWN as int, n),
    decreases n,
{
    if n == 0 {
        assert(members_below(cs, 0) =~= Set::<int>::empty());
    } else {
        let k = (n - 1) as nat;
        lemma_member_count(st, cs, k);
        let lo = members_below(cs, k as int);
        let hi = members_below(cs, n as int);
        let u = k as int;
        assert(st[u] <= OUT);
        if cs.contains(u) {
            assert(hi =~= lo.insert(u));
            assert(!lo.contains(u));
        } else {
            assert(hi =~= lo);
        }
    }
}

/// A perfect 1-code that agrees with the statuses has at least as many
/// members as there are `in` statuses and at most as many as `in` and
/// unknown ones together.
pub proof fn lemma_code_size(st: Seq<u8>, cs: Set<int>, c: Combi)
    requires
        st.len() == c.num_vertices,
        forall|u: int| 0 <= u < st.len() ==> #[trigger] st[u] <= OUT,
        perfect_code_set(c, cs),
        agrees(st, cs),
    ensures
        class_count(st, IN as int, st.len()) <= cs.len(),
        cs.len() <= class_count(st, IN as int, st.len()) + class_count(st, UNKNOWN as int, st.len()),
{
    lemma_member_count(st, cs, st.len());
    assert(members_below(cs, st.len() as int) =~= cs);
}

} // verus!
