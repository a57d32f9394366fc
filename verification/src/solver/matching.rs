//! Optional stronger propagator: Régin-style filtering of a closed
//! neighbourhood.
//!
//! Each closed neighbourhood is a perfect matching constraint between `k+1`
//! vertices and `k+1` colours. Filtering removes every value that lies in no
//! perfect matching, which prunes strictly more than counting.
//!
//! With equal sides and a required *perfect* matching there are no free
//! vertices, so a non-matching edge survives iff its two endpoints lie in the
//! same strongly connected component of the digraph that orients matching
//! edges colour -> member and every other edge member -> colour. Since every
//! colour node has exactly one incoming (matched) edge, `member i -> colour c
//! -> member m_color[c]` is collapsed to `i -> m_color[c]`.
use vstd::prelude::*;
use crate::bits::{bit, popcount, pop_from, count_ones32, lemma_bits_logic, lemma_bit_set, lemma_bit_cleared, lemma_pop_bound};
use crate::check::lemma_pop_add_bit;
use crate::bits::{lemma_clear_smaller, below};

verus! {

/// No member or colour: the empty slot of the matching tables.
pub const NONE: usize = 0xFFFF_FFFF;

/// The partial matching stored in `mm` (member to colour) and `mc` (colour
/// to member) uses only edges of `doms`, within `n` members and `ncol`
/// colours.
pub open spec fn tables_ok(doms: Seq<u32>, mm: Seq<usize>, mc: Seq<usize>, n: nat, ncol: nat) -> bool {
    &&& mm.len() == 18
    &&& mc.len() == 18
    &&& forall|i: int| 0 <= i < 18 ==> (#[trigger] mm[i] != NONE ==> i < n && mm[i] < ncol && bit(doms[i], mm[i] as int))
    &&& forall|c: int| 0 <= c < 18 ==> (#[trigger] mc[c] != NONE ==> c < ncol && mc[c] < n)
}

/// Every matched member is the member its colour is matched to.
pub open spec fn member_side(mm: Seq<usize>, mc: Seq<usize>) -> bool {
    forall|m: int| 0 <= m < 18 && #[trigger] mm[m] != NONE ==> mc[mm[m] as int] == m
}

/// Every matched colour other than `skip` is the colour its member is
/// matched to.
pub open spec fn colour_side(mm: Seq<usize>, mc: Seq<usize>, skip: usize) -> bool {
    forall|c: int| 0 <= c < 18 && c != skip && #[trigger] mc[c] != NONE ==> mm[mc[c] as int] == c
}

/// Every colour in `s` but not in `s0` is below `ncol` and matched, and its
/// member has all of its colours below `ncol` in `s`.
pub open spec fn seen_closed(doms: Seq<u32>, mc: Seq<usize>, s0: u32, s: u32, ncol: int) -> bool {
    forall|c: int| 0 <= c < 32 && #[trigger] bit(s, c) && !bit(s0, c) ==> {
        &&& c < ncol
        &&& mc[c] != NONE
        &&& forall|t: int| 0 <= t < ncol && #[trigger] bit(doms[mc[c] as int], t) ==> bit(s, t)
    }
}

/// The positions of the set bits of `x`.
pub open spec fn bit_set(x: u32) -> Set<int> {
    Set::new(|t: int| bit(x, t))
}

/// `p` matches the members one to one onto colours of their domains.
pub open spec fn perfect(doms: Seq<u32>, p: Seq<int>) -> bool {
    &&& p.len() == doms.len()
    &&& forall|i: int| 0 <= i < p.len() ==> 0 <= #[trigger] p[i] < doms.len() && bit(doms[i], p[i])
    &&& forall|i: int, j: int| 0 <= i < j < p.len() ==> #[trigger] p[i] != #[trigger] p[j]
}

/// `x` is a subset of `y`.
pub open spec fn subset(x: u32, y: u32) -> bool {
    forall|t: int| #[trigger] bit(x, t) ==> bit(y, t)
}

proof fn lemma_shift_bit(x: u32, c: u32)
    by (bit_vector)
    requires
        c < 32,
    ensures
        ((x & (1u32 << c)) != 0) == ((x >> c) & 1 == 1),
{
}


/// Matching a free colour `c`, outside `seen`, to member `i` keeps the two
/// sides of the tables in step.
proof fn lemma_bind(mm0: Seq<usize>, mc0: Seq<usize>, mm: Seq<usize>, mc: Seq<usize>, i: int, c: int, seen: u32)
    requires
        mm0.len() == 18,
        mc0.len() == 18,
        0 <= i < 18,
        0 <= c < 18,
        forall|m: int| 0 <= m < 18 ==> #[trigger] mm0[m] == NONE || mm0[m] < 18,
        forall|x: int| 0 <= x < 18 ==> #[trigger] mc0[x] == NONE || mc0[x] < 18,
        member_side(mm0, mc0),
        colour_side(mm0, mc0, NONE),
        mc0[c] == NONE,
        !bit(seen, c),
        mm0[i] != NONE ==> bit(seen, mm0[i] as int),
        mm == mm0.update(i, c as usize),
        mc == mc0.update(c, i as usize),
    ensures
        member_side(mm, mc),
        colour_side(mm, mc, mm0[i]),
        mm0[i] != NONE ==> mc[mm0[i] as int] == i && forall|m: int| 0 <= m < 18 ==> #[trigger] mm[m] != mm0[i],
        forall|m: int| 0 <= m < 18 && #[trigger] mm[m] != mm0[m] ==> !bit(seen, mm[m] as int) && m == i,
        forall|x: int| 0 <= x < 18 && #[trigger] bit(seen, x) ==> mc[x] == mc0[x],
{
    assert forall|m: int| 0 <= m < 18 && #[trigger] mm[m] != NONE implies mc[mm[m] as int] == m by {
        if m != i {
            assert(mc0[mm0[m] as int] == m);
            if mm0[m] as int == c {
                assert(false);
            }
        }
    }
    assert forall|x: int| 0 <= x < 18 && x != mm0[i] && #[trigger] mc[x] != NONE implies mm[mc[x] as int] == x by {
        if x != c {
            assert(mm0[mc0[x] as int] == x);
        }
    }
    if mm0[i] != NONE {
        assert(mc0[mm0[i] as int] == i);
        assert forall|m: int| 0 <= m < 18 implies #[trigger] mm[m] != mm0[i] by {
            if m != i && mm[m] == mm0[i] {
                assert(mc0[mm0[m] as int] == m);
            }
        }
    }
}

/// After member `j` moved off colour `c` along an augmenting path, matching
/// `c` to member `i` puts the tables back in step.
proof fn lemma_rebind(
    mm0: Seq<usize>,
    mc0: Seq<usize>,
    mm1: Seq<usize>,
    mc1: Seq<usize>,
    mm: Seq<usize>,
    mc: Seq<usize>,
    i: int,
    j: int,
    c: int,
    seen0: u32,
    seen1: u32,
)
    requires
        mm0.len() == 18,
        mc0.len() == 18,
        mm1.len() == 18,
        mc1.len() == 18,
        0 <= i < 18,
        0 <= j < 18,
        0 <= c < 18,
        i != j,
        forall|m: int| 0 <= m < 18 ==> #[trigger] mm0[m] == NONE || mm0[m] < 18,
        forall|m: int| 0 <= m < 18 ==> #[trigger] mm1[m] == NONE || mm1[m] < 18,
        forall|x: int| 0 <= x < 18 ==> #[trigger] mc0[x] == NONE || mc0[x] < 18,
        forall|x: int| 0 <= x < 18 ==> #[trigger] mc1[x] == NONE || mc1[x] < 18,
        member_side(mm0, mc0),
        colour_side(mm0, mc0, NONE),
        mc0[c] == j as usize,
        mm0[j] == c as usize,
        !bit(seen0, c),
        bit(seen1, c),
        subset(seen0, seen1),
        mm0[i] != NONE ==> bit(seen0, mm0[i] as int),
        member_side(mm1, mc1),
        colour_side(mm1, mc1, c as usize),
        mc1[c] == j as usize,
        forall|m: int| 0 <= m < 18 ==> #[trigger] mm1[m] != c as usize,
        forall|m: int| 0 <= m < 18 && #[trigger] mm1[m] != mm0[m] ==>
            !bit(seen1, mm1[m] as int) && (m != j ==> mm0[m] != NONE && !bit(seen1, mm0[m] as int)),
        forall|x: int| 0 <= x < 18 && #[trigger] bit(seen1, x) ==> mc1[x] == mc0[x],
        forall|m: int| 0 <= m < 18 && mm0[m] != NONE ==> #[trigger] mm1[m] != NONE,
        mm == mm1.update(i, c as usize),
        mc == mc1.update(c, i as usize),
    ensures
        member_side(mm, mc),
        colour_side(mm, mc, mm0[i]),
        mm0[i] != NONE ==> mc[mm0[i] as int] == i && forall|m: int| 0 <= m < 18 ==> #[trigger] mm[m] != mm0[i],
        forall|m: int| 0 <= m < 18 && #[trigger] mm[m] != mm0[m] ==>
            !bit(seen0, mm[m] as int) && (m != i ==> mm0[m] != NONE && !bit(seen0, mm0[m] as int)),
        forall|x: int| 0 <= x < 18 && #[trigger] bit(seen0, x) ==> mc[x] == mc0[x],
        forall|m: int| 0 <= m < 18 && mm0[m] != NONE ==> #[trigger] mm[m] != NONE,
{
    // member i kept its colour through the inner search
    if mm1[i] != mm0[i] {
        assert(mm0[i] != NONE && !bit(seen1, mm0[i] as int));
        assert(bit(seen0, mm0[i] as int));
        assert(bit(seen1, mm0[i] as int));
    }
    assert(mm1[i] == mm0[i]);
    assert forall|m: int| 0 <= m < 18 && #[trigger] mm[m] != NONE implies mc[mm[m] as int] == m by {
        if m != i {
            assert(mc1[mm1[m] as int] == m);
            assert(mm1[m] != c as usize);
        }
    }
    assert forall|x: int| 0 <= x < 18 && x != mm0[i] && #[trigger] mc[x] != NONE implies mm[mc[x] as int] == x by {
        if x != c {
            assert(mm1[mc1[x] as int] == x);
            if mc1[x] as int == i {
                assert(mm1[i] == mm0[i]);
            }
        }
    }
    if mm0[i] != NONE {
        let c0 = mm0[i] as int;
        assert(mc0[c0] == i);
        assert(bit(seen1, c0));
        assert(mc1[c0] == mc0[c0]);
        assert(c0 != c);
        assert forall|m: int| 0 <= m < 18 implies #[trigger] mm[m] != mm0[i] by {
            if m != i && mm[m] == mm0[i] {
                if mm1[m] != mm0[m] {
                    assert(!bit(seen1, mm1[m] as int));
                } else {
                    assert(mc0[mm0[m] as int] == m);
                }
            }
        }
    }
    assert forall|m: int| 0 <= m < 18 && #[trigger] mm[m] != mm0[m] implies
        !bit(seen0, mm[m] as int) && (m != i ==> mm0[m] != NONE && !bit(seen0, mm0[m] as int)) by {
        if m != i {
            if m == j {
                assert(mm0[j] == c as usize);
                assert(mm1[j] != mm0[j]);
                assert(!bit(seen1, mm1[j] as int));
            } else {
                assert(mm1[m] != mm0[m]);
            }
        }
    }
    assert forall|x: int| 0 <= x < 18 && #[trigger] bit(seen0, x) implies mc[x] == mc0[x] by {
        assert(bit(seen1, x));
    }
}

/// Find an augmenting path from member `i`, trying its colours lowest
/// first and skipping colours already in `seen`.
#[verifier::spinoff_prover]
fn augment(i: usize, doms: &[u32], m_member: &mut [usize; 18], m_color: &mut [usize; 18], seen: &mut u32, ncol: usize) -> (found: bool)
    requires
        i < doms@.len(),
        doms@.len() <= 18,
        ncol <= 18,
        tables_ok(doms@, old(m_member)@, old(m_color)@, doms@.len() as nat, ncol as nat),
        member_side(old(m_member)@, old(m_color)@),
        colour_side(old(m_member)@, old(m_color)@, NONE),
        old(m_member)@[i as int] != NONE ==> bit(*old(seen), old(m_member)@[i as int] as int),
    ensures
        tables_ok(doms@, final(m_member)@, final(m_color)@, doms@.len() as nat, ncol as nat),
        forall|j: int| 0 <= j < 18 && old(m_member)@[j] != NONE ==> #[trigger] final(m_member)@[j] != NONE,
        found ==> final(m_member)@[i as int] != NONE,
        popcount(*old(seen)) <= popcount(*final(seen)) <= 32,
        subset(*old(seen), *final(seen)),
        !found ==> final(m_member)@ == old(m_member)@ && final(m_color)@ == old(m_color)@,
        found ==> member_side(final(m_member)@, final(m_color)@),
        found ==> colour_side(final(m_member)@, final(m_color)@, old(m_member)@[i as int]),
        found && old(m_member)@[i as int] != NONE ==> final(m_color)@[old(m_member)@[i as int] as int] == i
            && forall|m: int| 0 <= m < 18 ==> #[trigger] final(m_member)@[m] != old(m_member)@[i as int],
        forall|m: int| 0 <= m < 18 && #[trigger] final(m_member)@[m] != old(m_member)@[m] ==>
            !bit(*old(seen), final(m_member)@[m] as int) && (m != i ==> old(m_member)@[m] != NONE && !bit(*old(seen), old(m_member)@[m] as int)),
        forall|c: int| 0 <= c < 18 && #[trigger] bit(*old(seen), c) ==> final(m_color)@[c] == old(m_color)@[c],
        !found ==> forall|t: int| 0 <= t < ncol && #[trigger] bit(doms@[i as int], t) ==> bit(*final(seen), t),
        !found ==> seen_closed(doms@, final(m_color)@, *old(seen), *final(seen), ncol as int),
    decreases 32 - popcount(*old(seen)),
{
    let mut rest = doms[i];
    let ghost seen0 = *seen;
    let ghost mm0 = m_member@;
    let ghost mc0 = m_color@;
    proof {
        lemma_pop_bound(seen0, 0);
    }
    while rest != 0
        invariant
            i < doms@.len(),
            doms@.len() <= 18,
            ncol <= 18,
            m_member@ == mm0,
            m_color@ == mc0,
            mm0 == old(m_member)@,
            mc0 == old(m_color)@,
            tables_ok(doms@, m_member@, m_color@, doms@.len() as nat, ncol as nat),
            member_side(mm0, mc0),
            colour_side(mm0, mc0, NONE),
            mm0[i as int] != NONE ==> bit(seen0, mm0[i as int] as int),
            seen0 == *old(seen),
            subset(seen0, *seen),
            popcount(*seen) >= popcount(seen0),
            popcount(*seen) <= 32,
            subset(rest, doms@[i as int]),
            forall|t: int| 0 <= t < ncol && #[trigger] bit(doms@[i as int], t) && !bit(rest, t) ==> bit(*seen, t),
            seen_closed(doms@, mc0, seen0, *seen, ncol as int),
        decreases rest,
    {
        let c32 = rest.trailing_zeros();
        proof {
            vstd::std_specs::bits::axiom_u32_trailing_zeros(rest);
            assert(bit(rest, c32 as int));
            lemma_clear_smaller(rest, c32);
            lemma_bit_cleared(rest, c32 as int);
        }
        let c = c32 as usize;
        let ghost rest0 = rest;
        let ghost seen_a = *seen;
        rest = rest & !(1u32 << c32);
        proof {
            lemma_shift_bit(*seen, c32);
        }
        if c < ncol && *seen & (1u32 << c32) == 0 {
            let ghost before = *seen;
            *seen = *seen | (1u32 << c32);
            proof {
                lemma_pop_add_bit(before, c32 as int, 0);
                lemma_pop_bound(*seen, 0);
                lemma_bit_set(before, c32 as int);
                assert(!bit(before, c as int));
                assert(!bit(seen0, c as int));
                assert(subset(seen0, *seen));
            }
            let ghost seen1 = *seen;
            let j = m_color[c];
            if j == NONE {
                m_color[c] = i;
                m_member[i] = c;
                proof {
                    lemma_bind(mm0, mc0, m_member@, m_color@, i as int, c as int, seen0);
                }
                return true;
            }
            proof {
                assert(mm0[j as int] == c);
                assert(j != i);
            }
            if augment(j, doms, m_member, m_color, seen, ncol) {
                let ghost mm1 = m_member@;
                let ghost mc1 = m_color@;
                m_color[c] = i;
                m_member[i] = c;
                proof {
                    lemma_rebind(mm0, mc0, mm1, mc1, m_member@, m_color@, i as int, j as int, c as int, seen0, seen1);
                }
                return true;
            }
            proof {
                let s2 = *seen;
                assert forall|x: int| 0 <= x < 32 && #[trigger] bit(s2, x) && !bit(seen0, x) implies {
                    &&& x < ncol
                    &&& mc0[x] != NONE
                    &&& forall|t: int| 0 <= t < ncol && #[trigger] bit(doms@[mc0[x] as int], t) ==> bit(s2, t)
                } by {
                    if bit(seen1, x) {
                        if x == c {
                        } else {
                            assert(bit(seen_a, x));
                            assert forall|t: int| 0 <= t < ncol && #[trigger] bit(doms@[mc0[x] as int], t) implies bit(s2, t) by {
                                assert(bit(seen_a, t));
                                assert(bit(seen1, t));
                            }
                        }
                    }
                }
                assert forall|t: int| 0 <= t < ncol && #[trigger] bit(doms@[i as int], t) && !bit(rest, t) implies bit(*seen, t) by {
                    if t != c {
                        assert(!bit(rest0, t));
                        assert(bit(seen_a, t));
                        assert(bit(seen1, t));
                    } else {
                        assert(bit(seen1, t));
                    }
                }
            }
        } else {
            proof {
                assert forall|t: int| 0 <= t < ncol && #[trigger] bit(doms@[i as int], t) && !bit(rest, t) implies bit(*seen, t) by {
                    if t != c {
                        assert(!bit(rest0, t));
                    }
                }
            }
        }
    }
    proof {
        lemma_pop_bound(*seen, 0);
        crate::bits::lemma_bits_zero();
    }
    false
}

/// The set of bits of `x` is finite, with one element per set bit.
proof fn lemma_bit_set_len(x: u32, i: int)
    requires
        0 <= i <= 32,
    ensures
        Set::new(|t: int| i <= t && bit(x, t)).finite(),
        Set::new(|t: int| i <= t && bit(x, t)).len() == pop_from(x, i),
    decreases 32 - i,
{
    let here = Set::new(|t: int| i <= t && bit(x, t));
    if i == 32 {
        assert(here =~= Set::empty());
    } else {
        lemma_bit_set_len(x, i + 1);
        let next = Set::new(|t: int| i + 1 <= t && bit(x, t));
        if bit(x, i) {
            assert(here =~= next.insert(i));
        } else {
            assert(here =~= next);
        }
    }
}

/// Hall's condition, the easy direction: under a perfect matching, members
/// whose colours all lie in `s` are no more than `s` has colours.
proof fn lemma_hall(doms: Seq<u32>, p: Seq<int>, r: Set<int>, s: Set<int>)
    requires
        perfect(doms, p),
        s.finite(),
        forall|m: int| #[trigger] r.contains(m) ==> 0 <= m < doms.len(),
        forall|m: int, t: int| r.contains(m) && #[trigger] bit(doms[m], t) ==> s.contains(t),
    ensures
        r.finite(),
        r.len() <= s.len(),
{
    vstd::set_lib::lemma_int_range(0, doms.len() as int);
    vstd::set_lib::lemma_len_subset(r, vstd::set_lib::set_int_range(0, doms.len() as int));
    let f = |m: int| p[m];
    let img = r.map(f);
    assert(vstd::relations::injective_on(f, r)) by {
        assert forall|a: int, b: int| r.contains(a) && r.contains(b) && #[trigger] f(a) == #[trigger] f(b) implies a == b by {
            if a < b {
                assert(p[a] != p[b]);
            } else if b < a {
                assert(p[b] != p[a]);
            }
        }
    }
    vstd::set_lib::lemma_map_size(r, img, f);
    assert forall|y: int| #[trigger] img.contains(y) implies s.contains(y) by {
        let m = choose|m: int| r.contains(m) && f(m) == y;
        assert(bit(doms[m], p[m]));
    }
    vstd::set_lib::lemma_len_subset(img, s);
}

/// A domain with no colour leaves nothing to match.
proof fn lemma_empty_domain(doms: Seq<u32>, i: int)
    requires
        0 <= i < doms.len(),
        doms[i] == 0,
    ensures
        !matchable(doms),
{
    crate::bits::lemma_bits_zero();
    if matchable(doms) {
        let p = choose|p: Seq<int>| perfect(doms, p);
        assert(bit(doms[i], p[i]));
    }
}

/// Fewer colours in the union than members leave no perfect matching.
proof fn lemma_union_short(doms: Seq<u32>)
    requires
        popcount(union_of(doms, doms.len() as nat)) < doms.len(),
    ensures
        !matchable(doms),
{
    let n = doms.len();
    let u = union_of(doms, n as nat);
    lemma_bit_set_len(u, 0);
    let s = Set::new(|t: int| 0 <= t && bit(u, t));
    let r = vstd::set_lib::set_int_range(0, n as int);
    vstd::set_lib::lemma_int_range(0, n as int);
    if matchable(doms) {
        let p = choose|p: Seq<int>| perfect(doms, p);
        assert forall|m: int, t: int| r.contains(m) && #[trigger] bit(doms[m], t) implies s.contains(t) by {
            lemma_union_has(doms, n as nat, m);
        }
        lemma_hall(doms, p, r, s);
    }
}

/// A failed augmenting search from an unmatched member `i` leaves a Hall
/// violator: `i` and the members matched to the colours it reached, one more
/// than those colours, with all of their colours among them.
proof fn lemma_stuck(doms: Seq<u32>, mm: Seq<usize>, mc: Seq<usize>, seen: u32, i: int, ncol: int)
    requires
        doms.len() == ncol,
        ncol <= 18,
        0 <= i < ncol,
        tables_ok(doms, mm, mc, ncol as nat, ncol as nat),
        member_side(mm, mc),
        colour_side(mm, mc, NONE),
        mm[i] == NONE,
        forall|t: int| 0 <= t < ncol && #[trigger] bit(doms[i], t) ==> bit(seen, t),
        seen_closed(doms, mc, 0u32, seen, ncol),
        forall|q: int| 0 <= q < ncol ==> below(#[trigger] doms[q], ncol),
    ensures
        !matchable(doms),
{
    crate::bits::lemma_bits_zero();
    lemma_bit_set_len(seen, 0);
    let s = Set::new(|t: int| 0 <= t && bit(seen, t));
    assert forall|c: int| #[trigger] s.contains(c) implies 0 <= c < ncol && mc[c] != NONE && (mc[c] as int) < ncol by {
        assert(bit(seen, c) && !bit(0u32, c));
    }
    let f = |c: int| mc[c] as int;
    let mates = s.map(f);
    assert(vstd::relations::injective_on(f, s)) by {
        assert forall|a: int, b: int| s.contains(a) && s.contains(b) && #[trigger] f(a) == #[trigger] f(b) implies a == b by {
            assert(mm[mc[a] as int] == a);
            assert(mm[mc[b] as int] == b);
        }
    }
    vstd::set_lib::lemma_map_size(s, mates, f);
    assert(!mates.contains(i)) by {
        if mates.contains(i) {
            let c = choose|c: int| s.contains(c) && f(c) == i;
            assert(mm[mc[c] as int] == c);
        }
    }
    let r = mates.insert(i);
    if matchable(doms) {
        let p = choose|p: Seq<int>| perfect(doms, p);
        assert forall|m: int| #[trigger] r.contains(m) implies 0 <= m < doms.len() by {
            if m != i {
                let c = choose|c: int| s.contains(c) && f(c) == m;
            }
        }
        assert forall|m: int, t: int| r.contains(m) && #[trigger] bit(doms[m], t) implies s.contains(t) by {
            assert(below(doms[m], ncol));
            if m == i {
                assert(t < ncol);
            } else {
                let c = choose|c: int| s.contains(c) && f(c) == m;
                assert(bit(seen, c) && !bit(0u32, c));
                assert(t < ncol);
            }
        }
        lemma_hall(doms, p, r, s);
    }
}

/// The union of the first `i` domains.
pub open spec fn union_of(doms: Seq<u32>, i: nat) -> u32
    decreases i,
{
    if i == 0 {
        0
    } else {
        union_of(doms, (i - 1) as nat) | doms[i - 1]
    }
}

/// Some perfect matching exists.
pub open spec fn matchable(doms: Seq<u32>) -> bool {
    exists|p: Seq<int>| perfect(doms, p)
}

/// Total number of candidate colours over the first `i` members.
pub open spec fn sum_pop(doms: Seq<u32>, i: nat) -> nat
    decreases i,
{
    if i == 0 {
        0
    } else {
        sum_pop(doms, (i - 1) as nat) + popcount(doms[i - 1])
    }
}

/// How many of the first `i` members have a single candidate colour.
pub open spec fn count_single(doms: Seq<u32>, i: nat) -> nat
    decreases i,
{
    if i == 0 {
        0
    } else {
        count_single(doms, (i - 1) as nat) + if popcount(doms[i - 1]) == 1 { 1nat } else { 0nat }
    }
}

proof fn lemma_pop_or_le(x: u32, y: u32, i: int)
    requires
        0 <= i <= 32,
    ensures
        pop_from(x | y, i) <= pop_from(x, i) + pop_from(y, i),
        (forall|t: int| #[trigger] bit(y, t) ==> bit(x, t)) ==> pop_from(x | y, i) == pop_from(x, i),
    decreases 32 - i,
{
    lemma_bits_logic(x, y);
    if i < 32 {
        lemma_pop_or_le(x, y, i + 1);
    }
}

proof fn lemma_pop_below(x: u32, n: int, i: int)
    requires
        0 <= i <= 32,
        0 <= n <= 32,
        below(x, n),
    ensures
        pop_from(x, i) <= if i <= n { n - i } else { 0 },
    decreases 32 - i,
{
    if i < 32 {
        lemma_pop_below(x, n, i + 1);
    }
}

proof fn lemma_count_single(doms: Seq<u32>, i: nat)
    requires
        i <= doms.len(),
    ensures
        count_single(doms, i) <= i,
        count_single(doms, i) == i ==> forall|q: int| 0 <= q < i ==> popcount(#[trigger] doms[q]) == 1,
    decreases i,
{
    if i > 0 {
        lemma_count_single(doms, (i - 1) as nat);
    }
}

/// The union of `i` single colours has at most `i` colours, and fewer when
/// two of them coincide.
proof fn lemma_union_singles(doms: Seq<u32>, i: nat)
    requires
        i <= doms.len(),
        forall|q: int| 0 <= q < i ==> popcount(#[trigger] doms[q]) == 1,
    ensures
        popcount(union_of(doms, i)) <= i,
        (exists|a: int, b: int| 0 <= a < b < i && doms[a] == doms[b]) ==> popcount(union_of(doms, i)) < i,
    decreases i,
{
    if i == 0 {
        crate::bits::lemma_pop_zero(0);
    } else {
        let j = (i - 1) as nat;
        lemma_union_singles(doms, j);
        lemma_pop_or_le(union_of(doms, j), doms[j as int], 0);
        assert(popcount(doms[j as int]) == 1);
        if exists|a: int, b: int| 0 <= a < b < i && doms[a] == doms[b] {
            let (a, b) = choose|a: int, b: int| 0 <= a < b < i && doms[a] == doms[b];
            if b < j {
                assert(exists|a2: int, b2: int| 0 <= a2 < b2 < j && doms[a2] == doms[b2]);
            } else {
                lemma_union_has(doms, j, a);
            }
        }
    }
}

proof fn lemma_union_has(doms: Seq<u32>, i: nat, a: int)
    requires
        0 <= a < i <= doms.len(),
    ensures
        forall|t: int| #[trigger] bit(doms[a], t) ==> bit(union_of(doms, i), t),
    decreases i,
{
    lemma_bits_logic(union_of(doms, (i - 1) as nat), doms[i - 1]);
    if a < i - 1 {
        lemma_union_has(doms, (i - 1) as nat, a);
    }
}

/// Single colours, pairwise distinct and below `n`, form a perfect matching.
proof fn lemma_singles_match(doms: Seq<u32>)
    requires
        doms.len() <= 18,
        forall|q: int| 0 <= q < doms.len() ==> popcount(#[trigger] doms[q]) == 1,
        forall|q: int| 0 <= q < doms.len() ==> below(#[trigger] doms[q], doms.len() as int),
        popcount(union_of(doms, doms.len() as nat)) == doms.len(),
    ensures
        matchable(doms),
{
    let n = doms.len();
    lemma_union_singles(doms, n as nat);
    assert forall|q: int| 0 <= q < n implies exists|t: int| 0 <= t < n && bit(#[trigger] doms[q], t) by {
        crate::bits::lemma_pop_one(doms[q], 0);
        let t = choose|t: int| 0 <= t < 32 && bit(doms[q], t) && forall|u: int| 0 <= u < 32 && u != t ==> !#[trigger] bit(doms[q], u);
        assert(t < n);
    }
    let p = Seq::new(n, |q: int| choose|t: int| 0 <= t < n && bit(doms[q], t));
    assert forall|a: int, b: int| 0 <= a < b < p.len() implies #[trigger] p[a] != #[trigger] p[b] by {
        if p[a] == p[b] {
            let t = p[a];
            crate::bits::lemma_pop_one(doms[a], 0);
            crate::bits::lemma_pop_one(doms[b], 0);
            assert forall|u: int| 0 <= u < 32 implies #[trigger] bit(doms[a], u) == bit(doms[b], u) by {
                let ta = choose|x: int| 0 <= x < 32 && bit(doms[a], x) && forall|v: int| 0 <= v < 32 && v != x ==> !#[trigger] bit(doms[a], v);
                let tb = choose|x: int| 0 <= x < 32 && bit(doms[b], x) && forall|v: int| 0 <= v < 32 && v != x ==> !#[trigger] bit(doms[b], v);
                assert(bit(doms[a], t) && bit(doms[b], t));
                assert(ta == t && tb == t);
            }
            crate::bits::lemma_bits_ext(doms[a], doms[b]);
            assert(exists|a2: int, b2: int| 0 <= a2 < b2 < n && doms[a2] == doms[b2]);
        }
    }
    assert(perfect(doms, p));
}

proof fn lemma_sum_pop(doms: Seq<u32>, n: int, i: nat)
    requires
        0 <= n <= 18,
        i <= doms.len(),
        forall|q: int| 0 <= q < doms.len() ==> below(#[trigger] doms[q], n),
    ensures
        sum_pop(doms, i) <= n * i,
        (exists|q: int| 0 <= q < i && popcount(#[trigger] doms[q]) < n) ==> sum_pop(doms, i) < n * i,
    decreases i,
{
    if i > 0 {
        let j = (i - 1) as nat;
        lemma_sum_pop(doms, n, j);
        lemma_pop_below(doms[j as int], n, 0);
        assert(n * i == n * j + n) by (nonlinear_arith)
            requires
                i == j + 1,
        ;
        if exists|q: int| 0 <= q < i && popcount(#[trigger] doms[q]) < n {
            let q = choose|q: int| 0 <= q < i && popcount(#[trigger] doms[q]) < n;
            if q < j {
                assert(exists|q2: int| 0 <= q2 < j && popcount(#[trigger] doms[q2]) < n);
            }
        }
    }
}

/// Full domains: every member may take every colour, so the identity is a
/// perfect matching.
proof fn lemma_full_match(doms: Seq<u32>)
    requires
        doms.len() <= 18,
        forall|q: int| 0 <= q < doms.len() ==> below(#[trigger] doms[q], doms.len() as int),
        sum_pop(doms, doms.len() as nat) == doms.len() * doms.len(),
    ensures
        matchable(doms),
        forall|q: int, c: int| 0 <= q < doms.len() && 0 <= c < doms.len() ==> #[trigger] bit(doms[q], c),
{
    let n = doms.len();
    lemma_sum_pop(doms, n as int, n as nat);
    crate::bits::lemma_low_mask(n as u32);
    crate::bits::lemma_low_mask_pop(n as u32, 0);
    assert forall|q: int, c: int| 0 <= q < n && 0 <= c < n implies #[trigger] bit(doms[q], c) by {
        assert(popcount(doms[q]) >= n);
        let low = crate::bits::low_mask(n as u32);
        assert forall|t: int| #[trigger] bit(doms[q], t) implies bit(low, t) by {
            if 0 <= t < 32 && t >= n {
                assert(!bit(doms[q], t));
            }
        }
        crate::bits::lemma_pop_inside(low, doms[q], 0);
        lemma_bits_logic(low, doms[q]);
        crate::bits::lemma_pop_zero_mask(low & !doms[q], 0);
        assert(bit(low, c));
        assert(!bit(low & !doms[q], c));
    }
    let p = Seq::new(n, |q: int| q);
    assert(perfect(doms, p));
}

/// Some perfect matching gives member `i` the colour `c`.
pub open spec fn supported(doms: Seq<u32>, i: int, c: int) -> bool {
    exists|p: Seq<int>| perfect(doms, p) && p[i] == c
}

/// Under the matching `p0`, member `a` could take the colour of member `b`.
pub open spec fn can_take(doms: Seq<u32>, p0: Seq<int>, a: int, b: int) -> bool {
    &&& 0 <= a < doms.len()
    &&& 0 <= b < doms.len()
    &&& a != b
    &&& bit(doms[a], p0[b])
}

/// `w` is a walk of such steps through members.
pub open spec fn is_walk(doms: Seq<u32>, p0: Seq<int>, w: Seq<int>) -> bool {
    &&& w.len() >= 1
    &&& forall|s: int| 0 <= s < w.len() ==> 0 <= #[trigger] w[s] < doms.len()
    &&& forall|s: int| 0 <= s < w.len() - 1 ==> #[trigger] can_take(doms, p0, w[s], w[s + 1])
}

/// A walk leads from member `a` to member `b`.
pub open spec fn reach(doms: Seq<u32>, p0: Seq<int>, a: int, b: int) -> bool {
    exists|w: Seq<int>| #[trigger] is_walk(doms, p0, w) && w[0] == a && w.last() == b
}

/// No member occurs twice in `w`.
pub open spec fn simple(w: Seq<int>) -> bool {
    forall|s: int, u: int| 0 <= s < u < w.len() ==> #[trigger] w[s] != #[trigger] w[u]
}

proof fn lemma_reach_refl(doms: Seq<u32>, p0: Seq<int>, a: int)
    requires
        0 <= a < doms.len(),
    ensures
        reach(doms, p0, a, a),
{
    let w = seq![a];
    assert(is_walk(doms, p0, w));
}

proof fn lemma_reach_step(doms: Seq<u32>, p0: Seq<int>, a: int, b: int)
    requires
        can_take(doms, p0, a, b),
    ensures
        reach(doms, p0, a, b),
{
    let w = seq![a, b];
    assert(is_walk(doms, p0, w));
}

proof fn lemma_reach_trans(doms: Seq<u32>, p0: Seq<int>, a: int, m: int, b: int)
    requires
        reach(doms, p0, a, m),
        reach(doms, p0, m, b),
    ensures
        reach(doms, p0, a, b),
{
    let w1 = choose|w: Seq<int>| #[trigger] is_walk(doms, p0, w) && w[0] == a && w.last() == m;
    let w2 = choose|w: Seq<int>| #[trigger] is_walk(doms, p0, w) && w[0] == m && w.last() == b;
    let w = w1 + w2.skip(1);
    assert forall|s: int| 0 <= s < w.len() implies 0 <= #[trigger] w[s] < doms.len() by {
        if s < w1.len() {
            assert(w[s] == w1[s]);
        } else {
            assert(w[s] == w2[s - w1.len() + 1]);
        }
    }
    assert forall|s: int| 0 <= s < w.len() - 1 implies #[trigger] can_take(doms, p0, w[s], w[s + 1]) by {
        if s < w1.len() - 1 {
            assert(w[s] == w1[s] && w[s + 1] == w1[s + 1]);
        } else if s == w1.len() - 1 {
            assert(w[s] == w2[0]);
            assert(w[s + 1] == w2[1]);
        } else {
            let t = s - w1.len() + 1;
            assert(w[s] == w2[t] && w[s + 1] == w2[t + 1]);
        }
    }
    if w2.len() == 1 {
        assert(w =~= w1);
    } else {
        assert(w.last() == w2.last());
    }
    assert(is_walk(doms, p0, w));
}

/// A walk can be cut down to one that repeats no member.
proof fn lemma_simple_walk(doms: Seq<u32>, p0: Seq<int>, w: Seq<int>) -> (w2: Seq<int>)
    requires
        is_walk(doms, p0, w),
    ensures
        is_walk(doms, p0, w2),
        simple(w2),
        w2[0] == w[0],
        w2.last() == w.last(),
    decreases w.len(),
{
    if simple(w) {
        w
    } else {
        let (s, u) = choose|s: int, u: int| 0 <= s < u < w.len() && w[s] == w[u];
        let w1 = w.take(s + 1) + w.skip(u + 1);
        assert forall|q: int| 0 <= q < w1.len() implies 0 <= #[trigger] w1[q] < doms.len() by {
            if q <= s {
                assert(w1[q] == w[q]);
            } else {
                assert(w1[q] == w[q - s + u]);
            }
        }
        assert forall|q: int| 0 <= q < w1.len() - 1 implies #[trigger] can_take(doms, p0, w1[q], w1[q + 1]) by {
            if q < s {
                assert(w1[q] == w[q] && w1[q + 1] == w[q + 1]);
            } else if q == s {
                assert(w1[q] == w[u] && w1[q + 1] == w[u + 1]);
            } else {
                assert(w1[q] == w[q - s + u] && w1[q + 1] == w[q - s + u + 1]);
            }
        }
        assert(w1[0] == w[0]);
        if u + 1 < w.len() {
            assert(w1.last() == w.last());
        } else {
            assert(w1.last() == w[s]);
        }
        lemma_simple_walk(doms, p0, w1)
    }
}

/// Turning the colours along a cycle: if member `i` can take the colour
/// of the first member of a walk that leads to `i`, each member of the walk
/// takes the colour of the next and `i` takes that colour, which is again
/// a perfect matching.
proof fn lemma_rotate(doms: Seq<u32>, p0: Seq<int>, w: Seq<int>)
    requires
        perfect(doms, p0),
        is_walk(doms, p0, w),
        simple(w),
        w.len() >= 2,
        bit(doms[w.last()], p0[w[0]]),
    ensures
        supported(doms, w.last(), p0[w[0]]),
{
    let n = doms.len();
    let t = w.len() - 1;
    let i = w.last();
    let on = |x: int| exists|s: int| 0 <= s < t && w[s] == x;
    let at = |x: int| choose|s: int| 0 <= s < t && w[s] == x;
    let p = Seq::new(n, |x: int| if x == i { p0[w[0]] } else if on(x) { p0[w[at(x) + 1]] } else { p0[x] });
    assert forall|s: int| 0 <= s < t implies #[trigger] at(w[s]) == s by {
        let s2 = at(w[s]);
        assert(0 <= s2 < t && w[s2] == w[s]);
    }
    assert forall|x: int| 0 <= x < n implies 0 <= #[trigger] p[x] < n && bit(doms[x], p[x]) by {
        assert(0 <= p0[x] < n);
        if x == i {
            assert(0 <= w[0] < n);
        } else if on(x) {
            let s = at(x);
            assert(can_take(doms, p0, w[s], w[s + 1]));
            assert(0 <= w[s + 1] < n);
        }
    }
    // the colour each member gets is the matched colour of a member `img(x)`
    let img = |x: int| if x == i { w[0] } else if on(x) { w[at(x) + 1] } else { x };
    assert forall|x: int| 0 <= x < n implies #[trigger] p[x] == p0[img(x)] && 0 <= img(x) < n by {
        if x != i && on(x) {
            assert(0 <= w[at(x) + 1] < n);
        } else if x == i {
            assert(0 <= w[0] < n);
        }
    }
    assert forall|a: int, b: int| 0 <= a < b < p.len() implies #[trigger] p[a] != #[trigger] p[b] by {
        let ia = img(a);
        let ib = img(b);
        assert(p[a] == p0[ia] && p[b] == p0[ib]);
        if ia == ib {
            // img is one to one on members
            if a == i {
                if on(b) {
                    let sb = at(b);
                    assert(w[sb + 1] == w[0]);
                } else {
                    assert(w[0] == b);
                    assert(on(b)) by {
                        assert(0 < t && w[0] == b);
                    }
                }
            } else if b == i {
                if on(a) {
                    let sa = at(a);
                    assert(w[sa + 1] == w[0]);
                } else {
                    assert(w[0] == a);
                    assert(on(a)) by {
                        assert(0 < t && w[0] == a);
                    }
                }
            } else if on(a) && on(b) {
                let sa = at(a);
                let sb = at(b);
                assert(w[sa + 1] == w[sb + 1]);
                assert(sa == sb);
            } else if on(a) {
                let sa = at(a);
                assert(w[sa + 1] == b);
                if sa + 1 < t {
                    assert(on(b));
                } else {
                    assert(b == i);
                }
            } else if on(b) {
                let sb = at(b);
                assert(w[sb + 1] == a);
                if sb + 1 < t {
                    assert(on(a));
                } else {
                    assert(a == i);
                }
            }
        } else {
            if p0[ia] == p0[ib] {
                if ia < ib {
                    assert(p0[ia] != p0[ib]);
                } else {
                    assert(p0[ib] != p0[ia]);
                }
            }
        }
    }
    assert(perfect(doms, p));
    assert(p[i] == p0[w[0]]);
}

/// A walk leads from `a` to `b` through intermediate members below `lim`.
pub open spec fn reach_below(doms: Seq<u32>, p0: Seq<int>, a: int, b: int, lim: int) -> bool {
    exists|w: Seq<int>| #[trigger] is_walk(doms, p0, w) && w[0] == a && w.last() == b
        && forall|s: int| 0 < s < w.len() - 1 ==> #[trigger] w[s] < lim
}

/// A walk through members below `p + 1` either stays below `p` or splits
/// at `p` into two walks that do.
proof fn lemma_split_walk(doms: Seq<u32>, p0: Seq<int>, w: Seq<int>, p: int)
    requires
        is_walk(doms, p0, w),
        forall|s: int| 0 < s < w.len() - 1 ==> #[trigger] w[s] < p + 1,
    ensures
        reach_below(doms, p0, w[0], w.last(), p) || (reach_below(doms, p0, w[0], p, p) && reach_below(doms, p0, p, w.last(), p)),
    decreases w.len(),
{
    if exists|s: int| 0 < s < w.len() - 1 && w[s] == p {
        let s = choose|s: int| 0 < s < w.len() - 1 && w[s] == p;
        let w1 = w.take(s + 1);
        let w2 = w.skip(s);
        assert forall|q: int| 0 <= q < w1.len() implies 0 <= #[trigger] w1[q] < doms.len() by {
            assert(w1[q] == w[q]);
        }
        assert forall|q: int| 0 <= q < w1.len() - 1 implies #[trigger] can_take(doms, p0, w1[q], w1[q + 1]) by {
            assert(w1[q] == w[q] && w1[q + 1] == w[q + 1]);
        }
        assert forall|q: int| 0 < q < w1.len() - 1 implies #[trigger] w1[q] < p + 1 by {
            assert(w1[q] == w[q]);
        }
        assert forall|q: int| 0 <= q < w2.len() implies 0 <= #[trigger] w2[q] < doms.len() by {
            assert(w2[q] == w[q + s]);
        }
        assert forall|q: int| 0 <= q < w2.len() - 1 implies #[trigger] can_take(doms, p0, w2[q], w2[q + 1]) by {
            assert(w2[q] == w[q + s] && w2[q + 1] == w[q + s + 1]);
        }
        assert forall|q: int| 0 < q < w2.len() - 1 implies #[trigger] w2[q] < p + 1 by {
            assert(w2[q] == w[q + s]);
        }
        assert(is_walk(doms, p0, w1));
        assert(is_walk(doms, p0, w2));
        assert(w1[0] == w[0] && w1.last() == p);
        assert(w2[0] == p && w2.last() == w.last());
        lemma_split_walk(doms, p0, w1, p);
        lemma_split_walk(doms, p0, w2, p);
    } else {
        assert forall|s: int| 0 < s < w.len() - 1 implies #[trigger] w[s] < p by {
            assert(w[s] < p + 1);
        }
        assert(is_walk(doms, p0, w));
    }
}

/// Some member of the first `n` has colour `c` under `p0`.
pub open spec fn taken(p0: Seq<int>, n: int, c: int) -> bool {
    exists|x: int| 0 <= x < n && p0[x] == c
}

/// Every member colour of a perfect matching is some member's colour.
proof fn lemma_onto(doms: Seq<u32>, p0: Seq<int>)
    requires
        perfect(doms, p0),
    ensures
        forall|c: int| 0 <= c < doms.len() ==> #[trigger] taken(p0, doms.len() as int, c),
{
    let n = doms.len() as int;
    let r = vstd::set_lib::set_int_range(0, n);
    vstd::set_lib::lemma_int_range(0, n);
    let f = |x: int| p0[x];
    let img = r.map(f);
    assert(vstd::relations::injective_on(f, r)) by {
        assert forall|a: int, b: int| r.contains(a) && r.contains(b) && #[trigger] f(a) == #[trigger] f(b) implies a == b by {
            if a < b {
                assert(p0[a] != p0[b]);
            } else if b < a {
                assert(p0[b] != p0[a]);
            }
        }
    }
    vstd::set_lib::lemma_map_size(r, img, f);
    assert(img.subset_of(r)) by {
        assert forall|y: int| #[trigger] img.contains(y) implies r.contains(y) by {
            let x = choose|x: int| r.contains(x) && f(x) == y;
        }
    }
    vstd::set_lib::lemma_subset_equality(img, r);
    assert forall|c: int| 0 <= c < n implies #[trigger] taken(p0, n, c) by {
        assert(r.contains(c));
        assert(img.contains(c));
        let x = choose|x: int| r.contains(x) && f(x) == c;
    }
}

/// If some perfect matching gives member `i` the colour of member `j`
/// under `p0`, a walk leads from `j` to `i`: following, from `j`, the member
/// whose colour each member takes closes a cycle through `i`.
proof fn lemma_supported_reach(doms: Seq<u32>, p0: Seq<int>, p: Seq<int>, i: int, j: int)
    requires
        perfect(doms, p0),
        perfect(doms, p),
        0 <= i < doms.len(),
        0 <= j < doms.len(),
        p[i] == p0[j],
    ensures
        reach(doms, p0, j, i),
{
    let n = doms.len() as int;
    lemma_onto(doms, p0);
    let sigma = |x: int| choose|y: int| 0 <= y < n && p0[y] == p[x];
    assert forall|x: int| 0 <= x < n implies 0 <= #[trigger] sigma(x) < n && p0[sigma(x)] == p[x] by {
        assert(0 <= p[x] < n);
        assert(taken(p0, n, p[x]));
    }
    vstd::set_lib::lemma_int_range(0, n);
    let r = Set::new(|x: int| 0 <= x < n && reach(doms, p0, j, x));
    vstd::set_lib::lemma_len_subset(r, vstd::set_lib::set_int_range(0, n));
    lemma_reach_refl(doms, p0, j);
    assert(r.contains(j));
    let img = r.map(sigma);
    assert(vstd::relations::injective_on(sigma, r)) by {
        assert forall|a: int, b: int| r.contains(a) && r.contains(b) && #[trigger] sigma(a) == #[trigger] sigma(b) implies a == b by {
            assert(p[a] == p[b]);
            if a < b {
                assert(p[a] != p[b]);
            } else if b < a {
                assert(p[b] != p[a]);
            }
        }
    }
    vstd::set_lib::lemma_map_size(r, img, sigma);
    assert(img.subset_of(r)) by {
        assert forall|y: int| #[trigger] img.contains(y) implies r.contains(y) by {
            let x = choose|x: int| r.contains(x) && sigma(x) == y;
            if y != x {
                assert(bit(doms[x], p[x]));
                assert(can_take(doms, p0, x, y));
                lemma_reach_step(doms, p0, x, y);
                lemma_reach_trans(doms, p0, j, x, y);
            }
        }
    }
    vstd::set_lib::lemma_subset_equality(img, r);
    assert(img.contains(j));
    let y = choose|y: int| r.contains(y) && sigma(y) == j;
    assert(p[y] == p0[j]);
    if y != i {
        if y < i {
            assert(p[y] != p[i]);
        } else {
            assert(p[i] != p[y]);
        }
    }
}

/// With single colours that form a perfect matching, every colour of every
/// domain is supported.
proof fn lemma_singles_support(doms: Seq<u32>)
    requires
        matchable(doms),
        forall|q: int| 0 <= q < doms.len() ==> popcount(#[trigger] doms[q]) == 1,
    ensures
        forall|q: int, c: int| 0 <= q < doms.len() && #[trigger] bit(doms[q], c) ==> supported(doms, q, c),
{
    let p = choose|p: Seq<int>| perfect(doms, p);
    assert forall|q: int, c: int| 0 <= q < doms.len() && #[trigger] bit(doms[q], c) implies supported(doms, q, c) by {
        crate::bits::lemma_pop_one(doms[q], 0);
        assert(bit(doms[q], p[q]));
        assert(p[q] == c);
    }
}

/// With full domains, every member can take every colour: swap two
/// colours of the identity.
proof fn lemma_full_support(doms: Seq<u32>)
    requires
        forall|q: int, c: int| 0 <= q < doms.len() && 0 <= c < doms.len() ==> #[trigger] bit(doms[q], c),
        forall|q: int| 0 <= q < doms.len() ==> below(#[trigger] doms[q], doms.len() as int),
    ensures
        forall|q: int, c: int| 0 <= q < doms.len() && #[trigger] bit(doms[q], c) ==> supported(doms, q, c),
{
    let n = doms.len() as int;
    assert forall|q: int, c: int| 0 <= q < n && #[trigger] bit(doms[q], c) implies supported(doms, q, c) by {
        assert(below(doms[q], n));
        assert(0 <= c < n);
        let p = Seq::new(n as nat, |x: int| if x == q { c } else if x == c { q } else { x });
        assert forall|x: int| 0 <= x < p.len() implies 0 <= #[trigger] p[x] < n && bit(doms[x], p[x]) by {}
        assert forall|a: int, b: int| 0 <= a < b < p.len() implies #[trigger] p[a] != #[trigger] p[b] by {}
        assert(perfect(doms, p));
        assert(p[q] == c);
    }
}

/// `doms[i]` is the candidate colour set of member `i`. On success `keep[i]`
/// receives the filtered domain. Returns `false` if no perfect matching
/// exists (a Hall violator).
///
/// On domains inside the `n` colours the answer is exact: `true` exactly
/// when a perfect matching exists. A success comes with the matching the
/// augmenting search built (or the permutation or full domains the quick
/// exits saw); a failed search leaves a Hall violator, the stuck member and
/// the members matched to the colours it reached. Each kept domain is a
/// non-empty part of the original, and holds exactly the colours that some
/// perfect matching gives that member: a kept colour is the member's own,
/// or the closure found an alternating cycle through it along which the
/// colours can be turned; a colour of another perfect matching leads, by
/// following whose colour each member takes, along such a cycle, which the
/// closure finds.
pub fn filter(doms: &[u32], ncol: usize, keep: &mut [u32]) -> (ok: bool)
    requires
        doms@.len() == ncol,
        ncol <= 18,
        old(keep)@.len() >= doms@.len(),
    ensures
        final(keep)@.len() == old(keep)@.len(),
        ok ==> forall|i: int| 0 <= i < doms@.len() ==> subset(#[trigger] final(keep)@[i], doms@[i]) && final(keep)@[i] != 0,
        (exists|i: int| 0 <= i < doms@.len() && #[trigger] doms@[i] == 0) ==> !ok,
        popcount(union_of(doms@, doms@.len() as nat)) < doms@.len() ==> !ok,
        (forall|i: int| 0 <= i < doms@.len() ==> below(#[trigger] doms@[i], ncol as int)) ==> (ok <==> matchable(doms@)),
        ok && (forall|i: int| 0 <= i < doms@.len() ==> below(#[trigger] doms@[i], ncol as int)) ==>
            forall|q: int, c: int| 0 <= q < doms@.len() && #[trigger] bit(final(keep)@[q], c) ==> supported(doms@, q, c),
        ok && (forall|i: int| 0 <= i < doms@.len() ==> below(#[trigger] doms@[i], ncol as int)) ==>
            forall|q: int, c: int| 0 <= q < doms@.len() && #[trigger] supported(doms@, q, c) ==> bit(final(keep)@[q], c),
{
    let n = doms.len();
    let ghost ds = doms@;

    // Cheap exits before any matching work.
    let mut union: u32 = 0;
    let mut total_bits: u32 = 0;
    let mut singletons: usize = 0;
    let mut i: usize = 0;
    while i < n
        invariant
            n == ds.len(),
            ds == doms@,
            n <= 18,
            keep@.len() == old(keep)@.len(),
            keep@.len() >= n,
            i <= n,
            union == union_of(ds, i as nat),
            total_bits <= 32 * i,
            total_bits == sum_pop(ds, i as nat),
            singletons == count_single(ds, i as nat),
            singletons <= i,
            forall|q: int| 0 <= q < i ==> #[trigger] ds[q] != 0 && keep@[q] == ds[q],
        decreases n - i,
    {
        let d = doms[i];
        if d == 0 {
            proof {
                lemma_empty_domain(ds, i as int);
            }
            return false;
        }
        union = union | d;
        let pc = count_ones32(d);
        proof {
            lemma_pop_bound(d, 0);
        }
        total_bits = total_bits + pc;
        if pc == 1 {
            singletons += 1;
        }
        keep[i] = d;
        i += 1;
    }
    let ucount = count_ones32(union);
    if (ucount as usize) < n {
        proof {
            lemma_union_short(ds);
        }
        return false; // Hall violator on the whole set
    }
    proof {
        assert forall|q: int| 0 <= q < n implies subset(#[trigger] keep@[q], ds[q]) && keep@[q] != 0 by {
            assert(ds[q] != 0);
            assert(keep@[q] == ds[q]);
        }
        assert(!(exists|q: int| 0 <= q < ds.len() && #[trigger] ds[q] == 0));
    }
    if singletons == n {
        proof {
            lemma_count_single(ds, n as nat);
            lemma_union_singles(ds, n as nat);
            assert(ucount as usize == n);
            if forall|q: int| 0 <= q < n ==> below(#[trigger] ds[q], ncol as int) {
                lemma_singles_match(ds);
                lemma_singles_support(ds);
                assert forall|q: int, c: int| 0 <= q < n && #[trigger] bit(keep@[q], c) implies supported(ds, q, c) by {
                    assert(keep@[q] == ds[q]);
                }
                assert forall|q: int, c: int| 0 <= q < n && #[trigger] supported(ds, q, c) implies bit(keep@[q], c) by {
                    assert(keep@[q] == ds[q]);
                    let pp = choose|pp: Seq<int>| perfect(ds, pp) && pp[q] == c;
                    assert(bit(ds[q], pp[q]));
                }
            }
        }
        // a permutation already, or a duplicate that counting has flagged
        return ucount as usize == n;
    }
    assert(n * n <= 324) by (nonlinear_arith)
        requires
            n <= 18,
    ;
    if total_bits as usize == n * n {
        proof {
            if forall|q: int| 0 <= q < n ==> below(#[trigger] ds[q], ncol as int) {
                lemma_full_match(ds);
                lemma_full_support(ds);
                assert forall|q: int, c: int| 0 <= q < n && #[trigger] bit(keep@[q], c) implies supported(ds, q, c) by {
                    assert(keep@[q] == ds[q]);
                }
                assert forall|q: int, c: int| 0 <= q < n && #[trigger] supported(ds, q, c) implies bit(keep@[q], c) by {
                    assert(keep@[q] == ds[q]);
                    let pp = choose|pp: Seq<int>| perfect(ds, pp) && pp[q] == c;
                    assert(bit(ds[q], pp[q]));
                }
            }
        }
        return true; // every colour open to everyone: nothing is filterable
    }

    let mut m_member: [usize; 18] = [NONE; 18];
    let mut m_color: [usize; 18] = [NONE; 18];
    let mut i: usize = 0;
    while i < n
        invariant
            n == ds.len(),
            ds == doms@,
            n == ncol,
            n <= 18,
            i <= n,
            keep@.len() == old(keep)@.len(),
            tables_ok(ds, m_member@, m_color@, n as nat, ncol as nat),
            forall|q: int| 0 <= q < i ==> #[trigger] m_member@[q] != NONE,
            forall|q: int| i <= q < 18 ==> #[trigger] m_member@[q] == NONE,
            member_side(m_member@, m_color@),
            colour_side(m_member@, m_color@, NONE),
        decreases n - i,
    {
        let mut seen: u32 = 0;
        let ghost mm0 = m_member@;
        let ghost mc0 = m_color@;
        if !augment(i, doms, &mut m_member, &mut m_color, &mut seen, ncol) {
            proof {
                if forall|q: int| 0 <= q < n ==> below(#[trigger] ds[q], ncol as int) {
                    lemma_stuck(ds, mm0, mc0, seen, i as int, ncol as int);
                }
            }
            return false;
        }
        i += 1;
    }
    let ghost p0 = Seq::new(n as nat, |q: int| m_member@[q] as int);
    proof {
        let mm = m_member@;
        let p = p0;
        assert forall|a: int, b: int| 0 <= a < b < p.len() implies #[trigger] p[a] != #[trigger] p[b] by {
            assert(m_color@[mm[a] as int] == a);
            assert(m_color@[mm[b] as int] == b);
        }
        assert(perfect(ds, p));
    }

    // Contracted digraph on members: i -> j iff member i could take the
    // colour currently matched to member j.
    let mut adj: [u32; 18] = [0u32; 18];
    let mut i: usize = 0;
    while i < n
        invariant
            n == ds.len(),
            ds == doms@,
            n == ncol,
            n <= 18,
            i <= n,
            tables_ok(ds, m_member@, m_color@, n as nat, ncol as nat),
            forall|q: int| 0 <= q < n ==> #[trigger] m_member@[q] != NONE,
            matchable(ds),
            adj@.len() == 18,
            keep@.len() == old(keep)@.len(),
            keep@.len() >= n,
            perfect(ds, p0),
            forall|q: int| 0 <= q < n ==> #[trigger] p0[q] == m_member@[q] as int,
            member_side(m_member@, m_color@),
            colour_side(m_member@, m_color@, NONE),
            forall|x: int, b: int| 0 <= x < i && #[trigger] bit(adj@[x], b) ==> reach(ds, p0, x, b),
            forall|x: int| 0 <= x < i ==> #[trigger] bit(adj@[x], x),
            forall|x: int, b: int| 0 <= x < i && 0 <= b < n && #[trigger] can_take(ds, p0, x, b) ==> bit(adj@[x], b),
        decreases n - i,
    {
        let mi = m_member[i] as u32;
        let mut rest = doms[i] & !(1u32 << mi);
        let mut a: u32 = 1u32 << (i as u32);
        proof {
            lemma_bit_cleared(ds[i as int], mi as int);
            crate::solver::engine::lemma_single_bit(i as u32);
            lemma_reach_refl(ds, p0, i as int);
            assert forall|b: int| 0 <= b < n && #[trigger] can_take(ds, p0, i as int, b) implies bit(rest, p0[b]) by {
                if p0[b] == mi {
                    assert(p0[b] == p0[i as int]);
                    if b < i {
                        assert(p0[b] != p0[i as int]);
                    } else {
                        assert(p0[i as int] != p0[b]);
                    }
                }
            }
        }
        while rest != 0
            invariant
                n <= 18,
                n == ncol,
                n == ds.len(),
                i < n,
                tables_ok(ds, m_member@, m_color@, n as nat, ncol as nat),
                matchable(ds),
                perfect(ds, p0),
                forall|q: int| 0 <= q < n ==> #[trigger] p0[q] == m_member@[q] as int,
                colour_side(m_member@, m_color@, NONE),
                mi == m_member@[i as int],
                forall|t: int| #[trigger] bit(rest, t) ==> bit(ds[i as int], t) && t != mi,
                forall|b: int| #[trigger] bit(a, b) ==> reach(ds, p0, i as int, b),
                member_side(m_member@, m_color@),
                bit(a, i as int),
                forall|b: int| 0 <= b < n && #[trigger] can_take(ds, p0, i as int, b) && !bit(rest, p0[b]) ==> bit(a, b),
            decreases rest,
        {
            let c32 = rest.trailing_zeros();
            proof {
                vstd::std_specs::bits::axiom_u32_trailing_zeros(rest);
                lemma_clear_smaller(rest, c32);
                assert(bit(rest, c32 as int));
                lemma_bit_cleared(rest, c32 as int);
            }
            let c = c32 as usize;
            let ghost rest0 = rest;
            rest = rest & !(1u32 << c32);
            proof {
                assert forall|b: int| 0 <= b < n && p0[b] == c implies (c < ncol && m_color@[c as int] == b) by {
                    assert(m_member@[b] == c);
                }
            }
            let ghost a_before = a;
            if c < ncol && m_color[c] != NONE {
                let b = m_color[c];
                let ghost a0 = a;
                a = a | (1u32 << (b as u32));
                proof {
                    lemma_bit_set(a0, b as int);
                    assert(m_member@[b as int] == c);
                    assert(p0[b as int] == c);
                    assert(bit(ds[i as int], c as int) && c != mi);
                    assert(b != i);
                    assert(can_take(ds, p0, i as int, b as int));
                    lemma_reach_step(ds, p0, i as int, b as int);
                }
            }
            proof {
                assert forall|b: int| 0 <= b < n && #[trigger] can_take(ds, p0, i as int, b) && !bit(rest, p0[b]) implies bit(a, b) by {
                    if p0[b] != c {
                        assert(!bit(rest0, p0[b]));
                        assert(bit(a_before, b));
                        if a != a_before {
                            lemma_bit_set(a_before, m_color@[c as int] as int);
                        }
                    } else {
                        assert(0 <= p0[b] < n);
                        assert(m_member@[b] == c);
                        assert(m_color@[c as int] == b);
                        lemma_bit_set(a_before, b);
                    }
                }
                if a != a_before {
                    lemma_bit_set(a_before, m_color@[c as int] as int);
                }
            }
        }
        let ghost adj0 = adj@;
        adj[i] = a;
        proof {
            assert forall|x: int, b: int| 0 <= x < i + 1 && #[trigger] bit(adj@[x], b) implies reach(ds, p0, x, b) by {
                if x < i {
                    assert(adj@[x] == adj0[x]);
                }
            }
            assert forall|x: int| 0 <= x < i + 1 implies #[trigger] bit(adj@[x], x) by {
                if x < i {
                    assert(adj@[x] == adj0[x]);
                }
            }
            assert forall|x: int, b: int| 0 <= x < i + 1 && 0 <= b < n && #[trigger] can_take(ds, p0, x, b) implies bit(adj@[x], b) by {
                if x < i {
                    assert(adj@[x] == adj0[x]);
                } else {
                    assert(!bit(0u32, p0[b])) by {
                        crate::bits::lemma_bits_zero();
                    }
                }
            }
        }
        i += 1;
    }
    // transitive closure
    proof {
        assert forall|x: int, b: int| 0 <= x < n && 0 <= b < n && #[trigger] reach_below(ds, p0, x, b, 0) implies bit(adj@[x], b) by {
            let w = choose|w: Seq<int>| #[trigger] is_walk(ds, p0, w) && w[0] == x && w.last() == b
                && forall|s: int| 0 < s < w.len() - 1 ==> #[trigger] w[s] < 0;
            if w.len() >= 3 {
                assert(w[1] < 0);
                assert(0 <= w[1]);
            } else if w.len() == 2 {
                assert(can_take(ds, p0, w[0], w[1]));
            }
        }
    }
    let mut p: usize = 0;
    while p < n
        invariant
            n == ds.len(),
            ds == doms@,
            n == ncol,
            n <= 18,
            p <= n,
            adj@.len() == 18,
            keep@.len() == old(keep)@.len(),
            keep@.len() >= n,
            tables_ok(ds, m_member@, m_color@, n as nat, ncol as nat),
            forall|q: int| 0 <= q < n ==> #[trigger] m_member@[q] != NONE,
            matchable(ds),
            perfect(ds, p0),
            forall|q: int| 0 <= q < n ==> #[trigger] p0[q] == m_member@[q] as int,
            member_side(m_member@, m_color@),
            colour_side(m_member@, m_color@, NONE),
            forall|x: int, b: int| 0 <= x < n && #[trigger] bit(adj@[x], b) ==> reach(ds, p0, x, b),
            forall|x: int, b: int| 0 <= x < n && 0 <= b < n && #[trigger] reach_below(ds, p0, x, b, p as int) ==> bit(adj@[x], b),
        decreases n - p,
    {
        let bit_p = 1u32 << (p as u32);
        let rp = adj[p];
        let ghost adj_start = adj@;
        let mut a: usize = 0;
        while a < n
            invariant
                n <= 18,
                n == ds.len(),
                p < n,
                a <= n,
                adj@.len() == 18,
                matchable(ds),
                forall|x: int, b: int| 0 <= x < n && #[trigger] bit(adj@[x], b) ==> reach(ds, p0, x, b),
                forall|b: int| #[trigger] bit(rp, b) ==> reach(ds, p0, p as int, b),
                bit_p == 1u32 << (p as u32),
                rp == adj_start[p as int],
                forall|x: int, b: int| 0 <= x < n && 0 <= b < n && #[trigger] reach_below(ds, p0, x, b, p as int) ==> bit(adj_start[x], b),
                forall|x: int| a <= x < n ==> #[trigger] adj@[x] == adj_start[x],
                forall|x: int, b: int| 0 <= x < a && 0 <= b < n && #[trigger] reach_below(ds, p0, x, b, p + 1) ==> bit(adj@[x], b),
            decreases n - a,
        {
            proof {
                lemma_shift_bit(adj@[a as int], p as u32);
            }
            let ghost adj_a = adj@;
            if adj[a] & bit_p != 0 {
                let ghost adj0 = adj@;
                adj[a] = adj[a] | rp;
                proof {
                    lemma_bits_logic(adj0[a as int], rp);
                    assert(bit(adj0[a as int], p as int));
                    assert forall|x: int, b: int| 0 <= x < n && #[trigger] bit(adj@[x], b) implies reach(ds, p0, x, b) by {
                        if x == a {
                            if bit(adj0[x], b) {
                            } else {
                                assert(bit(rp, b));
                                lemma_reach_trans(ds, p0, x, p as int, b);
                            }
                        } else {
                            assert(adj@[x] == adj0[x]);
                        }
                    }
                }
            }
            proof {
                if adj@[a as int] != adj_a[a as int] {
                    lemma_bits_logic(adj_a[a as int], rp);
                }
                assert forall|x: int, b: int| 0 <= x < a + 1 && 0 <= b < n && #[trigger] reach_below(ds, p0, x, b, p + 1) implies bit(adj@[x], b) by {
                    if x < a {
                        assert(adj@[x] == adj_a[x]);
                    } else {
                        let w = choose|w: Seq<int>| #[trigger] is_walk(ds, p0, w) && w[0] == x && w.last() == b
                            && forall|s: int| 0 < s < w.len() - 1 ==> #[trigger] w[s] < p + 1;
                        lemma_split_walk(ds, p0, w, p as int);
                        assert(adj_a[x] == adj_start[x]);
                        if reach_below(ds, p0, x, b, p as int) {
                            assert(bit(adj_start[x], b));
                        } else {
                            assert(reach_below(ds, p0, x, p as int, p as int));
                            assert(reach_below(ds, p0, p as int, b, p as int));
                            assert(bit(adj_start[x], p as int));
                            assert(bit(rp, b));
                            assert(adj@[x] == (adj_a[x] | rp));
                        }
                    }
                }
                assert forall|x: int| a + 1 <= x < n implies #[trigger] adj@[x] == adj_start[x] by {
                    assert(adj@[x] == adj_a[x]);
                }
            }
            a += 1;
        }
        p += 1;
    }
    proof {
        assert forall|x: int, b: int| 0 <= x < n && 0 <= b < n && #[trigger] reach(ds, p0, x, b) implies bit(adj@[x], b) by {
            let w = choose|w: Seq<int>| #[trigger] is_walk(ds, p0, w) && w[0] == x && w.last() == b;
            assert forall|s: int| 0 < s < w.len() - 1 implies #[trigger] w[s] < n by {}
            assert(reach_below(ds, p0, x, b, n as int));
        }
    }

    let mut i: usize = 0;
    while i < n
        invariant
            n == ds.len(),
            ds == doms@,
            n == ncol,
            n <= 18,
            i <= n,
            keep@.len() == old(keep)@.len(),
            keep@.len() >= n,
            tables_ok(ds, m_member@, m_color@, n as nat, ncol as nat),
            forall|q: int| 0 <= q < n ==> #[trigger] m_member@[q] != NONE,
            matchable(ds),
            adj@.len() == 18,
            forall|q: int| 0 <= q < i ==> subset(#[trigger] keep@[q], ds[q]) && keep@[q] != 0,
            perfect(ds, p0),
            forall|q: int| 0 <= q < n ==> #[trigger] p0[q] == m_member@[q] as int,
            colour_side(m_member@, m_color@, NONE),
            forall|x: int, b: int| 0 <= x < n && #[trigger] bit(adj@[x], b) ==> reach(ds, p0, x, b),
            forall|q: int, t: int| 0 <= q < i && #[trigger] bit(keep@[q], t) ==> supported(ds, q, t),
            forall|x: int, b: int| 0 <= x < n && 0 <= b < n && #[trigger] reach(ds, p0, x, b) ==> bit(adj@[x], b),
            member_side(m_member@, m_color@),
            forall|q: int, t: int| 0 <= q < i && #[trigger] supported(ds, q, t) ==> bit(keep@[q], t),
        decreases n - i,
    {
        let mi = m_member[i] as u32;
        let mut kk: u32 = 1u32 << mi;
        proof {
            assert(bit(ds[i as int], mi as int));
            lemma_bit_set(0u32, mi as int);
            crate::bits::lemma_bits_zero();
            crate::bits::lemma_or_zero(1u32 << mi);
            assert forall|t: int| #[trigger] bit(kk, t) implies bit(ds[i as int], t) && t == mi by {
                assert(bit(0u32 | (1u32 << mi), t) == (bit(0u32, t) || t == mi));
            }
            assert(bit(kk, mi as int));
            assert(p0[i as int] == mi);
            assert(supported(ds, i as int, mi as int));
        }
        let mut rest = doms[i] & !kk;
        proof {
            lemma_bits_logic(ds[i as int], kk);
            assert forall|t: int| #[trigger] supported(ds, i as int, t) && !bit(rest, t) implies bit(kk, t) by {
                let pp = choose|pp: Seq<int>| perfect(ds, pp) && pp[i as int] == t;
                assert(bit(ds[i as int], pp[i as int]));
            }
            lemma_onto(ds, p0);
        }
        while rest != 0
            invariant
                n <= 18,
                n == ncol,
                i < n,
                tables_ok(ds, m_member@, m_color@, n as nat, ncol as nat),
                adj@.len() == 18,
                subset(rest, ds[i as int]),
                subset(kk, ds[i as int]),
                kk != 0,
                matchable(ds),
                n == ds.len(),
                perfect(ds, p0),
                forall|q: int| 0 <= q < n ==> #[trigger] p0[q] == m_member@[q] as int,
                colour_side(m_member@, m_color@, NONE),
                forall|x: int, b: int| 0 <= x < n && #[trigger] bit(adj@[x], b) ==> reach(ds, p0, x, b),
                forall|t: int| #[trigger] bit(kk, t) ==> supported(ds, i as int, t),
                forall|x: int, b: int| 0 <= x < n && 0 <= b < n && #[trigger] reach(ds, p0, x, b) ==> bit(adj@[x], b),
                member_side(m_member@, m_color@),
                forall|t: int| #[trigger] supported(ds, i as int, t) && !bit(rest, t) ==> bit(kk, t),
                !bit(rest, p0[i as int]),
                forall|c: int| 0 <= c < n ==> #[trigger] taken(p0, n as int, c),
            decreases rest,
        {
            let c32 = rest.trailing_zeros();
            proof {
                vstd::std_specs::bits::axiom_u32_trailing_zeros(rest);
                assert(bit(rest, c32 as int));
                lemma_clear_smaller(rest, c32);
                lemma_bit_cleared(rest, c32 as int);
            }
            let c = c32 as usize;
            let ghost rest0 = rest;
            let ghost kk_before = kk;
            rest = rest & !(1u32 << c32);
            proof {
                if supported(ds, i as int, c as int) {
                    let pp = choose|pp: Seq<int>| perfect(ds, pp) && pp[i as int] == c as int;
                    assert(0 <= pp[i as int] < n);
                    assert(taken(p0, n as int, c as int));
                    let x = choose|x: int| 0 <= x < n && p0[x] == c as int;
                    assert(m_member@[x] == c);
                    assert(m_color@[c as int] == x);
                    assert(x != i) by {
                        assert(bit(rest0, c as int));
                    }
                    lemma_supported_reach(ds, p0, pp, i as int, x);
                    assert(bit(adj@[x], i as int));
                }
            }
            if c < ncol {
                let j = m_color[c];
                proof {
                    if j != NONE {
                        lemma_shift_bit(adj@[j as int], i as u32);
                    }
                }
                if j != NONE && adj[j] & (1u32 << (i as u32)) != 0 {
                    let ghost k0 = kk;
                    kk = kk | (1u32 << c32);
                    proof {
                        lemma_bit_set(k0, c32 as int);
                        assert(bit(adj@[j as int], i as int));
                        assert(reach(ds, p0, j as int, i as int));
                        assert(m_member@[j as int] == c);
                        assert(p0[j as int] == c);
                        assert(bit(ds[i as int], c as int));
                        if j as int == i as int {
                        } else {
                            let w = choose|w: Seq<int>| #[trigger] is_walk(ds, p0, w) && w[0] == j as int && w.last() == i as int;
                            let w2 = lemma_simple_walk(ds, p0, w);
                            assert(w2.len() >= 2) by {
                                if w2.len() < 2 {
                                    assert(w2[0] == w2.last());
                                }
                            }
                            lemma_rotate(ds, p0, w2);
                        }
                        assert forall|t: int| #[trigger] bit(kk, t) implies supported(ds, i as int, t) by {
                            if t != c32 {
                                assert(bit(k0, t));
                            }
                        }
                        crate::bits::lemma_bits_zero();
                        if kk == 0 {
                            assert(!bit(kk, c32 as int));
                        }
                    }
                }
            }
        }
        let ghost keep0 = keep@;
        keep[i] = kk;
        proof {
            assert forall|q: int, t: int| 0 <= q < i + 1 && #[trigger] bit(keep@[q], t) implies supported(ds, q, t) by {
                if q < i {
                    assert(keep@[q] == keep0[q]);
                }
            }
            crate::bits::lemma_bits_zero();
            assert forall|q: int, t: int| 0 <= q < i + 1 && #[trigger] supported(ds, q, t) implies bit(keep@[q], t) by {
                if q < i {
                    assert(keep@[q] == keep0[q]);
                } else {
                    assert(!bit(rest, t));
                }
            }
        }
        i += 1;
    }
    true
}

} // verus!
