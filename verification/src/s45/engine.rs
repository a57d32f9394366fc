//! `S(4,5,v)` as exact cover, with the triple-derived perfect-matching
//! propagator.
//!
//! Items are the 4-subsets of `[v]`, options the 5-subsets; a block set is a
//! selection of options covering every item exactly once.
//!
//! For every 3-subset `T` of `[v]`, the 4-sets `T ∪ {x}` are each covered by
//! a unique block, and every block containing `T` has the form
//! `T ∪ {x,y}`. So the blocks through `T` induce a perfect matching on the
//! `v-3` points outside `T`. Each option is an edge in `C(5,3) = 10` such
//! graphs, and the inference is perfect-matching feasibility, by blossom,
//! because these graphs are not bipartite.
//!
//! Every subset is filed under its colex rank among the subsets of its
//! size. The availability count of an item is kept exact whether or not
//! the item is covered, so it always equals the number of its options not
//! excluded.
use vstd::prelude::*;
use std::collections::VecDeque;
use crate::bits::{bit, binom, colex, popcount, pop_from, below, low_mask, lemma_low_mask, lemma_bits_logic,
    lemma_colex_below, lemma_colex_injective, lemma_low_mask_pop, lemma_bits_zero};
use crate::check::{positions, lemma_positions};
use crate::combi::{Binom, colex_partial, colex_unrank};
use crate::s45::blossom::Blossom;
use crate::s45::verify::{block_points, points, verify, is_s45};
use crate::solver::Outcome;
use crate::solver::search::{clock_now, elapsed_ms, limit_verdict, text_string};

verus! {

pub const UNKNOWN: u8 = 0;
pub const IN: u8 = 1;
pub const OUT: u8 = 2;

/// The cause recorded for an option excluded directly rather than by a
/// cascade from an included one.
pub const NO_CAUSE: u32 = 0xFFFF_FFFF;

#[derive(Clone, Copy, Debug, PartialEq, Eq)]
pub enum Why {
    Cover,
    Cardinality,
    Matching,
}

// ---------------------------------------------------------------------------
// Subsets and their ranks
// ---------------------------------------------------------------------------

/// `m` is the `r`-subset of `[v]` of colex rank `i`.
pub open spec fn ranked(m: u32, v: u32, r: nat, i: int) -> bool {
    popcount(m) == r && below(m, v as int) && colex(m) == i
}

/// The `r`-subset of `[v]` of colex rank `i`.
pub open spec fn subset_of_rank(v: u32, r: nat, i: int) -> u32 {
    choose|m: u32| ranked(m, v, r, i)
}

/// Entry `(a, b)` of a table with rows of width `w`.
pub open spec fn at2<T>(s: Seq<T>, w: int, a: int, b: int) -> T {
    s[a * w + b]
}

/// Entry `(a, b, c)` of a table with rows of width `w * w`.
pub open spec fn at3<T>(s: Seq<T>, w: int, a: int, b: int, c: int) -> T {
    s[a * w * w + b * w + c]
}

/// Row `a`, column `b` of a table of `n` rows of width `w` is inside it.
pub proof fn lemma_index2(a: int, b: int, n: int, w: int)
    requires
        0 <= a < n,
        0 <= b < w,
    ensures
        0 <= a * w + b < n * w,
        a * w + b + 1 <= n * w,
        n * w == w * n,
{
    assert(n * w == w * n) by (nonlinear_arith);
    assert(0 <= a * w + b < n * w) by (nonlinear_arith)
        requires
            0 <= a < n,
            0 <= b < w,
    ;
}

pub proof fn lemma_index3(a: int, b: int, c: int, n: int, w: int)
    requires
        0 <= a < n,
        0 <= b < w,
        0 <= c < w,
    ensures
        0 <= a * w * w + b * w + c < n * w * w,
{
    assert(0 <= a * w * w + b * w + c < n * w * w) by (nonlinear_arith)
        requires
            0 <= a < n,
            0 <= b < w,
            0 <= c < w,
    ;
}

/// The unique subset of a rank is the one `choose` finds.
proof fn lemma_subset_of_rank(m: u32, v: u32, r: nat, i: int)
    requires
        ranked(m, v, r, i),
    ensures
        subset_of_rank(v, r, i) == m,
{
    let w = subset_of_rank(v, r, i);
    assert(ranked(w, v, r, i));
    lemma_colex_injective(w, m);
}

/// The points of a subset `m` of `[v]`, and the points of `[v]` outside it,
/// ascending.
proof fn lemma_points(m: u32, v: u32)
    requires
        v <= 32,
        below(m, v as int),
    ensures
        block_points(m, v).len() == popcount(m),
        forall|q: int| 0 <= q < block_points(m, v).len() ==> #[trigger] block_points(m, v)[q] < v && bit(m, block_points(m, v)[q] as int),
        forall|a: int, b: int| 0 <= a < b < block_points(m, v).len() ==> block_points(m, v)[a] < block_points(m, v)[b],
        block_points(!m, v).len() == v - popcount(m),
        forall|q: int| 0 <= q < block_points(!m, v).len() ==> #[trigger] block_points(!m, v)[q] < v && !bit(m, block_points(!m, v)[q] as int),
        forall|a: int, b: int| 0 <= a < b < block_points(!m, v).len() ==> block_points(!m, v)[a] < block_points(!m, v)[b],
        forall|t: int| 0 <= t < v && bit(m, t) ==> exists|q: int| 0 <= q < block_points(m, v).len() && #[trigger] block_points(m, v)[q] == t,
        forall|t: int| 0 <= t < v && !bit(m, t) ==> exists|q: int| 0 <= q < block_points(!m, v).len() && #[trigger] block_points(!m, v)[q] == t,
{
    lemma_low_mask(v);
    lemma_bits_logic(m, low_mask(v));
    lemma_bits_logic(!m, low_mask(v));
    lemma_bits_logic(low_mask(v), m);
    let a = m & low_mask(v);
    let c = !m & low_mask(v);
    lemma_positions(a, 0);
    lemma_positions(c, 0);
    assert(a == m) by {
        assert forall|t: int| #[trigger] bit(a, t) == bit(m, t) by {}
        crate::bits::lemma_bits_ext(a, m);
    }
    assert forall|t: int| 0 <= t < 32 implies #[trigger] bit(!m, t) == !bit(m, t) by {
        let tt = t as u32;
        assert((((!m) >> tt) & 1 == 1) == !((m >> tt) & 1 == 1)) by (bit_vector)
            requires
                tt < 32,
        ;
    }
    assert(c == low_mask(v) & !m) by {
        assert forall|t: int| #[trigger] bit(c, t) == bit(low_mask(v) & !m, t) by {}
        crate::bits::lemma_bits_ext(c, low_mask(v) & !m);
    }
    assert forall|t: int| #[trigger] bit(m, t) implies bit(low_mask(v), t) by {}
    crate::bits::lemma_pop_inside(low_mask(v), m, 0);
    lemma_low_mask_pop(v, 0);
    assert forall|t: int| 0 <= t < v && bit(m, t) implies exists|q: int| 0 <= q < block_points(m, v).len() && #[trigger] block_points(m, v)[q] == t by {
        assert(bit(m & low_mask(v), t));
        let q = choose|q: int| 0 <= q < positions(m & low_mask(v), 0).len() && #[trigger] positions(m & low_mask(v), 0)[q] == t;
        assert(block_points(m, v)[q] == t);
    }
    assert forall|t: int| 0 <= t < v && !bit(m, t) implies exists|q: int| 0 <= q < block_points(!m, v).len() && #[trigger] block_points(!m, v)[q] == t by {
        assert(bit(!m & low_mask(v), t));
        let q = choose|q: int| 0 <= q < positions(!m & low_mask(v), 0).len() && #[trigger] positions(!m & low_mask(v), 0)[q] == t;
        assert(block_points(!m, v)[q] == t);
    }
}


/// The option tables: each 5-subset of `[v]` by rank, and the ranks of its
/// five 4-subsets, in ascending order of the point left out.
fn build_options(binom: &Binom, v: u32, n_opts: usize) -> (r: (Vec<u32>, Vec<u32>))
    requires
        binom.wf(),
        9 <= v <= 25,
        n_opts == crate::bits::binom(v as nat, 5),
    ensures
        r.0@.len() == n_opts,
        forall|o: int| 0 <= o < n_opts ==> ranked(#[trigger] r.0@[o], v, 5, o),
        r.1@.len() == 5 * n_opts,
        forall|o: int, k: int| 0 <= o < n_opts && 0 <= k < 5 ==> #[trigger] at2(r.1@, 5, o, k)
            == colex(r.0@[o] & !(1u32 << block_points(r.0@[o], v)[k])),
{
    proof {
        crate::bits::lemma_binom_fits(v as nat, 5);
    }
    let mut masks: Vec<u32> = Vec::new();
    let mut items: Vec<u32> = Vec::new();
    let mut o: usize = 0;
    while o < n_opts
        invariant
            binom.wf(),
            9 <= v <= 25,
            n_opts == crate::bits::binom(v as nat, 5),
            n_opts <= 0xFFFF_FFFF,
            o <= n_opts,
            masks@.len() == o,
            items@.len() == 5 * o,
            forall|a: int| 0 <= a < o ==> ranked(#[trigger] masks@[a], v, 5, a),
            forall|a: int, k: int| 0 <= a < o && 0 <= k < 5 ==> #[trigger] at2(items@, 5, a, k)
                == colex(masks@[a] & !(1u32 << block_points(masks@[a], v)[k])),
        decreases n_opts - o,
    {
        let om = colex_unrank(binom, v, 5, o as u64);
        let pts = points(om, v);
        proof {
            lemma_points(om, v);
        }
        masks.push(om);
        let mut k: usize = 0;
        while k < 5
            invariant
                binom.wf(),
                9 <= v <= 25,
                o < n_opts,
                n_opts <= 0xFFFF_FFFF,
                masks@.len() == o + 1,
                masks@[o as int] == om,
                pts@ == block_points(om, v),
                pts@.len() == 5,
                forall|q: int| 0 <= q < pts@.len() ==> #[trigger] pts@[q] < v,
                k <= 5,
                items@.len() == 5 * o + k,
                forall|a: int| 0 <= a < o + 1 ==> ranked(#[trigger] masks@[a], v, 5, a),
                forall|a: int, j: int| 0 <= a < o && 0 <= j < 5 ==> #[trigger] at2(items@, 5, a, j)
                    == colex(masks@[a] & !(1u32 << block_points(masks@[a], v)[j])),
                forall|j: int| 0 <= j < k ==> #[trigger] at2(items@, 5, o as int, j)
                    == colex(om & !(1u32 << block_points(om, v)[j])),
            decreases 5 - k,
        {
            let x = pts[k];
            let r = colex_partial(binom, om & !(1u32 << x), 0, 0);
            let ghost before = items@;
            items.push(r);
            proof {
                assert forall|a: int, j: int| 0 <= a < o && 0 <= j < 5 implies #[trigger] at2(items@, 5, a, j)
                    == colex(masks@[a] & !(1u32 << block_points(masks@[a], v)[j])) by {
                    assert(at2(before, 5, a, j) == colex(masks@[a] & !(1u32 << block_points(masks@[a], v)[j])));
                }
                assert forall|j: int| 0 <= j < k + 1 implies #[trigger] at2(items@, 5, o as int, j)
                    == colex(om & !(1u32 << block_points(om, v)[j])) by {
                    if j < k {
                        assert(at2(before, 5, o as int, j) == colex(om & !(1u32 << block_points(om, v)[j])));
                    }
                }
            }
            k += 1;
        }
        o += 1;
    }
    (masks, items)
}

/// The item table: for each 4-subset of `[v]` by rank, the ranks of the
/// `v-4` 5-subsets that contain it, in ascending order of the point added.
fn build_items(binom: &Binom, v: u32, n_items: usize) -> (r: Vec<u32>)
    requires
        binom.wf(),
        9 <= v <= 25,
        n_items == crate::bits::binom(v as nat, 4),
    ensures
        forall|ii: int| 0 <= ii < n_items ==> ranked(#[trigger] subset_of_rank(v, 4, ii), v, 4, ii),
        r@.len() == (v - 4) * n_items,
        forall|ii: int, k: int| 0 <= ii < n_items && 0 <= k < v - 4 ==> #[trigger] at2(r@, v - 4, ii, k)
            == colex(subset_of_rank(v, 4, ii) | (1u32 << block_points(!subset_of_rank(v, 4, ii), v)[k])),
{
    proof {
        crate::bits::lemma_binom_fits(v as nat, 4);
    }
    let s = (v - 4) as usize;
    let mut out: Vec<u32> = Vec::new();
    let mut ii: usize = 0;
    while ii < n_items
        invariant
            binom.wf(),
            9 <= v <= 25,
            s == v - 4,
            n_items == crate::bits::binom(v as nat, 4),
            n_items <= 0xFFFF_FFFF,
            ii <= n_items,
            forall|a: int| 0 <= a < ii ==> ranked(#[trigger] subset_of_rank(v, 4, a), v, 4, a),
            out@.len() == ii * s,
            forall|a: int, k: int| 0 <= a < ii && 0 <= k < s ==> #[trigger] at2(out@, s as int, a, k)
                == colex(subset_of_rank(v, 4, a) | (1u32 << block_points(!subset_of_rank(v, 4, a), v)[k])),
        decreases n_items - ii,
    {
        let im = colex_unrank(binom, v, 4, ii as u64);
        let pts = points(!im, v);
        proof {
            lemma_points(im, v);
            lemma_subset_of_rank(im, v, 4, ii as int);
            assert(ii * s + s == (ii + 1) * s) by (nonlinear_arith);
        }
        let mut k: usize = 0;
        while k < s
            invariant
                binom.wf(),
                9 <= v <= 25,
                s == v - 4,
                ii < n_items,
                n_items <= 0xFFFF_FFFF,
                pts@ == block_points(!im, v),
                pts@.len() == s,
                forall|q: int| 0 <= q < pts@.len() ==> #[trigger] pts@[q] < v,
                subset_of_rank(v, 4, ii as int) == im,
                ranked(im, v, 4, ii as int),
                forall|a: int| 0 <= a < ii ==> ranked(#[trigger] subset_of_rank(v, 4, a), v, 4, a),
                k <= s,
                out@.len() == ii * s + k,
                forall|a: int, j: int| 0 <= a < ii && 0 <= j < s ==> #[trigger] at2(out@, s as int, a, j)
                    == colex(subset_of_rank(v, 4, a) | (1u32 << block_points(!subset_of_rank(v, 4, a), v)[j])),
                forall|j: int| 0 <= j < k ==> #[trigger] at2(out@, s as int, ii as int, j)
                    == colex(im | (1u32 << block_points(!im, v)[j])),
            decreases s - k,
        {
            let x = pts[k];
            let r = colex_partial(binom, im | (1u32 << x), 0, 0);
            let ghost before = out@;
            out.push(r);
            proof {
                assert forall|a: int, j: int| 0 <= a < ii && 0 <= j < s implies #[trigger] at2(out@, s as int, a, j)
                    == colex(subset_of_rank(v, 4, a) | (1u32 << block_points(!subset_of_rank(v, 4, a), v)[j])) by {
                    lemma_index2(a, j, ii as int, s as int);
                    assert(at2(before, s as int, a, j) == colex(subset_of_rank(v, 4, a) | (1u32 << block_points(!subset_of_rank(v, 4, a), v)[j])));
                }
                assert forall|j: int| 0 <= j < k + 1 implies #[trigger] at2(out@, s as int, ii as int, j)
                    == colex(im | (1u32 << block_points(!im, v)[j])) by {
                    if j < k {
                        assert(at2(before, s as int, ii as int, j) == colex(im | (1u32 << block_points(!im, v)[j])));
                    }
                }
            }
            k += 1;
        }
        ii += 1;
    }
    proof {
        assert(n_items * s == (v - 4) * n_items) by (nonlinear_arith)
            requires
                s == v - 4,
        ;
    }
    out
}

/// The triple tables: for each 3-subset `T` of `[v]` by rank, the `v-3`
/// points outside it, the rank of `T` plus each, and the rank of `T` plus
/// each pair (zero on the diagonal).
fn build_triples(binom: &Binom, v: u32, n_triples: usize) -> (r: (Vec<u8>, Vec<u32>, Vec<u32>))
    requires
        binom.wf(),
        9 <= v <= 25,
        n_triples == crate::bits::binom(v as nat, 3),
    ensures
        forall|t: int| 0 <= t < n_triples ==> ranked(#[trigger] subset_of_rank(v, 3, t), v, 3, t),
        r.0@.len() == (v - 3) * n_triples,
        r.1@.len() == (v - 3) * n_triples,
        r.2@.len() == (v - 3) * (v - 3) * n_triples,
        forall|t: int, i: int| 0 <= t < n_triples && 0 <= i < v - 3 ==> #[trigger] at2(r.0@, v - 3, t, i)
            == block_points(!subset_of_rank(v, 3, t), v)[i],
        forall|t: int, i: int| 0 <= t < n_triples && 0 <= i < v - 3 ==> #[trigger] at2(r.1@, v - 3, t, i)
            == colex(subset_of_rank(v, 3, t) | (1u32 << block_points(!subset_of_rank(v, 3, t), v)[i])),
        forall|t: int, i: int, j: int| 0 <= t < n_triples && 0 <= i < v - 3 && 0 <= j < v - 3 ==> #[trigger] at3(r.2@, v - 3, t, i, j)
            == (if i != j {
                colex(subset_of_rank(v, 3, t) | (1u32 << block_points(!subset_of_rank(v, 3, t), v)[i]) | (1u32
                    << block_points(!subset_of_rank(v, 3, t), v)[j]))
            } else {
                0
            }),
{
    proof {
        crate::bits::lemma_binom_fits(v as nat, 3);
    }
    let p = (v - 3) as usize;
    let mut tp: Vec<u8> = Vec::new();
    let mut ti: Vec<u32> = Vec::new();
    let mut to: Vec<u32> = Vec::new();
    let mut t: usize = 0;
    while t < n_triples
        invariant
            binom.wf(),
            9 <= v <= 25,
            p == v - 3,
            n_triples == crate::bits::binom(v as nat, 3),
            n_triples <= 0xFFFF_FFFF,
            t <= n_triples,
            forall|a: int| 0 <= a < t ==> ranked(#[trigger] subset_of_rank(v, 3, a), v, 3, a),
            tp@.len() == t * p,
            ti@.len() == t * p,
            to@.len() == t * p * p,
            forall|a: int, i: int| 0 <= a < t && 0 <= i < p ==> #[trigger] at2(tp@, p as int, a, i)
                == block_points(!subset_of_rank(v, 3, a), v)[i],
            forall|a: int, i: int| 0 <= a < t && 0 <= i < p ==> #[trigger] at2(ti@, p as int, a, i)
                == colex(subset_of_rank(v, 3, a) | (1u32 << block_points(!subset_of_rank(v, 3, a), v)[i])),
            forall|a: int, i: int, j: int| 0 <= a < t && 0 <= i < p && 0 <= j < p ==> #[trigger] at3(to@, p as int, a, i, j)
                == (if i != j {
                    colex(subset_of_rank(v, 3, a) | (1u32 << block_points(!subset_of_rank(v, 3, a), v)[i]) | (1u32
                        << block_points(!subset_of_rank(v, 3, a), v)[j]))
                } else {
                    0
                }),
        decreases n_triples - t,
    {
        let tm = colex_unrank(binom, v, 3, t as u64);
        let pts = points(!tm, v);
        proof {
            lemma_points(tm, v);
            lemma_subset_of_rank(tm, v, 3, t as int);
            assert(t * p + p == (t + 1) * p) by (nonlinear_arith);
            assert(t * p * p + p * p == (t + 1) * p * p) by (nonlinear_arith);
        }
        let mut i: usize = 0;
        while i < p
            invariant
                binom.wf(),
                9 <= v <= 25,
                p == v - 3,
                t < n_triples,
                n_triples <= 0xFFFF_FFFF,
                pts@ == block_points(!tm, v),
                pts@.len() == p,
                forall|q: int| 0 <= q < pts@.len() ==> #[trigger] pts@[q] < v,
                subset_of_rank(v, 3, t as int) == tm,
                ranked(tm, v, 3, t as int),
                forall|a: int| 0 <= a < t ==> ranked(#[trigger] subset_of_rank(v, 3, a), v, 3, a),
                i <= p,
                tp@.len() == t * p + i,
                ti@.len() == t * p + i,
                forall|a: int, q: int| 0 <= a < t && 0 <= q < p ==> #[trigger] at2(tp@, p as int, a, q)
                    == block_points(!subset_of_rank(v, 3, a), v)[q],
                forall|a: int, q: int| 0 <= a < t && 0 <= q < p ==> #[trigger] at2(ti@, p as int, a, q)
                    == colex(subset_of_rank(v, 3, a) | (1u32 << block_points(!subset_of_rank(v, 3, a), v)[q])),
                forall|q: int| 0 <= q < i ==> #[trigger] at2(tp@, p as int, t as int, q) == block_points(!tm, v)[q],
                forall|q: int| 0 <= q < i ==> #[trigger] at2(ti@, p as int, t as int, q) == colex(tm | (1u32 << block_points(!tm, v)[q])),
            decreases p - i,
        {
            let x = pts[i];
            let r = colex_partial(binom, tm | (1u32 << x), 0, 0);
            let ghost b0 = tp@;
            let ghost b1 = ti@;
            tp.push(x as u8);
            ti.push(r);
            proof {
                assert forall|a: int, q: int| 0 <= a < t && 0 <= q < p implies #[trigger] at2(tp@, p as int, a, q)
                    == block_points(!subset_of_rank(v, 3, a), v)[q] by {
                    lemma_index2(a, q, t as int, p as int);
                    assert(at2(b0, p as int, a, q) == block_points(!subset_of_rank(v, 3, a), v)[q]);
                }
                assert forall|a: int, q: int| 0 <= a < t && 0 <= q < p implies #[trigger] at2(ti@, p as int, a, q)
                    == colex(subset_of_rank(v, 3, a) | (1u32 << block_points(!subset_of_rank(v, 3, a), v)[q])) by {
                    lemma_index2(a, q, t as int, p as int);
                    assert(at2(b1, p as int, a, q) == colex(subset_of_rank(v, 3, a) | (1u32 << block_points(!subset_of_rank(v, 3, a), v)[q])));
                }
                assert forall|q: int| 0 <= q < i + 1 implies #[trigger] at2(tp@, p as int, t as int, q) == block_points(!tm, v)[q] by {
                    if q < i {
                        assert(at2(b0, p as int, t as int, q) == block_points(!tm, v)[q]);
                    }
                }
                assert forall|q: int| 0 <= q < i + 1 implies #[trigger] at2(ti@, p as int, t as int, q) == colex(tm | (1u32 << block_points(!tm, v)[q])) by {
                    if q < i {
                        assert(at2(b1, p as int, t as int, q) == colex(tm | (1u32 << block_points(!tm, v)[q])));
                    }
                }
            }
            i += 1;
        }
        let mut i: usize = 0;
        while i < p
            invariant
                binom.wf(),
                9 <= v <= 25,
                p == v - 3,
                t < n_triples,
                n_triples <= 0xFFFF_FFFF,
                pts@ == block_points(!tm, v),
                pts@.len() == p,
                forall|q: int| 0 <= q < pts@.len() ==> #[trigger] pts@[q] < v,
                subset_of_rank(v, 3, t as int) == tm,
                ranked(tm, v, 3, t as int),
                forall|a: int| 0 <= a < t ==> ranked(#[trigger] subset_of_rank(v, 3, a), v, 3, a),
                i <= p,
                to@.len() == t * p * p + i * p,
                forall|a: int, q: int, w: int| 0 <= a < t && 0 <= q < p && 0 <= w < p ==> #[trigger] at3(to@, p as int, a, q, w)
                    == (if q != w {
                        colex(subset_of_rank(v, 3, a) | (1u32 << block_points(!subset_of_rank(v, 3, a), v)[q]) | (1u32
                            << block_points(!subset_of_rank(v, 3, a), v)[w]))
                    } else {
                        0
                    }),
                forall|q: int, w: int| 0 <= q < i && 0 <= w < p ==> #[trigger] at3(to@, p as int, t as int, q, w)
                    == (if q != w {
                        colex(tm | (1u32 << block_points(!tm, v)[q]) | (1u32 << block_points(!tm, v)[w]))
                    } else {
                        0
                    }),
            decreases p - i,
        {
            let mut j: usize = 0;
            while j < p
                invariant
                    binom.wf(),
                    9 <= v <= 25,
                    p == v - 3,
                    t < n_triples,
                    n_triples <= 0xFFFF_FFFF,
                    pts@ == block_points(!tm, v),
                    pts@.len() == p,
                    forall|q: int| 0 <= q < pts@.len() ==> #[trigger] pts@[q] < v,
                    subset_of_rank(v, 3, t as int) == tm,
                    ranked(tm, v, 3, t as int),
                    forall|a: int| 0 <= a < t ==> ranked(#[trigger] subset_of_rank(v, 3, a), v, 3, a),
                    i < p,
                    j <= p,
                    to@.len() == t * p * p + i * p + j,
                    forall|a: int, q: int, w: int| 0 <= a < t && 0 <= q < p && 0 <= w < p ==> #[trigger] at3(to@, p as int, a, q, w)
                        == (if q != w {
                            colex(subset_of_rank(v, 3, a) | (1u32 << block_points(!subset_of_rank(v, 3, a), v)[q]) | (1u32
                                << block_points(!subset_of_rank(v, 3, a), v)[w]))
                        } else {
                            0
                        }),
                    forall|q: int, w: int| 0 <= q < i && 0 <= w < p ==> #[trigger] at3(to@, p as int, t as int, q, w)
                        == (if q != w {
                            colex(tm | (1u32 << block_points(!tm, v)[q]) | (1u32 << block_points(!tm, v)[w]))
                        } else {
                            0
                        }),
                    forall|w: int| 0 <= w < j ==> #[trigger] at3(to@, p as int, t as int, i as int, w)
                        == (if i != w {
                            colex(tm | (1u32 << block_points(!tm, v)[i as int]) | (1u32 << block_points(!tm, v)[w]))
                        } else {
                            0
                        }),
                decreases p - j,
            {
                let r = if i != j {
                    colex_partial(binom, tm | (1u32 << pts[i]) | (1u32 << pts[j]), 0, 0)
                } else {
                    0
                };
                let ghost b2 = to@;
                to.push(r);
                proof {
                    assert forall|a: int, q: int, w: int| 0 <= a < t && 0 <= q < p && 0 <= w < p implies #[trigger] at3(to@, p as int, a, q, w)
                        == (if q != w {
                            colex(subset_of_rank(v, 3, a) | (1u32 << block_points(!subset_of_rank(v, 3, a), v)[q]) | (1u32
                                << block_points(!subset_of_rank(v, 3, a), v)[w]))
                        } else {
                            0
                        }) by {
                        lemma_index3(a, q, w, t as int, p as int);
                        assert(t * p * p <= t * p * p + i * p + j);
                        assert(at3(b2, p as int, a, q, w) == at3(to@, p as int, a, q, w));
                    }
                    assert forall|q: int, w: int| 0 <= q < i && 0 <= w < p implies #[trigger] at3(to@, p as int, t as int, q, w)
                        == (if q != w {
                            colex(tm | (1u32 << block_points(!tm, v)[q]) | (1u32 << block_points(!tm, v)[w]))
                        } else {
                            0
                        }) by {
                        lemma_index2(q, w, i as int, p as int);
                        assert(t * p * p + q * p + w < t * p * p + i * p) by (nonlinear_arith)
                            requires
                                q * p + w < i * p,
                        ;
                        assert(at3(b2, p as int, t as int, q, w) == at3(to@, p as int, t as int, q, w));
                    }
                    assert forall|w: int| 0 <= w < j + 1 implies #[trigger] at3(to@, p as int, t as int, i as int, w)
                        == (if i != w {
                            colex(tm | (1u32 << block_points(!tm, v)[i as int]) | (1u32 << block_points(!tm, v)[w]))
                        } else {
                            0
                        }) by {
                        if w < j {
                            assert(at3(b2, p as int, t as int, i as int, w) == at3(to@, p as int, t as int, i as int, w));
                        }
                    }
                }
                j += 1;
            }
            proof {
                assert(t * p * p + i * p + p == t * p * p + (i + 1) * p) by (nonlinear_arith);
            }
            i += 1;
        }
        t += 1;
    }
    proof {
        assert(n_triples * p == (v - 3) * n_triples) by (nonlinear_arith)
            requires
                p == v - 3,
        ;
        assert(n_triples * p * p == (v - 3) * (v - 3) * n_triples) by (nonlinear_arith)
            requires
                p == v - 3,
        ;
    }
    (tp, ti, to)
}


/// One where `b` holds, else zero.
pub open spec fn ind(b: bool) -> nat {
    if b {
        1
    } else {
        0
    }
}

/// How many of the first `k` entries of row `row` of `tab` (width `w`)
/// equal `val`.
pub open spec fn count_eq(tab: Seq<u32>, w: int, row: int, val: u32, k: nat) -> nat
    decreases k,
{
    if k == 0 {
        0
    } else {
        count_eq(tab, w, row, val, (k - 1) as nat) + ind(at2(tab, w, row, k - 1) == val)
    }
}

/// How many of the first `k` options of item `row` are not excluded.
pub open spec fn live_count(st: Seq<u8>, tab: Seq<u32>, w: int, row: int, k: nat) -> nat
    decreases k,
{
    if k == 0 {
        0
    } else {
        live_count(st, tab, w, row, (k - 1) as nat) + ind(st[at2(tab, w, row, k - 1) as int] != OUT)
    }
}

/// How many of the first `k` options of item `row` are included.
pub open spec fn in_row(st: Seq<u8>, tab: Seq<u32>, w: int, row: int, k: nat) -> nat
    decreases k,
{
    if k == 0 {
        0
    } else {
        in_row(st, tab, w, row, (k - 1) as nat) + ind(st[at2(tab, w, row, k - 1) as int] == IN)
    }
}

/// How many of the first `n` options are included.
pub open spec fn count_in(st: Seq<u8>, n: nat) -> nat
    decreases n,
{
    if n == 0 {
        0
    } else {
        count_in(st, (n - 1) as nat) + ind(st[n - 1] == IN)
    }
}

/// How many of the first `n` options are still open.
pub open spec fn count_open(st: Seq<u8>, n: nat) -> nat
    decreases n,
{
    if n == 0 {
        0
    } else {
        count_open(st, (n - 1) as nat) + ind(st[n - 1] == UNKNOWN)
    }
}

/// `st` with the trail entries `es` undone, newest first.
pub open spec fn rewind(st: Seq<u8>, es: Seq<(u32, u8)>) -> Seq<u8>
    decreases es.len(),
{
    if es.len() == 0 {
        st
    } else {
        rewind(st.update(es.last().0 as int, UNKNOWN), es.drop_last())
    }
}

// ---------------------------------------------------------------------------
// The engine
// ---------------------------------------------------------------------------

/// The trail lists decided options, each once and with its status, and each
/// open level's saved statuses are the current ones with the trail above
/// its mark undone.
pub open spec fn log_ok(st: Seq<u8>, n_opts: nat, tr: Seq<(u32, u8)>, lv: Seq<usize>, sn: Seq<Seq<u8>>) -> bool {
    &&& forall|j: int| 0 <= j < tr.len() ==> (#[trigger] tr[j]).0 < n_opts && (tr[j].1 == IN || tr[j].1 == OUT)
        && st[tr[j].0 as int] == tr[j].1
    &&& forall|i: int, j: int| 0 <= i < j < tr.len() ==> (#[trigger] tr[i]).0 != (#[trigger] tr[j]).0
    &&& lv.len() == sn.len()
    &&& forall|i: int, j: int| 0 <= i <= j < lv.len() ==> #[trigger] lv[i] <= #[trigger] lv[j]
    &&& forall|i: int| 0 <= i < lv.len() ==> #[trigger] lv[i] <= tr.len()
    &&& forall|i: int| 0 <= i < sn.len() ==> #[trigger] sn[i] == rewind(st, tr.skip(lv[i] as int))
}

pub struct Engine {
    pub v: u32,
    pub n_items: usize,
    pub n_opts: usize,
    pub n_blocks: usize,
    /// `v - 3`, the points outside a triple.
    pub p: usize,
    binom: Binom,
    opt_mask: Vec<u32>,
    /// The 5 items of each option, stride 5.
    opt_items: Vec<u32>,
    /// The `v-4` options of each item, stride `v-4`.
    item_opts: Vec<u32>,
    /// The `v-3` points outside each triple, stride `p`.
    tri_pts: Vec<u8>,
    /// The item `T ∪ {pts[i]}` of each triple, stride `p`.
    tri_item: Vec<u32>,
    /// The option `T ∪ {pts[i], pts[j]}` of each triple, stride `p*p`.
    tri_opt: Vec<u32>,
    pub n_triples: usize,
    pub status: Vec<u8>,
    /// The option whose inclusion excluded each excluded option, or
    /// `NO_CAUSE`; meaningless unless the option is excluded.
    cause: Vec<u32>,
    item_cov: Vec<u8>,
    item_avail: Vec<u32>,
    pub n_in: usize,
    trail: Vec<(u32, u8)>,
    levels: Vec<usize>,
    force_q: VecDeque<u32>,
    dirty_q: VecDeque<u32>,
    in_dirty: Vec<bool>,
    blossom: Blossom,
    sub: Blossom,
    pub use_matching: bool,
    pub use_filter: bool,
    pub filtered: u64,
    pub explain_buf: Vec<u32>,
    pub conflicts: u64,
    pub decisions: u64,
    pub props: u64,
    pub by_rule: [u64; 3],
    pub last_why: Why,
    /// The 4-set left with no candidates, valid when `last_why == Cover` and
    /// the failure came from exhaustion rather than a collision.
    pub conflict_item: usize,
    /// The statuses at each open level.
    snaps: Ghost<Seq<Seq<u8>>>,
}

impl Engine {
    /// The incidence tables hold what their names say.
    pub closed spec fn tables_ok(&self) -> bool {
        let v = self.v;
        let s = v - 4;
        let p = self.p as int;
        &&& 9 <= v <= 25
        &&& (v - 3) % 2 == 0
        &&& self.binom.wf()
        &&& self.n_items == binom(v as nat, 4)
        &&& self.n_opts == binom(v as nat, 5)
        &&& self.n_triples == binom(v as nat, 3)
        &&& p == v - 3
        &&& self.n_blocks == self.n_items / 5
        &&& self.opt_mask@.len() == self.n_opts
        &&& forall|o: int| 0 <= o < self.n_opts ==> ranked(#[trigger] self.opt_mask@[o], v, 5, o)
        &&& forall|ii: int| 0 <= ii < self.n_items ==> ranked(#[trigger] subset_of_rank(v, 4, ii), v, 4, ii)
        &&& forall|t: int| 0 <= t < self.n_triples ==> ranked(#[trigger] subset_of_rank(v, 3, t), v, 3, t)
        &&& self.opt_items@.len() == 5 * self.n_opts
        &&& forall|o: int, k: int| 0 <= o < self.n_opts && 0 <= k < 5 ==> #[trigger] at2(self.opt_items@, 5, o, k)
            == colex(self.opt_mask@[o] & !(1u32 << block_points(self.opt_mask@[o], v)[k]))
        &&& self.item_opts@.len() == s * self.n_items
        &&& forall|ii: int, k: int| 0 <= ii < self.n_items && 0 <= k < s ==> #[trigger] at2(self.item_opts@, s, ii, k)
            == colex(subset_of_rank(v, 4, ii) | (1u32 << block_points(!subset_of_rank(v, 4, ii), v)[k]))
        &&& self.tri_pts@.len() == p * self.n_triples
        &&& self.tri_item@.len() == p * self.n_triples
        &&& self.tri_opt@.len() == p * p * self.n_triples
        &&& forall|t: int, i: int| 0 <= t < self.n_triples && 0 <= i < p ==> #[trigger] at2(self.tri_pts@, p, t, i)
            == block_points(!subset_of_rank(v, 3, t), v)[i]
        &&& forall|t: int, i: int| 0 <= t < self.n_triples && 0 <= i < p ==> #[trigger] at2(self.tri_item@, p, t, i)
            == colex(subset_of_rank(v, 3, t) | (1u32 << block_points(!subset_of_rank(v, 3, t), v)[i]))
        &&& forall|t: int, i: int, j: int| 0 <= t < self.n_triples && 0 <= i < p && 0 <= j < p ==> #[trigger] at3(self.tri_opt@, p, t, i, j)
            == (if i != j {
                colex(subset_of_rank(v, 3, t) | (1u32 << block_points(!subset_of_rank(v, 3, t), v)[i]) | (1u32
                    << block_points(!subset_of_rank(v, 3, t), v)[j]))
            } else {
                0
            })
    }

    /// `v`: the ground set is `[v]`.
    pub closed spec fn ground(&self) -> u32 {
        self.v
    }

    /// The number of options, the 5-subsets of `[v]`.
    pub closed spec fn options(&self) -> nat {
        self.n_opts as nat
    }

    /// The number of items, the 4-subsets of `[v]`.
    pub closed spec fn items(&self) -> nat {
        self.n_items as nat
    }

    /// The number of triples, the 3-subsets of `[v]`.
    pub closed spec fn triples(&self) -> nat {
        self.n_triples as nat
    }

    /// The number of blocks a Steiner system on the ground set has.
    pub closed spec fn blocks_needed(&self) -> nat {
        self.n_blocks as nat
    }

    /// The number of included options.
    pub closed spec fn included(&self) -> nat {
        self.n_in as nat
    }

    pub closed spec fn matching_on(&self) -> bool {
        self.use_matching
    }

    pub closed spec fn filter_on(&self) -> bool {
        self.use_filter
    }

    /// The status of every option.
    pub closed spec fn statuses(&self) -> Seq<u8> {
        self.status@
    }

    /// The options queued by the unit rule, oldest first.
    pub closed spec fn forced(&self) -> Seq<u32> {
        self.force_q@
    }

    /// The triples queued for the matching check, oldest first.
    pub closed spec fn dirty(&self) -> Seq<u32> {
        self.dirty_q@
    }

    /// The points `x` outside triple `t` whose item `t ∪ {x}` no included
    /// option covers yet.
    pub closed spec fn uncovered(&self, t: int) -> nat {
        uncov_count(self.item_cov@, self.tri_item@, self.p as int, t, self.p as nat)
    }

    /// Item `ii` is covered by an included option.
    pub closed spec fn covered(&self, ii: int) -> bool {
        self.item_cov@[ii] != 0
    }

    /// The options of item `ii` that are not excluded.
    pub closed spec fn live(&self, ii: int) -> nat {
        live_count(self.status@, self.item_opts@, self.v - 4, ii, (self.v - 4) as nat)
    }

    /// The open options of item `ii`, in table order.
    pub closed spec fn open_options(&self, ii: int) -> Seq<usize> {
        open_row(self.status@, self.item_opts@, self.v - 4, ii, (self.v - 4) as nat)
    }

    /// Item `ii` is the branching item: uncovered; every uncovered item
    /// before it has more options left, and more than two; and either it
    /// has at most two left, or no uncovered item after it has fewer.
    pub open spec fn mrv_item(&self, ii: int) -> bool {
        &&& 0 <= ii < self.items()
        &&& !self.covered(ii)
        &&& forall|jj: int| 0 <= jj < ii ==> #[trigger] self.covered(jj) || (self.live(jj) > self.live(ii) && self.live(jj) > 2)
        &&& self.live(ii) <= 2 || forall|jj: int| ii < jj < self.items() ==> #[trigger] self.covered(jj) || self.live(jj) >= self.live(ii)
    }

    /// The decided options, oldest first, with the status each was given.
    pub closed spec fn log(&self) -> Seq<(u32, u8)> {
        self.trail@
    }

    /// The option blamed for each exclusion, or `NO_CAUSE`.
    pub closed spec fn causes(&self) -> Seq<u32> {
        self.cause@
    }

    /// The rule blamed for the latest conflict.
    pub closed spec fn why(&self) -> Why {
        self.last_why
    }

    /// The statuses saved by each open `push_level`.
    pub closed spec fn saved(&self) -> Seq<Seq<u8>> {
        self.snaps@
    }

    /// The engine's invariant: the tables, every status one of the three,
    /// the counters equal to what they count, the trail listing exactly the
    /// decided options, and each open level's saved statuses equal to the
    /// current ones with the trail above its mark undone.
    pub closed spec fn wf(&self) -> bool {
        let s = self.v - 4;
        let st = self.status@;
        let tr = self.trail@;
        &&& self.tables_ok()
        &&& st.len() == self.n_opts
        &&& forall|o: int| 0 <= o < self.n_opts ==> #[trigger] st[o] <= OUT
        &&& self.cause@.len() == self.n_opts
        &&& self.item_cov@.len() == self.n_items
        &&& self.item_avail@.len() == self.n_items
        &&& forall|ii: int| 0 <= ii < self.n_items ==> #[trigger] self.item_avail@[ii] == live_count(st, self.item_opts@, s, ii, s as nat)
        &&& forall|ii: int| 0 <= ii < self.n_items ==> #[trigger] self.item_cov@[ii] == in_row(st, self.item_opts@, s, ii, s as nat)
        &&& self.n_in == count_in(st, self.n_opts as nat)
        &&& log_ok(st, self.n_opts as nat, tr, self.levels@, self.snaps@)
        &&& forall|i: int| 0 <= i < self.force_q@.len() ==> #[trigger] self.force_q@[i] < self.n_opts
        &&& forall|i: int| 0 <= i < self.dirty_q@.len() ==> #[trigger] self.dirty_q@[i] < self.n_triples
        &&& self.in_dirty@.len() == self.n_triples
        &&& forall|i: int| 0 <= i < self.explain_buf@.len() ==> #[trigger] self.explain_buf@[i] < self.n_opts
        &&& self.blossom.wf()
        &&& self.sub.wf()
    }
}

/// Taking a point out of a subset.
proof fn lemma_drop_point(m: u32, y: u32, v: u32)
    requires
        y < 32,
        v <= 32,
        bit(m, y as int),
        below(m, v as int),
    ensures
        popcount(m & !(1u32 << y)) + 1 == popcount(m),
        below(m & !(1u32 << y), v as int),
        !bit(m & !(1u32 << y), y as int),
        (m & !(1u32 << y)) | (1u32 << y) == m,
{
    crate::bits::lemma_pop_clear_bit(m, y as int, 0);
    crate::bits::lemma_bit_cleared(m, y as int);
    assert(((y as int) as u32) == y);
    assert((m >> y) & 1 == 1 ==> (m & !(1u32 << y)) | (1u32 << y) == m) by (bit_vector)
        requires
            y < 32,
    ;
}

/// Adding a point to a subset.
proof fn lemma_add_point(m: u32, x: u32, v: u32)
    requires
        x < v,
        v <= 32,
        !bit(m, x as int),
        below(m, v as int),
    ensures
        popcount(m | (1u32 << x)) == popcount(m) + 1,
        below(m | (1u32 << x), v as int),
        bit(m | (1u32 << x), x as int),
        forall|t: int| #[trigger] bit(m | (1u32 << x), t) == (bit(m, t) || t == x),
        (m | (1u32 << x)) & !(1u32 << x) == m,
{
    crate::bits::lemma_bit_set(m, x as int);
    assert(((x as int) as u32) == x);
    crate::bits::lemma_pop_single(x, 0);
    assert forall|t: int| #[trigger] bit(m, t) implies !bit(1u32 << x, t) by {
        crate::bits::lemma_bit_set(0u32, x as int);
        lemma_bits_zero();
        crate::bits::lemma_or_zero(1u32 << x);
    }
    crate::bits::lemma_bit_set(0u32, x as int);
    lemma_bits_zero();
    crate::bits::lemma_or_zero(1u32 << x);
    crate::bits::lemma_pop_or_disjoint(m, 1u32 << x, 0);
    assert(!((m >> x) & 1 == 1) ==> (m | (1u32 << x)) & !(1u32 << x) == m) by (bit_vector)
        requires
            x < 32,
    ;
}

/// The rank of an `r`-subset of `[v]` is below `C(v, r)`.
proof fn lemma_rank_below(m: u32, v: u32)
    requires
        v <= 32,
        below(m, v as int),
    ensures
        colex(m) < binom(v as nat, popcount(m)),
{
    lemma_colex_below(m, v as int, 0, 0);
}

impl Engine {
    /// Every table entry indexes what it should: items below `n_items`,
    /// options below `n_opts`, points below `v`.
    proof fn lemma_ranges(&self)
        requires
            self.tables_ok(),
        ensures
            self.n_items <= 0xFFFF_FFFF,
            self.n_opts <= 0xFFFF_FFFF,
            self.n_triples <= 0xFFFF_FFFF,
            self.n_opts >= 1,
            forall|o: int, k: int| 0 <= o < self.n_opts && 0 <= k < 5 ==> #[trigger] at2(self.opt_items@, 5, o, k) < self.n_items,
            forall|ii: int, k: int| 0 <= ii < self.n_items && 0 <= k < self.v - 4 ==> #[trigger] at2(self.item_opts@, self.v - 4, ii, k)
                < self.n_opts,
            forall|t: int, i: int| 0 <= t < self.n_triples && 0 <= i < self.p ==> #[trigger] at2(self.tri_item@, self.p as int, t, i)
                < self.n_items,
            forall|t: int, i: int| 0 <= t < self.n_triples && 0 <= i < self.p ==> #[trigger] at2(self.tri_pts@, self.p as int, t, i)
                < self.v,
            forall|t: int, i: int, j: int| 0 <= t < self.n_triples && 0 <= i < self.p && 0 <= j < self.p ==> #[trigger] at3(
                self.tri_opt@,
                self.p as int,
                t,
                i,
                j,
            ) < self.n_opts,
    {
        let v = self.v;
        crate::bits::lemma_binom_fits(v as nat, 3);
        crate::bits::lemma_binom_fits(v as nat, 4);
        crate::bits::lemma_binom_fits(v as nat, 5);
        crate::bits::lemma_binom_pos(v as nat, 5);
        assert forall|o: int, k: int| 0 <= o < self.n_opts && 0 <= k < 5 implies #[trigger] at2(self.opt_items@, 5, o, k) < self.n_items by {
            let om = self.opt_mask@[o];
            assert(ranked(om, v, 5, o));
            lemma_points(om, v);
            let y = block_points(om, v)[k];
            lemma_drop_point(om, y, v);
            lemma_rank_below(om & !(1u32 << y), v);
        }
        assert forall|ii: int, k: int| 0 <= ii < self.n_items && 0 <= k < v - 4 implies #[trigger] at2(self.item_opts@, v - 4, ii, k) < self.n_opts by {
            let im = subset_of_rank(v, 4, ii);
            assert(ranked(im, v, 4, ii));
            lemma_points(im, v);
            let x = block_points(!im, v)[k];
            lemma_add_point(im, x, v);
            lemma_rank_below(im | (1u32 << x), v);
        }
        assert forall|t: int, i: int| 0 <= t < self.n_triples && 0 <= i < self.p implies #[trigger] at2(self.tri_pts@, self.p as int, t, i) < v by {
            let tm = subset_of_rank(v, 3, t);
            assert(ranked(tm, v, 3, t));
            lemma_points(tm, v);
        }
        assert forall|t: int, i: int| 0 <= t < self.n_triples && 0 <= i < self.p implies #[trigger] at2(self.tri_item@, self.p as int, t, i) < self.n_items by {
            let tm = subset_of_rank(v, 3, t);
            assert(ranked(tm, v, 3, t));
            lemma_points(tm, v);
            let x = block_points(!tm, v)[i];
            lemma_add_point(tm, x, v);
            lemma_rank_below(tm | (1u32 << x), v);
        }
        assert forall|t: int, i: int, j: int| 0 <= t < self.n_triples && 0 <= i < self.p && 0 <= j < self.p implies #[trigger] at3(
            self.tri_opt@,
            self.p as int,
            t,
            i,
            j,
        ) < self.n_opts by {
            if i != j {
                let tm = subset_of_rank(v, 3, t);
                assert(ranked(tm, v, 3, t));
                lemma_points(tm, v);
                let pts = block_points(!tm, v);
                let x = pts[i];
                let y = pts[j];
                if i < j {
                    assert(pts[i] < pts[j]);
                } else {
                    assert(pts[j] < pts[i]);
                }
                lemma_add_point(tm, x, v);
                lemma_add_point(tm | (1u32 << x), y, v);
                lemma_rank_below(tm | (1u32 << x) | (1u32 << y), v);
            }
        }
    }
}


/// Pairwise distinct entries equal a value at most once, and once exactly
/// where one does.
proof fn lemma_count_eq_distinct(tab: Seq<u32>, w: int, row: int, val: u32, k: nat)
    requires
        forall|a: int, b: int| 0 <= a < b < k ==> #[trigger] at2(tab, w, row, a) != #[trigger] at2(tab, w, row, b),
    ensures
        count_eq(tab, w, row, val, k) <= 1,
        (count_eq(tab, w, row, val, k) == 1) <==> (exists|j: int| 0 <= j < k && #[trigger] at2(tab, w, row, j) == val),
    decreases k,
{
    if k > 0 {
        lemma_count_eq_distinct(tab, w, row, val, (k - 1) as nat);
        if at2(tab, w, row, k - 1) == val {
            assert forall|j: int| 0 <= j < k - 1 implies #[trigger] at2(tab, w, row, j) != val by {
                assert(at2(tab, w, row, j) != at2(tab, w, row, k - 1));
            }
        } else {
            if exists|j: int| 0 <= j < k && #[trigger] at2(tab, w, row, j) == val {
                let j = choose|j: int| 0 <= j < k && #[trigger] at2(tab, w, row, j) == val;
                assert(j < k - 1);
            }
        }
    }
}

impl Engine {
    /// Option `o` is among the options of item `ii` exactly when `ii` is
    /// among the items of `o`, and then once on each side.
    proof fn lemma_incidence(&self, o: int, ii: int)
        requires
            self.tables_ok(),
            0 <= o < self.n_opts,
            0 <= ii < self.n_items,
        ensures
            count_eq(self.item_opts@, self.v - 4, ii, o as u32, (self.v - 4) as nat) == count_eq(self.opt_items@, 5, o, ii as u32, 5),
            count_eq(self.opt_items@, 5, o, ii as u32, 5) <= 1,
            forall|a: int, b: int| 0 <= a < b < 5 ==> #[trigger] at2(self.opt_items@, 5, o, a) != #[trigger] at2(self.opt_items@, 5, o, b),
    {
        let v = self.v;
        let s = v - 4;
        self.lemma_ranges();
        let om = self.opt_mask@[o];
        let im = subset_of_rank(v, 4, ii);
        assert(ranked(om, v, 5, o));
        assert(ranked(im, v, 4, ii));
        lemma_points(om, v);
        lemma_points(im, v);
        let ip = block_points(om, v);
        let op = block_points(!im, v);
        assert forall|a: int, b: int| 0 <= a < b < 5 implies #[trigger] at2(self.opt_items@, 5, o, a) != #[trigger] at2(self.opt_items@, 5, o, b) by {
            lemma_drop_point(om, ip[a], v);
            lemma_drop_point(om, ip[b], v);
            crate::bits::lemma_bit_cleared(om, ip[a] as int);
            crate::bits::lemma_bit_cleared(om, ip[b] as int);
            assert(((ip[a] as int) as u32) == ip[a]);
            assert(((ip[b] as int) as u32) == ip[b]);
            if colex(om & !(1u32 << ip[a])) == colex(om & !(1u32 << ip[b])) {
                lemma_colex_injective(om & !(1u32 << ip[a]), om & !(1u32 << ip[b]));
                assert(bit(om & !(1u32 << ip[b]), ip[a] as int));
            }
        }
        assert forall|a: int, b: int| 0 <= a < b < s implies #[trigger] at2(self.item_opts@, s, ii, a) != #[trigger] at2(self.item_opts@, s, ii, b) by {
            lemma_add_point(im, op[a], v);
            lemma_add_point(im, op[b], v);
            if colex(im | (1u32 << op[a])) == colex(im | (1u32 << op[b])) {
                lemma_colex_injective(im | (1u32 << op[a]), im | (1u32 << op[b]));
                assert(bit(im | (1u32 << op[a]), op[a] as int));
            }
        }
        lemma_count_eq_distinct(self.opt_items@, 5, o, ii as u32, 5);
        lemma_count_eq_distinct(self.item_opts@, s, ii, o as u32, s as nat);
        if exists|j: int| 0 <= j < s && #[trigger] at2(self.item_opts@, s, ii, j) == o as u32 {
            let j = choose|j: int| 0 <= j < s && #[trigger] at2(self.item_opts@, s, ii, j) == o as u32;
            let x = op[j];
            lemma_add_point(im, x, v);
            lemma_colex_injective(im | (1u32 << x), om);
            let k = choose|q: int| 0 <= q < ip.len() && #[trigger] ip[q] == x;
            assert(at2(self.opt_items@, 5, o, k) == colex(im));
        }
        if exists|k: int| 0 <= k < 5 && #[trigger] at2(self.opt_items@, 5, o, k) == ii as u32 {
            let k = choose|k: int| 0 <= k < 5 && #[trigger] at2(self.opt_items@, 5, o, k) == ii as u32;
            let y = ip[k];
            lemma_drop_point(om, y, v);
            lemma_colex_injective(om & !(1u32 << y), im);
            let j = choose|q: int| 0 <= q < op.len() && #[trigger] op[q] == y;
            assert(at2(self.item_opts@, s, ii, j) == colex(om));
        }
    }
}

/// Changing option `o`'s status changes a row's live count by the times
/// `o` appears in the row.
proof fn lemma_live_update(st0: Seq<u8>, st1: Seq<u8>, tab: Seq<u32>, w: int, row: int, o: int, k: nat)
    requires
        st1.len() == st0.len(),
        0 <= o < st0.len(),
        o <= 0xFFFF_FFFF,
        forall|q: int| 0 <= q < st0.len() && q != o ==> #[trigger] st1[q] == st0[q],
        forall|j: int| 0 <= j < k ==> #[trigger] at2(tab, w, row, j) < st0.len(),
    ensures
        live_count(st1, tab, w, row, k) + (if st0[o] != OUT { count_eq(tab, w, row, o as u32, k) } else { 0 })
            == live_count(st0, tab, w, row, k) + (if st1[o] != OUT { count_eq(tab, w, row, o as u32, k) } else { 0 }),
    decreases k,
{
    if k > 0 {
        lemma_live_update(st0, st1, tab, w, row, o, (k - 1) as nat);
        let e = at2(tab, w, row, k - 1);
        assert(e < st0.len());
        if e as int != o {
            assert(st1[e as int] == st0[e as int]);
        }
    }
}

/// Changing option `o`'s status changes a row's included count by the
/// times `o` appears in the row.
proof fn lemma_in_update(st0: Seq<u8>, st1: Seq<u8>, tab: Seq<u32>, w: int, row: int, o: int, k: nat)
    requires
        st1.len() == st0.len(),
        0 <= o < st0.len(),
        o <= 0xFFFF_FFFF,
        forall|q: int| 0 <= q < st0.len() && q != o ==> #[trigger] st1[q] == st0[q],
        forall|j: int| 0 <= j < k ==> #[trigger] at2(tab, w, row, j) < st0.len(),
    ensures
        in_row(st1, tab, w, row, k) + (if st0[o] == IN { count_eq(tab, w, row, o as u32, k) } else { 0 })
            == in_row(st0, tab, w, row, k) + (if st1[o] == IN { count_eq(tab, w, row, o as u32, k) } else { 0 }),
    decreases k,
{
    if k > 0 {
        lemma_in_update(st0, st1, tab, w, row, o, (k - 1) as nat);
        let e = at2(tab, w, row, k - 1);
        assert(e < st0.len());
        if e as int != o {
            assert(st1[e as int] == st0[e as int]);
        }
    }
}

proof fn lemma_in_le(st: Seq<u8>, tab: Seq<u32>, w: int, row: int, k: nat)
    ensures
        in_row(st, tab, w, row, k) <= k,
    decreases k,
{
    if k > 0 {
        lemma_in_le(st, tab, w, row, (k - 1) as nat);
    }
}

proof fn lemma_in_none(st: Seq<u8>, tab: Seq<u32>, w: int, row: int, k: nat)
    requires
        forall|j: int| 0 <= j < k ==> st[#[trigger] at2(tab, w, row, j) as int] != IN,
    ensures
        in_row(st, tab, w, row, k) == 0,
    decreases k,
{
    if k > 0 {
        lemma_in_none(st, tab, w, row, (k - 1) as nat);
        assert(st[at2(tab, w, row, k - 1) as int] != IN);
    }
}

/// Deciding options never adds open ones, and deciding an open one
/// removes one.
proof fn lemma_open_mono(st0: Seq<u8>, st1: Seq<u8>, n: nat, o: int)
    requires
        st0.len() == st1.len(),
        n <= st0.len(),
        forall|x: int| 0 <= x < st0.len() && st0[x] != UNKNOWN ==> #[trigger] st1[x] == st0[x],
    ensures
        count_open(st1, n) <= count_open(st0, n),
        0 <= o < n && st0[o] == UNKNOWN && st1[o] != UNKNOWN ==> count_open(st1, n) < count_open(st0, n),
    decreases n,
{
    if n > 0 {
        lemma_open_mono(st0, st1, (n - 1) as nat, o);
        if st0[n - 1] != UNKNOWN {
            assert(st1[n - 1] == st0[n - 1]);
        }
    }
}

impl Engine {
    /// Growth never adds open options; it removes `o` if `o` was open and
    /// is decided now.
    proof fn lemma_open_drop(old: &Engine, new: &Engine, o: int)
        requires
            new.grows(old),
            old.status@.len() == old.n_opts,
        ensures
            new.open_count() <= old.open_count(),
            0 <= o < old.n_opts && old.status@[o] == UNKNOWN && new.status@[o] != UNKNOWN ==> new.open_count() < old.open_count(),
    {
        lemma_open_mono(old.status@, new.status@, old.n_opts as nat, o);
    }
}

/// How many of the first `i` points outside triple `t` leave an uncovered
/// item.
pub open spec fn uncov_count(cov: Seq<u8>, ti: Seq<u32>, p: int, t: int, i: nat) -> nat
    decreases i,
{
    if i == 0 {
        0
    } else {
        uncov_count(cov, ti, p, t, (i - 1) as nat) + ind(cov[at2(ti, p, t, i - 1) as int] == 0)
    }
}

/// The open options among the first `k` of row `ii`, in row order.
pub open spec fn open_row(st: Seq<u8>, tab: Seq<u32>, w: int, ii: int, k: nat) -> Seq<usize>
    decreases k,
{
    if k == 0 {
        Seq::empty()
    } else {
        open_row(st, tab, w, ii, (k - 1) as nat) + (if st[at2(tab, w, ii, k - 1) as int] == UNKNOWN {
            seq![at2(tab, w, ii, k - 1) as usize]
        } else {
            Seq::empty()
        })
    }
}

/// Changing option `o`'s status changes the included count by its share.
proof fn lemma_count_in_update(st0: Seq<u8>, st1: Seq<u8>, o: int, n: nat)
    requires
        st1.len() == st0.len(),
        n <= st0.len(),
        forall|q: int| 0 <= q < st0.len() && q != o ==> #[trigger] st1[q] == st0[q],
    ensures
        0 <= o < n ==> count_in(st1, n) + ind(st0[o] == IN) == count_in(st0, n) + ind(st1[o] == IN),
        !(0 <= o < n) ==> count_in(st1, n) == count_in(st0, n),
        0 <= o < n ==> count_open(st1, n) + ind(st0[o] == UNKNOWN) == count_open(st0, n) + ind(st1[o] == UNKNOWN),
        !(0 <= o < n) ==> count_open(st1, n) == count_open(st0, n),
    decreases n,
{
    if n > 0 {
        lemma_count_in_update(st0, st1, o, (n - 1) as nat);
        if n - 1 != o {
            assert(st1[n - 1] == st0[n - 1]);
        }
    }
}

proof fn lemma_count_in_le(st: Seq<u8>, n: nat)
    ensures
        count_in(st, n) <= n,
        count_open(st, n) <= n,
    decreases n,
{
    if n > 0 {
        lemma_count_in_le(st, (n - 1) as nat);
    }
}

/// An included option is counted.
proof fn lemma_count_in_pos(st: Seq<u8>, o: int, n: nat)
    requires
        0 <= o < n,
        st[o] == IN,
    ensures
        count_in(st, n) >= 1,
    decreases n,
{
    if o < n - 1 {
        lemma_count_in_pos(st, o, (n - 1) as nat);
    }
}

proof fn lemma_live_le(st: Seq<u8>, tab: Seq<u32>, w: int, row: int, k: nat)
    ensures
        live_count(st, tab, w, row, k) <= k,
    decreases k,
{
    if k > 0 {
        lemma_live_le(st, tab, w, row, (k - 1) as nat);
    }
}

/// Counts of a prefix grow with the prefix.
proof fn lemma_count_eq_mono(tab: Seq<u32>, w: int, row: int, val: u32, a: nat, b: nat)
    requires
        a <= b,
    ensures
        count_eq(tab, w, row, val, a) <= count_eq(tab, w, row, val, b),
    decreases b,
{
    if a < b {
        lemma_count_eq_mono(tab, w, row, val, a, (b - 1) as nat);
    }
}

/// Undoing an entry for an option that was open before it leaves the
/// rewound statuses as they were.
proof fn lemma_rewind_push(st: Seq<u8>, es: Seq<(u32, u8)>, o: u32, x: u8)
    requires
        0 <= o < st.len(),
        st[o as int] == UNKNOWN,
    ensures
        rewind(st.update(o as int, x), es.push((o, x))) == rewind(st, es),
{
    assert(es.push((o, x)).drop_last() =~= es);
    assert(st.update(o as int, x).update(o as int, UNKNOWN) =~= st);
}

proof fn lemma_skip_push<T>(es: Seq<T>, e: T, j: int)
    requires
        0 <= j <= es.len(),
    ensures
        es.push(e).skip(j) == es.skip(j).push(e),
{
    assert(es.push(e).skip(j) =~= es.skip(j).push(e));
}

proof fn lemma_skip_drop_last<T>(es: Seq<T>, j: int)
    requires
        0 <= j < es.len(),
    ensures
        es.skip(j) == es.drop_last().skip(j).push(es.last()),
{
    assert(es.skip(j) =~= es.drop_last().skip(j).push(es.last()));
}


/// Every option of a row open or included: the row's live count is its
/// length.
proof fn lemma_live_all(st: Seq<u8>, tab: Seq<u32>, w: int, row: int, k: nat)
    requires
        forall|j: int| 0 <= j < k ==> st[#[trigger] at2(tab, w, row, j) as int] != OUT,
    ensures
        live_count(st, tab, w, row, k) == k,
    decreases k,
{
    if k > 0 {
        lemma_live_all(st, tab, w, row, (k - 1) as nat);
        assert(st[at2(tab, w, row, k - 1) as int] != OUT);
    }
}

proof fn lemma_count_in_none(st: Seq<u8>, n: nat)
    requires
        forall|q: int| 0 <= q < n ==> #[trigger] st[q] == UNKNOWN,
    ensures
        count_in(st, n) == 0,
    decreases n,
{
    if n > 0 {
        lemma_count_in_none(st, (n - 1) as nat);
        assert(st[n - 1] == UNKNOWN);
    }
}


/// Entry `x` occurs among the first `n` entries of row `ii`.
pub open spec fn hits(tab: Seq<u32>, w: int, ii: int, n: nat, x: int) -> bool {
    exists|j: int| 0 <= j < n && #[trigger] at2(tab, w, ii, j) as int == x
}

/// Entry `x` occurs in the row of one of the first `k` items of `o`.
pub open spec fn hits_items(items: Seq<u32>, opts: Seq<u32>, w: int, o: int, k: nat, x: int) -> bool {
    exists|k2: int| 0 <= k2 < k && #[trigger] hits(opts, w, at2(items, 5, o, k2) as int, w as nat, x)
}

/// `st` with every option but `o` among the first `n` of row `ii` excluded.
pub open spec fn excl_row(st: Seq<u8>, tab: Seq<u32>, w: int, ii: int, o: int, n: nat) -> Seq<u8>
    decreases n,
{
    if n == 0 {
        st
    } else {
        let e = at2(tab, w, ii, n - 1) as int;
        let s1 = excl_row(st, tab, w, ii, o, (n - 1) as nat);
        if e != o {
            s1.update(e, OUT)
        } else {
            s1
        }
    }
}

/// `st` with every option but `o` on the first `k` items of `o` excluded.
pub open spec fn excl_items(st: Seq<u8>, items: Seq<u32>, opts: Seq<u32>, w: int, o: int, k: nat) -> Seq<u8>
    decreases k,
{
    if k == 0 {
        st
    } else {
        excl_row(excl_items(st, items, opts, w, o, (k - 1) as nat), opts, w, at2(items, 5, o, k - 1) as int, o, w as nat)
    }
}

proof fn lemma_excl_row(st: Seq<u8>, tab: Seq<u32>, w: int, ii: int, o: int, n: nat)
    requires
        forall|j: int| 0 <= j < n ==> #[trigger] at2(tab, w, ii, j) < st.len(),
    ensures
        excl_row(st, tab, w, ii, o, n).len() == st.len(),
        forall|x: int| 0 <= x < st.len() ==> #[trigger] excl_row(st, tab, w, ii, o, n)[x]
            == (if x != o && hits(tab, w, ii, n, x) { OUT } else { st[x] }),
    decreases n,
{
    if n > 0 {
        lemma_excl_row(st, tab, w, ii, o, (n - 1) as nat);
        let e = at2(tab, w, ii, n - 1) as int;
        assert(e < st.len());
        assert forall|x: int| 0 <= x < st.len() implies #[trigger] excl_row(st, tab, w, ii, o, n)[x]
            == (if x != o && hits(tab, w, ii, n, x) { OUT } else { st[x] }) by {
            if hits(tab, w, ii, (n - 1) as nat, x) {
                let j = choose|j: int| 0 <= j < n - 1 && #[trigger] at2(tab, w, ii, j) as int == x;
                assert(0 <= j < n && at2(tab, w, ii, j) as int == x);
            }
            if x == e {
                assert(at2(tab, w, ii, n - 1) as int == x);
            }
            if hits(tab, w, ii, n, x) && !hits(tab, w, ii, (n - 1) as nat, x) {
                let j = choose|j: int| 0 <= j < n && #[trigger] at2(tab, w, ii, j) as int == x;
                if j < n - 1 {
                    assert(hits(tab, w, ii, (n - 1) as nat, x));
                }
            }
        }
    }
}

proof fn lemma_excl_items(st: Seq<u8>, items: Seq<u32>, opts: Seq<u32>, w: int, o: int, k: nat)
    requires
        0 <= w,
        k <= 5,
        forall|kk: int, j: int| 0 <= kk < k && 0 <= j < w ==> #[trigger] at2(opts, w, at2(items, 5, o, kk) as int, j) < st.len(),
    ensures
        excl_items(st, items, opts, w, o, k).len() == st.len(),
        forall|x: int| 0 <= x < st.len() ==> #[trigger] excl_items(st, items, opts, w, o, k)[x]
            == (if x != o && hits_items(items, opts, w, o, k, x) { OUT } else { st[x] }),
    decreases k,
{
    if k > 0 {
        lemma_excl_items(st, items, opts, w, o, (k - 1) as nat);
        let s1 = excl_items(st, items, opts, w, o, (k - 1) as nat);
        let ii = at2(items, 5, o, k - 1) as int;
        assert forall|j: int| 0 <= j < w implies #[trigger] at2(opts, w, ii, j) < s1.len() by {
            assert(at2(opts, w, at2(items, 5, o, k - 1) as int, j) < st.len());
        }
        lemma_excl_row(s1, opts, w, ii, o, w as nat);
        assert forall|x: int| 0 <= x < st.len() implies #[trigger] excl_items(st, items, opts, w, o, k)[x]
            == (if x != o && hits_items(items, opts, w, o, k, x) { OUT } else { st[x] }) by {
            if hits_items(items, opts, w, o, (k - 1) as nat, x) {
                let k2 = choose|k2: int| 0 <= k2 < k - 1 && #[trigger] hits(opts, w, at2(items, 5, o, k2) as int, w as nat, x);
                assert(0 <= k2 < k && hits(opts, w, at2(items, 5, o, k2) as int, w as nat, x));
            }
            if hits(opts, w, ii, w as nat, x) {
                assert(hits(opts, w, at2(items, 5, o, k - 1) as int, w as nat, x));
            }
            if hits_items(items, opts, w, o, k, x) && !hits_items(items, opts, w, o, (k - 1) as nat, x) {
                let k2 = choose|k2: int| 0 <= k2 < k && #[trigger] hits(opts, w, at2(items, 5, o, k2) as int, w as nat, x);
                if k2 < k - 1 {
                    assert(hits_items(items, opts, w, o, (k - 1) as nat, x));
                }
            }
        }
    }
}

impl Engine {
    /// The tables and settings are those of `other`.
    pub closed spec fn same_tables(&self, other: &Engine) -> bool {
        &&& self.v == other.v
        &&& self.n_items == other.n_items
        &&& self.n_opts == other.n_opts
        &&& self.n_blocks == other.n_blocks
        &&& self.p == other.p
        &&& self.n_triples == other.n_triples
        &&& self.binom == other.binom
        &&& self.opt_mask@ == other.opt_mask@
        &&& self.opt_items@ == other.opt_items@
        &&& self.item_opts@ == other.item_opts@
        &&& self.tri_pts@ == other.tri_pts@
        &&& self.tri_item@ == other.tri_item@
        &&& self.tri_opt@ == other.tri_opt@
        &&& self.use_matching == other.use_matching
        &&& self.use_filter == other.use_filter
    }

    /// Propagation from `old`: the same tables and open levels, decided
    /// options stay decided the same way, and the trail only grows.
    pub closed spec fn grows(&self, old: &Engine) -> bool {
        &&& self.same_tables(old)
        &&& self.levels@ == old.levels@
        &&& self.snaps == old.snaps
        &&& self.status@.len() == old.status@.len()
        &&& forall|o: int| 0 <= o < old.status@.len() && old.status@[o] != UNKNOWN ==> #[trigger] self.status@[o] == old.status@[o]
        &&& old.trail@.len() <= self.trail@.len()
        &&& forall|j: int| 0 <= j < old.trail@.len() ==> #[trigger] self.trail@[j] == old.trail@[j]
    }

    /// The number of open options, which propagation lowers.
    pub closed spec fn open_count(&self) -> nat {
        count_open(self.status@, self.n_opts as nat)
    }

    /// The engine for `S(4,5,v)`: every option open, nothing covered.
    pub fn new(v: u32, use_matching: bool) -> (e: Engine)
        requires
            9 <= v <= 25,
            (v - 3) % 2 == 0,
            binom(v as nat, 4) % 5 == 0,
        ensures
            e.wf(),
            e.ground() == v,
            e.matching_on() == use_matching,
            !e.filter_on(),
            e.options() == binom(v as nat, 5),
            e.included() == 0,
            e.saved().len() == 0,
            forall|o: int| 0 <= o < e.options() ==> #[trigger] e.statuses()[o] == UNKNOWN,
    {
        let binom = Binom::new();
        let n_items = binom.c(v, 4) as usize;
        let n_opts = binom.c(v, 5) as usize;
        let n_triples = binom.c(v, 3) as usize;
        let p = (v - 3) as usize;
        let n_blocks = n_items / 5;
        let (opt_mask, opt_items) = build_options(&binom, v, n_opts);
        let item_opts = build_items(&binom, v, n_items);
        let (tri_pts, tri_item, tri_opt) = build_triples(&binom, v, n_triples);
        let e = Engine {
            v,
            n_items,
            n_opts,
            n_blocks,
            p,
            binom,
            opt_mask,
            opt_items,
            item_opts,
            tri_pts,
            tri_item,
            tri_opt,
            n_triples,
            status: vec![UNKNOWN; n_opts],
            cause: vec![NO_CAUSE; n_opts],
            item_cov: vec![0u8; n_items],
            item_avail: vec![v - 4; n_items],
            n_in: 0,
            trail: Vec::new(),
            levels: Vec::new(),
            force_q: VecDeque::new(),
            dirty_q: VecDeque::new(),
            in_dirty: vec![false; n_triples],
            blossom: Blossom::new(),
            sub: Blossom::new(),
            use_matching,
            use_filter: false,
            filtered: 0,
            explain_buf: Vec::new(),
            conflicts: 0,
            decisions: 0,
            props: 0,
            by_rule: [0u64; 3],
            last_why: Why::Cover,
            conflict_item: usize::MAX,
            snaps: Ghost(Seq::empty()),
        };
        proof {
            assert(e.tables_ok());
            e.lemma_ranges();
            let s = v - 4;
            assert forall|ii: int| 0 <= ii < n_items implies #[trigger] e.item_avail@[ii] == live_count(e.status@, e.item_opts@, s, ii, s as nat) by {
                assert forall|j: int| 0 <= j < s implies e.status@[#[trigger] at2(e.item_opts@, s, ii, j) as int] != OUT by {
                    assert(at2(e.item_opts@, s, ii, j) < n_opts);
                }
                lemma_live_all(e.status@, e.item_opts@, s, ii, s as nat);
            }
            assert forall|ii: int| 0 <= ii < n_items implies #[trigger] e.item_cov@[ii] == in_row(e.status@, e.item_opts@, s, ii, s as nat) by {
                assert forall|j: int| 0 <= j < s implies e.status@[#[trigger] at2(e.item_opts@, s, ii, j) as int] != IN by {
                    assert(at2(e.item_opts@, s, ii, j) < n_opts);
                }
                lemma_in_none(e.status@, e.item_opts@, s, ii, s as nat);
            }
            lemma_count_in_none(e.status@, n_opts as nat);
        }
        e
    }
}


/// Three distinct points below `v` make a 3-subset of `[v]`.
proof fn lemma_three_points(a: u32, b: u32, c: u32, v: u32)
    requires
        a < b < c < v,
        v <= 32,
    ensures
        popcount((1u32 << a) | (1u32 << b) | (1u32 << c)) == 3,
        below((1u32 << a) | (1u32 << b) | (1u32 << c), v as int),
{
    lemma_bits_zero();
    crate::bits::lemma_pop_zero(0);
    crate::bits::lemma_or_zero(1u32 << a);
    lemma_add_point(0u32, a, v);
    lemma_add_point(1u32 << a, b, v);
    lemma_add_point((1u32 << a) | (1u32 << b), c, v);
}

impl Engine {
    /// Everything but the queues, the blame and the counters is as in
    /// `old`.
    pub closed spec fn same_state(&self, old: &Engine) -> bool {
        &&& self.same_tables(old)
        &&& self.status@ == old.status@
        &&& self.cause@ == old.cause@
        &&& self.item_cov@ == old.item_cov@
        &&& self.item_avail@ == old.item_avail@
        &&& self.n_in == old.n_in
        &&& self.trail@ == old.trail@
        &&& self.levels@ == old.levels@
        &&& self.snaps == old.snaps
    }

    /// The 3-subset of `[v]` made of points `x`, `y`, `z` of `pts`.
    pub open spec fn tri(pts: Seq<u32>, x: int, y: int, z: int) -> u32 {
        (1u32 << pts[x]) | (1u32 << pts[y]) | (1u32 << pts[z])
    }

    /// Every triple `(x, y, z)` of the five points, taken before `(a, b, c)`
    /// in lexicographic order, is marked in `marks`.
    pub open spec fn marked_before(marks: Seq<bool>, pts: Seq<u32>, a: int, b: int, c: int) -> bool {
        forall|x: int, y: int, z: int|
            0 <= x < y < z < 5 && (x < a || (x == a && y < b) || (x == a && y == b && z < c))
                ==> marks[colex(#[trigger] Self::tri(pts, x, y, z)) as int]
    }

    /// Queue every triple inside the option mask `om` for the matching
    /// check, once each.
    fn mark_dirty(&mut self, om: u32)
        requires
            old(self).wf(),
            popcount(om) == 5,
            below(om, old(self).v as int),
        ensures
            final(self).wf(),
            final(self).same_state(old(self)),
            final(self).force_q@ == old(self).force_q@,
            final(self).explain_buf@ == old(self).explain_buf@,
            final(self).blossom == old(self).blossom,
            final(self).sub == old(self).sub,
            !old(self).use_matching ==> final(self).dirty_q@ == old(self).dirty_q@ && final(self).in_dirty@ == old(self).in_dirty@,
            old(self).use_matching ==> Self::marked_before(final(self).in_dirty@, block_points(om, old(self).v), 5, 0, 0),
            forall|t: int| 0 <= t < old(self).in_dirty@.len() && #[trigger] old(self).in_dirty@[t] ==> final(self).in_dirty@[t],
            old(self).dirty_q@.len() <= final(self).dirty_q@.len(),
            forall|j: int| 0 <= j < old(self).dirty_q@.len() ==> #[trigger] final(self).dirty_q@[j] == old(self).dirty_q@[j],
    {
        if !self.use_matching {
            return;
        }
        proof {
            self.lemma_ranges();
            lemma_points(om, self.v);
            crate::bits::lemma_binom_fits(self.v as nat, 3);
        }
        let pts = points(om, self.v);
        let ghost pre = *self;
        let mut a: usize = 0;
        while a < 5
            invariant
                self.wf(),
                self.same_state(&pre),
                self.force_q@ == pre.force_q@,
                self.explain_buf@ == pre.explain_buf@,
                self.blossom == pre.blossom,
                self.sub == pre.sub,
                pts@ == block_points(om, self.v),
                pts@.len() == 5,
                forall|q: int| 0 <= q < 5 ==> #[trigger] pts@[q] < self.v,
                forall|x: int, y: int| 0 <= x < y < 5 ==> pts@[x] < pts@[y],
                a <= 5,
                pre == *old(self),
                pre.use_matching,
                self.in_dirty@.len() == pre.in_dirty@.len(),
                forall|t: int| 0 <= t < pre.in_dirty@.len() && #[trigger] pre.in_dirty@[t] ==> self.in_dirty@[t],
                pre.dirty_q@.len() <= self.dirty_q@.len(),
                forall|j: int| 0 <= j < pre.dirty_q@.len() ==> #[trigger] self.dirty_q@[j] == pre.dirty_q@[j],
                Self::marked_before(self.in_dirty@, pts@, a as int, 0, 0),
            decreases 5 - a,
        {
            let mut b: usize = a + 1;
            while b < 5
                invariant
                    self.wf(),
                    self.same_state(&pre),
                    self.force_q@ == pre.force_q@,
                    self.explain_buf@ == pre.explain_buf@,
                    self.blossom == pre.blossom,
                    self.sub == pre.sub,
                    pts@ == block_points(om, self.v),
                    pts@.len() == 5,
                    forall|q: int| 0 <= q < 5 ==> #[trigger] pts@[q] < self.v,
                    forall|x: int, y: int| 0 <= x < y < 5 ==> pts@[x] < pts@[y],
                    a < 5,
                    a + 1 <= b <= 5,
                pre == *old(self),
                pre.use_matching,
                self.in_dirty@.len() == pre.in_dirty@.len(),
                forall|t: int| 0 <= t < pre.in_dirty@.len() && #[trigger] pre.in_dirty@[t] ==> self.in_dirty@[t],
                pre.dirty_q@.len() <= self.dirty_q@.len(),
                forall|j: int| 0 <= j < pre.dirty_q@.len() ==> #[trigger] self.dirty_q@[j] == pre.dirty_q@[j],
                    Self::marked_before(self.in_dirty@, pts@, a as int, b as int, 0),
                decreases 5 - b,
            {
                let mut c: usize = b + 1;
                while c < 5
                    invariant
                        self.wf(),
                        self.same_state(&pre),
                        self.force_q@ == pre.force_q@,
                        self.explain_buf@ == pre.explain_buf@,
                        self.blossom == pre.blossom,
                        self.sub == pre.sub,
                        pts@ == block_points(om, self.v),
                        pts@.len() == 5,
                        forall|q: int| 0 <= q < 5 ==> #[trigger] pts@[q] < self.v,
                        forall|x: int, y: int| 0 <= x < y < 5 ==> pts@[x] < pts@[y],
                        a < b < 5,
                        b + 1 <= c <= 5,
                pre == *old(self),
                pre.use_matching,
                self.in_dirty@.len() == pre.in_dirty@.len(),
                forall|t: int| 0 <= t < pre.in_dirty@.len() && #[trigger] pre.in_dirty@[t] ==> self.in_dirty@[t],
                pre.dirty_q@.len() <= self.dirty_q@.len(),
                forall|j: int| 0 <= j < pre.dirty_q@.len() ==> #[trigger] self.dirty_q@[j] == pre.dirty_q@[j],
                        Self::marked_before(self.in_dirty@, pts@, a as int, b as int, c as int),
                    decreases 5 - c,
                {
                    let tm = (1u32 << pts[a]) | (1u32 << pts[b]) | (1u32 << pts[c]);
                    proof {
                        lemma_three_points(pts@[a as int], pts@[b as int], pts@[c as int], self.v);
                        lemma_rank_below(tm, self.v);
                    }
                    let t = colex_partial(&self.binom, tm, 0, 0) as usize;
                    let ghost md = self.in_dirty@;
                    if !self.in_dirty[t] {
                        self.in_dirty.set(t, true);
                        self.dirty_q.push_back(t as u32);
                    }
                    proof {
                        assert(tm == Self::tri(pts@, a as int, b as int, c as int));
                        assert(self.in_dirty@[colex(Self::tri(pts@, a as int, b as int, c as int)) as int]);
                        assert forall|x: int, y: int, z: int|
                            0 <= x < y < z < 5 && (x < a || (x == a && y < b) || (x == a && y == b && z < c + 1))
                                implies self.in_dirty@[colex(#[trigger] Self::tri(pts@, x, y, z)) as int] by {
                            if !(x == a && y == b && z == c) {
                                lemma_three_points(pts@[x], pts@[y], pts@[z], self.v);
                                lemma_rank_below(Self::tri(pts@, x, y, z), self.v);
                                assert(md[colex(Self::tri(pts@, x, y, z)) as int]);
                            }
                        }
                    }
                    c += 1;
                }
                b += 1;
            }
            a += 1;
        }
    }

    /// Everything but the forcing queue, the blame and the counters is as
    /// in `old`.
    pub closed spec fn same_but_forced(&self, old: &Engine) -> bool {
        &&& self.same_state(old)
        &&& self.dirty_q@ == old.dirty_q@
        &&& self.in_dirty@ == old.in_dirty@
        &&& self.explain_buf@ == old.explain_buf@
        &&& self.blossom == old.blossom
        &&& self.sub == old.sub
    }

    /// Queue the first open option of item `ii`, if there is one.
    fn queue_candidate(&mut self, ii: usize)
        requires
            old(self).tables_ok(),
            ii < old(self).n_items,
            old(self).status@.len() == old(self).n_opts,
            forall|i: int| 0 <= i < old(self).force_q@.len() ==> #[trigger] old(self).force_q@[i] < old(self).n_opts,
        ensures
            final(self).same_but_forced(old(self)),
            forall|i: int| 0 <= i < final(self).force_q@.len() ==> #[trigger] final(self).force_q@[i] < final(self).n_opts,
            (forall|j: int| 0 <= j < old(self).v - 4 ==> old(self).status@[#[trigger] at2(old(self).item_opts@, old(self).v - 4, ii as int, j) as int] != UNKNOWN)
                ==> final(self).force_q@ == old(self).force_q@,
            !(forall|j: int| 0 <= j < old(self).v - 4 ==> old(self).status@[#[trigger] at2(old(self).item_opts@, old(self).v - 4, ii as int, j) as int] != UNKNOWN)
                ==> exists|k: int| 0 <= k < old(self).v - 4
                    && old(self).status@[#[trigger] at2(old(self).item_opts@, old(self).v - 4, ii as int, k) as int] == UNKNOWN
                    && (forall|j: int| 0 <= j < k ==> old(self).status@[#[trigger] at2(old(self).item_opts@, old(self).v - 4, ii as int, j) as int] != UNKNOWN)
                    && final(self).force_q@ == old(self).force_q@.push(at2(old(self).item_opts@, old(self).v - 4, ii as int, k)),
    {
        proof {
            self.lemma_ranges();
        }
        let ghost pre = *self;
        let su = (self.v - 4) as usize;
        let n_io = self.item_opts.len();
        let mut kk: usize = 0;
        while kk < su
            invariant
                pre == *old(self),
                self.same_but_forced(&pre),
                pre.tables_ok(),
                n_io == self.item_opts@.len(),
                su == self.v - 4,
                ii < self.n_items,
                self.n_items <= 0xFFFF_FFFF,
                forall|i3: int, k3: int| 0 <= i3 < self.n_items && 0 <= k3 < su ==> #[trigger] at2(self.item_opts@, su as int, i3, k3) < self.n_opts,
                self.status@.len() == self.n_opts,
                forall|i: int| 0 <= i < self.force_q@.len() ==> #[trigger] self.force_q@[i] < self.n_opts,
                kk <= su,
                self.force_q@ == pre.force_q@,
                forall|j: int| 0 <= j < kk ==> self.status@[#[trigger] at2(self.item_opts@, su as int, ii as int, j) as int] != UNKNOWN,
            decreases su - kk,
        {
            proof {
                lemma_index2(ii as int, kk as int, self.n_items as int, su as int);
            }
            assert(ii * su + kk < self.item_opts@.len());
            let cand = self.item_opts[ii * su + kk];
            assert(cand == at2(self.item_opts@, su as int, ii as int, kk as int));
            if self.status[cand as usize] == UNKNOWN {
                self.force_q.push_back(cand);
                return;
            }
            kk += 1;
        }
    }

    /// Exclude option `o`, blaming `cause`. Every item of `o` loses a
    /// candidate; an uncovered item left with none is a conflict, and one
    /// left with a single open candidate queues that candidate.
    pub fn set_out_because(&mut self, o: usize, cause: u32) -> (ok: bool)
        requires
            old(self).wf(),
            o < old(self).options(),
        ensures
            final(self).wf(),
            final(self).grows(old(self)),
            final(self).statuses()[o as int] == OUT || (old(self).statuses()[o as int] == IN && !ok),
            old(self).statuses()[o as int] != UNKNOWN ==> final(self).statuses() == old(self).statuses(),
            old(self).statuses()[o as int] == UNKNOWN ==> final(self).statuses() == old(self).statuses().update(o as int, OUT),
            old(self).statuses()[o as int] == OUT ==> ok,
            old(self).statuses()[o as int] != UNKNOWN ==> final(self).forced() == old(self).forced() && final(self).dirty() == old(self).dirty(),
            final(self).open_count() <= old(self).open_count(),
            old(self).statuses()[o as int] == UNKNOWN ==> final(self).open_count() < old(self).open_count(),
    {
        let st = self.status[o];
        if st == OUT {
            return true;
        }
        if st == IN {
            self.last_why = Why::Cover;
            return false;
        }
        proof {
            self.lemma_ranges();
        }
        let ghost pre = *self;
        let ghost st0 = self.status@;
        let ghost s = self.v - 4;
        self.status.set(o, OUT);
        self.cause.set(o, cause);
        self.trail.push((o as u32, OUT));
        let ghost st1 = self.status@;
        proof {
            assert forall|ii: int| 0 <= ii < self.n_items implies #[trigger] self.item_avail@[ii]
                == live_count(st1, self.item_opts@, s, ii, s as nat) + count_eq(self.opt_items@, 5, o as int, ii as u32, 5) by {
                assert forall|j: int| 0 <= j < s implies #[trigger] at2(self.item_opts@, s, ii, j) < st0.len() by {}
                lemma_live_update(st0, st1, self.item_opts@, s, ii, o as int, s as nat);
                self.lemma_incidence(o as int, ii);
            }
            assert forall|ii: int| 0 <= ii < self.n_items implies #[trigger] self.item_cov@[ii] == in_row(st1, self.item_opts@, s, ii, s as nat) by {
                assert forall|j: int| 0 <= j < s implies #[trigger] at2(self.item_opts@, s, ii, j) < st0.len() by {}
                lemma_in_update(st0, st1, self.item_opts@, s, ii, o as int, s as nat);
            }
            lemma_count_in_update(st0, st1, o as int, self.n_opts as nat);
            let tr0 = pre.trail@;
            let tr1 = self.trail@;
            assert forall|j: int| 0 <= j < tr0.len() implies (#[trigger] tr0[j]).0 != o by {
                assert(st0[tr0[j].0 as int] == tr0[j].1);
            }
            assert forall|j: int| 0 <= j < tr1.len() implies (#[trigger] tr1[j]).0 < self.n_opts && (tr1[j].1 == IN || tr1[j].1 == OUT)
                && st1[tr1[j].0 as int] == tr1[j].1 by {
                if j < tr0.len() {
                    assert(tr1[j] == tr0[j]);
                }
            }
            assert forall|i: int, j: int| 0 <= i < j < tr1.len() implies (#[trigger] tr1[i]).0 != (#[trigger] tr1[j]).0 by {
                assert(tr1[i] == tr0[i]);
                if j < tr0.len() {
                    assert(tr1[j] == tr0[j]);
                }
            }
            assert forall|i: int| 0 <= i < self.snaps@.len() implies #[trigger] self.snaps@[i] == rewind(st1, tr1.skip(self.levels@[i] as int)) by {
                lemma_skip_push(tr0, (o as u32, OUT), self.levels@[i] as int);
                lemma_rewind_push(st0, tr0.skip(self.levels@[i] as int), o as u32, OUT);
            }
            assert(log_ok(st1, self.n_opts as nat, tr1, self.levels@, self.snaps@));
        }
        let su = (self.v - 4) as usize;
        let n_oi = self.opt_items.len();
        let n_io = self.item_opts.len();
        let mut ok = true;
        let mut k: usize = 0;
        while k < 5
            invariant
                n_oi == self.opt_items@.len(),
                n_io == self.item_opts@.len(),
                pre.wf(),
                log_ok(st1, self.n_opts as nat, self.trail@, self.levels@, self.snaps@),
                self.n_in == count_in(st1, self.n_opts as nat),
                self.tables_ok(),
                self.same_tables(&pre),
                self.status@ == st1,
                st0 == pre.status@,
                st1 == st0.update(o as int, OUT),
                o < self.n_opts,
                s == self.v - 4,
                su == s,
                self.n_items <= 0xFFFF_FFFF,
                self.n_opts <= 0xFFFF_FFFF,
                forall|o2: int, kk: int| 0 <= o2 < self.n_opts && 0 <= kk < 5 ==> #[trigger] at2(self.opt_items@, 5, o2, kk) < self.n_items,
                forall|ii: int, kk: int| 0 <= ii < self.n_items && 0 <= kk < s ==> #[trigger] at2(self.item_opts@, s, ii, kk) < self.n_opts,
                self.item_avail@.len() == self.n_items,
                self.item_cov@.len() == self.n_items,
                k <= 5,
                forall|ii: int| 0 <= ii < self.n_items ==> #[trigger] self.item_avail@[ii] + count_eq(self.opt_items@, 5, o as int, ii as u32, k as nat)
                    == live_count(st1, self.item_opts@, s, ii, s as nat) + count_eq(self.opt_items@, 5, o as int, ii as u32, 5),
                forall|i: int| 0 <= i < self.force_q@.len() ==> #[trigger] self.force_q@[i] < self.n_opts,
                self.cause@ == pre.cause@.update(o as int, cause),
                self.item_cov@ == pre.item_cov@,
                forall|i2: int| 0 <= i2 < self.n_items ==> #[trigger] self.item_cov@[i2] == in_row(st1, self.item_opts@, s, i2, s as nat),
                self.n_in == pre.n_in,
                self.trail@ == pre.trail@.push((o as u32, OUT)),
                self.levels@ == pre.levels@,
                self.snaps == pre.snaps,
                self.dirty_q@ == pre.dirty_q@,
                self.in_dirty@ == pre.in_dirty@,
                self.explain_buf@ == pre.explain_buf@,
                self.blossom == pre.blossom,
                self.sub == pre.sub,
            decreases 5 - k,
        {
            proof {
                lemma_index2(o as int, k as int, self.n_opts as int, 5);
            }
            assert(o * 5 + k < self.opt_items@.len());
            let ii = self.opt_items[o * 5 + k] as usize;
            proof {
                assert(ii as u32 == at2(self.opt_items@, 5, o as int, k as int));
                lemma_count_eq_mono(self.opt_items@, 5, o as int, ii as u32, (k + 1) as nat, 5);
                assert(count_eq(self.opt_items@, 5, o as int, ii as u32, (k + 1) as nat) == count_eq(self.opt_items@, 5, o as int, ii as u32, k as nat) + 1);
            }
            let x = self.item_avail[ii] - 1;
            self.item_avail.set(ii, x);
            proof {
                assert forall|i2: int| 0 <= i2 < self.n_items implies #[trigger] self.item_avail@[i2] + count_eq(self.opt_items@, 5, o as int, i2 as u32, (k + 1) as nat)
                    == live_count(st1, self.item_opts@, s, i2, s as nat) + count_eq(self.opt_items@, 5, o as int, i2 as u32, 5) by {
                    if i2 != ii as int {
                        assert((i2 as u32) != (ii as u32));
                    }
                }
            }
            if self.item_cov[ii] == 0 {
                if self.item_avail[ii] == 0 {
                    self.last_why = Why::Cover;
                    self.conflict_item = ii;
                    ok = false;
                } else if self.item_avail[ii] == 1 {
                    self.queue_candidate(ii);
                }
            }
            k += 1;
        }
        let om = self.opt_mask[o];
        proof {
            assert(ranked(self.opt_mask@[o as int], self.v, 5, o as int));
            assert(self.wf());
        }
        self.mark_dirty(om);
        proof {
            Engine::lemma_open_drop(&pre, self, o as int);
        }
        ok
    }
}


impl Engine {
    /// `x` is an option other than `o` that covers one of `o`'s items.
    pub closed spec fn touches(&self, o: int, x: int) -> bool {
        x != o && hits_items(self.opt_items@, self.item_opts@, self.v - 4, o, 5, x)
    }

    proof fn lemma_grows_trans(a: &Engine, b: &Engine, c: &Engine)
        requires
            b.grows(a),
            c.grows(b),
        ensures
            c.grows(a),
    {
        assert forall|o: int| 0 <= o < a.status@.len() && a.status@[o] != UNKNOWN implies #[trigger] c.status@[o] == a.status@[o] by {
            assert(b.status@[o] == a.status@[o]);
        }
        assert forall|j: int| 0 <= j < a.trail@.len() implies #[trigger] c.trail@[j] == a.trail@[j] by {
            assert(b.trail@[j] == a.trail@[j]);
        }
    }

    /// Include option `o`: it covers its five items, and every other
    /// option on those items is excluded, blaming `o`. Fails when `o` is
    /// excluded, when too many options would be included, when one of its
    /// items is already covered, or when an exclusion fails.
    pub fn set_in(&mut self, o: usize) -> (ok: bool)
        requires
            old(self).wf(),
            o < old(self).options(),
        ensures
            final(self).wf(),
            final(self).grows(old(self)),
            old(self).statuses()[o as int] == IN ==> ok && final(self).statuses() == old(self).statuses(),
            old(self).statuses()[o as int] == OUT ==> !ok && final(self).statuses() == old(self).statuses(),
            ok ==> final(self).statuses()[o as int] == IN,
            ok && old(self).statuses()[o as int] == UNKNOWN ==> forall|x: int| 0 <= x < old(self).options() ==> #[trigger] final(self).statuses()[x]
                == (if x == o { IN } else if old(self).touches(o as int, x) { OUT } else { old(self).statuses()[x] }),
            old(self).statuses()[o as int] != UNKNOWN ==> final(self).forced() == old(self).forced() && final(self).dirty() == old(self).dirty(),
            final(self).open_count() <= old(self).open_count(),
            old(self).statuses()[o as int] == UNKNOWN ==> final(self).open_count() < old(self).open_count(),
    {
        let st = self.status[o];
        if st == IN {
            return true;
        }
        if st == OUT {
            self.last_why = Why::Cover;
            return false;
        }
        proof {
            self.lemma_ranges();
            lemma_count_in_le(self.status@.update(o as int, IN), self.n_opts as nat);
            lemma_count_in_update(self.status@, self.status@.update(o as int, IN), o as int, self.n_opts as nat);
        }
        let ghost pre = *self;
        let ghost st0 = self.status@;
        let ghost s = self.v - 4;
        self.status.set(o, IN);
        self.trail.push((o as u32, IN));
        self.n_in = self.n_in + 1;
        let ghost st1 = self.status@;
        proof {
            assert forall|ii: int| 0 <= ii < self.n_items implies #[trigger] self.item_avail@[ii] == live_count(st1, self.item_opts@, s, ii, s as nat) by {
                assert forall|j: int| 0 <= j < s implies #[trigger] at2(self.item_opts@, s, ii, j) < st0.len() by {}
                lemma_live_update(st0, st1, self.item_opts@, s, ii, o as int, s as nat);
            }
            assert forall|ii: int| 0 <= ii < self.n_items implies #[trigger] self.item_cov@[ii] + count_eq(self.opt_items@, 5, o as int, ii as u32, 5)
                == in_row(st1, self.item_opts@, s, ii, s as nat) + count_eq(self.opt_items@, 5, o as int, ii as u32, 0) by {
                assert forall|j: int| 0 <= j < s implies #[trigger] at2(self.item_opts@, s, ii, j) < st0.len() by {}
                lemma_in_update(st0, st1, self.item_opts@, s, ii, o as int, s as nat);
                self.lemma_incidence(o as int, ii);
                lemma_in_le(st1, self.item_opts@, s, ii, s as nat);
            }
            assert forall|ii: int| 0 <= ii < self.n_items implies #[trigger] in_row(st1, self.item_opts@, s, ii, s as nat) <= s by {
                lemma_in_le(st1, self.item_opts@, s, ii, s as nat);
            }
            let tr0 = pre.trail@;
            let tr1 = self.trail@;
            assert forall|j: int| 0 <= j < tr0.len() implies (#[trigger] tr0[j]).0 != o by {
                assert(st0[tr0[j].0 as int] == tr0[j].1);
            }
            assert forall|j: int| 0 <= j < tr1.len() implies (#[trigger] tr1[j]).0 < self.n_opts && (tr1[j].1 == IN || tr1[j].1 == OUT)
                && st1[tr1[j].0 as int] == tr1[j].1 by {
                if j < tr0.len() {
                    assert(tr1[j] == tr0[j]);
                }
            }
            assert forall|i: int, j: int| 0 <= i < j < tr1.len() implies (#[trigger] tr1[i]).0 != (#[trigger] tr1[j]).0 by {
                assert(tr1[i] == tr0[i]);
                if j < tr0.len() {
                    assert(tr1[j] == tr0[j]);
                }
            }
            assert forall|i: int| 0 <= i < self.snaps@.len() implies #[trigger] self.snaps@[i] == rewind(st1, tr1.skip(self.levels@[i] as int)) by {
                lemma_skip_push(tr0, (o as u32, IN), self.levels@[i] as int);
                lemma_rewind_push(st0, tr0.skip(self.levels@[i] as int), o as u32, IN);
            }
            assert(log_ok(st1, self.n_opts as nat, tr1, self.levels@, self.snaps@));
        }
        let n_oi = self.opt_items.len();
        let mut clash = false;
        let mut k: usize = 0;
        while k < 5
            invariant
                n_oi == self.opt_items@.len(),
                pre.wf(),
                log_ok(st1, self.n_opts as nat, self.trail@, self.levels@, self.snaps@),
                self.n_in == count_in(st1, self.n_opts as nat),
                self.tables_ok(),
                self.same_tables(&pre),
                self.status@ == st1,
                st0 == pre.status@,
                st1 == st0.update(o as int, IN),
                o < self.n_opts,
                s == self.v - 4,
                self.n_items <= 0xFFFF_FFFF,
                forall|o2: int, kk: int| 0 <= o2 < self.n_opts && 0 <= kk < 5 ==> #[trigger] at2(self.opt_items@, 5, o2, kk) < self.n_items,
                self.item_cov@.len() == self.n_items,
                k <= 5,
                forall|ii: int| 0 <= ii < self.n_items ==> #[trigger] self.item_cov@[ii] + count_eq(self.opt_items@, 5, o as int, ii as u32, 5)
                    == in_row(st1, self.item_opts@, s, ii, s as nat) + count_eq(self.opt_items@, 5, o as int, ii as u32, k as nat),
                forall|ii: int| 0 <= ii < self.n_items ==> #[trigger] in_row(st1, self.item_opts@, s, ii, s as nat) <= s,
                forall|ii: int| 0 <= ii < self.n_items ==> #[trigger] self.item_avail@[ii] == live_count(st1, self.item_opts@, s, ii, s as nat),
                self.item_avail@.len() == self.n_items,
                self.cause@ == pre.cause@,
                self.trail@ == pre.trail@.push((o as u32, IN)),
                self.levels@ == pre.levels@,
                self.snaps == pre.snaps,
                self.force_q@ == pre.force_q@,
                self.dirty_q@ == pre.dirty_q@,
                self.in_dirty@ == pre.in_dirty@,
                self.explain_buf@ == pre.explain_buf@,
                self.blossom == pre.blossom,
                self.sub == pre.sub,
            decreases 5 - k,
        {
            proof {
                lemma_index2(o as int, k as int, self.n_opts as int, 5);
            }
            let ii = self.opt_items[o * 5 + k] as usize;
            proof {
                assert(ii as u32 == at2(self.opt_items@, 5, o as int, k as int));
                lemma_count_eq_mono(self.opt_items@, 5, o as int, ii as u32, (k + 1) as nat, 5);
                assert(count_eq(self.opt_items@, 5, o as int, ii as u32, (k + 1) as nat) == count_eq(self.opt_items@, 5, o as int, ii as u32, k as nat) + 1);
            }
            let c = self.item_cov[ii];
            if c != 0 {
                clash = true;
            }
            self.item_cov.set(ii, c + 1);
            proof {
                assert forall|i2: int| 0 <= i2 < self.n_items implies #[trigger] self.item_cov@[i2] + count_eq(self.opt_items@, 5, o as int, i2 as u32, 5)
                    == in_row(st1, self.item_opts@, s, i2, s as nat) + count_eq(self.opt_items@, 5, o as int, i2 as u32, (k + 1) as nat) by {
                    if i2 != ii as int {
                        assert((i2 as u32) != (ii as u32));
                    }
                }
            }
            k += 1;
        }
        proof {
            assert(self.wf());
            Engine::lemma_grows_trans(&pre, &pre, self);
        }
        proof {
            Engine::lemma_open_drop(&pre, self, o as int);
        }
        if self.n_in > self.n_blocks {
            self.last_why = Why::Cardinality;
            return false;
        }
        if clash {
            self.last_why = Why::Cover;
            return false;
        }
        let ghost mid = *self;
        let su = (self.v - 4) as usize;
        let n_io = self.item_opts.len();
        let mut k: usize = 0;
        while k < 5
            invariant
                pre == *old(self),
                pre.status@[o as int] == UNKNOWN,
                self.status@[o as int] == IN,
                self.wf(),
                self.grows(&pre),
                mid.wf(),
                mid.status@ == st1,
                mid.same_tables(&pre),
                n_oi == self.opt_items@.len(),
                n_io == self.item_opts@.len(),
                su == self.v - 4,
                o < self.n_opts,
                st1[o as int] == IN,
                st1.len() == self.n_opts,
                k <= 5,
                self.same_tables(&mid),
                self.status@ == excl_items(st1, self.opt_items@, self.item_opts@, su as int, o as int, k as nat),
            decreases 5 - k,
        {
            proof {
                self.lemma_ranges();
                lemma_index2(o as int, k as int, self.n_opts as int, 5);
            }
            let ii = self.opt_items[o * 5 + k] as usize;
            let ghost base = self.status@;
            proof {
                assert(ii as u32 == at2(self.opt_items@, 5, o as int, k as int));
            }
            let mut kk: usize = 0;
            while kk < su
                invariant
                    pre == *old(self),
                    pre.status@[o as int] == UNKNOWN,
                    self.status@[o as int] == IN,
                    self.wf(),
                    self.grows(&pre),
                    n_io == self.item_opts@.len(),
                    su == self.v - 4,
                    o < self.n_opts,
                    ii < self.n_items,
                    ii as u32 == at2(self.opt_items@, 5, o as int, k as int),
                    self.same_tables(&mid),
                    k < 5,
                    kk <= su,
                    base.len() == self.n_opts,
                    base == excl_items(st1, self.opt_items@, self.item_opts@, su as int, o as int, k as nat),
                    self.status@ == excl_row(base, self.item_opts@, su as int, ii as int, o as int, kk as nat),
                decreases su - kk,
            {
                proof {
                    self.lemma_ranges();
                    lemma_index2(ii as int, kk as int, self.n_items as int, su as int);
                }
                let other = self.item_opts[ii * su + kk] as usize;
                proof {
                    assert(other as u32 == at2(self.item_opts@, su as int, ii as int, kk as int));
                }
                if other != o {
                    let ghost before = *self;
                    if !self.set_out_because(other, o as u32) {
                        proof {
                            Engine::lemma_grows_trans(&pre, &before, self);
                            Engine::lemma_open_drop(&pre, self, o as int);
                        }
                        return false;
                    }
                    proof {
                        Engine::lemma_grows_trans(&pre, &before, self);
                        assert(before.status@.update(other as int, OUT) =~= self.status@);
                    }
                }
                kk += 1;
            }
            k += 1;
        }
        let om = self.opt_mask[o];
        proof {
            self.lemma_ranges();
            assert(ranked(self.opt_mask@[o as int], self.v, 5, o as int));
        }
        let ghost before = *self;
        self.mark_dirty(om);
        proof {
            let s = self.v - 4;
            assert forall|kk: int, j: int| 0 <= kk < 5 && 0 <= j < s implies #[trigger] at2(self.item_opts@, s, at2(self.opt_items@, 5, o as int, kk) as int, j) < st1.len() by {
                assert(at2(self.opt_items@, 5, o as int, kk) < self.n_items);
            }
            lemma_excl_items(st1, self.opt_items@, self.item_opts@, s, o as int, 5);
            assert(self.grows(&before));
            Engine::lemma_grows_trans(&pre, &before, self);
            Engine::lemma_open_drop(&pre, self, o as int);
        }
        true
    }
}


/// Undoing the newest of `es.push(e)` first.
proof fn lemma_rewind_last(st: Seq<u8>, es: Seq<(u32, u8)>, e: (u32, u8))
    ensures
        rewind(st, es.push(e)) == rewind(st.update(e.0 as int, UNKNOWN), es),
{
    assert(es.push(e).drop_last() =~= es);
}

impl Engine {
    /// Undo the newest trail entry: its option is open again, and the
    /// counts of its items are restored.
    fn undo_last(&mut self)
        requires
            old(self).wf(),
            old(self).trail@.len() > 0,
            forall|i: int| 0 <= i < old(self).levels@.len() ==> #[trigger] old(self).levels@[i] < old(self).trail@.len(),
        ensures
            final(self).wf(),
            final(self).same_tables(old(self)),
            final(self).trail@ == old(self).trail@.drop_last(),
            final(self).status@ == old(self).status@.update(old(self).trail@.last().0 as int, UNKNOWN),
            final(self).levels@ == old(self).levels@,
            final(self).snaps == old(self).snaps,
    {
        proof {
            self.lemma_ranges();
        }
        let ghost pre = *self;
        let ghost st0 = self.status@;
        let ghost tr0 = self.trail@;
        let ghost s = self.v - 4;
        let e = self.trail.pop().unwrap();
        let o = e.0 as usize;
        let x = e.1;
        proof {
            assert(e == tr0.last());
            assert(tr0[tr0.len() - 1] == e);
            assert(st0[o as int] == x);
            lemma_count_in_update(st0, st0.update(o as int, UNKNOWN), o as int, self.n_opts as nat);
            if x == IN {
                lemma_count_in_pos(st0, o as int, self.n_opts as nat);
            }
        }
        self.status.set(o, UNKNOWN);
        let ghost st1 = self.status@;
        if x == IN {
            self.n_in = self.n_in - 1;
        }
        proof {
            let tr1 = self.trail@;
            assert(tr1 =~= tr0.drop_last());
            assert forall|j: int| 0 <= j < tr1.len() implies (#[trigger] tr1[j]).0 < self.n_opts && (tr1[j].1 == IN || tr1[j].1 == OUT)
                && st1[tr1[j].0 as int] == tr1[j].1 by {
                assert(tr1[j] == tr0[j]);
                assert(tr0[j].0 != tr0[tr0.len() - 1].0);
            }
            assert forall|i: int, j: int| 0 <= i < j < tr1.len() implies (#[trigger] tr1[i]).0 != (#[trigger] tr1[j]).0 by {
                assert(tr1[i] == tr0[i]);
                assert(tr1[j] == tr0[j]);
            }
            assert forall|i: int| 0 <= i < self.snaps@.len() implies #[trigger] self.snaps@[i] == rewind(st1, tr1.skip(self.levels@[i] as int)) by {
                lemma_skip_drop_last(tr0, self.levels@[i] as int);
                assert(tr0.last() == e);
                lemma_rewind_last(st0, tr1.skip(self.levels@[i] as int), e);
            }
            assert(log_ok(st1, self.n_opts as nat, tr1, self.levels@, self.snaps@));
            assert forall|ii: int| 0 <= ii < self.n_items implies #[trigger] self.item_avail@[ii] + (if x == OUT { count_eq(self.opt_items@, 5, o as int, ii as u32, 5) } else { 0 })
                == live_count(st1, self.item_opts@, s, ii, s as nat) by {
                assert forall|j: int| 0 <= j < s implies #[trigger] at2(self.item_opts@, s, ii, j) < st0.len() by {}
                lemma_live_update(st0, st1, self.item_opts@, s, ii, o as int, s as nat);
                self.lemma_incidence(o as int, ii);
            }
            assert forall|ii: int| 0 <= ii < self.n_items implies #[trigger] self.item_cov@[ii]
                == in_row(st1, self.item_opts@, s, ii, s as nat) + (if x == IN { count_eq(self.opt_items@, 5, o as int, ii as u32, 5) } else { 0 }) by {
                assert forall|j: int| 0 <= j < s implies #[trigger] at2(self.item_opts@, s, ii, j) < st0.len() by {}
                lemma_in_update(st0, st1, self.item_opts@, s, ii, o as int, s as nat);
                self.lemma_incidence(o as int, ii);
            }
            assert forall|ii: int| 0 <= ii < self.n_items implies #[trigger] live_count(st1, self.item_opts@, s, ii, s as nat) <= s by {
                lemma_live_le(st1, self.item_opts@, s, ii, s as nat);
            }
        }
        let n_oi = self.opt_items.len();
        let mut k: usize = 0;
        while k < 5
            invariant
                n_oi == self.opt_items@.len(),
                pre.wf(),
                log_ok(st1, self.n_opts as nat, self.trail@, self.levels@, self.snaps@),
                self.n_in == count_in(st1, self.n_opts as nat),
                self.tables_ok(),
                self.same_tables(&pre),
                self.status@ == st1,
                st0 == pre.status@,
                st1 == st0.update(o as int, UNKNOWN),
                st0[o as int] == x,
                x == IN || x == OUT,
                o < self.n_opts,
                s == self.v - 4,
                self.n_items <= 0xFFFF_FFFF,
                self.n_opts <= 0xFFFF_FFFF,
                forall|o2: int, kk: int| 0 <= o2 < self.n_opts && 0 <= kk < 5 ==> #[trigger] at2(self.opt_items@, 5, o2, kk) < self.n_items,
                self.item_cov@.len() == self.n_items,
                self.item_avail@.len() == self.n_items,
                k <= 5,
                forall|ii: int| 0 <= ii < self.n_items ==> #[trigger] self.item_avail@[ii] + (if x == OUT { count_eq(self.opt_items@, 5, o as int, ii as u32, 5) } else { 0 })
                    == live_count(st1, self.item_opts@, s, ii, s as nat) + (if x == OUT { count_eq(self.opt_items@, 5, o as int, ii as u32, k as nat) } else { 0 }),
                forall|ii: int| 0 <= ii < self.n_items ==> #[trigger] self.item_cov@[ii] + (if x == IN { count_eq(self.opt_items@, 5, o as int, ii as u32, k as nat) } else { 0 })
                    == in_row(st1, self.item_opts@, s, ii, s as nat) + (if x == IN { count_eq(self.opt_items@, 5, o as int, ii as u32, 5) } else { 0 }),
                forall|ii: int| 0 <= ii < self.n_items ==> #[trigger] live_count(st1, self.item_opts@, s, ii, s as nat) <= s,
                s <= 21,
                self.cause@ == pre.cause@,
                self.trail@ == pre.trail@.drop_last(),
                self.levels@ == pre.levels@,
                self.snaps == pre.snaps,
                self.force_q@ == pre.force_q@,
                self.dirty_q@ == pre.dirty_q@,
                self.in_dirty@ == pre.in_dirty@,
                self.explain_buf@ == pre.explain_buf@,
                self.blossom == pre.blossom,
                self.sub == pre.sub,
            decreases 5 - k,
        {
            proof {
                lemma_index2(o as int, k as int, self.n_opts as int, 5);
            }
            let ii = self.opt_items[o * 5 + k] as usize;
            proof {
                assert(ii as u32 == at2(self.opt_items@, 5, o as int, k as int));
                lemma_count_eq_mono(self.opt_items@, 5, o as int, ii as u32, (k + 1) as nat, 5);
                assert(count_eq(self.opt_items@, 5, o as int, ii as u32, (k + 1) as nat) == count_eq(self.opt_items@, 5, o as int, ii as u32, k as nat) + 1);
            }
            if x == IN {
                let c = self.item_cov[ii];
                self.item_cov.set(ii, c - 1);
            } else {
                let a = self.item_avail[ii];
                self.item_avail.set(ii, a + 1);
            }
            proof {
                assert forall|i2: int| 0 <= i2 < self.n_items implies #[trigger] self.item_avail@[i2] + (if x == OUT { count_eq(self.opt_items@, 5, o as int, i2 as u32, 5) } else { 0 })
                    == live_count(st1, self.item_opts@, s, i2, s as nat) + (if x == OUT { count_eq(self.opt_items@, 5, o as int, i2 as u32, (k + 1) as nat) } else { 0 }) by {
                    if i2 != ii as int {
                        assert((i2 as u32) != (ii as u32));
                    }
                }
                assert forall|i2: int| 0 <= i2 < self.n_items implies #[trigger] self.item_cov@[i2] + (if x == IN { count_eq(self.opt_items@, 5, o as int, i2 as u32, (k + 1) as nat) } else { 0 })
                    == in_row(st1, self.item_opts@, s, i2, s as nat) + (if x == IN { count_eq(self.opt_items@, 5, o as int, i2 as u32, 5) } else { 0 }) by {
                    if i2 != ii as int {
                        assert((i2 as u32) != (ii as u32));
                    }
                }
            }
            k += 1;
        }
    }

    /// Open a decision level: remember the current statuses.
    pub fn push_level(&mut self)
        requires
            old(self).wf(),
        ensures
            final(self).wf(),
            final(self).saved() == old(self).saved().push(old(self).statuses()),
            final(self).statuses() == old(self).statuses(),
            final(self).same_tables(old(self)),
            final(self).included() == old(self).included(),
    {
        let ghost pre = *self;
        self.levels.push(self.trail.len());
        self.snaps = Ghost(self.snaps@.push(self.status@));
        proof {
            let tr = self.trail@;
            let lv = self.levels@;
            let sn = self.snaps@;
            assert(tr.skip(tr.len() as int) =~= Seq::<(u32, u8)>::empty());
            assert forall|i: int| 0 <= i < sn.len() implies #[trigger] sn[i] == rewind(self.status@, tr.skip(lv[i] as int)) by {
                if i < sn.len() - 1 {
                    assert(sn[i] == pre.snaps@[i]);
                    assert(lv[i] == pre.levels@[i]);
                }
            }
            assert forall|i: int, j: int| 0 <= i <= j < lv.len() implies #[trigger] lv[i] <= #[trigger] lv[j] by {
                if j < lv.len() - 1 {
                    assert(lv[i] == pre.levels@[i]);
                    assert(lv[j] == pre.levels@[j]);
                } else if i < lv.len() - 1 {
                    assert(lv[i] == pre.levels@[i]);
                }
            }
            assert(log_ok(self.status@, self.n_opts as nat, tr, lv, sn));
        }
    }

    /// Close the newest decision level: every decision since its
    /// `push_level` is undone, and the statuses are those it saved.
    pub fn pop_level(&mut self)
        requires
            old(self).wf(),
            old(self).saved().len() > 0,
        ensures
            final(self).wf(),
            final(self).saved() == old(self).saved().drop_last(),
            final(self).statuses() == old(self).saved().last(),
            final(self).same_tables(old(self)),
    {
        let ghost pre = *self;
        let ghost target = self.snaps@.last();
        let nl = self.levels.len();
        let mark = self.levels[nl - 1];
        self.levels.pop();
        self.snaps = Ghost(self.snaps@.drop_last());
        proof {
            let tr = self.trail@;
            let lv = self.levels@;
            let sn = self.snaps@;
            assert(pre.levels@[nl - 1] == mark);
            assert forall|i: int| 0 <= i < sn.len() implies #[trigger] sn[i] == rewind(self.status@, tr.skip(lv[i] as int)) by {
                assert(sn[i] == pre.snaps@[i]);
                assert(lv[i] == pre.levels@[i]);
            }
            assert forall|i: int, j: int| 0 <= i <= j < lv.len() implies #[trigger] lv[i] <= #[trigger] lv[j] by {
                assert(lv[i] == pre.levels@[i]);
                assert(lv[j] == pre.levels@[j]);
            }
            assert forall|i: int| 0 <= i < lv.len() implies #[trigger] lv[i] <= mark by {
                assert(lv[i] == pre.levels@[i]);
                assert(pre.levels@[i] <= pre.levels@[nl - 1]);
            }
            assert(log_ok(self.status@, self.n_opts as nat, tr, lv, sn));
            assert(target == rewind(self.status@, tr.skip(mark as int)));
        }
        while self.trail.len() > mark
            invariant
                self.wf(),
                self.same_tables(&pre),
                self.snaps@ == pre.snaps@.drop_last(),
                target == pre.snaps@.last(),
                mark <= self.trail@.len(),
                forall|i: int| 0 <= i < self.levels@.len() ==> #[trigger] self.levels@[i] <= mark,
                target == rewind(self.status@, self.trail@.skip(mark as int)),
            decreases self.trail@.len(),
        {
            let ghost tr = self.trail@;
            let ghost st = self.status@;
            self.undo_last();
            proof {
                lemma_skip_drop_last(tr, mark as int);
                lemma_rewind_last(st, tr.drop_last().skip(mark as int), tr.last());
            }
        }
        proof {
            assert(self.trail@.skip(mark as int) =~= Seq::<(u32, u8)>::empty());
        }
    }

    /// The number of open decision levels.
    pub fn level(&self) -> (n: usize)
        requires
            self.wf(),
        ensures
            n == self.saved().len(),
    {
        self.levels.len()
    }
}


impl Engine {
    /// Exclude option `o` with no antecedent.
    pub fn set_out(&mut self, o: usize) -> (ok: bool)
        requires
            old(self).wf(),
            o < old(self).options(),
        ensures
            final(self).wf(),
            final(self).grows(old(self)),
            final(self).statuses()[o as int] == OUT || (old(self).statuses()[o as int] == IN && !ok),
            old(self).statuses()[o as int] != UNKNOWN ==> final(self).statuses() == old(self).statuses(),
            old(self).statuses()[o as int] == UNKNOWN ==> final(self).statuses() == old(self).statuses().update(o as int, OUT),
            old(self).statuses()[o as int] == OUT ==> ok,
            old(self).statuses()[o as int] != UNKNOWN ==> final(self).forced() == old(self).forced() && final(self).dirty() == old(self).dirty(),
            final(self).open_count() <= old(self).open_count(),
            old(self).statuses()[o as int] == UNKNOWN ==> final(self).open_count() < old(self).open_count(),
    {
        self.set_out_because(o, NO_CAUSE)
    }

    /// Every block is chosen: as many options are included as a Steiner
    /// system has blocks.
    pub fn all_covered(&self) -> (r: bool)
        requires
            self.wf(),
        ensures
            r == (self.included() == self.blocks_needed()),
            self.blocks_needed() == self.items() / 5,
            self.included() == count_in(self.statuses(), self.options()),
    {
        self.n_in == self.n_blocks
    }
}


impl Engine {
    /// The option through triple `t` made of its outside points `pa`, `pb`.
    fn tri_option(&self, t: usize, pa: usize, pb: usize) -> (o: usize)
        requires
            self.wf(),
            t < self.n_triples,
            pa < self.p,
            pb < self.p,
        ensures
            o == at3(self.tri_opt@, self.p as int, t as int, pa as int, pb as int),
            o < self.n_opts,
    {
        proof {
            self.lemma_ranges();
            lemma_index3(t as int, pa as int, pb as int, self.n_triples as int, self.p as int);
            let p = self.p as int;
            let n = self.n_triples as int;
            assert(n * p * p == p * p * n) by (nonlinear_arith);
            assert(0 <= t * p <= t * p * p) by (nonlinear_arith)
                requires
                    0 <= t,
                    1 <= p,
            ;
            assert(0 <= pa * p);
        }
        let p = self.p;
        let len = self.tri_opt.len();
        assert(t * p * p + pa * p + pb < len);
        let o = self.tri_opt[t * p * p + pa * p + pb];
        proof {
            assert(o == at3(self.tri_opt@, self.p as int, t as int, pa as int, pb as int));
        }
        o as usize
    }

    /// The matching check at triple `t`: the blocks through `t` pair off
    /// the points outside `t` whose item is not yet covered, so those points
    /// must admit a perfect matching by the options still open. With the
    /// filter on, an open option that lies in no perfect matching is
    /// excluded. Fails, blaming the matching rule, when an odd number of
    /// points is left or no perfect matching exists.
    fn check_triple(&mut self, t: usize) -> (ok: bool)
        requires
            old(self).wf(),
            t < old(self).triples(),
        ensures
            final(self).wf(),
            final(self).grows(old(self)),
            final(self).open_count() <= old(self).open_count(),
            final(self).open_count() == old(self).open_count() ==> final(self).statuses() == old(self).statuses()
                && final(self).forced() == old(self).forced() && final(self).dirty() == old(self).dirty(),
            !old(self).filter_on() ==> final(self).statuses() == old(self).statuses() && final(self).forced() == old(self).forced()
                && final(self).dirty() == old(self).dirty(),
            old(self).uncovered(t as int) % 2 == 1 ==> !ok && final(self).why() == Why::Matching,
            old(self).uncovered(t as int) == 0 ==> ok,
            !ok && !old(self).filter_on() ==> final(self).why() == Why::Matching,
    {
        proof {
            self.lemma_ranges();
        }
        let ghost pre = *self;
        let p = self.p;
        let n_ti = self.tri_item.len();
        let mut local: Vec<usize> = Vec::new();
        let mut i: usize = 0;
        while i < p
            invariant
                *self == pre,
                pre.wf(),
                p == self.p,
                n_ti == self.tri_item@.len(),
                t < self.n_triples,
                i <= p,
                local@.len() == uncov_count(self.item_cov@, self.tri_item@, p as int, t as int, i as nat),
                local@.len() <= i,
                forall|q: int| 0 <= q < local@.len() ==> #[trigger] local@[q] < p,
                forall|t2: int, j: int| 0 <= t2 < self.n_triples && 0 <= j < self.p ==> #[trigger] at2(self.tri_item@, self.p as int, t2, j)
                    < self.n_items,
            decreases p - i,
        {
            proof {
                lemma_index2(t as int, i as int, self.n_triples as int, p as int);
            }
            let ii = self.tri_item[t * p + i] as usize;
            proof {
                assert(ii as u32 == at2(self.tri_item@, p as int, t as int, i as int));
            }
            if self.item_cov[ii] == 0 {
                local.push(i);
            }
            i += 1;
        }
        let nv = local.len();
        assert(nv == pre.uncovered(t as int));
        if nv % 2 != 0 {
            self.last_why = Why::Matching;
            return false;
        }
        if nv == 0 {
            return true;
        }
        self.blossom.reset(nv);
        let mut a: usize = 0;
        while a < nv
            invariant
                self.wf(),
                self.same_state(&pre),
                self.force_q@ == pre.force_q@,
                self.dirty_q@ == pre.dirty_q@,
                self.last_why == pre.last_why,
                p == self.p,
                t < self.n_triples,
                nv == local@.len(),
                nv <= 32,
                forall|q: int| 0 <= q < local@.len() ==> #[trigger] local@[q] < p,
                a <= nv,
            decreases nv - a,
        {
            let mut b: usize = a + 1;
            while b < nv
                invariant
                    self.wf(),
                    self.same_state(&pre),
                    self.force_q@ == pre.force_q@,
                    self.dirty_q@ == pre.dirty_q@,
                    self.last_why == pre.last_why,
                    p == self.p,
                    t < self.n_triples,
                    nv == local@.len(),
                    nv <= 32,
                    forall|q: int| 0 <= q < local@.len() ==> #[trigger] local@[q] < p,
                    a < nv,
                    a + 1 <= b <= nv,
                decreases nv - b,
            {
                let oi = self.tri_option(t, local[a], local[b]);
                if self.status[oi] == UNKNOWN {
                    self.blossom.add_edge(a, b);
                }
                b += 1;
            }
            a += 1;
        }
        if !self.blossom.has_perfect_matching() {
            self.last_why = Why::Matching;
            return false;
        }
        if !self.use_filter {
            return true;
        }
        // Régin's step for general graphs: an open edge in no perfect
        // matching can never be a block through `t`. Edges of the matching
        // just found lie in one, so only the others are tested.
        let mut doomed: Vec<u32> = Vec::new();
        let mut a: usize = 0;
        while a < nv
            invariant
                self.wf(),
                self.same_state(&pre),
                self.force_q@ == pre.force_q@,
                self.dirty_q@ == pre.dirty_q@,
                p == self.p,
                t < self.n_triples,
                nv == local@.len(),
                2 <= nv <= 32,
                forall|q: int| 0 <= q < local@.len() ==> #[trigger] local@[q] < p,
                forall|q: int| 0 <= q < doomed@.len() ==> #[trigger] doomed@[q] < self.n_opts,
                a <= nv,
            decreases nv - a,
        {
            let mut b: usize = a + 1;
            while b < nv
                invariant
                    self.wf(),
                    self.same_state(&pre),
                    self.force_q@ == pre.force_q@,
                    self.dirty_q@ == pre.dirty_q@,
                    p == self.p,
                    t < self.n_triples,
                    nv == local@.len(),
                    2 <= nv <= 32,
                    forall|q: int| 0 <= q < local@.len() ==> #[trigger] local@[q] < p,
                    forall|q: int| 0 <= q < doomed@.len() ==> #[trigger] doomed@[q] < self.n_opts,
                    a < nv,
                    a + 1 <= b <= nv,
                decreases nv - b,
            {
                if self.blossom.mate_of(a) != b as i32 {
                    let oi = self.tri_option(t, local[a], local[b]);
                    if self.status[oi] == UNKNOWN {
                        // is there a perfect matching using edge (a, b)?
                        self.sub.reset(nv - 2);
                        let mut map: Vec<usize> = Vec::new();
                        let mut k: usize = 0;
                        let mut x: usize = 0;
                        while x < nv
                            invariant
                                map@.len() == x,
                                x <= nv,
                                k <= x,
                                a < b < nv,
                                k == x - (if a < x { 1int } else { 0int }) - (if b < x { 1int } else { 0int }),
                                forall|q: int| 0 <= q < x && q != a && q != b ==> #[trigger] map@[q] < nv - 2,
                            decreases nv - x,
                        {
                            if x != a && x != b {
                                map.push(k);
                                k += 1;
                            } else {
                                map.push(0);
                            }
                            x += 1;
                        }
                        let mut x: usize = 0;
                        while x < nv
                            invariant
                                self.wf(),
                                self.same_state(&pre),
                                self.force_q@ == pre.force_q@,
                                self.dirty_q@ == pre.dirty_q@,
                                p == self.p,
                                t < self.n_triples,
                                nv == local@.len(),
                                2 <= nv <= 32,
                                forall|q: int| 0 <= q < local@.len() ==> #[trigger] local@[q] < p,
                                forall|q: int| 0 <= q < doomed@.len() ==> #[trigger] doomed@[q] < self.n_opts,
                                map@.len() == nv,
                                a < b < nv,
                                forall|q: int| 0 <= q < nv && q != a && q != b ==> #[trigger] map@[q] < nv - 2,
                                x <= nv,
                            decreases nv - x,
                        {
                            if x != a && x != b {
                                let mut y: usize = x + 1;
                                while y < nv
                                    invariant
                                        self.wf(),
                                        self.same_state(&pre),
                                        self.force_q@ == pre.force_q@,
                                        self.dirty_q@ == pre.dirty_q@,
                                        p == self.p,
                                        t < self.n_triples,
                                        nv == local@.len(),
                                        2 <= nv <= 32,
                                        forall|q: int| 0 <= q < local@.len() ==> #[trigger] local@[q] < p,
                                        forall|q: int| 0 <= q < doomed@.len() ==> #[trigger] doomed@[q] < self.n_opts,
                                        map@.len() == nv,
                                        a < b < nv,
                                        forall|q: int| 0 <= q < nv && q != a && q != b ==> #[trigger] map@[q] < nv - 2,
                                        x < nv,
                                        x != a && x != b,
                                        x + 1 <= y <= nv,
                                    decreases nv - y,
                                {
                                    if y != a && y != b {
                                        let o2 = self.tri_option(t, local[x], local[y]);
                                        if self.status[o2] == UNKNOWN {
                                            self.sub.add_edge(map[x], map[y]);
                                        }
                                    }
                                    y += 1;
                                }
                            }
                            x += 1;
                        }
                        if !self.sub.has_perfect_matching() && doomed.len() < 256 {
                            doomed.push(oi as u32);
                        }
                    }
                }
                b += 1;
            }
            a += 1;
        }
        let mut i: usize = 0;
        while i < doomed.len()
            invariant
                self.wf(),
                self.grows(&pre),
                pre.wf(),
                pre == *old(self),
                i <= doomed@.len(),
                forall|q: int| 0 <= q < doomed@.len() ==> #[trigger] doomed@[q] < self.n_opts,
                self.open_count() <= pre.open_count(),
                self.open_count() == pre.open_count() ==> self.status@ == pre.status@ && self.force_q@ == pre.force_q@
                    && self.dirty_q@ == pre.dirty_q@,
                pre.use_filter,
                pre.uncovered(t as int) % 2 == 0,
                pre.uncovered(t as int) != 0,
            decreases doomed@.len() - i,
        {
            self.filtered = self.filtered.saturating_add(1);
            let ghost before = *self;
            let d = doomed[i] as usize;
            let r = self.set_out(d);
            proof {
                Engine::lemma_grows_trans(&pre, &before, self);
                Engine::lemma_open_drop(&before, self, d as int);
                if before.status@[d as int] != UNKNOWN {
                    assert(self.status@ == before.status@);
                }
            }
            if !r {
                return false;
            }
            i += 1;
        }
        true
    }
}


impl Engine {
    /// Drop all pending work: the forced options and the queued triples.
    fn clear_queues(&mut self)
        requires
            old(self).wf(),
        ensures
            final(self).wf(),
            final(self).same_state(old(self)),
            final(self).forced().len() == 0,
            final(self).dirty().len() == 0,
    {
        let ghost pre = *self;
        self.force_q.clear();
        loop
            invariant
                self.wf(),
                self.same_state(&pre),
                self.force_q@.len() == 0,
            ensures
                self.wf(),
                self.same_state(&pre),
                self.force_q@.len() == 0,
                self.dirty_q@.len() == 0,
            decreases self.dirty_q@.len(),
        {
            match self.dirty_q.pop_front() {
                Some(t) => {
                    self.in_dirty.set(t as usize, false);
                },
                None => break,
            }
        }
    }

    /// Queue option `o` for inclusion.
    pub fn enqueue(&mut self, o: usize)
        requires
            old(self).wf(),
            o < old(self).options(),
        ensures
            final(self).wf(),
            final(self).same_state(old(self)),
            final(self).forced() == old(self).forced().push(o as u32),
            final(self).dirty() == old(self).dirty(),
    {
        self.force_q.push_back(o as u32);
    }

    /// Run the unit rule to a fixpoint first, then the matching check on
    /// each queued triple, once each. Returns `false` on a conflict, with
    /// its rule counted and the queues emptied; on success nothing is left
    /// queued.
    pub fn propagate(&mut self) -> (ok: bool)
        requires
            old(self).wf(),
        ensures
            final(self).wf(),
            final(self).grows(old(self)),
            final(self).forced().len() == 0,
            !ok || final(self).matching_on() ==> final(self).dirty().len() == 0,
    {
        let ghost pre = *self;
        loop
            invariant
                self.wf(),
                self.grows(&pre),
                pre == *old(self),
            decreases self.open_count(), self.force_q@.len(), self.dirty_q@.len(),
        {
            let ghost before = *self;
            if let Some(o) = self.force_q.pop_front() {
                proof {
                    assert(before.force_q@[0] == o);
                }
                self.props = self.props.saturating_add(1);
                let ghost popped = *self;
                let r = self.set_in(o as usize);
                proof {
                    Engine::lemma_grows_trans(&pre, &popped, self);
                    Engine::lemma_open_drop(&popped, self, o as int);
                }
                if !r {
                    self.count_conflict();
                    let ghost c = *self;
                    self.clear_queues();
                    proof {
                        assert(self.grows(&c));
                        Engine::lemma_grows_trans(&pre, &c, self);
                    }
                    return false;
                }
                continue;
            }
            if self.use_matching {
                if let Some(t) = self.dirty_q.pop_front() {
                    proof {
                        assert(before.dirty_q@[0] == t);
                    }
                    self.in_dirty.set(t as usize, false);
                    self.props = self.props.saturating_add(1);
                    let ghost popped = *self;
                    let r = self.check_triple(t as usize);
                    proof {
                        Engine::lemma_grows_trans(&pre, &popped, self);
                    }
                    if !r {
                        self.count_conflict();
                        let ghost c = *self;
                        self.clear_queues();
                        proof {
                            assert(self.grows(&c));
                            Engine::lemma_grows_trans(&pre, &c, self);
                        }
                        return false;
                    }
                    continue;
                }
            }
            return true;
        }
    }

    /// Count the latest conflict under its rule.
    fn count_conflict(&mut self)
        requires
            old(self).wf(),
        ensures
            final(self).wf(),
            final(self).same_state(old(self)),
            final(self).forced() == old(self).forced(),
            final(self).dirty() == old(self).dirty(),
    {
        let r: usize = match self.last_why {
            Why::Cover => 0,
            Why::Cardinality => 1,
            Why::Matching => 2,
        };
        self.by_rule[r] = self.by_rule[r].saturating_add(1);
    }
}


impl Engine {
    /// The most constrained uncovered item, scanning in index order and
    /// stopping at the first one with at most two options left.
    fn best_item(&self) -> (r: Option<usize>)
        requires
            self.wf(),
        ensures
            r is None <==> forall|ii: int| 0 <= ii < self.items() ==> #[trigger] self.covered(ii),
            r matches Some(ii) ==> self.mrv_item(ii as int),
    {
        let n = self.n_items;
        let mut best: Option<(u32, usize)> = None;
        let mut ii: usize = 0;
        while ii < n
            invariant
                self.wf(),
                n == self.n_items,
                ii <= n,
                best is None <==> forall|jj: int| 0 <= jj < ii ==> #[trigger] self.covered(jj),
                best matches Some((a, b)) ==> {
                    &&& b < ii
                    &&& !self.covered(b as int)
                    &&& a == self.live(b as int)
                    &&& a > 2
                    &&& forall|jj: int| 0 <= jj < b ==> #[trigger] self.covered(jj) || (self.live(jj) > a && self.live(jj) > 2)
                    &&& forall|jj: int| b < jj < ii ==> #[trigger] self.covered(jj) || self.live(jj) >= a
                },
            decreases n - ii,
        {
            if self.item_cov[ii] == 0 {
                let a = self.item_avail[ii];
                let better = match best {
                    None => true,
                    Some((b, _)) => a < b,
                };
                if better {
                    let ghost old_best = best;
                    best = Some((a, ii));
                    if a <= 2 {
                        proof {
                            assert forall|jj: int| 0 <= jj < ii implies #[trigger] self.covered(jj) || (self.live(jj) > a && self.live(jj) > 2) by {
                                if !self.covered(jj) {
                                    let (a0, b0) = old_best->0;
                                    if jj < b0 {
                                    } else if jj == b0 {
                                    } else {
                                        assert(self.live(jj) >= a0);
                                    }
                                }
                            }
                        }
                        assert(!self.covered(ii as int));
                        return Some(ii);
                    }
                    proof {
                        assert forall|jj: int| 0 <= jj < ii implies #[trigger] self.covered(jj) || (self.live(jj) > a && self.live(jj) > 2) by {
                            if !self.covered(jj) && old_best is Some {
                                let (a0, b0) = old_best->0;
                                if jj < b0 {
                                } else if jj == b0 {
                                } else {
                                    assert(self.live(jj) >= a0);
                                }
                            }
                        }
                    }
                } else {
                    proof {
                        let (b, bi) = best->0;
                        assert(self.live(ii as int) >= b);
                    }
                }
            }
            proof {
                match best {
                    None => {
                        assert forall|jj: int| 0 <= jj < ii + 1 implies #[trigger] self.covered(jj) by {
                            if jj == ii {
                                assert(self.item_cov@[ii as int] != 0);
                            }
                        }
                    },
                    Some((a, b)) => {
                        assert(!self.covered(b as int));
                    },
                }
            }
            ii += 1;
        }
        match best {
            Some((_, b)) => Some(b),
            None => None,
        }
    }

    /// The branching item and its open options: `None` once every item is
    /// covered.
    pub fn select(&self) -> (r: Option<(usize, Vec<usize>)>)
        requires
            self.wf(),
        ensures
            r is None <==> forall|ii: int| 0 <= ii < self.items() ==> #[trigger] self.covered(ii),
            r matches Some((ii, opts)) ==> self.mrv_item(ii as int) && opts@ == self.open_options(ii as int),
    {
        let ii = match self.best_item() {
            Some(x) => x,
            None => {
                return None;
            },
        };
        proof {
            self.lemma_ranges();
        }
        let su = (self.v - 4) as usize;
        let n_io = self.item_opts.len();
        let mut opts: Vec<usize> = Vec::new();
        let mut k: usize = 0;
        while k < su
            invariant
                self.wf(),
                su == self.v - 4,
                n_io == self.item_opts@.len(),
                ii < self.n_items,
                self.n_items <= 0xFFFF_FFFF,
                forall|i3: int, k3: int| 0 <= i3 < self.n_items && 0 <= k3 < su ==> #[trigger] at2(self.item_opts@, su as int, i3, k3) < self.n_opts,
                k <= su,
                opts@ == open_row(self.status@, self.item_opts@, su as int, ii as int, k as nat),
            decreases su - k,
        {
            proof {
                lemma_index2(ii as int, k as int, self.n_items as int, su as int);
            }
            let o = self.item_opts[ii * su + k];
            proof {
                assert(o == at2(self.item_opts@, su as int, ii as int, k as int));
            }
            if self.status[o as usize] == UNKNOWN {
                opts.push(o as usize);
            }
            k += 1;
        }
        Some((ii, opts))
    }

    /// The first open option of the branching item, if there is one.
    pub fn select_option(&self) -> (r: Option<usize>)
        requires
            self.wf(),
        ensures
            (forall|ii: int| 0 <= ii < self.items() ==> #[trigger] self.covered(ii)) ==> r is None,
            r matches Some(o) ==> exists|ii: int| #[trigger] self.mrv_item(ii) && self.open_options(ii).len() > 0 && self.open_options(ii)[0] == o,
            r is None ==> (forall|ii: int| 0 <= ii < self.items() ==> #[trigger] self.covered(ii)) || exists|ii: int|
                #[trigger] self.mrv_item(ii) && self.open_options(ii).len() == 0,
    {
        match self.select() {
            None => None,
            Some((ii, opts)) => {
                if opts.len() == 0 {
                    proof {
                        assert(self.mrv_item(ii as int));
                    }
                    None
                } else {
                    proof {
                        assert(self.mrv_item(ii as int));
                    }
                    Some(opts[0])
                }
            },
        }
    }
}


/// Five points below `v`, ascending, make a 5-subset of `[v]`.
proof fn lemma_five_points(a: u32, b: u32, c: u32, d: u32, e: u32, v: u32)
    requires
        a < b < c < d < e < v,
        v <= 32,
    ensures
        popcount((1u32 << a) | (1u32 << b) | (1u32 << c) | (1u32 << d) | (1u32 << e)) == 5,
        below((1u32 << a) | (1u32 << b) | (1u32 << c) | (1u32 << d) | (1u32 << e), v as int),
{
    lemma_bits_zero();
    crate::bits::lemma_pop_zero(0);
    crate::bits::lemma_or_zero(1u32 << a);
    lemma_add_point(0u32, a, v);
    let m1 = 1u32 << a;
    lemma_add_point(m1, b, v);
    let m2 = m1 | (1u32 << b);
    lemma_add_point(m2, c, v);
    let m3 = m2 | (1u32 << c);
    lemma_add_point(m3, d, v);
    let m4 = m3 | (1u32 << d);
    lemma_add_point(m4, e, v);
}

/// The included options' blocks, in option order.
pub open spec fn in_blocks(st: Seq<u8>, v: u32, n: nat) -> Seq<u32>
    decreases n,
{
    if n == 0 {
        Seq::empty()
    } else {
        in_blocks(st, v, (n - 1) as nat) + (if st[n - 1] == IN { seq![subset_of_rank(v, 5, n - 1)] } else { Seq::empty() })
    }
}

/// The block `{0, 1, 2, 3 + 2i, 4 + 2i}`.
pub open spec fn spread_block(i: int) -> u32 {
    (1u32 << 0u32) | (1u32 << 1u32) | (1u32 << 2u32) | (1u32 << ((3 + 2 * i) as u32)) | (1u32 << ((4 + 2 * i) as u32))
}

impl Engine {
    /// The blocks of the included options, in option order.
    pub fn blocks(&self) -> (r: Vec<u32>)
        requires
            self.wf(),
        ensures
            r@ == in_blocks(self.statuses(), self.ground(), self.options()),
    {
        let n = self.n_opts;
        let mut out: Vec<u32> = Vec::new();
        let mut o: usize = 0;
        while o < n
            invariant
                self.wf(),
                n == self.n_opts,
                o <= n,
                out@ == in_blocks(self.status@, self.v, o as nat),
            decreases n - o,
        {
            if self.status[o] == IN {
                proof {
                    assert(ranked(self.opt_mask@[o as int], self.v, 5, o as int));
                    lemma_subset_of_rank(self.opt_mask@[o as int], self.v, 5, o as int);
                }
                out.push(self.opt_mask[o]);
            }
            o += 1;
        }
        out
    }

    /// The level-1 symmetry units: the blocks `{0, 1, 2, a, a+1}` for
    /// `a = 3, 5, …`, as option indices. Any solution can be relabelled so
    /// that the blocks through `{0, 1, 2}` are these.
    pub fn symmetry_units(&self) -> (r: Vec<usize>)
        requires
            self.wf(),
        ensures
            r@.len() == (self.ground() - 3) / 2,
            forall|i: int| 0 <= i < r@.len() ==> #[trigger] r@[i] == colex(spread_block(i)) && r@[i] < self.options(),
    {
        proof {
            self.lemma_ranges();
            crate::bits::lemma_binom_fits(self.v as nat, 5);
        }
        let mut out: Vec<usize> = Vec::new();
        let mut a: u32 = 3;
        while a + 1 < self.v
            invariant
                self.wf(),
                3 <= a,
                a % 2 == 1,
                a <= self.v,
                (self.v - 3) % 2 == 0,
                out@.len() == (a - 3) / 2,
                forall|i: int| 0 <= i < out@.len() ==> #[trigger] out@[i] == colex(spread_block(i)) && out@[i] < self.n_opts,
            decreases self.v - a,
        {
            let m = (1u32 << 0u32) | (1u32 << 1u32) | (1u32 << 2u32) | (1u32 << a) | (1u32 << (a + 1));
            proof {
                lemma_five_points(0u32, 1u32, 2u32, a, (a + 1) as u32, self.v);
                lemma_rank_below(m, self.v);
                let i = (a - 3) / 2;
                assert(a == 3 + 2 * i && a + 1 == 4 + 2 * i);
                assert(m == spread_block(i as int));
            }
            let r = colex_partial(&self.binom, m, 0, 0);
            out.push(r as usize);
            a += 2;
        }
        out
    }

    /// Queue the level-1 symmetry units for inclusion.
    pub fn break_symmetry(&mut self)
        requires
            old(self).wf(),
        ensures
            final(self).wf(),
            final(self).same_state(old(self)),
            final(self).forced().len() == old(self).forced().len() + (old(self).ground() - 3) / 2,
            forall|j: int| 0 <= j < old(self).forced().len() ==> #[trigger] final(self).forced()[j] == old(self).forced()[j],
            forall|i: int| 0 <= i < (old(self).ground() - 3) / 2 ==> #[trigger] final(self).forced()[old(self).forced().len() + i]
                == colex(spread_block(i)),
    {
        let ghost pre = *self;
        let units = self.symmetry_units();
        let mut i: usize = 0;
        while i < units.len()
            invariant
                self.wf(),
                self.same_state(&pre),
                i <= units@.len(),
                units@.len() == (pre.v - 3) / 2,
                forall|q: int| 0 <= q < units@.len() ==> #[trigger] units@[q] == colex(spread_block(q)) && units@[q] < pre.n_opts,
                self.force_q@.len() == pre.force_q@.len() + i,
                forall|j: int| 0 <= j < pre.force_q@.len() ==> #[trigger] self.force_q@[j] == pre.force_q@[j],
                forall|q: int| 0 <= q < i ==> #[trigger] self.force_q@[pre.force_q@.len() + q] == colex(spread_block(q)),
            decreases units@.len() - i,
        {
            let ghost fq = self.force_q@;
            proof {
                self.lemma_ranges();
            }
            self.enqueue(units[i]);
            proof {
                assert(self.force_q@[pre.force_q@.len() + i] == units@[i as int] as u32);
                assert(units@[i as int] < 0x1_0000_0000);
                assert forall|q: int| 0 <= q < i + 1 implies #[trigger] self.force_q@[pre.force_q@.len() + q] == colex(spread_block(q)) by {
                    if q < i {
                        assert(self.force_q@[pre.force_q@.len() + q] == fq[pre.force_q@.len() + q]);
                    }
                }
            }
            i += 1;
        }
    }
}


/// A branching point: the open options of the branching item, and the
/// next one to try.
pub struct Branch {
    pub opts: Vec<usize>,
    pub next: usize,
}

impl Engine {
    /// Count a decision.
    fn count_decision(&mut self)
        requires
            old(self).wf(),
        ensures
            final(self).wf(),
            final(self).same_state(old(self)),
            final(self).forced() == old(self).forced(),
            final(self).dirty() == old(self).dirty(),
    {
        self.decisions = self.decisions.saturating_add(1);
    }

    /// Count a conflict met by the search.
    fn count_search_conflict(&mut self)
        requires
            old(self).wf(),
        ensures
            final(self).wf(),
            final(self).same_state(old(self)),
            final(self).forced() == old(self).forced(),
            final(self).dirty() == old(self).dirty(),
    {
        self.conflicts = self.conflicts.saturating_add(1);
    }
}

/// Depth-first search over the branching item's options, propagating after
/// every choice and backtracking on conflict. SAT leaves the solution's
/// levels open, so that `blocks` reads it off; UNSAT comes only once every
/// option of every branching item has been refuted; a time or conflict
/// budget gives an unknown outcome.
pub fn search(e: &mut Engine, timeout_ms: Option<u64>, max_conflicts: Option<u64>) -> (r: Outcome)
    requires
        old(e).wf(),
    ensures
        final(e).wf(),
        final(e).ground() == old(e).ground(),
        final(e).options() == old(e).options(),
        r is Sat ==> forall|ii: int| 0 <= ii < final(e).items() ==> #[trigger] final(e).covered(ii),
        r is Unsat ==> final(e).saved().len() == old(e).saved().len(),
        final(e).saved().len() >= old(e).saved().len(),
{
    let t0 = clock_now();
    let ghost base = e.saved().len();
    let ghost n0 = e.options();
    let mut decisions: Vec<Branch> = Vec::new();
    let mut conflict = false;
    let mut tick: u64 = 0;
    loop
        invariant
            e.wf(),
            e.saved().len() == base + decisions@.len(),
            e.options() == n0,
            e.ground() == old(e).ground(),
            n0 == old(e).options(),
            base == old(e).saved().len(),
            forall|d: int, q: int| 0 <= d < decisions@.len() && 0 <= q < decisions@[d].opts@.len() ==> #[trigger] decisions@[d].opts@[q] < n0,
        decreases u64::MAX - tick,
    {
        if tick == u64::MAX {
            return Outcome::Unknown(text_string("step limit"));
        }
        tick = tick + 1;
        if tick % 512 == 0 {
            let elapsed = elapsed_ms(&t0);
            match limit_verdict(false, elapsed, timeout_ms, e.conflicts, max_conflicts) {
                Some(o) => {
                    return o;
                },
                None => {},
            }
        }
        if conflict {
            e.count_search_conflict();
            conflict = false;
            loop
                invariant
                    e.wf(),
                    e.saved().len() == base + decisions@.len(),
                    e.options() == n0,
                    e.ground() == old(e).ground(),
                    n0 == old(e).options(),
                    base == old(e).saved().len(),
                    forall|d: int, q: int| 0 <= d < decisions@.len() && 0 <= q < decisions@[d].opts@.len() ==> #[trigger] decisions@[d].opts@[q] < n0,
                decreases decisions@.len(),
            {
                let n = decisions.len();
                if n == 0 {
                    return Outcome::Unsat;
                }
                e.pop_level();
                let next = decisions[n - 1].next;
                if next < decisions[n - 1].opts.len() {
                    let pick = decisions[n - 1].opts[next];
                    proof {
                        assert(decisions@[n - 1].opts@[next as int] < n0);
                    }
                    let ghost dold = decisions@;
                    decisions[n - 1].next = next + 1;
                    proof {
                        assert forall|d: int, q: int| 0 <= d < decisions@.len() && 0 <= q < decisions@[d].opts@.len() implies #[trigger] decisions@[d].opts@[q] < n0 by {
                            assert(decisions@[d].opts@ == dold[d].opts@);
                        }
                    }
                    e.push_level();
                    e.count_decision();
                    e.enqueue(pick);
                    if !e.propagate() {
                        conflict = true;
                    }
                    break;
                }
                let ghost dold = decisions@;
                decisions.pop();
                proof {
                    assert forall|d: int, q: int| 0 <= d < decisions@.len() && 0 <= q < decisions@[d].opts@.len() implies #[trigger] decisions@[d].opts@[q] < n0 by {
                        assert(decisions@[d] == dold[d]);
                    }
                }
            }
            continue;
        }
        match e.select() {
            None => {
                if e.all_covered() {
                    return Outcome::Sat;
                }
                // every item covered but the block count wrong cannot happen;
                // claim nothing rather than a result
                return Outcome::Unknown(text_string("internal: covered but block count mismatch"));
            },
            Some((_item, opts)) => {
                if opts.len() == 0 {
                    conflict = true;
                    continue;
                }
                let pick = opts[0];
                proof {
                    e.lemma_open_in_range(_item as int, 0);
                }
                let ghost dold = decisions@;
                decisions.push(Branch { opts, next: 1 });
                proof {
                    assert forall|d: int, q: int| 0 <= d < decisions@.len() && 0 <= q < decisions@[d].opts@.len() implies #[trigger] decisions@[d].opts@[q] < n0 by {
                        if d < dold.len() {
                            assert(decisions@[d] == dold[d]);
                        } else {
                            e.lemma_open_in_range(_item as int, q);
                        }
                    }
                }
                e.push_level();
                e.count_decision();
                e.enqueue(pick);
                if !e.propagate() {
                    conflict = true;
                }
            },
        }
    }
}

impl Engine {
    /// The open options of an item are options.
    proof fn lemma_open_in_range(&self, ii: int, q: int)
        requires
            self.wf(),
            0 <= ii < self.n_items,
            0 <= q < self.open_options(ii).len(),
        ensures
            self.open_options(ii)[q] < self.n_opts,
    {
        self.lemma_ranges();
        lemma_open_row_range(self.status@, self.item_opts@, (self.v - 4) as int, ii, (self.v - 4) as nat, self.n_opts as nat);
    }
}

proof fn lemma_open_row_range(st: Seq<u8>, tab: Seq<u32>, w: int, ii: int, k: nat, n: nat)
    requires
        forall|j: int| 0 <= j < k ==> #[trigger] at2(tab, w, ii, j) < n,
    ensures
        forall|q: int| 0 <= q < open_row(st, tab, w, ii, k).len() ==> #[trigger] open_row(st, tab, w, ii, k)[q] < n,
    decreases k,
{
    if k > 0 {
        lemma_open_row_range(st, tab, w, ii, (k - 1) as nat, n);
        assert(at2(tab, w, ii, k - 1) < n);
        let a = open_row(st, tab, w, ii, (k - 1) as nat);
        let all = open_row(st, tab, w, ii, k);
        assert forall|q: int| 0 <= q < all.len() implies #[trigger] all[q] < n by {
            if q < a.len() {
                assert(all[q] == a[q]);
            } else {
                assert(all[q] == at2(tab, w, ii, k - 1) as usize);
            }
        }
    }
}

/// Search from a fresh level on top of `e`: break the symmetry through
/// `{0, 1, 2}` if asked (then branch over the level-2 orbits if asked), and
/// search. UNSAT comes only with the search tree exhausted: every decision
/// undone and every level-2 branch closed, so that the engine is back at
/// that fresh level. A time or conflict limit answers UNKNOWN.
pub fn solve_from_root(e: &mut Engine, symmetry: bool, level2: bool, timeout_ms: Option<u64>, max_conflicts: Option<u64>) -> (r: Outcome)
    requires
        old(e).wf(),
        9 <= old(e).ground() <= 25,
        (old(e).ground() - 3) % 2 == 0,
    ensures
        final(e).wf(),
        final(e).ground() == old(e).ground(),
        r is Unsat ==> final(e).saved().len() == old(e).saved().len() + 1,
{
    let v = e.v;
    let ghost base = e.saved().len();
    e.push_level();
    if symmetry {
        e.break_symmetry();
    }
    if !e.propagate() {
        Outcome::Unsat
    } else if symmetry && level2 {
        // The level-2 orbit branching is a disjunction: UNSAT only if every
        // branch is, and an unknown branch makes the answer unknown.
        let branches = e.level2_branches();
        let mut acc = Outcome::Unsat;
        let mut bi: usize = 0;
        while bi < branches.len()
            invariant_except_break
                e.wf(),
                e.ground() == old(e).ground(),
                e.saved().len() == base + 1,
                acc is Unsat,
                v == e.ground(),
                9 <= v <= 25,
                base == old(e).saved().len(),
            ensures
                e.wf(),
                e.ground() == old(e).ground(),
                acc is Unsat ==> e.saved().len() == base + 1,
                base == old(e).saved().len(),
            decreases branches@.len() - bi,
        {
            let lam = &branches[bi];
            if parts_total(lam) <= ((v - 3) / 2 - 1) as u64 {
                e.push_level();
                e.break_symmetry_level2(lam);
                if e.propagate() {
                    match search(e, timeout_ms, max_conflicts) {
                        Outcome::Sat => {
                            // the solution stays open for `blocks`
                            acc = Outcome::Sat;
                            break;
                        },
                        Outcome::Unsat => {},
                        Outcome::Unknown(m) => {
                            acc = Outcome::Unknown(m);
                            break;
                        },
                    }
                }
                e.pop_level();
            }
            bi += 1;
        }
        acc
    } else {
        search(e, timeout_ms, max_conflicts)
    }
}

/// Solve `S(4,5,v)`: build the engine, break the symmetry through
/// `{0, 1, 2}` if asked, and search. SAT comes only with a block set that
/// the independent verifier accepts, returned beside it; a verifier
/// refusal is an error.
pub fn run(v: u32, matching: bool, filter: bool, symmetry: bool, level2: bool, timeout_ms: Option<u64>, max_conflicts: Option<u64>) -> (r: Result<
    (Outcome, Vec<u32>),
    String,
>)
    requires
        9 <= v <= 25,
        (v - 3) % 2 == 0,
        binom(v as nat, 4) % 5 == 0,
    ensures
        r matches Ok((o, bs)) ==> (o is Sat ==> is_s45(v, bs@)) && (!(o is Sat) ==> bs@.len() == 0),
{
    let mut e = Engine::new(v, matching);
    e.set_filter(filter);
    let out = solve_from_root(&mut e, symmetry, level2, timeout_ms, max_conflicts);
    if matches!(out, Outcome::Sat) {
        let blocks = e.blocks();
        match verify(v, blocks.as_slice()) {
            Ok(_) => {
                return Ok((Outcome::Sat, blocks));
            },
            Err(msg) => {
                let mut d: Vec<char> = Vec::new();
                crate::text::push_str(&mut d, "search reported SAT but verification failed: ");
                crate::text::push_str(&mut d, msg.as_str());
                return Err(crate::text::string_from_chars(&d));
            },
        }
    }
    Ok((out, Vec::new()))
}

impl Engine {
    /// Turn the edge filter of the matching check on or off.
    pub fn set_filter(&mut self, on: bool)
        requires
            old(self).wf(),
        ensures
            final(self).wf(),
            final(self).filter_on() == on,
            final(self).statuses() == old(self).statuses(),
            final(self).saved() == old(self).saved(),
            final(self).ground() == old(self).ground(),
            final(self).options() == old(self).options(),
            final(self).matching_on() == old(self).matching_on(),
    {
        self.use_filter = on;
    }
}


/// Every part is at least two.
pub open spec fn parts_at_least_two(s: Seq<u32>) -> bool {
    forall|i: int| 0 <= i < s.len() ==> #[trigger] s[i] >= 2
}

/// The partitions of `n`, in the order `partitions` lists them, that have
/// no part of one: those among the first `k`.
pub open spec fn two_plus_parts(all: Seq<Seq<u32>>, k: nat) -> Seq<Seq<u32>>
    decreases k,
{
    if k == 0 {
        Seq::empty()
    } else {
        two_plus_parts(all, (k - 1) as nat) + (if parts_at_least_two(all[k - 1]) { seq![all[k - 1]] } else { Seq::empty() })
    }
}

impl Engine {
    /// The level-2 branches: the partitions of `(v-3)/2 - 1` with every
    /// part at least two. A part of one would make two blocks share four
    /// points, so those branches are infeasible without search.
    pub fn level2_branches(&self) -> (r: Vec<Vec<u32>>)
        requires
            self.wf(),
        ensures
            r@.len() == two_plus_parts(crate::solver::search::parts(((self.ground() - 3) / 2 - 1) as nat, ((self.ground() - 3) / 2 - 1) as nat),
                crate::solver::search::parts(((self.ground() - 3) / 2 - 1) as nat, ((self.ground() - 3) / 2 - 1) as nat).len()).len(),
            forall|i: int| 0 <= i < r@.len() ==> #[trigger] r@[i]@ == two_plus_parts(
                crate::solver::search::parts(((self.ground() - 3) / 2 - 1) as nat, ((self.ground() - 3) / 2 - 1) as nat),
                crate::solver::search::parts(((self.ground() - 3) / 2 - 1) as nat, ((self.ground() - 3) / 2 - 1) as nat).len(),
            )[i],
    {
        let n = (self.v - 3) / 2 - 1;
        let all = crate::solver::search::partitions(n);
        let ghost ps = crate::solver::search::parts(n as nat, n as nat);
        let mut out: Vec<Vec<u32>> = Vec::new();
        let mut i: usize = 0;
        while i < all.len()
            invariant
                all@.len() == ps.len(),
                forall|q: int| 0 <= q < all@.len() ==> #[trigger] all@[q]@ == ps[q],
                i <= all@.len(),
                out@.len() == two_plus_parts(ps, i as nat).len(),
                forall|q: int| 0 <= q < out@.len() ==> #[trigger] out@[q]@ == two_plus_parts(ps, i as nat)[q],
            decreases all@.len() - i,
        {
            let mut ok = true;
            let mut j: usize = 0;
            while j < all[i].len()
                invariant
                    i < all@.len(),
                    j <= all@[i as int]@.len(),
                    ok == forall|q: int| 0 <= q < j ==> #[trigger] all@[i as int]@[q] >= 2,
                decreases all@[i as int]@.len() - j,
            {
                if all[i][j] < 2 {
                    ok = false;
                }
                j += 1;
            }
            let ghost o0 = out@;
            if ok {
                out.push(all[i].clone());
            }
            proof {
                assert(all@[i as int]@ == ps[i as int]);
                assert(ok == parts_at_least_two(ps[i as int]));
                let t0 = two_plus_parts(ps, i as nat);
                let t1 = two_plus_parts(ps, (i + 1) as nat);
                assert forall|q: int| 0 <= q < out@.len() implies #[trigger] out@[q]@ == t1[q] by {
                    if q < o0.len() {
                        assert(out@[q] == o0[q]);
                    }
                }
            }
            i += 1;
        }
        out
    }
}


impl Engine {
    /// Colex rank of `mask`.
    pub fn rank(&self, mask: u32) -> (r: u32)
        requires
            self.wf(),
        ensures
            r == colex(mask),
    {
        colex_partial(&self.binom, mask, 0, 0)
    }

    /// The point set of option `o`.
    pub fn opt_mask_of(&self, o: usize) -> (m: u32)
        requires
            self.wf(),
            o < self.options(),
        ensures
            m == subset_of_rank(self.ground(), 5, o as int),
    {
        proof {
            assert(ranked(self.opt_mask@[o as int], self.v, 5, o as int));
            lemma_subset_of_rank(self.opt_mask@[o as int], self.v, 5, o as int);
        }
        self.opt_mask[o]
    }

    /// The five items of option `o`: its block less each of its points in
    /// turn, ascending.
    pub fn opt_items_of(&self, o: usize) -> (r: [u32; 5])
        requires
            self.wf(),
            o < self.options(),
        ensures
            forall|k: int| 0 <= k < 5 ==> #[trigger] r@[k] == colex(subset_of_rank(self.ground(), 5, o as int)
                & !(1u32 << block_points(subset_of_rank(self.ground(), 5, o as int), self.ground())[k])),
    {
        proof {
            assert(ranked(self.opt_mask@[o as int], self.v, 5, o as int));
            lemma_subset_of_rank(self.opt_mask@[o as int], self.v, 5, o as int);
            lemma_index2(o as int, 4, self.n_opts as int, 5);
        }
        let len = self.opt_items.len();
        assert(o * 5 + 4 < len);
        let b = o * 5;
        let r = [self.opt_items[b], self.opt_items[b + 1], self.opt_items[b + 2], self.opt_items[b + 3], self.opt_items[b + 4]];
        proof {
            assert forall|k: int| 0 <= k < 5 implies #[trigger] r@[k] == at2(self.opt_items@, 5, o as int, k) by {}
        }
        r
    }

    /// The `k`-th option of item `ii`: the item with the `k`-th point
    /// outside it added.
    pub fn item_opt(&self, ii: usize, k: usize) -> (o: usize)
        requires
            self.wf(),
            ii < self.items(),
            k < self.ground() - 4,
        ensures
            o == colex(subset_of_rank(self.ground(), 4, ii as int) | (1u32 << block_points(!subset_of_rank(self.ground(), 4, ii as int),
                self.ground())[k as int])),
    {
        proof {
            self.lemma_ranges();
            lemma_index2(ii as int, k as int, self.n_items as int, (self.v - 4) as int);
        }
        let su = (self.v - 4) as usize;
        let len = self.item_opts.len();
        assert(ii * su + k < len);
        let r = self.item_opts[ii * su + k];
        proof {
            assert(r == at2(self.item_opts@, su as int, ii as int, k as int));
        }
        r as usize
    }

    /// The decided options, oldest first.
    pub fn trail(&self) -> (r: &[(u32, u8)])
        requires
            self.wf(),
        ensures
            r@ == self.log(),
    {
        self.trail.as_slice()
    }

    /// The option whose inclusion excluded `o`, or `NO_CAUSE`.
    pub fn cause_of(&self, o: usize) -> (c: u32)
        requires
            self.wf(),
            o < self.options(),
        ensures
            c == self.causes()[o as int],
    {
        self.cause[o]
    }

    /// Drop every option queued by the unit rule.
    pub fn clear_forced(&mut self)
        requires
            old(self).wf(),
        ensures
            final(self).wf(),
            final(self).same_state(old(self)),
            final(self).forced().len() == 0,
            final(self).dirty() == old(self).dirty(),
    {
        self.force_q.clear();
    }

    /// The oldest option queued by the unit rule, taken off the queue.
    pub fn pop_forced(&mut self) -> (r: Option<usize>)
        requires
            old(self).wf(),
        ensures
            final(self).wf(),
            final(self).same_state(old(self)),
            final(self).dirty() == old(self).dirty(),
            old(self).forced().len() == 0 ==> r is None && final(self).forced() == old(self).forced(),
            old(self).forced().len() > 0 ==> r == Some(old(self).forced()[0] as usize) && final(self).forced() == old(self).forced().drop_first(),
    {
        match self.force_q.pop_front() {
            Some(o) => Some(o as usize),
            None => None,
        }
    }

    /// The options of item `ii` that are not excluded.
    pub fn item_avail_of(&self, ii: usize) -> (n: u32)
        requires
            self.wf(),
            ii < self.items(),
        ensures
            n == self.live(ii as int),
    {
        self.item_avail[ii]
    }

    /// Whether an included option covers item `ii`.
    pub fn item_is_covered(&self, ii: usize) -> (b: bool)
        requires
            self.wf(),
            ii < self.items(),
        ensures
            b == self.covered(ii as int),
    {
        self.item_cov[ii] != 0
    }
}


/// The level-2 block for cycle position `i` of a cycle of length `l` that
/// starts at pair `off`: `{0, 1, 3}` with the second point of pair `off+i`
/// and the first point of the next pair round the cycle, the pairs being
/// `(5, 6), (7, 8), …`.
pub open spec fn l2_mask(off: int, l: int, i: int) -> u32 {
    (1u32 << 0u32) | (1u32 << 1u32) | (1u32 << 3u32) | (1u32 << ((5 + 2 * (off + (i + 1) % l)) as u32)) | (1u32 << ((6 + 2 * (off + i))
        as u32))
}

/// The first `n` blocks of a cycle.
pub open spec fn cycle_masks(off: int, l: int, n: nat) -> Seq<u32>
    decreases n,
{
    if n == 0 {
        Seq::empty()
    } else {
        cycle_masks(off, l, (n - 1) as nat).push(l2_mask(off, l, n - 1))
    }
}

/// The sum of the parts.
pub open spec fn total(lam: Seq<u32>) -> nat
    decreases lam.len(),
{
    if lam.len() == 0 {
        0
    } else {
        total(lam.drop_last()) + lam.last() as nat
    }
}

/// The level-2 blocks of the cycle type `lam`, cycle by cycle.
pub open spec fn level2_masks(lam: Seq<u32>) -> Seq<u32>
    decreases lam.len(),
{
    if lam.len() == 0 {
        Seq::empty()
    } else {
        level2_masks(lam.drop_last()) + cycle_masks(total(lam.drop_last()) as int, lam.last() as int, lam.last() as nat)
    }
}

proof fn lemma_cycle_len(off: int, l: int, n: nat)
    ensures
        cycle_masks(off, l, n).len() == n,
    decreases n,
{
    if n > 0 {
        lemma_cycle_len(off, l, (n - 1) as nat);
    }
}

proof fn lemma_or_swap(x: u32, y: u32, z: u32)
    by (bit_vector)
    ensures
        x | y | z == x | z | y,
{
}

/// A level-2 block is a 5-subset of `[v]`.
proof fn lemma_l2_block(x: u32, y: u32, v: u32)
    requires
        5 <= x < v,
        5 <= y < v,
        x != y,
        v <= 32,
    ensures
        popcount((1u32 << 0u32) | (1u32 << 1u32) | (1u32 << 3u32) | (1u32 << x) | (1u32 << y)) == 5,
        below((1u32 << 0u32) | (1u32 << 1u32) | (1u32 << 3u32) | (1u32 << x) | (1u32 << y), v as int),
{
    let t = (1u32 << 0u32) | (1u32 << 1u32) | (1u32 << 3u32);
    if x < y {
        lemma_five_points(0, 1, 3, x, y, v);
    } else {
        lemma_five_points(0, 1, 3, y, x, v);
        lemma_or_swap(t, 1u32 << x, 1u32 << y);
    }
}

impl Engine {
    /// The level-2 blocks of branch `lam`, as option indices: the spread
    /// through `{0, 1, 3}` whose matching on `{5, …, v-1}` has cycle type
    /// `lam`.
    pub fn level2_units(&self, lam: &Vec<u32>) -> (r: Vec<usize>)
        requires
            self.wf(),
            total(lam@) <= (self.ground() - 3) / 2 - 1,
        ensures
            r@.len() == level2_masks(lam@).len(),
            forall|i: int| 0 <= i < r@.len() ==> #[trigger] r@[i] == colex(level2_masks(lam@)[i]) && r@[i] < self.options(),
    {
        proof {
            self.lemma_ranges();
            crate::bits::lemma_binom_fits(self.v as nat, 5);
        }
        let v = self.v;
        let mut out: Vec<usize> = Vec::new();
        let mut off: u32 = 0;
        let mut p: usize = 0;
        while p < lam.len()
            invariant
                self.wf(),
                v == self.v,
                9 <= v <= 25,
                (v - 3) % 2 == 0,
                p <= lam@.len(),
                total(lam@) <= (v - 3) / 2 - 1,
                off == total(lam@.take(p as int)),
                total(lam@.take(p as int)) <= total(lam@),
                out@.len() == level2_masks(lam@.take(p as int)).len(),
                forall|i: int| 0 <= i < out@.len() ==> #[trigger] out@[i] == colex(level2_masks(lam@.take(p as int))[i]) && out@[i]
                    < self.n_opts,
            decreases lam@.len() - p,
        {
            let l = lam[p];
            proof {
                lemma_total_prefix(lam@, p as int + 1);
                assert(lam@.take(p as int + 1).drop_last() =~= lam@.take(p as int));
                assert(lam@.take(p as int + 1).last() == l);
            }
            let ghost pre_out = out@;
            let mut i: u32 = 0;
            while i < l
                invariant
                    self.wf(),
                    v == self.v,
                    9 <= v <= 25,
                    (v - 3) % 2 == 0,
                    i <= l,
                    off + l <= (v - 3) / 2 - 1,
                    out@.len() == pre_out.len() + i,
                    forall|q: int| 0 <= q < pre_out.len() ==> #[trigger] out@[q] == pre_out[q],
                    forall|q: int| 0 <= q < i ==> #[trigger] out@[pre_out.len() + q] == colex(cycle_masks(off as int, l as int, i as nat)[q])
                        && out@[pre_out.len() + q] < self.n_opts,
                decreases l - i,
            {
                let bpt = 5 + 2 * (off + i) + 1;
                let apt = 5 + 2 * (off + (i + 1) % l);
                let m = (1u32 << 0u32) | (1u32 << 1u32) | (1u32 << 3u32) | (1u32 << apt) | (1u32 << bpt);
                proof {
                    lemma_l2_block(apt, bpt, v);
                    lemma_rank_below(m, v);
                    assert(m == l2_mask(off as int, l as int, i as int));
                }
                let r = colex_partial(&self.binom, m, 0, 0);
                let ghost o1 = out@;
                out.push(r as usize);
                proof {
                    let c0 = cycle_masks(off as int, l as int, i as nat);
                    let c1 = cycle_masks(off as int, l as int, (i + 1) as nat);
                    assert(c1 == c0.push(l2_mask(off as int, l as int, i as int)));
                    lemma_cycle_len(off as int, l as int, i as nat);
                    assert forall|q: int| 0 <= q < i + 1 implies #[trigger] out@[pre_out.len() + q] == colex(cycle_masks(off as int, l as int, (i + 1) as nat)[q])
                        && out@[pre_out.len() + q] < self.n_opts by {
                        if q < i {
                            assert(out@[pre_out.len() + q] == o1[pre_out.len() + q]);
                            assert(c1[q] == c0[q]);
                        } else {
                            assert(c1[q] == l2_mask(off as int, l as int, i as int));
                            assert(out@[pre_out.len() + q] == r as usize);
                        }
                    }
                }
                i += 1;
            }
            proof {
                let lt = lam@.take(p as int + 1);
                let cm = cycle_masks(off as int, l as int, l as nat);
                lemma_cycle_len(off as int, l as int, l as nat);
                assert(level2_masks(lt) == level2_masks(lam@.take(p as int)) + cm);
                assert forall|q: int| 0 <= q < out@.len() implies #[trigger] out@[q] == colex(level2_masks(lt)[q]) && out@[q] < self.n_opts by {
                    if q < pre_out.len() {
                        assert(out@[q] == pre_out[q]);
                        assert(level2_masks(lt)[q] == level2_masks(lam@.take(p as int))[q]);
                    } else {
                        let q2 = q - pre_out.len();
                        assert(out@[pre_out.len() + q2] == colex(cm[q2]));
                        assert(level2_masks(lt)[q] == cm[q2]);
                    }
                }
            }
            off = off + l;
            p += 1;
        }
        proof {
            assert(lam@.take(lam@.len() as int) =~= lam@);
        }
        out
    }

    /// Queue the level-2 blocks of branch `lam` for inclusion.
    pub fn break_symmetry_level2(&mut self, lam: &Vec<u32>)
        requires
            old(self).wf(),
            total(lam@) <= (old(self).ground() - 3) / 2 - 1,
        ensures
            final(self).wf(),
            final(self).same_state(old(self)),
            final(self).forced().len() == old(self).forced().len() + level2_masks(lam@).len(),
            forall|j: int| 0 <= j < old(self).forced().len() ==> #[trigger] final(self).forced()[j] == old(self).forced()[j],
            forall|i: int| 0 <= i < level2_masks(lam@).len() ==> #[trigger] final(self).forced()[old(self).forced().len() + i]
                == colex(level2_masks(lam@)[i]),
    {
        let ghost pre = *self;
        let units = self.level2_units(lam);
        let mut i: usize = 0;
        while i < units.len()
            invariant
                self.wf(),
                self.same_state(&pre),
                i <= units@.len(),
                units@.len() == level2_masks(lam@).len(),
                forall|q: int| 0 <= q < units@.len() ==> #[trigger] units@[q] == colex(level2_masks(lam@)[q]) && units@[q] < pre.n_opts,
                self.force_q@.len() == pre.force_q@.len() + i,
                forall|j: int| 0 <= j < pre.force_q@.len() ==> #[trigger] self.force_q@[j] == pre.force_q@[j],
                forall|q: int| 0 <= q < i ==> #[trigger] self.force_q@[pre.force_q@.len() + q] == colex(level2_masks(lam@)[q]),
            decreases units@.len() - i,
        {
            let ghost fq = self.force_q@;
            proof {
                self.lemma_ranges();
            }
            self.enqueue(units[i]);
            proof {
                assert(self.force_q@[pre.force_q@.len() + i] == units@[i as int] as u32);
                assert forall|q: int| 0 <= q < i + 1 implies #[trigger] self.force_q@[pre.force_q@.len() + q] == colex(level2_masks(lam@)[q]) by {
                    if q < i {
                        assert(self.force_q@[pre.force_q@.len() + q] == fq[pre.force_q@.len() + q]);
                    }
                }
            }
            i += 1;
        }
    }
}

/// A prefix's sum is at most the whole sum.
proof fn lemma_total_prefix(lam: Seq<u32>, p: int)
    requires
        0 <= p <= lam.len(),
    ensures
        total(lam.take(p)) <= total(lam),
    decreases lam.len(),
{
    if p < lam.len() {
        assert(lam.drop_last().take(p) =~= lam.take(p));
        lemma_total_prefix(lam.drop_last(), p);
    } else {
        assert(lam.take(p) =~= lam);
    }
}


/// The sum of the parts of `lam`, capped at `u64::MAX`.
fn parts_total(lam: &Vec<u32>) -> (t: u64)
    ensures
        t == (if total(lam@) > u64::MAX { u64::MAX as nat } else { total(lam@) }),
{
    let mut t: u64 = 0;
    let mut i: usize = 0;
    while i < lam.len()
        invariant
            i <= lam@.len(),
            t == (if total(lam@.take(i as int)) > u64::MAX { u64::MAX as nat } else { total(lam@.take(i as int)) }),
        decreases lam@.len() - i,
    {
        proof {
            assert(lam@.take(i as int + 1).drop_last() =~= lam@.take(i as int));
            assert(lam@.take(i as int + 1).last() == lam@[i as int]);
        }
        t = t.saturating_add(lam[i] as u64);
        i += 1;
    }
    proof {
        assert(lam@.take(lam@.len() as int) =~= lam@);
    }
    t
}

} // verus!
