//! Independent checker.
//!
//! This module shares nothing with the solver except `rank`/`unrank` and the
//! binomial table. Every combinatorial property below is recomputed here from
//! the definitions:
//!
//!   * vertices are the `(k-1)`-subsets of `[n]`, `n = 2k-1`;
//!   * `T ~ U` iff `T ∩ U = ∅`;
//!   * `N[T] = {T} ∪ N(T)`.
//!
//! In particular the neighbour enumeration here does *not* call
//! `Combi::neighbors`. It enumerates every `(k-1)`-subset of `[n] \ T` with its
//! own generic subset generator.
use vstd::prelude::*;
use crate::bits::{bit, pop_from, popcount, binom, colex, colex_from, below, low_mask, lemma_bit_set, lemma_bits_logic, lemma_low_mask, lemma_bits_zero};
use crate::combi::{combos_from, combo_bits, is_combo, lemma_combos_len, lemma_combos_sorted, lemma_combos_in_range, Combi, CombiError, valid_k};
use crate::bits::{lemma_colex_below, lemma_colex_injective, lemma_low_mask_pop, count_ones32};
use crate::text::{push_decimal, push_str, string_from_chars, decimal};
use crate::witness::{Witness, WitnessView};

verus! {

// ---------------------------------------------------------------------------
// Subsets
// ---------------------------------------------------------------------------

/// The set bits of `x` at positions `i..32`, ascending.
pub open spec fn positions(x: u32, i: int) -> Seq<u32>
    decreases 32 - i,
{
    if i < 0 || i >= 32 {
        Seq::empty()
    } else {
        (if bit(x, i) { seq![i as u32] } else { Seq::empty() }) + positions(x, i + 1)
    }
}

/// Every `size`-subset of the set bits of `set`, as bitmasks: for each
/// `size`-combination `c` of the positions of `set` (in lexicographic order
/// of `c`), the mask of the chosen positions.
pub open spec fn subsets_spec(set: u32, size: nat) -> Seq<u32> {
    let g = positions(set, 0);
    combos_from(0, size, g.len() as int).map_values(|c: Seq<usize>| combo_bits(g, c))
}

/// The neighbours of `t` in the odd graph on `[n]` with `r`-subsets as
/// vertices, from the definition: the `r`-subsets of `[n] \ t`.
pub open spec fn nbrs_spec(t: u32, n: u32, r: u32) -> Seq<u32> {
    subsets_spec(low_mask(n) & !t, r as nat)
}

pub proof fn lemma_positions(x: u32, i: int)
    requires
        0 <= i <= 32,
    ensures
        positions(x, i).len() == pop_from(x, i),
        forall|q: int| 0 <= q < positions(x, i).len() ==> i <= #[trigger] positions(x, i)[q] < 32,
        forall|q: int| 0 <= q < positions(x, i).len() ==> bit(x, #[trigger] positions(x, i)[q] as int),
        forall|a: int, b: int| 0 <= a < b < positions(x, i).len() ==> positions(x, i)[a] < positions(x, i)[b],
        forall|t: int| i <= t < 32 && bit(x, t) ==> exists|q: int| 0 <= q < positions(x, i).len() && #[trigger] positions(x, i)[q] == t,
    decreases 32 - i,
{
    if i < 32 {
        lemma_positions(x, i + 1);
        let p = positions(x, i);
        let r = positions(x, i + 1);
        if bit(x, i) {
            assert(p == seq![i as u32] + r);
            assert forall|q: int| 0 <= q < p.len() implies i <= #[trigger] p[q] < 32 by {
                if q > 0 {
                    assert(p[q] == r[q - 1]);
                }
            }
            assert forall|q: int| 0 <= q < p.len() implies bit(x, #[trigger] p[q] as int) by {
                if q > 0 {
                    assert(p[q] == r[q - 1]);
                }
            }
            assert forall|a: int, b: int| 0 <= a < b < p.len() implies p[a] < p[b] by {
                assert(p[b] == r[b - 1]);
                if a > 0 {
                    assert(p[a] == r[a - 1]);
                }
            }
            assert forall|t: int| i <= t < 32 && bit(x, t) implies exists|q: int| 0 <= q < p.len() && #[trigger] p[q] == t by {
                if t == i {
                    assert(p[0] == t);
                } else {
                    let q = choose|q: int| 0 <= q < r.len() && #[trigger] r[q] == t;
                    assert(p[q + 1] == t);
                }
            }
        } else {
            assert(p =~= r);
        }
    }
}

/// `bit(y | (1 << s), t)` adds exactly `s` to the bits of `y`, so the count
/// from `i` grows by one when `s` is new and at or above `i`.
pub proof fn lemma_pop_add_bit(y: u32, s: int, i: int)
    requires
        0 <= s < 32,
        0 <= i <= 32,
        !bit(y, s),
    ensures
        pop_from(y | (1u32 << (s as u32)), i) == pop_from(y, i) + (if i <= s { 1nat } else { 0nat }),
    decreases 32 - i,
{
    lemma_bit_set(y, s);
    if i < 32 {
        lemma_pop_add_bit(y, s, i + 1);
        assert(bit(y | (1u32 << (s as u32)), i) == (bit(y, i) || i == s));
    }
}

/// The mask of a combination `c` of the positions `g` (strictly increasing,
/// below 32) has exactly the bits `g[c[q]]`, and so `|c|` of them.
proof fn lemma_combo_mask(g: Seq<u32>, c: Seq<usize>)
    requires
        is_combo(c, g.len() as int),
        forall|a: int, b: int| 0 <= a < b < g.len() ==> g[a] < g[b],
        forall|q: int| 0 <= q < g.len() ==> #[trigger] g[q] < 32,
    ensures
        forall|t: int| #[trigger] bit(combo_bits(g, c), t) <==> exists|q: int| 0 <= q < c.len() && g[c[q] as int] == t,
        pop_from(combo_bits(g, c), 0) == c.len(),
    decreases c.len(),
{
    if c.len() == 0 {
        lemma_bits_zero();
        assert(pop_from(0u32, 0) == 0) by {
            lemma_pop_zero(0);
        }
    } else {
        let c1 = c.drop_last();
        assert(is_combo(c1, g.len() as int));
        lemma_combo_mask(g, c1);
        let m1 = combo_bits(g, c1);
        let s = g[c.last() as int] as int;
        lemma_bit_set(m1, s);
        assert(combo_bits(g, c) == m1 | (1u32 << (s as u32)));
        assert forall|t: int| #[trigger] bit(combo_bits(g, c), t) <==> exists|q: int| 0 <= q < c.len() && g[c[q] as int] == t by {
            if bit(combo_bits(g, c), t) {
                if t == s {
                    assert(g[c[c.len() - 1] as int] == t);
                } else {
                    assert(bit(m1, t));
                    let q = choose|q: int| 0 <= q < c1.len() && g[c1[q] as int] == t;
                    assert(c[q] == c1[q]);
                }
            }
            if exists|q: int| 0 <= q < c.len() && g[c[q] as int] == t {
                let q = choose|q: int| 0 <= q < c.len() && g[c[q] as int] == t;
                if q < c.len() - 1 {
                    assert(c1[q] == c[q]);
                    assert(bit(m1, t));
                }
            }
        }
        assert(!bit(m1, s)) by {
            if bit(m1, s) {
                let q = choose|q: int| 0 <= q < c1.len() && g[c1[q] as int] == s;
                assert(c[q] < c[c.len() - 1]);
                assert(g[c[q] as int] < g[c[c.len() - 1] as int]);
            }
        }
        lemma_pop_add_bit(m1, s, 0);
    }
}

proof fn lemma_pop_zero(i: int)
    requires
        0 <= i <= 32,
    ensures
        pop_from(0u32, i) == 0,
    decreases 32 - i,
{
    lemma_bits_zero();
    if i < 32 {
        lemma_pop_zero(i + 1);
    }
}

/// Every subset produced has `size` elements, all in `set`; and there are
/// `C(|set|, size)` of them.
pub proof fn lemma_subsets_members(set: u32, size: nat)
    ensures
        subsets_spec(set, size).len() == binom(popcount(set), size),
        forall|i: int| 0 <= i < subsets_spec(set, size).len() ==> #[trigger] popcount(subsets_spec(set, size)[i]) == size,
        forall|i: int, t: int| 0 <= i < subsets_spec(set, size).len() && #[trigger] bit(subsets_spec(set, size)[i], t) ==> bit(set, t),
{
    let g = positions(set, 0);
    lemma_positions(set, 0);
    crate::bits::lemma_pop_bound(set, 0);
    let w = g.len() as int;
    lemma_combos_len(0, size, w);
    lemma_combos_sorted(0, size, w);
    lemma_combos_in_range(0, size, w);
    let all = combos_from(0, size, w);
    let out = subsets_spec(set, size);
    assert forall|i: int| 0 <= i < out.len() implies #[trigger] popcount(out[i]) == size by {
        assert(is_combo(all[i], w));
        lemma_combo_mask(g, all[i]);
    }
    assert forall|i: int, t: int| 0 <= i < out.len() && #[trigger] bit(out[i], t) implies bit(set, t) by {
        assert(is_combo(all[i], w));
        lemma_combo_mask(g, all[i]);
        let q = choose|q: int| 0 <= q < all[i].len() && g[all[i][q] as int] == t;
        assert(0 <= all[i][q] < w);
    }
}

/// All `size`-subsets of `set` (a bitmask), as bitmasks. Written here from
/// scratch; deliberately generic rather than reusing the solver's
/// specialised neighbour iterator.
pub fn subsets_of_size(set: u32, size: u32) -> (out: Vec<u32>)
    ensures
        out@ == subsets_spec(set, size as nat),
        out@.len() == binom(popcount(set), size as nat),
{
    let mut bits: Vec<u32> = Vec::new();
    let mut i: u32 = 0;
    while i < 32
        invariant
            i <= 32,
            bits@ + positions(set, i as int) == positions(set, 0),
        decreases 32 - i,
    {
        let ghost before = bits@;
        assert(((set >> i) & 1 == 0) || ((set >> i) & 1 == 1)) by (bit_vector);
        if (set >> i) & 1 == 1 {
            bits.push(i);
            assert(positions(set, i as int) == seq![i] + positions(set, i as int + 1));
            assert(bits@ + positions(set, i as int + 1) =~= before + positions(set, i as int));
        } else {
            assert(positions(set, i as int) =~= positions(set, i as int + 1));
        }
        i += 1;
    }
    let ghost g = positions(set, 0);
    proof {
        assert(bits@ =~= g);
        lemma_positions(set, 0);
        crate::bits::lemma_pop_bound(set, 0);
        lemma_subsets_members(set, size as nat);
    }
    let mut out: Vec<u32> = Vec::new();
    let w = bits.len();
    if (size as usize) > w {
        proof {
            if size > 0 {
                crate::combi::lemma_combos_empty(0, size as nat, w as int);
            }
            assert(subsets_spec(set, size as nat) =~= Seq::<u32>::empty());
        }
        return out;
    }
    let mut pairs: Vec<(u32, u32)> = Vec::new();
    proof {
        assert(combo_bits(bits@, Seq::empty()) == 0);
        assert(crate::combi::pos_bits(Seq::empty()) == 0);
    }
    crate::combi::gen_combos(&bits, 0, size as usize, 0, 0, &mut pairs, Ghost(Seq::empty()));
    let mut j: usize = 0;
    while j < pairs.len()
        invariant
            bits@ == g,
            g == positions(set, 0),
            w == g.len(),
            pairs@ == crate::combi::combo_pairs(g, Seq::empty(), 0, size as nat),
            j <= pairs@.len(),
            out@.len() == j,
            forall|q: int| 0 <= q < j ==> #[trigger] out@[q] == subsets_spec(set, size as nat)[q],
        decreases pairs@.len() - j,
    {
        let (b, _p) = pairs[j];
        proof {
            let c = combos_from(0, size as nat, w as int)[j as int];
            assert(Seq::<usize>::empty() + c =~= c);
            assert(b == combo_bits(g, c));
        }
        out.push(b);
        j += 1;
    }
    assert(out@ =~= subsets_spec(set, size as nat));
    out
}

/// Neighbours of `t` in `O_k`, from the definition: the `(k-1)`-subsets of
/// `[n]` disjoint from `t`.
pub fn neighbors_from_definition(t: u32, n: u32, r: u32) -> (out: Vec<u32>)
    requires
        n < 32,
    ensures
        out@ == nbrs_spec(t, n, r),
        out@.len() == binom(popcount(low_mask(n) & !t), r as nat),
{
    proof {
        assert(1u32 << n >= 1) by (bit_vector)
            requires
                n < 32,
        ;
    }
    let ground = (1u32 << n) - 1;
    subsets_of_size(ground & !t, r)
}

// ---------------------------------------------------------------------------
// Reports
// ---------------------------------------------------------------------------

#[derive(Debug, Clone)]
pub struct CheckItem {
    pub name: &'static str,
    pub pass: bool,
    pub detail: String,
}

#[derive(Debug, Clone)]
pub struct CheckReport {
    pub kind: String,
    pub k: u32,
    pub items: Vec<CheckItem>,
}

impl CheckReport {
    /// Every item passed.
    pub fn ok(&self) -> (b: bool)
        ensures
            b == forall|i: int| 0 <= i < self.items@.len() ==> #[trigger] self.items@[i].pass,
    {
        let mut i: usize = 0;
        while i < self.items.len()
            invariant
                i <= self.items@.len(),
                forall|q: int| 0 <= q < i ==> #[trigger] self.items@[q].pass,
            decreases self.items@.len() - i,
        {
            if !self.items[i].pass {
                return false;
            }
            i += 1;
        }
        true
    }
}

/// Why a witness could not be checked at all.
#[derive(Clone, Copy, Debug, PartialEq, Eq)]
pub enum CheckError {
    /// `k` is not a valid parameter.
    Combi(CombiError),
    /// The witness text was refused.
    Witness(crate::witness::WitnessError),
    /// The witness is for another `k` than the one asked for.
    WrongK { witness: u32, asked: u32 },
    /// A partition with a colour list of the wrong length.
    EntryCount { entries: u64, vertices: u64 },
    /// The independent enumeration disagrees with the vertex count.
    Enumeration { found: u64, expected: u64 },
}

// ---------------------------------------------------------------------------
// What the checks compute
// ---------------------------------------------------------------------------

/// The vertex of rank `x`: the `r`-subset of `[n]` whose colex rank is `x`.
pub open spec fn vertex_at(n: u32, r: u32, x: int) -> u32 {
    choose|m: u32| popcount(m) == r && below(m, n as int) && colex(m) == x
}

/// Every colour is in `0..=k`.
pub open spec fn colours_in_range(cs: Seq<u8>, k: u32) -> bool {
    forall|i: int| 0 <= i < cs.len() ==> #[trigger] cs[i] <= k
}

/// The colex rank maps the enumerated vertices one to one onto `0..nv`.
pub open spec fn enumeration_bijective(all: Seq<u32>, nv: nat) -> bool {
    &&& forall|i: int| 0 <= i < all.len() ==> colex(#[trigger] all[i]) < nv
    &&& forall|i: int, j: int| 0 <= i < j < all.len() ==> colex(#[trigger] all[i]) != colex(#[trigger] all[j])
    &&& forall|x: int| 0 <= x < nv ==> #[trigger] has_rank(all, x)
}

/// Some enumerated vertex has rank `x`.
pub open spec fn has_rank(all: Seq<u32>, x: int) -> bool {
    exists|i: int| 0 <= i < all.len() && #[trigger] colex(all[i]) == x
}

/// Every vertex of rank below `nv` has `k` neighbours.
pub open spec fn degrees_ok(n: u32, r: u32, k: u32, nv: nat) -> bool {
    forall|x: int| 0 <= x < nv ==> #[trigger] nbrs_spec(vertex_at(n, r, x), n, r).len() == k
}

/// Vertex `x` is the first whose degree is not `k`, and its degree is `dg`.
pub open spec fn first_bad_degree(n: u32, r: u32, k: u32, nv: nat, x: nat, dg: nat) -> bool {
    &&& x < nv
    &&& nbrs_spec(vertex_at(n, r, x as int), n, r).len() == dg
    &&& dg != k
    &&& forall|x2: int| 0 <= x2 < x ==> #[trigger] nbrs_spec(vertex_at(n, r, x2), n, r).len() == k
}

/// The colours of the closed neighbourhood of the vertex of rank `x`: its
/// own, then its neighbours' in enumeration order.
pub open spec fn closed_colours(cs: Seq<u8>, n: u32, r: u32, x: int) -> Seq<u8> {
    seq![cs[x]] + nbrs_spec(vertex_at(n, r, x), n, r).map_values(|u: u32| cs[colex(u) as int])
}

/// The set of colours, as a bitmask.
pub open spec fn colour_mask(cols: Seq<u8>) -> u32
    decreases cols.len(),
{
    if cols.len() == 0 {
        0
    } else {
        colour_mask(cols.drop_last()) | (1u32 << cols.last())
    }
}

/// The colours are pairwise distinct, there are `ncol` of them, and they
/// are exactly `0..ncol`.
pub open spec fn is_rainbow(cols: Seq<u8>, ncol: nat) -> bool {
    &&& forall|q: int| 0 <= q < cols.len() ==> #[trigger] cols[q] < 32
    &&& forall|a: int, b: int| 0 <= a < b < cols.len() ==> cols[a] != cols[b]
    &&& cols.len() == ncol
    &&& colour_mask(cols) == low_mask(ncol as u32)
}

/// The colours before position `p` are all below 32 and pairwise distinct.
pub open spec fn clean_prefix(cols: Seq<u8>, p: int) -> bool {
    &&& forall|a: int| 0 <= a < p ==> #[trigger] cols[a] < 32
    &&& forall|a: int, b: int| 0 <= a < b < p ==> cols[a] != cols[b]
}

/// What the rainbow check reports of the closed neighbourhood of vertex `x`
/// when it is not rainbow: the first colour out of range, else the first
/// repeated colour with the neighbour that repeats it, else the member count
/// and the colour set.
pub open spec fn rainbow_failure(cs: Seq<u8>, n: u32, r: u32, x: nat, msg: Seq<char>) -> bool {
    let cols = closed_colours(cs, n, r, x as int);
    let nb = nbrs_spec(vertex_at(n, r, x as int), n, r);
    let head = "N["@ + decimal(x);
    ||| exists|p: int| 0 <= p < cols.len() && clean_prefix(cols, p) && #[trigger] cols[p] >= 32
        && msg == head + "] has colour "@ + decimal(cols[p] as nat)
    ||| exists|p: int, a: int| 0 <= a < p < cols.len() && clean_prefix(cols, p) && #[trigger] cols[p] < 32 && #[trigger] cols[a] == cols[p]
        && msg == head + "] repeats colour "@ + decimal(cols[p] as nat) + " (vertex "@ + decimal(colex(nb[p - 1])) + ")"@
    ||| clean_prefix(cols, cols.len() as int) && msg == head + "] has "@ + decimal(cols.len()) + " members / colour set "@
        + seq!['0', 'x'] + hex(colour_mask(cols) as nat)
}

/// `msg` reports the first closed neighbourhood that is not rainbow.
pub open spec fn first_not_rainbow(cs: Seq<u8>, n: u32, r: u32, ncol: nat, nv: nat, msg: Seq<char>) -> bool {
    exists|x: nat| #![trigger closed_colours(cs, n, r, x as int)]
        x < nv && !is_rainbow(closed_colours(cs, n, r, x as int), ncol)
        && (forall|x2: int| 0 <= x2 < x ==> is_rainbow(#[trigger] closed_colours(cs, n, r, x2), ncol))
        && rainbow_failure(cs, n, r, x, msg)
}

/// Every closed neighbourhood is rainbow.
pub open spec fn rainbows_ok(cs: Seq<u8>, n: u32, r: u32, ncol: nat, nv: nat) -> bool {
    forall|x: int| 0 <= x < nv ==> is_rainbow(#[trigger] closed_colours(cs, n, r, x), ncol)
}

/// How many of the first `i` entries have colour `col`.
pub open spec fn count_colour(cs: Seq<u8>, col: nat, i: nat) -> nat
    decreases i,
{
    if i == 0 {
        0
    } else {
        count_colour(cs, col, (i - 1) as nat) + if cs[i - 1] == col { 1nat } else { 0nat }
    }
}

/// Every class has `m` members.
pub open spec fn sizes_ok(cs: Seq<u8>, ncol: nat, m: nat) -> bool {
    forall|col: nat| col < ncol ==> #[trigger] count_colour(cs, col, cs.len()) == m
}

/// How many of the first `q` masks of `s` have colex rank `y`.
pub open spec fn occ(s: Seq<u32>, y: nat, q: nat) -> nat
    decreases q,
{
    if q == 0 {
        0
    } else {
        occ(s, y, (q - 1) as nat) + if colex(s[q - 1]) == y { 1nat } else { 0nat }
    }
}

/// How many closed neighbourhoods of vertices of colour `col` among the
/// first `i` ranks contain the vertex of rank `y`.
pub open spec fn cover_count(cs: Seq<u8>, n: u32, r: u32, col: nat, y: nat, i: nat) -> nat
    decreases i,
{
    if i == 0 {
        0
    } else {
        let x = (i - 1) as int;
        let nb = nbrs_spec(vertex_at(n, r, x), n, r);
        cover_count(cs, n, r, col, y, (i - 1) as nat) + if cs[x] == col {
            (if y == x { 1nat } else { 0nat }) + occ(nb, y, nb.len())
        } else {
            0nat
        }
    }
}

/// Every colour class covers every vertex exactly once.
pub open spec fn codes_ok(cs: Seq<u8>, n: u32, r: u32, ncol: nat, nv: nat) -> bool {
    forall|col: nat, y: nat| col < ncol && y < nv ==> #[trigger] cover_count(cs, n, r, col, y, nv) == 1
}

// ---------------------------------------------------------------------------
// Vertex facts
// ---------------------------------------------------------------------------

/// An `r`-subset of `[n]` with rank `x` is the vertex of rank `x`.
proof fn lemma_vertex_at(n: u32, r: u32, m: u32)
    requires
        popcount(m) == r,
        below(m, n as int),
    ensures
        vertex_at(n, r, colex(m) as int) == m,
{
    let x = colex(m) as int;
    let v = vertex_at(n, r, x);
    assert(popcount(v) == r && below(v, n as int) && colex(v) == x);
    lemma_colex_injective(v, m);
}

/// A subset of `set` with every bit below `n` when `set` is.
proof fn lemma_subset_below(m: u32, set: u32, n: u32)
    requires
        n <= 32,
        forall|t: int| #[trigger] bit(m, t) ==> bit(set, t),
        forall|t: int| #[trigger] bit(set, t) ==> t < n,
    ensures
        below(m, n as int),
{
}

/// Neighbours are vertices: `r` bits below `n`, so their ranks are below
/// `C(n, r)`.
proof fn lemma_nbrs_are_vertices(t: u32, n: u32, r: u32)
    requires
        n < 32,
    ensures
        forall|i: int| 0 <= i < nbrs_spec(t, n, r).len() ==> {
            let u = #[trigger] nbrs_spec(t, n, r)[i];
            popcount(u) == r && below(u, n as int) && colex(u) < binom(n as nat, r as nat)
        },
{
    let set = low_mask(n) & !t;
    lemma_subsets_members(set, r as nat);
    lemma_bits_logic(low_mask(n), t);
    lemma_low_mask(n);
    assert forall|i: int| 0 <= i < nbrs_spec(t, n, r).len() implies {
        let u = #[trigger] nbrs_spec(t, n, r)[i];
        popcount(u) == r && below(u, n as int) && colex(u) < binom(n as nat, r as nat)
    } by {
        let u = nbrs_spec(t, n, r)[i];
        assert forall|q: int| n <= q < 32 implies !#[trigger] bit(u, q) by {
            if bit(u, q) {
                assert(bit(set, q));
            }
        }
        lemma_colex_below(u, n as int, 0, 0);
        assert(binom(0, 0) == 1);
    }
}

// ---------------------------------------------------------------------------
// Partition checks
// ---------------------------------------------------------------------------

/// Place every enumerated vertex at its rank. `Some(masks)` iff the ranks
/// are a bijection onto `0..nv`, and then `masks[x]` is the vertex of rank
/// `x`.
fn place_vertices(c: &Combi, all: &Vec<u32>, nv: usize) -> (res: Option<Vec<u32>>)
    requires
        c.wf(),
        nv == binom(c.n as nat, c.r as nat),
        all@ == subsets_spec(low_mask(c.n), c.r as nat),
    ensures
        res is Some <==> enumeration_bijective(all@, nv as nat),
        res matches Some(masks) ==> masks@.len() == nv && forall|x: int| 0 <= x < nv ==> #[trigger] masks@[x] == vertex_at(c.n, c.r, x),
{
    proof {
        lemma_subsets_members(low_mask(c.n), c.r as nat);
        lemma_low_mask(c.n);
    }
    let mut masks: Vec<u32> = vec![0u32; nv];
    let mut j: usize = 0;
    while j < all.len()
        invariant
            c.wf(),
            all@ == subsets_spec(low_mask(c.n), c.r as nat),
            forall|i: int| 0 <= i < all@.len() ==> #[trigger] popcount(all@[i]) == c.r,
            masks@.len() == nv,
            j <= all@.len(),
            forall|i: int| 0 <= i < j ==> colex(#[trigger] all@[i]) < nv,
            forall|i: int, i2: int| 0 <= i < i2 < j ==> colex(#[trigger] all@[i]) != colex(#[trigger] all@[i2]),
            forall|i: int| 0 <= i < j ==> masks@[colex(#[trigger] all@[i]) as int] == all@[i],
            forall|x: int| 0 <= x < nv ==> (#[trigger] masks@[x] == 0 <==> !exists|i: int| 0 <= i < j && #[trigger] colex(all@[i]) == x),
        decreases all@.len() - j,
    {
        let m = all[j];
        let idx = c.rank_ref(m);
        proof {
            assert(popcount(m) == c.r);
            assert(m != 0) by {
                if m == 0 {
                    lemma_pop_zero(0);
                }
            }
        }
        if idx as usize >= nv {
            return None;
        }
        if masks[idx as usize] != 0 {
            proof {
                let i = choose|i: int| 0 <= i < j && #[trigger] colex(all@[i]) == idx;
                assert(colex(all@[i]) == colex(all@[j as int]));
            }
            return None;
        }
        let ghost before = masks@;
        masks.set(idx as usize, m);
        proof {
            assert forall|x: int| 0 <= x < nv implies (#[trigger] masks@[x] == 0 <==> !exists|i: int| 0 <= i < j + 1 && #[trigger] colex(all@[i]) == x) by {
                if x == idx {
                    assert(colex(all@[j as int]) == x);
                } else {
                    assert(masks@[x] == before[x]);
                    if exists|i: int| 0 <= i < j + 1 && #[trigger] colex(all@[i]) == x {
                        let i = choose|i: int| 0 <= i < j + 1 && #[trigger] colex(all@[i]) == x;
                        assert(i < j);
                    }
                }
            }
            assert forall|i: int| 0 <= i < j + 1 implies masks@[colex(#[trigger] all@[i]) as int] == all@[i] by {
                if i < j {
                    assert(colex(all@[i]) != colex(all@[j as int]));
                }
            }
        }
        j += 1;
    }
    let mut x: usize = 0;
    while x < nv
        invariant
            masks@.len() == nv,
            j == all@.len(),
            forall|x2: int| 0 <= x2 < nv ==> (#[trigger] masks@[x2] == 0 <==> !exists|i: int| 0 <= i < j && #[trigger] colex(all@[i]) == x2),
            x <= nv,
            forall|x2: int| 0 <= x2 < x ==> #[trigger] masks@[x2] != 0,
        decreases nv - x,
    {
        if masks[x] == 0 {
            proof {
                assert(!has_rank(all@, x as int));
            }
            return None;
        }
        x += 1;
    }
    proof {
        assert forall|x2: int| 0 <= x2 < nv implies #[trigger] has_rank(all@, x2) by {
            assert(masks@[x2] != 0);
        }
        assert forall|x2: int| 0 <= x2 < nv implies #[trigger] masks@[x2] == vertex_at(c.n, c.r, x2) by {
            assert(masks@[x2] != 0);
            let i = choose|i: int| 0 <= i < all@.len() && #[trigger] colex(all@[i]) == x2;
            let m = all@[i];
            assert(masks@[x2] == m);
            assert forall|q: int| c.n <= q < 32 implies !#[trigger] bit(m, q) by {
                if bit(m, q) {
                    assert(bit(low_mask(c.n), q));
                }
            }
            lemma_vertex_at(c.n, c.r, m);
        }
    }
    Some(masks)
}

proof fn lemma_and_shift(x: u32, c: u32)
    by (bit_vector)
    requires
        c < 32,
    ensures
        ((x & (1u32 << c)) != 0) == ((x >> c) & 1 == 1),
{
}

/// The bits of a colour mask are the colours.
proof fn lemma_colour_mask(cols: Seq<u8>)
    requires
        forall|q: int| 0 <= q < cols.len() ==> #[trigger] cols[q] < 32,
    ensures
        forall|t: int| #[trigger] bit(colour_mask(cols), t) <==> exists|a: int| 0 <= a < cols.len() && cols[a] == t,
    decreases cols.len(),
{
    if cols.len() == 0 {
        lemma_bits_zero();
    } else {
        let c1 = cols.drop_last();
        lemma_colour_mask(c1);
        let s = cols.last() as int;
        lemma_bit_set(colour_mask(c1), s);
        assert(colour_mask(cols) == colour_mask(c1) | (1u32 << (s as u32)));
        assert forall|t: int| #[trigger] bit(colour_mask(cols), t) <==> exists|a: int| 0 <= a < cols.len() && cols[a] == t by {
            if bit(colour_mask(cols), t) {
                if t == s {
                    assert(cols[cols.len() - 1] == t);
                } else {
                    let a = choose|a: int| 0 <= a < c1.len() && c1[a] == t;
                    assert(cols[a] == c1[a]);
                }
            }
            if exists|a: int| 0 <= a < cols.len() && cols[a] == t {
                let a = choose|a: int| 0 <= a < cols.len() && cols[a] == t;
                if a < cols.len() - 1 {
                    assert(c1[a] == cols[a]);
                }
            }
        }
    }
}

/// The first vertex whose degree is not `k`, with its degree.
fn degree_check(c: &Combi, masks: &Vec<u32>) -> (res: Option<(usize, usize)>)
    requires
        c.wf(),
        masks@.len() == c.num_vertices,
        forall|x: int| 0 <= x < masks@.len() ==> #[trigger] masks@[x] == vertex_at(c.n, c.r, x),
    ensures
        res is None <==> degrees_ok(c.n, c.r, c.k, c.num_vertices as nat),
        res matches Some((x, dg)) ==> first_bad_degree(c.n, c.r, c.k, c.num_vertices as nat, x as nat, dg as nat),
{
    let mut x: usize = 0;
    while x < masks.len()
        invariant
            c.wf(),
            masks@.len() == c.num_vertices,
            forall|x2: int| 0 <= x2 < masks@.len() ==> #[trigger] masks@[x2] == vertex_at(c.n, c.r, x2),
            x <= masks@.len(),
            forall|x2: int| 0 <= x2 < x ==> #[trigger] nbrs_spec(vertex_at(c.n, c.r, x2), c.n, c.r).len() == c.k,
        decreases masks@.len() - x,
    {
        let nb = neighbors_from_definition(masks[x], c.n, c.r);
        if nb.len() != c.k as usize {
            proof {
                assert(nbrs_spec(vertex_at(c.n, c.r, x as int), c.n, c.r).len() != c.k);
            }
            return Some((x, nb.len()));
        }
        x += 1;
    }
    None
}

/// Whether the closed neighbourhood of the vertex of rank `x` is rainbow;
/// on failure, a description.
#[verifier::rlimit(40)]
fn rainbow_at(c: &Combi, colors: &Vec<u8>, masks: &Vec<u32>, x: usize) -> (res: Result<(), String>)
    requires
        c.wf(),
        colors@.len() == c.num_vertices,
        masks@.len() == c.num_vertices,
        forall|x2: int| 0 <= x2 < masks@.len() ==> #[trigger] masks@[x2] == vertex_at(c.n, c.r, x2),
        x < c.num_vertices,
    ensures
        res is Ok <==> is_rainbow(closed_colours(colors@, c.n, c.r, x as int), c.colors as nat),
        res matches Err(msg) ==> rainbow_failure(colors@, c.n, c.r, x as nat, msg@),
{
    let ghost cols = closed_colours(colors@, c.n, c.r, x as int);
    let nb = neighbors_from_definition(masks[x], c.n, c.r);
    let ncol = c.colors as usize;
    proof {
        lemma_nbrs_are_vertices(masks@[x as int], c.n, c.r);
        assert(cols.len() == nb@.len() + 1);
        assert(cols[0] == colors@[x as int]);
    }
    let col0 = colors[x];
    if col0 >= 32 {
        let mut d: Vec<char> = Vec::new();
        push_str(&mut d, "N[");
        push_decimal(&mut d, x as u64);
        push_str(&mut d, "] has colour ");
        push_decimal(&mut d, col0 as u64);
        let msg = string_from_chars(&d);
        proof {
            assert(clean_prefix(cols, 0));
            assert(cols[0] >= 32);
        }
        return Err(msg);
    }
    let mut seen: u32 = 1u32 << col0;
    proof {
        assert(cols.take(1) =~= seq![col0]);
        assert(seq![col0].drop_last() =~= Seq::<u8>::empty());
        assert(colour_mask(seq![col0]) == colour_mask(Seq::<u8>::empty()) | (1u32 << col0));
        assert(colour_mask(Seq::<u8>::empty()) == 0);
        assert(0u32 | (1u32 << col0) == 1u32 << col0) by (bit_vector);
    }
    let mut q: usize = 0;
    while q < nb.len()
        invariant
            c.wf(),
            colors@.len() == c.num_vertices,
            cols == closed_colours(colors@, c.n, c.r, x as int),
            x < masks@.len(),
            masks@.len() == c.num_vertices,
            nb@ == nbrs_spec(masks@[x as int], c.n, c.r),
            masks@[x as int] == vertex_at(c.n, c.r, x as int),
            cols.len() == nb@.len() + 1,
            forall|i: int| 0 <= i < nb@.len() ==> {
                let u = #[trigger] nb@[i];
                popcount(u) == c.r && below(u, c.n as int) && colex(u) < binom(c.n as nat, c.r as nat)
            },
            q <= nb@.len(),
            seen == colour_mask(cols.take(q + 1)),
            forall|a: int| 0 <= a <= q ==> #[trigger] cols[a] < 32,
            forall|a: int, b: int| 0 <= a < b <= q ==> cols[a] != cols[b],
        decreases nb@.len() - q,
    {
        let u = nb[q];
        let ui = c.rank_ref(u) as usize;
        let col = colors[ui];
        proof {
            assert(cols[q + 1] == colors@[colex(u) as int]);
        }
        if col >= 32 {
            let mut d: Vec<char> = Vec::new();
            push_str(&mut d, "N[");
            push_decimal(&mut d, x as u64);
            push_str(&mut d, "] has colour ");
            push_decimal(&mut d, col as u64);
            let msg = string_from_chars(&d);
            proof {
                assert(clean_prefix(cols, q + 1));
                assert(cols[q + 1] >= 32);
            }
            return Err(msg);
        }
        let bit_c = 1u32 << col;
        proof {
            assert forall|a: int| 0 <= a < cols.take(q + 1).len() implies #[trigger] cols.take(q + 1)[a] < 32 by {
                assert(cols.take(q + 1)[a] == cols[a]);
            }
            lemma_colour_mask(cols.take(q + 1));
            lemma_and_shift(seen, col as u32);
        }
        if seen & bit_c != 0 {
            proof {
                assert(bit(colour_mask(cols.take(q + 1)), col as int));
                let a = choose|a: int| 0 <= a < cols.take(q + 1).len() && #[trigger] cols.take(q + 1)[a] == col;
                assert(cols.take(q + 1)[a] == cols[a]);
                assert(cols[a] == cols[q + 1]);
                assert(!is_rainbow(cols, c.colors as nat));
            }
            let mut d: Vec<char> = Vec::new();
            push_str(&mut d, "N[");
            push_decimal(&mut d, x as u64);
            push_str(&mut d, "] repeats colour ");
            push_decimal(&mut d, col as u64);
            push_str(&mut d, " (vertex ");
            push_decimal(&mut d, ui as u64);
            push_str(&mut d, ")");
            let msg = string_from_chars(&d);
            proof {
                let a = choose|a: int| 0 <= a < cols.take(q + 1).len() && #[trigger] cols.take(q + 1)[a] == col;
                assert(cols.take(q + 1)[a] == cols[a]);
                assert(clean_prefix(cols, q + 1));
                assert(0 <= a < q + 1 < cols.len() && cols[q + 1] < 32 && cols[a] == cols[q + 1]);
                assert(ui == colex(nb@[q as int]));
            }
            return Err(msg);
        }
        proof {
            assert(cols.take(q + 2).drop_last() =~= cols.take(q + 1));
            assert(cols.take(q + 2).last() == col);
            assert forall|a: int| 0 <= a < q + 1 implies #[trigger] cols[a] != cols[q + 1] by {
                if cols[a] == cols[q + 1] {
                    assert(cols.take(q + 1)[a] == cols[a]);
                    assert(cols.take(q + 1)[a] == col);
                    assert(bit(colour_mask(cols.take(q + 1)), col as int));
                }
            }
        }
        seen = seen | bit_c;
        q += 1;
    }
    proof {
        assert(cols.take(q + 1) =~= cols);
        assert(ncol < 32);
        assert(1u32 << (ncol as u32) >= 1) by (bit_vector)
            requires
                ncol < 32,
        ;
    }
    if nb.len() != ncol - 1 || seen != (1u32 << ncol) - 1 {
        let mut d: Vec<char> = Vec::new();
        push_str(&mut d, "N[");
        push_decimal(&mut d, x as u64);
        push_str(&mut d, "] has ");
        let count = (nb.len() as u64).saturating_add(1);
        push_decimal(&mut d, count);
        push_str(&mut d, " members / colour set ");
        push_hex(&mut d, seen);
        let msg = string_from_chars(&d);
        proof {
            assert(clean_prefix(cols, cols.len() as int));
            crate::bits::lemma_pop_bound(low_mask(c.n) & !masks@[x as int], 0);
            crate::bits::lemma_binom_fits(popcount(low_mask(c.n) & !masks@[x as int]), c.r as nat);
            assert(count == cols.len());
        }
        return Err(msg);
    }
    Ok(())
}

/// The hexadecimal digit `d`, lower case.
pub open spec fn hex_char(d: nat) -> char {
    if d < 10 {
        ((48 + d) as u8) as char
    } else {
        ((87 + d) as u8) as char
    }
}

/// Hexadecimal rendering of `n`, no leading zeros.
pub open spec fn hex(n: nat) -> Seq<char>
    decreases n,
{
    if n < 16 {
        seq![hex_char(n)]
    } else {
        hex(n / 16).push(hex_char(n % 16))
    }
}

fn push_hex_digits(out: &mut Vec<char>, n: u32)
    ensures
        final(out)@ == old(out)@ + hex(n as nat),
    decreases n,
{
    if n >= 16 {
        push_hex_digits(out, n / 16);
    }
    let d = (n % 16) as u8;
    let ch = if d < 10 {
        (48 + d) as char
    } else {
        (87 + d) as char
    };
    out.push(ch);
    proof {
        assert(ch == hex_char((n % 16) as nat));
        if n >= 16 {
            assert(hex(n as nat) == hex((n / 16) as nat).push(hex_char((n % 16) as nat)));
        }
    }
}

/// Append `0x` and the hexadecimal digits of `v`.
pub(crate) fn push_hex(out: &mut Vec<char>, v: u32)
    ensures
        final(out)@ == old(out)@ + seq!['0', 'x'] + hex(v as nat),
{
    let ghost start = out@;
    out.push('0');
    out.push('x');
    proof {
        assert(out@ == start + seq!['0', 'x']);
    }
    push_hex_digits(out, v);
}

/// `a`, capped at `u32::MAX`.
pub open spec fn sat(a: nat) -> u32 {
    if a >= 0xFFFF_FFFF { 0xFFFF_FFFFu32 } else { a as u32 }
}

proof fn lemma_count_colour_bound(cs: Seq<u8>, col: nat, i: nat)
    ensures
        count_colour(cs, col, i) <= i,
    decreases i,
{
    if i > 0 {
        lemma_count_colour_bound(cs, col, (i - 1) as nat);
    }
}

/// The size of every colour class `0..ncol`.
fn class_sizes(colors: &Vec<u8>, ncol: usize) -> (sizes: Vec<u64>)
    ensures
        sizes@.len() == ncol,
        forall|col: int| 0 <= col < ncol ==> #[trigger] sizes@[col] == count_colour(colors@, col as nat, colors@.len()),
{
    let mut sizes: Vec<u64> = vec![0u64; ncol];
    let mut i: usize = 0;
    while i < colors.len()
        invariant
            sizes@.len() == ncol,
            i <= colors@.len(),
            forall|col: int| 0 <= col < ncol ==> #[trigger] sizes@[col] == count_colour(colors@, col as nat, i as nat),
        decreases colors@.len() - i,
    {
        let x = colors[i] as usize;
        proof {
            assert forall|col: int| 0 <= col < ncol implies #[trigger] count_colour(colors@, col as nat, (i + 1) as nat)
                == count_colour(colors@, col as nat, i as nat) + if colors@[i as int] == col { 1nat } else { 0nat } by {}
            lemma_count_colour_bound(colors@, x as nat, i as nat);
        }
        if x < ncol {
            let v = sizes[x];
            sizes.set(x, v + 1);
        }
        i += 1;
    }
    sizes
}

/// Whether every colour class is a perfect 1-code; on failure, a
/// description.
#[verifier::rlimit(40)]
fn codes_check(c: &Combi, colors: &Vec<u8>, masks: &Vec<u32>) -> (res: Result<(), String>)
    requires
        c.wf(),
        colors@.len() == c.num_vertices,
        masks@.len() == c.num_vertices,
        forall|x2: int| 0 <= x2 < masks@.len() ==> #[trigger] masks@[x2] == vertex_at(c.n, c.r, x2),
    ensures
        res is Ok <==> codes_ok(colors@, c.n, c.r, c.colors as nat, c.num_vertices as nat),
        res matches Err(msg) ==> first_uncovered(colors@, c.n, c.r, c.colors as nat, c.num_vertices as nat, msg@),
{
    let nv = masks.len();
    let ncol = c.colors as usize;
    let ghost cs = colors@;
    let mut col: usize = 0;
    while col < ncol
        invariant
            c.wf(),
            cs == colors@,
            nv == c.num_vertices,
            ncol == c.colors,
            colors@.len() == nv,
            masks@.len() == nv,
            forall|x2: int| 0 <= x2 < masks@.len() ==> #[trigger] masks@[x2] == vertex_at(c.n, c.r, x2),
            col <= ncol,
            forall|c2: nat, y: nat| c2 < col && y < nv ==> #[trigger] cover_count(cs, c.n, c.r, c2, y, nv as nat) == 1,
        decreases ncol - col,
    {
        let mut cover: Vec<u32> = vec![0u32; nv];
        let mut i: usize = 0;
        while i < nv
            invariant
                c.wf(),
                cs == colors@,
                nv == c.num_vertices,
                colors@.len() == nv,
                masks@.len() == nv,
                forall|x2: int| 0 <= x2 < masks@.len() ==> #[trigger] masks@[x2] == vertex_at(c.n, c.r, x2),
                col < ncol,
                cover@.len() == nv,
                i <= nv,
                forall|y: int| 0 <= y < nv ==> #[trigger] cover@[y] == sat(cover_count(cs, c.n, c.r, col as nat, y as nat, i as nat)),
                forall|c2: nat, y2: nat| c2 < col && y2 < nv ==> #[trigger] cover_count(cs, c.n, c.r, c2, y2, nv as nat) == 1,
            decreases nv - i,
        {
            if colors[i] as usize == col {
                let v = cover[i];
                cover.set(i, v.saturating_add(1));
                let nb = neighbors_from_definition(masks[i], c.n, c.r);
                proof {
                    lemma_nbrs_are_vertices(masks@[i as int], c.n, c.r);
                }
                let mut q: usize = 0;
                while q < nb.len()
                    invariant
                        c.wf(),
                        nv == c.num_vertices,
                        i < nv,
                        cover@.len() == nv,
                        nb@ == nbrs_spec(vertex_at(c.n, c.r, i as int), c.n, c.r),
                        forall|j: int| 0 <= j < nb@.len() ==> {
                            let u = #[trigger] nb@[j];
                            popcount(u) == c.r && below(u, c.n as int) && colex(u) < binom(c.n as nat, c.r as nat)
                        },
                        q <= nb@.len(),
                        forall|y: int| 0 <= y < nv ==> #[trigger] cover@[y] == sat(
                            cover_count(cs, c.n, c.r, col as nat, y as nat, i as nat) + (if y == i { 1nat } else { 0nat }) + occ(nb@, y as nat, q as nat),
                        ),
                        forall|c2: nat, y2: nat| c2 < col && y2 < nv ==> #[trigger] cover_count(cs, c.n, c.r, c2, y2, nv as nat) == 1,
                    decreases nb@.len() - q,
                {
                    let ui = c.rank_ref(nb[q]) as usize;
                    let v = cover[ui];
                    cover.set(ui, v.saturating_add(1));
                    q += 1;
                }
            }
            proof {
                assert forall|y: int| 0 <= y < nv implies #[trigger] cover@[y] == sat(cover_count(cs, c.n, c.r, col as nat, y as nat, (i + 1) as nat)) by {
                    let nb = nbrs_spec(vertex_at(c.n, c.r, i as int), c.n, c.r);
                    assert(cover_count(cs, c.n, c.r, col as nat, y as nat, (i + 1) as nat) == cover_count(cs, c.n, c.r, col as nat, y as nat, i as nat) + if cs[i as int] == col {
                        (if y == i { 1nat } else { 0nat }) + occ(nb, y as nat, nb.len())
                    } else {
                        0nat
                    });
                }
            }
            i += 1;
        }
        let mut y: usize = 0;
        while y < nv
            invariant
                cover@.len() == nv,
                cs == colors@,
                nv == c.num_vertices,
                ncol == c.colors,
                col < ncol,
                y <= nv,
                forall|y2: int| 0 <= y2 < nv ==> #[trigger] cover@[y2] == sat(cover_count(cs, c.n, c.r, col as nat, y2 as nat, nv as nat)),
                forall|y2: int| 0 <= y2 < y ==> #[trigger] cover_count(cs, c.n, c.r, col as nat, y2 as nat, nv as nat) == 1,
                forall|c2: nat, y2: nat| c2 < col && y2 < nv ==> #[trigger] cover_count(cs, c.n, c.r, c2, y2, nv as nat) == 1,
            decreases nv - y,
        {
            if cover[y] != 1 {
                proof {
                    assert(cover_count(cs, c.n, c.r, col as nat, y as nat, nv as nat) != 1);
                    assert(cover@[y as int] == sat(cover_count(cs, c.n, c.r, col as nat, y as nat, nv as nat)));
                }
                let mut d: Vec<char> = Vec::new();
                push_str(&mut d, "class ");
                push_decimal(&mut d, col as u64);
                push_str(&mut d, ": vertex ");
                push_decimal(&mut d, y as u64);
                push_str(&mut d, " is covered ");
                push_decimal(&mut d, cover[y] as u64);
                push_str(&mut d, " times, expected 1");
                let msg = string_from_chars(&d);
                proof {
                    let col0 = col as nat;
                    let y0 = y as nat;
                    assert forall|y2: nat| y2 < y0 implies #[trigger] cover_count(cs, c.n, c.r, col0, y2, nv as nat) == 1 by {
                        let yi = y2 as int;
                        assert(cover_count(cs, c.n, c.r, col as nat, yi as nat, nv as nat) == 1);
                    }
                    assert(msg@ == uncovered_text(col0, y0, sat(cover_count(cs, c.n, c.r, col0, y0, nv as nat)) as nat));
                    assert(first_uncovered_at(cs, c.n, c.r, ncol as nat, nv as nat, msg@, col0, y0));
                }
                return Err(msg);
            }
            y += 1;
        }
        proof {
            assert forall|c2: nat, y2: nat| c2 < col + 1 && y2 < nv implies #[trigger] cover_count(cs, c.n, c.r, c2, y2, nv as nat) == 1 by {
                if c2 == col {
                    let yi: int = y2 as int;
                    assert(0 <= yi < y);
                    assert(yi as nat == y2);
                    assert(cover_count(cs, c.n, c.r, col as nat, yi as nat, nv as nat) == 1);
                }
            }
        }
        col += 1;
    }
    Ok(())
}

// ---------------------------------------------------------------------------
// Reports, as mathematics
// ---------------------------------------------------------------------------

/// The vertex count of `O_k`.
pub open spec fn nv_of(k: u32) -> nat {
    binom((2 * k - 1) as nat, (k - 1) as nat)
}

/// The vertex masks of `O_k` in the checker's own enumeration order.
pub open spec fn all_vertices(k: u32) -> Seq<u32> {
    subsets_spec(low_mask((2 * k - 1) as u32), (k - 1) as nat)
}

/// The report of a partition check: the items and their verdicts. The
/// details are human-readable text.
pub open spec fn partition_report(rep: CheckReport, k: u32, cs: Seq<u8>) -> bool {
    let n = (2 * k - 1) as u32;
    let r = (k - 1) as u32;
    let nv = nv_of(k);
    let ncol = (k + 1) as nat;
    let bij = enumeration_bijective(all_vertices(k), nv);
    &&& rep.kind@ == "partition"@
    &&& rep.k == k
    &&& rep.items@.len() == if bij { 6nat } else { 2nat }
    &&& rep.items@[0].name@ == "one colour per vertex"@
    &&& rep.items@[0].pass == colours_in_range(cs, k)
    &&& rep.items@[0].detail@ == if colours_in_range(cs, k) {
        decimal(nv) + " vertices, colours in 0..="@ + decimal(k as nat)
    } else {
        "out-of-range colours at vertices "@ + seq!['['] + joined(first_four(out_of_range(cs, k, cs.len()))) + seq![']']
    }
    &&& rep.items@[1].name@ == "colex index is a bijection"@
    &&& rep.items@[1].pass == bij
    &&& rep.items@[1].detail@ == decimal(nv) + " distinct (k-1)-subsets of ["@ + decimal(n as nat) + "]"@
    &&& bij ==> {
        &&& rep.items@[2].name@ == "degree"@
        &&& rep.items@[2].pass == degrees_ok(n, r, k, nv)
        &&& (rep.items@[2].pass ==> rep.items@[2].detail@ == "all degrees = "@ + decimal(k as nat))
        &&& (!rep.items@[2].pass ==> exists|x: nat, dg: nat| #[trigger] first_bad_degree(n, r, k, nv, x, dg)
            && rep.items@[2].detail@ == "vertex "@ + decimal(x) + " has degree "@ + decimal(dg))
        &&& rep.items@[3].name@ == "closed nbhds rainbow"@
        &&& rep.items@[3].pass == rainbows_ok(cs, n, r, ncol, nv)
        &&& (rep.items@[3].pass ==> rep.items@[3].detail@ == decimal(nv) + " closed neighbourhoods are rainbow"@)
        &&& (!rep.items@[3].pass ==> first_not_rainbow(cs, n, r, ncol, nv, rep.items@[3].detail@))
        &&& rep.items@[4].name@ == "class sizes"@
        &&& rep.items@[4].pass == sizes_ok(cs, ncol, nv / ncol)
        &&& rep.items@[4].detail@ == if rep.items@[4].pass {
            "all "@ + decimal(ncol) + " classes have m = "@ + decimal(nv / ncol)
        } else {
            "sizes "@ + seq!['['] + joined(size_list(cs, ncol)) + seq![']'] + ", expected "@ + decimal(nv / ncol)
        }
        &&& rep.items@[5].name@ == "classes are perfect 1-codes"@
        &&& rep.items@[5].pass == codes_ok(cs, n, r, ncol, nv)
        &&& (rep.items@[5].pass ==> rep.items@[5].detail@ == "all "@ + decimal(ncol) + " classes are perfect 1-codes"@)
        &&& (!rep.items@[5].pass ==> first_uncovered(cs, n, r, ncol, nv, rep.items@[5].detail@))
    }
}

/// The indices, among the first `i` vertices, whose colour exceeds `k`.
pub open spec fn out_of_range(cs: Seq<u8>, k: u32, i: nat) -> Seq<u64>
    decreases i,
{
    if i == 0 {
        Seq::empty()
    } else {
        out_of_range(cs, k, (i - 1) as nat) + if cs[i - 1] > k { seq![(i - 1) as u64] } else { Seq::empty() }
    }
}

/// The first four entries of `s`, or all of them if there are fewer.
pub open spec fn first_four(s: Seq<u64>) -> Seq<u64> {
    if s.len() <= 4 { s } else { s.take(4) }
}

/// The size of each of the `ncol` colour classes.
pub open spec fn size_list(cs: Seq<u8>, ncol: nat) -> Seq<u64> {
    Seq::new(ncol, |col: int| count_colour(cs, col as nat, cs.len()) as u64)
}

/// The words `true` and `false`.
pub open spec fn truth(b: bool) -> Seq<char> {
    if b { "true"@ } else { "false"@ }
}

/// The members are pairwise distinct.
pub open spec fn distinct_members(ms: Seq<u32>) -> bool {
    forall|i: int, j: int| 0 <= i < j < ms.len() ==> ms[i] != ms[j]
}

/// Every member is a vertex index.
pub open spec fn members_in_range(ms: Seq<u32>, nv: nat) -> bool {
    forall|i: int| 0 <= i < ms.len() ==> #[trigger] ms[i] < nv
}

/// How many closed neighbourhoods of the first `i` members contain the
/// vertex of rank `y`.
pub open spec fn member_cover(ms: Seq<u32>, n: u32, r: u32, y: nat, i: nat) -> nat
    decreases i,
{
    if i == 0 {
        0
    } else {
        let v = ms[i - 1];
        let nb = nbrs_spec(vertex_at(n, r, v as int), n, r);
        member_cover(ms, n, r, y, (i - 1) as nat) + (if y == v { 1nat } else { 0nat }) + occ(nb, y, nb.len())
    }
}

/// Every member has `k` neighbours.
pub open spec fn member_degrees_ok(ms: Seq<u32>, n: u32, r: u32, k: u32) -> bool {
    forall|i: int| 0 <= i < ms.len() ==> #[trigger] nbrs_spec(vertex_at(n, r, ms[i] as int), n, r).len() == k
}

/// The closed neighbourhoods of the members cover every vertex once.
pub open spec fn member_cover_ok(ms: Seq<u32>, n: u32, r: u32, nv: nat) -> bool {
    forall|y: nat| y < nv ==> #[trigger] member_cover(ms, n, r, y, ms.len()) == 1
}

/// The report of a single-code check.
pub open spec fn code_report(rep: CheckReport, k: u32, ms: Seq<u32>) -> bool {
    let n = (2 * k - 1) as u32;
    let r = (k - 1) as u32;
    let nv = nv_of(k);
    let ncol = (k + 1) as nat;
    let well = distinct_members(ms) && members_in_range(ms, nv);
    &&& rep.kind@ == "code"@
    &&& rep.k == k
    &&& rep.items@.len() == if well { 4nat } else { 2nat }
    &&& rep.items@[0].name@ == "members well formed"@
    &&& rep.items@[0].pass == well
    &&& rep.items@[0].detail@ == decimal(ms.len()) + " members, distinct="@ + truth(distinct_members(ms)) + ", in range="@
        + truth(members_in_range(ms, nv))
    &&& rep.items@[1].name@ == "code size"@
    &&& rep.items@[1].pass == (ms.len() == nv / ncol)
    &&& rep.items@[1].detail@ == "|S| = "@ + decimal(ms.len()) + ", expected m = "@ + decimal(nv / ncol)
    &&& well ==> {
        &&& rep.items@[2].name@ == "degree"@
        &&& rep.items@[2].pass == member_degrees_ok(ms, n, r, k)
        &&& rep.items@[2].detail@ == "every member has "@ + decimal(k as nat) + " neighbours"@
        &&& rep.items@[3].name@ == "perfect 1-code"@
        &&& rep.items@[3].pass == member_cover_ok(ms, n, r, nv)
        &&& (rep.items@[3].pass ==> rep.items@[3].detail@ == "all "@ + decimal(nv) + " vertices covered exactly once"@)
        &&& (!rep.items@[3].pass ==> exists|p: nat| #![trigger member_cover(ms, n, r, p, ms.len())]
            p < nv && member_cover(ms, n, r, p, ms.len()) != 1
            && (forall|y: nat| y < p ==> #[trigger] member_cover(ms, n, r, y, ms.len()) == 1)
            && rep.items@[3].detail@ == "vertex "@ + decimal(p) + " covered "@ + decimal(sat(member_cover(ms, n, r, p, ms.len())) as nat) + " times"@)
    }
}

/// The text that reports vertex `y` covered `times` times by class `col`.
pub open spec fn uncovered_text(col: nat, y: nat, times: nat) -> Seq<char> {
    "class "@ + decimal(col) + ": vertex "@ + decimal(y) + " is covered "@ + decimal(times) + " times, expected 1"@
}

/// `msg` reports the first class, and in it the first vertex, not covered
/// exactly once, at class `col` and vertex `y`.
pub open spec fn first_uncovered_at(cs: Seq<u8>, n: u32, r: u32, ncol: nat, nv: nat, msg: Seq<char>, col: nat, y: nat) -> bool {
    &&& col < ncol
    &&& y < nv
    &&& cover_count(cs, n, r, col, y, nv) != 1
    &&& forall|c2: nat, y2: nat| c2 < col && y2 < nv ==> #[trigger] cover_count(cs, n, r, c2, y2, nv) == 1
    &&& forall|y2: nat| y2 < y ==> #[trigger] cover_count(cs, n, r, col, y2, nv) == 1
    &&& msg == uncovered_text(col, y, sat(cover_count(cs, n, r, col, y, nv)) as nat)
}

/// `msg` reports the first class, and in it the first vertex, not covered
/// exactly once.
pub open spec fn first_uncovered(cs: Seq<u8>, n: u32, r: u32, ncol: nat, nv: nat, msg: Seq<char>) -> bool {
    exists|col: nat, y: nat| #[trigger] first_uncovered_at(cs, n, r, ncol, nv, msg, col, y)
}

/// The outcome of checking a witness.
pub open spec fn check_outcome(w: WitnessView, r: Result<CheckReport, CheckError>) -> bool {
    match w {
        WitnessView::Partition { k, colors } => match r {
            Err(CheckError::Combi(_)) => !valid_k(k),
            Err(CheckError::EntryCount { entries, vertices }) => valid_k(k) && colors.len() != nv_of(k)
                && entries == colors.len() && vertices == nv_of(k),
            Ok(rep) => valid_k(k) && colors.len() == nv_of(k) && partition_report(rep, k, colors),
            Err(_) => false,
        },
        WitnessView::Code { k, members } => match r {
            Err(CheckError::Combi(_)) => !valid_k(k),
            Ok(rep) => valid_k(k) && code_report(rep, k, members),
            Err(_) => false,
        },
    }
}

// ---------------------------------------------------------------------------
// Entry points
// ---------------------------------------------------------------------------

fn item(name: &'static str, pass: bool, detail: String) -> (it: CheckItem)
    ensures
        it.name == name,
        it.pass == pass,
        it.detail == detail,
{
    CheckItem { name, pass, detail }
}

fn text_of(v: &Vec<char>) -> (s: String)
    ensures
        s@ == v@,
{
    string_from_chars(v)
}

/// The decimal renderings of `xs` joined by `, `.
pub open spec fn joined(xs: Seq<u64>) -> Seq<char>
    decreases xs.len(),
{
    if xs.len() == 0 {
        Seq::empty()
    } else if xs.len() == 1 {
        decimal(xs[0] as nat)
    } else {
        joined(xs.drop_last()) + seq![',', ' '] + decimal(xs.last() as nat)
    }
}

/// `[a, b, c]`.
pub(crate) fn push_list(out: &mut Vec<char>, xs: &Vec<u64>)
    ensures
        final(out)@ == old(out)@ + seq!['['] + joined(xs@) + seq![']'],
{
    let ghost start = out@;
    out.push('[');
    let mut i: usize = 0;
    while i < xs.len()
        invariant
            i <= xs@.len(),
            out@ == start + seq!['['] + joined(xs@.take(i as int)),
        decreases xs@.len() - i,
    {
        if i > 0 {
            out.push(',');
            out.push(' ');
        }
        push_decimal(out, xs[i]);
        proof {
            let t = xs@.take(i as int + 1);
            assert(t.drop_last() =~= xs@.take(i as int));
            assert(t.last() == xs@[i as int]);
            if i == 0 {
                assert(xs@.take(0) =~= Seq::<u64>::empty());
            }
            assert(out@ =~= start + seq!['['] + joined(t));
        }
        i += 1;
    }
    out.push(']');
    proof {
        assert(xs@.take(xs@.len() as int) =~= xs@);
    }
}

/// Parse a witness text, hold it to the expected `k` if one is given, and
/// check it.
pub fn check_file(text: &str, expect_k: Option<u32>) -> (r: Result<CheckReport, CheckError>)
    ensures
        match crate::witness::parse_spec(text@) {
            Err(e) => r == Err::<CheckReport, CheckError>(CheckError::Witness(e)),
            Ok(w) => {
                let wk = match w {
                    WitnessView::Partition { k, .. } => k,
                    WitnessView::Code { k, .. } => k,
                };
                match expect_k {
                    Some(k) => if wk != k {
                        r == Err::<CheckReport, CheckError>(CheckError::WrongK { witness: wk, asked: k })
                    } else {
                        check_outcome(w, r)
                    },
                    None => check_outcome(w, r),
                }
            },
        },
{
    let w = match Witness::from_text(text) {
        Ok(w) => w,
        Err(e) => {
            return Err(CheckError::Witness(e));
        },
    };
    if let Some(k) = expect_k {
        if w.k() != k {
            return Err(CheckError::WrongK { witness: w.k(), asked: k });
        }
    }
    check_witness(&w)
}

pub fn check_witness(w: &Witness) -> (r: Result<CheckReport, CheckError>)
    ensures
        check_outcome(w@, r),
{
    match w {
        Witness::Partition { k, colors } => check_partition(*k, colors),
        Witness::Code { k, members } => check_code_witness(*k, members),
    }
}

proof fn lemma_nv_fits(k: u32)
    requires
        valid_k(k),
    ensures
        nv_of(k) <= 0xFFFF_FFFF,
{
    crate::bits::lemma_binom_fits((2 * k - 1) as nat, (k - 1) as nat);
}

// ---------------------------------------------------------------------------
// Partition witness
// ---------------------------------------------------------------------------

#[verifier::spinoff_prover]
#[verifier::rlimit(100)]
fn check_partition(k: u32, colors: &Vec<u8>) -> (res: Result<CheckReport, CheckError>)
    ensures
        check_outcome(WitnessView::Partition { k, colors: colors@ }, res),
{
    let c = match Combi::new(k) {
        Ok(c) => c,
        Err(e) => {
            return Err(CheckError::Combi(e));
        },
    };
    proof {
        lemma_nv_fits(k);
    }
    let n = c.n;
    let r = c.r;
    let nv = c.num_vertices as usize;
    let ncol = (k + 1) as usize;
    let m = c.m;
    let mut items: Vec<CheckItem> = Vec::new();

    if colors.len() != nv {
        return Err(CheckError::EntryCount { entries: colors.len() as u64, vertices: nv as u64 });
    }

    // (1) every vertex has exactly one colour in 0..=k
    let mut bad: Vec<u64> = Vec::new();
    let mut in_range = true;
    let mut i: usize = 0;
    while i < colors.len()
        invariant
            i <= colors@.len(),
            in_range == forall|q: int| 0 <= q < i ==> #[trigger] colors@[q] <= k,
            bad@ == first_four(out_of_range(colors@, k, i as nat)),
        decreases colors@.len() - i,
    {
        let ghost s0 = out_of_range(colors@, k, i as nat);
        if colors[i] as u32 > k {
            in_range = false;
            if bad.len() < 4 {
                bad.push(i as u64);
                proof {
                    assert(out_of_range(colors@, k, (i + 1) as nat) == s0 + seq![i as u64]);
                }
            } else {
                proof {
                    assert(out_of_range(colors@, k, (i + 1) as nat) == s0 + seq![i as u64]);
                    assert((s0 + seq![i as u64]).take(4) =~= s0.take(4));
                    if s0.len() == 4 {
                        assert(s0.take(4) =~= s0);
                    }
                }
            }
        } else {
            proof {
                assert(out_of_range(colors@, k, (i + 1) as nat) =~= s0);
            }
        }
        i += 1;
    }
    let mut d: Vec<char> = Vec::new();
    if in_range {
        push_decimal(&mut d, nv as u64);
        push_str(&mut d, " vertices, colours in 0..=");
        push_decimal(&mut d, k as u64);
    } else {
        push_str(&mut d, "out-of-range colours at vertices ");
        push_list(&mut d, &bad);
    }
    proof {
        assert(colours_in_range(colors@, k) == in_range);
    }
    items.push(item("one colour per vertex", in_range, text_of(&d)));

    // Recompute every vertex mask independently and confirm the colex
    // indexing is a bijection: everything below depends on it.
    proof {
        assert(1u32 << n >= 1) by (bit_vector)
            requires
                n < 32,
        ;
        lemma_low_mask_pop(n, 0);
    }
    let all = subsets_of_size((1u32 << n) - 1, r);
    if all.len() != nv {
        return Err(CheckError::Enumeration { found: all.len() as u64, expected: nv as u64 });
    }
    let placed = place_vertices(&c, &all, nv);
    let bij = placed.is_some();
    let mut d: Vec<char> = Vec::new();
    push_decimal(&mut d, nv as u64);
    push_str(&mut d, " distinct (k-1)-subsets of [");
    push_decimal(&mut d, n as u64);
    push_str(&mut d, "]");
    items.push(item("colex index is a bijection", bij, text_of(&d)));
    let masks = match placed {
        Some(masks) => masks,
        None => {
            let rep = CheckReport { kind: String::from_str("partition"), k, items };
            proof {
                assert(rep.items@[0].name@ == "one colour per vertex"@);
            }
            return Ok(rep);
        },
    };

    // (2) every vertex has exactly k neighbours
    let deg = degree_check(&c, &masks);
    let mut d: Vec<char> = Vec::new();
    match deg {
        None => {
            push_str(&mut d, "all degrees = ");
            push_decimal(&mut d, k as u64);
        },
        Some((x, dg)) => {
            push_str(&mut d, "vertex ");
            push_decimal(&mut d, x as u64);
            push_str(&mut d, " has degree ");
            push_decimal(&mut d, dg as u64);
        },
    }
    items.push(item("degree", deg.is_none(), text_of(&d)));

    // (3) every closed neighbourhood carries each colour exactly once
    let mut rainbow_ok = true;
    let mut rainbow_detail: String = String::new();
    let mut x: usize = 0;
    while x < nv && rainbow_ok
        invariant
            c.wf(),
            c.k == k,
            nv == c.num_vertices,
            colors@.len() == nv,
            masks@.len() == nv,
            forall|x2: int| 0 <= x2 < masks@.len() ==> #[trigger] masks@[x2] == vertex_at(c.n, c.r, x2),
            x <= nv,
            forall|x2: int| 0 <= x2 < x ==> is_rainbow(#[trigger] closed_colours(colors@, c.n, c.r, x2), c.colors as nat),
            !rainbow_ok ==> x < nv && !is_rainbow(closed_colours(colors@, c.n, c.r, x as int), c.colors as nat),
            !rainbow_ok ==> rainbow_failure(colors@, c.n, c.r, x as nat, rainbow_detail@),
        decreases nv - x, if rainbow_ok { 1int } else { 0int },
    {
        match rainbow_at(&c, colors, &masks, x) {
            Ok(()) => {
                x += 1;
            },
            Err(msg) => {
                rainbow_ok = false;
                rainbow_detail = msg;
            },
        }
    }
    if rainbow_ok {
        let mut d: Vec<char> = Vec::new();
        push_decimal(&mut d, nv as u64);
        push_str(&mut d, " closed neighbourhoods are rainbow");
        rainbow_detail = text_of(&d);
    }
    items.push(item("closed nbhds rainbow", rainbow_ok, rainbow_detail));

    // (4) every class has size exactly m
    let sizes = class_sizes(colors, ncol);
    proof {
        assert(sizes@ =~= size_list(colors@, ncol as nat));
    }
    let mut size_ok = true;
    let mut s: usize = 0;
    while s < ncol
        invariant
            sizes@.len() == ncol,
            s <= ncol,
            size_ok == forall|col: int| 0 <= col < s ==> #[trigger] sizes@[col] == m,
        decreases ncol - s,
    {
        if sizes[s] != m {
            size_ok = false;
        }
        s += 1;
    }
    let mut d: Vec<char> = Vec::new();
    if size_ok {
        push_str(&mut d, "all ");
        push_decimal(&mut d, ncol as u64);
        push_str(&mut d, " classes have m = ");
        push_decimal(&mut d, m);
    } else {
        push_str(&mut d, "sizes ");
        push_list(&mut d, &sizes);
        push_str(&mut d, ", expected ");
        push_decimal(&mut d, m);
    }
    proof {
        assert(size_ok == sizes_ok(colors@, ncol as nat, (nv / ncol) as nat)) by {
            if size_ok {
                assert forall|col: nat| col < ncol implies #[trigger] count_colour(colors@, col, colors@.len()) == (nv / ncol) as nat by {
                    assert(sizes@[col as int] == m);
                }
            } else {
                let col = choose|col: int| 0 <= col < ncol && #[trigger] sizes@[col] != m;
                assert(count_colour(colors@, col as nat, colors@.len()) != (nv / ncol) as nat);
            }
        }
    }
    items.push(item("class sizes", size_ok, text_of(&d)));

    // (5) each class is a perfect 1-code
    let codes = codes_check(&c, colors, &masks);
    let code_ok = codes.is_ok();
    let code_detail = match codes {
        Ok(()) => {
            let mut d: Vec<char> = Vec::new();
            push_str(&mut d, "all ");
            push_decimal(&mut d, ncol as u64);
            push_str(&mut d, " classes are perfect 1-codes");
            text_of(&d)
        },
        Err(msg) => msg,
    };
    items.push(item("classes are perfect 1-codes", code_ok, code_detail));

    let rep = CheckReport { kind: String::from_str("partition"), k, items };
    proof {
        let n2 = (2 * k - 1) as u32;
        let r2 = (k - 1) as u32;
        let nv2 = nv_of(k);
        let ncol2 = (k + 1) as nat;
        assert(n2 == c.n && r2 == c.r && nv2 == nv && ncol2 == ncol);
        let its = rep.items@;
        assert(its.len() == 6);
        match deg {
            Some((x0, dg0)) => {
                assert(first_bad_degree(n2, r2, k, nv2, x0 as nat, dg0 as nat));
                assert(its[2].detail@ == "vertex "@ + decimal(x0 as nat) + " has degree "@ + decimal(dg0 as nat));
            },
            None => {
                assert(its[2].detail@ == "all degrees = "@ + decimal(k as nat));
            },
        }
        if !rainbow_ok {
            assert(rainbow_failure(colors@, n2, r2, x as nat, its[3].detail@));
            assert(first_not_rainbow(colors@, n2, r2, ncol2, nv2, its[3].detail@));
        }
        assert(its[4].pass == sizes_ok(colors@, ncol2, nv2 / ncol2));
        assert(its[5].pass == codes_ok(colors@, n2, r2, ncol2, nv2));
        assert(partition_report(rep, k, colors@));
    }
    Ok(rep)
}

// ---------------------------------------------------------------------------
// Single-code witness
// ---------------------------------------------------------------------------

#[verifier::spinoff_prover]
#[verifier::rlimit(100)]
fn check_code_witness(k: u32, members: &Vec<u32>) -> (res: Result<CheckReport, CheckError>)
    ensures
        check_outcome(WitnessView::Code { k, members: members@ }, res),
{
    broadcast use vstd::std_specs::hash::group_hash_axioms;
    let c = match Combi::new(k) {
        Ok(c) => c,
        Err(e) => {
            return Err(CheckError::Combi(e));
        },
    };
    proof {
        lemma_nv_fits(k);
    }
    let n = c.n;
    let r = c.r;
    let nv = c.num_vertices as usize;
    let m = c.m;
    let ghost ms = members@;
    let mut items: Vec<CheckItem> = Vec::new();

    let mut seen: std::collections::HashSet<u32> = std::collections::HashSet::new();
    let mut distinct = true;
    let mut in_range = true;
    let mut i: usize = 0;
    while i < members.len()
        invariant
            ms == members@,
            nv == c.num_vertices,
            i <= ms.len(),
            forall|x: u32| #[trigger] seen@.contains(x) <==> exists|a: int| 0 <= a < i && ms[a] == x,
            distinct == forall|a: int, b: int| 0 <= a < b < i ==> ms[a] != ms[b],
            in_range == forall|a: int| 0 <= a < i ==> #[trigger] ms[a] < nv,
        decreases ms.len() - i,
    {
        let v = members[i];
        if v as usize >= nv {
            in_range = false;
        }
        let fresh = seen.insert(v);
        proof {
            if !fresh {
                let a = choose|a: int| 0 <= a < i && ms[a] == v;
                assert(ms[a] == ms[i as int]);
            } else {
                assert forall|a: int, b: int| 0 <= a < b < i + 1 && distinct implies ms[a] != ms[b] by {
                    if b == i {
                        assert(!(exists|a2: int| 0 <= a2 < i && ms[a2] == v));
                    }
                }
            }
            assert forall|x: u32| #[trigger] seen@.contains(x) <==> exists|a: int| 0 <= a < i + 1 && ms[a] == x by {
                if x == v {
                    assert(ms[i as int] == x);
                } else if exists|a: int| 0 <= a < i + 1 && ms[a] == x {
                    let a = choose|a: int| 0 <= a < i + 1 && ms[a] == x;
                    assert(a < i);
                }
            }
        }
        if !fresh {
            distinct = false;
        }
        i += 1;
    }
    let well = distinct && in_range;
    proof {
        assert(distinct == distinct_members(ms));
        assert(in_range == members_in_range(ms, nv as nat));
    }
    let mut d: Vec<char> = Vec::new();
    push_decimal(&mut d, members.len() as u64);
    push_str(&mut d, " members, distinct=");
    let w1 = if distinct { "true" } else { "false" };
    push_str(&mut d, w1);
    proof {
        assert(w1@ == truth(distinct));
    }
    push_str(&mut d, ", in range=");
    let w2 = if in_range { "true" } else { "false" };
    push_str(&mut d, w2);
    proof {
        assert(w2@ == truth(in_range));
        assert(d@ == decimal(ms.len()) + " members, distinct="@ + truth(distinct_members(ms)) + ", in range="@
            + truth(members_in_range(ms, nv as nat)));
    }
    items.push(item("members well formed", well, text_of(&d)));

    let mut d: Vec<char> = Vec::new();
    push_str(&mut d, "|S| = ");
    push_decimal(&mut d, members.len() as u64);
    push_str(&mut d, ", expected m = ");
    push_decimal(&mut d, m);
    items.push(item("code size", members.len() as u64 == m, text_of(&d)));

    if !well {
        return Ok(CheckReport { kind: String::from_str("code"), k, items });
    }

    // degree check on the members
    let mut degree_ok = true;
    let mut i: usize = 0;
    while i < members.len() && degree_ok
        invariant
            c.wf(),
            c.k == k,
            ms == members@,
            nv == c.num_vertices,
            forall|a: int| 0 <= a < ms.len() ==> #[trigger] ms[a] < nv,
            i <= ms.len(),
            forall|a: int| 0 <= a < i ==> #[trigger] nbrs_spec(vertex_at(c.n, c.r, ms[a] as int), c.n, c.r).len() == k,
            !degree_ok ==> i < ms.len() && nbrs_spec(vertex_at(c.n, c.r, ms[i as int] as int), c.n, c.r).len() != k,
        decreases ms.len() - i, if degree_ok { 1int } else { 0int },
    {
        let mask = c.unrank(members[i]);
        proof {
            lemma_vertex_at(c.n, c.r, mask);
        }
        if neighbors_from_definition(mask, c.n, c.r).len() != k as usize {
            degree_ok = false;
        } else {
            i += 1;
        }
    }
    let mut d: Vec<char> = Vec::new();
    push_str(&mut d, "every member has ");
    push_decimal(&mut d, k as u64);
    push_str(&mut d, " neighbours");
    items.push(item("degree", degree_ok, text_of(&d)));

    // perfect 1-code: cover every vertex exactly once
    let mut cover: Vec<u32> = vec![0u32; nv];
    let mut i: usize = 0;
    while i < members.len()
        invariant
            c.wf(),
            ms == members@,
            nv == c.num_vertices,
            forall|a: int| 0 <= a < ms.len() ==> #[trigger] ms[a] < nv,
            i <= ms.len(),
            cover@.len() == nv,
            forall|y: int| 0 <= y < nv ==> #[trigger] cover@[y] == sat(member_cover(ms, c.n, c.r, y as nat, i as nat)),
        decreases ms.len() - i,
    {
        let v = members[i];
        let mask = c.unrank(v);
        proof {
            lemma_vertex_at(c.n, c.r, mask);
        }
        let cv = cover[v as usize];
        cover.set(v as usize, cv.saturating_add(1));
        let nb = neighbors_from_definition(mask, c.n, c.r);
        proof {
            lemma_nbrs_are_vertices(mask, c.n, c.r);
        }
        let mut q: usize = 0;
        while q < nb.len()
            invariant
                c.wf(),
                nv == c.num_vertices,
                i < ms.len(),
                ms[i as int] == v,
                cover@.len() == nv,
                nb@ == nbrs_spec(vertex_at(c.n, c.r, v as int), c.n, c.r),
                forall|j: int| 0 <= j < nb@.len() ==> {
                    let u = #[trigger] nb@[j];
                    popcount(u) == c.r && below(u, c.n as int) && colex(u) < binom(c.n as nat, c.r as nat)
                },
                q <= nb@.len(),
                forall|y: int| 0 <= y < nv ==> #[trigger] cover@[y] == sat(
                    member_cover(ms, c.n, c.r, y as nat, i as nat) + (if y == v { 1nat } else { 0nat }) + occ(nb@, y as nat, q as nat),
                ),
            decreases nb@.len() - q,
        {
            let ui = c.rank_ref(nb[q]) as usize;
            let cu = cover[ui];
            cover.set(ui, cu.saturating_add(1));
            q += 1;
        }
        proof {
            assert forall|y: int| 0 <= y < nv implies #[trigger] cover@[y] == sat(member_cover(ms, c.n, c.r, y as nat, (i + 1) as nat)) by {}
        }
        i += 1;
    }
    let mut bad: Option<usize> = None;
    let mut y: usize = 0;
    while y < nv && bad.is_none()
        invariant
            cover@.len() == nv,
            nv == c.num_vertices,
            y <= nv,
            forall|y2: int| 0 <= y2 < nv ==> #[trigger] cover@[y2] == sat(member_cover(ms, c.n, c.r, y2 as nat, ms.len())),
            forall|y2: int| 0 <= y2 < y ==> #[trigger] member_cover(ms, c.n, c.r, y2 as nat, ms.len()) == 1,
            bad matches Some(p) ==> p == y && y < nv && member_cover(ms, c.n, c.r, y as nat, ms.len()) != 1,
        decreases nv - y, if bad is None { 1int } else { 0int },
    {
        if cover[y] != 1 {
            bad = Some(y);
        } else {
            y += 1;
        }
    }
    let mut d: Vec<char> = Vec::new();
    match bad {
        None => {
            push_str(&mut d, "all ");
            push_decimal(&mut d, nv as u64);
            push_str(&mut d, " vertices covered exactly once");
        },
        Some(p) => {
            push_str(&mut d, "vertex ");
            push_decimal(&mut d, p as u64);
            push_str(&mut d, " covered ");
            push_decimal(&mut d, cover[y] as u64);
            push_str(&mut d, " times");
        },
    }
    proof {
        if bad is None {
            assert forall|y2: nat| y2 < nv implies #[trigger] member_cover(ms, c.n, c.r, y2, ms.len()) == 1 by {
                let yi = y2 as int;
                assert(member_cover(ms, c.n, c.r, yi as nat, ms.len()) == 1);
            }
        } else {
            assert(member_cover(ms, c.n, c.r, y as nat, ms.len()) != 1);
        }
    }
    items.push(item("perfect 1-code", bad.is_none(), text_of(&d)));
    let rep = CheckReport { kind: String::from_str("code"), k, items };
    proof {
        if bad is Some {
            let p = y as nat;
            assert(cover@[y as int] == sat(member_cover(ms, c.n, c.r, p, ms.len())));
            assert forall|y2: nat| y2 < p implies #[trigger] member_cover(ms, c.n, c.r, y2, ms.len()) == 1 by {
                let yi = y2 as int;
                assert(member_cover(ms, c.n, c.r, yi as nat, ms.len()) == 1);
            }
            assert(rep.items@[3].detail@ == "vertex "@ + decimal(p) + " covered "@ + decimal(sat(member_cover(ms, c.n, c.r, p, ms.len())) as nat) + " times"@);
            let n2 = (2 * k - 1) as u32;
            let r2 = (k - 1) as u32;
            assert(n2 == c.n && r2 == c.r);
            assert(p < nv_of(k) && member_cover(ms, n2, r2, p, ms.len()) != 1
                && (forall|y2: nat| y2 < p ==> #[trigger] member_cover(ms, n2, r2, y2, ms.len()) == 1)
                && rep.items@[3].detail@ == "vertex "@ + decimal(p) + " covered "@ + decimal(sat(member_cover(ms, n2, r2, p, ms.len())) as nat) + " times"@);
        }
        assert(rep.items@[0].detail@ == decimal(ms.len()) + " members, distinct="@ + truth(distinct_members(ms)) + ", in range="@
            + truth(members_in_range(ms, nv as nat)));
        assert(rep.items@[1].detail@ == "|S| = "@ + decimal(ms.len()) + ", expected m = "@ + decimal(nv as nat / (k + 1) as nat));
        assert(rep.items@[2].detail@ == "every member has "@ + decimal(k as nat) + " neighbours"@);
        assert(rep.items@[3].pass ==> rep.items@[3].detail@ == "all "@ + decimal(nv as nat) + " vertices covered exactly once"@);
        assert(rep.items@[2].pass == member_degrees_ok(ms, c.n, c.r, k));
        assert(rep.items@[3].pass == member_cover_ok(ms, c.n, c.r, nv as nat));
    }
    Ok(rep)
}

// ---------------------------------------------------------------------------
// Helpers for the structural checks
// ---------------------------------------------------------------------------

/// How many closed neighbourhoods of the first `i` blocks contain the
/// vertex of rank `y`.
pub open spec fn block_cover(bs: Seq<u32>, n: u32, r: u32, y: nat, i: nat) -> nat
    decreases i,
{
    if i == 0 {
        0
    } else {
        let b = bs[i - 1];
        let nb = nbrs_spec(b, n, r);
        block_cover(bs, n, r, y, (i - 1) as nat) + (if colex(b) == y { 1nat } else { 0nat }) + occ(nb, y, nb.len())
    }
}

/// Is `blocks` a perfect 1-code in `O_k`? Recomputed from the definition:
/// every block is a `(k-1)`-subset of `[2k-1]`, and the closed
/// neighbourhoods of the blocks cover every vertex exactly once.
#[verifier::spinoff_prover]
#[verifier::rlimit(40)]
pub fn is_perfect_code(k: u32, blocks: &Vec<u32>) -> (res: Result<bool, CombiError>)
    ensures
        match res {
            Err(_) => !valid_k(k),
            Ok(b) => valid_k(k) && b == ((forall|i: int| 0 <= i < blocks@.len() ==> #[trigger] popcount(blocks@[i]) == k - 1
                && below(blocks@[i], 2 * k - 1))
                && forall|y: nat| y < nv_of(k) ==> #[trigger] block_cover(blocks@, (2 * k - 1) as u32, (k - 1) as u32, y, blocks@.len()) == 1),
        },
{
    let c = match Combi::new(k) {
        Ok(c) => c,
        Err(e) => {
            return Err(e);
        },
    };
    proof {
        lemma_nv_fits(k);
    }
    let nv = c.num_vertices as usize;
    let ghost bs = blocks@;
    proof {
        crate::bits::lemma_shift_pos(c.n);
        lemma_low_mask(c.n);
        crate::bits::lemma_bits_zero();
    }
    let lown: u32 = (1u32 << c.n) - 1;
    assert(lown == low_mask(c.n));
    let mut cover: Vec<u32> = vec![0u32; nv];
    let mut i: usize = 0;
    while i < blocks.len()
        invariant
            c.wf(),
            c.k == k,
            bs == blocks@,
            lown == low_mask(c.n),
            forall|t: int| 0 <= t < 32 ==> (#[trigger] bit(low_mask(c.n), t) <==> t < c.n),
            forall|t: int| !#[trigger] bit(0u32, t),
            nv == c.num_vertices,
            i <= bs.len(),
            forall|a: int| 0 <= a < i ==> #[trigger] popcount(bs[a]) == k - 1 && below(bs[a], 2 * k - 1),
            cover@.len() == nv,
            forall|y: int| 0 <= y < nv ==> #[trigger] cover@[y] == sat(block_cover(bs, c.n, c.r, y as nat, i as nat)),
        decreases bs.len() - i,
    {
        let b = blocks[i];
        if count_ones32(b) != c.r {
            return Ok(false);
        }
        proof {
            lemma_bits_logic(b, lown);
            if b & !lown != 0 {
                crate::solver::engine::lemma_lowest_bit(b & !lown);
            }
        }
        if b & !lown != 0 {
            return Ok(false);
        }
        proof {
            assert forall|t: int| 2 * k - 1 <= t < 32 implies !#[trigger] bit(b, t) by {
                assert(!bit(b & !lown, t));
            }
            assert(popcount(bs[i as int]) == k - 1 && below(bs[i as int], 2 * k - 1));
            assert forall|a: int| 0 <= a < i + 1 implies #[trigger] popcount(bs[a]) == k - 1 && below(bs[a], 2 * k - 1) by {}
        }
        proof {
            lemma_colex_below(b, c.n as int, 0, 0);
            assert(binom(0, 0) == 1);
        }
        let bi = c.rank_ref(b) as usize;
        let cb = cover[bi];
        cover.set(bi, cb.saturating_add(1));
        let nb = neighbors_from_definition(b, c.n, c.r);
        proof {
            lemma_nbrs_are_vertices(b, c.n, c.r);
        }
        let mut q: usize = 0;
        while q < nb.len()
            invariant
                c.wf(),
                nv == c.num_vertices,
                i < bs.len(),
                bs[i as int] == b,
                cover@.len() == nv,
                forall|a: int| 0 <= a < i + 1 ==> #[trigger] popcount(bs[a]) == k - 1 && below(bs[a], 2 * k - 1),
                nb@ == nbrs_spec(b, c.n, c.r),
                forall|j: int| 0 <= j < nb@.len() ==> {
                    let u = #[trigger] nb@[j];
                    popcount(u) == c.r && below(u, c.n as int) && colex(u) < binom(c.n as nat, c.r as nat)
                },
                q <= nb@.len(),
                forall|y: int| 0 <= y < nv ==> #[trigger] cover@[y] == sat(
                    block_cover(bs, c.n, c.r, y as nat, i as nat) + (if colex(b) == y { 1nat } else { 0nat }) + occ(nb@, y as nat, q as nat),
                ),
            decreases nb@.len() - q,
        {
            let ui = c.rank_ref(nb[q]) as usize;
            let cu = cover[ui];
            cover.set(ui, cu.saturating_add(1));
            q += 1;
        }
        i += 1;
    }
    let mut y: usize = 0;
    while y < nv
        invariant
            c.wf(),
            c.k == k,
            bs == blocks@,
            forall|a: int| 0 <= a < bs.len() ==> #[trigger] popcount(bs[a]) == k - 1,
            cover@.len() == nv,
            nv == c.num_vertices,
            y <= nv,
            forall|y2: int| 0 <= y2 < nv ==> #[trigger] cover@[y2] == sat(block_cover(bs, c.n, c.r, y2 as nat, bs.len())),
            forall|y2: int| 0 <= y2 < y ==> #[trigger] block_cover(bs, c.n, c.r, y2 as nat, bs.len()) == 1,
        decreases nv - y,
    {
        if cover[y] != 1 {
            proof {
                assert(c.n == (2 * k - 1) as u32);
                assert(c.r == (k - 1) as u32);
                assert(block_cover(bs, c.n, c.r, y as nat, bs.len()) != 1);
                assert(block_cover(bs, (2 * k - 1) as u32, (k - 1) as u32, y as nat, bs.len()) != 1);
                assert(y < nv_of(k));
            }
            return Ok(false);
        }
        y += 1;
    }
    proof {
        assert forall|y2: nat| y2 < nv_of(k) implies #[trigger] block_cover(bs, (2 * k - 1) as u32, (k - 1) as u32, y2, bs.len()) == 1 by {
            let yi = y2 as int;
            assert(block_cover(bs, c.n, c.r, yi as nat, bs.len()) == 1);
        }
    }
    Ok(true)
}

/// How many blocks other than block `i`, among the first `j`, meet it in
/// exactly `a` points.
pub open spec fn meet_count(bs: Seq<u32>, i: int, a: nat, j: nat) -> nat
    decreases j,
{
    if j == 0 {
        0
    } else {
        meet_count(bs, i, a, (j - 1) as nat) + if j - 1 != i && popcount(bs[i] & bs[j - 1]) == a {
            1nat
        } else {
            0nat
        }
    }
}

pub(crate) proof fn lemma_meet_bound(bs: Seq<u32>, i: int, a: nat, j: nat)
    ensures
        meet_count(bs, i, a, j) <= j,
    decreases j,
{
    if j > 0 {
        lemma_meet_bound(bs, i, a, (j - 1) as nat);
    }
}

/// The `c_a` profile of a code: for each block, how many other blocks meet
/// it in exactly `a` points, `a = 0..=k-2`.
pub fn intersection_profile(k: u32, blocks: &Vec<u32>) -> (out: Vec<Vec<u64>>)
    requires
        k >= 1,
        forall|i: int, j: int| 0 <= i < blocks@.len() && 0 <= j < blocks@.len() && i != j
            ==> popcount(#[trigger] blocks@[i] & #[trigger] blocks@[j]) < k - 1,
    ensures
        out@.len() == blocks@.len(),
        forall|i: int| 0 <= i < out@.len() ==> #[trigger] out@[i]@.len() == k - 1,
        forall|i: int, a: int| 0 <= i < out@.len() && 0 <= a < k - 1 ==> #[trigger] out@[i]@[a] == meet_count(blocks@, i, a as nat, blocks@.len()),
{
    let ghost bs = blocks@;
    let mut out: Vec<Vec<u64>> = Vec::new();
    let mut i: usize = 0;
    while i < blocks.len()
        invariant
            k >= 1,
            bs == blocks@,
            forall|i2: int, j: int| 0 <= i2 < bs.len() && 0 <= j < bs.len() && i2 != j
                ==> popcount(#[trigger] bs[i2] & #[trigger] bs[j]) < k - 1,
            i <= bs.len(),
            out@.len() == i,
            forall|i2: int| 0 <= i2 < i ==> #[trigger] out@[i2]@.len() == k - 1,
            forall|i2: int, a: int| 0 <= i2 < i && 0 <= a < k - 1 ==> #[trigger] out@[i2]@[a] == meet_count(bs, i2, a as nat, bs.len()),
        decreases bs.len() - i,
    {
        let b = blocks[i];
        let mut d: Vec<u64> = vec![0u64; (k - 1) as usize];
        let mut j: usize = 0;
        while j < blocks.len()
            invariant
                k >= 1,
                bs == blocks@,
                forall|i2: int, j2: int| 0 <= i2 < bs.len() && 0 <= j2 < bs.len() && i2 != j2
                    ==> popcount(#[trigger] bs[i2] & #[trigger] bs[j2]) < k - 1,
                i < bs.len(),
                b == bs[i as int],
                j <= bs.len(),
                d@.len() == k - 1,
                forall|a: int| 0 <= a < k - 1 ==> #[trigger] d@[a] == meet_count(bs, i as int, a as nat, j as nat),
            decreases bs.len() - j,
        {
            if i != j {
                let o = blocks[j];
                let p = count_ones32(b & o) as usize;
                proof {
                    assert(popcount(bs[i as int] & bs[j as int]) < k - 1);
                    lemma_meet_bound(bs, i as int, p as nat, j as nat);
                }
                let v = d[p];
                d.set(p, v + 1);
            }
            proof {
                assert forall|a: int| 0 <= a < k - 1 implies #[trigger] d@[a] == meet_count(bs, i as int, a as nat, (j + 1) as nat) by {
                    assert(meet_count(bs, i as int, a as nat, (j + 1) as nat) == meet_count(bs, i as int, a as nat, j as nat) + if j != i && popcount(bs[i as int] & bs[j as int]) == a {
                        1nat
                    } else {
                        0nat
                    });
                }
            }
            j += 1;
        }
        out.push(d);
        i += 1;
    }
    out
}

} // verus!
