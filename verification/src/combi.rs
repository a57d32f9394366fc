//! Combinatorial core: binomials, colex rank/unrank of the vertices of `O_k`,
//! neighbours, the block-intersection distributions `N_j`/`M_j` of the
//! structure theorem, the Rule D/E targets derived from them, and link
//! regions.
//!
//! `O_k` has vertex set the `(k-1)`-subsets of `[n]` with `n = 2k-1`, and
//! `T ~ U` iff `T ∩ U = ∅`. Vertices are `u32` bitmasks indexed by colex rank.
use vstd::prelude::*;
use crate::bits::{
    below, binom, bit, colex, colex_from, count_ones32, drop_each_from, drops_of, lemma_binom_above,
    lemma_binom_fits, lemma_binom_mono, lemma_bit_cleared, lemma_bit_low16, lemma_bit_set,
    lemma_bits_ext, lemma_bits_zero, lemma_colex_add_low, lemma_colex_agree, lemma_colex_empty_tail,
    lemma_colex_fits, lemma_colex_skip, lemma_colex_split, lemma_drops_agree, lemma_drops_skip,
    lemma_pop_bound, lemma_pop_split_bound, low_mask, pop_from, popcount,
};
use crate::text::{decimal, push_decimal, push_str, string_from_chars};

verus! {

pub const MAX_BITS: u32 = 32;

const LO_BITS: u32 = 16;

const LO_SIZE: usize = 65536;

const HI_SIZE: usize = 32768;

// ---------------------------------------------------------------------------
// Binomials
// ---------------------------------------------------------------------------

/// Pascal's triangle up to row 32.
#[derive(Clone, Debug)]
pub struct Binom {
    table: Vec<u64>,
    w: usize,
}

/// Entry `(n, r)` of a flattened 33-wide table.
pub open spec fn entry(t: Seq<u64>, n: int, r: int) -> u64 {
    t[n * 33 + r]
}

impl Binom {
    /// The table holds `C(n, r)` for every `n, r <= 32`.
    pub closed spec fn wf(&self) -> bool {
        &&& self.w == 33
        &&& self.table@.len() == 33 * 33
        &&& forall|n: int, r: int|
            0 <= n <= 32 && 0 <= r <= 32 ==> #[trigger] entry(self.table@, n, r) == binom(
                n as nat,
                r as nat,
            )
    }

    pub fn new() -> (b: Binom)
        ensures
            b.wf(),
    {
        let w: usize = 33;
        let mut table: Vec<u64> = vec![0u64; 33 * 33];
        let mut n: usize = 0;
        while n < w
            invariant
                w == 33,
                n <= 33,
                table@.len() == 33 * 33,
                forall|a: int, r: int|
                    0 <= a < n && 0 <= r <= 32 ==> #[trigger] entry(table@, a, r) == binom(
                        a as nat,
                        r as nat,
                    ),
                forall|a: int, r: int|
                    n <= a <= 32 && 0 <= r <= 32 ==> #[trigger] entry(table@, a, r) == 0,
            decreases 33 - n,
        {
            let ghost t0 = table@;
            table.set(n * w, 1);
            proof {
                assert forall|a: int, q: int| 0 <= a <= 32 && 0 <= q <= 32 && (a != n || q != 0) implies
                    #[trigger] entry(table@, a, q) == entry(t0, a, q) by {
                    assert(a * 33 + q != n * 33);
                }
                assert(entry(table@, n as int, 0) == 1);
            }
            let mut r: usize = 1;
            while r <= n
                invariant
                    w == 33,
                    1 <= r <= n + 1,
                    n < 33,
                    table@.len() == 33 * 33,
                    forall|a: int, q: int|
                        0 <= a < n && 0 <= q <= 32 ==> #[trigger] entry(table@, a, q) == binom(
                            a as nat,
                            q as nat,
                        ),
                    forall|q: int| 0 <= q < r ==> #[trigger] entry(table@, n as int, q) == binom(n as nat, q as nat),
                    forall|q: int| r <= q <= 32 ==> #[trigger] entry(table@, n as int, q) == 0,
                    forall|a: int, q: int|
                        n < a <= 32 && 0 <= q <= 32 ==> #[trigger] entry(table@, a, q) == 0,
                decreases n + 1 - r,
            {
                assert(entry(table@, (n - 1) as int, (r - 1) as int) == binom((n - 1) as nat, (r - 1) as nat));
                assert(entry(table@, (n - 1) as int, r as int) == binom((n - 1) as nat, r as nat));
                let up_left = table[(n - 1) * w + (r - 1)];
                let up = if r <= n - 1 {
                    table[(n - 1) * w + r]
                } else {
                    proof {
                        lemma_binom_above((n - 1) as nat, r as nat);
                    }
                    0
                };
                proof {
                    lemma_binom_fits((n - 1) as nat, (r - 1) as nat);
                    lemma_binom_fits((n - 1) as nat, r as nat);
                }
                let ghost t1 = table@;
                table.set(n * w + r, up_left + up);
                proof {
                    assert forall|a: int, q: int| 0 <= a <= 32 && 0 <= q <= 32 && (a != n || q != r) implies
                        #[trigger] entry(table@, a, q) == entry(t1, a, q) by {
                        assert(a * 33 + q != n * 33 + r);
                    }
                    assert(entry(table@, n as int, r as int) == binom(n as nat, r as nat));
                }
                r += 1;
            }
            proof {
                assert forall|q: int| 0 <= q <= 32 implies #[trigger] entry(table@, n as int, q) == binom(
                    n as nat,
                    q as nat,
                ) by {
                    if q > n {
                        lemma_binom_above(n as nat, q as nat);
                    }
                }
            }
            n += 1;
        }
        Binom { table, w }
    }

    /// `C(n, r)`, and `0` for `n > 32`.
    pub fn c(&self, n: u32, r: u32) -> (v: u64)
        requires
            self.wf(),
        ensures
            v == (if n <= 32 { binom(n as nat, r as nat) } else { 0 }),
            v <= 0xFFFF_FFFF,
    {
        if r > n || n >= self.w as u32 {
            proof {
                if n <= 32 {
                    lemma_binom_above(n as nat, r as nat);
                }
            }
            return 0;
        }
        proof {
            lemma_binom_fits(n as nat, r as nat);
        }
        assert(entry(self.table@, n as int, r as int) == binom(n as nat, r as nat));
        self.table[n as usize * self.w + r as usize]
    }
}

impl Default for Binom {
    fn default() -> (b: Self)
        ensures
            b.wf(),
    {
        Self::new()
    }
}

// ---------------------------------------------------------------------------
// Errors
// ---------------------------------------------------------------------------

/// Why `Combi::new` refused a `k`.
#[derive(Clone, Copy, Debug, PartialEq, Eq)]
pub enum CombiError {
    /// `k` is outside `2..=16`.
    OutOfRange { k: u32 },
    /// `k` is odd: the structure theorem gives a negative block count.
    Odd { k: u32 },
}


/// ` = ` and the value of `(1 - k) / (k + 1)` as the shortest decimal that
/// reads back as the nearest double, for the odd `k` that `Combi::new`
/// refuses as odd (3 to 15); nothing for any other `k`.
pub open spec fn n0_value(k: u32) -> Seq<char> {
    if k == 3 {
        " = -0.5"@
    } else if k == 5 {
        " = -0.6666666666666666"@
    } else if k == 7 {
        " = -0.75"@
    } else if k == 9 {
        " = -0.8"@
    } else if k == 11 {
        " = -0.8333333333333334"@
    } else if k == 13 {
        " = -0.8571428571428571"@
    } else if k == 15 {
        " = -0.875"@
    } else {
        Seq::empty()
    }
}

fn push_n0_value(v: &mut Vec<char>, k: u32)
    ensures
        final(v)@ == old(v)@ + n0_value(k),
{
    if k == 3 {
        push_str(v, " = -0.5");
    } else if k == 5 {
        push_str(v, " = -0.6666666666666666");
    } else if k == 7 {
        push_str(v, " = -0.75");
    } else if k == 9 {
        push_str(v, " = -0.8");
    } else if k == 11 {
        push_str(v, " = -0.8333333333333334");
    } else if k == 13 {
        push_str(v, " = -0.8571428571428571");
    } else if k == 15 {
        push_str(v, " = -0.875");
    } else {
        assert(v@ == old(v)@ + Seq::<char>::empty());
    }
}

impl CombiError {
    /// The explanation shown to the user.
    pub fn message(&self) -> (s: String)
        ensures
            s@ == match *self {
                CombiError::OutOfRange { k } => "k = "@ + decimal(k as nat)
                    + " is out of range; this tool supports 2 <= k <= 16"@,
                CombiError::Odd { k } => "k = "@ + decimal(k as nat) + " is odd, so no partition of O_"@ + decimal(k as nat)
                    + " into "@ + decimal(k as nat + 1) + " perfect 1-codes can exist.\n"@
                    + "The structure theorem gives, for a colour class B and any block B in it,\n"@
                    + "N_0(B) = (1 + k*(-1)^k) / (k+1) = (1 - "@ + decimal(k as nat) + ") / "@ + decimal(k as nat + 1)
                    + n0_value(k) + ",\n"@ + "the number of blocks of the class disjoint from B. A count cannot be\n"@
                    + "negative, so there is nothing to search. Use an even k."@,
            },
    {
        let mut v: Vec<char> = Vec::new();
        match self {
            CombiError::OutOfRange { k } => {
                push_str(&mut v, "k = ");
                push_decimal(&mut v, *k as u64);
                push_str(&mut v, " is out of range; this tool supports 2 <= k <= 16");
            },
            CombiError::Odd { k } => {
                push_str(&mut v, "k = ");
                push_decimal(&mut v, *k as u64);
                push_str(&mut v, " is odd, so no partition of O_");
                push_decimal(&mut v, *k as u64);
                push_str(&mut v, " into ");
                push_decimal(&mut v, *k as u64 + 1);
                push_str(&mut v, " perfect 1-codes can exist.\n");
                push_str(&mut v, "The structure theorem gives, for a colour class B and any block B in it,\n");
                push_str(&mut v, "N_0(B) = (1 + k*(-1)^k) / (k+1) = (1 - ");
                push_decimal(&mut v, *k as u64);
                push_str(&mut v, ") / ");
                push_decimal(&mut v, *k as u64 + 1);
                push_n0_value(&mut v, *k);
                push_str(&mut v, ",\n");
                push_str(&mut v, "the number of blocks of the class disjoint from B. A count cannot be\n");
                push_str(&mut v, "negative, so there is nothing to search. Use an even k.");
            },
        }
        proof {
            match *self {
                CombiError::OutOfRange { k } => {},
                CombiError::Odd { k } => {},
            }
        }
        string_from_chars(&v)
    }
}

// ---------------------------------------------------------------------------
// Structure theorem, as mathematics
// ---------------------------------------------------------------------------

/// `(-1)^(k+j)`.
pub open spec fn sign(k: int, j: int) -> int {
    if (k + j) % 2 == 0 { 1 } else { -1 }
}

/// Numerator of `N_j` over `k+1`: `C(k,j) * (C(k,j) + (-1)^(k+j) * k)`.
pub open spec fn n_num_spec(k: nat, j: nat) -> int {
    binom(k, j) * (binom(k, j) + sign(k as int, j as int) * k)
}

/// Numerator of `M_j` over `k+1`: `C(k,j) * (C(k,j) - (-1)^(k+j))`.
pub open spec fn m_num_spec(k: nat, j: nat) -> int {
    binom(k, j) * (binom(k, j) - sign(k as int, j as int))
}

/// A numerator over `d` rounded down, clamped at zero.
pub open spec fn floor_pos(x: int, d: int) -> int {
    if x > 0 { x / d } else { 0 }
}

/// `|x|`.
pub open spec fn abs_int(x: int) -> int {
    if x < 0 { -x } else { x }
}

/// The entries `(which, j, numerator)` for `j` in `j..=k` whose numerator is
/// not a multiple of `k+1`.
pub open spec fn obstruction_from(k: nat, which: char, j: nat) -> Seq<(char, u32, i128)>
    decreases k + 1 - j,
{
    if j > k {
        Seq::empty()
    } else {
        let x = if which == 'N' { n_num_spec(k, j) } else { m_num_spec(k, j) };
        (if abs_int(x) % ((k + 1) as int) != 0 { seq![(which, j as u32, x as i128)] } else { Seq::empty() })
            + obstruction_from(k, which, j + 1)
    }
}

/// Every non-integral `N_j`, then every non-integral `M_j`.
pub open spec fn obstruction(k: nat) -> Seq<(char, u32, i128)> {
    obstruction_from(k, 'N', 0) + obstruction_from(k, 'M', 0)
}

proof fn lemma_small_binom(k: nat, j: nat)
    requires
        k <= 16,
    ensures
        binom(k, j) < 65536,
{
    if k == 0 {
        if j > 0 {
            lemma_binom_above(0, j);
        }
    } else {
        crate::bits::lemma_binom_lt_pow2(k, j);
        vstd::arithmetic::power2::lemma2_to64();
        if k < 16 {
            vstd::arithmetic::power2::lemma_pow2_strictly_increases(k, 16);
        }
    }
}

proof fn lemma_num_bounds(k: nat, j: nat)
    requires
        k <= 16,
    ensures
        -5_000_000_000 < n_num_spec(k, j) < 5_000_000_000,
        -5_000_000_000 < m_num_spec(k, j) < 5_000_000_000,
{
    lemma_small_binom(k, j);
    let c = binom(k, j) as int;
    let s = sign(k as int, j as int);
    assert(-70000 < c + s * k < 70000);
    assert(-70000 < c - s < 70000);
    assert(0 <= c * (c + s * k) < 70000 * 70000 || -70000 * 70000 < c * (c + s * k) <= 0) by (nonlinear_arith)
        requires
            0 <= c < 65536,
            -70000 < c + s * k < 70000,
    ;
    assert(0 <= c * (c - s) < 70000 * 70000 || -70000 * 70000 < c * (c - s) <= 0) by (nonlinear_arith)
        requires
            0 <= c < 65536,
            -70000 < c - s < 70000,
    ;
}


// ---------------------------------------------------------------------------
// Combinations of positions
// ---------------------------------------------------------------------------

/// `c` is a strictly increasing sequence of positions below `w`.
pub open spec fn is_combo(c: Seq<usize>, w: int) -> bool {
    &&& forall|i: int, j: int| 0 <= i < j < c.len() ==> c[i] < c[j]
    &&& forall|i: int| 0 <= i < c.len() ==> #[trigger] c[i] < w
}

/// `c` is the lexicographically last combination: `c[q] == w - t + q`.
pub open spec fn is_last_combo(c: Seq<usize>, w: int) -> bool {
    forall|q: int| 0 <= q < c.len() ==> #[trigger] c[q] == w - c.len() + q
}

/// `b` is the lexicographic successor of the combination `a`: at the
/// rightmost position `i` that can still move, `a[i]` grows by one and every
/// later position follows consecutively.
pub open spec fn is_successor(a: Seq<usize>, b: Seq<usize>, w: int) -> bool {
    &&& a.len() == b.len()
    &&& exists|i: int|
        #![trigger a[i]]
        0 <= i < a.len() && a[i] < w - a.len() + i && (forall|q: int|
            i < q < a.len() ==> #[trigger] a[q] == w - a.len() + q) && (forall|q: int|
            0 <= q < i ==> #[trigger] b[q] == a[q]) && (forall|q: int|
            i <= q < b.len() ==> #[trigger] b[q] == a[i] + 1 + (q - i))
}


/// Every `t`-combination of positions `start..w`, in lexicographic order.
pub open spec fn combos_from(start: int, t: nat, w: int) -> Seq<Seq<usize>>
    decreases w - start, t,
{
    if t == 0 {
        seq![Seq::<usize>::empty()]
    } else if start >= w || start < 0 {
        Seq::empty()
    } else {
        combos_from(start + 1, (t - 1) as nat, w).map_values(|c: Seq<usize>| seq![start as usize] + c)
            + combos_from(start + 1, t, w)
    }
}

pub proof fn lemma_combos_empty(start: int, t: nat, w: int)
    requires
        0 <= start,
        t > 0,
        w - start < t,
    ensures
        combos_from(start, t, w).len() == 0,
    decreases w - start, t,
{
    if t > 0 && start < w {
        lemma_combos_empty(start + 1, (t - 1) as nat, w);
        lemma_combos_empty(start + 1, t, w);
    }
}

/// There are `C(w - start, t)` combinations.
pub proof fn lemma_combos_len(start: int, t: nat, w: int)
    requires
        0 <= start <= w,
    ensures
        combos_from(start, t, w).len() == binom((w - start) as nat, t),
    decreases w - start, t,
{
    if t == 0 {
    } else if start >= w {
        assert(binom(0, t) == 0);
    } else {
        lemma_combos_len(start + 1, (t - 1) as nat, w);
        lemma_combos_len(start + 1, t, w);
        assert(binom((w - start) as nat, t) == binom((w - start - 1) as nat, (t - 1) as nat) + binom(
            (w - start - 1) as nat,
            t,
        ));
    }
}

/// Bitmask of the positions `ground[c[q]]`.
pub open spec fn combo_bits(ground: Seq<u32>, c: Seq<usize>) -> u32
    decreases c.len(),
{
    if c.len() == 0 {
        0
    } else {
        combo_bits(ground, c.drop_last()) | (1u32 << ground[c.last() as int])
    }
}

/// Bitmask of the positions `c[q]` themselves.
pub open spec fn pos_bits(c: Seq<usize>) -> u32
    decreases c.len(),
{
    if c.len() == 0 {
        0
    } else {
        pos_bits(c.drop_last()) | (1u32 << (c.last() as u32))
    }
}

proof fn lemma_combo_bounds(c: Seq<usize>, w: int)
    requires
        is_combo(c, w),
        w >= 0,
    ensures
        c.len() <= w,
        forall|q: int| 0 <= q < c.len() ==> q <= #[trigger] c[q] <= w - c.len() + q,
{
    assert forall|q: int| 0 <= q < c.len() implies q <= #[trigger] c[q] by {
        lemma_combo_lower(c, w, q);
    }
    assert forall|q: int| 0 <= q < c.len() implies #[trigger] c[q] <= w - c.len() + q by {
        lemma_combo_upper(c, w, q);
    }
    if c.len() > 0 {
        assert(c.len() - 1 <= c[c.len() - 1]);
        assert(c[c.len() - 1] < w);
    }
}

proof fn lemma_combo_lower(c: Seq<usize>, w: int, q: int)
    requires
        is_combo(c, w),
        0 <= q < c.len(),
    ensures
        q <= c[q],
    decreases q,
{
    if q > 0 {
        lemma_combo_lower(c, w, q - 1);
        assert(c[q - 1] < c[q]);
    }
}

proof fn lemma_combo_upper(c: Seq<usize>, w: int, q: int)
    requires
        is_combo(c, w),
        0 <= q < c.len(),
    ensures
        c[q] <= w - c.len() + q,
    decreases c.len() - q,
{
    if q + 1 < c.len() {
        lemma_combo_upper(c, w, q + 1);
        assert(c[q] < c[q + 1]);
    }
}


/// The pair (ground bits, position bits) of the combination `prefix + c`.
pub open spec fn combo_pair(ground: Seq<u32>, prefix: Seq<usize>, c: Seq<usize>) -> (u32, u32) {
    (combo_bits(ground, prefix + c), pos_bits(prefix + c))
}

/// The pairs for every combination of `start..ground.len()` of size `t`,
/// after `prefix`, in lexicographic order.
pub open spec fn combo_pairs(ground: Seq<u32>, prefix: Seq<usize>, start: int, t: nat) -> Seq<(u32, u32)> {
    combos_from(start, t, ground.len() as int).map_values(|c: Seq<usize>| combo_pair(ground, prefix, c))
}

/// Appends, in lexicographic order, the pair of every `t`-combination of
/// positions `start..ground.len()` appended to `prefix`.
pub(crate) fn gen_combos(
    ground: &Vec<u32>,
    start: usize,
    t: usize,
    bits: u32,
    pos: u32,
    out: &mut Vec<(u32, u32)>,
    Ghost(prefix): Ghost<Seq<usize>>,
)
    requires
        start <= ground@.len() <= 32,
        forall|i: int| 0 <= i < ground@.len() ==> #[trigger] ground@[i] < 32,
        bits == combo_bits(ground@, prefix),
        pos == pos_bits(prefix),
        forall|i: int| 0 <= i < prefix.len() ==> #[trigger] prefix[i] < ground@.len(),
    ensures
        final(out)@ == old(out)@ + combo_pairs(ground@, prefix, start as int, t as nat),
    decreases ground@.len() - start, t,
{
    if t == 0 {
        out.push((bits, pos));
        proof {
            assert(prefix + Seq::<usize>::empty() =~= prefix);
            assert(combo_pairs(ground@, prefix, start as int, 0) =~= seq![(bits, pos)]);
        }
        return;
    }
    if start >= ground.len() || ground.len() - start < t {
        proof {
            lemma_combos_empty(start as int, t as nat, ground@.len() as int);
            assert(combo_pairs(ground@, prefix, start as int, t as nat) =~= Seq::<(u32, u32)>::empty());
        }
        return;
    }
    let ghost out0 = out@;
    let g = ground[start];
    let ghost p2 = prefix.push(start);
    proof {
        assert(p2.drop_last() =~= prefix);
    }
    gen_combos(ground, start + 1, t - 1, bits | (1u32 << g), pos | (1u32 << (start as u32)), out, Ghost(p2));
    let ghost out1 = out@;
    gen_combos(ground, start + 1, t, bits, pos, out, Ghost(prefix));
    proof {
        let w = ground@.len() as int;
        let a = combos_from(start + 1, (t - 1) as nat, w);
        let b = combos_from(start + 1, t as nat, w);
        let f = |c: Seq<usize>| combo_pair(ground@, prefix, c);
        let am = a.map_values(|c: Seq<usize>| seq![start as usize] + c);
        assert(combos_from(start as int, t as nat, w) == am + b);
        assert forall|i: int| 0 <= i < a.len() implies #[trigger] am.map_values(f)[i] == combo_pairs(
            ground@,
            p2,
            start + 1,
            (t - 1) as nat,
        )[i] by {
            assert(prefix + (seq![start as usize] + a[i]) =~= p2 + a[i]);
        }
        assert(am.map_values(f) =~= combo_pairs(ground@, p2, start + 1, (t - 1) as nat));
        assert((am + b).map_values(f) =~= am.map_values(f) + b.map_values(f));
    }
}

/// Bits of a combination's ground mask all lie below `e` when its ground
/// values do.
proof fn lemma_combo_bits_below(ground: Seq<u32>, c: Seq<usize>, e: int)
    requires
        0 <= e <= 32,
        forall|i: int| 0 <= i < c.len() ==> #[trigger] c[i] < ground.len(),
        forall|i: int| 0 <= i < ground.len() ==> #[trigger] ground[i] < e,
    ensures
        below(combo_bits(ground, c), e),
    decreases c.len(),
{
    if c.len() > 0 {
        let d = c.drop_last();
        lemma_combo_bits_below(ground, d, e);
        let g = ground[c.last() as int];
        crate::bits::lemma_bit_set(combo_bits(ground, d), g as int);
        let x = combo_bits(ground, d);
        assert(combo_bits(ground, c) == x | (1u32 << g));
        assert(((g as int) as u32) == g);
        assert forall|t: int| e <= t < 32 implies !#[trigger] bit(combo_bits(ground, c), t) by {
            assert(bit(x, t) == false);
            assert(t != g);
            assert(bit(x | (1u32 << ((g as int) as u32)), t) == (bit(x, t) || t == g as int));
        }
    } else {
        lemma_bits_zero();
    }
}

/// Every combination of positions below `w` stays below `w`.
pub proof fn lemma_combos_in_range(start: int, t: nat, w: int)
    requires
        0 <= start,
        w <= 32,
    ensures
        forall|i: int, q: int|
            0 <= i < combos_from(start, t, w).len() && 0 <= q < combos_from(start, t, w)[i].len()
                ==> start <= #[trigger] combos_from(start, t, w)[i][q] < w,
        forall|i: int| 0 <= i < combos_from(start, t, w).len() ==> #[trigger] combos_from(start, t, w)[i].len() == t,
    decreases w - start, t,
{
    if t == 0 {
    } else if start >= w || start < 0 {
    } else {
        lemma_combos_in_range(start + 1, (t - 1) as nat, w);
        lemma_combos_in_range(start + 1, t, w);
        let a = combos_from(start + 1, (t - 1) as nat, w);
        let b = combos_from(start + 1, t, w);
        let am = a.map_values(|c: Seq<usize>| seq![start as usize] + c);
        let all = combos_from(start, t, w);
        assert(all == am + b);
        assert forall|i: int, q: int| 0 <= i < all.len() && 0 <= q < all[i].len() implies start <= #[trigger] all[i][q] < w by {
            if i < am.len() {
                assert(all[i] == seq![start as usize] + a[i]);
                if q > 0 {
                    assert(all[i][q] == a[i][q - 1]);
                    assert(start + 1 <= a[i][q - 1] < w);
                } else {
                    assert(all[i][0] == start as usize);
                }
            } else {
                assert(all[i] == b[i - am.len()]);
            }
        }
        assert forall|i: int| 0 <= i < all.len() implies #[trigger] all[i].len() == t by {
            if i < am.len() {
                assert(all[i] == seq![start as usize] + a[i]);
            } else {
                assert(all[i] == b[i - am.len()]);
            }
        }
    }
}


/// Every combination is strictly increasing and below `w`.
pub proof fn lemma_combos_sorted(start: int, t: nat, w: int)
    requires
        0 <= start,
        w <= 32,
    ensures
        forall|i: int| 0 <= i < combos_from(start, t, w).len() ==> is_combo(#[trigger] combos_from(start, t, w)[i], w),
    decreases w - start, t,
{
    lemma_combos_in_range(start, t, w);
    if t == 0 {
    } else if start >= w || start < 0 {
    } else {
        lemma_combos_sorted(start + 1, (t - 1) as nat, w);
        lemma_combos_sorted(start + 1, t, w);
        lemma_combos_in_range(start + 1, (t - 1) as nat, w);
        let a = combos_from(start + 1, (t - 1) as nat, w);
        let b = combos_from(start + 1, t, w);
        let am = a.map_values(|c: Seq<usize>| seq![start as usize] + c);
        let all = combos_from(start, t, w);
        assert(all == am + b);
        assert forall|i: int| 0 <= i < all.len() implies is_combo(#[trigger] all[i], w) by {
            if i < am.len() {
                let ci = all[i];
                assert(ci == seq![start as usize] + a[i]);
                assert(is_combo(a[i], w));
                assert forall|x: int, y: int| 0 <= x < y < ci.len() implies ci[x] < ci[y] by {
                    if x == 0 {
                        assert(ci[y] == a[i][y - 1]);
                        assert(start + 1 <= a[i][y - 1]);
                    } else {
                        assert(ci[x] == a[i][x - 1]);
                        assert(ci[y] == a[i][y - 1]);
                    }
                }
                assert forall|x: int| 0 <= x < ci.len() implies #[trigger] ci[x] < w by {
                    if x > 0 {
                        assert(ci[x] == a[i][x - 1]);
                    }
                }
            } else {
                assert(all[i] == b[i - am.len()]);
            }
        }
    }
}

/// Advance `combo` (strictly increasing indices into `0..w`) to the next
/// combination in lexicographic order. Returns false when exhausted.
pub fn next_combination(combo: &mut Vec<usize>, w: usize) -> (more: bool)
    requires
        is_combo(old(combo)@, w as int),
    ensures
        more ==> is_combo(final(combo)@, w as int) && is_successor(old(combo)@, final(combo)@, w as int),
        !more ==> final(combo)@ == old(combo)@ && is_last_combo(old(combo)@, w as int),
{
    let t = combo.len();
    proof {
        lemma_combo_bounds(combo@, w as int);
    }
    if t == 0 {
        return false;
    }
    let ghost orig = combo@;
    let mut i = t;
    loop
        invariant
            combo@ == orig,
            orig == old(combo)@,
            is_combo(orig, w as int),
            t == orig.len(),
            t <= w,
            0 < t,
            i <= t,
            forall|q: int| 0 <= q < orig.len() ==> q <= #[trigger] orig[q] <= w - orig.len() + q,
            forall|q: int| i <= q < t ==> #[trigger] orig[q] == w - t + q,
        decreases i,
    {
        if i == 0 {
            return false;
        }
        i -= 1;
        if combo[i] < w - t + i {
            let v = combo[i] + 1;
            combo.set(i, v);
            let mut j = i + 1;
            while j < t
                invariant
                    combo@.len() == t,
                    orig.len() == t,
                    orig == old(combo)@,
                    t <= w,
                    i < j <= t,
                    orig[i as int] < w - t + i,
                    forall|q: int| 0 <= q < orig.len() ==> q <= #[trigger] orig[q] <= w - orig.len() + q,
                    is_combo(orig, w as int),
                    forall|q: int| 0 <= q < i ==> #[trigger] combo@[q] == orig[q],
                    forall|q: int| i <= q < j ==> #[trigger] combo@[q] == orig[i as int] + 1 + (q - i),
                decreases t - j,
            {
                let pv = combo[j - 1];
                combo.set(j, pv + 1);
                j += 1;
            }
            proof {
                assert(orig[i as int] < w - orig.len() + i);
                assert forall|q: int| i < q < orig.len() implies #[trigger] orig[q] == w - orig.len() + q by {}
                assert forall|a: int, b: int| 0 <= a < b < combo@.len() implies combo@[a] < combo@[b] by {
                    if b < i {
                    } else if a < i {
                        assert(orig[a] < orig[i as int]);
                    }
                }
                assert forall|q: int| 0 <= q < combo@.len() implies #[trigger] combo@[q] < w by {
                    if q < i {
                    } else {
                    }
                }
                assert(is_successor(orig, combo@, w as int));
            }
            return true;
        }
    }
}


/// Positions `i..e` that are not in `lambda`, ascending.
pub open spec fn ground_of(lambda: u32, i: int, e: int) -> Seq<u32>
    decreases e - i,
{
    if i >= e || i < 0 {
        Seq::empty()
    } else {
        (if bit(lambda, i) { Seq::empty() } else { seq![i as u32] }) + ground_of(lambda, i + 1, e)
    }
}

proof fn lemma_ground_of(lambda: u32, i: int, e: int)
    requires
        0 <= i <= e <= 32,
    ensures
        forall|q: int| 0 <= q < ground_of(lambda, i, e).len() ==> i <= #[trigger] ground_of(lambda, i, e)[q] < e,
        ground_of(lambda, i, e).len() <= e - i,
    decreases e - i,
{
    if i < e {
        lemma_ground_of(lambda, i + 1, e);
        let g = ground_of(lambda, i, e);
        let r = ground_of(lambda, i + 1, e);
        if bit(lambda, i) {
            assert(g =~= r);
        } else {
            assert(g == seq![i as u32] + r);
            assert forall|q: int| 0 <= q < g.len() implies i <= #[trigger] g[q] < e by {
                if q > 0 {
                    assert(g[q] == r[q - 1]);
                }
            }
        }
    }
}

/// One cell of a link region: an `O_k` vertex plus the `t`-subset (as a
/// bitmask over positions in the sorted ground set `[2k] \ λ`) that
/// generated it.
#[derive(Clone, Copy, Debug)]
pub struct LinkCell {
    pub vertex: u32,
    pub vmask: u32,
    pub points: u32,
}

// ---------------------------------------------------------------------------
// Combi: everything derived from k
// ---------------------------------------------------------------------------

#[derive(Clone)]
pub struct Combi {
    /// The problem parameter. Always even, 2..=16.
    pub k: u32,
    /// Ground set size, `2k - 1`.
    pub n: u32,
    /// Vertex subset size, `k - 1`.
    pub r: u32,
    /// Number of colours, `k + 1`. Never configurable.
    pub colors: u32,
    /// `C(2k-1, k-1)`.
    pub num_vertices: u64,
    /// Perfect-code size, `|V| / (k+1)`.
    pub m: u64,
    /// Bitmask of `[n]`.
    pub full: u32,
    pub binom: Binom,
    /// The colex rank tables.
    pub tables: RankTables,
}

/// Colex rank split into a 16-bit low table and a (popcount of the low half,
/// 15-bit high half) table, so a rank is two array reads.
#[derive(Clone)]
pub struct RankTables {
    low_rank: Vec<u32>,
    high_rank: Vec<u32>,
}

impl RankTables {
    /// The low table holds the colex contribution of every 16-bit low half
    /// and, when `n > 16`, the high table that of every high half after `p`
    /// low bits.
    pub closed spec fn wf(&self, n: u32) -> bool {
        &&& self.low_rank@.len() == 65536
        &&& forall|x: int| 0 <= x < 65536 ==> #[trigger] self.low_rank@[x] == colex(x as u32)
        &&& n > 16 ==> {
            &&& self.high_rank@.len() == 17 * 32768
            &&& forall|p: int, h: int|
                0 <= p <= 16 && 0 <= h < 32768 ==> #[trigger] hi_entry(self.high_rank@, p, h)
                    == colex_from(((h as u32) << 16u32) as u32, 16, p as nat)
        }
    }
}

/// High-table entry `(p, h)` of a flattened table with rows of `HI_SIZE`.
pub open spec fn hi_entry(t: Seq<u32>, p: int, h: int) -> u32 {
    t[p * 32768 + h]
}

/// The valid `k`: even, `2..=16`.
pub open spec fn valid_k(k: u32) -> bool {
    2 <= k <= 16 && k % 2 == 0
}

impl Combi {
    /// The derived constants as functions of `k`.
    pub open spec fn params_ok(&self) -> bool {
        &&& valid_k(self.k)
        &&& self.n == 2 * self.k - 1
        &&& self.r == self.k - 1
        &&& self.colors == self.k + 1
        &&& self.num_vertices == binom(self.n as nat, self.r as nat)
        &&& self.m == self.num_vertices / (self.colors as u64)
        &&& self.full == low_mask(self.n)
        &&& self.binom.wf()
    }

    pub open spec fn wf(&self) -> bool {
        self.params_ok() && self.tables.wf(self.n)
    }

    /// A valid vertex mask: `r` bits, all below `n`.
    pub open spec fn is_vertex(&self, mask: u32) -> bool {
        popcount(mask) == self.r && below(mask, self.n as int)
    }

    /// Reject odd `k` here, at construction, with the structure-theorem
    /// reason; and `k` outside `2..=16`.
    pub fn new(k: u32) -> (res: Result<Combi, CombiError>)
        ensures
            match res {
                Ok(c) => c.wf() && c.k == k && valid_k(k),
                Err(CombiError::OutOfRange { k: kk }) => kk == k && (k < 2 || k > 16),
                Err(CombiError::Odd { k: kk }) => kk == k && 2 <= k <= 16 && k % 2 == 1,
            },
    {
        if k < 2 || k > 16 {
            return Err(CombiError::OutOfRange { k });
        }
        if k % 2 != 0 {
            return Err(CombiError::Odd { k });
        }
        let binom = Binom::new();
        let n = 2 * k - 1;
        let r = k - 1;
        let num_vertices = binom.c(n, r);
        let colors = k + 1;
        let m = num_vertices / colors as u64;
        let full = if n >= 32 {
            u32::MAX
        } else {
            proof {
                assert((1u32 << n) >= 1) by (bit_vector)
                    requires
                        n < 32,
                ;
            }
            (1u32 << n) - 1
        };
        let mut low_rank: Vec<u32> = Vec::new();
        let mut x: usize = 0;
        while x < LO_SIZE
            invariant
                binom.wf(),
                x <= 65536,
                low_rank@.len() == x,
                forall|y: int| 0 <= y < x ==> #[trigger] low_rank@[y] == colex(y as u32),
            decreases 65536 - x,
        {
            let v = colex_partial(&binom, x as u32, 0, 0);
            low_rank.push(v);
            x += 1;
        }
        let mut high_rank: Vec<u32> = Vec::new();
        if n > LO_BITS {
            let mut p: u32 = 0;
            while p <= LO_BITS
                invariant
                    binom.wf(),
                    p <= 17,
                    high_rank@.len() == p * 32768,
                    forall|q: int, h: int|
                        0 <= q < p && 0 <= h < 32768 ==> #[trigger] hi_entry(high_rank@, q, h)
                            == colex_from(((h as u32) << 16u32) as u32, 16, q as nat),
                decreases 17 - p,
            {
                let mut h: usize = 0;
                while h < HI_SIZE
                    invariant
                        binom.wf(),
                        p <= 16,
                        h <= 32768,
                        high_rank@.len() == p * 32768 + h,
                        forall|q: int, hh: int|
                            0 <= q < p && 0 <= hh < 32768 ==> #[trigger] hi_entry(high_rank@, q, hh)
                                == colex_from(((hh as u32) << 16u32) as u32, 16, q as nat),
                        forall|hh: int|
                            0 <= hh < h ==> #[trigger] hi_entry(high_rank@, p as int, hh)
                                == colex_from(((hh as u32) << 16u32) as u32, 16, p as nat),
                    decreases 32768 - h,
                {
                    let ghost before = high_rank@;
                    let v = colex_partial(&binom, (h as u32) << LO_BITS, LO_BITS, p);
                    high_rank.push(v);
                    proof {
                        assert forall|q: int, hh: int|
                            0 <= q < p && 0 <= hh < 32768 implies #[trigger] hi_entry(high_rank@, q, hh)
                                == colex_from(((hh as u32) << 16u32) as u32, 16, q as nat) by {
                            assert(hi_entry(before, q, hh) == hi_entry(high_rank@, q, hh));
                        }
                        assert forall|hh: int|
                            0 <= hh < h + 1 implies #[trigger] hi_entry(high_rank@, p as int, hh)
                                == colex_from(((hh as u32) << 16u32) as u32, 16, p as nat) by {
                            if hh < h {
                                assert(hi_entry(before, p as int, hh) == hi_entry(high_rank@, p as int, hh));
                            }
                        }
                    }
                    h += 1;
                }
                p += 1;
            }
        }
        let c = Combi { k, n, r, colors, num_vertices, m, full, binom, tables: RankTables { low_rank, high_rank } };
        proof {
            assert(c.full == low_mask(n)) by {
                if n >= 32 {
                } else {
                }
            }
        }
        Ok(c)
    }

    // -- ranking ------------------------------------------------------------

    /// Colex rank, table driven. `mask` must have every bit below `n`.
    pub fn rank(&self, mask: u32) -> (v: u32)
        requires
            self.wf(),
            below(mask, self.n as int),
        ensures
            v == colex(mask),
    {
        let lo = mask & 0xFFFF;
        let hi = mask >> LO_BITS;
        proof {
            lemma_bits_low(mask);
            assert(lo < 65536) by (bit_vector)
                requires
                    lo == mask & 0xFFFF,
            ;
            lemma_colex_split(mask, lo, 16, 0, 0);
            lemma_colex_fits(mask, 0, 0);
        }
        let mut v = self.tables.low_rank[lo as usize];
        assert(v == colex(lo));
        if hi != 0 {
            let pc = count_ones32(lo);
            proof {
                assert(self.n > 16) by {
                    if self.n <= 16 {
                        assert forall|t: int| 16 <= t < 32 implies !#[trigger] bit(mask, t) by {}
                        lemma_hi_zero(mask);
                    }
                }
                assert(!bit(mask, 31));
                assert(hi < 32768) by (bit_vector)
                    requires
                        hi == mask >> 16,
                        (mask >> 31u32) & 1 != 1,
                ;
                lemma_colex_skip(lo, 16, 32, 0);
                lemma_pop_split_bound(lo, 0, 16);
                let hs = ((hi as u32) << 16u32) as u32;
                assert(hs == (mask >> 16) << 16);
                assert forall|t: int| 16 <= t < 32 implies #[trigger] bit(hs, t) == bit(mask, t) by {}
                lemma_colex_agree(hs, mask, 16, pc as nat);
                assert(hi_entry(self.tables.high_rank@, pc as int, hi as int) == colex_from(hs, 16, pc as nat));
            }
            v += self.tables.high_rank[pc as usize * HI_SIZE + hi as usize];
        } else {
            proof {
                assert forall|t: int| 16 <= t < 32 implies !#[trigger] bit(mask, t) by {
                    lemma_hi_zero_bits(mask, t as u32);
                }
                lemma_colex_skip(mask, 16, 32, pop_from(lo, 0));
            }
        }
        v
    }

    /// Reference implementation of the colex rank straight from the
    /// definition `rank(S) = sum_i C(s_i, i+1)`.
    pub fn rank_ref(&self, mask: u32) -> (v: u32)
        requires
            self.binom.wf(),
        ensures
            v == colex(mask),
    {
        colex_partial(&self.binom, mask, 0, 0)
    }

    /// Greedy colex unranking, top index down.
    pub fn unrank(&self, idx: u32) -> (mask: u32)
        requires
            self.params_ok(),
            idx < self.num_vertices,
        ensures
            colex(mask) == idx,
            self.is_vertex(mask),
            forall|m: u32| #[trigger] self.is_vertex(m) && colex(m) == idx ==> m == mask,
    {
        let mask = colex_unrank(&self.binom, self.n, self.r, idx as u64);
        proof {
            assert forall|m: u32| #[trigger] self.is_vertex(m) && colex(m) == idx implies m == mask by {
                crate::bits::lemma_colex_injective(m, mask);
            }
        }
        mask
    }


    // -- structure theorem --------------------------------------------------

    /// Exact numerators of `N_j` over the common denominator `k+1`:
    /// `C(k,j) * (C(k,j) + (-1)^(k+j) * k)`, for `j = 0..=k`.
    pub fn n_num(&self) -> (v: Vec<i128>)
        requires
            self.params_ok(),
        ensures
            v@.len() == self.k + 1,
            forall|j: int| 0 <= j <= self.k ==> #[trigger] v@[j] == n_num_spec(self.k as nat, j as nat),
            forall|j: int| 0 <= j <= self.k ==> -5_000_000_000 < #[trigger] v@[j] < 5_000_000_000,
    {
        let mut out: Vec<i128> = Vec::new();
        let k = self.k as i128;
        let mut j: u32 = 0;
        while j <= self.k
            invariant
                self.params_ok(),
                k == self.k,
                j <= self.k + 1,
                out@.len() == j,
                forall|q: int| 0 <= q < j ==> #[trigger] out@[q] == n_num_spec(self.k as nat, q as nat),
                forall|q: int| 0 <= q < j ==> -5_000_000_000 < #[trigger] out@[q] < 5_000_000_000,
            decreases self.k + 1 - j,
        {
            let c = self.binom.c(self.k, j) as i128;
            let s: i128 = if (self.k + j) % 2 == 0 { 1 } else { -1 };
            proof {
                lemma_num_bounds(self.k as nat, j as nat);
                lemma_small_binom(self.k as nat, j as nat);
            }
            assert(s == sign(self.k as int, j as int));
            assert(-70000 < c + s * k < 70000);
            assert(-5_000_000_000 < c * (c + s * k) < 5_000_000_000) by (nonlinear_arith)
                requires
                    0 <= c < 65536,
                    -70000 < c + s * k < 70000,
            ;
            let x = c * (c + s * k);
            out.push(x);
            j += 1;
        }
        out
    }

    /// Exact numerators of `M_j` over `k+1`: `C(k,j) * (C(k,j) - (-1)^(k+j))`.
    pub fn m_num(&self) -> (v: Vec<i128>)
        requires
            self.params_ok(),
        ensures
            v@.len() == self.k + 1,
            forall|j: int| 0 <= j <= self.k ==> #[trigger] v@[j] == m_num_spec(self.k as nat, j as nat),
            forall|j: int| 0 <= j <= self.k ==> -5_000_000_000 < #[trigger] v@[j] < 5_000_000_000,
    {
        let mut out: Vec<i128> = Vec::new();
        let mut j: u32 = 0;
        while j <= self.k
            invariant
                self.params_ok(),
                j <= self.k + 1,
                out@.len() == j,
                forall|q: int| 0 <= q < j ==> #[trigger] out@[q] == m_num_spec(self.k as nat, q as nat),
                forall|q: int| 0 <= q < j ==> -5_000_000_000 < #[trigger] out@[q] < 5_000_000_000,
            decreases self.k + 1 - j,
        {
            let c = self.binom.c(self.k, j) as i128;
            let s: i128 = if (self.k + j) % 2 == 0 { 1 } else { -1 };
            proof {
                lemma_num_bounds(self.k as nat, j as nat);
                lemma_small_binom(self.k as nat, j as nat);
            }
            assert(s == sign(self.k as int, j as int));
            assert(-5_000_000_000 < c * (c - s) < 5_000_000_000) by (nonlinear_arith)
                requires
                    0 <= c < 65536,
                    -2 < s < 2,
            ;
            let x = c * (c - s);
            out.push(x);
            j += 1;
        }
        out
    }

    /// `N_j = C(k,j) * (C(k,j) + (-1)^(k+j) * k) / (k+1)`: blocks of the
    /// *same* class meeting a fixed block of that class in exactly `j`
    /// points. Not integral at `k = 8` and `k = 14`; there this is the floor,
    /// which stays a sound Rule D bound.
    pub fn n_dist(&self) -> (v: Vec<u64>)
        requires
            self.params_ok(),
        ensures
            v@.len() == self.k + 1,
            forall|j: int|
                0 <= j <= self.k ==> #[trigger] v@[j] == floor_pos(
                    n_num_spec(self.k as nat, j as nat),
                    self.k + 1,
                ),
    {
        let nums = self.n_num();
        floors(&nums, self.k)
    }

    /// `M_j = C(k,j) * (C(k,j) - (-1)^(k+j)) / (k+1)`: blocks of one *other*
    /// class meeting a fixed block in exactly `j` points. Same integrality
    /// caveat as `n_dist`.
    pub fn m_dist(&self) -> (v: Vec<u64>)
        requires
            self.params_ok(),
        ensures
            v@.len() == self.k + 1,
            forall|j: int|
                0 <= j <= self.k ==> #[trigger] v@[j] == floor_pos(
                    m_num_spec(self.k as nat, j as nat),
                    self.k + 1,
                ),
    {
        let nums = self.m_num();
        floors(&nums, self.k)
    }

    /// The `j` at which `N_j` or `M_j` fails to be an integer, `N` entries
    /// first. A non-empty result proves that no `S(k-1,k,2k)` exists.
    pub fn divisibility_obstruction(&self) -> (v: Vec<(char, u32, i128)>)
        requires
            self.params_ok(),
        ensures
            v@ == obstruction(self.k as nat),
    {
        let nn = self.n_num();
        let mn = self.m_num();
        let mut out: Vec<(char, u32, i128)> = Vec::new();
        push_obstruction(&mut out, &nn, 'N', self.k);
        push_obstruction(&mut out, &mn, 'M', self.k);
        proof {
            assert(out@ == Seq::<(char, u32, i128)>::empty() + obstruction_from(self.k as nat, 'N', 0)
                + obstruction_from(self.k as nat, 'M', 0));
        }
        out
    }

    /// Whether every `N_j` and `M_j` is an integer.
    pub fn distribution_integral(&self) -> (b: bool)
        requires
            self.params_ok(),
        ensures
            b == (obstruction(self.k as nat).len() == 0),
    {
        self.divisibility_obstruction().len() == 0
    }

    /// `Cat(k) = C(2k,k)/(k+1)`, the size of a colour class in `J(2k,k)`.
    pub fn catalan(&self) -> (v: u64)
        requires
            self.params_ok(),
        ensures
            v == binom(2 * self.k as nat, self.k as nat) / (self.k + 1) as nat,
    {
        self.binom.c(2 * self.k, self.k) / (self.k as u64 + 1)
    }

    /// Rule D targets, indexed by `a = 0..=k-2`: `c_a + c_{k-2-a} = N_{a+1}`.
    pub fn rule_d_targets(&self) -> (v: Vec<u64>)
        requires
            self.params_ok(),
        ensures
            v@.len() == self.k - 1,
            forall|a: int|
                0 <= a <= self.k - 2 ==> #[trigger] v@[a] == floor_pos(
                    n_num_spec(self.k as nat, (a + 1) as nat),
                    self.k + 1,
                ),
    {
        let n = self.n_dist();
        shift_down(&n, self.k)
    }

    /// Rule E targets, indexed by `a = 0..=k-2`: `d_a + d_{k-2-a} = M_{a+1}`.
    pub fn rule_e_targets(&self) -> (v: Vec<u64>)
        requires
            self.params_ok(),
        ensures
            v@.len() == self.k - 1,
            forall|a: int|
                0 <= a <= self.k - 2 ==> #[trigger] v@[a] == floor_pos(
                    m_num_spec(self.k as nat, (a + 1) as nat),
                    self.k + 1,
                ),
    {
        let m = self.m_dist();
        shift_down(&m, self.k)
    }

    /// Whether Rules D/E should test intersection size `a`. `a ∈ {0, k-2}` is
    /// implied by Rule B and can never fire.
    pub fn rule_de_active(&self, a: u32) -> (b: bool)
        requires
            self.params_ok(),
        ensures
            b == (1 <= a && a + 1 <= self.k - 2),
    {
        a >= 1 && a < self.k - 2
    }

    // -- link regions -------------------------------------------------------

    /// Valid link levels are `1 <= t <= k-1`.
    pub fn valid_link_level(&self, t: u32) -> (b: bool)
        ensures
            b == (1 <= t && t < self.k),
    {
        t >= 1 && t < self.k
    }

    /// Clamp a requested link level into `1..=k-1`.
    pub fn clamp_link_level(&self, t: u32) -> (v: u32)
        requires
            self.params_ok(),
        ensures
            v == (if t < 1 { 1 } else if t > self.k - 1 { (self.k - 1) as u32 } else { t }),
    {
        if t < 1 {
            1
        } else if t > self.k - 1 {
            self.k - 1
        } else {
            t
        }
    }

    /// Number of `O_k` vertices in a level-`t` link region: `C(k+t, t)`.
    pub fn link_size(&self, t: u32) -> (v: u64)
        requires
            self.params_ok(),
        ensures
            v == (if 1 <= t < self.k { binom((self.k + t) as nat, t as nat) } else { 0 }),
    {
        if !self.valid_link_level(t) {
            return 0;
        }
        self.binom.c(self.k + t, t)
    }

    /// Number of distinct `λ` at level `t`: the `(k-t)`-subsets of `[2k]`.
    pub fn link_count(&self, t: u32) -> (v: u64)
        requires
            self.params_ok(),
        ensures
            v == (if 1 <= t < self.k { binom(2 * self.k as nat, (self.k - t) as nat) } else { 0 }),
    {
        if !self.valid_link_level(t) {
            return 0;
        }
        self.binom.c(2 * self.k, self.k - t)
    }

    /// Unrank a `(k-t)`-subset of `[2k]` (colex) as a bitmask over `[2k]`.
    pub fn unrank_lambda(&self, t: u32, idx: u64) -> (mask: u32)
        requires
            self.params_ok(),
            1 <= t < self.k ==> (idx as nat) < binom(2 * self.k as nat, (self.k - t) as nat),
        ensures
            1 <= t < self.k ==> colex(mask) == idx && popcount(mask) == self.k - t && below(
                mask,
                2 * self.k,
            ),
            !(1 <= t < self.k) ==> mask == 0,
    {
        if !self.valid_link_level(t) {
            return 0;
        }
        colex_unrank(&self.binom, 2 * self.k, self.k - t, idx)
    }

    /// Map a `k`-subset `s` of `[2k]` to its `O_k` vertex mask. With
    /// `∞ = 2k-1`: if `∞ ∈ s` the vertex is `s \ {∞}`, else it is `V \ s`.
    pub fn block_to_vertex(&self, s: u32) -> (v: u32)
        requires
            self.params_ok(),
        ensures
            v == self.block_vertex(s),
    {
        let inf = 1u32 << (2 * self.k - 1);
        proof {
            let t = (2 * self.k - 1) as u32;
            assert(((s & (1u32 << t)) != 0) == ((s >> t) & 1 == 1)) by (bit_vector)
                requires
                    t < 32,
            ;
        }
        if s & inf != 0 {
            s & !inf
        } else {
            self.full & !s
        }
    }


    /// The `O_k` vertex of the `k`-subset `s` of `[2k]`.
    pub open spec fn block_vertex(&self, s: u32) -> u32 {
        if bit(s, 2 * self.k - 1) {
            s & !(1u32 << (2 * self.k - 1) as u32)
        } else {
            self.full & !s
        }
    }

    /// The cell produced from ground bits `b` and position bits `p`.
    pub open spec fn cell_of(&self, lambda: u32, pair: (u32, u32)) -> LinkCell {
        let vm = self.block_vertex(lambda | pair.0);
        LinkCell { vertex: colex(vm) as u32, vmask: vm, points: pair.1 }
    }

    /// The `O_k` vertices of the level-`t` link region of `λ`, one per
    /// `t`-subset `B` of the ground set `[2k] \ λ`, in lexicographic order of
    /// `B`, together with `B` as a position bitmask.
    pub fn link_region(&self, lambda: u32, t: u32) -> (out: Vec<LinkCell>)
        requires
            self.wf(),
            below(lambda, 2 * self.k),
        ensures
            ({
                let pairs = combo_pairs(ground_of(lambda, 0, 2 * self.k), Seq::empty(), 0, t as nat);
                &&& out@.len() == pairs.len()
                &&& forall|i: int| 0 <= i < out@.len() ==> #[trigger] out@[i] == self.cell_of(lambda, pairs[i])
            }),
    {
        let e = 2 * self.k;
        let mut ground: Vec<u32> = Vec::new();
        let mut i: u32 = 0;
        while i < e
            invariant
                e == 2 * self.k,
                e <= 32,
                i <= e,
                ground@ + ground_of(lambda, i as int, e as int) == ground_of(lambda, 0, e as int),
            decreases e - i,
        {
            let ghost before = ground@;
            assert(((lambda >> i) & 1 == 0) || ((lambda >> i) & 1 == 1)) by (bit_vector);
            if (lambda >> i) & 1 == 0 {
                ground.push(i);
                assert(ground_of(lambda, i as int, e as int) == seq![i] + ground_of(lambda, i as int + 1, e as int));
                assert(ground@ + ground_of(lambda, i as int + 1, e as int) == before + ground_of(lambda, i as int, e as int));
            } else {
                assert(ground_of(lambda, i as int, e as int) =~= ground_of(lambda, i as int + 1, e as int));
            }
            i += 1;
        }
        let ghost g = ground_of(lambda, 0, e as int);
        proof {
            assert(ground@ =~= g);
            lemma_ground_of(lambda, 0, e as int);
        }
        let mut out: Vec<LinkCell> = Vec::new();
        let w = ground.len();
        if (t as usize) > w {
            proof {
                if t > 0 {
                    lemma_combos_empty(0, t as nat, w as int);
                }
            }
            return out;
        }
        let mut pairs: Vec<(u32, u32)> = Vec::new();
        proof {
            assert(combo_bits(ground@, Seq::empty()) == 0);
            assert(pos_bits(Seq::empty()) == 0);
        }
        gen_combos(&ground, 0, t as usize, 0, 0, &mut pairs, Ghost(Seq::empty()));
        proof {
            assert(pairs@ =~= combo_pairs(g, Seq::empty(), 0, t as nat));
            lemma_combos_in_range(0, t as nat, w as int);
        }
        let mut j: usize = 0;
        while j < pairs.len()
            invariant
                self.wf(),
                below(lambda, 2 * self.k),
                e == 2 * self.k,
                ground@ == g,
                w == g.len(),
                forall|q: int| 0 <= q < g.len() ==> #[trigger] g[q] < e,
                pairs@ == combo_pairs(g, Seq::empty(), 0, t as nat),
                forall|a: int, q: int|
                    0 <= a < combos_from(0, t as nat, w as int).len() && 0 <= q < combos_from(0, t as nat, w as int)[a].len()
                        ==> 0 <= #[trigger] combos_from(0, t as nat, w as int)[a][q] < w,
                j <= pairs@.len(),
                out@.len() == j,
                forall|q: int| 0 <= q < j ==> #[trigger] out@[q] == self.cell_of(lambda, pairs@[q]),
            decreases pairs@.len() - j,
        {
            let (b, p) = pairs[j];
            let ghost c = combos_from(0, t as nat, w as int)[j as int];
            proof {
                assert(Seq::<usize>::empty() + c =~= c);
                assert(b == combo_bits(g, c));
                assert forall|q: int| 0 <= q < c.len() implies #[trigger] c[q] < g.len() by {
                    assert(0 <= combos_from(0, t as nat, w as int)[j as int][q] < w);
                }
                lemma_combo_bits_below(g, c, e as int);
                crate::bits::lemma_bits_logic(lambda, b);
            }
            let sm = lambda | b;
            let vmask = self.block_to_vertex(sm);
            proof {
                let inf = (2 * self.k - 1) as int;
                crate::bits::lemma_bit_cleared(sm, inf);
                crate::bits::lemma_bits_logic(self.full, sm);
                crate::bits::lemma_low_mask(self.n);
                assert forall|q: int| self.n <= q < 32 implies !#[trigger] bit(vmask, q) by {
                    if bit(sm, inf) {
                        assert(bit(vmask, q) == (bit(sm, q) && q != inf));
                    } else {
                        assert(bit(vmask, q) == (bit(self.full, q) && !bit(sm, q)));
                    }
                }
            }
            let vertex = self.rank(vmask);
            out.push(LinkCell { vertex, vmask, points: p });
            j += 1;
        }
        out
    }

    /// Every `size`-subset of the positions `0..w`, as position bitmasks, in
    /// lexicographic order.
    pub fn link_subsets(&self, w: usize, size: usize) -> (out: Vec<u32>)
        requires
            w <= 32,
        ensures
            out@.len() == combos_from(0, size as nat, w as int).len(),
            forall|i: int| 0 <= i < out@.len() ==> #[trigger] out@[i] == pos_bits(combos_from(0, size as nat, w as int)[i]),
    {
        let mut ground: Vec<u32> = Vec::new();
        let mut i: usize = 0;
        while i < w
            invariant
                i <= w <= 32,
                ground@.len() == i,
                forall|q: int| 0 <= q < i ==> #[trigger] ground@[q] == q,
            decreases w - i,
        {
            ground.push(i as u32);
            i += 1;
        }
        let mut pairs: Vec<(u32, u32)> = Vec::new();
        proof {
            assert(combo_bits(ground@, Seq::empty()) == 0);
            assert(pos_bits(Seq::empty()) == 0);
        }
        gen_combos(&ground, 0, size, 0, 0, &mut pairs, Ghost(Seq::empty()));
        let mut out: Vec<u32> = Vec::new();
        let mut j: usize = 0;
        while j < pairs.len()
            invariant
                ground@.len() == w,
                pairs@ == combo_pairs(ground@, Seq::empty(), 0, size as nat),
                j <= pairs@.len(),
                out@.len() == j,
                forall|q: int| 0 <= q < j ==> #[trigger] out@[q] == pos_bits(combos_from(0, size as nat, w as int)[q]),
            decreases pairs@.len() - j,
        {
            let (_b, p) = pairs[j];
            proof {
                let c = combos_from(0, size as nat, w as int)[j as int];
                assert(Seq::<usize>::empty() + c =~= c);
            }
            out.push(p);
            j += 1;
        }
        out
    }

    // -- adjacency ----------------------------------------------------------

    /// The `k` neighbours of `mask`: the complement of `mask` in `[n]` has
    /// exactly `k` bits, and dropping each in turn gives every `(k-1)`-subset
    /// disjoint from `mask`.
    pub fn neighbors(&self, mask: u32) -> (it: NeighborIter)
        ensures
            it.remaining() == drop_each_from(self.full & !mask, 0),
    {
        let comp = self.full & !mask;
        NeighborIter { comp, rest: comp }
    }

    /// The `k+1` masks of the closed neighbourhood `N[center]`, centre first.
    pub fn closed_nbhd_masks(&self, center: u32) -> (out: Vec<u32>)
        ensures
            out@ == seq![center] + drop_each_from(self.full & !center, 0),
    {
        let mut out: Vec<u32> = Vec::new();
        out.push(center);
        let mut it = self.neighbors(center);
        let ghost all = it.remaining();
        loop
            invariant
                out@ + it.remaining() == seq![center] + all,
                all == drop_each_from(self.full & !center, 0),
            decreases it.remaining().len(),
        {
            let ghost before = it.remaining();
            let ghost out0 = out@;
            match it.next() {
                Some(x) => {
                    out.push(x);
                    assert(out@ + it.remaining() == out0 + before);
                },
                None => {
                    assert(out@ + it.remaining() == out@);
                    return out;
                },
            }
        }
    }
}

/// Greedy colex unranking of a `size`-subset of `[n]`, top index down.
pub(crate) fn colex_unrank(tab: &Binom, n: u32, size: u32, idx: u64) -> (mask: u32)
    requires
        tab.wf(),
        n <= 32,
        (idx as nat) < binom(n as nat, size as nat),
    ensures
        colex(mask) == idx,
        popcount(mask) == size,
        below(mask, n as int),
{
    let mut rem: u64 = idx;
    let mut mask: u32 = 0;
    let mut i: u32 = size;
    let ghost mut bound: int = n as int;
    proof {
        lemma_bits_zero();
        lemma_colex_empty_tail(0u32, 0, size as nat);
        if size > n {
            lemma_binom_above(n as nat, size as nat);
        }
    }
    while i > 0
        invariant
            tab.wf(),
            n <= 32,
            i <= size,
            0 <= bound <= n,
            (rem as nat) < binom(bound as nat, i as nat),
            forall|t: int| 0 <= t < bound ==> !#[trigger] bit(mask, t),
            below(mask, n as int),
            pop_from(mask, 0) + i == size,
            colex_from(mask, 0, i as nat) + rem == idx,
        decreases i,
    {
        i -= 1;
        let mut s: u32 = i;
        proof {
            lemma_binom_above(i as nat, (i + 1) as nat);
            if bound < i + 1 {
                lemma_binom_above(bound as nat, (i + 1) as nat);
            }
        }
        while tab.c(s + 1, i + 1) <= rem
            invariant
                tab.wf(),
                i <= s,
                s < bound,
                bound <= n,
                n <= 32,
                (rem as nat) < binom(bound as nat, (i + 1) as nat),
                binom(s as nat, (i + 1) as nat) <= rem,
            decreases bound - s,
        {
            proof {
                if s + 1 >= bound {
                    lemma_binom_mono(bound as nat, (s + 1) as nat, (i + 1) as nat);
                }
            }
            s += 1;
        }
        let ghost old_mask = mask;
        proof {
            assert(binom((s + 1) as nat, (i + 1) as nat) == binom(s as nat, i as nat) + binom(
                s as nat,
                (i + 1) as nat,
            ));
            lemma_colex_add_low(mask, s as int, i as nat);
            lemma_bit_set(mask, s as int);
        }
        mask = mask | (1u32 << s);
        rem = rem - tab.c(s, i + 1);
        proof {
            bound = s as int;
            assert forall|t: int| n <= t < 32 implies !#[trigger] bit(mask, t) by {
                assert(bit(mask, t) == (bit(old_mask, t) || t == s));
            }
            assert forall|t: int| 0 <= t < bound implies !#[trigger] bit(mask, t) by {
                assert(bit(mask, t) == (bit(old_mask, t) || t == s));
            }
        }
    }
    proof {
        assert(binom(bound as nat, 0) == 1);
        lemma_pop_bound(mask, 0);
    }
    mask
}

/// `floor_pos(nums[j], k+1)` for every `j`.
fn floors(nums: &Vec<i128>, k: u32) -> (v: Vec<u64>)
    requires
        nums@.len() == k + 1,
        k <= 16,
        forall|j: int| 0 <= j <= k ==> -5_000_000_000 < #[trigger] nums@[j] < 5_000_000_000,
    ensures
        v@.len() == k + 1,
        forall|j: int| 0 <= j <= k ==> #[trigger] v@[j] == floor_pos(nums@[j] as int, k + 1),
{
    let d = k as i128 + 1;
    let mut out: Vec<u64> = Vec::new();
    let mut j: usize = 0;
    while j < nums.len()
        invariant
            nums@.len() == k + 1,
            d == k + 1,
            k <= 16,
            j <= nums@.len(),
            out@.len() == j,
            forall|q: int| 0 <= q <= k ==> -5_000_000_000 < #[trigger] nums@[q] < 5_000_000_000,
            forall|q: int| 0 <= q < j ==> #[trigger] out@[q] == floor_pos(nums@[q] as int, k + 1),
        decreases nums@.len() - j,
    {
        let x = nums[j];
        let y: u64 = if x > 0 {
            let q = x / d;
            assert(0 <= q <= x) by (nonlinear_arith)
                requires
                    x > 0,
                    d >= 1,
                    q == x / d,
            ;
            q as u64
        } else {
            0
        };
        out.push(y);
        j += 1;
    }
    out
}

/// Append the entries of `nums` that are not multiples of `k+1`.
fn push_obstruction(out: &mut Vec<(char, u32, i128)>, nums: &Vec<i128>, which: char, k: u32)
    requires
        nums@.len() == k + 1,
        k <= 16,
        forall|j: int|
            0 <= j <= k ==> #[trigger] nums@[j] == (if which == 'N' {
                n_num_spec(k as nat, j as nat)
            } else {
                m_num_spec(k as nat, j as nat)
            }),
        forall|j: int| 0 <= j <= k ==> -5_000_000_000 < #[trigger] nums@[j] < 5_000_000_000,
    ensures
        final(out)@ == old(out)@ + obstruction_from(k as nat, which, 0),
{
    let d = k as i128 + 1;
    let ghost start = out@;
    let mut j: u32 = 0;
    while j <= k
        invariant
            nums@.len() == k + 1,
            k <= 16,
            d == k + 1,
            j <= k + 1,
            forall|q: int|
                0 <= q <= k ==> #[trigger] nums@[q] == (if which == 'N' {
                    n_num_spec(k as nat, q as nat)
                } else {
                    m_num_spec(k as nat, q as nat)
                }),
            forall|q: int| 0 <= q <= k ==> -5_000_000_000 < #[trigger] nums@[q] < 5_000_000_000,
            out@ + obstruction_from(k as nat, which, j as nat) == start + obstruction_from(
                k as nat,
                which,
                0,
            ),
        decreases k + 1 - j,
    {
        let x = nums[j as usize];
        let ax: i128 = if x < 0 {
            -x
        } else {
            x
        };
        let ghost before = out@;
        let ghost rest = obstruction_from(k as nat, which, (j + 1) as nat);
        assert(ax == abs_int(x as int));
        if ax % d != 0 {
            out.push((which, j, x));
            assert(obstruction_from(k as nat, which, j as nat) == seq![(which, j, x)] + rest);
            assert(out@ + rest == before + (seq![(which, j, x)] + rest));
        } else {
            assert(obstruction_from(k as nat, which, j as nat) == Seq::<(char, u32, i128)>::empty() + rest);
        }
        j += 1;
    }
    assert(obstruction_from(k as nat, which, (k + 1) as nat) == Seq::<(char, u32, i128)>::empty());
}

/// `v[a + 1]` for `a = 0..=k-2`.
fn shift_down(v: &Vec<u64>, k: u32) -> (out: Vec<u64>)
    requires
        v@.len() == k + 1,
        2 <= k,
    ensures
        out@.len() == k - 1,
        forall|a: int| 0 <= a <= k - 2 ==> #[trigger] out@[a] == v@[a + 1],
{
    let mut out: Vec<u64> = Vec::new();
    let mut a: u32 = 0;
    while a + 1 < k
        invariant
            v@.len() == k + 1,
            2 <= k,
            a <= k - 1,
            out@.len() == a,
            forall|q: int| 0 <= q < a ==> #[trigger] out@[q] == v@[q + 1],
        decreases k - a,
    {
        out.push(v[(a + 1) as usize]);
        a += 1;
    }
    out
}

/// Colex contribution of the bits of `x` at positions `start..32` with `j0`
/// set bits preceding them.
pub(crate) fn colex_partial(binom: &Binom, x: u32, start: u32, j0: u32) -> (v: u32)
    requires
        binom.wf(),
        start <= 32,
        j0 <= start,
    ensures
        v == colex_from(x, start as int, j0 as nat),
{
    let mut sum: u32 = 0;
    let mut j: u32 = j0;
    let mut i: u32 = start;
    proof {
        lemma_colex_fits(x, start as int, j0 as nat);
    }
    while i < 32
        invariant
            binom.wf(),
            start <= i <= 32,
            j <= i,
            sum + colex_from(x, i as int, j as nat) == colex_from(x, start as int, j0 as nat),
            colex_from(x, start as int, j0 as nat) <= 0xFFFF_FFFF,
        decreases 32 - i,
    {
        if (x >> i) & 1 == 1 {
            assert(bit(x, i as int));
            let b = binom.c(i, j + 1);
            sum = sum + b as u32;
            j += 1;
        } else {
            assert(!bit(x, i as int));
        }
        i += 1;
    }
    sum
}

proof fn lemma_bits_low(mask: u32)
    ensures
        forall|t: int| 0 <= t < 16 ==> #[trigger] bit(mask & 0xFFFF, t) == bit(mask, t),
        below(mask & 0xFFFF, 16),
        forall|t: int| 16 <= t < 32 ==> #[trigger] bit(((mask >> 16u32) << 16u32) as u32, t) == bit(mask, t),
{
    assert forall|t: int| 0 <= t < 32 implies #[trigger] bit(mask & 0xFFFF, t) == (t < 16 && bit(mask, t)) by {
        lemma_bit_low16(mask, t as u32);
    }
    assert forall|t: int| 0 <= t < 32 implies #[trigger] bit(((mask >> 16u32) << 16u32) as u32, t) == (t >= 16 && bit(mask, t)) by {
        lemma_bit_low16(mask, t as u32);
    }
}

proof fn lemma_hi_zero_bits(mask: u32, t: u32)
    by (bit_vector)
    requires
        mask >> 16u32 == 0,
        16 <= t < 32,
    ensures
        (mask >> t) & 1 != 1,
{
}

proof fn lemma_hi_zero(mask: u32)
    requires
        forall|t: int| 16 <= t < 32 ==> !#[trigger] bit(mask, t),
    ensures
        mask >> 16u32 == 0,
{
    let hs = ((mask >> 16u32) << 16u32) as u32;
    lemma_bits_low(mask);
    lemma_bits_zero();
    assert forall|t: int| 0 <= t < 32 implies #[trigger] bit(hs, t) == bit(0u32, t) by {
        lemma_bit_low16(mask, t as u32);
    }
    lemma_bits_ext(hs, 0u32);
    assert(mask >> 16u32 == 0) by (bit_vector)
        requires
            ((mask >> 16u32) << 16u32) as u32 == 0,
    ;
}

/// Lazily enumerates `base` with each set bit of `rest` removed, lowest bit
/// first.
pub struct NeighborIter {
    comp: u32,
    rest: u32,
}

impl NeighborIter {
    /// The masks still to be produced.
    pub closed spec fn remaining(&self) -> Seq<u32> {
        drops_of(self.comp, self.rest, 0)
    }

    pub fn next(&mut self) -> (res: Option<u32>)
        ensures
            match res {
                None => old(self).remaining().len() == 0 && final(self).remaining() == old(self).remaining(),
                Some(v) => old(self).remaining() == seq![v] + final(self).remaining(),
            },
    {
        if self.rest == 0 {
            proof {
                lemma_bits_zero();
                lemma_drops_skip(self.comp, 0u32, 0, 32);
            }
            return None;
        }
        let p = self.rest.trailing_zeros();
        proof {
            vstd::std_specs::bits::axiom_u32_trailing_zeros(self.rest);
            assert forall|t: int| 0 <= t < p implies !#[trigger] bit(self.rest, t) by {
                assert((self.rest >> (t as u32)) & 1u32 == 0u32);
            }
            lemma_drops_skip(self.comp, self.rest, 0, p as int);
            assert(bit(self.rest, p as int));
            lemma_bit_cleared(self.rest, p as int);
            let r2 = self.rest & !(1u32 << p);
            assert forall|t: int| 0 <= t <= p implies !#[trigger] bit(r2, t) by {}
            lemma_drops_skip(self.comp, r2, 0, p + 1);
            assert forall|t: int| p + 1 <= t < 32 implies #[trigger] bit(r2, t) == bit(self.rest, t) by {}
            lemma_drops_agree(self.comp, r2, self.rest, p + 1);
        }
        let b = 1u32 << p;
        self.rest = self.rest & !b;
        Some(self.comp & !b)
    }
}


// ---------------------------------------------------------------------------
// Laws
// ---------------------------------------------------------------------------

/// The colex rank maps the vertices of `O_k` one to one onto `0..|V|`:
/// every vertex has a rank below `|V|`, and two vertices with one rank are
/// equal. With `unrank`, which finds a vertex of every rank, ranking and
/// unranking undo each other.
pub proof fn law_rank_bijection(c: Combi, a: u32, b: u32)
    requires
        c.params_ok(),
        c.is_vertex(a),
        c.is_vertex(b),
    ensures
        colex(a) < c.num_vertices,
        colex(a) == colex(b) ==> a == b,
{
    crate::bits::lemma_colex_below(a, c.n as int, 0, 0);
    assert(binom(0, 0) == 1);
    if colex(a) == colex(b) {
        crate::bits::lemma_colex_injective(a, b);
    }
}

/// `ground_of(λ, i, e)` holds the positions of `i..e` outside `λ`.
proof fn lemma_ground_len(lambda: u32, i: int, e: int)
    requires
        0 <= i <= e <= 32,
    ensures
        ground_of(lambda, i, e).len() + pop_from(lambda, i) == (e - i) + pop_from(lambda, e),
    decreases e - i,
{
    if i < e {
        lemma_ground_len(lambda, i + 1, e);
        if bit(lambda, i) {
            assert(ground_of(lambda, i, e) =~= ground_of(lambda, i + 1, e));
        }
    }
}

/// In `O_k` every vertex has exactly `k` neighbours, listed once each: the
/// listed masks are pairwise distinct vertices disjoint from it, every
/// vertex disjoint from it is listed, and adjacency is symmetric: `w` is
/// among the neighbours of `u` exactly when `u` is among those of `w`.
pub proof fn law_neighbours(c: Combi, u: u32, w: u32)
    requires
        c.params_ok(),
        c.is_vertex(u),
        c.is_vertex(w),
    ensures
        drop_each_from(c.full & !u, 0).len() == c.k,
        forall|j: int| 0 <= j < drop_each_from(c.full & !u, 0).len() ==>
            c.is_vertex(#[trigger] drop_each_from(c.full & !u, 0)[j]) && drop_each_from(c.full & !u, 0)[j] & u == 0,
        forall|j1: int, j2: int| 0 <= j1 < j2 < drop_each_from(c.full & !u, 0).len() ==>
            #[trigger] drop_each_from(c.full & !u, 0)[j1] != #[trigger] drop_each_from(c.full & !u, 0)[j2],
        drop_each_from(c.full & !u, 0).contains(w) <==> u & w == 0,
        drop_each_from(c.full & !u, 0).contains(w) <==> drop_each_from(c.full & !w, 0).contains(u),
{
    lemma_nbr_facts(c, u, w);
    lemma_nbr_facts(c, w, u);
    crate::bits::lemma_and_comm(u, w);
    let nb = drop_each_from(c.full & !u, 0);
    crate::bits::lemma_drops_distinct(c.full & !u, 0);
    assert forall|j: int| 0 <= j < nb.len() implies c.is_vertex(#[trigger] nb[j]) && nb[j] & u == 0 by {
        crate::solver::engine::lemma_nbr_vertex(c, u, j);
        lemma_nbr_facts(c, u, nb[j]);
        crate::bits::lemma_and_comm(u, nb[j]);
        assert(nb.contains(nb[j]));
    }
}

proof fn lemma_nbr_facts(c: Combi, u: u32, w: u32)
    requires
        c.params_ok(),
        c.is_vertex(u),
        c.is_vertex(w),
    ensures
        drop_each_from(c.full & !u, 0).len() == c.k,
        drop_each_from(c.full & !u, 0).contains(w) <==> u & w == 0,
{
    let x = c.full & !u;
    crate::bits::lemma_low_mask(c.n);
    crate::bits::lemma_bits_logic(c.full, u);
    crate::bits::lemma_bits_logic(u, w);
    lemma_bits_zero();
    assert forall|t: int| #[trigger] bit(u, t) implies bit(c.full, t) by {
        if 0 <= t < 32 && t >= c.n {
            assert(!bit(u, t));
        }
    }
    crate::bits::lemma_pop_inside(c.full, u, 0);
    crate::bits::lemma_low_mask_pop(c.n, 0);
    crate::bits::lemma_drop_each(x, 0);
    let d = drop_each_from(x, 0);
    if d.contains(w) {
        let i = choose|i: int| 0 <= i < d.len() && d[i] == w;
        assert(crate::bits::is_drop(x, d[i]));
        let q = choose|q: int| 0 <= q < 32 && bit(x, q) && w == x & !(1u32 << (q as u32));
        lemma_bit_cleared(x, q);
        assert forall|t: int| 0 <= t < 32 implies #[trigger] bit(u & w, t) == bit(0u32, t) by {
            assert(bit(w, t) ==> bit(x, t));
        }
        lemma_bits_ext(u & w, 0u32);
    }
    if u & w == 0 {
        assert forall|t: int| #[trigger] bit(w, t) implies bit(x, t) by {
            assert(!bit(u & w, t));
            if 0 <= t < 32 && t >= c.n {
                assert(!bit(w, t));
            }
        }
        crate::bits::lemma_pop_inside(x, w, 0);
        crate::bits::lemma_bits_logic(x, w);
        let e = x & !w;
        crate::bits::lemma_pop_one(e, 0);
        let q = choose|q: int| 0 <= q < 32 && bit(e, q) && forall|t: int| 0 <= t < 32 && t != q ==> !#[trigger] bit(e, t);
        lemma_bit_cleared(x, q);
        assert forall|t: int| 0 <= t < 32 implies #[trigger] bit(w, t) == bit(x & !(1u32 << (q as u32)), t) by {
            if t != q {
                assert(!bit(e, t));
            }
        }
        lemma_bits_ext(w, x & !(1u32 << (q as u32)));
        crate::bits::lemma_drop_member(x, 0, q);
    }
}

/// A level-`t` link region has `C(k+t, t)` cells: the ground set `[2k] \ λ`
/// of a `(k-t)`-set `λ` has `k+t` points, and a cell is a `t`-subset of it.
pub proof fn law_link_region_size(c: Combi, lambda: u32, t: u32)
    requires
        c.params_ok(),
        1 <= t < c.k,
        popcount(lambda) == c.k - t,
        below(lambda, 2 * c.k),
    ensures
        combo_pairs(ground_of(lambda, 0, 2 * c.k), Seq::empty(), 0, t as nat).len() == binom((c.k + t) as nat, t as nat),
{
    let e = 2 * c.k;
    lemma_ground_len(lambda, 0, e as int);
    lemma_colex_empty_tail(lambda, e as int, 0);
    let w = ground_of(lambda, 0, e as int).len();
    assert(w == c.k + t);
    lemma_combos_len(0, t as nat, w as int);
}

/// The ground points of `lambda` increase and miss `lambda`.
proof fn lemma_ground_sorted(lambda: u32, i: int, e: int)
    requires
        0 <= i <= e <= 32,
    ensures
        forall|q: int, r: int| 0 <= q < r < ground_of(lambda, i, e).len() ==> #[trigger] ground_of(lambda, i, e)[q] < #[trigger] ground_of(lambda, i, e)[r],
        forall|q: int| 0 <= q < ground_of(lambda, i, e).len() ==> !bit(lambda, #[trigger] ground_of(lambda, i, e)[q] as int),
    decreases e - i,
{
    lemma_ground_of(lambda, i, e);
    if i < e {
        lemma_ground_sorted(lambda, i + 1, e);
        lemma_ground_of(lambda, i + 1, e);
        let g = ground_of(lambda, i, e);
        let r = ground_of(lambda, i + 1, e);
        if bit(lambda, i) {
            assert(g =~= r);
        } else {
            assert(g =~= seq![i as u32] + r);
            assert forall|q: int, s: int| 0 <= q < s < g.len() implies #[trigger] g[q] < #[trigger] g[s] by {
                assert(g[s] == r[s - 1]);
                if q > 0 {
                    assert(g[q] == r[q - 1]);
                }
            }
            assert forall|q: int| 0 <= q < g.len() implies !bit(lambda, #[trigger] g[q] as int) by {
                if q > 0 {
                    assert(g[q] == r[q - 1]);
                }
            }
        }
    }
}

/// A combination of increasing ground points outside `lambda` gives a mask
/// of as many bits, all below `e`, outside `lambda`, and at or below its
/// last point.
proof fn lemma_combo_bits_pop(ground: Seq<u32>, c: Seq<usize>, lambda: u32, e: int)
    requires
        0 <= e <= 32,
        is_combo(c, ground.len() as int),
        forall|q: int, r: int| 0 <= q < r < ground.len() ==> #[trigger] ground[q] < #[trigger] ground[r],
        forall|q: int| 0 <= q < ground.len() ==> #[trigger] ground[q] < e && !bit(lambda, ground[q] as int),
    ensures
        popcount(combo_bits(ground, c)) == c.len(),
        below(combo_bits(ground, c), e),
        forall|t: int| #[trigger] bit(combo_bits(ground, c), t) ==> !bit(lambda, t),
        c.len() > 0 ==> below(combo_bits(ground, c), ground[c.last() as int] + 1),
    decreases c.len(),
{
    if c.len() == 0 {
        lemma_bits_zero();
        crate::bits::lemma_pop_zero(0);
    } else {
        let d = c.drop_last();
        let s = c.last() as int;
        let g = ground[s];
        assert(is_combo(d, ground.len() as int)) by {
            assert forall|i: int, j: int| 0 <= i < j < d.len() implies d[i] < d[j] by {
                assert(d[i] == c[i] && d[j] == c[j]);
            }
            assert forall|i: int| 0 <= i < d.len() implies #[trigger] d[i] < ground.len() by {
                assert(d[i] == c[i]);
            }
        }
        lemma_combo_bits_pop(ground, d, lambda, e);
        let x = combo_bits(ground, d);
        crate::bits::lemma_bit_set(x, g as int);
        assert(combo_bits(ground, c) == x | (1u32 << g));
        assert(((g as int) as u32) == g);
        assert forall|t: int| #[trigger] bit(x, t) implies !bit(1u32 << g, t) by {
            crate::bits::lemma_pop_single(g, 0);
            assert(bit(1u32 << g, t) == bit(0u32 | (1u32 << ((g as int) as u32)), t)) by {
                assert(0u32 | (1u32 << g) == 1u32 << g) by (bit_vector);
            }
            crate::bits::lemma_bit_set(0u32, g as int);
            lemma_bits_zero();
            if d.len() > 0 {
                let s2 = d.last() as int;
                assert(d.last() == c[c.len() - 2]);
                assert(c[c.len() - 2] < c[c.len() - 1]);
                assert(ground[s2] < g);
            }
        }
        crate::bits::lemma_pop_or_disjoint(x, 1u32 << g, 0);
        crate::bits::lemma_pop_single(g, 0);
        lemma_bits_zero();
        crate::bits::lemma_bit_set(0u32, g as int);
        assert(0u32 | (1u32 << g) == 1u32 << g) by (bit_vector);
        assert forall|t: int| e <= t < 32 implies !#[trigger] bit(combo_bits(ground, c), t) by {}
        assert forall|t: int| g + 1 <= t < 32 implies !#[trigger] bit(combo_bits(ground, c), t) by {
            if d.len() > 0 {
                let s2 = d.last() as int;
                assert(d.last() == c[c.len() - 2]);
                assert(c[c.len() - 2] < c[c.len() - 1]);
                assert(ground[s2] < g);
            }
        }
    }
}

/// A combination of positions below `w` gives a mask of as many bits, all
/// below `w`.
proof fn lemma_pos_bits_pop(c: Seq<usize>, w: int)
    requires
        0 <= w <= 32,
        is_combo(c, w),
    ensures
        popcount(pos_bits(c)) == c.len(),
        below(pos_bits(c), w),
        c.len() > 0 ==> below(pos_bits(c), c.last() + 1),
    decreases c.len(),
{
    if c.len() == 0 {
        lemma_bits_zero();
        crate::bits::lemma_pop_zero(0);
    } else {
        let d = c.drop_last();
        let s = c.last();
        assert(is_combo(d, w)) by {
            assert forall|i: int, j: int| 0 <= i < j < d.len() implies d[i] < d[j] by {
                assert(d[i] == c[i] && d[j] == c[j]);
            }
            assert forall|i: int| 0 <= i < d.len() implies #[trigger] d[i] < w by {
                assert(d[i] == c[i]);
            }
        }
        lemma_pos_bits_pop(d, w);
        let x = pos_bits(d);
        let su = s as u32;
        assert(su < 32);
        crate::bits::lemma_bit_set(x, su as int);
        assert(((su as int) as u32) == su);
        assert(pos_bits(c) == x | (1u32 << su));
        crate::bits::lemma_bit_set(0u32, su as int);
        lemma_bits_zero();
        assert(0u32 | (1u32 << su) == 1u32 << su) by (bit_vector);
        assert forall|t: int| #[trigger] bit(x, t) implies !bit(1u32 << su, t) by {
            if d.len() > 0 {
                assert(d.last() == c[c.len() - 2]);
                assert(c[c.len() - 2] < c[c.len() - 1]);
            }
        }
        crate::bits::lemma_pop_or_disjoint(x, 1u32 << su, 0);
        crate::bits::lemma_pop_single(su, 0);
        assert forall|t: int| s + 1 <= t < 32 implies !#[trigger] bit(pos_bits(c), t) by {
            if d.len() > 0 {
                assert(d.last() == c[c.len() - 2]);
                assert(c[c.len() - 2] < c[c.len() - 1]);
            }
        }
    }
}

/// Every cell of a level-`t` link region names an `O_k` vertex, and its
/// points are a `t`-subset of the `k+t` ground positions.
pub proof fn lemma_link_cells(c: Combi, lambda: u32, t: u32)
    requires
        c.params_ok(),
        1 <= t < c.k,
        popcount(lambda) == c.k - t,
        below(lambda, 2 * c.k),
    ensures
        forall|i: int| 0 <= i < combo_pairs(ground_of(lambda, 0, 2 * c.k), Seq::empty(), 0, t as nat).len() ==> {
            let cell = #[trigger] c.cell_of(lambda, combo_pairs(ground_of(lambda, 0, 2 * c.k), Seq::empty(), 0, t as nat)[i]);
            &&& popcount(cell.points) == t
            &&& below(cell.points, (c.k + t) as int)
            &&& c.is_vertex(cell.vmask)
            &&& colex(cell.vmask) == cell.vertex
            &&& cell.vertex < c.num_vertices
        },
{
    let e = 2 * c.k;
    let ground = ground_of(lambda, 0, e as int);
    let w = ground.len() as int;
    lemma_ground_len(lambda, 0, e as int);
    lemma_colex_empty_tail(lambda, e as int, 0);
    assert(w == c.k + t);
    lemma_ground_of(lambda, 0, e as int);
    lemma_ground_sorted(lambda, 0, e as int);
    lemma_combos_sorted(0, t as nat, w);
    lemma_combos_in_range(0, t as nat, w);
    crate::bits::lemma_binom_fits(c.n as nat, c.r as nat);
    let pairs = combo_pairs(ground, Seq::empty(), 0, t as nat);
    assert forall|i: int| 0 <= i < pairs.len() implies {
        let cell = #[trigger] c.cell_of(lambda, pairs[i]);
        &&& popcount(cell.points) == t
        &&& below(cell.points, (c.k + t) as int)
        &&& c.is_vertex(cell.vmask)
        &&& colex(cell.vmask) == cell.vertex
        &&& cell.vertex < c.num_vertices
    } by {
        let ci = combos_from(0, t as nat, w)[i];
        assert(Seq::<usize>::empty() + ci =~= ci);
        assert(pairs[i] == combo_pair(ground, Seq::empty(), ci));
        lemma_pos_bits_pop(ci, w);
        lemma_combo_bits_pop(ground, ci, lambda, e as int);
        let b = combo_bits(ground, ci);
        let s = lambda | b;
        crate::bits::lemma_pop_or_disjoint(lambda, b, 0);
        crate::bits::lemma_bits_logic(lambda, b);
        assert(popcount(s) == c.k);
        assert(below(s, e as int));
        let top = (2 * c.k - 1) as u32;
        let cell = c.cell_of(lambda, pairs[i]);
        let vm = cell.vmask;
        if bit(s, top as int) {
            crate::bits::lemma_pop_clear_bit(s, top as int, 0);
            crate::bits::lemma_bit_cleared(s, top as int);
            assert(vm == s & !(1u32 << top));
            assert(popcount(vm) == c.k - 1);
            assert(below(vm, c.n as int));
        } else {
            crate::bits::lemma_low_mask(c.n);
            crate::bits::lemma_low_mask_pop(c.n, 0);
            assert(vm == c.full & !s);
            assert forall|q: int| #[trigger] bit(s, q) implies bit(c.full, q) by {}
            crate::bits::lemma_pop_inside(c.full, s, 0);
            crate::bits::lemma_bits_logic(c.full, s);
            assert(popcount(vm) == c.k - 1);
            assert(below(vm, c.n as int));
        }
        crate::bits::lemma_colex_below(vm, c.n as int, 0, 0);
        assert(colex(vm) < c.num_vertices);
    }
}

} // verus!
