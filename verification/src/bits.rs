//! Bitmask and binomial mathematics shared by every module.
//!
//! A vertex of `O_k` is a `u32` bitmask. This module gives the mathematical
//! reading of such masks (`bit`, `popcount`), the binomial coefficients, and
//! the colex rank `colex(S) = sum_i C(s_i, i+1)` over the set bits
//! `s_0 < s_1 < ...`, together with the lemmas the executable code needs.
use vstd::prelude::*;
use vstd::arithmetic::power2::{pow2, lemma_pow2_unfold, lemma2_to64};

verus! {

/// Bit `i` of `x`, for `0 <= i < 32`; false elsewhere.
pub open spec fn bit(x: u32, i: int) -> bool {
    0 <= i < 32 && (x >> (i as u32)) & 1 == 1
}

/// Number of set bits of `x` at positions `i..32`.
pub open spec fn pop_from(x: u32, i: int) -> nat
    decreases 32 - i,
{
    if i < 0 || i >= 32 {
        0
    } else {
        (if bit(x, i) { 1nat } else { 0nat }) + pop_from(x, i + 1)
    }
}

/// Number of set bits of `x`.
pub open spec fn popcount(x: u32) -> nat {
    pop_from(x, 0)
}

/// The binomial coefficient `C(n, r)` by Pascal's rule.
pub open spec fn binom(n: nat, r: nat) -> nat
    decreases n,
{
    if r == 0 {
        1
    } else if n == 0 {
        0
    } else {
        binom((n - 1) as nat, (r - 1) as nat) + binom((n - 1) as nat, r)
    }
}

/// Colex contribution of the set bits of `x` at positions `i..32`, when `j`
/// set bits precede position `i`: each set bit `s` that has `t` set bits
/// below it contributes `C(s, t + 1)`.
pub open spec fn colex_from(x: u32, i: int, j: nat) -> nat
    decreases 32 - i,
{
    if i < 0 || i >= 32 {
        0
    } else if bit(x, i) {
        binom(i as nat, j + 1) + colex_from(x, i + 1, j + 1)
    } else {
        colex_from(x, i + 1, j)
    }
}

/// Colex rank of the set of bits of `x`: `sum_i C(s_i, i+1)`.
pub open spec fn colex(x: u32) -> nat {
    colex_from(x, 0, 0)
}

/// Every set bit of `x` lies below position `n`.
pub open spec fn below(x: u32, n: int) -> bool {
    forall|t: int| #![trigger bit(x, t)] n <= t < 32 ==> !bit(x, t)
}

/// `base` with bit `q` removed, for each set bit `q` of `rest` at positions
/// `p..32`, in increasing order of `q`.
pub open spec fn drops_of(base: u32, rest: u32, p: int) -> Seq<u32>
    decreases 32 - p,
{
    if p < 0 || p >= 32 {
        Seq::empty()
    } else if bit(rest, p) {
        seq![base & !(1u32 << (p as u32))] + drops_of(base, rest, p + 1)
    } else {
        drops_of(base, rest, p + 1)
    }
}

/// The mask `x` with bit `q` removed, for each set bit `q` at positions
/// `p..32`, in increasing order of `q`.
pub open spec fn drop_each_from(x: u32, p: int) -> Seq<u32> {
    drops_of(x, x, p)
}

/// Number of set bits of `x`, counted bit by bit from the top.
pub(crate) fn count_ones32(x: u32) -> (r: u32)
    ensures
        r as nat == popcount(x),
{
    let mut r: u32 = 0;
    let mut i: u32 = 32;
    while i > 0
        invariant
            i <= 32,
            r as nat == pop_from(x, i as int),
            pop_from(x, i as int) <= 32 - i,
        decreases i,
    {
        i = i - 1;
        if (x >> i) & 1 == 1 {
            r = r + 1;
        }
    }
    r
}

// ---------------------------------------------------------------------------
// Binomial facts
// ---------------------------------------------------------------------------

pub proof fn lemma_binom_above(n: nat, r: nat)
    requires
        r > n,
    ensures
        binom(n, r) == 0,
    decreases n,
{
    if n > 0 {
        lemma_binom_above((n - 1) as nat, (r - 1) as nat);
        lemma_binom_above((n - 1) as nat, r);
    }
}

pub proof fn lemma_binom_diag(n: nat)
    ensures
        binom(n, n) == 1,
    decreases n,
{
    if n > 0 {
        lemma_binom_diag((n - 1) as nat);
        lemma_binom_above((n - 1) as nat, n);
    }
}

/// `C(a, r) <= C(b, r)` for `a <= b`.
pub proof fn lemma_binom_mono(a: nat, b: nat, r: nat)
    requires
        a <= b,
    ensures
        binom(a, r) <= binom(b, r),
    decreases b,
{
    if a < b {
        lemma_binom_mono(a, (b - 1) as nat, r);
        if r > 0 {
            assert(binom(b, r) == binom((b - 1) as nat, (r - 1) as nat) + binom((b - 1) as nat, r));
        }
    }
}

/// `C(a, r) < C(b, r)` for `r <= a < b` and `r >= 1`.
pub proof fn lemma_binom_strict_mono(a: nat, b: nat, r: nat)
    requires
        1 <= r <= a,
        a < b,
    ensures
        binom(a, r) < binom(b, r),
    decreases b,
{
    let b1 = (b - 1) as nat;
    assert(binom(b, r) == binom(b1, (r - 1) as nat) + binom(b1, r));
    lemma_binom_pos(b1, (r - 1) as nat);
    lemma_binom_mono(a, b1, r);
}

/// `C(n, r) > 0` for `r <= n`.
pub proof fn lemma_binom_pos(n: nat, r: nat)
    requires
        r <= n,
    ensures
        binom(n, r) > 0,
    decreases n,
{
    if r > 0 && n > 0 {
        lemma_binom_pos((n - 1) as nat, (r - 1) as nat);
    }
}

/// `C(n, r) < 2^n` for `n >= 1`.
pub proof fn lemma_binom_lt_pow2(n: nat, r: nat)
    requires
        n >= 1,
    ensures
        binom(n, r) < pow2(n),
    decreases n,
{
    lemma_pow2_unfold(n);
    if n == 1 {
        lemma2_to64();
        if r >= 2 {
            lemma_binom_above(1, r);
        }
        assert(binom(0, 0) == 1);
    } else {
        lemma_binom_lt_pow2((n - 1) as nat, r);
        if r > 0 {
            lemma_binom_lt_pow2((n - 1) as nat, (r - 1) as nat);
        }
        lemma_pow2_unfold((n - 1) as nat);
    }
}

/// Every binomial coefficient with `n <= 32` fits in a `u32`.
pub proof fn lemma_binom_fits(n: nat, r: nat)
    requires
        n <= 32,
    ensures
        binom(n, r) <= 0xFFFF_FFFF,
{
    lemma2_to64();
    if n == 0 {
    } else {
        lemma_binom_lt_pow2(n, r);
        if n < 32 {
            vstd::arithmetic::power2::lemma_pow2_strictly_increases(n, 32);
        }
    }
}

// ---------------------------------------------------------------------------
// Bit facts (bit-vector level)
// ---------------------------------------------------------------------------

pub proof fn lemma_bit_or_single(x: u32, s: u32, t: u32)
    by (bit_vector)
    requires
        s < 32,
        t < 32,
    ensures
        (((x | (1u32 << s)) >> t) & 1 == 1) == (t == s || (x >> t) & 1 == 1),
{
}

pub proof fn lemma_bit_clear_single(x: u32, s: u32, t: u32)
    by (bit_vector)
    requires
        s < 32,
        t < 32,
    ensures
        (((x & !(1u32 << s)) >> t) & 1 == 1) == (t != s && (x >> t) & 1 == 1),
{
}

pub proof fn lemma_bit_and(x: u32, y: u32, t: u32)
    by (bit_vector)
    requires
        t < 32,
    ensures
        (((x & y) >> t) & 1 == 1) == ((x >> t) & 1 == 1 && (y >> t) & 1 == 1),
        (((x | y) >> t) & 1 == 1) == ((x >> t) & 1 == 1 || (y >> t) & 1 == 1),
        (((x & !y) >> t) & 1 == 1) == ((x >> t) & 1 == 1 && !((y >> t) & 1 == 1)),
{
}

pub proof fn lemma_bit_low16(x: u32, t: u32)
    by (bit_vector)
    requires
        t < 32,
    ensures
        (((x & 0xFFFF) >> t) & 1 == 1) == (t < 16 && (x >> t) & 1 == 1),
        ((((x >> 16) << 16) >> t) & 1 == 1) == (t >= 16 && (x >> t) & 1 == 1),
{
}

proof fn lemma_ext_top(x: u32, y: u32)
    by (bit_vector)
    requires
        ((x >> 31u32) & 1 == 1) == ((y >> 31u32) & 1 == 1),
    ensures
        x >> 31u32 == y >> 31u32,
{
}

proof fn lemma_ext_step(x: u32, y: u32, n: u32)
    by (bit_vector)
    requires
        n < 31,
        x >> (n + 1) == y >> (n + 1),
        ((x >> n) & 1 == 1) == ((y >> n) & 1 == 1),
    ensures
        x >> n == y >> n,
{
}

proof fn lemma_ext_down(x: u32, y: u32, n: int)
    requires
        0 <= n <= 31,
        x >> (n as u32) == y >> (n as u32),
        forall|t: int| 0 <= t < 32 ==> #[trigger] bit(x, t) == bit(y, t),
    ensures
        x >> 0u32 == y >> 0u32,
    decreases n,
{
    if n > 0 {
        assert(bit(x, n - 1) == bit(y, n - 1));
        lemma_ext_step(x, y, (n - 1) as u32);
        lemma_ext_down(x, y, n - 1);
    }
}

proof fn lemma_shift_zero(x: u32)
    by (bit_vector)
    ensures
        x >> 0u32 == x,
{
}

/// Two masks are equal when all their bits agree.
pub proof fn lemma_bits_ext(x: u32, y: u32)
    requires
        forall|t: int| 0 <= t < 32 ==> #[trigger] bit(x, t) == bit(y, t),
    ensures
        x == y,
{
    assert(bit(x, 31) == bit(y, 31));
    lemma_ext_top(x, y);
    lemma_ext_down(x, y, 31);
    lemma_shift_zero(x);
    lemma_shift_zero(y);
}

/// Bits of `x | (1 << s)`.
pub proof fn lemma_bit_set(x: u32, s: int)
    requires
        0 <= s < 32,
    ensures
        forall|t: int| #[trigger] bit(x | (1u32 << (s as u32)), t) == (bit(x, t) || t == s),
{
    assert forall|t: int| #[trigger] bit(x | (1u32 << (s as u32)), t) == (bit(x, t) || t == s) by {
        if 0 <= t < 32 {
            lemma_bit_or_single(x, s as u32, t as u32);
        }
    }
}

/// Bits of `x & !(1 << s)`.
pub proof fn lemma_bit_cleared(x: u32, s: int)
    requires
        0 <= s < 32,
    ensures
        forall|t: int| #[trigger] bit(x & !(1u32 << (s as u32)), t) == (bit(x, t) && t != s),
{
    assert forall|t: int| #[trigger] bit(x & !(1u32 << (s as u32)), t) == (bit(x, t) && t != s) by {
        if 0 <= t < 32 {
            lemma_bit_clear_single(x, s as u32, t as u32);
        }
    }
}

/// Bits of `x & y`, `x | y` and `x & !y`.
pub proof fn lemma_bits_logic(x: u32, y: u32)
    ensures
        forall|t: int| #[trigger] bit(x & y, t) == (bit(x, t) && bit(y, t)),
        forall|t: int| #[trigger] bit(x | y, t) == (bit(x, t) || bit(y, t)),
        forall|t: int| #[trigger] bit(x & !y, t) == (bit(x, t) && !bit(y, t)),
{
    assert forall|t: int| #[trigger] bit(x & y, t) == (bit(x, t) && bit(y, t)) by {
        if 0 <= t < 32 {
            lemma_bit_and(x, y, t as u32);
        }
    }
    assert forall|t: int| #[trigger] bit(x | y, t) == (bit(x, t) || bit(y, t)) by {
        if 0 <= t < 32 {
            lemma_bit_and(x, y, t as u32);
        }
    }
    assert forall|t: int| #[trigger] bit(x & !y, t) == (bit(x, t) && !bit(y, t)) by {
        if 0 <= t < 32 {
            lemma_bit_and(x, y, t as u32);
        }
    }
}

pub proof fn lemma_bits_zero()
    ensures
        forall|t: int| !#[trigger] bit(0u32, t),
{
    assert forall|t: int| !#[trigger] bit(0u32, t) by {
        if 0 <= t < 32 {
            lemma_zero_shift(t as u32);
        }
    }
}

proof fn lemma_zero_shift(t: u32)
    by (bit_vector)
    ensures
        (0u32 >> t) & 1 == 0,
{
}

// ---------------------------------------------------------------------------
// popcount and colex facts
// ---------------------------------------------------------------------------

pub proof fn lemma_pop_bound(x: u32, i: int)
    requires
        0 <= i <= 32,
    ensures
        pop_from(x, i) <= 32 - i,
    decreases 32 - i,
{
    if i < 32 {
        lemma_pop_bound(x, i + 1);
    }
}

/// Masks that agree on positions `p..32` have the same colex contribution
/// and the same population count there.
pub proof fn lemma_colex_agree(x: u32, y: u32, p: int, j: nat)
    requires
        0 <= p <= 32,
        forall|t: int| p <= t < 32 ==> #[trigger] bit(x, t) == bit(y, t),
    ensures
        colex_from(x, p, j) == colex_from(y, p, j),
        pop_from(x, p) == pop_from(y, p),
    decreases 32 - p,
{
    if p < 32 {
        assert(bit(x, p) == bit(y, p));
        lemma_colex_agree(x, y, p + 1, j);
        lemma_colex_agree(x, y, p + 1, j + 1);
    }
}

/// Positions `p..q` hold no set bit, so they contribute nothing.
pub proof fn lemma_colex_skip(x: u32, p: int, q: int, j: nat)
    requires
        0 <= p <= q <= 32,
        forall|t: int| p <= t < q ==> !#[trigger] bit(x, t),
    ensures
        colex_from(x, p, j) == colex_from(x, q, j),
        pop_from(x, p) == pop_from(x, q),
    decreases q - p,
{
    if p < q {
        assert(!bit(x, p));
        lemma_colex_skip(x, p + 1, q, j);
    }
}

/// A mask with no bits at or above `p` contributes nothing there.
pub proof fn lemma_colex_empty_tail(x: u32, p: int, j: nat)
    requires
        0 <= p <= 32,
        below(x, p),
    ensures
        colex_from(x, p, j) == 0,
        pop_from(x, p) == 0,
{
    lemma_colex_skip(x, p, 32, j);
}

/// `colex_from(x, i, j) + C(i, j) <= C(32, j + pop)` for `j <= i`: the colex
/// rank of an `m`-subset of `[32]` is below `C(32, m)`.
pub proof fn lemma_colex_bound(x: u32, i: int, j: nat)
    requires
        0 <= i <= 32,
        j <= i,
    ensures
        colex_from(x, i, j) + binom(i as nat, j) <= binom(32, j + pop_from(x, i)),
    decreases 32 - i,
{
    if i < 32 {
        let iu = i as nat;
        if bit(x, i) {
            lemma_colex_bound(x, i + 1, j + 1);
            assert(binom(iu + 1, j + 1) == binom(iu, j) + binom(iu, j + 1));
        } else {
            lemma_colex_bound(x, i + 1, j);
            lemma_binom_mono(iu, iu + 1, j);
        }
    }
}

/// The colex rank of any mask fits in a `u32`.
pub proof fn lemma_colex_fits(x: u32, i: int, j: nat)
    requires
        0 <= i <= 32,
        j <= i,
    ensures
        colex_from(x, i, j) <= 0xFFFF_FFFF,
{
    lemma_colex_bound(x, i, j);
    lemma_binom_fits(32, j + pop_from(x, i));
}

/// Splitting the colex sum at position `s`: the part below `s` is the colex
/// sum of `lo` (which agrees with `x` below `s` and is empty above), and the
/// part above starts with as many preceding bits as `lo` has.
pub proof fn lemma_colex_split(x: u32, lo: u32, s: int, i: int, j: nat)
    requires
        0 <= i <= s <= 32,
        forall|t: int| 0 <= t < s ==> #[trigger] bit(lo, t) == bit(x, t),
        below(lo, s),
    ensures
        colex_from(x, i, j) == colex_from(lo, i, j) + colex_from(x, s, j + pop_from(lo, i)),
        pop_from(x, i) == pop_from(lo, i) + pop_from(x, s),
    decreases s - i,
{
    if i == s {
        lemma_colex_empty_tail(lo, s, j);
    } else {
        assert(bit(lo, i) == bit(x, i));
        lemma_colex_split(x, lo, s, i + 1, j);
        lemma_colex_split(x, lo, s, i + 1, j + 1);
    }
}

/// Setting a bit `s` below every set bit of `m`.
pub proof fn lemma_colex_add_low(m: u32, s: int, j: nat)
    requires
        0 <= s < 32,
        forall|t: int| 0 <= t <= s ==> !#[trigger] bit(m, t),
    ensures
        colex_from(m | (1u32 << (s as u32)), 0, j) == binom(s as nat, j + 1) + colex_from(m, 0, j + 1),
        pop_from(m | (1u32 << (s as u32)), 0) == 1 + pop_from(m, 0),
{
    let m2 = m | (1u32 << (s as u32));
    lemma_bit_set(m, s);
    assert forall|t: int| 0 <= t < s implies !#[trigger] bit(m2, t) by {
        assert(!bit(m, t));
    }
    lemma_colex_skip(m2, 0, s, j);
    assert(bit(m2, s));
    assert forall|t: int| s + 1 <= t < 32 implies #[trigger] bit(m2, t) == bit(m, t) by {
        assert(bit(m2, t) == (bit(m, t) || t == s));
    }
    lemma_colex_agree(m2, m, s + 1, j + 1);
    lemma_colex_skip(m, 0, s + 1, j + 1);
}

/// `e` is `x` with one of its set bits removed.
pub open spec fn is_drop(x: u32, e: u32) -> bool {
    exists|q: int| 0 <= q < 32 && bit(x, q) && e == x & !(1u32 << (q as u32))
}

/// Length and contents of `drop_each_from`.
pub proof fn lemma_drop_each(x: u32, p: int)
    requires
        0 <= p <= 32,
    ensures
        drop_each_from(x, p).len() == pop_from(x, p),
        forall|i: int|
            0 <= i < drop_each_from(x, p).len() ==> is_drop(x, #[trigger] drop_each_from(x, p)[i]),
    decreases 32 - p,
{
    if p < 32 {
        lemma_drop_each(x, p + 1);
        let rest = drop_each_from(x, p + 1);
        if bit(x, p) {
            let d = drop_each_from(x, p);
            assert(d == seq![x & !(1u32 << (p as u32))] + rest);
            assert forall|i: int| 0 <= i < d.len() implies is_drop(x, #[trigger] d[i]) by {
                if i == 0 {
                    assert(d[0] == x & !(1u32 << (p as u32)));
                } else {
                    assert(d[i] == rest[i - 1]);
                }
            }
        }
    }
}

/// `drops_of` depends only on the bits of `rest` at positions `p..32`.
pub proof fn lemma_drops_agree(base: u32, r1: u32, r2: u32, p: int)
    requires
        0 <= p <= 32,
        forall|t: int| p <= t < 32 ==> #[trigger] bit(r1, t) == bit(r2, t),
    ensures
        drops_of(base, r1, p) == drops_of(base, r2, p),
    decreases 32 - p,
{
    if p < 32 {
        assert(bit(r1, p) == bit(r2, p));
        lemma_drops_agree(base, r1, r2, p + 1);
    }
}

/// Positions `p..q` of `rest` are clear, so they contribute nothing.
pub proof fn lemma_drops_skip(base: u32, rest: u32, p: int, q: int)
    requires
        0 <= p <= q <= 32,
        forall|t: int| p <= t < q ==> !#[trigger] bit(rest, t),
    ensures
        drops_of(base, rest, p) == drops_of(base, rest, q),
    decreases q - p,
{
    if p < q {
        assert(!bit(rest, p));
        lemma_drops_skip(base, rest, p + 1, q);
    }
}

/// `pop_from(x, i) <= (s - i) + pop_from(x, s)`.
pub proof fn lemma_pop_split_bound(x: u32, i: int, s: int)
    requires
        0 <= i <= s <= 32,
    ensures
        pop_from(x, i) <= (s - i) + pop_from(x, s),
    decreases s - i,
{
    if i < s {
        lemma_pop_split_bound(x, i + 1, s);
    }
}

/// The low `n` bits, as a mask.
pub open spec fn low_mask(n: u32) -> u32 {
    if n >= 32 { 0xFFFF_FFFFu32 } else { ((1u32 << n) - 1) as u32 }
}

proof fn lemma_low_mask_bv(n: u32, t: u32)
    by (bit_vector)
    requires
        n < 32,
        t < 32,
    ensures
        (((((1u32 << n) - 1) as u32) >> t) & 1 == 1) == (t < n),
{
}

proof fn lemma_all_ones_bv(t: u32)
    by (bit_vector)
    requires
        t < 32,
    ensures
        ((0xFFFF_FFFFu32 >> t) & 1 == 1),
{
}

/// The bits of `low_mask(n)` are exactly the positions below `n`.
pub proof fn lemma_low_mask(n: u32)
    requires
        n <= 32,
    ensures
        forall|t: int| 0 <= t < 32 ==> (#[trigger] bit(low_mask(n), t) <==> t < n),
{
    assert forall|t: int| 0 <= t < 32 implies (#[trigger] bit(low_mask(n), t) <==> t < n) by {
        if n < 32 {
            lemma_low_mask_bv(n, t as u32);
        } else {
            lemma_all_ones_bv(t as u32);
        }
    }
}

/// `colex_from(x, i, j) + C(i, j) <= C(n, j + pop)` for a mask below `n`:
/// the colex rank of an `m`-subset of `[n]` is below `C(n, m)`.
pub proof fn lemma_colex_below(x: u32, n: int, i: int, j: nat)
    requires
        0 <= i <= n <= 32,
        j <= i,
        below(x, n),
    ensures
        colex_from(x, i, j) + binom(i as nat, j) <= binom(n as nat, j + pop_from(x, i)),
    decreases n - i,
{
    if i == n {
        lemma_colex_empty_tail(x, n, j);
    } else {
        let iu = i as nat;
        if bit(x, i) {
            lemma_colex_below(x, n, i + 1, j + 1);
            assert(binom(iu + 1, j + 1) == binom(iu, j) + binom(iu, j + 1));
        } else {
            lemma_colex_below(x, n, i + 1, j);
            lemma_binom_mono(iu, iu + 1, j);
        }
    }
}

/// A mask with a set bit has a highest one.
pub proof fn lemma_top_bit(x: u32, i: int)
    requires
        0 < i <= 32,
        below(x, i),
        pop_from(x, 0) > 0,
    ensures
        exists|s: int| 0 <= s < i && #[trigger] bit(x, s) && below(x, s + 1),
    decreases i,
{
    if bit(x, i - 1) {
        assert(bit(x, i - 1) && below(x, i));
    } else {
        assert(below(x, i - 1));
        if i - 1 == 0 {
            lemma_colex_empty_tail(x, 0, 0);
        } else {
            lemma_top_bit(x, i - 1);
        }
    }
}

/// Removing the highest set bit `s` of `x`: the colex rank drops by
/// `C(s, |x|)` and what is left lies below `s`.
pub proof fn lemma_colex_top(x: u32, s: int)
    requires
        0 <= s < 32,
        bit(x, s),
        below(x, s + 1),
    ensures
        ({
            let lo = x & !(1u32 << (s as u32));
            &&& below(lo, s)
            &&& pop_from(x, 0) == pop_from(lo, 0) + 1
            &&& colex(x) == colex(lo) + binom(s as nat, pop_from(x, 0))
        }),
{
    let lo = x & !(1u32 << (s as u32));
    lemma_bit_cleared(x, s);
    assert(below(lo, s));
    assert forall|t: int| 0 <= t < s implies #[trigger] bit(lo, t) == bit(x, t) by {}
    lemma_colex_split(x, lo, s, 0, 0);
    let p = pop_from(lo, 0);
    lemma_colex_empty_tail(x, s + 1, p + 1);
    assert(colex_from(x, s, p) == binom(s as nat, p + 1) + colex_from(x, s + 1, p + 1));
    assert(pop_from(x, s) == 1 + pop_from(x, s + 1));
    lemma_colex_empty_tail(lo, s, 0);
}

/// Colex rank is injective on masks of one size: the rank determines the
/// highest element, and then the rest.
pub proof fn lemma_colex_injective(x: u32, y: u32)
    requires
        pop_from(x, 0) == pop_from(y, 0),
        colex(x) == colex(y),
    ensures
        x == y,
    decreases pop_from(x, 0),
{
    let m = pop_from(x, 0);
    if m == 0 {
        lemma_pop_zero_mask(x, 0);
        lemma_pop_zero_mask(y, 0);
        assert forall|t: int| 0 <= t < 32 implies #[trigger] bit(x, t) == bit(y, t) by {}
        lemma_bits_ext(x, y);
    } else {
        lemma_top_bit(x, 32);
        lemma_top_bit(y, 32);
        let sx = choose|s: int| 0 <= s < 32 && #[trigger] bit(x, s) && below(x, s + 1);
        let sy = choose|s: int| 0 <= s < 32 && #[trigger] bit(y, s) && below(y, s + 1);
        lemma_colex_top(x, sx);
        lemma_colex_top(y, sy);
        let lx = x & !(1u32 << (sx as u32));
        let ly = y & !(1u32 << (sy as u32));
        let m1 = (m - 1) as nat;
        lemma_colex_below(lx, sx, 0, 0);
        lemma_colex_below(ly, sy, 0, 0);
        // colex(x) lies in [C(sx, m), C(sx + 1, m)), and likewise for y
        assert(binom((sx + 1) as nat, m) == binom(sx as nat, m1) + binom(sx as nat, m));
        assert(binom((sy + 1) as nat, m) == binom(sy as nat, m1) + binom(sy as nat, m));
        if sx < sy {
            lemma_binom_mono((sx + 1) as nat, sy as nat, m);
        } else if sy < sx {
            lemma_binom_mono((sy + 1) as nat, sx as nat, m);
        }
        assert(sx == sy);
        lemma_colex_injective(lx, ly);
        lemma_bit_cleared(x, sx);
        lemma_bit_cleared(y, sy);
        assert forall|t: int| 0 <= t < 32 implies #[trigger] bit(x, t) == bit(y, t) by {
            if t != sx {
                assert(bit(lx, t) == bit(x, t));
                assert(bit(ly, t) == bit(y, t));
            }
        }
        lemma_bits_ext(x, y);
    }
}

/// A mask with no set bits from `i` on has none there.
pub proof fn lemma_pop_zero_mask(x: u32, i: int)
    requires
        0 <= i <= 32,
        pop_from(x, i) == 0,
    ensures
        forall|t: int| i <= t < 32 ==> !#[trigger] bit(x, t),
    decreases 32 - i,
{
    if i < 32 {
        lemma_pop_zero_mask(x, i + 1);
    }
}

/// A mask with exactly one set bit from `i` on has a single position `q`
/// there.
pub proof fn lemma_pop_one(x: u32, i: int)
    requires
        0 <= i <= 32,
        pop_from(x, i) == 1,
    ensures
        exists|q: int| i <= q < 32 && bit(x, q) && forall|t: int| i <= t < 32 && t != q ==> !#[trigger] bit(x, t),
    decreases 32 - i,
{
    if bit(x, i) {
        lemma_pop_zero_mask(x, i + 1);
        assert(forall|t: int| i <= t < 32 && t != i ==> !#[trigger] bit(x, t));
    } else {
        lemma_pop_one(x, i + 1);
        let q = choose|q: int| i + 1 <= q < 32 && bit(x, q) && forall|t: int| i + 1 <= t < 32 && t != q ==> !#[trigger] bit(x, t);
        assert forall|t: int| i <= t < 32 && t != q implies !#[trigger] bit(x, t) by {
            if t > i {
            }
        }
    }
}

/// Each set bit `q` of `x` at or after `p` gives the drop of `q` from `x`.
pub proof fn lemma_drop_member(x: u32, p: int, q: int)
    requires
        0 <= p <= q < 32,
        bit(x, q),
    ensures
        drop_each_from(x, p).contains(x & !(1u32 << (q as u32))),
    decreases q - p,
{
    let e = x & !(1u32 << (q as u32));
    if p == q {
        assert(drop_each_from(x, p)[0] == e);
    } else {
        lemma_drop_member(x, p + 1, q);
        let rest = drop_each_from(x, p + 1);
        let i = choose|i: int| 0 <= i < rest.len() && rest[i] == e;
        if bit(x, p) {
            assert(drop_each_from(x, p)[i + 1] == rest[i]);
        } else {
            assert(drop_each_from(x, p) == rest);
        }
    }
}

/// The drops listed from position `p` on each remove a set bit at or after
/// `p`, and no two of them are equal.
#[verifier::spinoff_prover]
pub proof fn lemma_drops_distinct(x: u32, p: int)
    requires
        0 <= p <= 32,
    ensures
        forall|j: int| 0 <= j < drop_each_from(x, p).len() ==> exists|q: int|
            p <= q < 32 && bit(x, q) && #[trigger] drop_each_from(x, p)[j] == x & !(1u32 << (q as u32)),
        forall|j1: int, j2: int| 0 <= j1 < j2 < drop_each_from(x, p).len() ==>
            #[trigger] drop_each_from(x, p)[j1] != #[trigger] drop_each_from(x, p)[j2],
    decreases 32 - p,
{
    if p == 32 {
        assert(drop_each_from(x, p).len() == 0);
    } else {
        lemma_drops_distinct(x, p + 1);
        let rest = drop_each_from(x, p + 1);
        let d = drop_each_from(x, p);
        if bit(x, p) {
            let e = x & !(1u32 << (p as u32));
            assert(d == seq![e] + rest);
            lemma_bit_cleared(x, p);
            assert forall|j: int| 0 <= j < d.len() implies exists|q: int|
                p <= q < 32 && bit(x, q) && #[trigger] d[j] == x & !(1u32 << (q as u32)) by {
                if j > 0 {
                    assert(d[j] == rest[j - 1]);
                    let q = choose|q: int| p + 1 <= q < 32 && bit(x, q) && #[trigger] rest[j - 1] == x & !(1u32 << (q as u32));
                    assert(p <= q < 32 && bit(x, q) && d[j] == x & !(1u32 << (q as u32)));
                } else {
                    assert(p <= p < 32 && bit(x, p) && d[j] == x & !(1u32 << (p as u32)));
                }
            }
            assert forall|j1: int, j2: int| 0 <= j1 < j2 < d.len() implies #[trigger] d[j1] != #[trigger] d[j2] by {
                assert(d[j2] == rest[j2 - 1]);
                if j1 == 0 {
                    let q = choose|q: int| p + 1 <= q < 32 && bit(x, q) && #[trigger] rest[j2 - 1] == x & !(1u32 << (q as u32));
                    lemma_bit_cleared(x, q);
                    assert(bit(d[j2], p));
                    assert(!bit(e, p));
                } else {
                    assert(d[j1] == rest[j1 - 1]);
                }
            }
        } else {
            assert(d == rest);
            assert forall|j1: int, j2: int| 0 <= j1 < j2 < d.len() implies #[trigger] d[j1] != #[trigger] d[j2] by {
                assert(d[j1] == rest[j1] && d[j2] == rest[j2]);
            }
            assert forall|j: int| 0 <= j < d.len() implies exists|q: int|
                p <= q < 32 && bit(x, q) && #[trigger] d[j] == x & !(1u32 << (q as u32)) by {
                let q = choose|q: int| p + 1 <= q < 32 && bit(x, q) && #[trigger] rest[j] == x & !(1u32 << (q as u32));
                assert(p <= q < 32 && bit(x, q) && d[j] == x & !(1u32 << (q as u32)));
            }
        }
    }
}

/// The empty mask has no bits.
pub proof fn lemma_pop_zero(i: int)
    requires
        0 <= i <= 32,
    ensures
        pop_from(0u32, i) == 0,
    decreases 32 - i,
{
    lemma_bits_zero();
    if i < 32 {
        lemma_pop_zero(i + 1);
    }
}

/// The bits of `x | y` count those of `x` and of `y` when they share none.
pub proof fn lemma_pop_or_disjoint(x: u32, y: u32, i: int)
    requires
        0 <= i <= 32,
        forall|t: int| #[trigger] bit(x, t) ==> !bit(y, t),
    ensures
        pop_from(x | y, i) == pop_from(x, i) + pop_from(y, i),
    decreases 32 - i,
{
    lemma_bits_logic(x, y);
    if i < 32 {
        lemma_pop_or_disjoint(x, y, i + 1);
        assert(bit(x | y, i) == (bit(x, i) || bit(y, i)));
    }
}

/// A single bit counts one.
pub proof fn lemma_pop_single(s: u32, i: int)
    requires
        s < 32,
        0 <= i <= 32,
    ensures
        pop_from(1u32 << s, i) == (if i <= s { 1nat } else { 0nat }),
    decreases 32 - i,
{
    assert forall|t: int| #[trigger] bit(1u32 << s, t) == (t == s) by {
        if 0 <= t < 32 {
            let tt = t as u32;
            assert((((1u32 << s) >> tt) & 1 == 1) == (tt == s)) by (bit_vector)
                requires
                    s < 32,
                    tt < 32,
            ;
        }
    }
    if i < 32 {
        lemma_pop_single(s, i + 1);
    }
}

/// The bits of `x & !y` and of `y` together are those of `x`, where `y`
/// lies inside `x`.
pub proof fn lemma_pop_inside(x: u32, y: u32, i: int)
    requires
        0 <= i <= 32,
        forall|t: int| #[trigger] bit(y, t) ==> bit(x, t),
    ensures
        pop_from(x & !y, i) + pop_from(y, i) == pop_from(x, i),
    decreases 32 - i,
{
    lemma_bits_logic(x, y);
    if i < 32 {
        lemma_pop_inside(x, y, i + 1);
        assert(bit(x & !y, i) == (bit(x, i) && !bit(y, i)));
    }
}

/// `low_mask(n)` has `n` bits.
pub proof fn lemma_low_mask_pop(n: u32, i: int)
    requires
        n <= 32,
        0 <= i <= 32,
    ensures
        pop_from(low_mask(n), i) == if i <= n { (n - i) as nat } else { 0nat },
    decreases 32 - i,
{
    lemma_low_mask(n);
    if i < 32 {
        lemma_low_mask_pop(n, i + 1);
        assert(bit(low_mask(n), i) == (i < n));
    }
}

/// Clearing a set bit `s` removes one from the count at or below `s`.
pub proof fn lemma_pop_clear_bit(x: u32, s: int, i: int)
    requires
        0 <= s < 32,
        0 <= i <= 32,
        bit(x, s),
    ensures
        pop_from(x & !(1u32 << (s as u32)), i) + (if i <= s { 1nat } else { 0nat }) == pop_from(x, i),
    decreases 32 - i,
{
    lemma_bit_cleared(x, s);
    if i < 32 {
        lemma_pop_clear_bit(x, s, i + 1);
        assert(bit(x & !(1u32 << (s as u32)), i) == (bit(x, i) && i != s));
    }
}

/// Clearing a set bit makes a mask smaller.
/// Or-ing in zero changes nothing.
pub proof fn lemma_or_zero(x: u32)
    by (bit_vector)
    ensures
        0u32 | x == x,
        x | 0u32 == x,
{
}

/// Bitwise and commutes.
pub proof fn lemma_and_comm(x: u32, y: u32)
    by (bit_vector)
    ensures
        x & y == y & x,
{
}

/// A bit shifted into a word is at least one.
pub proof fn lemma_shift_pos(a: u32)
    by (bit_vector)
    requires
        a < 32,
    ensures
        1u32 << a >= 1,
{
}

pub proof fn lemma_clear_smaller(x: u32, c: u32)
    by (bit_vector)
    requires
        c < 32,
        (x >> c) & 1 == 1,
    ensures
        x & !(1u32 << c) < x,
{
}

} // verus!
