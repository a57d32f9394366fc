//! Independent verifier for a claimed `S(4,5,v)`.
//!
//! It expands every block into its five 4-subsets and checks the covering
//! condition directly from the definition: every 4-subset of `[v]` lies in
//! exactly one block. A 4-subset is filed under its colex rank among the
//! 4-subsets of `[v]`, which is a bijection onto `0..C(v,4)`.
use vstd::prelude::*;
use crate::bits::{bit, binom, colex, popcount, pop_from, below, low_mask, lemma_low_mask, lemma_bits_logic,
    lemma_colex_below, lemma_colex_injective, lemma_pop_clear_bit, lemma_bit_cleared};
use crate::check::{positions, lemma_positions};
use crate::combi::{Binom, colex_partial};
use crate::text::{push_decimal, push_str, string_from_chars, decimal, str_chars};
use crate::lex::{split_lines, words, parse_u32, numeral, pieces, line_ranges, word_ranges, parse_u32_range, unsigned_digits, all_digits};

verus! {

/// The points of `b` below `v`, ascending.
pub open spec fn block_points(b: u32, v: u32) -> Seq<u32> {
    positions(b & low_mask(v), 0)
}

/// The 4-subset left when point `x` is taken out of the points of `b`
/// below `v`.
pub open spec fn drop_point(b: u32, v: u32, x: u32) -> u32 {
    (b & low_mask(v)) & !(1u32 << x)
}

/// The 4-subsets of the first `i` blocks, block by block, each block's in
/// ascending order of the point left out.
pub open spec fn four_sets(bs: Seq<u32>, v: u32, i: nat) -> Seq<u32>
    decreases i,
{
    if i == 0 {
        Seq::empty()
    } else {
        let b = bs[i - 1];
        four_sets(bs, v, (i - 1) as nat) + block_points(b, v).map_values(|x: u32| drop_point(b, v, x))
    }
}

/// `bs` is a Steiner system `S(4,5,v)`: every block has five points, all
/// in `[v]`, the blocks are distinct, there are `C(v,4)/5` of them, and their
/// 4-subsets are pairwise distinct and are all `C(v,4)` 4-subsets of `[v]`.
pub open spec fn is_s45(v: u32, bs: Seq<u32>) -> bool {
    let d = four_sets(bs, v, bs.len());
    &&& forall|i: int| 0 <= i < bs.len() ==> #[trigger] block_points(bs[i], v).len() == 5
    &&& forall|i: int| 0 <= i < bs.len() ==> below(#[trigger] bs[i], v as int)
    &&& forall|i: int, j: int| 0 <= i < j < bs.len() ==> bs[i] != bs[j]
    &&& bs.len() == binom(v as nat, 4) / 5
    &&& forall|a: int, b: int| 0 <= a < b < d.len() ==> d[a] != d[b]
    &&& d.len() == binom(v as nat, 4)
    &&& forall|q: u32| popcount(q) == 4 && below(q, v as int) ==> #[trigger] d.contains(q)
}

/// The points of `mask` below `v`.
pub(crate) fn points(mask: u32, v: u32) -> (p: Vec<u32>)
    requires
        v <= 32,
    ensures
        p@ == block_points(mask, v),
{
    let ghost bl = mask & low_mask(v);
    proof {
        lemma_low_mask(v);
        lemma_bits_logic(mask, low_mask(v));
    }
    let mut out: Vec<u32> = Vec::new();
    let mut i: u32 = 0;
    while i < v
        invariant
            v <= 32,
            bl == mask & low_mask(v),
            forall|t: int| #[trigger] bit(bl, t) == (bit(mask, t) && t < v),
            i <= v,
            out@ + positions(bl, i as int) == positions(bl, 0),
        decreases v - i,
    {
        let ghost before = out@;
        assert(((mask >> i) & 1 == 0) || ((mask >> i) & 1 == 1)) by (bit_vector);
        if (mask >> i) & 1 == 1 {
            out.push(i);
            assert(positions(bl, i as int) == seq![i] + positions(bl, i as int + 1));
            assert(out@ + positions(bl, i as int + 1) =~= before + positions(bl, i as int));
        } else {
            assert(positions(bl, i as int) =~= positions(bl, i as int + 1));
        }
        i += 1;
    }
    proof {
        lemma_positions_empty(bl, v as int);
        assert(out@ + Seq::<u32>::empty() =~= out@);
    }
    out
}

/// No set bits from `i` on: no positions there.
proof fn lemma_positions_empty(x: u32, i: int)
    requires
        0 <= i <= 32,
        forall|t: int| i <= t < 32 ==> !#[trigger] bit(x, t),
    ensures
        positions(x, i) == Seq::<u32>::empty(),
    decreases 32 - i,
{
    if i < 32 {
        lemma_positions_empty(x, i + 1);
        assert(positions(x, i) =~= positions(x, i + 1));
    }
}

/// `C(v, 4)` by the multiplicative formula.
fn choose4(v: u32) -> (c: u64)
    requires
        v <= 32,
    ensures
        c == binom(v as nat, 4),
{
    let mut x: u64 = 1;
    let mut i: u64 = 0;
    while i < 4
        invariant
            v <= 32,
            i <= 4,
            x == binom(v as nat, i as nat),
        decreases 4 - i,
    {
        proof {
            crate::bits::lemma_binom_fits(v as nat, i as nat);
            crate::witness::lemma_binom_step(v as nat, i as nat);
        }
        if i > v as u64 {
            proof {
                crate::bits::lemma_binom_above(v as nat, (i + 1) as nat);
            }
            x = 0;
        } else {
            assert(x * (v - i) <= 0xFFFF_FFFF * 32) by (nonlinear_arith)
                requires
                    x <= 0xFFFF_FFFF,
                    0 <= v - i <= 32,
            ;
            let p = x * (v as u64 - i);
            proof {
                let b1 = binom(v as nat, (i + 1) as nat);
                let b0 = binom(v as nat, i as nat);
                assert((i + 1) * b1 == p) by (nonlinear_arith)
                    requires
                        (i + 1) * b1 == (v - i) * b0,
                        p == x * (v - i),
                        x == b0,
                ;
                assert(p as int / (i + 1) as int == b1) by (nonlinear_arith)
                    requires
                        (i + 1) * b1 == p,
                        i + 1 > 0,
                ;
            }
            x = p / (i + 1);
        }
        i += 1;
    }
    x
}

/// The sets of the first `i` blocks are a prefix of those of more blocks.
proof fn lemma_four_sets_prefix(bs: Seq<u32>, v: u32, i: nat, n: nat)
    requires
        i <= n <= bs.len(),
    ensures
        four_sets(bs, v, i).len() <= four_sets(bs, v, n).len(),
        forall|a: int| 0 <= a < four_sets(bs, v, i).len() ==> #[trigger] four_sets(bs, v, n)[a] == four_sets(bs, v, i)[a],
    decreases n - i,
{
    if i < n {
        lemma_four_sets_prefix(bs, v, i, (n - 1) as nat);
    }
}

/// The 4-subset dropping the `j`-th point of a five-point block has four
/// points, all below `v`.
proof fn lemma_drop_shape(b: u32, v: u32, j: int)
    requires
        v <= 32,
        block_points(b, v).len() == 5,
        0 <= j < 5,
    ensures
        popcount(drop_point(b, v, block_points(b, v)[j])) == 4,
        below(drop_point(b, v, block_points(b, v)[j]), v as int),
        block_points(b, v)[j] < v,
{
    let bl = b & low_mask(v);
    lemma_positions(bl, 0);
    lemma_low_mask(v);
    lemma_bits_logic(b, low_mask(v));
    let x = block_points(b, v)[j];
    assert(bit(bl, x as int));
    lemma_pop_clear_bit(bl, x as int, 0);
    lemma_bit_cleared(bl, x as int);
}

/// Two different points dropped from one block leave different sets.
proof fn lemma_drops_differ(b: u32, v: u32, j1: int, j2: int)
    requires
        v <= 32,
        block_points(b, v).len() == 5,
        0 <= j1 < j2 < 5,
    ensures
        drop_point(b, v, block_points(b, v)[j1]) != drop_point(b, v, block_points(b, v)[j2]),
{
    let bl = b & low_mask(v);
    lemma_positions(bl, 0);
    let x1 = block_points(b, v)[j1];
    let x2 = block_points(b, v)[j2];
    assert(x1 < x2);
    lemma_bit_cleared(bl, x1 as int);
    lemma_bit_cleared(bl, x2 as int);
    assert(bit(drop_point(b, v, x2), x1 as int));
    assert(!bit(drop_point(b, v, x1), x1 as int));
}

/// `Ok(message)` if `blocks` is a valid `S(4,5,v)`; otherwise the first
/// failed check.
#[verifier::rlimit(80)]
pub fn verify(v: u32, blocks: &[u32]) -> (res: Result<String, String>)
    requires
        v <= 32,
    ensures
        res is Ok <==> is_s45(v, blocks@),
        res matches Ok(m) ==> m@ == "valid S(4,5,"@ + decimal(v as nat) + "): "@ + decimal(blocks@.len()) + " blocks, all "@
            + decimal(binom(v as nat, 4)) + " 4-subsets covered exactly once"@,
{
    broadcast use vstd::std_specs::hash::group_hash_axioms;
    let ghost bs = blocks@;
    let need = choose4(v);
    let expect_blocks = need / 5;
    proof {
        crate::bits::lemma_binom_fits(v as nat, 4);
    }

    let lowv: u32 = if v >= 32 {
        0xFFFF_FFFF
    } else {
        proof {
            crate::bits::lemma_shift_pos(v);
        }
        (1u32 << v) - 1
    };
    assert(lowv == low_mask(v));
    proof {
        lemma_low_mask(v);
        crate::bits::lemma_bits_zero();
    }
    let mut i: usize = 0;
    while i < blocks.len()
        invariant
            v <= 32,
            bs == blocks@,
            i <= bs.len(),
            lowv == low_mask(v),
            forall|t: int| 0 <= t < 32 ==> (#[trigger] bit(low_mask(v), t) <==> t < v),
            forall|t: int| !#[trigger] bit(0u32, t),
            forall|a: int| 0 <= a < i ==> #[trigger] block_points(bs[a], v).len() == 5,
            forall|a: int| 0 <= a < i ==> below(#[trigger] bs[a], v as int),
        decreases bs.len() - i,
    {
        let b = blocks[i];
        let p = points(b, v);
        if p.len() != 5 {
            let mut d: Vec<char> = Vec::new();
            push_str(&mut d, "block ");
            crate::check::push_hex(&mut d, b);
            push_str(&mut d, " has ");
            push_decimal(&mut d, p.len() as u64);
            push_str(&mut d, " points, expected 5");
            return Err(string_from_chars(&d));
        }
        proof {
            lemma_bits_logic(b, lowv);
            if b & !lowv != 0 {
                crate::solver::engine::lemma_lowest_bit(b & !lowv);
            }
        }
        if b & !lowv != 0 {
            let mut d: Vec<char> = Vec::new();
            push_str(&mut d, "block ");
            crate::check::push_hex(&mut d, b);
            push_str(&mut d, " has a point outside [0,");
            push_decimal(&mut d, v as u64);
            push_str(&mut d, ")");
            return Err(string_from_chars(&d));
        }
        proof {
            assert forall|t: int| v <= t < 32 implies !#[trigger] bit(b, t) by {
                assert(!bit(b & !lowv, t));
            }
        }
        i += 1;
    }
    let mut seen: std::collections::HashSet<u32> = std::collections::HashSet::new();
    let mut i: usize = 0;
    while i < blocks.len()
        invariant
            bs == blocks@,
            i <= bs.len(),
            forall|x: u32| #[trigger] seen@.contains(x) <==> exists|a: int| 0 <= a < i && bs[a] == x,
            forall|a: int, b: int| 0 <= a < b < i ==> bs[a] != bs[b],
        decreases bs.len() - i,
    {
        let b = blocks[i];
        let fresh = seen.insert(b);
        if !fresh {
            proof {
                let a = choose|a: int| 0 <= a < i && bs[a] == b;
                assert(bs[a] == bs[i as int]);
            }
            return Err(string_from_chars(&str_vec("duplicate blocks")));
        }
        proof {
            assert forall|x: u32| #[trigger] seen@.contains(x) <==> exists|a: int| 0 <= a < i + 1 && bs[a] == x by {
                if x == b {
                    assert(bs[i as int] == x);
                } else if exists|a: int| 0 <= a < i + 1 && bs[a] == x {
                    let a = choose|a: int| 0 <= a < i + 1 && bs[a] == x;
                    assert(a < i);
                }
            }
            assert forall|a: int, c: int| 0 <= a < c < i + 1 implies bs[a] != bs[c] by {
                if c == i && bs[a] == bs[c] {
                    assert(seen@.contains(b)) by {
                        assert(exists|a2: int| 0 <= a2 < i && bs[a2] == b);
                    }
                }
            }
        }
        i += 1;
    }
    if blocks.len() as u64 != expect_blocks {
        let mut d: Vec<char> = Vec::new();
        push_decimal(&mut d, blocks.len() as u64);
        push_str(&mut d, " blocks, an S(4,5,");
        push_decimal(&mut d, v as u64);
        push_str(&mut d, ") has exactly ");
        push_decimal(&mut d, expect_blocks);
        return Err(string_from_chars(&d));
    }

    // every 4-subset of a block, filed under its rank
    let tab = Binom::new();
    let ns = need as usize;
    let mut slots: Vec<Option<u32>> = Vec::new();
    let mut z: usize = 0;
    while z < ns
        invariant
            z <= ns,
            slots@.len() == z,
            forall|x: int| 0 <= x < z ==> (#[trigger] slots@[x]) is None,
        decreases ns - z,
    {
        slots.push(None);
        z += 1;
    }
    let mut filled: usize = 0;
    let mut i: usize = 0;
    while i < blocks.len()
        invariant
            v <= 32,
            tab.wf(),
            bs == blocks@,
            lowv == low_mask(v),
            ns == binom(v as nat, 4),
            ns <= 0xFFFF_FFFF,
            bs.len() == ns / 5,
            forall|a: int| 0 <= a < bs.len() ==> #[trigger] block_points(bs[a], v).len() == 5,
            i <= bs.len(),
            slots@.len() == ns,
            filled == four_sets(bs, v, i as nat).len(),
            four_sets(bs, v, i as nat).len() == 5 * i,
            forall|a: int| 0 <= a < four_sets(bs, v, i as nat).len() ==> popcount(#[trigger] four_sets(bs, v, i as nat)[a]) == 4
                && colex(four_sets(bs, v, i as nat)[a]) < ns,
            forall|a: int, c: int| 0 <= a < c < four_sets(bs, v, i as nat).len() ==> four_sets(bs, v, i as nat)[a] != four_sets(bs, v, i as nat)[c],
            forall|x: int| 0 <= x < ns ==> ((#[trigger] slots@[x]) is Some <==> exists|a: int| 0 <= a < four_sets(bs, v, i as nat).len() && colex(four_sets(bs, v, i as nat)[a]) == x),
        decreases bs.len() - i,
    {
        let b = blocks[i];
        let p = points(b, v);
        let ghost base = four_sets(bs, v, i as nat);
        let ghost mine = block_points(b, v).map_values(|x: u32| drop_point(b, v, x));
        proof {
            assert(four_sets(bs, v, (i + 1) as nat) == base + mine);
            assert(base + mine.take(0) =~= base);
        }
        let mut j: usize = 0;
        while j < 5
            invariant
                v <= 32,
                tab.wf(),
                bs == blocks@,
                lowv == low_mask(v),
                ns == binom(v as nat, 4),
                ns <= 0xFFFF_FFFF,
                i < bs.len(),
                b == bs[i as int],
                p@ == block_points(b, v),
                p@.len() == 5,
                base == four_sets(bs, v, i as nat),
                mine == block_points(b, v).map_values(|x: u32| drop_point(b, v, x)),
                four_sets(bs, v, (i + 1) as nat) == base + mine,
                j <= 5,
                slots@.len() == ns,
                bs.len() == ns / 5,
                base.len() == 5 * i,
                filled == base.len() + j,
                forall|a: int| 0 <= a < (base + mine.take(j as int)).len() ==> popcount(#[trigger] (base + mine.take(j as int))[a]) == 4
                    && colex((base + mine.take(j as int))[a]) < ns,
                forall|a: int, c: int| 0 <= a < c < (base + mine.take(j as int)).len() ==> (base + mine.take(j as int))[a] != (base + mine.take(j as int))[c],
                forall|x: int| 0 <= x < ns ==> ((#[trigger] slots@[x]) is Some <==> exists|a: int| 0 <= a < (base + mine.take(j as int)).len() && colex((base + mine.take(j as int))[a]) == x),
            decreases 5 - j,
        {
            let ghost cur = base + mine.take(j as int);
            let ghost next = base + mine.take(j + 1);
            let x = p[j];
            proof {
                lemma_drop_shape(b, v, j as int);
            }
            let q = (b & lowv) & !(1u32 << x);
            proof {
                assert(q == mine[j as int]);
                lemma_colex_below(q, v as int, 0, 0);
                assert(binom(0, 0) == 1);
                assert(next == cur.push(q));
            }
            let r = colex_partial(&tab, q, 0, 0) as usize;
            match slots[r] {
                Some(prev) => {
                    proof {
                        let a = choose|a: int| 0 <= a < cur.len() && colex(cur[a]) == r;
                        lemma_colex_injective(cur[a], q);
                        let n = bs.len() as nat;
                        lemma_four_sets_prefix(bs, v, (i + 1) as nat, n);
                        let d = four_sets(bs, v, n);
                        assert(d[a] == cur[a]);
                        assert(d[cur.len() as int] == next[cur.len() as int]);
                        assert(!is_s45(v, bs));
                    }
                    let mut d: Vec<char> = Vec::new();
                    push_str(&mut d, "4-set ");
                    let qp = points(q, v);
                    let mut qv: Vec<u64> = Vec::new();
                    let mut t: usize = 0;
                    while t < qp.len()
                        decreases qp@.len() - t,
                    {
                        qv.push(qp[t] as u64);
                        t += 1;
                    }
                    crate::check::push_list(&mut d, &qv);
                    push_str(&mut d, " appears in blocks ");
                    crate::check::push_hex(&mut d, prev);
                    push_str(&mut d, " and ");
                    crate::check::push_hex(&mut d, b);
                    return Err(string_from_chars(&d));
                },
                None => {},
            }
            slots.set(r, Some(b));
            proof {
                assert forall|a: int| 0 <= a < cur.len() implies #[trigger] next[a] == cur[a] by {}
                assert(next[cur.len() as int] == q);
                assert(colex(q) == r);
                assert forall|a: int, c: int| 0 <= a < c < next.len() implies next[a] != next[c] by {
                    if c == cur.len() {
                        if next[a] == q {
                            assert(slots@[r as int] is Some) by {
                                assert(colex(cur[a]) == r);
                            }
                        }
                    }
                }
                assert forall|x2: int| 0 <= x2 < ns implies ((#[trigger] slots@[x2]) is Some <==> exists|a: int| 0 <= a < next.len() && colex(next[a]) == x2) by {
                    if x2 == r {
                        assert(colex(next[cur.len() as int]) == x2);
                    } else {
                        if exists|a: int| 0 <= a < next.len() && colex(next[a]) == x2 {
                            let a = choose|a: int| 0 <= a < next.len() && colex(next[a]) == x2;
                            assert(a < cur.len());
                            assert(colex(cur[a]) == x2);
                        }
                        if exists|a: int| 0 <= a < cur.len() && colex(cur[a]) == x2 {
                            let a = choose|a: int| 0 <= a < cur.len() && colex(cur[a]) == x2;
                            assert(colex(next[a]) == x2);
                        }
                    }
                }
            }
            proof {
                assert(i < ns / 5);
                assert(filled < ns) by (nonlinear_arith)
                    requires
                        filled == 5 * i + j,
                        i < ns / 5,
                        j < 5,
                ;
            }
            filled += 1;
            j += 1;
        }
        proof {
            assert(mine.take(5) =~= mine);
        }
        i += 1;
    }
    let ghost d = four_sets(bs, v, bs.len());
    if filled != ns {
        let mut dd: Vec<char> = Vec::new();
        push_str(&mut dd, "covered ");
        push_decimal(&mut dd, filled as u64);
        push_str(&mut dd, " of ");
        push_decimal(&mut dd, need);
        push_str(&mut dd, " 4-subsets");
        return Err(string_from_chars(&dd));
    }

    // and: every rank holds a 4-subset
    let mut missing: u64 = 0;
    let mut witness: Option<usize> = None;
    let mut x: usize = 0;
    while x < ns
        invariant
            slots@.len() == ns,
            x <= ns,
            missing <= x,
            missing == 0 <==> witness is None,
            witness matches Some(w) ==> w < ns && slots@[w as int] is None,
            missing == 0 ==> forall|x2: int| 0 <= x2 < x ==> (#[trigger] slots@[x2]) is Some,
        decreases ns - x,
    {
        if slots[x].is_none() {
            missing += 1;
            witness = Some(x);
        }
        x += 1;
    }
    if missing != 0 {
        proof {
            let w = witness->0;
            assert(!(exists|a: int| 0 <= a < d.len() && colex(d[a]) == w));
        }
        let w = match witness {
            Some(w) => w,
            None => 0,
        };
        let q = crate::combi::colex_unrank(&tab, v, 4, w as u64);
        proof {
            if d.contains(q) {
                let a = choose|a: int| 0 <= a < d.len() && d[a] == q;
                assert(colex(d[a]) == w);
            }
            assert(!is_s45(v, bs));
        }
        let mut dd: Vec<char> = Vec::new();
        push_decimal(&mut dd, missing);
        push_str(&mut dd, " 4-subsets uncovered");
        return Err(string_from_chars(&dd));
    }
    proof {
        assert forall|q: u32| popcount(q) == 4 && below(q, v as int) implies #[trigger] d.contains(q) by {
            lemma_colex_below(q, v as int, 0, 0);
            assert(binom(0, 0) == 1);
            let r = colex(q) as int;
            assert(slots@[r] is Some);
            let a = choose|a: int| 0 <= a < d.len() && colex(d[a]) == r;
            lemma_colex_injective(d[a], q);
        }
    }
    let mut dd: Vec<char> = Vec::new();
    push_str(&mut dd, "valid S(4,5,");
    push_decimal(&mut dd, v as u64);
    push_str(&mut dd, "): ");
    push_decimal(&mut dd, blocks.len() as u64);
    push_str(&mut dd, " blocks, all ");
    push_decimal(&mut dd, need);
    push_str(&mut dd, " 4-subsets covered exactly once");
    Ok(string_from_chars(&dd))
}

fn str_vec(s: &str) -> (v: Vec<char>)
    ensures
        v@ == s@,
{
    let mut v: Vec<char> = Vec::new();
    push_str(&mut v, s);
    assert(v@ =~= s@);
    v
}


// ---------------------------------------------------------------------------
// Block files
// ---------------------------------------------------------------------------

/// Why a word is not a point: the words `u32::from_str` gives.
pub open spec fn number_error(w: Seq<char>) -> Seq<char> {
    if numeral(w) is Some {
        "number too large to fit in target type"@
    } else {
        "invalid digit found in string"@
    }
}

/// The block named by the words `ws` of one line: each word a point below
/// 32; the first word that is not gives the error.
pub open spec fn block_of(ws: Seq<Seq<char>>) -> Result<u32, Seq<char>>
    decreases ws.len(),
{
    if ws.len() == 0 {
        Ok(0u32)
    } else {
        match block_of(ws.drop_last()) {
            Err(e) => Err(e),
            Ok(m) => match parse_u32(ws.last()) {
                None => Err(number_error(ws.last())),
                Some(x) => if x >= 32 {
                    Err("point "@ + decimal(x as nat) + " out of range"@)
                } else {
                    Ok(m | (1u32 << x))
                },
            },
        }
    }
}

/// The blocks of a block file with lines `ls`: one block per line that has
/// a word, in file order; the first bad word gives the error.
pub open spec fn blocks_of(ls: Seq<Seq<char>>) -> Result<Seq<u32>, Seq<char>>
    decreases ls.len(),
{
    if ls.len() == 0 {
        Ok(Seq::empty())
    } else {
        match blocks_of(ls.drop_last()) {
            Err(e) => Err(e),
            Ok(bs) => {
                let ws = words(ls.last());
                if ws.len() == 0 {
                    Ok(bs)
                } else {
                    match block_of(ws) {
                        Err(e) => Err(e),
                        Ok(m) => Ok(bs.push(m)),
                    }
                }
            },
        }
    }
}

/// Whether the characters `v[lo..hi]` are a decimal numeral, with an
/// optional leading `+`.
fn is_numeral(v: &Vec<char>, lo: usize, hi: usize) -> (b: bool)
    requires
        lo <= hi <= v@.len(),
    ensures
        b == numeral(v@.subrange(lo as int, hi as int)) is Some,
{
    let ghost s = v@.subrange(lo as int, hi as int);
    let start = if lo < hi && v[lo] == '+' { lo + 1 } else { lo };
    proof {
        assert(unsigned_digits(s) =~= v@.subrange(start as int, hi as int));
    }
    if start >= hi {
        return false;
    }
    let mut i = start;
    while i < hi
        invariant
            lo <= start <= i <= hi <= v@.len(),
            s == v@.subrange(lo as int, hi as int),
            unsigned_digits(s) == v@.subrange(start as int, hi as int),
            forall|q: int| start <= q < i ==> '0' <= #[trigger] v@[q] <= '9',
        decreases hi - i,
    {
        if v[i] < '0' || v[i] > '9' {
            proof {
                assert(!all_digits(unsigned_digits(s))) by {
                    assert(unsigned_digits(s)[i - start] == v@[i as int]);
                }
            }
            return false;
        }
        i += 1;
    }
    proof {
        assert(all_digits(unsigned_digits(s))) by {
            assert forall|q: int| 0 <= q < unsigned_digits(s).len() implies crate::util::is_digit(#[trigger] unsigned_digits(s)[q]) by {
                assert(unsigned_digits(s)[q] == v@[start + q]);
            }
        }
    }
    true
}

/// Read a block file: each line that has a word lists the points of one
/// block, separated by whitespace; every point is below 32.
pub fn read_blocks(text: &str) -> (r: Result<Vec<u32>, String>)
    ensures
        match r {
            Ok(bs) => blocks_of(split_lines(text@)) == Ok::<Seq<u32>, Seq<char>>(bs@),
            Err(e) => blocks_of(split_lines(text@)) == Err::<Seq<u32>, Seq<char>>(e@),
        },
{
    let v = str_chars(text);
    let ls = line_ranges(&v);
    let ghost lines = split_lines(text@);
    let mut out: Vec<u32> = Vec::new();
    let mut li: usize = 0;
    while li < ls.len()
        invariant
            v@ == text@,
            pieces(v@, ls@) == lines,
            lines == split_lines(text@),
            forall|i: int| 0 <= i < ls@.len() ==> #[trigger] ls@[i].0 <= ls@[i].1 <= v@.len(),
            li <= ls@.len(),
            blocks_of(lines.take(li as int)) == Ok::<Seq<u32>, Seq<char>>(out@),
        decreases ls@.len() - li,
    {
        let (a, b) = ls[li];
        let ws = word_ranges(&v, a, b);
        let ghost line = v@.subrange(a as int, b as int);
        let ghost wv = words(line);
        proof {
            assert(lines.len() == ls@.len());
            assert(lines[li as int] == line);
            assert(lines.take(li + 1).drop_last() =~= lines.take(li as int));
            assert(lines.take(li + 1).last() == line);
        }
        if ws.len() > 0 {
            let mut m: u32 = 0;
            let mut wi: usize = 0;
            while wi < ws.len()
                invariant
                    pieces(v@, ws@) == wv,
                    forall|i: int| 0 <= i < ws@.len() ==> a <= #[trigger] ws@[i].0 <= ws@[i].1 <= b,
                    b <= v@.len(),
                    wi <= ws@.len(),
                    ws@.len() > 0,
                    li < ls@.len(),
                    lines.len() == ls@.len(),
                    lines[li as int] == line,
                    wv == words(line),
                    lines == split_lines(text@),
                    blocks_of(lines.take(li as int)) == Ok::<Seq<u32>, Seq<char>>(out@),
                    block_of(wv.take(wi as int)) == Ok::<u32, Seq<char>>(m),
                decreases ws@.len() - wi,
            {
                let (wa, wb) = ws[wi];
                let ghost w = v@.subrange(wa as int, wb as int);
                proof {
                    assert(wv[wi as int] == w);
                    assert(wv.take(wi + 1).drop_last() =~= wv.take(wi as int));
                    assert(wv.take(wi + 1).last() == w);
                }
                match parse_u32_range(&v, wa, wb) {
                    None => {
                        let big = is_numeral(&v, wa, wb);
                        let msg = if big {
                            String::from_str("number too large to fit in target type")
                        } else {
                            String::from_str("invalid digit found in string")
                        };
                        proof {
                            reveal_strlit("number too large to fit in target type");
                            reveal_strlit("invalid digit found in string");
                            assert(msg@ == number_error(w));
                            lemma_block_err(wv, wi as int, msg@);
                            lemma_blocks_err(lines, li as int, msg@);
                        }
                        return Err(msg);
                    },
                    Some(x) => {
                        if x >= 32 {
                            let mut d: Vec<char> = Vec::new();
                            push_str(&mut d, "point ");
                            push_decimal(&mut d, x as u64);
                            push_str(&mut d, " out of range");
                            let msg = string_from_chars(&d);
                            proof {
                                lemma_block_err(wv, wi as int, msg@);
                                lemma_blocks_err(lines, li as int, msg@);
                            }
                            return Err(msg);
                        }
                        m = m | (1u32 << x);
                    },
                }
                wi += 1;
            }
            proof {
                assert(wv.take(ws@.len() as int) =~= wv);
            }
            out.push(m);
        }
        li += 1;
    }
    proof {
        assert(lines.take(ls@.len() as int) =~= lines);
    }
    Ok(out)
}

/// An error at word `i` is the error of the whole line.
proof fn lemma_block_err(ws: Seq<Seq<char>>, i: int, e: Seq<char>)
    requires
        0 <= i < ws.len(),
        block_of(ws.take(i + 1)) == Err::<u32, Seq<char>>(e),
    ensures
        block_of(ws) == Err::<u32, Seq<char>>(e),
    decreases ws.len() - i,
{
    if i + 1 < ws.len() {
        assert(ws.take(i + 2).drop_last() =~= ws.take(i + 1));
        lemma_block_err(ws, i + 1, e);
    } else {
        assert(ws.take(i + 1) =~= ws);
    }
}

/// An error on line `i` is the error of the whole file.
proof fn lemma_blocks_err(ls: Seq<Seq<char>>, i: int, e: Seq<char>)
    requires
        0 <= i < ls.len(),
        blocks_of(ls.take(i)) is Ok,
        words(ls[i]).len() > 0,
        block_of(words(ls[i])) == Err::<u32, Seq<char>>(e),
    ensures
        blocks_of(ls) == Err::<Seq<u32>, Seq<char>>(e),
{
    assert(ls.take(i + 1).drop_last() =~= ls.take(i));
    assert(ls.take(i + 1).last() == ls[i]);
    lemma_blocks_err_tail(ls, i + 1, e);
}

proof fn lemma_blocks_err_tail(ls: Seq<Seq<char>>, j: int, e: Seq<char>)
    requires
        0 < j <= ls.len(),
        blocks_of(ls.take(j)) == Err::<Seq<u32>, Seq<char>>(e),
    ensures
        blocks_of(ls) == Err::<Seq<u32>, Seq<char>>(e),
    decreases ls.len() - j,
{
    if j < ls.len() {
        assert(ls.take(j + 1).drop_last() =~= ls.take(j));
        lemma_blocks_err_tail(ls, j + 1, e);
    } else {
        assert(ls.take(j) =~= ls);
    }
}

} // verus!
