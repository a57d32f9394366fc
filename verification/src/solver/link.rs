//! Link-ordered branching and rung checks.
//!
//! For a level `t` and a `(k-t)`-subset `λ ⊂ [2k]`, the `k`-sets `λ ∪ B` for
//! `B ∈ binom([2k]\λ, t)` map to `C(k+t, t)` distinct `O_k` vertices. The
//! structure theorem forces the colours on that region to form a large set
//! `LS(t-1, t, k+t)`: each colour class restricted to the region must be a
//! Steiner system `S(t-1, t, k+t)`, i.e. every `(t-1)`-subset of the `k+t`
//! remaining ground points is covered exactly once per colour.
//!
//! `t = 1` degenerates to "every closed neighbourhood is rainbow", which is
//! exactly Rule B; `t >= 2` is genuinely stronger.
use vstd::prelude::*;
use crate::bits::{bit, binom, colex, popcount, pop_from, below, lemma_colex_below, lemma_pop_clear_bit, lemma_bit_cleared};
use crate::combi::{Combi, LinkCell, combo_pairs, ground_of};
use crate::util::{Rng, splitmix_mix, golden};
use crate::text::{push_decimal, push_str, string_from_chars};
use crate::check::sat;

verus! {

/// The cursor a seed selects among `total` regions: `0` for seed `0`, else
/// the first draw of the generator seeded with `seed`, reduced into
/// `0..max(total, 1)`.
pub open spec fn seeded_cursor(seed: u64, total: u64) -> u64 {
    let span = if total == 0 { 1u64 } else { total };
    if seed == 0 {
        0
    } else {
        ((splitmix_mix(seed.wrapping_add(golden()).wrapping_add(golden())) as nat * span as nat)
            / 0x1_0000_0000_0000_0000) as u64
    }
}

/// The number of level-`t` regions.
pub open spec fn region_count(c: Combi, t: u32) -> u64 {
    if 1 <= t < c.k { binom(2 * c.k as nat, (c.k - t) as nat) as u64 } else { 0 }
}

/// One step of the region walk: the next cursor, wrapping round after the
/// last region (a level without regions stays at `0`).
pub open spec fn walk_step(cursor: int, total: int) -> int {
    (cursor + 1) % (if total == 0 { 1 } else { total })
}

/// The cursor after `n` steps of the region walk.
pub open spec fn walk(cursor: int, total: int, n: nat) -> int
    decreases n,
{
    if n == 0 {
        cursor
    } else {
        walk_step(walk(cursor, total, (n - 1) as nat), total)
    }
}

/// The region walk is a cycle: `n` advances from a region reach the region
/// `n` places on, counted round the level; the first `total` advances visit
/// every region once, and the walk is then back where it started.
pub proof fn law_walk_cyclic(cursor: int, total: int, n: nat)
    requires
        total >= 0,
        0 <= cursor < (if total == 0 { 1 } else { total }),
    ensures
        walk(cursor, total, n) == (cursor + n) % (if total == 0 { 1 } else { total }),
        walk(cursor, total, (if total == 0 { 1 } else { total }) as nat) == cursor,
        forall|i: nat, j: nat|
            i < j < (if total == 0 { 1int } else { total }) ==> #[trigger] walk(cursor, total, i) != #[trigger] walk(cursor, total, j),
{
    let span = if total == 0 { 1 } else { total };
    lemma_walk(cursor, total, n);
    lemma_walk(cursor, total, span as nat);
    lemma_mod_window(cursor + span, span);
    assert forall|i: nat, j: nat| i < j < span implies #[trigger] walk(cursor, total, i) != #[trigger] walk(cursor, total, j) by {
        lemma_walk(cursor, total, i);
        lemma_walk(cursor, total, j);
        lemma_mod_window(cursor + i, span);
        lemma_mod_window(cursor + j, span);
    }
}

proof fn lemma_mod_window(x: int, m: int)
    requires
        0 < m,
        0 <= x < 2 * m,
    ensures
        x % m == (if x < m { x } else { x - m }),
{
    if x < m {
        vstd::arithmetic::div_mod::lemma_small_mod(x as nat, m as nat);
    } else {
        vstd::arithmetic::div_mod::lemma_mod_sub_multiples_vanish(x, m);
        vstd::arithmetic::div_mod::lemma_small_mod((x - m) as nat, m as nat);
    }
}

proof fn lemma_walk(cursor: int, total: int, n: nat)
    requires
        total >= 0,
        0 <= cursor < (if total == 0 { 1 } else { total }),
    ensures
        walk(cursor, total, n) == (cursor + n) % (if total == 0 { 1 } else { total }),
    decreases n,
{
    let span = if total == 0 { 1 } else { total };
    if n == 0 {
        vstd::arithmetic::div_mod::lemma_small_mod(cursor as nat, span as nat);
    } else {
        lemma_walk(cursor, total, (n - 1) as nat);
        let prev = walk(cursor, total, (n - 1) as nat);
        vstd::arithmetic::div_mod::lemma_add_mod_noop_right(1, cursor + n - 1, span);
        assert(prev == (cursor + n - 1) % span);
        assert(1 + (cursor + n - 1) == cursor + n);
        assert(walk(cursor, total, n) == (prev + 1) % span);
        assert(prev + 1 == 1 + (cursor + n - 1) % span);
    }
}

pub struct LinkPlan {
    pub t: u32,
    pub total: u64,
    pub cursor: u64,
    pub lambda: u32,
    pub cells: Vec<LinkCell>,
}

impl LinkPlan {
    /// The plan sits at region `cursor` of level `t`: `lambda` is the
    /// `(k-t)`-subset of `[2k]` of colex rank `cursor`, and `cells` is its
    /// link region.
    pub open spec fn at(&self, c: Combi) -> bool {
        &&& self.total == region_count(c, self.t)
        &&& self.cursor < (if self.total == 0 { 1u64 } else { self.total })
        &&& (1 <= self.t < c.k ==> colex(self.lambda) == self.cursor && popcount(self.lambda) == c.k - self.t
            && below(self.lambda, 2 * c.k))
        &&& (!(1 <= self.t < c.k) ==> self.lambda == 0)
        &&& ({
            let pairs = combo_pairs(ground_of(self.lambda, 0, 2 * c.k), Seq::empty(), 0, self.t as nat);
            &&& self.cells@.len() == pairs.len()
            &&& forall|i: int| 0 <= i < self.cells@.len() ==> #[trigger] self.cells@[i] == c.cell_of(self.lambda, pairs[i])
        })
    }

    pub fn new(c: &Combi, t: u32, seed: u64) -> (p: LinkPlan)
        requires
            c.wf(),
        ensures
            p.t == t,
            p.at(*c),
            p.cursor == seeded_cursor(seed, region_count(*c, t)),
    {
        let total = c.link_count(t);
        // A seeded starting offset keeps runs deterministic while letting the
        // operator explore different regions.
        let span = if total == 0 { 1 } else { total };
        let cursor = if seed == 0 {
            0
        } else {
            let mut rng = Rng::new(seed);
            rng.below(span)
        };
        let mut p = LinkPlan { t, total, cursor, lambda: 0, cells: Vec::new() };
        p.load(c, cursor);
        proof {
            assert(cursor < span);
            assert(cursor % span == cursor) by (nonlinear_arith)
                requires
                    cursor < span,
            ;
        }
        p
    }

    fn load(&mut self, c: &Combi, cursor: u64)
        requires
            c.wf(),
            old(self).total == region_count(*c, old(self).t),
        ensures
            final(self).t == old(self).t,
            final(self).at(*c),
            final(self).cursor == cursor % (if old(self).total == 0 { 1u64 } else { old(self).total }),
    {
        let span = if self.total == 0 { 1 } else { self.total };
        self.cursor = cursor % span;
        proof {
            if 1 <= self.t < c.k {
                crate::bits::lemma_binom_fits(2 * c.k as nat, (c.k - self.t) as nat);
                crate::bits::lemma_binom_pos(2 * c.k as nat, (c.k - self.t) as nat);
                assert(self.total == binom(2 * c.k as nat, (c.k - self.t) as nat));
            }
        }
        self.lambda = c.unrank_lambda(self.t, self.cursor);
        proof {
            crate::bits::lemma_bits_zero();
        }
        self.cells = c.link_region(self.lambda, self.t);
    }

    /// Move to the next `λ`. Colex order makes consecutive `λ` overlap
    /// heavily.
    pub fn advance(&mut self, c: &Combi)
        requires
            c.wf(),
            old(self).at(*c),
        ensures
            final(self).t == old(self).t,
            final(self).at(*c),
            final(self).cursor == walk_step(old(self).cursor as int, old(self).total as int),
    {
        let span = if self.total == 0 { 1 } else { self.total };
        let next = (self.cursor + 1) % span;
        self.load(c, next);
        proof {
            assert(next % span == next) by (nonlinear_arith)
                requires
                    next < span,
            ;
        }
    }

    pub fn seek(&mut self, c: &Combi, cursor: u64)
        requires
            c.wf(),
            old(self).at(*c),
        ensures
            final(self).t == old(self).t,
            final(self).at(*c),
            final(self).cursor == cursor % (if old(self).total == 0 { 1u64 } else { old(self).total }),
    {
        self.load(c, cursor);
    }
}

/// Colex rank of a subset of positions, used to index the `(t-1)`-subset
/// coverage table.
fn pos_rank(c: &Combi, mask: u32) -> (r: usize)
    requires
        c.wf(),
    ensures
        r == colex(mask),
{
    c.rank_ref(mask) as usize
}

#[derive(Debug, Clone, PartialEq, Eq)]
pub enum RungVerdict {
    /// The region is not fully assigned; nothing can be concluded.
    Incomplete { assigned: usize, total: usize },
    Pass,
    Fail(String),
}

/// How many of the first `i` colours are assigned.
pub open spec fn assigned_count(cols: Seq<Option<u8>>, i: nat) -> nat
    decreases i,
{
    if i == 0 {
        0
    } else {
        assigned_count(cols, (i - 1) as nat) + if cols[i - 1] is Some { 1nat } else { 0nat }
    }
}

/// How many of the `(t-1)`-subsets obtained by dropping one of the first
/// `q` positions of `pts` have colex rank `r`.
pub open spec fn drop_hits(pts: u32, r: nat, q: nat) -> nat
    decreases q,
{
    if q == 0 {
        0
    } else {
        let s = (q - 1) as int;
        drop_hits(pts, r, (q - 1) as nat) + if bit(pts, s) && colex(pts & !(1u32 << (s as u32))) == r {
            1nat
        } else {
            0nat
        }
    }
}

/// How often the `(t-1)`-subset of rank `r` is covered by colour `col`
/// among the first `i` cells.
pub open spec fn link_hits(cells: Seq<LinkCell>, cols: Seq<Option<u8>>, t: u32, r: nat, col: nat, i: nat) -> nat
    decreases i,
{
    if i == 0 {
        0
    } else {
        let j = (i - 1) as int;
        link_hits(cells, cols, t, r, col, (i - 1) as nat) + if cols[j] == Some(col as u8) {
            if t == 1 {
                if r == 0 { 1nat } else { 0nat }
            } else {
                drop_hits(cells[j].points, r, 32)
            }
        } else {
            0nat
        }
    }
}

/// Every `(t-1)`-subset of the `k+t` points is covered exactly once by
/// every colour.
pub open spec fn large_set(c: Combi, cells: Seq<LinkCell>, cols: Seq<Option<u8>>, t: u32) -> bool {
    forall|r: nat, col: nat| r < binom((c.k + t) as nat, (t - 1) as nat) && col < c.colors
        ==> #[trigger] link_hits(cells, cols, t, r, col, cells.len()) == 1
}

/// Verify that a fully assigned link region induces the large set
/// `LS(t-1, t, k+t)`. `colors[i]` is the colour of `cells[i].vertex`, if it
/// has one.
pub fn check_link(c: &Combi, plan_t: u32, cells: &Vec<LinkCell>, colors: &Vec<Option<u8>>) -> (v: RungVerdict)
    requires
        c.wf(),
        plan_t < c.k,
        colors@.len() == cells@.len(),
        forall|i: int| 0 <= i < colors@.len() ==> (#[trigger] colors@[i] matches Some(x) ==> x < c.colors),
        forall|i: int| 0 <= i < cells@.len() ==> popcount(#[trigger] cells@[i].points) == plan_t
            && below(cells@[i].points, (c.k + plan_t) as int),
        binom((c.k + plan_t) as nat, (plan_t - 1) as nat) * (c.k + 1) <= usize::MAX,
    ensures
        assigned_count(colors@, colors@.len()) != cells@.len() ==> v == (RungVerdict::Incomplete {
            assigned: assigned_count(colors@, colors@.len()) as usize,
            total: cells@.len() as usize,
        }),
        assigned_count(colors@, colors@.len()) == cells@.len() ==> {
            if plan_t == 0 {
                v == RungVerdict::Pass
            } else {
                (v == RungVerdict::Pass) == large_set(*c, cells@, colors@, plan_t) && (v is Pass || v is Fail)
            }
        },
{
    let mut assigned: usize = 0;
    let mut i: usize = 0;
    while i < colors.len()
        invariant
            i <= colors@.len(),
            assigned == assigned_count(colors@, i as nat),
            assigned <= i,
        decreases colors@.len() - i,
    {
        if colors[i].is_some() {
            assigned += 1;
        }
        i += 1;
    }
    if assigned != cells.len() {
        return RungVerdict::Incomplete { assigned, total: cells.len() };
    }
    if plan_t == 0 {
        return RungVerdict::Pass;
    }
    proof {
        lemma_all_assigned(colors@, colors@.len());
    }
    let w = c.k + plan_t;
    let sub = plan_t - 1;
    let nsub = c.binom.c(w, sub) as usize;
    let ncol = c.colors as usize;
    let ghost cs = cells@;
    let ghost cols = colors@;
    let mut cover: Vec<u32> = vec![0u32; nsub * ncol];
    proof {
        assert forall|r: int, col: int| 0 <= r < nsub && 0 <= col < ncol implies #[trigger] cover@[r * ncol + col] == sat(
            link_hits(cs, cols, plan_t, r as nat, col as nat, 0),
        ) by {
            lemma_index_bound(r, col, nsub as int, ncol as int);
        }
    }
    let mut j: usize = 0;
    while j < cells.len()
        invariant
            c.wf(),
            cs == cells@,
            cols == colors@,
            1 <= plan_t < c.k,
            w == c.k + plan_t,
            sub == plan_t - 1,
            nsub == binom(w as nat, sub as nat),
            ncol == c.colors,
            nsub * ncol <= usize::MAX,
            cols.len() == cs.len(),
            forall|i2: int| 0 <= i2 < cols.len() ==> (#[trigger] cols[i2] matches Some(x) ==> x < c.colors),
            forall|i2: int| 0 <= i2 < cols.len() ==> (#[trigger] cols[i2]) is Some,
            forall|i2: int| 0 <= i2 < cs.len() ==> popcount(#[trigger] cs[i2].points) == plan_t
                && below(cs[i2].points, w as int),
            cover@.len() == nsub * ncol,
            j <= cs.len(),
            forall|r: int, col: int| 0 <= r < nsub && 0 <= col < ncol ==> #[trigger] cover@[r * ncol + col] == sat(
                link_hits(cs, cols, plan_t, r as nat, col as nat, j as nat),
            ),
        decreases cs.len() - j,
    {
        proof {
            assert(cols[j as int] is Some);
        }
        let col = match colors[j] {
            Some(x) => x as usize,
            None => 0,
        };
        proof {
            assert(col < ncol);
            assert(w <= 32);
        }
        let pts = cells[j].points;
        if sub == 0 {
            proof {
                assert(nsub == 1);
                assert(cover@.len() == ncol) by (nonlinear_arith)
                    requires
                        cover@.len() == nsub * ncol,
                        nsub == 1,
                ;
            }
            let v = cover[col];
            cover.set(col, v.saturating_add(1));
            proof {
                assert forall|r: int, col2: int| 0 <= r < nsub && 0 <= col2 < ncol implies #[trigger] cover@[r * ncol + col2] == sat(
                    link_hits(cs, cols, plan_t, r as nat, col2 as nat, (j + 1) as nat),
                ) by {
                    assert(r == 0);
                }
            }
        } else {
            let mut q: u32 = 0;
            let ghost before = cover@;
            while q < 32
                invariant
                    c.wf(),
                    w == c.k + plan_t,
                    w <= 32,
                    plan_t >= 2,
                    nsub == binom(w as nat, (plan_t - 1) as nat),
                    ncol == c.colors,
                    nsub * ncol <= usize::MAX,
                    col < ncol,
                    popcount(pts) == plan_t,
                    below(pts, w as int),
                    cover@.len() == nsub * ncol,
                    before.len() == nsub * ncol,
                    q <= 32,
                    forall|r: int, col2: int| 0 <= r < nsub && 0 <= col2 < ncol ==> #[trigger] cover@[r * ncol + col2] == sat(
                        before[r * ncol + col2] as nat + if col2 == col { drop_hits(pts, r as nat, q as nat) } else { 0nat },
                    ),
                decreases 32 - q,
            {
                assert(((pts >> q) & 1 == 0) || ((pts >> q) & 1 == 1)) by (bit_vector);
                if (pts >> q) & 1 == 1 {
                    let p = pts & !(1u32 << q);
                    proof {
                        lemma_pop_clear_bit(pts, q as int, 0);
                        lemma_bit_cleared(pts, q as int);
                        assert(below(p, w as int));
                        lemma_colex_below(p, w as int, 0, 0);
                        assert(binom(0, 0) == 1);
                    }
                    let r = pos_rank(c, p);
                    proof {
                        assert(r < nsub);
                        assert(r * ncol + col < nsub * ncol) by (nonlinear_arith)
                            requires
                                r < nsub,
                                col < ncol,
                        ;
                    }
                    let idx = r * ncol + col;
                    let v = cover[idx];
                    let ghost prev = cover@;
                    cover.set(idx, v.saturating_add(1));
                    proof {
                        assert forall|r2: int, col2: int| 0 <= r2 < nsub && 0 <= col2 < ncol implies #[trigger] cover@[r2 * ncol + col2] == sat(
                            before[r2 * ncol + col2] as nat + if col2 == col { drop_hits(pts, r2 as nat, (q + 1) as nat) } else { 0nat },
                        ) by {
                            lemma_index_unique(r2, col2, r as int, col as int, ncol as int);
                            lemma_index_bound(r2, col2, nsub as int, ncol as int);
                            let k2 = r2 * ncol + col2;
                            assert(bit(pts, q as int));
                            assert(drop_hits(pts, r2 as nat, (q + 1) as nat) == drop_hits(pts, r2 as nat, q as nat) + if bit(pts, q as int)
                                && colex(pts & !(1u32 << q)) == r2 {
                                1nat
                            } else {
                                0nat
                            });
                            assert(prev[k2] == sat(
                                before[k2] as nat + if col2 == col { drop_hits(pts, r2 as nat, q as nat) } else { 0nat },
                            ));
                            if k2 == idx {
                                assert(r2 == r && col2 == col);
                                assert(cover@[k2] == v.saturating_add(1));
                            } else {
                                assert(cover@[k2] == prev[k2]);
                            }
                        }
                    }
                } else {
                    proof {
                        assert forall|r2: int, col2: int| 0 <= r2 < nsub && 0 <= col2 < ncol implies #[trigger] cover@[r2 * ncol + col2] == sat(
                            before[r2 * ncol + col2] as nat + if col2 == col { drop_hits(pts, r2 as nat, (q + 1) as nat) } else { 0nat },
                        ) by {}
                    }
                }
                q += 1;
            }
        }
        proof {
            assert forall|r: int, col2: int| 0 <= r < nsub && 0 <= col2 < ncol implies #[trigger] cover@[r * ncol + col2] == sat(
                link_hits(cs, cols, plan_t, r as nat, col2 as nat, (j + 1) as nat),
            ) by {
                assert(cols[j as int] == Some(col as u8));
            }
        }
        j += 1;
    }
    let mut r: usize = 0;
    while r < nsub
        invariant
            c.wf(),
            cs == cells@,
            cols == colors@,
            assigned_count(colors@, colors@.len()) == cells@.len(),
            1 <= plan_t < c.k,
            nsub == binom((c.k + plan_t) as nat, (plan_t - 1) as nat),
            ncol == c.colors,
            nsub * ncol <= usize::MAX,
            cover@.len() == nsub * ncol,
            r <= nsub,
            forall|r2: int, col: int| 0 <= r2 < nsub && 0 <= col < ncol ==> #[trigger] cover@[r2 * ncol + col] == sat(
                link_hits(cs, cols, plan_t, r2 as nat, col as nat, cs.len()),
            ),
            forall|r2: nat, col: nat| r2 < r && col < ncol ==> #[trigger] link_hits(cs, cols, plan_t, r2, col, cs.len()) == 1,
        decreases nsub - r,
    {
        let mut col: usize = 0;
        while col < ncol
            invariant
                c.wf(),
                cs == cells@,
                cols == colors@,
                assigned_count(colors@, colors@.len()) == cells@.len(),
                1 <= plan_t < c.k,
                nsub == binom((c.k + plan_t) as nat, (plan_t - 1) as nat),
                ncol == c.colors,
                nsub * ncol <= usize::MAX,
                cover@.len() == nsub * ncol,
                r < nsub,
                col <= ncol,
                forall|r2: int, col2: int| 0 <= r2 < nsub && 0 <= col2 < ncol ==> #[trigger] cover@[r2 * ncol + col2] == sat(
                    link_hits(cs, cols, plan_t, r2 as nat, col2 as nat, cs.len()),
                ),
                forall|col2: nat| col2 < col ==> #[trigger] link_hits(cs, cols, plan_t, r as nat, col2, cs.len()) == 1,
            decreases ncol - col,
        {
            proof {
                assert(r * ncol + col < nsub * ncol) by (nonlinear_arith)
                    requires
                        r < nsub,
                        col < ncol,
                ;
            }
            let v = cover[r * ncol + col];
            if v != 1 {
                proof {
                    assert(link_hits(cs, cols, plan_t, r as nat, col as nat, cs.len()) != 1);
                }
                let mut d: Vec<char> = Vec::new();
                push_str(&mut d, "(t-1)-subset #");
                push_decimal(&mut d, r as u64);
                push_str(&mut d, " is covered ");
                push_decimal(&mut d, v as u64);
                push_str(&mut d, " times by colour ");
                push_decimal(&mut d, col as u64);
                push_str(&mut d, ", expected exactly 1");
                return RungVerdict::Fail(string_from_chars(&d));
            }
            col += 1;
        }
        proof {
            assert forall|r2: nat, col2: nat| r2 < r + 1 && col2 < ncol implies #[trigger] link_hits(cs, cols, plan_t, r2, col2, cs.len()) == 1 by {
                if r2 == r {
                    assert(link_hits(cs, cols, plan_t, r as nat, col2, cs.len()) == 1);
                }
            }
        }
        r += 1;
    }
    RungVerdict::Pass
}

proof fn lemma_index_bound(r: int, col: int, nsub: int, ncol: int)
    requires
        0 <= r < nsub,
        0 <= col < ncol,
    ensures
        0 <= r * ncol + col < nsub * ncol,
{
    assert(0 <= r * ncol + col < nsub * ncol) by (nonlinear_arith)
        requires
            0 <= r < nsub,
            0 <= col < ncol,
    ;
}

proof fn lemma_all_assigned(cols: Seq<Option<u8>>, i: nat)
    requires
        i <= cols.len(),
    ensures
        assigned_count(cols, i) <= i,
        assigned_count(cols, i) == i ==> forall|q: int| 0 <= q < i ==> (#[trigger] cols[q]) is Some,
    decreases i,
{
    if i > 0 {
        lemma_all_assigned(cols, (i - 1) as nat);
    }
}

/// `r * n + c` determines `r` and `c` for `c < n`.
proof fn lemma_index_unique(r1: int, c1: int, r2: int, c2: int, n: int)
    requires
        0 <= c1 < n,
        0 <= c2 < n,
        0 <= r1,
        0 <= r2,
    ensures
        (r1 * n + c1 == r2 * n + c2) <==> (r1 == r2 && c1 == c2),
{
    if r1 * n + c1 == r2 * n + c2 {
        if r1 < r2 {
            assert(r1 * n + n <= r2 * n) by (nonlinear_arith)
                requires
                    r1 < r2,
                    n > 0,
            ;
        } else if r2 < r1 {
            assert(r2 * n + n <= r1 * n) by (nonlinear_arith)
                requires
                    r2 < r1,
                    n > 0,
            ;
        }
    }
}

} // verus!
