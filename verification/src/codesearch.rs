//! Search for a *single* perfect 1-code in `O_k`: a vertex set `S` such that
//! every closed neighbourhood contains exactly one member of `S`.
//!
//! This is a different constraint from the partition and gets its own
//! engine. It is not the partition search restricted to one class, and
//! nothing here feeds the partition path.
//!
//! How many members of a closed neighbourhood are in or still unknown is
//! counted afresh from the statuses whenever a rule needs it.
use vstd::prelude::*;
use std::collections::VecDeque;
use crate::bits::{colex, drop_each_from};
use crate::check::{check_outcome, distinct_members, members_in_range, member_degrees_ok, member_cover_ok, nv_of};
use crate::combi::{Combi, CombiError};
use crate::interrupt::Interrupt;
use crate::solver::engine::{Engine, names, vertex_of, lemma_vertex_of, lemma_closed_nbhd, class_count, lemma_counts_update, lemma_counts_bounds, agree_but};
use crate::solver::{Config, Outcome, SymmetryMode};
use crate::stats::Rule;
use crate::text::{push_decimal, push_str, string_from_chars};
use crate::util::Bitset;
use crate::solver::search::{clock_now, elapsed_ms, text_string, message, limit_verdict, memory_verdict};
use crate::witness::{Witness, WitnessView};
use crate::codesound::{sought, agrees, meets_once, member_at, perfect_code_set, lemma_code_size, lemma_no_crowd, lemma_not_crowded, lemma_count_ge1, lemma_count_pos, lemma_count_one};

verus! {

pub const UNKNOWN: u8 = 0;
pub const IN: u8 = 1;
pub const OUT: u8 = 2;

/// The branching point: the unknown members of a centre, still to be tried
/// from `next` on.
pub struct CodeDecision {
    pub candidates: Vec<(u32, u32)>,
    pub next: usize,
}

/// A member set that is a perfect 1-code of `O_k`: distinct vertices, each
/// of degree `k`, covering every vertex exactly once.
pub open spec fn is_code(k: u32, ms: Seq<u32>) -> bool {
    let n = (2 * k - 1) as u32;
    let r = (k - 1) as u32;
    let nv = nv_of(k);
    &&& distinct_members(ms)
    &&& members_in_range(ms, nv)
    &&& member_degrees_ok(ms, n, r, k)
    &&& member_cover_ok(ms, n, r, nv)
}

pub struct CodeSolver {
    c: Combi,
    cfg: Config,
    interrupt: Interrupt,
    status: Vec<u8>,
    trail: Vec<(u32, u32, u8)>,
    trail_levels: Vec<usize>,
    in_total: u64,
    unknown_total: u64,
    queue: VecDeque<(u32, u32)>,
    in_queue: Bitset,
    decisions: Vec<CodeDecision>,
    pub conflict_rule: Rule,
    tick: u64,
    start: std::time::Instant,
    pub decisions_made: u64,
    pub conflicts: u64,
    pub backtracks: u64,
}

impl CodeSolver {
    pub open spec fn nv(&self) -> nat {
        self.combi().num_vertices as nat
    }

    pub closed spec fn combi(&self) -> Combi {
        self.c
    }

    /// The status of every vertex: unknown, in or out.
    pub closed spec fn statuses(&self) -> Seq<u8> {
        self.status@
    }

    pub closed spec fn depth(&self) -> nat {
        self.decisions@.len()
    }

    /// Whether the search counts members against the code size `m`.
    pub closed spec fn cardinality_rule(&self) -> bool {
        self.cfg.cardinality
    }

    /// The symmetry breaking the search runs under.
    pub closed spec fn symmetry(&self) -> SymmetryMode {
        self.cfg.symmetry
    }

    pub closed spec fn level_count(&self) -> nat {
        self.trail_levels@.len()
    }

    pub closed spec fn wf(&self) -> bool {
        let nv = self.nv();
        let t = self.trail@;
        &&& self.c.wf()
        &&& self.status@.len() == nv
        &&& forall|u: int| 0 <= u < nv ==> #[trigger] self.status@[u] <= OUT
        &&& self.unknown_total == class_count(self.status@, UNKNOWN as int, nv)
        &&& self.in_total == class_count(self.status@, IN as int, nv)
        &&& forall|i: int| 0 <= i < t.len() ==> {
            &&& (#[trigger] t[i]).0 < nv
            &&& names(self.c, t[i].0 as int, t[i].1)
            &&& (t[i].2 == IN || t[i].2 == OUT)
            &&& self.status@[t[i].0 as int] == t[i].2
        }
        &&& forall|i: int, j: int| 0 <= i < j < t.len() ==> (#[trigger] t[i]).0 != (#[trigger] t[j]).0
        &&& forall|i: int| 0 <= i < self.trail_levels@.len() ==> #[trigger] self.trail_levels@[i] <= t.len()
        &&& forall|i: int, j: int| 0 <= i <= j < self.trail_levels@.len() ==> #[trigger] self.trail_levels@[i] <= #[trigger] self.trail_levels@[j]
        &&& forall|i: int| 0 <= i < self.queue@.len() ==> {
            &&& (#[trigger] self.queue@[i]).0 < nv
            &&& names(self.c, self.queue@[i].0 as int, self.queue@[i].1)
        }
        &&& self.in_queue.capacity() >= nv
        &&& forall|i: int| 0 <= i < self.decisions@.len() ==> cands_ok(self.c, (#[trigger] self.decisions@[i]).candidates@)
        &&& decided_in_trail(self.status@, t)
    }

    /// The number of unknown vertices, which every status change lowers.
    pub closed spec fn unknowns(&self) -> nat {
        self.unknown_total as nat
    }

    pub closed spec fn queue_len(&self) -> nat {
        self.queue@.len()
    }
}

/// Every decided vertex has its entry on the trail.
pub open spec fn decided_in_trail(st: Seq<u8>, t: Seq<(u32, u32, u8)>) -> bool {
    forall|u: int| 0 <= u < st.len() && #[trigger] st[u] != UNKNOWN ==> exists|j: int| 0 <= j < t.len() && t[j].0 == u
}

/// `cs` respects the first `n` trail entries.
pub open spec fn agrees_trail(t: Seq<(u32, u32, u8)>, n: int, cs: Set<int>) -> bool {
    forall|j: int| 0 <= j < n ==> (#[trigger] t[j].2 == IN ==> cs.contains(t[j].0 as int)) && (t[j].2 == OUT ==> !cs.contains(t[j].0 as int))
}

/// The vertex tried at decision `i`: its candidate just before `next`.
pub open spec fn tried(ds: Seq<CodeDecision>, i: int) -> int {
    ds[i].candidates@[ds[i].next - 1].0 as int
}

/// `cs` holds the vertex tried at each of the first `i` decisions.
pub open spec fn follows(ds: Seq<CodeDecision>, cs: Set<int>, i: int) -> bool {
    forall|i2: int| 0 <= i2 < i ==> cs.contains(#[trigger] tried(ds, i2))
}

/// `cs` holds none of the first `n` candidates.
pub open spec fn avoids(cands: Seq<(u32, u32)>, n: int, cs: Set<int>) -> bool {
    forall|j: int| 0 <= j < n ==> !cs.contains(#[trigger] cands[j].0 as int)
}

/// `cs` holds one of the candidates.
pub open spec fn hits(cands: Seq<(u32, u32)>, cs: Set<int>) -> bool {
    exists|j: int| 0 <= j < cands.len() && cs.contains(#[trigger] cands[j].0 as int)
}

/// A code still in question: one the search looks for that agrees with
/// the first `l0` entries of the trail it started from.
pub open spec fn alive(card: bool, c: Combi, t0: Seq<(u32, u32, u8)>, l0: int, cs: Set<int>) -> bool {
    sought(card, c, cs) && agrees_trail(t0, l0, cs)
}

/// Some candidate is vertex `u`.
pub open spec fn lists(cs: Seq<(u32, u32)>, u: int) -> bool {
    exists|q: int| 0 <= q < cs.len() && cs[q].0 == u
}

/// Candidates name vertices.
pub open spec fn cands_ok(c: Combi, cs: Seq<(u32, u32)>) -> bool {
    forall|i: int| 0 <= i < cs.len() ==> (#[trigger] cs[i]).0 < c.num_vertices && names(c, cs[i].0 as int, cs[i].1)
}

/// The closed neighbourhood of `m`: `m` first, then its neighbours.
pub open spec fn nbhd(c: Combi, m: u32) -> Seq<u32> {
    seq![m] + drop_each_from(c.full & !m, 0)
}

/// One of the first `n` masks of `ms` has a closed neighbourhood with two
/// or more members in.
pub open spec fn any_crowded(c: Combi, st: Seq<u8>, ms: Seq<u32>, n: nat) -> bool
    decreases n,
{
    n > 0 && (any_crowded(c, st, ms, (n - 1) as nat) || status_count(c, st, nbhd(c, ms[n - 1]), IN, c.colors as nat) > 1)
}

/// A status absent from the first `n` members is counted zero times.
proof fn lemma_status_count_zero(c: Combi, st: Seq<u8>, nb: Seq<u32>, s: u8, n: nat)
    requires
        forall|j: int| 0 <= j < n ==> st[colex(#[trigger] nb[j]) as int] != s,
    ensures
        status_count(c, st, nb, s, n) == 0,
    decreases n,
{
    if n > 0 {
        lemma_status_count_zero(c, st, nb, s, (n - 1) as nat);
        assert(st[colex(nb[n - 1]) as int] != s);
    }
}

/// `e` is an undecided member of the closed neighbourhood of `cm`, as its
/// index and mask.
pub open spec fn open_member(c: Combi, st: Seq<u8>, cm: u32, e: (u32, u32)) -> bool {
    &&& exists|j: int| 0 <= j < c.colors && #[trigger] nbhd(c, cm)[j] == e.1
    &&& e.0 == colex(e.1)
    &&& st[e.0 as int] == UNKNOWN
}

/// The closed neighbourhood of vertex `v` holds an included vertex.
pub open spec fn has_member(c: Combi, st: Seq<u8>, v: int) -> bool {
    status_count(c, st, nbhd(c, vertex_of(c, v)), IN, c.colors as nat) != 0
}

/// The members of `N[center]` whose status is `s`, counted.
pub open spec fn status_count(c: Combi, status: Seq<u8>, nb: Seq<u32>, s: u8, j: nat) -> nat
    decreases j,
{
    if j == 0 {
        0
    } else {
        status_count(c, status, nb, s, (j - 1) as nat) + if status[colex(nb[j - 1]) as int] == s {
            1nat
        } else {
            0nat
        }
    }
}

impl CodeSolver {
    /// A solver for `cfg.k` with every vertex unknown.
    pub fn new(cfg: Config, interrupt: Interrupt) -> (r: Result<CodeSolver, CombiError>)
        ensures
            match r {
                Ok(s) => s.wf() && s.depth() == 0 && s.level_count() == 0 && s.combi().k == cfg.k && s.cardinality_rule() == cfg.cardinality
                    && s.symmetry() == cfg.symmetry && forall|cs: Set<int>| #[trigger] agrees(s.statuses(), cs),
                Err(CombiError::OutOfRange { k }) => k == cfg.k && (k < 2 || k > 16),
                Err(CombiError::Odd { k }) => k == cfg.k && 2 <= k <= 16 && k % 2 == 1,
            },
            r is Ok <==> crate::combi::valid_k(cfg.k),
    {
        let c = match Combi::new(cfg.k) {
            Ok(c) => c,
            Err(e) => {
                return Err(e);
            },
        };
        proof {
            crate::bits::lemma_binom_fits(c.n as nat, c.r as nat);
        }
        let nv = c.num_vertices as usize;
        let s = CodeSolver {
            status: vec![UNKNOWN; nv],
            trail: Vec::new(),
            trail_levels: Vec::new(),
            in_total: 0,
            unknown_total: c.num_vertices,
            queue: VecDeque::new(),
            in_queue: Bitset::new(nv),
            decisions: Vec::new(),
            conflict_rule: Rule::A,
            tick: 0,
            start: clock_now(),
            decisions_made: 0,
            conflicts: 0,
            backtracks: 0,
            c,
            cfg,
            interrupt,
        };
        proof {
            lemma_fresh_counts(s.status@, nv as nat);
        }
        Ok(s)
    }
}

proof fn lemma_fresh_counts(status: Seq<u8>, n: nat)
    requires
        forall|u: int| 0 <= u < n ==> #[trigger] status[u] == UNKNOWN,
    ensures
        class_count(status, UNKNOWN as int, n) == n,
        class_count(status, IN as int, n) == 0,
    decreases n,
{
    if n > 0 {
        lemma_fresh_counts(status, (n - 1) as nat);
        assert(status[n - 1] == UNKNOWN);
    }
}


/// The vertices that are in, in index order.
pub open spec fn in_members(status: Seq<u8>, n: nat) -> Seq<u32>
    decreases n,
{
    if n == 0 {
        Seq::empty()
    } else {
        in_members(status, (n - 1) as nat) + if status[n - 1] == IN {
            seq![(n - 1) as u32]
        } else {
            Seq::empty()
        }
    }
}

impl CodeSolver {
    /// Everything but the queue and the conflict attribution is as it was.
    pub closed spec fn same_core(&self, other: &CodeSolver) -> bool {
        &&& self.c == other.c
        &&& self.cfg == other.cfg
        &&& self.status@ == other.status@
        &&& self.trail@ == other.trail@
        &&& self.trail_levels@ == other.trail_levels@
        &&& self.in_total == other.in_total
        &&& self.unknown_total == other.unknown_total
        &&& self.decisions@ == other.decisions@
        &&& self.tick == other.tick
    }

    /// The problem, the settings, the levels and the decisions stay.
    pub closed spec fn frame(&self, other: &CodeSolver) -> bool {
        &&& self.c == other.c
        &&& self.cfg == other.cfg
        &&& self.trail_levels@ == other.trail_levels@
        &&& self.decisions@ == other.decisions@
        &&& self.tick == other.tick
        &&& other.trail@.len() <= self.trail@.len()
        &&& forall|j: int| 0 <= j < other.trail@.len() ==> #[trigger] self.trail@[j] == other.trail@[j]
    }

    /// The statuses agree with `cs` exactly when the whole trail does.
    proof fn lemma_agrees_trail(&self, cs: Set<int>)
        requires
            self.wf(),
        ensures
            agrees(self.status@, cs) <==> agrees_trail(self.trail@, self.trail@.len() as int, cs),
    {
        let t = self.trail@;
        if agrees(self.status@, cs) {
            assert forall|j: int| 0 <= j < t.len() implies (#[trigger] t[j].2 == IN ==> cs.contains(t[j].0 as int)) && (t[j].2 == OUT
                ==> !cs.contains(t[j].0 as int)) by {
                assert(self.status@[t[j].0 as int] == t[j].2);
            }
        }
        if agrees_trail(t, t.len() as int, cs) {
            assert forall|u: int| 0 <= u < self.status@.len() implies (#[trigger] self.status@[u] == IN ==> cs.contains(u)) && (self.status@[u]
                == OUT ==> !cs.contains(u)) by {
                if self.status@[u] != UNKNOWN {
                    let j = choose|j: int| 0 <= j < t.len() && t[j].0 == u;
                    assert(self.status@[t[j].0 as int] == t[j].2);
                }
            }
        }
    }

    /// How many members of the closed neighbourhood of `center` have
    /// status `s`.
    fn count_status(&self, center: u32, s: u8) -> (n: u8)
        requires
            self.wf(),
            self.c.is_vertex(center),
        ensures
            n <= 17,
            n == status_count(self.c, self.status@, seq![center] + drop_each_from(self.c.full & !center, 0), s, self.c.colors as nat),
    {
        let masks = self.c.closed_nbhd_masks(center);
        proof {
            lemma_closed_nbhd(self.c, center);
        }
        let mut n: u8 = 0;
        let mut i: usize = 0;
        while i < masks.len()
            invariant
                self.wf(),
                masks@.len() == self.c.colors,
                self.c.colors <= 17,
                forall|j: int| 0 <= j < masks@.len() ==> {
                    &&& self.c.is_vertex(#[trigger] masks@[j])
                    &&& colex(masks@[j]) < self.c.num_vertices
                },
                i <= masks@.len(),
                n <= i,
                masks@ == seq![center] + drop_each_from(self.c.full & !center, 0),
                n == status_count(self.c, self.status@, masks@, s, i as nat),
            decreases masks@.len() - i,
        {
            let idx = self.c.rank(masks[i]);
            if self.status[idx as usize] == s {
                n = n + 1;
            }
            i += 1;
        }
        n
    }

    fn push_level(&mut self)
        requires
            old(self).wf(),
        ensures
            final(self).wf(),
            final(self).level_count() == old(self).level_count() + 1,
            final(self).c == old(self).c,
            final(self).decisions@ == old(self).decisions@,
            final(self).tick == old(self).tick,
            final(self).cfg == old(self).cfg,
            final(self).status@ == old(self).status@,
            final(self).trail@ == old(self).trail@,
            final(self).trail_levels@ == old(self).trail_levels@.push(old(self).trail.len()),
    {
        self.trail_levels.push(self.trail.len());
    }

    /// Undo every status set since the matching `push_level`.
    fn pop_level(&mut self)
        requires
            old(self).wf(),
            old(self).level_count() > 0,
        ensures
            final(self).wf(),
            final(self).level_count() == old(self).level_count() - 1,
            final(self).c == old(self).c,
            final(self).decisions@ == old(self).decisions@,
            final(self).tick == old(self).tick,
            final(self).cfg == old(self).cfg,
            final(self).trail_levels@ == old(self).trail_levels@.drop_last(),
            final(self).trail@ == old(self).trail@.take(old(self).trail_levels@.last() as int),
    {
        let n = self.trail_levels.len();
        let mark = self.trail_levels[n - 1];
        self.trail_levels.pop();
        let ghost nv = self.nv();
        while self.trail.len() > mark
            invariant
                self.wf(),
                self.trail_levels@ == old(self).trail_levels@.drop_last(),
                mark == old(self).trail_levels@.last(),
                mark <= self.trail@.len() <= old(self).trail@.len(),
                self.trail@ == old(self).trail@.take(self.trail@.len() as int),
                self.cfg == old(self).cfg,
                self.trail_levels@.len() == n - 1,
                forall|i: int| 0 <= i < self.trail_levels@.len() ==> #[trigger] self.trail_levels@[i] <= mark,
                self.c == old(self).c,
                self.decisions@ == old(self).decisions@,
                self.tick == old(self).tick,
                nv == self.nv(),
            decreases self.trail@.len(),
        {
            let ghost pre = *self;
            let len = self.trail.len();
            let (v, mask, s) = self.trail[len - 1];
            proof {
                assert(pre.trail@[len - 1] == (v, mask, s));
                lemma_counts_bounds(self.status@, Seq::empty(), s as int, nv, v as int);
                lemma_counts_bounds(self.status@, Seq::empty(), UNKNOWN as int, nv, v as int);
                crate::bits::lemma_binom_fits(self.c.n as nat, self.c.r as nat);
            }
            self.trail.pop();
            self.status.set(v as usize, UNKNOWN);
            proof {
                let st0 = pre.status@;
                let st1 = self.status@;
                assert(agree_but(st0, Seq::empty(), st1, Seq::empty(), nv, v as int));
                lemma_counts_update(st0, Seq::empty(), st1, Seq::empty(), UNKNOWN as int, nv, v as int);
                lemma_counts_update(st0, Seq::empty(), st1, Seq::empty(), IN as int, nv, v as int);
            }
            self.unknown_total = self.unknown_total + 1;
            if s == IN {
                self.in_total = self.in_total - 1;
            }
            proof {
                let t0 = pre.trail@;
                let t1 = self.trail@;
                assert forall|i: int| 0 <= i < t1.len() implies {
                    &&& (#[trigger] t1[i]).0 < nv
                    &&& names(self.c, t1[i].0 as int, t1[i].1)
                    &&& (t1[i].2 == IN || t1[i].2 == OUT)
                    &&& self.status@[t1[i].0 as int] == t1[i].2
                } by {
                    assert(t1[i] == t0[i]);
                    assert(t0[i].0 != t0[len - 1].0);
                }
                assert forall|i: int, j: int| 0 <= i < j < t1.len() implies (#[trigger] t1[i]).0 != (#[trigger] t1[j]).0 by {
                    assert(t1[i] == t0[i] && t1[j] == t0[j]);
                }
                assert forall|u: int| 0 <= u < self.status@.len() && #[trigger] self.status@[u] != UNKNOWN implies exists|j: int|
                    0 <= j < t1.len() && t1[j].0 == u by {
                    assert(pre.status@[u] != UNKNOWN);
                    let j = choose|j: int| 0 <= j < t0.len() && t0[j].0 == u;
                    assert(j != len - 1);
                    assert(t1[j] == t0[j]);
                }
            }
        }
    }
}


impl CodeSolver {
    /// Give `v` the status `s` (in or out). Returns `false` on a conflict:
    /// `v` already has the other status, the code size can no longer be
    /// met, or a neighbourhood now holds two members.
    fn set_status(&mut self, v: u32, mask: u32, s: u8) -> (ok: bool)
        requires
            old(self).wf(),
            v < old(self).nv(),
            names(old(self).c, v as int, mask),
            s == IN || s == OUT,
        ensures
            final(self).wf(),
            final(self).frame(old(self)),
            final(self).unknowns() <= old(self).unknowns(),
            final(self).unknowns() == old(self).unknowns() ==> final(self).same_core(old(self)) && final(self).queue@ == old(self).queue@,
            ok ==> final(self).status@[v as int] == s,
            old(self).status@[v as int] == s ==> ok && final(self).status@ == old(self).status@,
            old(self).status@[v as int] != UNKNOWN && old(self).status@[v as int] != s ==> !ok && final(self).status@ == old(self).status@,
            old(self).status@[v as int] == UNKNOWN ==> final(self).status@ == old(self).status@.update(v as int, s) && ok == (
                !(old(self).cfg.cardinality && (old(self).in_total + (if s == IN { 1int } else { 0int }) > old(self).c.m
                    || old(self).in_total + (if s == IN { 1int } else { 0int }) + old(self).unknown_total - 1 < old(self).c.m))
                && !(s == IN && any_crowded(old(self).c, old(self).status@.update(v as int, s), nbhd(old(self).c, mask), old(self).c.colors as nat))),
            forall|cs: Set<int>| #[trigger] sought(old(self).cfg.cardinality, old(self).c, cs) && agrees(old(self).status@, cs)
                && (cs.contains(v as int) <==> s == IN) ==> ok && agrees(final(self).status@, cs),
    {
        let vi = v as usize;
        if self.status[vi] == s {
            return true;
        }
        if self.status[vi] != UNKNOWN {
            self.conflict_rule = Rule::A;
            proof {
                assert forall|cs: Set<int>| #[trigger] sought(old(self).cfg.cardinality, old(self).c, cs) && agrees(old(self).status@, cs)
                    && (cs.contains(v as int) <==> s == IN) implies false by {
                    assert(old(self).status@[v as int] <= OUT);
                }
            }
            return false;
        }
        let ghost pre = *self;
        let ghost nv = self.nv();
        proof {
            lemma_counts_bounds(self.status@, Seq::empty(), UNKNOWN as int, nv, v as int);
            lemma_counts_bounds(self.status@, Seq::empty(), IN as int, nv, v as int);
            crate::bits::lemma_binom_fits(self.c.n as nat, self.c.r as nat);
        }
        self.trail.push((v, mask, s));
        self.status.set(vi, s);
        proof {
            let st0 = pre.status@;
            let st1 = self.status@;
            assert(agree_but(st0, Seq::empty(), st1, Seq::empty(), nv, v as int));
            lemma_counts_update(st0, Seq::empty(), st1, Seq::empty(), UNKNOWN as int, nv, v as int);
            lemma_counts_update(st0, Seq::empty(), st1, Seq::empty(), IN as int, nv, v as int);
            lemma_counts_bounds(st1, Seq::empty(), IN as int, nv, v as int);
        }
        self.unknown_total = self.unknown_total - 1;
        if s == IN {
            self.in_total = self.in_total + 1;
        }
        proof {
            let t0 = pre.trail@;
            let t1 = self.trail@;
            assert forall|i: int| 0 <= i < t1.len() implies {
                &&& (#[trigger] t1[i]).0 < nv
                &&& names(self.c, t1[i].0 as int, t1[i].1)
                &&& (t1[i].2 == IN || t1[i].2 == OUT)
                &&& self.status@[t1[i].0 as int] == t1[i].2
            } by {
                if i < t0.len() {
                    assert(t1[i] == t0[i]);
                    assert(pre.status@[t0[i].0 as int] != UNKNOWN);
                }
            }
            assert forall|i: int, j: int| 0 <= i < j < t1.len() implies (#[trigger] t1[i]).0 != (#[trigger] t1[j]).0 by {
                assert(t1[i] == t0[i]);
                assert(pre.status@[t0[i].0 as int] != UNKNOWN);
                if j < t0.len() {
                    assert(t1[j] == t0[j]);
                }
            }
            assert forall|u: int| 0 <= u < self.status@.len() && #[trigger] self.status@[u] != UNKNOWN implies exists|j: int|
                0 <= j < t1.len() && t1[j].0 == u by {
                if u == v {
                    assert(t1[t0.len() as int].0 == u);
                } else {
                    assert(pre.status@[u] != UNKNOWN);
                    let j = choose|j: int| 0 <= j < t0.len() && t0[j].0 == u;
                    assert(t1[j] == t0[j]);
                }
            }
            assert(self.wf());
        }
        let mut ok = true;
        if self.cfg.cardinality {
            if self.in_total > self.c.m || self.in_total + self.unknown_total < self.c.m {
                self.conflict_rule = Rule::C;
                ok = false;
            }
        }
        let masks = self.c.closed_nbhd_masks(mask);
        proof {
            lemma_closed_nbhd(self.c, mask);
        }
        let ghost mid = *self;
        let ghost ok0 = ok;
        let ghost st1 = self.status@;
        proof {
            assert(st1 == pre.status@.update(v as int, s));
            assert(ok0 == !(pre.cfg.cardinality && (pre.in_total + (if s == IN { 1int } else { 0int }) > pre.c.m
                    || pre.in_total + (if s == IN { 1int } else { 0int }) + pre.unknown_total - 1 < pre.c.m)));
        }
        let mut i: usize = 0;
        while i < masks.len()
            invariant
                self.status@ == st1,
                masks@ == nbhd(self.c, mask),
                self.c == pre.c,
                ok == (ok0 && !(s == IN && any_crowded(self.c, st1, nbhd(self.c, mask), i as nat))),
                self.wf(),
                self.same_core(&mid),
                mid.frame(&pre),
                pre == *old(self),
                self.unknowns() < pre.unknowns(),
                self.status@[v as int] == s,
                v < self.nv(),
                masks@.len() == self.c.colors,
                forall|j: int| 0 <= j < masks@.len() ==> {
                    &&& self.c.is_vertex(#[trigger] masks@[j])
                    &&& colex(masks@[j]) < self.c.num_vertices
                },
                i <= masks@.len(),
            decreases masks@.len() - i,
        {
            let mm = masks[i];
            let ci = self.c.rank(mm);
            let ghost okb = ok;
            if s == IN {
                // a neighbourhood may hold one member only
                let cnt = self.count_status(mm, IN);
                proof {
                    assert(cnt == status_count(self.c, st1, nbhd(self.c, mm), IN, self.c.colors as nat));
                }
                if cnt > 1 {
                    self.conflict_rule = Rule::A;
                    ok = false;
                }
            }
            proof {
                assert(masks@[i as int] == nbhd(self.c, mask)[i as int]);
                assert(mm == nbhd(self.c, mask)[i as int]);
                assert(s == IN ==> (ok == (okb && !(status_count(self.c, st1, nbhd(self.c, mm), IN, self.c.colors as nat) > 1))));
                assert(s != IN ==> ok == okb);
                assert(any_crowded(self.c, st1, nbhd(self.c, mask), (i + 1) as nat) == (any_crowded(self.c, st1, nbhd(self.c, mask), i as nat)
                    || status_count(self.c, st1, nbhd(self.c, mm), IN, self.c.colors as nat) > 1));
            }
            if self.in_queue.test_and_set(ci as usize) {
                self.queue.push_back((ci, mm));
            }
            i += 1;
        }
        proof {
            assert forall|cs: Set<int>| #[trigger] sought(pre.cfg.cardinality, pre.c, cs) && agrees(pre.status@, cs)
                && (cs.contains(v as int) <==> s == IN) implies ok && agrees(self.status@, cs) by {
                assert(agrees(st1, cs));
                lemma_code_size(st1, cs, self.c);
                lemma_no_crowd(self.c, st1, cs, masks@, self.c.colors as nat);
            }
        }
        ok
    }

    /// The exactly-one constraint on one closed neighbourhood.
    fn center_rule(&mut self, center_mask: u32) -> (ok: bool)
        requires
            old(self).wf(),
            old(self).c.is_vertex(center_mask),
        ensures
            final(self).wf(),
            final(self).frame(old(self)),
            final(self).unknowns() <= old(self).unknowns(),
            final(self).unknowns() == old(self).unknowns() ==> final(self).same_core(old(self)) && final(self).queue@ == old(self).queue@,
            ({
                let nb = nbhd(old(self).c, center_mask);
                let k = old(self).c.colors as nat;
                let inc = status_count(old(self).c, old(self).status@, nb, IN, k);
                let unk = status_count(old(self).c, old(self).status@, nb, UNKNOWN, k);
                &&& inc > 1 ==> !ok && final(self).status@ == old(self).status@
                &&& inc == 0 && unk == 0 ==> !ok && final(self).status@ == old(self).status@
                &&& inc == 0 && unk > 1 ==> ok && final(self).status@ == old(self).status@
                &&& inc == 1 && ok ==> forall|j: int| 0 <= j < k ==> final(self).status@[colex(#[trigger] nb[j]) as int] != UNKNOWN
                &&& inc == 0 && unk == 1 && ok ==> exists|j: int| 0 <= j < k && final(self).status@[colex(#[trigger] nb[j]) as int] == IN
            }),
            forall|cs: Set<int>| #[trigger] sought(old(self).cfg.cardinality, old(self).c, cs) && agrees(old(self).status@, cs)
                ==> ok && agrees(final(self).status@, cs),
    {
        let inc = self.count_status(center_mask, IN);
        let unk = self.count_status(center_mask, UNKNOWN);
        proof {
            lemma_closed_nbhd(self.c, center_mask);
        }
        if inc > 1 {
            self.conflict_rule = Rule::B;
            proof {
                assert forall|cs: Set<int>| #[trigger] sought(old(self).cfg.cardinality, old(self).c, cs) && agrees(old(self).status@, cs)
                    implies false by {
                    lemma_not_crowded(self.c, self.status@, cs, center_mask);
                }
            }
            return false;
        }
        if inc == 0 && unk == 0 {
            self.conflict_rule = Rule::B;
            proof {
                assert forall|cs: Set<int>| #[trigger] sought(old(self).cfg.cardinality, old(self).c, cs) && agrees(old(self).status@, cs)
                    implies false by {
                    let nb = nbhd(self.c, center_mask);
                    assert(self.c.is_vertex(center_mask));
                    assert(meets_once(cs, nb, self.c.colors as nat));
                    let j = choose|j: int| 0 <= j < self.c.colors && #[trigger] member_at(cs, nb, j);
                    let u = colex(nb[j]) as int;
                    assert(self.status@[u] <= OUT);
                    if self.status@[u] == IN {
                        lemma_count_ge1(self.c, self.status@, nb, IN, self.c.colors as nat, j);
                    }
                    if self.status@[u] == UNKNOWN {
                        lemma_count_ge1(self.c, self.status@, nb, UNKNOWN, self.c.colors as nat, j);
                    }
                }
            }
            return false;
        }
        if inc == 0 && unk > 1 {
            return true;
        }
        let masks = self.c.closed_nbhd_masks(center_mask);
        proof {
            lemma_closed_nbhd(self.c, center_mask);
        }
        let ghost pre = *self;
        if inc == 1 {
            // everything else in this neighbourhood is out
            let mut i: usize = 0;
            while i < masks.len()
                invariant
                    self.wf(),
                    self.frame(&pre),
                    pre == *old(self),
                    self.unknowns() <= pre.unknowns(),
                    self.unknowns() == pre.unknowns() ==> self.same_core(&pre) && self.queue@ == pre.queue@,
                    masks@.len() == self.c.colors,
                    masks@ == nbhd(self.c, center_mask),
                    self.c == pre.c,
                    inc == 1,
                    pre.c.is_vertex(center_mask),
                    inc == status_count(pre.c, pre.status@, nbhd(pre.c, center_mask), IN, pre.c.colors as nat),
                    forall|j: int| 0 <= j < i ==> self.status@[colex(#[trigger] masks@[j]) as int] != UNKNOWN,
                    self.status@.len() == pre.status@.len(),
                    forall|u: int| 0 <= u < pre.status@.len() && pre.status@[u] != UNKNOWN ==> #[trigger] self.status@[u] == pre.status@[u],
                    forall|cs: Set<int>| #[trigger] sought(pre.cfg.cardinality, pre.c, cs) && agrees(pre.status@, cs) ==> agrees(self.status@, cs),
                    forall|j: int| 0 <= j < masks@.len() ==> {
                        &&& self.c.is_vertex(#[trigger] masks@[j])
                        &&& colex(masks@[j]) < self.c.num_vertices
                    },
                    i <= masks@.len(),
                decreases masks@.len() - i,
            {
                let mm = masks[i];
                let idx = self.c.rank(mm);
                let ghost st_before = self.status@;
                let ghost mid = *self;
                if self.status[idx as usize] == UNKNOWN {
                    proof {
                        assert forall|cs: Set<int>| #[trigger] sought(pre.cfg.cardinality, pre.c, cs) && agrees(pre.status@, cs)
                            implies !cs.contains(idx as int) by {
                            let nb = nbhd(pre.c, center_mask);
                            let p = lemma_count_pos(pre.c, pre.status@, nb, IN, pre.c.colors as nat);
                            assert(member_at(cs, nb, p));
                            if cs.contains(idx as int) {
                                assert(nb[i as int] == mm);
                                assert(member_at(cs, nb, i as int));
                                assert(meets_once(cs, nb, pre.c.colors as nat));
                                assert(pre.status@[colex(nb[p]) as int] == IN);
                            }
                        }
                    }
                    if !self.set_status(idx, mm, OUT) {
                        proof {
                            assert forall|cs: Set<int>| #[trigger] sought(old(self).cfg.cardinality, old(self).c, cs) && agrees(old(self).status@, cs)
                                implies false by {
                                assert(agrees(mid.status@, cs));
                                assert(sought(mid.cfg.cardinality, mid.c, cs));
                                assert(!cs.contains(idx as int));
                            }
                        }
                        return false;
                    }
                    proof {
                        assert forall|cs: Set<int>| #[trigger] sought(pre.cfg.cardinality, pre.c, cs) && agrees(pre.status@, cs)
                            implies agrees(self.status@, cs) by {
                            assert(agrees(mid.status@, cs));
                            assert(sought(mid.cfg.cardinality, mid.c, cs));
                            assert(!cs.contains(idx as int));
                        }
                    }
                }
                proof {
                    assert forall|j: int| 0 <= j < i + 1 implies self.status@[colex(#[trigger] masks@[j]) as int] != UNKNOWN by {
                        if j < i {
                            assert(st_before[colex(masks@[j]) as int] != UNKNOWN);
                        }
                    }
                }
                i += 1;
            }
        } else {
            // inc == 0 && unk == 1: the last unknown member must be in
            let mut i: usize = 0;
            while i < masks.len()
                invariant
                    self.wf(),
                    *self == pre,
                    pre == *old(self),
                    masks@.len() == self.c.colors,
                    masks@ == nbhd(self.c, center_mask),
                    inc == 0,
                    unk == 1,
                    pre.c.is_vertex(center_mask),
                    inc == status_count(pre.c, pre.status@, nbhd(pre.c, center_mask), IN, pre.c.colors as nat),
                    unk == status_count(pre.c, pre.status@, nbhd(pre.c, center_mask), UNKNOWN, pre.c.colors as nat),
                    forall|j: int| 0 <= j < i ==> self.status@[colex(#[trigger] masks@[j]) as int] != UNKNOWN,
                    forall|j: int| 0 <= j < masks@.len() ==> {
                        &&& self.c.is_vertex(#[trigger] masks@[j])
                        &&& colex(masks@[j]) < self.c.num_vertices
                    },
                    i <= masks@.len(),
                decreases masks@.len() - i,
            {
                let mm = masks[i];
                let idx = self.c.rank(mm);
                if self.status[idx as usize] == UNKNOWN {
                    proof {
                        assert forall|cs: Set<int>| #[trigger] sought(pre.cfg.cardinality, pre.c, cs) && agrees(pre.status@, cs)
                            implies cs.contains(idx as int) by {
                            let nb = nbhd(pre.c, center_mask);
                            assert(pre.c.is_vertex(center_mask));
                            assert(meets_once(cs, nb, pre.c.colors as nat));
                            let j = choose|j: int| 0 <= j < pre.c.colors && #[trigger] member_at(cs, nb, j);
                            let u = colex(nb[j]) as int;
                            assert(pre.status@[u] <= OUT);
                            if pre.status@[u] == IN {
                                lemma_count_ge1(pre.c, pre.status@, nb, IN, pre.c.colors as nat, j);
                            }
                            assert(nb[i as int] == mm);
                            lemma_count_one(pre.c, pre.status@, nb, UNKNOWN, pre.c.colors as nat, i as int, j);
                        }
                    }
                    let r = self.set_status(idx, mm, IN);
                    proof {
                        if r {
                            assert(self.status@[colex(masks@[i as int]) as int] == IN);
                            assert(masks@ == nbhd(self.c, center_mask));
                        }
                    }
                    return r;
                }
                i += 1;
            }
            proof {
                lemma_status_count_zero(self.c, self.status@, masks@, UNKNOWN, self.c.colors as nat);
            }
        }
        true
    }

    /// Empty the queue.
    fn drain_queue(&mut self)
        requires
            old(self).wf(),
        ensures
            final(self).wf(),
            final(self).frame(old(self)),
            final(self).queue@.len() == 0,
            final(self).same_core(old(self)),
    {
        loop
            invariant
                self.wf(),
                self.frame(old(self)),
                self.same_core(old(self)),
            ensures
                self.wf(),
                self.frame(old(self)),
                self.same_core(old(self)),
                self.queue@.len() == 0,
            decreases self.queue@.len(),
        {
            match self.queue.pop_front() {
                Some((c2, _)) => {
                    self.in_queue.clear(c2 as usize);
                },
                None => break,
            }
        }
    }

    /// Run the exactly-one rule to a fixpoint.
    fn propagate(&mut self) -> (ok: bool)
        requires
            old(self).wf(),
        ensures
            final(self).wf(),
            final(self).frame(old(self)),
            final(self).queue@.len() == 0,
            forall|cs: Set<int>| #[trigger] sought(old(self).cfg.cardinality, old(self).c, cs) && agrees(old(self).status@, cs)
                ==> ok && agrees(final(self).status@, cs),
    {
        loop
            invariant
                self.wf(),
                self.frame(old(self)),
                forall|cs: Set<int>| #[trigger] sought(old(self).cfg.cardinality, old(self).c, cs) && agrees(old(self).status@, cs)
                    ==> agrees(self.status@, cs),
            decreases self.unknowns(), self.queue_len(),
        {
            match self.queue.pop_front() {
                None => {
                    return true;
                },
                Some((ci, mm)) => {
                    self.in_queue.clear(ci as usize);
                    let ghost mid = *self;
                    if !self.center_rule(mm) {
                        proof {
                            assert forall|cs: Set<int>| #[trigger] sought(old(self).cfg.cardinality, old(self).c, cs) && agrees(old(self).status@, cs)
                                implies false by {
                                assert(sought(mid.cfg.cardinality, mid.c, cs));
                            }
                        }
                        self.drain_queue();
                        return false;
                    }
                    proof {
                        assert forall|cs: Set<int>| #[trigger] sought(old(self).cfg.cardinality, old(self).c, cs) && agrees(old(self).status@, cs)
                            implies agrees(self.status@, cs) by {
                            assert(sought(mid.cfg.cardinality, mid.c, cs));
                        }
                    }
                },
            }
        }
    }
}


impl CodeSolver {
    /// The centre with the fewest unknown members among those not yet
    /// covered, lowest index first; preferring centres with at least one
    /// unknown member and not all of them. `None` once every centre is
    /// covered.
    fn select_center(&self) -> (r: Option<u32>)
        requires
            self.wf(),
        ensures
            r matches Some(v) ==> v < self.nv() && !has_member(self.c, self.status@, v as int),
            r is None <==> forall|u: int| 0 <= u < self.nv() ==> #[trigger] has_member(self.c, self.status@, u),
    {
        proof {
            crate::bits::lemma_binom_fits(self.c.n as nat, self.c.r as nat);
        }
        let nv = self.c.num_vertices as usize;
        let ncol = self.c.colors as u8;
        let mut best1: Option<(u8, u32)> = None;
        let mut best_all: Option<(u8, u32)> = None;
        let mut v: usize = 0;
        while v < nv
            invariant
                self.wf(),
                nv == self.nv(),
                nv <= 0xFFFF_FFFF,
                v <= nv,
                best1 matches Some((_, w)) ==> w < nv && !has_member(self.c, self.status@, w as int),
                best_all matches Some((_, w)) ==> w < nv && !has_member(self.c, self.status@, w as int),
                best1 is Some ==> best_all is Some,
                best_all is None <==> forall|u: int| 0 <= u < v ==> #[trigger] has_member(self.c, self.status@, u),
            decreases nv - v,
        {
            let cm = self.c.unrank(v as u32);
            let cin = self.count_status(cm, IN);
            proof {
                lemma_vertex_of(self.c, v as int, cm);
                assert(has_member(self.c, self.status@, v as int) == (cin != 0));
                if best_all is None && cin != 0 {
                    assert forall|u: int| 0 <= u < v + 1 implies #[trigger] has_member(self.c, self.status@, u) by {
                        if u < v {
                            assert(has_member(self.c, self.status@, u));
                        }
                    }
                }
            }
            if cin == 0 {
                let u = self.count_status(cm, UNKNOWN);
                if 1 <= u && u < ncol {
                    match best1 {
                        None => {
                            best1 = Some((u, v as u32));
                        },
                        Some((bu, _)) => {
                            if u < bu {
                                best1 = Some((u, v as u32));
                            }
                        },
                    }
                }
                match best_all {
                    None => {
                        best_all = Some((u, v as u32));
                    },
                    Some((bu, _)) => {
                        if u < bu {
                            best_all = Some((u, v as u32));
                        }
                    },
                }
            }
            v += 1;
        }
        match best1 {
            Some((_, w)) => Some(w),
            None => match best_all {
                Some((_, w)) => Some(w),
                None => None,
            },
        }
    }

    /// The unknown members of `N[center]`, in increasing index order.
    fn candidates_of(&self, center: u32) -> (out: Vec<(u32, u32)>)
        requires
            self.wf(),
            center < self.nv(),
        ensures
            cands_ok(self.c, out@),
            out@.len() == status_count(self.c, self.status@, nbhd(self.c, vertex_of(self.c, center as int)), UNKNOWN, self.c.colors as nat),
            forall|q: int| 0 <= q < out@.len() ==> open_member(self.c, self.status@, vertex_of(self.c, center as int), #[trigger] out@[q]),
            forall|x: int, y: int| 0 <= x < y < out@.len() ==> (#[trigger] out@[x]).0 <= (#[trigger] out@[y]).0,
            self.c.is_vertex(vertex_of(self.c, center as int)),
            forall|j: int| 0 <= j < self.c.colors && self.status@[colex(nbhd(self.c, vertex_of(self.c, center as int))[j]) as int] == UNKNOWN
                ==> #[trigger] lists(out@, colex(nbhd(self.c, vertex_of(self.c, center as int))[j]) as int),
    {
        let cmask = self.c.unrank(center);
        proof {
            lemma_vertex_of(self.c, center as int, cmask);
        }
        let masks = self.c.closed_nbhd_masks(cmask);
        proof {
            lemma_closed_nbhd(self.c, cmask);
        }
        let mut out: Vec<(u32, u32)> = Vec::new();
        let mut i: usize = 0;
        while i < masks.len()
            invariant
                self.wf(),
                masks@.len() == self.c.colors,
                forall|j: int| 0 <= j < masks@.len() ==> {
                    &&& self.c.is_vertex(#[trigger] masks@[j])
                    &&& colex(masks@[j]) < self.c.num_vertices
                },
                i <= masks@.len(),
                cands_ok(self.c, out@),
                masks@ == nbhd(self.c, cmask),
                out@.len() == status_count(self.c, self.status@, masks@, UNKNOWN, i as nat),
                forall|q: int| 0 <= q < out@.len() ==> open_member(self.c, self.status@, cmask, #[trigger] out@[q]),
                forall|j: int| 0 <= j < i && self.status@[colex(masks@[j]) as int] == UNKNOWN ==> #[trigger] lists(out@, colex(masks@[j]) as int),
            decreases masks@.len() - i,
        {
            let mm = masks[i];
            let idx = self.c.rank(mm);
            let ghost o0 = out@;
            if self.status[idx as usize] == UNKNOWN {
                out.push((idx, mm));
            }
            proof {
                assert forall|j: int| 0 <= j < i + 1 && self.status@[colex(masks@[j]) as int] == UNKNOWN implies #[trigger] lists(out@, colex(masks@[j]) as int) by {
                    if j < i {
                        assert(lists(o0, colex(masks@[j]) as int));
                        let q = choose|q: int| 0 <= q < o0.len() && o0[q].0 == colex(masks@[j]) as int;
                        assert(out@[q] == o0[q]);
                    } else {
                        assert(out@[o0.len() as int].0 == idx);
                    }
                }
            }
            proof {
                assert(nbhd(self.c, cmask)[i as int] == mm);
                assert forall|q: int| 0 <= q < out@.len() implies open_member(self.c, self.status@, cmask, #[trigger] out@[q]) by {
                    if q < o0.len() {
                        assert(out@[q] == o0[q]);
                    } else {
                        assert(out@[q] == (idx, mm));
                        assert(0 <= i < self.c.colors && nbhd(self.c, cmask)[i as int] == mm);
                    }
                }
            }
            i += 1;
        }
        // insertion sort by index
        let ghost unsorted = out@;
        let len = out.len();
        let mut a: usize = 1;
        while a < len
            invariant
                forall|u: int| #[trigger] lists(unsorted, u) ==> lists(out@, u),
                cands_ok(self.c, out@),
                out@.len() == len,
                1 <= a,
                forall|q: int| 0 <= q < out@.len() ==> open_member(self.c, self.status@, cmask, #[trigger] out@[q]),
                len > 0 ==> a <= len,
                forall|x: int, y: int| 0 <= x < y < a && y < len ==> (#[trigger] out@[x]).0 <= (#[trigger] out@[y]).0,
            decreases len - a,
        {
            let mut b = a;
            while b > 0 && out[b - 1].0 > out[b].0
                invariant
                    forall|u: int| #[trigger] lists(unsorted, u) ==> lists(out@, u),
                    cands_ok(self.c, out@),
                    out@.len() == len,
                    b <= a < len,
                    forall|q: int| 0 <= q < out@.len() ==> open_member(self.c, self.status@, cmask, #[trigger] out@[q]),
                    forall|x: int, y: int| 0 <= x < y <= a && x != b && y != b ==> (#[trigger] out@[x]).0 <= (#[trigger] out@[y]).0,
                    forall|y: int| b < y <= a ==> out@[b as int].0 <= (#[trigger] out@[y]).0,
                decreases b,
            {
                let x = out[b - 1];
                let y = out[b];
                let ghost o0 = out@;
                out.set(b - 1, y);
                out.set(b, x);
                proof {
                    assert forall|u: int| #[trigger] lists(unsorted, u) implies lists(out@, u) by {
                        assert(lists(o0, u));
                        let q = choose|q: int| 0 <= q < o0.len() && o0[q].0 == u;
                        if q == b - 1 {
                            assert(out@[b as int].0 == u);
                        } else if q == b {
                            assert(out@[b - 1].0 == u);
                        } else {
                            assert(out@[q] == o0[q]);
                        }
                    }
                }
                proof {
                    assert forall|q: int| 0 <= q < out@.len() implies open_member(self.c, self.status@, cmask, #[trigger] out@[q]) by {
                        if q == b - 1 {
                            assert(open_member(self.c, self.status@, cmask, o0[b as int]));
                        } else if q == b {
                            assert(open_member(self.c, self.status@, cmask, o0[b - 1]));
                        } else {
                            assert(out@[q] == o0[q]);
                        }
                    }
                    assert forall|p: int, r: int| 0 <= p < r <= a && p != b - 1 && r != b - 1 implies (#[trigger] out@[p]).0 <= (#[trigger] out@[r]).0 by {
                        if p == b {
                            assert(o0[b - 1].0 <= o0[r].0);
                        } else if r == b {
                            assert(o0[p].0 <= o0[b - 1].0);
                        } else {
                            assert(o0[p].0 <= o0[r].0);
                        }
                    }
                    assert forall|r: int| b - 1 < r <= a implies out@[b - 1].0 <= (#[trigger] out@[r]).0 by {
                        if r > b {
                            assert(o0[b as int].0 <= o0[r].0);
                        }
                    }
                }
                b -= 1;
            }
            proof {
                assert forall|p: int, r: int| 0 <= p < r < a + 1 && r < len implies (#[trigger] out@[p]).0 <= (#[trigger] out@[r]).0 by {
                    if p == b as int {
                        assert(out@[b as int].0 <= out@[r].0);
                    } else if r == b as int {
                        if p < b - 1 {
                            assert(out@[p].0 <= out@[b - 1].0);
                        }
                    }
                }
            }
            a += 1;
        }
        proof {
            let nb = nbhd(self.c, vertex_of(self.c, center as int));
            assert(nb == masks@);
            assert forall|j: int| 0 <= j < self.c.colors && self.status@[colex(nb[j]) as int] == UNKNOWN implies #[trigger] lists(out@, colex(nb[j]) as int) by {
                assert(lists(unsorted, colex(masks@[j]) as int));
            }
        }
        out
    }

    /// What the search has ruled out at each open decision `i`, for every
    /// code still in question that holds the vertices tried below `i`: it
    /// agrees with the trail as it stood when decision `i` was taken, it
    /// avoids the candidates already tried there, and it holds one of them.
    spec fn ruled(&self, base: nat, t0: Seq<(u32, u32, u8)>, l0: int) -> bool {
        let ds = self.decisions@;
        let t = self.trail@;
        let lv = self.trail_levels@;
        &&& 0 <= l0 <= t.len()
        &&& l0 <= t0.len()
        &&& forall|j: int| 0 <= j < l0 ==> #[trigger] t[j] == t0[j]
        &&& lv.len() == base + ds.len()
        &&& forall|i: int| 0 <= i < ds.len() ==> 1 <= (#[trigger] ds[i]).next <= ds[i].candidates@.len() && l0 <= lv[base + i]
        &&& forall|cs: Set<int>, i: int|
            0 <= i < ds.len() && #[trigger] alive(self.cfg.cardinality, self.c, t0, l0, cs) && #[trigger] follows(ds, cs, i) ==> {
                &&& agrees_trail(t, lv[base + i] as int, cs)
                &&& avoids(ds[i].candidates@, ds[i].next - 1, cs)
                &&& hits(ds[i].candidates@, cs)
            }
    }

    /// Every code in question that holds all the vertices tried agrees with
    /// the statuses.
    spec fn live_here(&self, t0: Seq<(u32, u32, u8)>, l0: int) -> bool {
        forall|cs: Set<int>|
            #[trigger] alive(self.cfg.cardinality, self.c, t0, l0, cs) && follows(self.decisions@, cs, self.decisions@.len() as int)
                ==> agrees(self.status@, cs)
    }

    /// No code in question holds all the vertices tried.
    spec fn dead_here(&self, t0: Seq<(u32, u32, u8)>, l0: int) -> bool {
        forall|cs: Set<int>|
            #[trigger] alive(self.cfg.cardinality, self.c, t0, l0, cs) ==> !follows(self.decisions@, cs, self.decisions@.len() as int)
    }

    /// A perfect 1-code that agrees with the statuses holds one of the
    /// unknown members of a centre with no member in.
    proof fn lemma_cover(&self, center: u32, cands: Seq<(u32, u32)>, cs: Set<int>)
        requires
            self.wf(),
            center < self.nv(),
            self.c.is_vertex(vertex_of(self.c, center as int)),
            !has_member(self.c, self.status@, center as int),
            forall|j: int| 0 <= j < self.c.colors && self.status@[colex(nbhd(self.c, vertex_of(self.c, center as int))[j]) as int] == UNKNOWN
                ==> #[trigger] lists(cands, colex(nbhd(self.c, vertex_of(self.c, center as int))[j]) as int),
            perfect_code_set(self.c, cs),
            agrees(self.status@, cs),
        ensures
            hits(cands, cs),
    {
        let m = vertex_of(self.c, center as int);
        let nb = nbhd(self.c, m);
        let k = self.c.colors as nat;
        lemma_closed_nbhd(self.c, m);
        assert(meets_once(cs, nb, k));
        let j = choose|j: int| 0 <= j < k && #[trigger] member_at(cs, nb, j);
        let u = colex(nb[j]) as int;
        assert(self.status@[u] <= OUT);
        if self.status@[u] == IN {
            lemma_count_ge1(self.c, self.status@, nb, IN, k, j);
        }
        assert(self.status@[u] == UNKNOWN);
        assert(lists(cands, u));
        let q = choose|q: int| 0 <= q < cands.len() && cands[q].0 == u;
        assert(cs.contains(cands[q].0 as int));
    }

    /// Undo decisions until one has a candidate left, and try it. `None`
    /// once every decision is exhausted; otherwise whether the candidate
    /// conflicts.
    #[verifier::spinoff_prover]
    fn backtrack(&mut self, Ghost(base): Ghost<nat>, Ghost(t0): Ghost<Seq<(u32, u32, u8)>>, Ghost(l0): Ghost<int>) -> (r: Option<bool>)
        requires
            old(self).wf(),
            old(self).level_count() == base + old(self).depth(),
            old(self).ruled(base, t0, l0),
            old(self).dead_here(t0, l0),
        ensures
            final(self).wf(),
            final(self).level_count() == base + final(self).depth(),
            r is None ==> final(self).depth() == 0,
            r is Some ==> 1 <= final(self).depth() <= old(self).depth() && {
                let n = final(self).depth() - 1;
                let d = old(self).decisions@[n];
                let nd = final(self).decisions@[n];
                &&& final(self).decisions@.take(n) == old(self).decisions@.take(n)
                &&& nd.candidates@ == d.candidates@
                &&& nd.next == d.next + 1
                &&& d.next < d.candidates@.len()
            },
            final(self).c == old(self).c,
            final(self).cfg == old(self).cfg,
            final(self).tick == old(self).tick,
            final(self).ruled(base, t0, l0),
            r is None || r == Some(true) ==> final(self).dead_here(t0, l0),
            r == Some(false) ==> final(self).live_here(t0, l0),
    {
        loop
            invariant
                self.depth() <= old(self).depth(),
                self.decisions@ == old(self).decisions@.take(self.depth() as int),
                self.wf(),
                self.level_count() == base + self.depth(),
                self.c == old(self).c,
                self.cfg == old(self).cfg,
                self.tick == old(self).tick,
                self.ruled(base, t0, l0),
                self.dead_here(t0, l0),
            decreases self.depth(),
        {
            let n = self.decisions.len();
            if n == 0 {
                return None;
            }
            let ghost s0 = *self;
            self.pop_level();
            let next = self.decisions[n - 1].next;
            if next < self.decisions[n - 1].candidates.len() {
                let (v, mask) = self.decisions[n - 1].candidates[next];
                proof {
                    assert(cands_ok(self.c, self.decisions@[n - 1].candidates@));
                }
                let ghost dold = self.decisions@;
                self.decisions[n - 1].next = next + 1;
                proof {
                    assert(self.decisions@.take(n - 1) =~= dold.take(n - 1));
                    assert(dold[n - 1] == old(self).decisions@[n - 1]);
                }
                self.push_level();
                let ghost s2 = *self;
                proof {
                    assert(s2.trail_levels@ =~= s0.trail_levels@);
                    assert(s2.decisions@.take(n - 1) =~= s0.decisions@.take(n - 1));
                    lemma_next_candidate(&s0, &s2, base, t0, l0);
                    assert(tried(s2.decisions@, n - 1) == v as int);
                }
                self.decisions_made = self.decisions_made.saturating_add(1);
                let ok1 = self.set_status(v, mask, IN);
                let ghost s3 = *self;
                let ok = if ok1 {
                    self.propagate()
                } else {
                    false
                };
                proof {
                    let ds2 = s2.decisions@;
                    assert(self.decisions@ == ds2);
                    assert forall|cs: Set<int>| #[trigger] alive(self.cfg.cardinality, self.c, t0, l0, cs) && follows(ds2, cs, n as int)
                        implies ok && agrees(self.status@, cs) by {
                        assert(alive(s2.cfg.cardinality, s2.c, t0, l0, cs));
                        assert(sought(s2.cfg.cardinality, s2.c, cs));
                        assert(sought(s3.cfg.cardinality, s3.c, cs));
                        assert(follows(ds2, cs, n - 1));
                        assert(cs.contains(tried(ds2, n - 1)));
                    }
                    lemma_ruled_frame(&s2, self, base, t0, l0);
                }
                return Some(!ok);
            }
            self.decisions.pop();
            proof {
                assert(self.decisions@ =~= old(self).decisions@.take(self.depth() as int));
                assert(self.decisions@ =~= s0.decisions@.drop_last());
                lemma_drop_exhausted(&s0, self, base, t0, l0);
            }
            self.backtracks = self.backtracks.saturating_add(1);
        }
    }
}


impl CodeSolver {
    fn periodic(&mut self) -> (o: Option<Outcome>)
        requires
            old(self).wf(),
        ensures
            final(self).wf(),
            final(self).same_core(old(self)),
            final(self).level_count() == old(self).level_count(),
            o matches Some(x) ==> x is Unknown,
            (old(self).cfg.max_conflicts matches Some(mc) && old(self).conflicts >= mc) ==> o is Some,
    {
        let elapsed = elapsed_ms(&self.start);
        let stop = self.interrupt.stop_requested();
        match limit_verdict(stop, elapsed, self.cfg.timeout_ms, self.conflicts, self.cfg.max_conflicts) {
            Some(o) => Some(o),
            None => {
                let in_use = self.interrupt.rss_reading();
                if in_use > 0 {
                    memory_verdict(self.cfg.memory_limit, in_use, false)
                } else {
                    None
                }
            },
        }
    }

    #[verifier::spinoff_prover]
    fn search(&mut self) -> (r: Outcome)
        requires
            old(self).wf(),
            old(self).depth() == 0,
        ensures
            final(self).wf(),
            final(self).c == old(self).c,
            r is Sat ==> forall|u: int| 0 <= u < final(self).nv() ==> #[trigger] has_member(final(self).c, final(self).status@, u),
            r is Unsat ==> final(self).depth() == 0 && final(self).level_count() == old(self).level_count(),
            r is Unsat ==> forall|cs: Set<int>| #[trigger] sought(old(self).cfg.cardinality, old(self).c, cs) ==> !agrees(old(self).status@, cs),
    {
        let ghost base = self.level_count();
        let ghost t0 = self.trail@;
        let ghost l0 = t0.len() as int;
        let mut conflict = false;
        proof {
            assert forall|cs: Set<int>| #[trigger] alive(self.cfg.cardinality, self.c, t0, l0, cs) && follows(self.decisions@, cs, 0)
                implies agrees(self.status@, cs) by {
                self.lemma_agrees_trail(cs);
            }
            assert forall|cs: Set<int>| #[trigger] sought(self.cfg.cardinality, self.c, cs) && agrees(self.status@, cs)
                implies alive(self.cfg.cardinality, self.c, t0, l0, cs) by {
                self.lemma_agrees_trail(cs);
            }
        }
        loop
            invariant
                self.wf(),
                self.level_count() == base + self.depth(),
                base == old(self).level_count(),
                self.c == old(self).c,
                self.cfg == old(self).cfg,
                self.ruled(base, t0, l0),
                conflict ==> self.dead_here(t0, l0),
                !conflict ==> self.live_here(t0, l0),
                forall|cs: Set<int>| #[trigger] sought(old(self).cfg.cardinality, old(self).c, cs) && agrees(old(self).status@, cs)
                    ==> alive(old(self).cfg.cardinality, old(self).c, t0, l0, cs),
            decreases u64::MAX - self.tick,
        {
            if self.tick == u64::MAX {
                return Outcome::Unknown(text_string("step limit"));
            }
            self.tick = self.tick + 1;
            if self.tick % 256 == 0 || conflict {
                if let Some(o) = self.periodic() {
                    return o;
                }
            }
            if conflict {
                self.conflicts = self.conflicts.saturating_add(1);
                match self.backtrack(Ghost(base), Ghost(t0), Ghost(l0)) {
                    None => {
                        proof {
                            assert forall|cs: Set<int>| #[trigger] sought(old(self).cfg.cardinality, old(self).c, cs) implies !agrees(
                                old(self).status@,
                                cs,
                            ) by {
                                if agrees(old(self).status@, cs) {
                                    assert(alive(self.cfg.cardinality, self.c, t0, l0, cs));
                                    assert(follows(self.decisions@, cs, 0));
                                }
                            }
                        }
                        return Outcome::Unsat;
                    },
                    Some(c) => {
                        conflict = c;
                    },
                }
                continue;
            }
            let center = match self.select_center() {
                Some(x) => x,
                None => {
                    return Outcome::Sat;
                },
            };
            let cands = self.candidates_of(center);
            if cands.len() == 0 {
                proof {
                    assert forall|cs: Set<int>| #[trigger] alive(self.cfg.cardinality, self.c, t0, l0, cs) implies !follows(
                        self.decisions@,
                        cs,
                        self.decisions@.len() as int,
                    ) by {
                        if follows(self.decisions@, cs, self.decisions@.len() as int) {
                            self.lemma_cover(center, cands@, cs);
                        }
                    }
                }
                conflict = true;
                self.conflict_rule = Rule::B;
                continue;
            }
            let (v, mask) = cands[0];
            let ghost before = *self;
            let ghost cl = cands@;
            self.decisions.push(CodeDecision { candidates: cands, next: 1 });
            proof {
                assert forall|i: int| 0 <= i < self.decisions@.len() implies cands_ok(self.c, (#[trigger] self.decisions@[i]).candidates@) by {
                    if i < before.decisions@.len() {
                        assert(self.decisions@[i] == before.decisions@[i]);
                    }
                }
            }
            self.push_level();
            let ghost s2 = *self;
            proof {
                let ds = before.decisions@;
                let ds1 = s2.decisions@;
                let d = ds.len() as int;
                assert forall|i2: int| 0 <= i2 < d implies #[trigger] ds1[i2] == ds[i2] by {}
                assert(tried(ds1, d) == v as int);
                assert forall|cs: Set<int>, i: int|
                    0 <= i < d + 1 && #[trigger] alive(s2.cfg.cardinality, s2.c, t0, l0, cs) && #[trigger] follows(ds1, cs, i) implies {
                        &&& agrees_trail(s2.trail@, s2.trail_levels@[base + i] as int, cs)
                        &&& avoids(ds1[i].candidates@, ds1[i].next - 1, cs)
                        &&& hits(ds1[i].candidates@, cs)
                    } by {
                    assert forall|i2: int| 0 <= i2 < i && i2 < d implies cs.contains(#[trigger] tried(ds, i2)) by {
                        assert(tried(ds1, i2) == tried(ds, i2));
                    }
                    if i < d {
                        assert(follows(ds, cs, i));
                        assert(s2.trail_levels@[base + i] == before.trail_levels@[base + i]);
                    } else {
                        assert(follows(ds, cs, d));
                        assert(agrees(before.status@, cs));
                        before.lemma_agrees_trail(cs);
                        before.lemma_cover(center, cl, cs);
                        assert(ds1[i].candidates@ == cl);
                    }
                }
                assert(s2.ruled(base, t0, l0));
                assert forall|cs: Set<int>| #[trigger] alive(s2.cfg.cardinality, s2.c, t0, l0, cs) && follows(ds1, cs, d + 1)
                    implies agrees(s2.status@, cs) && cs.contains(v as int) by {
                    assert forall|i2: int| 0 <= i2 < d implies cs.contains(#[trigger] tried(ds, i2)) by {
                        assert(tried(ds1, i2) == tried(ds, i2));
                    }
                    assert(follows(ds, cs, d));
                    assert(cs.contains(tried(ds1, d)));
                }
            }
            self.decisions_made = self.decisions_made.saturating_add(1);
            let ok1 = self.set_status(v, mask, IN);
            let ghost s3 = *self;
            let ok = if ok1 {
                self.propagate()
            } else {
                false
            };
            proof {
                let ds1 = s2.decisions@;
                assert(self.decisions@ == ds1);
                assert forall|cs: Set<int>| #[trigger] alive(self.cfg.cardinality, self.c, t0, l0, cs) && follows(ds1, cs, ds1.len() as int)
                    implies ok && agrees(self.status@, cs) by {
                    assert(alive(s2.cfg.cardinality, s2.c, t0, l0, cs));
                    assert(sought(s2.cfg.cardinality, s2.c, cs));
                    assert(sought(s3.cfg.cardinality, s3.c, cs));
                }
                lemma_ruled_frame(&s2, self, base, t0, l0);
            }
            if !ok {
                conflict = true;
            }
        }
    }

    /// The vertices whose status is in, in index order.
    pub fn members(&self) -> (ms: Vec<u32>)
        requires
            self.wf(),
        ensures
            ms@ == in_members(self.statuses(), self.nv()),
    {
        proof {
            crate::bits::lemma_binom_fits(self.c.n as nat, self.c.r as nat);
        }
        let nv = self.c.num_vertices as usize;
        let mut ms: Vec<u32> = Vec::new();
        let mut v: usize = 0;
        while v < nv
            invariant
                nv == self.nv(),
                nv <= 0xFFFF_FFFF,
                v <= nv,
                self.status@.len() == nv,
                ms@ == in_members(self.status@, v as nat),
            decreases nv - v,
        {
            let ghost before = ms@;
            if self.status[v] == IN {
                ms.push(v as u32);
            } else {
                proof {
                    assert(in_members(self.status@, (v + 1) as nat) =~= before);
                }
            }
            v += 1;
        }
        ms
    }

    /// Before answering SAT: the member count, then the independent
    /// checker.
    fn on_sat(&self) -> (r: Result<(), String>)
        requires
            self.wf(),
        ensures
            r is Ok ==> is_code(self.c.k, in_members(self.statuses(), self.nv())),
            r is Ok <==> (in_members(self.statuses(), self.nv()).len() == self.c.m && is_code(self.c.k, in_members(self.statuses(), self.nv()))),
    {
        let members = self.members();
        if members.len() as u64 != self.c.m {
            let mut out: Vec<char> = Vec::new();
            push_str(&mut out, "SEV-1: code search reported SAT with ");
            push_decimal(&mut out, members.len() as u64);
            push_str(&mut out, " members, expected m = ");
            push_decimal(&mut out, self.c.m);
            return Err(string_from_chars(&out));
        }
        let w = Witness::Code { k: self.c.k, members };
        match crate::check::check_witness(&w) {
            Ok(rep) => {
                if rep.ok() {
                    proof {
                        assert(rep.items@[0].pass);
                        assert(rep.items@.len() == 4);
                        assert(rep.items@[2].pass);
                        assert(rep.items@[3].pass);
                    }
                    Ok(())
                } else {
                    Err(text_string("SEV-1: code search reported SAT but the independent checker rejected it"))
                }
            },
            Err(_) => Err(text_string("SEV-1: code search reported SAT but the code could not be checked")),
        }
    }

    /// Search for a code. Symmetry: `O_k` is vertex transitive under
    /// `S_{2k-1}`, and automorphisms map perfect codes to perfect codes, so
    /// if any perfect code exists then one containing vertex 0 exists. SAT
    /// comes only with a member set that the independent checker accepts.
    /// UNSAT comes only once the search tree is exhausted: no decision is
    /// left open and the solver is back at the level it started from. A
    /// time, conflict, memory or stop limit answers UNKNOWN. UNSAT is
    /// sound: no perfect 1-code (of `m` members, under the cardinality rule)
    /// agrees with the statuses the run started from; under colour symmetry,
    /// none of those contains vertex 0.
    pub fn run(&mut self) -> (r: Result<Outcome, String>)
        requires
            old(self).wf(),
            old(self).depth() == 0,
        ensures
            final(self).wf(),
            r == Ok::<Outcome, String>(Outcome::Unsat) ==> final(self).depth() == 0 && final(self).level_count() == old(self).level_count(),
            r == Ok::<Outcome, String>(Outcome::Unsat) ==> forall|cs: Set<int>|
                #[trigger] sought(old(self).cardinality_rule(), old(self).combi(), cs) && agrees(old(self).statuses(), cs) ==> (
                old(self).symmetry() is Color && !cs.contains(0)),
            r == Ok::<Outcome, String>(Outcome::Sat) ==> is_code(final(self).combi().k, in_members(final(self).statuses(), final(self).nv())),
            r is Err ==> (forall|u: int| 0 <= u < final(self).nv() ==> #[trigger] has_member(final(self).combi(), final(self).statuses(), u))
                && !(in_members(final(self).statuses(), final(self).nv()).len() == final(self).combi().m
                    && is_code(final(self).combi().k, in_members(final(self).statuses(), final(self).nv()))),
    {
        if matches!(self.cfg.symmetry, SymmetryMode::Color) {
            proof {
                crate::bits::lemma_binom_fits(self.c.n as nat, self.c.r as nat);
                lemma_sizes_pos(self.c);
            }
            let m0 = self.c.unrank(0);
            let ghost s0 = *self;
            let ok1 = self.set_status(0, m0, IN);
            let ghost s1 = *self;
            let ok = if ok1 {
                self.propagate()
            } else {
                false
            };
            proof {
                assert forall|cs: Set<int>| #[trigger] sought(s0.cfg.cardinality, s0.c, cs) && agrees(s0.status@, cs) && cs.contains(0)
                    implies ok && agrees(self.status@, cs) by {
                    assert(sought(s1.cfg.cardinality, s1.c, cs));
                }
            }
            if !ok {
                return Ok(Outcome::Unsat);
            }
        }
        let ghost mid = *self;
        let out = self.search();
        proof {
            if out is Unsat {
                assert forall|cs: Set<int>| #[trigger] sought(old(self).cfg.cardinality, old(self).c, cs) && agrees(old(self).status@, cs)
                    implies old(self).cfg.symmetry is Color && !cs.contains(0) by {
                    assert(sought(mid.cfg.cardinality, mid.c, cs));
                }
            }
        }
        if matches!(out, Outcome::Sat) {
            match self.on_sat() {
                Ok(()) => {},
                Err(m) => {
                    return Err(m);
                },
            }
        }
        Ok(out)
    }
}

/// Moving the newest decision on to its next candidate keeps what was
/// ruled out: the candidate just left held no code in question. Every code
/// in question that holds the vertices now tried agrees with the statuses.
proof fn lemma_next_candidate(s0: &CodeSolver, s2: &CodeSolver, base: nat, t0: Seq<(u32, u32, u8)>, l0: int)
    requires
        s0.wf(),
        s2.wf(),
        s0.ruled(base, t0, l0),
        s0.dead_here(t0, l0),
        s0.decisions@.len() > 0,
        s0.decisions@.last().next < s0.decisions@.last().candidates@.len(),
        s2.decisions@.len() == s0.decisions@.len(),
        s2.decisions@.take(s0.decisions@.len() - 1) == s0.decisions@.take(s0.decisions@.len() - 1),
        s2.decisions@.last().candidates@ == s0.decisions@.last().candidates@,
        s2.decisions@.last().next == s0.decisions@.last().next + 1,
        s2.trail_levels@ == s0.trail_levels@,
        s2.trail@ == s0.trail@.take(s0.trail_levels@.last() as int),
        s2.cfg == s0.cfg,
        s2.c == s0.c,
    ensures
        s2.ruled(base, t0, l0),
        forall|cs: Set<int>| #[trigger] alive(s2.cfg.cardinality, s2.c, t0, l0, cs) && follows(s2.decisions@, cs, s2.decisions@.len() as int)
            ==> agrees(s2.status@, cs),
{
    let ds0 = s0.decisions@;
    let ds2 = s2.decisions@;
    let n = ds0.len() as int;
    let lv0 = s0.trail_levels@;
    let mark = lv0.last() as int;
    let next = ds0[n - 1].next as int;
    assert(lv0[base + n - 1] == mark);
    assert forall|i2: int| 0 <= i2 < n - 1 implies #[trigger] ds2[i2] == ds0[i2] by {
        assert(ds2.take(n - 1)[i2] == ds0.take(n - 1)[i2]);
    }
    assert forall|j: int| 0 <= j < s2.trail@.len() implies #[trigger] s2.trail@[j] == s0.trail@[j] by {}
    assert forall|cs: Set<int>, i: int|
        0 <= i < n && #[trigger] alive(s2.cfg.cardinality, s2.c, t0, l0, cs) && #[trigger] follows(ds2, cs, i) implies {
            &&& agrees_trail(s2.trail@, s2.trail_levels@[base + i] as int, cs)
            &&& avoids(ds2[i].candidates@, ds2[i].next - 1, cs)
            &&& hits(ds2[i].candidates@, cs)
        } by {
        assert forall|i2: int| 0 <= i2 < i implies cs.contains(#[trigger] tried(ds0, i2)) by {
            assert(tried(ds2, i2) == tried(ds0, i2));
        }
        assert(follows(ds0, cs, i));
        assert(lv0[base + i] <= lv0[base + n - 1]);
        if i == n - 1 {
            if cs.contains(tried(ds0, n - 1)) {
                assert forall|i2: int| 0 <= i2 < n implies cs.contains(#[trigger] tried(ds0, i2)) by {}
                assert(follows(ds0, cs, n));
            }
            assert forall|j: int| 0 <= j < ds2[i].next - 1 implies !cs.contains(#[trigger] ds2[i].candidates@[j].0 as int) by {
                if j < next - 1 {
                    assert(avoids(ds0[i].candidates@, ds0[i].next - 1, cs));
                }
            }
        }
    }
    assert forall|cs: Set<int>| #[trigger] alive(s2.cfg.cardinality, s2.c, t0, l0, cs) && follows(ds2, cs, n) implies agrees(
        s2.status@,
        cs,
    ) by {
        assert(follows(ds2, cs, n - 1));
        s2.lemma_agrees_trail(cs);
    }
    assert(0 <= l0 <= s2.trail@.len());
    assert(forall|j: int| 0 <= j < l0 ==> #[trigger] s2.trail@[j] == t0[j]);
    assert(s2.trail_levels@.len() == base + ds2.len());
    assert forall|i: int| 0 <= i < ds2.len() implies 1 <= (#[trigger] ds2[i]).next <= ds2[i].candidates@.len() && l0 <= s2.trail_levels@[base + i] by {
        if i < n - 1 {
            assert(ds2[i] == ds0[i]);
        }
    }
}

/// Dropping a decision whose candidates are all tried keeps what was ruled
/// out below it, and no code in question holds the vertices tried below it.
proof fn lemma_drop_exhausted(s0: &CodeSolver, s3: &CodeSolver, base: nat, t0: Seq<(u32, u32, u8)>, l0: int)
    requires
        s0.wf(),
        s0.ruled(base, t0, l0),
        s0.dead_here(t0, l0),
        s0.decisions@.len() > 0,
        s0.decisions@.last().next >= s0.decisions@.last().candidates@.len(),
        s3.decisions@ == s0.decisions@.drop_last(),
        s3.trail_levels@ == s0.trail_levels@.drop_last(),
        s3.trail@ == s0.trail@.take(s0.trail_levels@.last() as int),
        s3.cfg == s0.cfg,
        s3.c == s0.c,
    ensures
        s3.ruled(base, t0, l0),
        s3.dead_here(t0, l0),
{
    let ds0 = s0.decisions@;
    let ds3 = s3.decisions@;
    let n = ds0.len() as int;
    let lv0 = s0.trail_levels@;
    let mark = lv0.last() as int;
    assert(lv0[base + n - 1] == mark);
    assert forall|i2: int| 0 <= i2 < n - 1 implies #[trigger] ds3[i2] == ds0[i2] by {}
    assert forall|j: int| 0 <= j < s3.trail@.len() implies #[trigger] s3.trail@[j] == s0.trail@[j] by {}
    assert forall|cs: Set<int>, i: int|
        0 <= i < n - 1 && #[trigger] alive(s3.cfg.cardinality, s3.c, t0, l0, cs) && #[trigger] follows(ds3, cs, i) implies {
            &&& agrees_trail(s3.trail@, s3.trail_levels@[base + i] as int, cs)
            &&& avoids(ds3[i].candidates@, ds3[i].next - 1, cs)
            &&& hits(ds3[i].candidates@, cs)
        } by {
        assert forall|i2: int| 0 <= i2 < i implies cs.contains(#[trigger] tried(ds0, i2)) by {
            assert(tried(ds3, i2) == tried(ds0, i2));
        }
        assert(follows(ds0, cs, i));
        assert(lv0[base + i] <= lv0[base + n - 1]);
        assert(s3.trail_levels@[base + i] == lv0[base + i]);
    }
    assert forall|cs: Set<int>| #[trigger] alive(s3.cfg.cardinality, s3.c, t0, l0, cs) implies !follows(ds3, cs, n - 1) by {
        if follows(ds3, cs, n - 1) {
            assert forall|i2: int| 0 <= i2 < n - 1 implies cs.contains(#[trigger] tried(ds0, i2)) by {
                assert(tried(ds3, i2) == tried(ds0, i2));
            }
            assert(follows(ds0, cs, n - 1));
            let d = ds0[n - 1];
            assert(hits(d.candidates@, cs));
            assert(avoids(d.candidates@, d.next - 1, cs));
            let j = choose|j: int| 0 <= j < d.candidates@.len() && cs.contains(#[trigger] d.candidates@[j].0 as int);
            if j == d.next - 1 {
                assert(cs.contains(tried(ds0, n - 1)));
                assert forall|i2: int| 0 <= i2 < n implies cs.contains(#[trigger] tried(ds0, i2)) by {}
                assert(follows(ds0, cs, n));
            }
        }
    }
}

/// Growing the trail under the same decisions keeps what was ruled out.
proof fn lemma_ruled_frame(s0: &CodeSolver, s1: &CodeSolver, base: nat, t0: Seq<(u32, u32, u8)>, l0: int)
    requires
        s0.wf(),
        s0.ruled(base, t0, l0),
        s1.frame(s0),
    ensures
        s1.ruled(base, t0, l0),
{
    let ds = s0.decisions@;
    assert forall|cs: Set<int>, i: int|
        0 <= i < ds.len() && #[trigger] alive(s1.cfg.cardinality, s1.c, t0, l0, cs) && #[trigger] follows(ds, cs, i) implies {
            &&& agrees_trail(s1.trail@, s1.trail_levels@[base + i] as int, cs)
            &&& avoids(ds[i].candidates@, ds[i].next - 1, cs)
            &&& hits(ds[i].candidates@, cs)
        } by {
        assert(alive(s0.cfg.cardinality, s0.c, t0, l0, cs));
        assert(agrees_trail(s0.trail@, s0.trail_levels@[base + i] as int, cs));
        assert(s0.trail_levels@[base + i] <= s0.trail@.len());
        assert forall|j: int| 0 <= j < s0.trail_levels@[base + i] implies (#[trigger] s1.trail@[j].2 == IN ==> cs.contains(
            s1.trail@[j].0 as int)) && (s1.trail@[j].2 == OUT ==> !cs.contains(s1.trail@[j].0 as int)) by {
            assert(s1.trail@[j] == s0.trail@[j]);
        }
    }
    assert forall|j: int| 0 <= j < l0 implies #[trigger] s1.trail@[j] == t0[j] by {
        assert(s1.trail@[j] == s0.trail@[j]);
    }
}

/// A vertex exists.
proof fn lemma_sizes_pos(c: Combi)
    requires
        c.params_ok(),
    ensures
        c.num_vertices >= 1,
{
    crate::bits::lemma_binom_pos(c.n as nat, c.r as nat);
}

} // verus!
