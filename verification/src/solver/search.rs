//! Chronological-backtracking search over `O_k`, and the orbit reduction's
//! conjugacy classes of `S_n`, one per integer partition of `n`.
//!
//! No clause learning. Variable order is minimum remaining values with ties
//! broken by lowest vertex index, or, under link ordering, the same rule
//! within the current link region; value order is lowest permitted colour
//! first. Restarts are not implemented, so the search answers UNSAT only
//! after the space is exhausted, and every early exit answers UNKNOWN.
use vstd::prelude::*;
use super::engine::{Engine, UNASSIGNED, names, mrv_choice, class_passes, class_members};
use super::{BranchOrder, Config, Outcome, PropagatorMode, SymmetryMode};
use super::link::{LinkPlan, RungVerdict, check_link};
use crate::bits::{below, binom, bit, colex, count_ones32, popcount};
use crate::stats::Rule;
use crate::check::{colours_in_range, rainbows_ok, sizes_ok, codes_ok, nv_of, check_outcome, CheckReport, enumeration_bijective,
    all_vertices, degrees_ok};
use crate::combi::{Combi, CombiError};
use crate::interrupt::Interrupt;
use crate::text::{decimal, push_decimal, push_str, str_chars, string_from_chars};
use crate::util::Rng;
use crate::witness::{Witness, WitnessView};

verus! {

/// `p` prepended to every partition in `ps`.
pub open spec fn prefixed(p: u32, ps: Seq<Seq<u32>>) -> Seq<Seq<u32>> {
    ps.map_values(|s: Seq<u32>| seq![p] + s)
}

/// The partitions of `rem` into parts of at most `max`, in descending
/// order of parts, largest first part first.
pub open spec fn parts(rem: nat, max: nat) -> Seq<Seq<u32>>
    decreases rem, rem + 1,
{
    if rem == 0 {
        seq![Seq::empty()]
    } else {
        parts_from(rem, if max < rem { max } else { rem })
    }
}

/// The partitions of `rem > 0` whose first part is at most `p`.
pub open spec fn parts_from(rem: nat, p: nat) -> Seq<Seq<u32>>
    decreases rem, p,
{
    if p == 0 || p > rem || rem == 0 {
        Seq::empty()
    } else {
        prefixed(p as u32, parts((rem - p) as nat, p)) + parts_from(rem, (p - 1) as nat)
    }
}

/// Append `cur` followed by each partition of `rem` with parts at most
/// `max`.
fn go(rem: u32, max: u32, cur: &mut Vec<u32>, out: &mut Vec<Vec<u32>>)
    ensures
        final(cur)@ == old(cur)@,
        final(out)@.len() == old(out)@.len() + parts(rem as nat, max as nat).len(),
        forall|i: int| 0 <= i < old(out)@.len() ==> #[trigger] final(out)@[i] == old(out)@[i],
        forall|i: int| 0 <= i < parts(rem as nat, max as nat).len() ==> #[trigger] final(out)@[old(out)@.len() + i]@
            == old(cur)@ + parts(rem as nat, max as nat)[i],
    decreases rem, rem + 1, 0nat,
{
    if rem == 0 {
        let c = cur.clone();
        proof {
            assert(c@ =~= cur@);
            assert(cur@ + Seq::<u32>::empty() =~= cur@);
        }
        out.push(c);
        return;
    }
    let hi = if max < rem { max } else { rem };
    go_from(rem, hi, cur, out);
}

/// Append `cur` followed by each partition of `rem` with first part at
/// most `p`.
fn go_from(rem: u32, p: u32, cur: &mut Vec<u32>, out: &mut Vec<Vec<u32>>)
    requires
        rem > 0,
        p <= rem,
    ensures
        final(cur)@ == old(cur)@,
        final(out)@.len() == old(out)@.len() + parts_from(rem as nat, p as nat).len(),
        forall|i: int| 0 <= i < old(out)@.len() ==> #[trigger] final(out)@[i] == old(out)@[i],
        forall|i: int| 0 <= i < parts_from(rem as nat, p as nat).len() ==> #[trigger] final(out)@[old(out)@.len() + i]@
            == old(cur)@ + parts_from(rem as nat, p as nat)[i],
    decreases rem, p, 1nat,
{
    if p == 0 {
        return;
    }
    let ghost out0 = out@;
    let ghost cur0 = cur@;
    cur.push(p);
    go(rem - p, p, cur, out);
    let ghost out1 = out@;
    let ghost a = parts((rem - p) as nat, p as nat);
    cur.pop();
    proof {
        assert(cur@ =~= cur0);
    }
    go_from(rem, p - 1, cur, out);
    proof {
        let b = parts_from(rem as nat, (p - 1) as nat);
        let all = parts_from(rem as nat, p as nat);
        assert(all == prefixed(p, a) + b);
        assert forall|i: int| 0 <= i < all.len() implies #[trigger] out@[out0.len() + i]@ == cur0 + all[i] by {
            if i < a.len() {
                assert(out@[out0.len() + i] == out1[out0.len() + i]);
                assert(all[i] == seq![p] + a[i]);
                assert(cur0.push(p) + a[i] =~= cur0 + (seq![p] + a[i]));
            } else {
                assert(all[i] == b[i - a.len()]);
                assert(out@[out0.len() + i] == out@[out1.len() + (i - a.len())]);
            }
        }
        assert forall|i: int| 0 <= i < out0.len() implies #[trigger] out@[i] == out0[i] by {
            assert(out@[i] == out1[i]);
        }
    }
}

/// Partitions of `n` in descending order, deterministically ordered. One per
/// conjugacy class of `S_n`.
pub fn partitions(n: u32) -> (out: Vec<Vec<u32>>)
    ensures
        out@.len() == parts(n as nat, n as nat).len(),
        forall|i: int| 0 <= i < out@.len() ==> #[trigger] out@[i]@ == parts(n as nat, n as nat)[i],
{
    let mut out: Vec<Vec<u32>> = Vec::new();
    let mut cur: Vec<u32> = Vec::new();
    go(n, n, &mut cur, &mut out);
    proof {
        assert forall|i: int| 0 <= i < out@.len() implies #[trigger] out@[i]@ == parts(n as nat, n as nat)[i] by {
            assert(out@[0 + i] == out@[i]);
            assert(Seq::<u32>::empty() + parts(n as nat, n as nat)[i] =~= parts(n as nat, n as nat)[i]);
        }
    }
    out
}


/// The sum of the parts.
pub open spec fn sum_of(s: Seq<u32>) -> nat
    decreases s.len(),
{
    if s.len() == 0 {
        0
    } else {
        s[0] as nat + sum_of(s.drop_first())
    }
}

/// `s` is a partition of `n` into parts of at most `max`, written with the
/// parts in descending order.
pub open spec fn is_partition(s: Seq<u32>, n: nat, max: nat) -> bool {
    &&& sum_of(s) == n
    &&& forall|i: int| 0 <= i < s.len() ==> 1 <= #[trigger] s[i] <= max
    &&& forall|i: int, j: int| 0 <= i < j < s.len() ==> s[i] >= s[j]
}

/// Every sequence `partitions` produces is a partition of `n` in
/// descending order.
pub proof fn law_partitions(rem: nat, max: nat)
    requires
        rem <= u32::MAX,
    ensures
        forall|i: int| 0 <= i < parts(rem, max).len() ==> is_partition(#[trigger] parts(rem, max)[i], rem, max),
    decreases rem, rem + 1, 1nat,
{
    if rem == 0 {
        assert(is_partition(Seq::<u32>::empty(), 0, max));
        assert(parts(0, max)[0] == Seq::<u32>::empty());
    } else {
        let hi = if max < rem { max } else { rem };
        law_partitions_from(rem, hi);
        assert(parts(rem, max) == parts_from(rem, hi));
        assert forall|i: int| 0 <= i < parts(rem, max).len() implies is_partition(#[trigger] parts(rem, max)[i], rem, max) by {
            let s = parts(rem, max)[i];
            assert(s == parts_from(rem, hi)[i]);
            assert(is_partition(s, rem, hi));
            assert forall|x: int| 0 <= x < s.len() implies 1 <= #[trigger] s[x] <= max by {
                assert(s[x] <= hi);
            }
        }
    }
}

proof fn law_partitions_from(rem: nat, p: nat)
    requires
        p <= rem,
        rem <= u32::MAX,
    ensures
        forall|i: int| 0 <= i < parts_from(rem, p).len() ==> is_partition(#[trigger] parts_from(rem, p)[i], rem, p),
    decreases rem, p, 0nat,
{
    if p == 0 || p > rem || rem == 0 {
    } else {
        let a = parts((rem - p) as nat, p);
        law_partitions((rem - p) as nat, p);
        law_partitions_from(rem, (p - 1) as nat);
        let b = parts_from(rem, (p - 1) as nat);
        let all = parts_from(rem, p);
        assert(all == prefixed(p as u32, a) + b);
        assert forall|i: int| 0 <= i < all.len() implies is_partition(#[trigger] all[i], rem, p) by {
            if i < a.len() {
                let s = all[i];
                let t = a[i];
                assert(s == seq![p as u32] + t);
                assert(s.drop_first() =~= t);
                assert(is_partition(t, (rem - p) as nat, p));
                assert forall|x: int, y: int| 0 <= x < y < s.len() implies s[x] >= s[y] by {
                    assert(s[y] == t[y - 1]);
                    assert(1 <= t[y - 1] <= p);
                    if x > 0 {
                        assert(s[x] == t[x - 1]);
                        assert(t[x - 1] >= t[y - 1]);
                    } else {
                        assert(s[0] == p);
                    }
                }
                assert forall|x: int| 0 <= x < s.len() implies 1 <= #[trigger] s[x] <= p by {
                    if x > 0 {
                        assert(s[x] == t[x - 1]);
                    }
                }
            } else {
                assert(all[i] == b[i - a.len()]);
                assert(is_partition(b[i - a.len()], rem, (p - 1) as nat));
            }
        }
    }
}


// ---------------------------------------------------------------------------
// Time
// ---------------------------------------------------------------------------

#[verifier::external_type_specification]
#[verifier::external_body]
pub struct ExInstant(std::time::Instant);

/// The current instant, by `Instant::now`. Nothing is claimed of it.
#[verifier::external_body]
pub(crate) fn clock_now() -> std::time::Instant {
    std::time::Instant::now()
}

/// The time since `start`, by `Instant::elapsed`. It depends on the clock,
/// so nothing is claimed of it.
#[verifier::external_body]
fn elapsed_since(start: &std::time::Instant) -> std::time::Duration {
    start.elapsed()
}

/// The whole milliseconds in `d`, by `Duration::as_millis`. The duration is
/// opaque here, so nothing is claimed of the count.
#[verifier::external_body]
fn whole_millis(d: &std::time::Duration) -> u128 {
    d.as_millis()
}

/// Milliseconds since `start`, cut to 64 bits.
pub(crate) fn elapsed_ms(start: &std::time::Instant) -> u64 {
    let ms = whole_millis(&elapsed_since(start));
    #[verifier::truncate]
    (ms as u64)
}

// ---------------------------------------------------------------------------
// The search
// ---------------------------------------------------------------------------

#[derive(Clone, Copy, Debug)]
pub struct Decision {
    pub var: u32,
    pub mask: u32,
    pub remaining: u32,
    pub chosen: u8,
}

/// A colouring that solves the problem: one colour in `0..=k` per vertex,
/// every closed neighbourhood rainbow, every class of size `m`, and every
/// class a perfect 1-code.
pub open spec fn solves(k: u32, cs: Seq<u8>) -> bool {
    let n = (2 * k - 1) as u32;
    let r = (k - 1) as u32;
    let nv = nv_of(k);
    let ncol = (k + 1) as nat;
    &&& cs.len() == nv
    &&& colours_in_range(cs, k)
    &&& rainbows_ok(cs, n, r, ncol, nv)
    &&& sizes_ok(cs, ncol, nv / ncol)
    &&& codes_ok(cs, n, r, ncol, nv)
}

/// The independent checker accepts the colouring `cs` for `k`: every
/// item of its report passes.
pub open spec fn checker_accepts(k: u32, cs: Seq<u8>) -> bool {
    let n = (2 * k - 1) as u32;
    let r = (k - 1) as u32;
    let nv = nv_of(k);
    let ncol = (k + 1) as nat;
    &&& crate::combi::valid_k(k)
    &&& cs.len() == nv
    &&& colours_in_range(cs, k)
    &&& enumeration_bijective(all_vertices(k), nv)
    &&& degrees_ok(n, r, k, nv)
    &&& rainbows_ok(cs, n, r, ncol, nv)
    &&& sizes_ok(cs, ncol, nv / ncol)
    &&& codes_ok(cs, n, r, ncol, nv)
}

/// What the periodic work asks of the search.
enum Tick {
    /// Carry on.
    Go,
    /// Stop with this outcome.
    Stop(Outcome),
    /// Pause so that a checkpoint can be written.
    Save,
}

/// How a search ended: with an outcome, or paused for a checkpoint.
enum SearchEnd {
    Out(Outcome),
    Pause,
}

/// Where a run stands after `start` or `proceed`.
#[derive(Debug, PartialEq, Eq)]
pub enum Step {
    /// The run is over.
    Done(Outcome),
    /// A checkpoint is due: take it with `checkpoint`, then `proceed`.
    Save,
}

/// What link-ordered branching picked.
enum LinkSel {
    /// A vertex to branch on, with its mask.
    Var((u32, u32)),
    /// The current region is fully coloured but not a large set.
    Conflict,
    /// No region within the scan budget had anything left to colour.
    Exhausted,
}

pub struct Solver {
    pub e: Engine,
    decisions: Vec<Decision>,
    interrupt: Interrupt,
    rng: Rng,
    tick: u64,
    start: std::time::Instant,
    next_rung_ms: u64,
    orbit_parts: Vec<Vec<u32>>,
    orbit_branch: usize,
    /// The link region that link ordering branches in, once it is made.
    link: Option<LinkPlan>,
    /// The search stopped or paused with its newest decision in conflict,
    /// before backtracking out of it.
    pending_conflict: bool,
    /// The search paused between the periodic work of a step and the rest
    /// of that step.
    mid_step: bool,
    /// In orbit mode, a branch's level is open and its search under way.
    in_branch: bool,
    /// When the next periodic checkpoint is due, in milliseconds.
    next_checkpoint_ms: Option<u64>,
    /// Milliseconds spent before the run was resumed from a checkpoint.
    resumed_ms: u64,
    /// The propagation count carried over from a checkpoint; this solver
    /// does not count propagations itself.
    carried_propagations: u64,
    /// The levels open when the run started.
    root_levels: Ghost<nat>,
    pub decisions_made: u64,
    pub conflicts: u64,
    pub backtracks: u64,
    /// Conflict-log records not yet handed out.
    log: Vec<LogRecord>,
}

/// One line of the conflict log.
#[derive(Clone, Copy, Debug)]
pub enum LogRecord {
    /// A decision at depth `level`: vertex `var` tries colour `colour`.
    Decision { level: u64, var: u32, colour: u8 },
    /// A conflict at depth `level`, blamed on `rule`.
    Conflict { level: u64, rule: Rule },
}

/// The name of a rule in log records.
pub open spec fn rule_name(r: Rule) -> Seq<char> {
    match r {
        Rule::A => "a"@,
        Rule::B => "b"@,
        Rule::C => "c"@,
        Rule::D => "d"@,
        Rule::E => "e"@,
        Rule::Matching => "matching"@,
    }
}

/// The JSON line of a log record.
pub open spec fn record_line(r: LogRecord) -> Seq<char> {
    match r {
        LogRecord::Decision { level, var, colour } => "{\"e\":\"d\",\"lvl\":"@ + decimal(level as nat) + ",\"v\":"@
            + decimal(var as nat) + ",\"c\":"@ + decimal(colour as nat) + "}"@,
        LogRecord::Conflict { level, rule } => "{\"e\":\"x\",\"lvl\":"@ + decimal(level as nat) + ",\"rule\":\""@
            + rule_name(rule) + "\"}"@,
    }
}

/// The JSON line of a log record, as written to the conflict log.
pub fn record_text(r: &LogRecord) -> (s: String)
    ensures
        s@ == record_line(*r),
{
    let mut out: Vec<char> = Vec::new();
    match r {
        LogRecord::Decision { level, var, colour } => {
            push_str(&mut out, "{\"e\":\"d\",\"lvl\":");
            push_decimal(&mut out, *level);
            push_str(&mut out, ",\"v\":");
            push_decimal(&mut out, *var as u64);
            push_str(&mut out, ",\"c\":");
            push_decimal(&mut out, *colour as u64);
            push_str(&mut out, "}");
        },
        LogRecord::Conflict { level, rule } => {
            push_str(&mut out, "{\"e\":\"x\",\"lvl\":");
            push_decimal(&mut out, *level);
            push_str(&mut out, ",\"rule\":\"");
            push_str(&mut out, rule.name());
            push_str(&mut out, "\"}");
        },
    }
    string_from_chars(&out)
}

/// How many log records the solver holds before it pauses so that they can
/// be written out.
pub const LOG_BATCH: usize = 4096;

/// A decision names a vertex, its mask, the colours still to try and the
/// colour being tried.
pub open spec fn decision_ok(e: &Engine, d: Decision) -> bool {
    &&& d.var < e.nv()
    &&& names(e.combi(), d.var as int, d.mask)
    &&& d.chosen < e.ncol()
    &&& below(d.remaining, e.ncol() as int)
}

impl Solver {
    /// The conflict-log records not yet handed out.
    pub closed spec fn pending_log(&self) -> Seq<LogRecord> {
        self.log@
    }

    /// Hand out the conflict-log records gathered so far, oldest first.
    pub fn take_log(&mut self) -> (r: Vec<LogRecord>)
        ensures
            r@ == old(self).pending_log(),
            final(self).pending_log().len() == 0,
            final(self).wf() == old(self).wf(),
    {
        let mut out: Vec<LogRecord> = Vec::new();
        std::mem::swap(&mut out, &mut self.log);
        proof {
            assert(self.e == old(self).e);
            assert(self.decisions == old(self).decisions);
            assert(self.orbit_parts == old(self).orbit_parts);
        }
        out
    }

    pub closed spec fn wf(&self) -> bool {
        &&& self.e.wf()
        &&& forall|i: int| 0 <= i < self.decisions@.len() ==> decision_ok(&self.e, #[trigger] self.decisions@[i])
        &&& self.orbit_parts@.len() == parts(self.e.combi().k as nat, self.e.combi().k as nat).len()
        &&& forall|i: int| 0 <= i < self.orbit_parts@.len() ==> #[trigger] self.orbit_parts@[i]@
            == parts(self.e.combi().k as nat, self.e.combi().k as nat)[i]
        &&& (self.link matches Some(p) ==> p.at(self.e.combi()) && 1 <= p.t < self.e.combi().k)
    }

    pub closed spec fn depth(&self) -> nat {
        self.decisions@.len()
    }

    /// The engine.
    pub closed spec fn engine(&self) -> Engine {
        self.e
    }

    /// A solver for `cfg.k`, with nothing assigned.
    pub fn new(cfg: Config, interrupt: Interrupt) -> (r: Result<Solver, CombiError>)
        ensures
            match r {
                Ok(s) => s.wf() && s.depth() == 0 && s.at_root() && s.engine().levels().len() == 0 && s.engine().config() == cfg
                    && s.engine().combi().k == cfg.k,
                Err(CombiError::OutOfRange { k }) => k == cfg.k && (k < 2 || k > 16),
                Err(CombiError::Odd { k }) => k == cfg.k && 2 <= k <= 16 && k % 2 == 1,
            },
            r is Ok <==> crate::combi::valid_k(cfg.k),
    {
        let c = match Combi::new(cfg.k) {
            Ok(c) => c,
            Err(e) => {
                return Err(e);
            },
        };
        let seed = cfg.seed;
        let k = c.k;
        let e = Engine::new(c, cfg);
        let orbit_parts = partitions(k);
        Ok(Solver {
            e,
            decisions: Vec::new(),
            interrupt,
            rng: Rng::new(seed),
            tick: 0,
            start: clock_now(),
            next_rung_ms: 0,
            orbit_parts,
            orbit_branch: 0,
            link: None,
            pending_conflict: false,
            mid_step: false,
            in_branch: false,
            next_checkpoint_ms: None,
            resumed_ms: 0,
            carried_propagations: 0,
            root_levels: Ghost(0),
            decisions_made: 0,
            conflicts: 0,
            backtracks: 0,
            log: Vec::new(),
        })
    }
}



impl Solver {
    /// Symmetry breaking at the root. The `k+1` members of `N[v0]` carry
    /// distinct colours in any solution, so a permutation of colour labels
    /// puts `v0` at colour 0 and its neighbours, in increasing vertex-index
    /// order, at colours `1..=k`. This removes solutions only up to
    /// relabelling.
    pub fn root_setup(&mut self) -> (ok: bool)
        requires
            old(self).wf(),
        ensures
            final(self).wf(),
            final(self).depth() == old(self).depth(),
            final(self).engine().levels() == old(self).engine().levels(),
            final(self).engine().config() == old(self).engine().config(),
            final(self).engine().combi() == old(self).engine().combi(),
            final(self).same_run(old(self)),
            final(self).engine().idle(),
    {
        proof {
            self.e.lemma_wf_facts();
        }
        if !matches!(self.e.config_ref().symmetry, SymmetryMode::Off) {
            let (m0, masks, ranks) = {
                let c = self.e.combi_ref();
                let m0 = c.unrank(0);
                let masks = c.closed_nbhd_masks(m0);
                proof {
                    super::engine::lemma_closed_nbhd(*c, m0);
                }
                let mut ranks: Vec<u32> = Vec::new();
                let mut i: usize = 1;
                while i < masks.len()
                    invariant
                        c.wf(),
                        1 <= i <= masks@.len(),
                        ranks@.len() == i - 1,
                        forall|j: int| 0 <= j < masks@.len() ==> {
                            &&& c.is_vertex(#[trigger] masks@[j])
                            &&& crate::bits::colex(masks@[j]) < c.num_vertices
                        },
                        forall|j: int| 0 <= j < ranks@.len() ==> #[trigger] ranks@[j] == crate::bits::colex(masks@[j + 1]),
                    decreases masks@.len() - i,
                {
                    ranks.push(c.rank(masks[i]));
                    i += 1;
                }
                (m0, masks, ranks)
            };
            self.e.enqueue_assignment(0, m0, 0);
            let mut i: usize = 0;
            while i < ranks.len()
                invariant
                    self.wf(),
                    self.e.combi() == old(self).e.combi(),
                    ranks@.len() + 1 == masks@.len(),
                    masks@.len() == self.e.ncol(),
                    self.e.ncol() <= 17,
                    forall|j: int| 0 <= j < masks@.len() ==> {
                        &&& self.e.combi().is_vertex(#[trigger] masks@[j])
                        &&& crate::bits::colex(masks@[j]) < self.e.combi().num_vertices
                    },
                    forall|j: int| 0 <= j < ranks@.len() ==> #[trigger] ranks@[j] == crate::bits::colex(masks@[j + 1]),
                    self.depth() == old(self).depth(),
                    self.same_run(old(self)),
                    self.e.levels() == old(self).e.levels(),
                    self.e.config() == old(self).e.config(),
                decreases ranks@.len() - i,
            {
                let mut pos: u8 = 0;
                let mut j: usize = 0;
                while j < ranks.len()
                    invariant
                        i < ranks@.len(),
                        ranks@.len() <= 16,
                        j <= ranks@.len(),
                        pos <= j,
                        j > i ==> pos + 1 <= j,
                    decreases ranks@.len() - j,
                {
                    if ranks[j] < ranks[i] {
                        pos = pos + 1;
                    }
                    j += 1;
                }
                proof {
                    assert(masks@[i + 1] == masks@[i as int + 1]);
                }
                self.e.enqueue_assignment(ranks[i], masks[i + 1], pos + 1);
                i += 1;
            }
        }
        self.e.propagate()
    }

    /// Undo decisions until one has a colour left, and try that colour.
    /// `None` once every decision is exhausted; otherwise whether the new
    /// colour conflicts.
    fn backtrack(&mut self, Ghost(base): Ghost<nat>) -> (r: Option<bool>)
        requires
            old(self).wf(),
            old(self).e.levels().len() == base + old(self).depth(),
        ensures
            final(self).wf(),
            final(self).e.levels().len() == base + final(self).depth(),
            r is None ==> final(self).depth() == 0,
            r is Some ==> 1 <= final(self).depth() <= old(self).depth() && {
                let n = final(self).depth() - 1;
                let d = old(self).decisions@[n];
                let nd = final(self).decisions@[n];
                &&& final(self).decisions@.take(n) == old(self).decisions@.take(n)
                &&& nd.var == d.var && nd.mask == d.mask
                &&& nd.remaining == d.remaining & !(1u32 << d.chosen)
                &&& nd.remaining != 0
                &&& bit(nd.remaining, nd.chosen as int)
            },
            final(self).e.config() == old(self).e.config(),
            final(self).e.combi() == old(self).e.combi(),
            final(self).tick == old(self).tick,
            final(self).in_branch == old(self).in_branch,
            final(self).orbit_branch == old(self).orbit_branch,
            final(self).root_levels == old(self).root_levels,
    {
        loop
            invariant
                self.depth() <= old(self).depth(),
                self.decisions@ == old(self).decisions@.take(self.depth() as int),
                self.wf(),
                self.tick == old(self).tick,
                self.in_branch == old(self).in_branch,
                self.orbit_branch == old(self).orbit_branch,
                self.root_levels == old(self).root_levels,
                self.e.levels().len() == base + self.depth(),
                self.e.config() == old(self).e.config(),
                self.e.combi() == old(self).e.combi(),
            decreases self.depth(),
        {
            let ghost before = *self;
            let n = self.decisions.len();
            if n == 0 {
                return None;
            }
            let d = self.decisions[n - 1];
            proof {
                assert(decision_ok(&self.e, self.decisions@[n - 1]));
                self.e.lemma_wf_facts();
            }
            let rem = d.remaining & !(1u32 << d.chosen as u32);
            self.e.pop_level();
            if rem != 0 {
                let c = rem.trailing_zeros();
                proof {
                    super::engine::lemma_lowest_bit(rem);
                    crate::bits::lemma_bits_logic(d.remaining, 1u32 << d.chosen as u32);
                    assert(c < self.e.ncol()) by {
                        if c >= self.e.ncol() {
                            assert(!crate::bits::bit(d.remaining, c as int));
                        }
                    }
                    assert(below(rem, self.e.ncol() as int)) by {
                        assert forall|t: int| self.e.ncol() <= t < 32 implies !#[trigger] crate::bits::bit(rem, t) by {
                            assert(!crate::bits::bit(d.remaining, t));
                        }
                    }
                }
                let nd = Decision { var: d.var, mask: d.mask, remaining: rem, chosen: c as u8 };
                let ghost dold = self.decisions@;
                self.decisions.set(n - 1, nd);
                proof {
                    assert(self.decisions@.take(n - 1) =~= dold.take(n - 1));
                    assert(dold[n - 1] == old(self).decisions@[n - 1]);
                    assert(bit(rem, c as int));
                }
                self.e.push_level();
                self.decisions_made = self.decisions_made.saturating_add(1);
                if self.e.config_ref().conflict_log.is_some() {
                    self.log.push(LogRecord::Decision { level: n as u64, var: d.var, colour: c as u8 });
                }
                self.e.enqueue_assignment(d.var, d.mask, c as u8);
                let ok = self.e.propagate();
                proof {
                    assert forall|i: int| 0 <= i < self.decisions@.len() implies decision_ok(&self.e, #[trigger] self.decisions@[i]) by {
                        if i != n - 1 {
                            assert(decision_ok(&before.e, before.decisions@[i]));
                        }
                    }
                }
                return Some(!ok);
            }
            let ghost dold = self.decisions@;
            self.decisions.pop();
            proof {
                assert(self.decisions@ =~= old(self).decisions@.take(self.depth() as int));
            }
            self.backtracks = self.backtracks.saturating_add(1);
            proof {
                assert forall|i: int| 0 <= i < self.decisions@.len() implies decision_ok(&self.e, #[trigger] self.decisions@[i]) by {
                    assert(self.decisions@[i] == before.decisions@[i]);
                    assert(decision_ok(&before.e, before.decisions@[i]));
                }
            }
        }
    }
}


impl Solver {
    /// Milliseconds spent on this run, including any before a resume.
    fn elapsed_total(&self) -> (t: u64)
        ensures
            t >= self.resumed_ms,
    {
        elapsed_ms(&self.start).saturating_add(self.resumed_ms)
    }

    /// Work done every 256 steps: the stop request, the time budget, the
    /// conflict budget and the periodic checkpoint.
    fn periodic(&mut self) -> (o: Tick)
        requires
            old(self).wf(),
        ensures
            final(self).wf(),
            final(self).e == old(self).e,
            final(self).decisions@ == old(self).decisions@,
            final(self).tick == old(self).tick,
            final(self).in_branch == old(self).in_branch,
            final(self).orbit_branch == old(self).orbit_branch,
            final(self).root_levels == old(self).root_levels,
            o matches Tick::Stop(x) ==> x is Unknown,
            (old(self).e.config().max_conflicts matches Some(mc) && old(self).conflicts >= mc) ==> o is Stop,
            o is Save ==> (old(self).e.config().checkpoint_interval_ms is Some && old(self).e.config().checkpoint is Some)
                || old(self).log@.len() >= LOG_BATCH,
            !(o is Save) ==> final(self).next_checkpoint_ms == old(self).next_checkpoint_ms,
            final(self).conflicts == old(self).conflicts,
    {
        let elapsed = self.elapsed_total();
        let stop = self.interrupt.stop_requested();
        match limit_verdict(stop, elapsed, self.e.config_ref().timeout_ms, self.conflicts, self.e.config_ref().max_conflicts) {
            Some(o) => {
                return Tick::Stop(o);
            },
            None => {},
        }
        let in_use = self.interrupt.rss_reading();
        if in_use > 0 {
            match memory_verdict(self.e.config_ref().memory_limit, in_use, true) {
                Some(o) => {
                    return Tick::Stop(o);
                },
                None => {},
            }
        }
        if self.log.len() >= LOG_BATCH {
            return Tick::Save;
        }
        if let Some(iv) = self.e.config_ref().checkpoint_interval_ms {
            if self.e.config_ref().checkpoint.is_some() {
                let due = match self.next_checkpoint_ms {
                    Some(d) => d,
                    None => iv,
                };
                if elapsed >= due {
                    self.next_checkpoint_ms = Some(elapsed.saturating_add(iv));
                    return Tick::Save;
                }
            }
        }
        Tick::Go
    }

    /// Link-ordered branching. Within the current link region, the
    /// unassigned vertex with the fewest colours left, ties to the lowest
    /// index. A region with nothing left to colour is held to the large set
    /// and the plan moves to the next region; after `min(C(2k, k-t), 2^16)`
    /// such moves the choice falls back to MRV.
    fn select_link(&mut self) -> (r: LinkSel)
        requires
            old(self).wf(),
        ensures
            final(self).wf(),
            final(self).e == old(self).e,
            final(self).decisions == old(self).decisions,
            final(self).depth() == old(self).depth(),
            final(self).tick == old(self).tick,
            final(self).in_branch == old(self).in_branch,
            final(self).orbit_branch == old(self).orbit_branch,
            final(self).root_levels == old(self).root_levels,
            r matches LinkSel::Var((v, m)) ==> v < final(self).e.nv() && names(final(self).e.combi(), v as int, m)
                && final(self).e.cols()[v as int] == UNASSIGNED,
    {
        proof {
            self.e.lemma_wf_facts();
        }
        let t = self.e.combi_ref().clamp_link_level(self.e.config_ref().link_level);
        if !self.e.combi_ref().valid_link_level(t) {
            return LinkSel::Exhausted;
        }
        let mut plan = match self.link.take() {
            Some(p) => p,
            None => LinkPlan::new(self.e.combi_ref(), t, self.e.config_ref().seed),
        };
        let count = self.e.combi_ref().link_count(plan.t);
        let bound = if count < 65536 {
            count
        } else {
            65536
        };
        let mut guard: u64 = 0;
        loop
            invariant
                self.wf(),
                self.e == old(self).e,
                self.decisions == old(self).decisions,
                self.tick == old(self).tick,
                self.in_branch == old(self).in_branch,
                self.orbit_branch == old(self).orbit_branch,
                self.root_levels == old(self).root_levels,
                self.link is None,
                plan.at(self.e.combi()),
                1 <= plan.t < self.e.combi().k,
                bound <= 65536,
                guard <= bound,
            decreases bound - guard,
        {
            proof {
                self.e.lemma_wf_facts();
                crate::combi::lemma_link_cells(self.e.combi(), plan.lambda, plan.t);
            }
            let n = plan.cells.len();
            let mut found = false;
            let mut best_p: u32 = 0;
            let mut best_v: u32 = 0;
            let mut i: usize = 0;
            while i < n
                invariant
                    self.wf(),
                    n == plan.cells@.len(),
                    i <= n,
                    forall|j: int| 0 <= j < n ==> (#[trigger] plan.cells@[j]).vertex < self.e.nv(),
                    found ==> best_v < self.e.nv() && self.e.cols()[best_v as int] == UNASSIGNED,
                decreases n - i,
            {
                let v = plan.cells[i].vertex;
                if !self.e.is_assigned(v) {
                    let p = count_ones32(self.e.eff_dom(v));
                    if !found || p < best_p || (p == best_p && v < best_v) {
                        best_p = p;
                        best_v = v;
                        found = true;
                    }
                }
                i += 1;
            }
            if found {
                let m = self.e.combi_ref().unrank(best_v);
                self.link = Some(plan);
                return LinkSel::Var((best_v, m));
            }
            // The region is fully coloured: hold it to the large set.
            let k = self.e.combi_ref().k;
            let need = self.e.combi_ref().binom.c(k + plan.t, plan.t - 1);
            let mut colors: Vec<Option<u8>> = Vec::new();
            let mut j: usize = 0;
            while j < n
                invariant
                    self.wf(),
                    n == plan.cells@.len(),
                    j <= n,
                    colors@.len() == j,
                    forall|q: int| 0 <= q < n ==> (#[trigger] plan.cells@[q]).vertex < self.e.nv(),
                    forall|q: int| 0 <= q < j ==> (#[trigger] colors@[q] matches Some(x) ==> x < self.e.ncol()),
                decreases n - j,
            {
                let x = self.e.color_of(plan.cells[j].vertex);
                proof {
                    self.e.lemma_wf_facts();
                    let u = plan.cells@[j as int].vertex as int;
                    assert(super::engine::cell_ok(self.e.cols()[u], self.e.doms()[u], self.e.ncol()));
                }
                colors.push(if x == UNASSIGNED {
                    None
                } else {
                    Some(x)
                });
                j += 1;
            }
            proof {
                self.e.lemma_wf_facts();
                assert(need * ((k + 1) as u64) <= 0xFFFF_FFFF * 17) by (nonlinear_arith)
                    requires
                        need <= 0xFFFF_FFFF,
                        k + 1 <= 17,
                ;
            }
            // The large-set table is indexed by `(t-1)`-subset and colour.
            if need * ((k + 1) as u64) <= usize::MAX as u64 {
                proof {
                    crate::bits::lemma_binom_fits((k + plan.t) as nat, (plan.t - 1) as nat);
                    assert forall|q: int| 0 <= q < plan.cells@.len() implies popcount(#[trigger] plan.cells@[q].points) == plan.t
                        && below(plan.cells@[q].points, (k + plan.t) as int) by {
                    }
                }
                if let RungVerdict::Fail(_) = check_link(self.e.combi_ref(), plan.t, &plan.cells, &colors) {
                    self.link = Some(plan);
                    return LinkSel::Conflict;
                }
            }
            guard = guard + 1;
            if guard >= bound {
                self.link = Some(plan);
                return LinkSel::Exhausted;
            }
            plan.advance(self.e.combi_ref());
        }
    }

    /// The search from the current state. UNSAT only once every decision is
    /// exhausted; SAT only with every vertex coloured.
    fn search(&mut self, Ghost(base): Ghost<nat>) -> (r: SearchEnd)
        requires
            old(self).wf(),
            old(self).e.levels().len() == base + old(self).depth(),
        ensures
            final(self).wf(),
            final(self).e.config() == old(self).e.config(),
            final(self).e.combi() == old(self).e.combi(),
            final(self).e.levels().len() == base + final(self).depth(),
            final(self).in_branch == old(self).in_branch,
            final(self).orbit_branch == old(self).orbit_branch,
            final(self).root_levels == old(self).root_levels,
            final(self).tick >= old(self).tick,
            r is Pause ==> final(self).tick > old(self).tick,
            r matches SearchEnd::Out(o) ==> (o is Unsat ==> final(self).depth() == 0),
            r matches SearchEnd::Out(o) ==> (o is Sat ==> forall|u: int| 0 <= u < final(self).e.nv() ==> #[trigger] final(self).e.cols()[u] != UNASSIGNED),
    {
        let nv = self.e.combi_ref().num_vertices;
        let mut conflict = self.pending_conflict;
        let mut skip = self.mid_step;
        self.pending_conflict = false;
        self.mid_step = false;
        loop
            invariant
                self.wf(),
                self.e.levels().len() == base + self.depth(),
                self.e.config() == old(self).e.config(),
                self.e.combi() == old(self).e.combi(),
                self.in_branch == old(self).in_branch,
                self.orbit_branch == old(self).orbit_branch,
                self.root_levels == old(self).root_levels,
                self.tick >= old(self).tick,
                nv == self.e.nv(),
            decreases u64::MAX - self.tick, if skip { 1int } else { 0int },
        {
            if skip {
                skip = false;
            } else {
                if self.tick == u64::MAX {
                    self.pending_conflict = conflict;
                    return SearchEnd::Out(Outcome::Unknown(text_string("step limit")));
                }
                self.tick = self.tick + 1;
                if self.tick % 256 == 0 {
                    match self.periodic() {
                        Tick::Go => {},
                        Tick::Stop(o) => {
                            self.pending_conflict = conflict;
                            return SearchEnd::Out(o);
                        },
                        Tick::Save => {
                            self.pending_conflict = conflict;
                            self.mid_step = true;
                            return SearchEnd::Pause;
                        },
                    }
                }
            }
            if conflict {
                self.conflicts = self.conflicts.saturating_add(1);
                if self.e.config_ref().conflict_log.is_some() {
                    self.log.push(LogRecord::Conflict { level: self.decisions.len() as u64, rule: self.e.last_rule() });
                }
                match self.backtrack(Ghost(base)) {
                    None => {
                        return SearchEnd::Out(Outcome::Unsat);
                    },
                    Some(c) => {
                        conflict = c;
                    },
                }
                continue;
            }
            if self.e.assigned_count() == nv {
                proof {
                    self.e.lemma_all_assigned();
                }
                return SearchEnd::Out(Outcome::Sat);
            }
            let sel = if matches!(self.e.config_ref().branch_order, BranchOrder::Link) {
                match self.select_link() {
                    LinkSel::Var(x) => Some(x),
                    LinkSel::Conflict => {
                        self.e.blame(Rule::B);
                        conflict = true;
                        continue;
                    },
                    LinkSel::Exhausted => self.e.select_mrv(),
                }
            } else {
                self.e.select_mrv()
            };
            let (v, mask) = match sel {
                Some(x) => x,
                None => {
                    return SearchEnd::Out(Outcome::Sat);
                },
            };
            proof {
                self.e.lemma_wf_facts();
            }
            let d = self.e.eff_dom(v);
            if d == 0 {
                conflict = true;
                continue;
            }
            let c = d.trailing_zeros();
            proof {
                super::engine::lemma_lowest_bit(d);
                crate::bits::lemma_bits_logic(self.e.doms()[v as int], self.e.closed_set());
                assert(below(d, self.e.ncol() as int)) by {
                    assert forall|t: int| self.e.ncol() <= t < 32 implies !#[trigger] crate::bits::bit(d, t) by {
                        assert(!crate::bits::bit(self.e.doms()[v as int], t));
                    }
                }
                if c >= self.e.ncol() {
                    assert(!crate::bits::bit(d, c as int));
                }
            }
            let ghost before = *self;
            self.decisions.push(Decision { var: v, mask, remaining: d, chosen: c as u8 });
            self.e.push_level();
            self.decisions_made = self.decisions_made.saturating_add(1);
            if self.e.config_ref().conflict_log.is_some() {
                self.log.push(LogRecord::Decision { level: self.decisions.len() as u64, var: v, colour: c as u8 });
            }
            self.e.enqueue_assignment(v, mask, c as u8);
            if !self.e.propagate() {
                conflict = true;
            }
            proof {
                assert forall|i: int| 0 <= i < self.decisions@.len() implies decision_ok(&self.e, #[trigger] self.decisions@[i]) by {
                    if i < before.decisions@.len() {
                        assert(self.decisions@[i] == before.decisions@[i]);
                        assert(decision_ok(&before.e, before.decisions@[i]));
                    }
                }
            }
        }
    }

    /// Before answering SAT: check the colouring with the independent
    /// checker.
    fn on_sat(&self) -> (r: Result<(), String>)
        requires
            self.wf(),
        ensures
            r is Ok ==> solves(self.e.combi().k, self.e.cols()),
            r is Ok <==> self.sat_checks_pass(),
    {
        // Always run the full N_j distribution check on every completed
        // class first.
        proof {
            self.e.lemma_wf_facts();
        }
        let ncol = self.e.combi_ref().colors as usize;
        let mut cls: usize = 0;
        while cls < ncol
            invariant
                self.wf(),
                cls <= ncol,
                ncol == self.e.ncol(),
                forall|c2: int| 0 <= c2 < cls ==> #[trigger] class_passes(self.e.combi().k, self.e.combi().m, class_members(self.e.combi(), self.e.cols(), c2, self.e.nv())),
            decreases ncol - cls,
        {
            match self.e.verify_class(cls) {
                Ok(()) => {},
                Err(msg) => {
                    let mut out: Vec<char> = Vec::new();
                    push_str(&mut out, "SEV-1: solver reported SAT but class verification failed: ");
                    push_str(&mut out, msg.as_str());
                    return Err(string_from_chars(&out));
                },
            }
            cls += 1;
        }
        let colors = self.e.colors_snapshot();
        let k = self.e.combi_ref().k;
        let w = Witness::Partition { k, colors };
        match crate::check::check_witness(&w) {
            Ok(rep) => {
                if rep.ok() {
                    proof {
                        assert(rep.items@[1].pass);
                        assert(rep.items@.len() == 6);
                        assert(rep.items@[0].pass);
                        assert(rep.items@[3].pass);
                        assert(rep.items@[4].pass);
                        assert(rep.items@[5].pass);
                    }
                    Ok(())
                } else {
                    Err(text_string("SEV-1: solver reported SAT but the independent checker rejected the colouring"))
                }
            },
            Err(_) => Err(text_string("SEV-1: solver reported SAT but the colouring could not be checked")),
        }
    }

    /// The run's own bookkeeping is as in `other`: the orbit branch, the
    /// step count and where a pause left off.
    pub closed spec fn same_run(&self, other: &Solver) -> bool {
        &&& self.in_branch == other.in_branch
        &&& self.orbit_branch == other.orbit_branch
        &&& self.root_levels == other.root_levels
        &&& self.tick == other.tick
        &&& self.mid_step == other.mid_step
        &&& self.pending_conflict == other.pending_conflict
    }

    /// No decision is open and no orbit branch is under way.
    pub closed spec fn at_root(&self) -> bool {
        self.depth() == 0 && !self.in_branch
    }

    /// The open decisions, oldest first.
    pub closed spec fn path(&self) -> Seq<Decision> {
        self.decisions@
    }

    /// The search stopped or paused with its newest decision in conflict.
    pub closed spec fn stopped_in_conflict(&self) -> bool {
        self.pending_conflict
    }

    /// The orbit branch under way, or last tried.
    pub closed spec fn current_branch(&self) -> usize {
        self.orbit_branch
    }

    /// The steps the search has taken.
    pub closed spec fn steps(&self) -> u64 {
        self.tick
    }

    /// The colouring passes every check made before SAT is claimed: the
    /// per-class distribution check and the independent checker.
    pub closed spec fn sat_checks_pass(&self) -> bool {
        &&& checker_accepts(self.e.combi().k, self.e.cols())
        &&& forall|cls: int| 0 <= cls < self.e.ncol()
            ==> #[trigger] class_passes(self.e.combi().k, self.e.combi().m, class_members(self.e.combi(), self.e.cols(), cls, self.e.nv()))
    }

    /// Every vertex is coloured, yet the colouring fails a check made
    /// before SAT is claimed.
    pub closed spec fn sat_rejected(&self) -> bool {
        &&& forall|u: int| 0 <= u < self.e.nv() ==> #[trigger] self.e.cols()[u] != UNASSIGNED
        &&& !self.sat_checks_pass()
    }

    /// Where a paused run stands: its levels are those open at the start,
    /// the open orbit branch's, and one per decision.
    pub closed spec fn paused(&self) -> bool {
        &&& self.e.levels().len() == self.root_levels@ + (if self.in_branch { 1nat } else { 0nat }) + self.depth()
        &&& self.in_branch ==> self.orbit_branch < self.orbit_parts@.len()
    }

    /// The step a search end comes to; SAT only once the independent
    /// checker accepts the colouring.
    fn finish(&self, end: SearchEnd) -> (r: Result<Step, String>)
        requires
            self.wf(),
        ensures
            r matches Ok(Step::Done(Outcome::Sat)) ==> solves(self.engine().combi().k, self.engine().cols()),
            r matches Ok(Step::Save) ==> end is Pause,
            end is Pause ==> r == Ok::<Step, String>(Step::Save),
            (match end {
                SearchEnd::Out(o) => !(o is Sat) ==> r == Ok::<Step, String>(Step::Done(o)),
                SearchEnd::Pause => true,
            }),
            end matches SearchEnd::Out(Outcome::Sat) ==> (r is Err <==> !self.sat_checks_pass())
                && (r is Ok ==> r == Ok::<Step, String>(Step::Done(Outcome::Sat))),
    {
        match end {
            SearchEnd::Pause => Ok(Step::Save),
            SearchEnd::Out(Outcome::Sat) => {
                match self.on_sat() {
                    Ok(()) => Ok(Step::Done(Outcome::Sat)),
                    Err(m) => Err(m),
                }
            },
            SearchEnd::Out(o) => Ok(Step::Done(o)),
        }
    }

    /// Start a run: root symmetry breaking, then, from `resume` if given,
    /// the search (over every orbit branch in orbit mode), until it ends or
    /// a checkpoint is due.
    pub fn start(&mut self, resume: Option<&Checkpoint>) -> (r: Result<Step, String>)
        requires
            old(self).wf(),
            old(self).at_root(),
        ensures
            final(self).wf(),
            final(self).engine().combi() == old(self).engine().combi(),
            final(self).engine().config() == old(self).engine().config(),
            r matches Ok(Step::Done(Outcome::Sat)) ==> solves(final(self).engine().combi().k, final(self).engine().cols()),
            r matches Ok(Step::Save) ==> final(self).paused(),
            resume is None && r is Err ==> final(self).sat_rejected(),
            r == Ok::<Step, String>(Step::Done(Outcome::Unsat)) ==> final(self).at_root(),
    {
        self.pending_conflict = false;
        self.mid_step = false;
        if !self.root_setup() {
            return Ok(Step::Done(Outcome::Unsat));
        }
        self.root_levels = Ghost(self.e.levels().len());
        let end = if matches!(self.e.config_ref().symmetry, SymmetryMode::Orbit) {
            match self.orbit_drive(resume) {
                Ok(x) => x,
                Err(m) => {
                    return Err(m);
                },
            }
        } else {
            if let Some(cp) = resume {
                match self.replay(cp, Ghost(self.root_levels@)) {
                    Ok(()) => {},
                    Err(m) => {
                        return Err(m);
                    },
                }
            }
            self.search(Ghost(self.root_levels@))
        };
        self.finish(end)
    }

    /// Continue a run that paused for a checkpoint.
    pub fn proceed(&mut self) -> (r: Result<Step, String>)
        requires
            old(self).wf(),
            old(self).paused(),
        ensures
            final(self).wf(),
            final(self).engine().combi() == old(self).engine().combi(),
            final(self).engine().config() == old(self).engine().config(),
            r matches Ok(Step::Done(Outcome::Sat)) ==> solves(final(self).engine().combi().k, final(self).engine().cols()),
            r matches Ok(Step::Save) ==> final(self).paused() && final(self).steps() > old(self).steps(),
            r is Err ==> final(self).sat_rejected(),
            r == Ok::<Step, String>(Step::Done(Outcome::Unsat)) ==> final(self).at_root(),
    {
        let end = if self.in_branch {
            match self.orbit_drive(None) {
                Ok(x) => x,
                Err(m) => {
                    return Err(m);
                },
            }
        } else {
            self.search(Ghost(self.root_levels@))
        };
        self.finish(end)
    }

    /// Solve to the end: `start`, then `proceed` past every checkpoint
    /// without taking it. SAT comes only with a colouring that the
    /// independent checker accepts. UNSAT comes only with the search tree
    /// exhausted: every decision undone and, in orbit mode, every orbit
    /// branch closed; a time, conflict, memory or stop limit answers
    /// UNKNOWN.
    pub fn run(&mut self) -> (r: Result<Outcome, String>)
        requires
            old(self).wf(),
            old(self).at_root(),
        ensures
            final(self).wf(),
            r == Ok::<Outcome, String>(Outcome::Unsat) ==> final(self).at_root(),
            r == Ok::<Outcome, String>(Outcome::Sat) ==> solves(final(self).engine().combi().k, final(self).engine().cols()),
            r is Err ==> final(self).sat_rejected(),
    {
        let mut step = match self.start(None) {
            Ok(x) => x,
            Err(m) => {
                return Err(m);
            },
        };
        loop
            invariant
                self.wf(),
                step matches Step::Done(Outcome::Sat) ==> solves(self.engine().combi().k, self.engine().cols()),
                step is Save ==> self.paused(),
                step == Step::Done(Outcome::Unsat) ==> self.at_root(),
            decreases u64::MAX - self.steps(),
        {
            if let Step::Done(o) = step {
                return Ok(o);
            }
            match self.proceed() {
                Ok(Step::Done(o)) => {
                    return Ok(o);
                },
                Ok(Step::Save) => {
                    step = Step::Save;
                },
                Err(m) => {
                    return Err(m);
                },
            }
        }
    }
}

/// `elapsed` has reached the time budget, if there is one.
pub open spec fn timed_out(elapsed: u64, timeout_ms: Option<u64>) -> bool {
    match timeout_ms {
        Some(t) => elapsed >= t,
        None => false,
    }
}

/// `conflicts` has reached the conflict budget, if there is one.
pub open spec fn over_budget(conflicts: u64, max_conflicts: Option<u64>) -> bool {
    match max_conflicts {
        Some(mc) => conflicts >= mc,
        None => false,
    }
}

/// The text of the unknown outcome that a limit gives, if one is reached.
pub open spec fn limit_text(stop: bool, elapsed: u64, timeout_ms: Option<u64>, conflicts: u64, max_conflicts: Option<u64>) -> Option<
    Seq<char>,
> {
    if stop {
        Some("interrupted"@)
    } else if timed_out(elapsed, timeout_ms) {
        Some("timeout after "@ + crate::text::decimal(timeout_ms->0 as nat) + " ms"@)
    } else if over_budget(conflicts, max_conflicts) {
        Some("conflict limit "@ + crate::text::decimal(max_conflicts->0 as nat) + ""@)
    } else {
        None
    }
}

/// The limit that stops a run, if one does: a stop request first, then
/// the time budget, then the conflict budget. Each gives an unknown
/// outcome; no limit ever gives UNSAT.
pub fn limit_verdict(stop: bool, elapsed: u64, timeout_ms: Option<u64>, conflicts: u64, max_conflicts: Option<u64>) -> (r: Option<
    Outcome,
>)
    ensures
        match r {
            None => limit_text(stop, elapsed, timeout_ms, conflicts, max_conflicts) is None,
            Some(Outcome::Unknown(m)) => limit_text(stop, elapsed, timeout_ms, conflicts, max_conflicts) == Some(m@),
            Some(_) => false,
        },
{
    if stop {
        return Some(Outcome::Unknown(text_string("interrupted")));
    }
    if let Some(t) = timeout_ms {
        if elapsed >= t {
            return Some(Outcome::Unknown(message("timeout after ", t, " ms")));
        }
    }
    if let Some(mc) = max_conflicts {
        if conflicts >= mc {
            return Some(Outcome::Unknown(message("conflict limit ", mc, "")));
        }
    }
    None
}

/// The text of the unknown outcome that a memory limit gives, if the
/// reading `in_use` is over it; with `show_use`, the reading is named too.
pub open spec fn memory_text(memory_limit: Option<u64>, in_use: u64, show_use: bool) -> Option<Seq<char>> {
    match memory_limit {
        Some(l) => if in_use > l {
            Some("memory limit "@ + crate::text::bytes_text(l as nat) + " exceeded"@ + if show_use {
                " ("@ + crate::text::bytes_text(in_use as nat) + " in use)"@
            } else {
                Seq::empty()
            })
        } else {
            None
        },
        None => None,
    }
}

/// Whether a resident-memory reading of `in_use` bytes stops a run with
/// `memory_limit`: it does when over the limit, with an unknown outcome.
pub fn memory_verdict(memory_limit: Option<u64>, in_use: u64, show_use: bool) -> (r: Option<Outcome>)
    ensures
        match r {
            None => memory_text(memory_limit, in_use, show_use) is None,
            Some(Outcome::Unknown(m)) => memory_text(memory_limit, in_use, show_use) == Some(m@),
            Some(_) => false,
        },
{
    match memory_limit {
        Some(l) => {
            if in_use > l {
                let mut out: Vec<char> = Vec::new();
                push_str(&mut out, "memory limit ");
                crate::text::push_bytes(&mut out, l);
                push_str(&mut out, " exceeded");
                if show_use {
                    push_str(&mut out, " (");
                    crate::text::push_bytes(&mut out, in_use);
                    push_str(&mut out, " in use)");
                }
                proof {
                    if !show_use {
                        assert(out@ == out@ + Seq::<char>::empty());
                    }
                }
                Some(Outcome::Unknown(string_from_chars(&out)))
            } else {
                None
            }
        },
        None => None,
    }
}

/// A `String` holding `s`.
pub(crate) fn text_string(s: &str) -> (r: String)
    ensures
        r@ == s@,
{
    let mut out: Vec<char> = Vec::new();
    push_str(&mut out, s);
    string_from_chars(&out)
}

/// The text `prefix` followed by the decimal `n` and `suffix`.
pub(crate) fn message(prefix: &str, n: u64, suffix: &str) -> (s: String)
    ensures
        s@ == prefix@ + crate::text::decimal(n as nat) + suffix@,
{
    let mut out: Vec<char> = Vec::new();
    push_str(&mut out, prefix);
    push_decimal(&mut out, n);
    push_str(&mut out, suffix);
    string_from_chars(&out)
}


/// Bits `lo..hi` as a mask.
proof fn lemma_range_mask(lo: u32, hi: u32)
    requires
        lo <= hi <= 31,
    ensures
        forall|t: int| 0 <= t < 32 ==> (#[trigger] crate::bits::bit(crate::bits::low_mask(hi) & !crate::bits::low_mask(lo), t) <==> lo <= t < hi),
{
    crate::bits::lemma_low_mask(hi);
    crate::bits::lemma_low_mask(lo);
    crate::bits::lemma_bits_logic(crate::bits::low_mask(hi), crate::bits::low_mask(lo));
}

impl Solver {
    /// The number of orbit branches: one per partition of `k`.
    pub fn orbit_count(&self) -> (n: usize)
        requires
            self.wf(),
        ensures
            n == parts(self.engine().combi().k as nat, self.engine().combi().k as nat).len(),
    {
        self.orbit_parts.len()
    }

    /// `φ(z)` for `z ∈ C_0 = [n] \ T_0`: the colour the root breaking gives to
    /// the neighbour `u_z = C_0 \ {z}` of `v0`. Indexed by position in the
    /// ascending list of `C_0`.
    pub fn phi(&self) -> (phi: Vec<u8>)
        requires
            self.wf(),
        ensures
            phi@.len() == self.engine().combi().k,
            forall|i: int| 0 <= i < phi@.len() ==> 1 <= #[trigger] phi@[i] <= self.engine().combi().k,
    {
        proof {
            self.e.lemma_wf_facts();
        }
        let c = self.e.combi_ref();
        let k = c.k;
        // C_0 = {k-1, ..., 2k-2}, as a mask
        proof {
            let a = (k - 1) as u32;
            let b = (2 * k - 1) as u32;
            crate::bits::lemma_shift_pos(a);
            crate::bits::lemma_shift_pos(b);
        }
        let lo_mask: u32 = (1u32 << (k - 1)) - 1;
        let hi_mask: u32 = (1u32 << (2 * k - 1)) - 1;
        let c0 = hi_mask & !lo_mask;
        proof {
            assert(lo_mask == crate::bits::low_mask((k - 1) as u32));
            assert(hi_mask == crate::bits::low_mask((2 * k - 1) as u32));
            lemma_range_mask((k - 1) as u32, (2 * k - 1) as u32);
        }
        let mut us: Vec<u32> = Vec::new();
        let mut pos: u32 = 0;
        while pos < k
            invariant
                c.wf(),
                k == c.k,
                2 <= k <= 16,
                pos <= k,
                us@.len() == pos,
                forall|t: int| 0 <= t < 32 ==> (#[trigger] crate::bits::bit(c0, t) <==> k - 1 <= t < 2 * k - 1),
            decreases k - pos,
        {
            let z = k - 1 + pos;
            let mask = c0 & !(1u32 << z);
            proof {
                crate::bits::lemma_bit_cleared(c0, z as int);
                assert(below(mask, c.n as int)) by {
                    assert forall|t: int| c.n <= t < 32 implies !#[trigger] crate::bits::bit(mask, t) by {
                        assert(!crate::bits::bit(c0, t));
                    }
                }
            }
            us.push(c.rank(mask));
            pos += 1;
        }
        let mut phi: Vec<u8> = Vec::new();
        let mut i: usize = 0;
        while i < us.len()
            invariant
                us@.len() == k,
                2 <= k <= 16,
                i <= us@.len(),
                phi@.len() == i,
                forall|q: int| 0 <= q < i ==> 1 <= #[trigger] phi@[q] <= k,
            decreases us@.len() - i,
        {
            let mut below_count: u8 = 0;
            let mut j: usize = 0;
            while j < us.len()
                invariant
                    us@.len() == k,
                    k <= 16,
                    i < us@.len(),
                    j <= us@.len(),
                    below_count <= j,
                    j > i ==> below_count + 1 <= j,
                decreases us@.len() - j,
            {
                if us[j] < us[i] {
                    below_count = below_count + 1;
                }
                j += 1;
            }
            phi.push(below_count + 1);
            i += 1;
        }
        phi
    }

    /// Apply the orbit branch `b`: fix the colours of the `k` vertices
    /// `λ' ∪ {x}`, `x ∈ C_0`, where `λ' = {0..k-3}`, according to the
    /// canonical permutation of the `b`-th conjugacy class of `Sym(C_0)`.
    pub fn apply_orbit_branch(&mut self, b: usize) -> (ok: bool)
        requires
            old(self).wf(),
            b < parts(old(self).engine().combi().k as nat, old(self).engine().combi().k as nat).len(),
        ensures
            final(self).wf(),
            final(self).depth() == old(self).depth(),
            final(self).engine().levels() == old(self).engine().levels(),
            final(self).engine().config() == old(self).engine().config(),
            final(self).engine().combi() == old(self).engine().combi(),
            final(self).same_run(old(self)),
            ok,
            final(self).engine().forced().len() == old(self).engine().forced().len() + old(self).engine().combi().k,
            forall|j: int| 0 <= j < old(self).engine().forced().len() ==> #[trigger] final(self).engine().forced()[j] == old(self).engine().forced()[j],
            forall|q: int| 0 <= q < old(self).engine().combi().k ==> {
                let e = #[trigger] final(self).engine().forced()[old(self).engine().forced().len() + q];
                &&& e.1 == crate::bits::low_mask((old(self).engine().combi().k - 2) as u32) | (1u32 << ((old(self).engine().combi().k - 1 + q) as u32))
                &&& e.0 == colex(e.1)
                &&& 1 <= e.2 <= old(self).engine().combi().k
            },
    {
        proof {
            self.e.lemma_wf_facts();
        }
        let k = self.e.combi_ref().k;
        let ku = k as usize;
        // λ' = T_0 minus its largest element, i.e. {0, ..., k-3}
        proof {
            let a = (k - 2) as u32;
            crate::bits::lemma_shift_pos(a);
        }
        let lam: u32 = (1u32 << (k - 2)) - 1;
        let phi = self.phi();
        let parts_b: Vec<u32> = self.orbit_parts[b].clone();
        proof {
            law_partitions(k as nat, k as nat);
            assert(parts_b@ == parts(k as nat, k as nat)[b as int]);
            assert(is_partition(parts_b@, k as nat, k as nat));
        }
        // canonical h of this cycle type, as consecutive cycles over positions
        let mut h: Vec<usize> = vec![0usize; ku];
        let mut off: usize = 0;
        let mut q: usize = 0;
        proof {
            assert(parts_b@.skip(0) =~= parts_b@);
        }
        while q < parts_b.len()
            invariant
                2 <= k <= 16,
                ku == k,
                h@.len() == ku,
                forall|t: int| 0 <= t < ku ==> #[trigger] h@[t] < ku,
                is_partition(parts_b@, k as nat, k as nat),
                q <= parts_b@.len(),
                off + sum_of(parts_b@.skip(q as int)) == k,
            decreases parts_b@.len() - q,
        {
            let p = parts_b[q] as usize;
            proof {
                assert(parts_b@.skip(q as int).drop_first() =~= parts_b@.skip(q as int + 1));
                assert(parts_b@.skip(q as int)[0] == parts_b@[q as int]);
                assert(1 <= parts_b@[q as int]);
            }
            let mut j: usize = 0;
            while j < p
                invariant
                    h@.len() == ku,
                    forall|t: int| 0 <= t < ku ==> #[trigger] h@[t] < ku,
                    off + p <= ku,
                    p >= 1,
                    j <= p,
                decreases p - j,
            {
                h.set(off + j, off + (j + 1) % p);
                j += 1;
            }
            off += p;
            q += 1;
        }
        let mut pos: usize = 0;
        while pos < ku
            invariant
                self.wf(),
                self.same_run(old(self)),
                self.depth() == old(self).depth(),
                self.e.levels() == old(self).e.levels(),
                self.e.config() == old(self).e.config(),
                self.e.combi() == old(self).e.combi(),
                k == self.e.combi().k,
                2 <= k <= 16,
                ku == k,
                self.e.ncol() == k + 1,
                lam == crate::bits::low_mask((k - 2) as u32),
                h@.len() == ku,
                forall|t: int| 0 <= t < ku ==> #[trigger] h@[t] < ku,
                phi@.len() == k,
                forall|i: int| 0 <= i < phi@.len() ==> 1 <= #[trigger] phi@[i] <= k,
                pos <= ku,
                self.e.forced().len() == old(self).e.forced().len() + pos,
                forall|j: int| 0 <= j < old(self).e.forced().len() ==> #[trigger] self.e.forced()[j] == old(self).e.forced()[j],
                forall|q: int| 0 <= q < pos ==> {
                    let e = #[trigger] self.e.forced()[old(self).e.forced().len() + q];
                    &&& e.1 == crate::bits::low_mask((k - 2) as u32) | (1u32 << ((k - 1 + q) as u32))
                    &&& e.0 == colex(e.1)
                    &&& 1 <= e.2 <= k
                },
            decreases ku - pos,
        {
            let x = k - 1 + pos as u32;
            let wmask = lam | (1u32 << x);
            proof {
                self.e.lemma_wf_facts();
                crate::bits::lemma_low_mask((k - 2) as u32);
                crate::bits::lemma_low_mask_pop((k - 2) as u32, 0);
                assert(!crate::bits::bit(lam, x as int));
                assert(wmask == lam | (1u32 << ((x as int) as u32)));
                crate::check::lemma_pop_add_bit(lam, x as int, 0);
                assert(below(wmask, self.e.combi().n as int)) by {
                    assert forall|t: int| self.e.combi().n <= t < 32 implies !#[trigger] crate::bits::bit(wmask, t) by {
                        crate::bits::lemma_bit_or_single(lam, x, t as u32);
                        assert(!crate::bits::bit(lam, t));
                    }
                }
                crate::combi::law_rank_bijection(self.e.combi(), wmask, wmask);
            }
            let widx = self.e.combi_ref().rank(wmask);
            let col = phi[h[pos]];
            let ghost fq = self.e.forced();
            self.e.enqueue_assignment(widx, wmask, col);
            proof {
                assert forall|q: int| 0 <= q < pos + 1 implies {
                    let e = #[trigger] self.e.forced()[old(self).e.forced().len() + q];
                    &&& e.1 == crate::bits::low_mask((k - 2) as u32) | (1u32 << ((k - 1 + q) as u32))
                    &&& e.0 == colex(e.1)
                    &&& 1 <= e.2 <= k
                } by {
                    if q < pos {
                        assert(self.e.forced()[old(self).e.forced().len() + q] == fq[old(self).e.forced().len() + q]);
                    } else {
                        assert(x == (k - 1 + q) as u32);
                    }
                }
            }
            pos += 1;
        }
        true
    }

    /// The orbit reduction is a disjunction: the instance is UNSAT only if
    /// every conjugacy-class branch is UNSAT, and any UNKNOWN branch makes
    /// the whole answer UNKNOWN. Continues the open branch first, if any;
    /// otherwise starts at the branch `resume` names and replays it there.
    fn orbit_drive(&mut self, resume: Option<&Checkpoint>) -> (r: Result<SearchEnd, String>)
        requires
            old(self).wf(),
            old(self).in_branch ==> old(self).paused(),
            !old(self).in_branch ==> old(self).depth() == 0 && old(self).e.levels().len() == old(self).root_levels@,
        ensures
            final(self).wf(),
            final(self).e.config() == old(self).e.config(),
            final(self).e.combi() == old(self).e.combi(),
            final(self).root_levels == old(self).root_levels,
            r matches Ok(SearchEnd::Out(o)) ==> (o is Sat ==> forall|u: int| 0 <= u < final(self).e.nv() ==> #[trigger] final(self).e.cols()[u] != UNASSIGNED),
            r matches Ok(SearchEnd::Pause) ==> final(self).paused() && final(self).tick > old(self).tick,
            resume is None ==> r is Ok,
            r == Ok::<SearchEnd, String>(SearchEnd::Out(Outcome::Unsat)) ==> final(self).at_root() && final(self).e.levels().len()
                == final(self).root_levels@ && (final(self).orbit_parts@.len() > 0 ==> final(self).orbit_branch + 1
                == final(self).orbit_parts@.len()),
    {
        let n = self.orbit_parts.len();
        let ghost base = self.root_levels@;
        let mut b: usize = 0;
        if self.in_branch {
            match self.search(Ghost(base + 1)) {
                SearchEnd::Pause => {
                    return Ok(SearchEnd::Pause);
                },
                SearchEnd::Out(Outcome::Sat) => {
                    return Ok(SearchEnd::Out(Outcome::Sat));
                },
                SearchEnd::Out(Outcome::Unknown(m)) => {
                    return Ok(SearchEnd::Out(Outcome::Unknown(m)));
                },
                SearchEnd::Out(Outcome::Unsat) => {},
            }
            self.in_branch = false;
            self.e.pop_level();
            b = self.orbit_branch + 1;
        } else if let Some(cp) = resume {
            match self.validate(cp) {
                Ok(()) => {},
                Err(m) => {
                    return Err(m);
                },
            }
            if cp.orbit_branch >= n {
                return Err(message("checkpoint names orbit branch ", cp.orbit_branch as u64, " of too few"));
            }
            b = cp.orbit_branch;
        }
        let first = b;
        while b < n
            invariant
                self.wf(),
                !self.in_branch,
                self.depth() == 0,
                self.e.levels().len() == base,
                base == self.root_levels@,
                self.root_levels == old(self).root_levels,
                self.e.config() == old(self).e.config(),
                self.e.combi() == old(self).e.combi(),
                self.tick >= old(self).tick,
                n == self.orbit_parts@.len(),
                b <= n,
                first <= b,
                b > first ==> self.orbit_branch + 1 == b,
                first < n || (first > 0 && self.orbit_branch + 1 == first) || n == 0,
            decreases n - b,
        {
            self.orbit_branch = b;
            self.e.push_level();
            let ok = self.apply_orbit_branch(b) && self.e.propagate();
            if ok {
                if b == first {
                    if let Some(cp) = resume {
                        match self.replay(cp, Ghost(base + 1)) {
                            Ok(()) => {},
                            Err(m) => {
                                return Err(m);
                            },
                        }
                    }
                }
                self.in_branch = true;
                match self.search(Ghost(base + 1)) {
                    SearchEnd::Pause => {
                        return Ok(SearchEnd::Pause);
                    },
                    SearchEnd::Out(Outcome::Sat) => {
                        return Ok(SearchEnd::Out(Outcome::Sat));
                    },
                    SearchEnd::Out(Outcome::Unknown(m)) => {
                        return Ok(SearchEnd::Out(Outcome::Unknown(m)));
                    },
                    SearchEnd::Out(Outcome::Unsat) => {},
                }
                self.in_branch = false;
            } else {
                self.conflicts = self.conflicts.saturating_add(1);
            }
            self.e.pop_level();
            b += 1;
        }
        Ok(SearchEnd::Out(Outcome::Unsat))
    }
}


// ---------------------------------------------------------------------------
// Checkpoints
// ---------------------------------------------------------------------------

/// Everything needed to resume a run: the decision path and the counters,
/// under the configuration it was taken with.
#[derive(Clone, Debug)]
pub struct Checkpoint {
    pub schema: u32,
    pub k: u32,
    pub mode: String,
    pub fingerprint: String,
    /// `(vertex, remaining colour mask, chosen colour)` per decision level.
    pub decisions: Vec<(u32, u32, u8)>,
    pub decisions_count: u64,
    pub conflicts: u64,
    pub propagations: u64,
    pub backtracks: u64,
    pub elapsed_ms: u64,
    pub rng_state: u64,
    pub link_cursor: u64,
    pub orbit_branch: usize,
    /// The snapshot was taken while the newest decision was in conflict and
    /// before backtracking out of it; replay reproduces that conflict.
    pub in_conflict: bool,
}

pub open spec fn symmetry_name(m: SymmetryMode) -> Seq<char> {
    match m {
        SymmetryMode::Off => "None"@,
        SymmetryMode::Color => "Color"@,
        SymmetryMode::Orbit => "Orbit"@,
    }
}

pub open spec fn propagator_name(m: PropagatorMode) -> Seq<char> {
    match m {
        PropagatorMode::Count => "Count"@,
        PropagatorMode::Matching => "Matching"@,
    }
}

pub open spec fn order_name(o: BranchOrder) -> Seq<char> {
    match o {
        BranchOrder::Mrv => "Mrv"@,
        BranchOrder::Link => "Link"@,
    }
}

pub open spec fn bool_text(b: bool) -> Seq<char> {
    if b {
        "true"@
    } else {
        "false"@
    }
}

/// The settings a checkpoint must have been taken under to be resumed:
/// everything that changes the search tree.
pub open spec fn fingerprint_text(cfg: Config) -> Seq<char> {
    "k"@ + decimal(cfg.k as nat) + " sym"@ + symmetry_name(cfg.symmetry) + " prop"@ + propagator_name(cfg.propagator)
        + " card"@ + bool_text(cfg.cardinality) + " anch"@ + decimal(cfg.anchors as nat) + " reach"@ + bool_text(
        cfg.anchor_reach,
    ) + " order"@ + order_name(cfg.branch_order) + " link"@ + decimal(cfg.link_level as nat) + " seed"@ + decimal(
        cfg.seed as nat,
    )
}

fn push_bool(out: &mut Vec<char>, b: bool)
    ensures
        final(out)@ == old(out)@ + bool_text(b),
{
    if b {
        push_str(out, "true");
    } else {
        push_str(out, "false");
    }
}

/// Whether two strings hold the same text.
fn same_text(a: &String, b: &String) -> (r: bool)
    ensures
        r == (a@ == b@),
{
    let x = str_chars(a.as_str());
    let y = str_chars(b.as_str());
    if x.len() != y.len() {
        return false;
    }
    let mut i: usize = 0;
    while i < x.len()
        invariant
            x@ == a@,
            y@ == b@,
            x@.len() == y@.len(),
            i <= x@.len(),
            forall|j: int| 0 <= j < i ==> x@[j] == y@[j],
        decreases x@.len() - i,
    {
        if x[i] != y[i] {
            return false;
        }
        i += 1;
    }
    proof {
        assert(x@ =~= y@);
    }
    true
}

impl Solver {
    /// The fingerprint of `cfg`: see `fingerprint_text`.
    pub fn fingerprint(cfg: &Config) -> (s: String)
        ensures
            s@ == fingerprint_text(*cfg),
    {
        let mut out: Vec<char> = Vec::new();
        push_str(&mut out, "k");
        push_decimal(&mut out, cfg.k as u64);
        push_str(&mut out, " sym");
        match cfg.symmetry {
            SymmetryMode::Off => push_str(&mut out, "None"),
            SymmetryMode::Color => push_str(&mut out, "Color"),
            SymmetryMode::Orbit => push_str(&mut out, "Orbit"),
        }
        push_str(&mut out, " prop");
        match cfg.propagator {
            PropagatorMode::Count => push_str(&mut out, "Count"),
            PropagatorMode::Matching => push_str(&mut out, "Matching"),
        }
        push_str(&mut out, " card");
        push_bool(&mut out, cfg.cardinality);
        push_str(&mut out, " anch");
        push_decimal(&mut out, cfg.anchors as u64);
        push_str(&mut out, " reach");
        push_bool(&mut out, cfg.anchor_reach);
        push_str(&mut out, " order");
        match cfg.branch_order {
            BranchOrder::Mrv => push_str(&mut out, "Mrv"),
            BranchOrder::Link => push_str(&mut out, "Link"),
        }
        push_str(&mut out, " link");
        push_decimal(&mut out, cfg.link_level as u64);
        push_str(&mut out, " seed");
        push_decimal(&mut out, cfg.seed);
        string_from_chars(&out)
    }

    /// The state of the run now, for resuming it later.
    pub fn checkpoint(&self) -> (cp: Checkpoint)
        requires
            self.wf(),
        ensures
            cp.schema == 1,
            cp.k == self.engine().combi().k,
            cp.mode@ == "solve"@,
            cp.fingerprint@ == fingerprint_text(self.engine().config()),
            cp.decisions@.len() == self.depth(),
            forall|i: int| 0 <= i < cp.decisions@.len() ==> #[trigger] cp.decisions@[i] == (
                self.path()[i].var,
                self.path()[i].remaining,
                self.path()[i].chosen,
            ),
            cp.in_conflict == self.stopped_in_conflict(),
            cp.orbit_branch == self.current_branch(),
    {
        let mut path: Vec<(u32, u32, u8)> = Vec::new();
        let mut i: usize = 0;
        while i < self.decisions.len()
            invariant
                i <= self.decisions@.len(),
                path@.len() == i,
                forall|j: int| 0 <= j < i ==> #[trigger] path@[j] == (
                    self.decisions@[j].var,
                    self.decisions@[j].remaining,
                    self.decisions@[j].chosen,
                ),
            decreases self.decisions@.len() - i,
        {
            let d = self.decisions[i];
            path.push((d.var, d.remaining, d.chosen));
            i += 1;
        }
        let link_cursor = match &self.link {
            Some(p) => p.cursor,
            None => 0,
        };
        Checkpoint {
            schema: 1,
            k: self.e.combi_ref().k,
            mode: text_string("solve"),
            fingerprint: Self::fingerprint(self.e.config_ref()),
            decisions: path,
            decisions_count: self.decisions_made,
            conflicts: self.conflicts,
            propagations: self.carried_propagations,
            backtracks: self.backtracks,
            elapsed_ms: self.elapsed_total(),
            rng_state: self.rng.state(),
            link_cursor,
            orbit_branch: self.orbit_branch,
            in_conflict: self.pending_conflict,
        }
    }

    /// Whether `cp` may be resumed here: its schema is known, it is for
    /// this `k`, and it was taken under the same fingerprint.
    pub fn validate(&self, cp: &Checkpoint) -> (r: Result<(), String>)
        requires
            self.wf(),
        ensures
            r is Ok <==> (cp.schema == 1 && cp.k == self.engine().combi().k && cp.fingerprint@ == fingerprint_text(
                self.engine().config(),
            )),
    {
        if cp.schema != 1 {
            return Err(message("checkpoint schema ", cp.schema as u64, " is not supported"));
        }
        let k = self.e.combi_ref().k;
        if cp.k != k {
            let mut out: Vec<char> = Vec::new();
            push_str(&mut out, "checkpoint is for k = ");
            push_decimal(&mut out, cp.k as u64);
            push_str(&mut out, " but k = ");
            push_decimal(&mut out, k as u64);
            push_str(&mut out, " was requested");
            return Err(string_from_chars(&out));
        }
        let want = Self::fingerprint(self.e.config_ref());
        if !same_text(&cp.fingerprint, &want) {
            let mut out: Vec<char> = Vec::new();
            push_str(&mut out, "checkpoint was produced with a different configuration:\n  saved: ");
            push_str(&mut out, cp.fingerprint.as_str());
            push_str(&mut out, "\n  now:   ");
            push_str(&mut out, want.as_str());
            return Err(string_from_chars(&out));
        }
        Ok(())
    }

    /// Replay a checkpoint's decisions. Propagation is deterministic, so
    /// this rebuilds the state the checkpoint was taken in. Only the last
    /// decision may conflict, and only where the checkpoint says it did.
    fn replay(&mut self, cp: &Checkpoint, Ghost(base): Ghost<nat>) -> (r: Result<(), String>)
        requires
            old(self).wf(),
            old(self).depth() == 0,
            old(self).e.levels().len() == base,
        ensures
            final(self).wf(),
            final(self).e.levels().len() == base + final(self).depth(),
            final(self).e.config() == old(self).e.config(),
            final(self).e.combi() == old(self).e.combi(),
            final(self).in_branch == old(self).in_branch,
            final(self).orbit_branch == old(self).orbit_branch,
            final(self).root_levels == old(self).root_levels,
            final(self).tick == old(self).tick,
            r is Ok ==> cp.schema == 1 && cp.k == old(self).engine().combi().k
                && cp.fingerprint@ == fingerprint_text(old(self).engine().config()),
            r is Ok ==> final(self).depth() == cp.decisions@.len() && forall|j: int| 0 <= j < cp.decisions@.len() ==> {
                &&& (#[trigger] final(self).decisions@[j]).var == cp.decisions@[j].0
                &&& final(self).decisions@[j].remaining == cp.decisions@[j].1
                &&& final(self).decisions@[j].chosen == cp.decisions@[j].2
            },
            r is Ok ==> final(self).decisions_made == cp.decisions_count && final(self).conflicts == cp.conflicts
                && final(self).backtracks == cp.backtracks && final(self).resumed_ms == cp.elapsed_ms,
    {
        match self.validate(cp) {
            Ok(()) => {},
            Err(m) => {
                return Err(m);
            },
        }
        proof {
            self.e.lemma_wf_facts();
        }
        let nv = self.e.combi_ref().num_vertices;
        let ncol = self.e.combi_ref().colors;
        let n = cp.decisions.len();
        let mut i: usize = 0;
        while i < n
            invariant
                self.wf(),
                self.e.levels().len() == base + self.depth(),
                self.e.config() == old(self).e.config(),
                self.e.combi() == old(self).e.combi(),
                self.in_branch == old(self).in_branch,
                self.orbit_branch == old(self).orbit_branch,
                self.root_levels == old(self).root_levels,
                self.tick == old(self).tick,
                nv == self.e.nv(),
                ncol == self.e.ncol(),
                ncol <= 17,
                n == cp.decisions@.len(),
                i <= n,
                self.depth() == i,
                forall|j: int| 0 <= j < i ==> {
                    &&& (#[trigger] self.decisions@[j]).var == cp.decisions@[j].0
                    &&& self.decisions@[j].remaining == cp.decisions@[j].1
                    &&& self.decisions@[j].chosen == cp.decisions@[j].2
                },
                cp.schema == 1 && cp.k == old(self).engine().combi().k && cp.fingerprint@ == fingerprint_text(old(self).engine().config()),
            decreases n - i,
        {
            let (var, remaining, chosen) = cp.decisions[i];
            if var as u64 >= nv || chosen as u32 >= ncol || (remaining >> ncol) != 0 {
                return Err(message("checkpoint decision ", i as u64, " is out of range"));
            }
            proof {
                assert(below(remaining, ncol as int)) by {
                    assert forall|t: int| ncol <= t < 32 implies !#[trigger] crate::bits::bit(remaining, t) by {
                        let tt = t as u32;
                        assert(((remaining >> ncol) == 0 && ncol <= tt && tt < 32) ==> ((remaining >> tt) & 1 == 0)) by (bit_vector);
                    }
                }
            }
            proof {
                self.e.lemma_wf_facts();
            }
            let mask = self.e.combi_ref().unrank(var);
            let ghost before = *self;
            self.decisions.push(Decision { var, mask, remaining, chosen });
            self.e.push_level();
            self.e.enqueue_assignment(var, mask, chosen);
            let ok = self.e.propagate();
            proof {
                assert forall|j: int| 0 <= j < self.decisions@.len() implies decision_ok(&self.e, #[trigger] self.decisions@[j]) by {
                    if j < before.decisions@.len() {
                        assert(self.decisions@[j] == before.decisions@[j]);
                        assert(decision_ok(&before.e, before.decisions@[j]));
                    }
                }
            }
            if !ok {
                if cp.in_conflict && i + 1 == n {
                    self.pending_conflict = true;
                } else {
                    let mut out: Vec<char> = Vec::new();
                    push_str(&mut out, "checkpoint replay hit a conflict at decision ");
                    push_decimal(&mut out, i as u64);
                    push_str(&mut out, " (vertex ");
                    push_decimal(&mut out, var as u64);
                    push_str(&mut out, ", colour ");
                    push_decimal(&mut out, chosen as u64);
                    push_str(&mut out, "); the checkpoint does not match this build");
                    return Err(string_from_chars(&out));
                }
            }
            i += 1;
        }
        self.decisions_made = cp.decisions_count;
        self.conflicts = cp.conflicts;
        self.carried_propagations = cp.propagations;
        self.backtracks = cp.backtracks;
        self.rng = Rng::from_state(cp.rng_state);
        self.resumed_ms = cp.elapsed_ms;
        if let Some(mut p) = self.link.take() {
            p.seek(self.e.combi_ref(), cp.link_cursor);
            self.link = Some(p);
        }
        Ok(())
    }
}

} // verus!
