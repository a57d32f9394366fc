//! Maximum matching in a **general** (non-bipartite) graph — Edmonds'
//! blossom algorithm.
//!
//! For every 3-subset `T` of `[v]` the blocks of an `S(4,5,v)` through `T`
//! induce a perfect matching on the `v-3` remaining points, and those graphs
//! are not bipartite, so Hall-type filtering does not apply. Tutte/Edmonds
//! does.
//!
//! Sized for `n <= 32` so adjacency is a `u32` bitmask per vertex. Every walk
//! in the alternating forest visits each of the at most 32 vertices once, so
//! the walks below are bounded by a step budget of that size.
use vstd::prelude::*;
use crate::bits::{bit, lemma_clear_smaller};

verus! {

pub struct Blossom {
    n: usize,
    adj: [u32; 32],
    mate: [i32; 32],
    p: [i32; 32],
    base: [usize; 32],
    used: [bool; 32],
    blos: [bool; 32],
    lca_seen: [bool; 32],
    queue: Vec<usize>,
}

/// How many of the first `i` flags are set.
pub open spec fn count_true(f: Seq<bool>, i: nat) -> nat
    decreases i,
{
    if i == 0 {
        0
    } else {
        count_true(f, (i - 1) as nat) + if f[i - 1] { 1nat } else { 0nat }
    }
}

/// How many of the first `i` vertices are matched.
pub open spec fn matched_count(mate: Seq<i32>, i: nat) -> nat
    decreases i,
{
    if i == 0 {
        0
    } else {
        matched_count(mate, (i - 1) as nat) + if mate[i - 1] >= 0 { 1nat } else { 0nat }
    }
}

proof fn lemma_count_true_bound(f: Seq<bool>, i: nat)
    ensures
        count_true(f, i) <= i,
    decreases i,
{
    if i > 0 {
        lemma_count_true_bound(f, (i - 1) as nat);
    }
}

proof fn lemma_count_true_set(f: Seq<bool>, j: int, i: nat)
    requires
        0 <= j < f.len(),
        i <= f.len(),
        !f[j],
    ensures
        count_true(f.update(j, true), i) == count_true(f, i) + if j < i { 1nat } else { 0nat },
    decreases i,
{
    if i > 0 {
        lemma_count_true_set(f, j, (i - 1) as nat);
    }
}

proof fn lemma_count_true_clear(f: Seq<bool>, j: int, i: nat)
    requires
        0 <= j < f.len(),
        i <= f.len(),
    ensures
        count_true(f.update(j, false), i) <= count_true(f, i),
    decreases i,
{
    if i > 0 {
        lemma_count_true_clear(f, j, (i - 1) as nat);
    }
}

impl Blossom {
    /// Every stored vertex, mate, parent and base is a vertex below 32 (or
    /// `-1` for "none"), and the queue holds at most as many vertices as are
    /// marked used.
    pub closed spec fn wf(&self) -> bool {
        &&& self.n <= 32
        &&& forall|i: int| 0 <= i < 32 ==> #[trigger] self.base@[i] < 32
        &&& forall|i: int| 0 <= i < 32 ==> -1 <= #[trigger] self.mate@[i] < 32
        &&& forall|i: int| 0 <= i < 32 ==> -1 <= #[trigger] self.p@[i] < 32
        &&& forall|i: int| 0 <= i < self.queue@.len() ==> #[trigger] self.queue@[i] < 32
    }

    /// Number of vertices.
    pub closed spec fn order(&self) -> nat {
        self.n as nat
    }

    /// Adjacency bitmasks.
    pub closed spec fn adjacency(&self) -> Seq<u32> {
        self.adj@
    }

    /// The current matching: the mate of each vertex, or `-1`.
    pub closed spec fn mates(&self) -> Seq<i32> {
        self.mate@
    }

    pub fn new() -> (b: Blossom)
        ensures
            b.wf(),
            b.order() == 0,
            b.adjacency().len() == 32,
            b.mates().len() == 32,
            forall|i: int| 0 <= i < 32 ==> #[trigger] b.adjacency()[i] == 0 && b.mates()[i] == -1,
    {
        Blossom {
            n: 0,
            adj: [0u32; 32],
            mate: [-1i32; 32],
            p: [-1i32; 32],
            base: [0usize; 32],
            used: [false; 32],
            blos: [false; 32],
            lca_seen: [false; 32],
            queue: Vec::new(),
        }
    }

    /// Start an empty graph on `n` vertices.
    pub fn reset(&mut self, n: usize)
        requires
            old(self).wf(),
            n <= 32,
        ensures
            final(self).wf(),
            final(self).order() == n,
            final(self).adjacency().len() == 32,
            final(self).mates().len() == 32,
            forall|i: int| 0 <= i < n ==> #[trigger] final(self).adjacency()[i] == 0 && final(self).mates()[i] == -1,
            forall|i: int| n <= i < 32 ==> #[trigger] final(self).adjacency()[i] == old(self).adjacency()[i]
                && final(self).mates()[i] == old(self).mates()[i],
    {
        self.n = n;
        let mut i: usize = 0;
        while i < n
            invariant
                self.wf(),
                self.n == n,
                n <= 32,
                i <= n,
                forall|q: int| 0 <= q < i ==> #[trigger] self.adj@[q] == 0,
                forall|q: int| 0 <= q < i ==> #[trigger] self.mate@[q] == -1,
                forall|q: int| i <= q < 32 ==> #[trigger] self.adj@[q] == old(self).adj@[q],
                forall|q: int| i <= q < 32 ==> #[trigger] self.mate@[q] == old(self).mate@[q],
            decreases n - i,
        {
            let ghost a0 = self.adj@;
            let ghost m0 = self.mate@;
            self.adj[i] = 0;
            self.mate[i] = -1;
            proof {
                assert(self.adj@ == a0.update(i as int, 0u32));
                assert(self.mate@ == m0.update(i as int, -1i32));
                assert forall|q: int| i + 1 <= q < 32 implies #[trigger] self.adj@[q] == old(self).adj@[q] by {
                    assert(a0[q] == old(self).adj@[q]);
                }
                assert forall|q: int| i + 1 <= q < 32 implies #[trigger] self.mate@[q] == old(self).mate@[q] by {
                    assert(m0[q] == old(self).mate@[q]);
                }
            }
            i += 1;
        }
    }

    /// Add the edge `a`-`b`.
    pub fn add_edge(&mut self, a: usize, b: usize)
        requires
            old(self).wf(),
            a < 32,
            b < 32,
        ensures
            final(self).wf(),
            final(self).order() == old(self).order(),
            final(self).mates() == old(self).mates(),
            final(self).adjacency().len() == 32,
            forall|i: int| 0 <= i < 32 ==> #[trigger] final(self).adjacency()[i] == (old(self).adjacency()[i]
                | (if i == a { 1u32 << b } else { 0u32 }) | (if i == b { 1u32 << a } else { 0u32 })),
    {
        let ghost a0 = self.adj@;
        self.adj[a] = self.adj[a] | (1u32 << b);
        self.adj[b] = self.adj[b] | (1u32 << a);
        proof {
            assert forall|i: int| 0 <= i < 32 implies #[trigger] self.adj@[i] == (a0[i] | (if i == a { 1u32 << b } else { 0u32 }) | (if i == b {
                1u32 << a
            } else {
                0u32
            })) by {
                let x = a0[i];
                let sa = 1u32 << b;
                let sb = 1u32 << a;
                crate::bits::lemma_or_zero(x);
                crate::bits::lemma_or_zero(x | sa);
            }
        }
    }
}

impl Blossom {
    /// The fields a search step leaves alone.
    pub closed spec fn same_graph(&self, other: &Blossom) -> bool {
        &&& self.n == other.n
        &&& self.adj@ == other.adj@
    }

    /// Lowest common ancestor of `a` and `b` in the alternating forest,
    /// walking by blossom base.
    fn lca(&mut self, a: usize, b: usize) -> (r: usize)
        requires
            old(self).wf(),
            a < 32,
            b < 32,
        ensures
            final(self).wf(),
            final(self).same_graph(old(self)),
            final(self).mate@ == old(self).mate@,
            final(self).p@ == old(self).p@,
            final(self).base@ == old(self).base@,
            final(self).used@ == old(self).used@,
            final(self).queue@ == old(self).queue@,
            r < 32,
    {
        let n = self.n;
        let mut i: usize = 0;
        while i < n
            invariant
                self.wf(),
                self.same_graph(old(self)),
                self.mate@ == old(self).mate@,
                self.p@ == old(self).p@,
                self.base@ == old(self).base@,
                self.used@ == old(self).used@,
                self.queue@ == old(self).queue@,
                n == self.n,
                i <= n,
            decreases n - i,
        {
            self.lca_seen[i] = false;
            i += 1;
        }
        let mut cur = a;
        let mut steps: u32 = 0;
        while steps < 64
            invariant
                self.wf(),
                self.same_graph(old(self)),
                self.mate@ == old(self).mate@,
                self.p@ == old(self).p@,
                self.base@ == old(self).base@,
                self.used@ == old(self).used@,
                self.queue@ == old(self).queue@,
                cur < 32,
            decreases 64 - steps,
        {
            cur = self.base[cur];
            self.lca_seen[cur] = true;
            let m = self.mate[cur];
            if m < 0 {
                break;
            }
            let pm = self.p[m as usize];
            if pm < 0 {
                break;
            }
            cur = pm as usize;
            steps += 1;
        }
        let mut cur = b;
        let mut steps: u32 = 0;
        while steps < 64
            invariant
                self.wf(),
                self.same_graph(old(self)),
                self.mate@ == old(self).mate@,
                self.p@ == old(self).p@,
                self.base@ == old(self).base@,
                self.used@ == old(self).used@,
                self.queue@ == old(self).queue@,
                cur < 32,
            decreases 64 - steps,
        {
            cur = self.base[cur];
            if self.lca_seen[cur] {
                return cur;
            }
            let m = self.mate[cur];
            if m < 0 {
                return cur;
            }
            let pm = self.p[m as usize];
            if pm < 0 {
                return cur;
            }
            cur = pm as usize;
            steps += 1;
        }
        cur
    }

    fn mark_path(&mut self, v0: usize, b: usize, child0: usize)
        requires
            old(self).wf(),
            v0 < 32,
            child0 < 32,
        ensures
            final(self).wf(),
            final(self).same_graph(old(self)),
            final(self).mate@ == old(self).mate@,
            final(self).base@ == old(self).base@,
            final(self).used@ == old(self).used@,
            final(self).queue@ == old(self).queue@,
    {
        let mut v = v0;
        let mut child = child0;
        let mut steps: u32 = 0;
        while steps < 64 && self.base[v] != b
            invariant
                self.wf(),
                self.same_graph(old(self)),
                self.mate@ == old(self).mate@,
                self.base@ == old(self).base@,
                self.used@ == old(self).used@,
                self.queue@ == old(self).queue@,
                v < 32,
                child < 32,
            decreases 64 - steps,
        {
            let bv = self.base[v];
            self.blos[bv] = true;
            let m = self.mate[v];
            if m < 0 {
                return;
            }
            let m = m as usize;
            let bm = self.base[m];
            self.blos[bm] = true;
            self.p[v] = child as i32;
            child = m;
            let pm = self.p[m];
            if pm < 0 {
                return;
            }
            v = pm as usize;
            steps += 1;
        }
    }

    /// Grow an alternating tree from `root`; returns the far endpoint of an
    /// augmenting path, or -1.
    #[verifier::rlimit(60)]
    fn find_path(&mut self, root: usize) -> (e: i32)
        requires
            old(self).wf(),
            root < old(self).n,
        ensures
            final(self).wf(),
            final(self).same_graph(old(self)),
            final(self).mate@ == old(self).mate@,
            -1 <= e < 32,
    {
        let n = self.n;
        let mut i: usize = 0;
        while i < n
            invariant
                self.wf(),
                self.same_graph(old(self)),
                self.mate@ == old(self).mate@,
                n == self.n,
                i <= n,
            decreases n - i,
        {
            self.used[i] = false;
            self.p[i] = -1;
            self.base[i] = i;
            i += 1;
        }
        self.queue.clear();
        proof {
            lemma_count_true_bound(self.used@, 32);
        }
        if !self.used[root] {
            proof {
                lemma_count_true_set(self.used@, root as int, 32);
            }
        }
        self.used[root] = true;
        proof {
            assert(count_true(self.used@, 32) >= 1) by {
                if count_true(self.used@, 32) == 0 {
                    lemma_count_zero(self.used@, 32, root as int);
                }
            }
        }
        self.queue.push(root);
        let mut qi: usize = 0;
        while qi < self.queue.len()
            invariant
                self.wf(),
                self.same_graph(old(self)),
                self.mate@ == old(self).mate@,
                n == self.n,
                root < n,
                self.queue@.len() <= count_true(self.used@, 32),
                self.used@.len() == 32,
                qi <= self.queue@.len(),
            decreases 32 - qi,
        {
            proof {
                lemma_count_true_bound(self.used@, 32);
            }
            let v = self.queue[qi];
            qi += 1;
            let mut rest = self.adj[v];
            while rest != 0
                invariant
                    self.wf(),
                    self.same_graph(old(self)),
                    self.mate@ == old(self).mate@,
                    n == self.n,
                    root < n,
                    v < 32,
                    self.queue@.len() <= count_true(self.used@, 32),
                    self.used@.len() == 32,
                    qi <= self.queue@.len(),
                decreases rest,
            {
                let t32 = rest.trailing_zeros();
                proof {
                    vstd::std_specs::bits::axiom_u32_trailing_zeros(rest);
                    lemma_clear_smaller(rest, t32);
                }
                let to = t32 as usize;
                rest = rest & !(1u32 << t32);
                if self.base[v] == self.base[to] || self.mate[v] == to as i32 {
                } else if to == root || (self.mate[to] >= 0 && self.p[self.mate[to] as usize] >= 0) {
                    // odd cycle -> contract the blossom
                    let curbase = self.lca(v, to);
                    let mut i: usize = 0;
                    while i < n
                        invariant
                            self.wf(),
                            self.same_graph(old(self)),
                            self.mate@ == old(self).mate@,
                            n == self.n,
                            root < n,
                            self.queue@.len() <= count_true(self.used@, 32),
                            self.used@.len() == 32,
                            qi <= self.queue@.len(),
                            i <= n,
                        decreases n - i,
                    {
                        self.blos[i] = false;
                        i += 1;
                    }
                    self.mark_path(v, curbase, to);
                    self.mark_path(to, curbase, v);
                    let mut i: usize = 0;
                    while i < n
                        invariant
                            self.wf(),
                            self.same_graph(old(self)),
                            self.mate@ == old(self).mate@,
                            n == self.n,
                            root < n,
                            curbase < 32,
                            self.queue@.len() <= count_true(self.used@, 32),
                            self.used@.len() == 32,
                            qi <= self.queue@.len(),
                            i <= n,
                        decreases n - i,
                    {
                        let bi = self.base[i];
                        if self.blos[bi] {
                            self.base[i] = curbase;
                            if !self.used[i] {
                                proof {
                                    lemma_count_true_set(self.used@, i as int, 32);
                                }
                                self.used[i] = true;
                                self.queue.push(i);
                            }
                        }
                        i += 1;
                    }
                } else if self.p[to] < 0 {
                    self.p[to] = v as i32;
                    if self.mate[to] < 0 {
                        return to as i32;
                    }
                    let m = self.mate[to] as usize;
                    if !self.used[m] {
                        proof {
                            lemma_count_true_set(self.used@, m as int, 32);
                        }
                        self.used[m] = true;
                        self.queue.push(m);
                    }
                }
            }
        }
        -1
    }

    /// Flip the matching along the augmenting path ending at `endpoint`.
    fn augment(&mut self, endpoint: usize)
        requires
            old(self).wf(),
            endpoint < 32,
        ensures
            final(self).wf(),
            final(self).same_graph(old(self)),
    {
        let mut u = endpoint;
        let mut steps: u32 = 0;
        while steps < 64
            invariant
                self.wf(),
                self.same_graph(old(self)),
                u < 32,
            decreases 64 - steps,
        {
            let pu = self.p[u];
            if pu < 0 {
                break;
            }
            let pv = pu as usize;
            let ppv = self.mate[pv];
            self.mate[u] = pv as i32;
            self.mate[pv] = u as i32;
            if ppv < 0 {
                break;
            }
            u = ppv as usize;
            steps += 1;
        }
    }

    /// Size of a maximum matching, which is left in the mate table.
    pub fn max_matching(&mut self) -> (m: usize)
        requires
            old(self).wf(),
        ensures
            final(self).wf(),
            final(self).order() == old(self).order(),
            final(self).adjacency() == old(self).adjacency(),
            final(self).mates().len() == 32,
            m == matched_count(final(self).mates(), final(self).order()) / 2,
            m * 2 <= final(self).order(),
    {
        let n = self.n;
        // greedy seed, so augmentation has less to do
        let mut v: usize = 0;
        while v < n
            invariant
                self.wf(),
                self.same_graph(old(self)),
                n == self.n,
                v <= n,
            decreases n - v,
        {
            if self.mate[v] < 0 {
                let mut rest = self.adj[v];
                while rest != 0
                    invariant
                        self.wf(),
                        self.same_graph(old(self)),
                        n == self.n,
                        v < n,
                    decreases rest,
                {
                    let t32 = rest.trailing_zeros();
                    proof {
                        vstd::std_specs::bits::axiom_u32_trailing_zeros(rest);
                        lemma_clear_smaller(rest, t32);
                    }
                    let to = t32 as usize;
                    rest = rest & !(1u32 << t32);
                    if self.mate[to] < 0 {
                        self.mate[v] = to as i32;
                        self.mate[to] = v as i32;
                        break;
                    }
                }
            }
            v += 1;
        }
        let mut v: usize = 0;
        while v < n
            invariant
                self.wf(),
                self.same_graph(old(self)),
                n == self.n,
                v <= n,
            decreases n - v,
        {
            if self.mate[v] < 0 {
                let e = self.find_path(v);
                if e >= 0 {
                    self.augment(e as usize);
                }
            }
            v += 1;
        }
        let mut count: usize = 0;
        let mut v: usize = 0;
        while v < n
            invariant
                self.wf(),
                n == self.n,
                v <= n,
                count == matched_count(self.mate@, v as nat),
                count <= v,
            decreases n - v,
        {
            if self.mate[v] >= 0 {
                count += 1;
            }
            v += 1;
        }
        count / 2
    }

    pub fn has_perfect_matching(&mut self) -> (b: bool)
        requires
            old(self).wf(),
        ensures
            final(self).wf(),
            final(self).order() == old(self).order(),
            final(self).adjacency() == old(self).adjacency(),
            old(self).order() % 2 != 0 ==> !b,
            old(self).order() == 0 ==> b,
            old(self).order() % 2 == 0 && old(self).order() != 0 ==> b == (matched_count(
                final(self).mates(),
                final(self).order(),
            ) / 2 * 2 == final(self).order()),
    {
        if self.n % 2 != 0 {
            return false;
        }
        if self.n == 0 {
            return true;
        }
        let m = self.max_matching();
        m * 2 == self.n
    }

    /// The matching found by the last `max_matching` call.
    pub fn mate_of(&self, v: usize) -> (m: i32)
        requires
            v < 32,
        ensures
            m == self.mates()[v as int],
    {
        self.mate[v]
    }
}

proof fn lemma_count_zero(f: Seq<bool>, i: nat, j: int)
    requires
        0 <= j < i <= f.len(),
        f[j],
    ensures
        count_true(f, i) >= 1,
    decreases i,
{
    if j < i - 1 {
        lemma_count_zero(f, (i - 1) as nat, j);
    }
}

} // verus!
