//! Wave scheduling of compilations: each wave holds the units whose imports
//! are all built, so the units of one wave can be compiled side by side.
//! The caller runs the compiler; this state machine decides what comes next.

use vstd::prelude::*;
use crate::graph::{
    edges_within, incoming_sources, is_acyclic, is_topological_order, lemma_incoming_within,
    lemma_incoming_sources_are_edge_sources,
    lemma_sources_earlier, outgoing_targets, ModuleGraph,
};

verus! {

/// How many of the nodes `srcs` are not yet built.
pub open spec fn count_pending(srcs: Seq<usize>, done: Seq<bool>) -> nat
    decreases srcs.len(),
{
    if srcs.len() == 0 {
        0
    } else {
        (if done[srcs[0] as int] { 0nat } else { 1nat }) + count_pending(srcs.drop_first(), done)
    }
}

/// How many times `x` occurs in `s`.
pub open spec fn occurrences(s: Seq<usize>, x: usize) -> nat
    decreases s.len(),
{
    if s.len() == 0 {
        0
    } else {
        (if s[0] == x { 1nat } else { 0nat }) + occurrences(s.drop_first(), x)
    }
}

/// Unit `v` is not built yet and every unit it imports from is.
pub open spec fn is_ready(edges: Seq<(usize, usize)>, done: Seq<bool>, v: usize) -> bool {
    !done[v as int] && forall|i: int|
        0 <= i < incoming_sources(edges, v).len() ==> done[#[trigger] incoming_sources(edges, v)[i] as int]
}

/// The ready units among `0..k`, in increasing order.
pub open spec fn ready_nodes(edges: Seq<(usize, usize)>, done: Seq<bool>, k: int) -> Seq<usize>
    decreases k,
{
    if k <= 0 {
        Seq::empty()
    } else if is_ready(edges, done, (k - 1) as usize) {
        ready_nodes(edges, done, k - 1).push((k - 1) as usize)
    } else {
        ready_nodes(edges, done, k - 1)
    }
}

/// All of `done` is set.
pub open spec fn all_done(done: Seq<bool>) -> bool {
    forall|i: int| 0 <= i < done.len() ==> #[trigger] done[i]
}

/// What the build does next.
pub enum WaveStep {
    /// Every unit is built.
    Finished,
    /// Some unit is not built and none can be: the imports form a cycle.
    Deadlock,
    /// Compile these units, each of which has all its imports built.
    Compile(Vec<usize>),
}

proof fn lemma_count_pending_zero(srcs: Seq<usize>, done: Seq<bool>)
    ensures
        count_pending(srcs, done) == 0 <==> forall|i: int| 0 <= i < srcs.len() ==> done[#[trigger] srcs[i] as int],
    decreases srcs.len(),
{
    if srcs.len() > 0 {
        lemma_count_pending_zero(srcs.drop_first(), done);
        if count_pending(srcs, done) == 0 {
            assert forall|i: int| 0 <= i < srcs.len() implies done[#[trigger] srcs[i] as int] by {
                if i > 0 {
                    assert(srcs[i] == srcs.drop_first()[i - 1]);
                }
            }
        }
        if forall|i: int| 0 <= i < srcs.len() ==> done[#[trigger] srcs[i] as int] {
            assert forall|i: int| 0 <= i < srcs.drop_first().len() implies done[#[trigger] srcs.drop_first()[i] as int] by {
                assert(srcs.drop_first()[i] == srcs[i + 1]);
            }
            assert(done[srcs[0] as int]);
        }
    }
}

proof fn lemma_count_pending_mark(srcs: Seq<usize>, done: Seq<bool>, v: usize)
    requires
        v < done.len(),
        !done[v as int],
        forall|i: int| 0 <= i < srcs.len() ==> #[trigger] srcs[i] < done.len(),
    ensures
        count_pending(srcs, done) == count_pending(srcs, done.update(v as int, true)) + occurrences(srcs, v),
    decreases srcs.len(),
{
    if srcs.len() > 0 {
        assert forall|i: int| 0 <= i < srcs.drop_first().len() implies #[trigger] srcs.drop_first()[i] < done.len() by {
            assert(srcs.drop_first()[i] == srcs[i + 1]);
        }
        lemma_count_pending_mark(srcs.drop_first(), done, v);
        assert(srcs[0] < done.len());
    }
}

proof fn lemma_occurrences_concat(x: usize, rest: Seq<usize>, v: usize)
    ensures
        occurrences(seq![x] + rest, v) == (if x == v { 1nat } else { 0nat }) + occurrences(rest, v),
{
    assert((seq![x] + rest).drop_first() =~= rest);
}

proof fn lemma_occurrences_symmetric(edges: Seq<(usize, usize)>, v: usize, w: usize)
    ensures
        occurrences(incoming_sources(edges, w), v) == occurrences(outgoing_targets(edges, v), w),
    decreases edges.len(),
{
    if edges.len() > 0 {
        let e = edges.last();
        lemma_occurrences_symmetric(edges.drop_last(), v, w);
        if e.1 == w {
            lemma_occurrences_concat(e.0, incoming_sources(edges.drop_last(), w), v);
        }
        if e.0 == v {
            lemma_occurrences_concat(e.1, outgoing_targets(edges.drop_last(), v), w);
        }
    }
}

proof fn lemma_occurrences_skip(s: Seq<usize>, i: int, x: usize)
    requires
        0 <= i < s.len(),
    ensures
        occurrences(s.skip(i), x) == (if s[i] == x { 1nat } else { 0nat }) + occurrences(s.skip(i + 1), x),
{
    assert(s.skip(i).drop_first() =~= s.skip(i + 1));
}

/// The first unit of a topological order that is not built is ready.
proof fn lemma_first_pending_is_ready(
    order: Seq<usize>,
    n: nat,
    edges: Seq<(usize, usize)>,
    done: Seq<bool>,
    i: int,
)
    requires
        is_topological_order(order, n, edges),
        edges_within(n, edges),
        done.len() == n,
        0 <= i < order.len(),
        !done[order[i] as int],
        forall|j: int| 0 <= j < i ==> done[#[trigger] order[j] as int],
    ensures
        is_ready(edges, done, order[i]),
{
    let v = order[i];
    let srcs = incoming_sources(edges, v);
    assert forall|k: int| 0 <= k < srcs.len() implies done[#[trigger] srcs[k] as int] by {
        lemma_sources_earlier(order, n, edges, i, k);
    }
}

/// Some unit of `order` at or after position `i` is not built; find the first such unit.
proof fn lemma_find_first_pending(order: Seq<usize>, done: Seq<bool>, i: int) -> (j: int)
    requires
        0 <= i < order.len(),
        exists|k: int| i <= k < order.len() && !done[#[trigger] order[k] as int],
        forall|k: int| 0 <= k < i ==> done[#[trigger] order[k] as int],
    ensures
        i <= j < order.len(),
        !done[order[j] as int],
        forall|k: int| 0 <= k < j ==> done[#[trigger] order[k] as int],
    decreases order.len() - i,
{
    if !done[order[i] as int] {
        i
    } else {
        let k = choose|k: int| i <= k < order.len() && !done[#[trigger] order[k] as int];
        assert(k > i);
        lemma_find_first_pending(order, done, i + 1)
    }
}

/// A wave holds exactly the units, among the first `k`, that are not built
/// and whose imports are all built.
pub proof fn lemma_ready_nodes_shape(edges: Seq<(usize, usize)>, done: Seq<bool>, k: int)
    requires
        k >= 0,
    ensures
        forall|v: usize| #[trigger] ready_nodes(edges, done, k).contains(v) <==> (v < k && is_ready(edges, done, v)),
    decreases k,
{
    if k > 0 {
        lemma_ready_nodes_shape(edges, done, k - 1);
        let prev = ready_nodes(edges, done, k - 1);
        if is_ready(edges, done, (k - 1) as usize) {
            assert forall|v: usize| #[trigger] prev.push((k - 1) as usize).contains(v) <==> (v < k && is_ready(edges, done, v)) by {
                if v == (k - 1) as usize {
                    assert(prev.push((k - 1) as usize)[prev.len() as int] == v);
                }
                let pushed = prev.push((k - 1) as usize);
                if pushed.contains(v) && v != (k - 1) as usize {
                    let j = choose|j: int| 0 <= j < pushed.len() && #[trigger] pushed[j] == v;
                    assert(prev[j] == v);
                }
                if prev.contains(v) {
                    let j = choose|j: int| 0 <= j < prev.len() && #[trigger] prev[j] == v;
                    assert(prev.push((k - 1) as usize)[j] == v);
                }
            }
        }
    }
}

/// A wave, stated over the import edges themselves: its units are strictly
/// increasing, each is below `n`, not built, and every edge into it comes from
/// a built unit; and every unit below `n` that is not built and whose every
/// incoming edge comes from a built unit is in the wave.
pub proof fn lemma_wave_members(edges: Seq<(usize, usize)>, done: Seq<bool>, n: int)
    requires
        0 <= n <= done.len(),
        n <= usize::MAX,
    ensures
        ({
            let w = ready_nodes(edges, done, n);
            &&& forall|a: int, b: int| 0 <= a < b < w.len() ==> w[a] < w[b]
            &&& forall|k: int| 0 <= k < w.len() ==> {
                &&& w[k] < n
                &&& !done[w[k] as int]
                &&& forall|j: int| 0 <= j < edges.len() && (#[trigger] edges[j]).1 == w[k] ==> done[edges[j].0 as int]
            }
            &&& forall|v: usize| v < n && !done[v as int]
                && (forall|j: int| 0 <= j < edges.len() && (#[trigger] edges[j]).1 == v ==> done[edges[j].0 as int])
                ==> #[trigger] w.contains(v)
        }),
{
    let w = ready_nodes(edges, done, n);
    lemma_ready_nodes_shape(edges, done, n);
    lemma_ready_nodes_sorted(edges, done, n);
    assert forall|k: int| 0 <= k < w.len() implies {
        &&& w[k] < n
        &&& !done[w[k] as int]
        &&& forall|j: int| 0 <= j < edges.len() && (#[trigger] edges[j]).1 == w[k] ==> done[edges[j].0 as int]
    } by {
        assert(w.contains(w[k]));
        let v = w[k];
        lemma_incoming_sources_are_edge_sources(edges, v);
        assert forall|j: int| 0 <= j < edges.len() && (#[trigger] edges[j]).1 == v implies done[edges[j].0 as int] by {
            assert(edges.contains((edges[j].0, v)));
            assert(incoming_sources(edges, v).contains(edges[j].0));
            let q = choose|q: int| 0 <= q < incoming_sources(edges, v).len() && incoming_sources(edges, v)[q] == edges[j].0;
            assert(done[incoming_sources(edges, v)[q] as int]);
        }
    }
    assert forall|v: usize| v < n && !done[v as int]
        && (forall|j: int| 0 <= j < edges.len() && (#[trigger] edges[j]).1 == v ==> done[edges[j].0 as int])
        implies #[trigger] w.contains(v) by {
        lemma_incoming_sources_are_edge_sources(edges, v);
        let inc = incoming_sources(edges, v);
        assert forall|i: int| 0 <= i < inc.len() implies done[#[trigger] inc[i] as int] by {
            assert(inc.contains(inc[i]));
            assert(edges.contains((inc[i], v)));
            let j = choose|j: int| 0 <= j < edges.len() && edges[j] == (inc[i], v);
            assert(edges[j].1 == v);
        }
        assert(is_ready(edges, done, v));
    }
}

proof fn lemma_ready_nodes_sorted(edges: Seq<(usize, usize)>, done: Seq<bool>, k: int)
    requires
        0 <= k <= usize::MAX,
    ensures
        forall|a: int, b: int| 0 <= a < b < ready_nodes(edges, done, k).len()
            ==> ready_nodes(edges, done, k)[a] < ready_nodes(edges, done, k)[b],
        forall|a: int| 0 <= a < ready_nodes(edges, done, k).len() ==> ready_nodes(edges, done, k)[a] < k,
    decreases k,
{
    if k > 0 {
        lemma_ready_nodes_sorted(edges, done, k - 1);
        let prev = ready_nodes(edges, done, k - 1);
        let x = (k - 1) as usize;
        if is_ready(edges, done, x) {
            let cur = prev.push(x);
            assert(ready_nodes(edges, done, k) == cur);
            assert forall|a: int| 0 <= a < cur.len() implies cur[a] < k by {
                if a < prev.len() {
                    assert(cur[a] == prev[a]);
                }
            }
            assert forall|a: int, b: int| 0 <= a < b < cur.len() implies cur[a] < cur[b] by {
                assert(cur[a] == prev[a]);
                if b < prev.len() {
                    assert(cur[b] == prev[b]);
                }
            }
        } else {
            assert(ready_nodes(edges, done, k) == prev);
        }
    }
}

/// The build's progress over a dependency graph: which units are built, and
/// for each unit how many of its import edges come from units not yet built.
pub struct WaveScheduler {
    graph: ModuleGraph,
    progress: Progress,
}

/// For each unit: how many of its import edges come from units not yet
/// built, and whether it is built.
struct Progress {
    in_degree: Vec<usize>,
    completed: Vec<bool>,
}

impl WaveScheduler {
    /// The number of units.
    pub closed spec fn num_nodes(self) -> nat {
        self.graph.num_nodes()
    }

    /// The import edges.
    pub closed spec fn edges(self) -> Seq<(usize, usize)> {
        self.graph.edges()
    }

    /// Which units are built.
    pub closed spec fn done(self) -> Seq<bool> {
        self.progress.completed@
    }

    #[verifier::type_invariant]
    closed spec fn inv(self) -> bool {
        &&& self.graph.num_nodes() < u32::MAX
        &&& edges_within(self.graph.num_nodes(), self.graph.edges())
        &&& self.progress.in_degree@.len() == self.graph.num_nodes()
        &&& self.progress.completed@.len() == self.graph.num_nodes()
        &&& forall|v: int| 0 <= v < self.graph.num_nodes() ==> #[trigger] self.progress.in_degree@[v]
            == count_pending(incoming_sources(self.graph.edges(), v as usize), self.progress.completed@)
    }

    /// Starts a build in which nothing is built yet.
    pub fn new(graph: ModuleGraph) -> (s: Self)
        ensures
            s.num_nodes() == graph.num_nodes(),
            s.edges() == graph.edges(),
            s.done() == Seq::new(graph.num_nodes(), |i: int| false),
    {
        let n = graph.node_count();
        let mut in_degree: Vec<usize> = Vec::new();
        let mut completed: Vec<bool> = Vec::new();
        let ghost none = Seq::new(n as nat, |i: int| false);
        let mut v: usize = 0;
        while v < n
            invariant
                0 <= v <= n,
                n == graph.num_nodes(),
                edges_within(graph.num_nodes(), graph.edges()),
                in_degree@.len() == v,
                completed@ == none.take(v as int),
                none == Seq::new(n as nat, |i: int| false),
                forall|w: int| 0 <= w < v ==> #[trigger] in_degree@[w]
                    == count_pending(incoming_sources(graph.edges(), w as usize), none),
            decreases n - v,
        {
            let d = graph.in_degree(v);
            proof {
                lemma_incoming_within(graph.edges(), n as nat, v);
                lemma_count_pending_none(incoming_sources(graph.edges(), v), none);
            }
            in_degree.push(d);
            completed.push(false);
            v += 1;
            assert(completed@ =~= none.take(v as int));
        }
        assert(completed@ =~= none);
        WaveScheduler { graph, progress: Progress { in_degree, completed } }
    }

    /// The dependency graph being built.
    pub fn graph(&self) -> (g: &ModuleGraph)
        ensures
            g.num_nodes() == self.num_nodes(),
            g.edges() == self.edges(),
    {
        &self.graph
    }

    /// Whether unit `v` is built.
    pub fn is_completed(&self, v: usize) -> (b: bool)
        ensures
            b == (v < self.num_nodes() && self.done()[v as int]),
    {
        proof { use_type_invariant(self); }
        v < self.progress.completed.len() && self.progress.completed[v]
    }

    /// Decides the next step: finished when every unit is built; otherwise
    /// the ready units, in increasing order, or a deadlock when there are none.
    /// A graph without cycles never deadlocks.
    pub fn next_step(&self) -> (step: WaveStep)
        ensures
            step is Finished <==> all_done(self.done()),
            step is Deadlock <==> !all_done(self.done())
                && ready_nodes(self.edges(), self.done(), self.num_nodes() as int).len() == 0,
            step matches WaveStep::Compile(wave) ==> wave@ == ready_nodes(self.edges(), self.done(), self.num_nodes() as int)
                && wave@.len() > 0,
            is_acyclic(self.num_nodes(), self.edges()) ==> !(step is Deadlock),
            step matches WaveStep::Compile(wave) ==> forall|k: int, j: int|
                0 <= k < wave@.len() && 0 <= j < self.edges().len() && (#[trigger] self.edges()[j]).1 == #[trigger] wave@[k]
                    ==> self.done()[self.edges()[j].0 as int],
    {
        proof { use_type_invariant(self); }
        let n = self.progress.completed.len();
        let mut finished = true;
        let mut wave: Vec<usize> = Vec::new();
        let mut v: usize = 0;
        while v < n
            invariant
                0 <= v <= n,
                n == self.progress.completed@.len(),
                n == self.graph.num_nodes(),
                self.progress.in_degree@.len() == n,
                forall|w: int| 0 <= w < n ==> #[trigger] self.progress.in_degree@[w]
                    == count_pending(incoming_sources(self.graph.edges(), w as usize), self.progress.completed@),
                finished == forall|i: int| 0 <= i < v ==> #[trigger] self.progress.completed@[i],
                wave@ == ready_nodes(self.graph.edges(), self.progress.completed@, v as int),
            decreases n - v,
        {
            if !self.progress.completed[v] {
                finished = false;
            }
            proof {
                lemma_count_pending_zero(incoming_sources(self.graph.edges(), v), self.progress.completed@);
            }
            if !self.progress.completed[v] && self.progress.in_degree[v] == 0 {
                wave.push(v);
            }
            v += 1;
        }
        proof {
            if is_acyclic(self.graph.num_nodes(), self.graph.edges()) && !finished {
                self.lemma_no_deadlock();
            }
            lemma_wave_members(self.graph.edges(), self.progress.completed@, n as int);
        }
        if finished {
            WaveStep::Finished
        } else if wave.len() == 0 {
            WaveStep::Deadlock
        } else {
            WaveStep::Compile(wave)
        }
    }

    proof fn lemma_no_deadlock(&self)
        requires
            self.inv(),
            is_acyclic(self.graph.num_nodes(), self.graph.edges()),
            !all_done(self.progress.completed@),
        ensures
            ready_nodes(self.graph.edges(), self.progress.completed@, self.graph.num_nodes() as int).len() > 0,
    {
        lemma_acyclic_has_ready(self.graph.edges(), self.progress.completed@);
    }

    /// Records that unit `v` is built, and returns `true`; returns `false`
    /// and changes nothing when `v` is no unit or is already built.
    pub fn complete(&mut self, v: usize) -> (r: bool)
        ensures
            r == (v < old(self).num_nodes() && !old(self).done()[v as int]),
            final(self).num_nodes() == old(self).num_nodes(),
            final(self).edges() == old(self).edges(),
            final(self).done() == (if r { old(self).done().update(v as int, true) } else { old(self).done() }),
    {
        proof { use_type_invariant(&*self); }
        if v >= self.progress.completed.len() || self.progress.completed[v] {
            return false;
        }
        let succs = self.graph.successors(v);
        let ghost edges = self.graph.edges();
        let ghost n = self.graph.num_nodes();
        let ghost done_old = self.progress.completed@;
        let ghost done_new = done_old.update(v as int, true);
        proof {
            assert forall|w: int| 0 <= w < n implies #[trigger] self.progress.in_degree@[w]
                == count_pending(incoming_sources(edges, w as usize), done_new)
                    + occurrences(succs@.skip(0), w as usize) by {
                lemma_incoming_within(edges, n, w as usize);
                lemma_count_pending_mark(incoming_sources(edges, w as usize), done_old, v);
                lemma_occurrences_symmetric(edges, v, w as usize);
                assert(succs@.skip(0) =~= succs@);
            }
        }
        let mut in_degree = copy_counts(&self.progress.in_degree);
        let mut i: usize = 0;
        while i < succs.len()
            invariant
                0 <= i <= succs.len(),
                n < u32::MAX,
                in_degree@.len() == n,
                forall|k: int| 0 <= k < succs@.len() ==> #[trigger] succs@[k] < n,
                forall|w: int| 0 <= w < n ==> #[trigger] in_degree@[w]
                    == count_pending(incoming_sources(edges, w as usize), done_new)
                        + occurrences(succs@.skip(i as int), w as usize),
            decreases succs.len() - i,
        {
            let w = succs[i];
            proof {
                lemma_occurrences_skip(succs@, i as int, w);
                assert(in_degree@[w as int] >= 1);
            }
            let ghost prev = in_degree@;
            let d = in_degree[w];
            in_degree.set(w, d - 1);
            proof {
                assert forall|x: int| 0 <= x < n implies #[trigger] in_degree@[x]
                    == count_pending(incoming_sources(edges, x as usize), done_new)
                        + occurrences(succs@.skip(i + 1), x as usize) by {
                    lemma_occurrences_skip(succs@, i as int, x as usize);
                    assert(prev[x] == count_pending(incoming_sources(edges, x as usize), done_new)
                        + occurrences(succs@.skip(i as int), x as usize));
                }
            }
            i += 1;
        }
        proof {
            assert forall|w: int| 0 <= w < n implies #[trigger] occurrences(succs@.skip(succs.len() as int), w as usize) == 0 by {
                assert(succs@.skip(succs.len() as int).len() == 0);
            }
        }
        let mut completed = copy_flags(&self.progress.completed);
        completed.set(v, true);
        self.progress = Progress { in_degree, completed };
        true
    }
}

proof fn lemma_count_pending_none(srcs: Seq<usize>, done: Seq<bool>)
    requires
        forall|i: int| 0 <= i < srcs.len() ==> !done[#[trigger] srcs[i] as int],
    ensures
        count_pending(srcs, done) == srcs.len(),
    decreases srcs.len(),
{
    if srcs.len() > 0 {
        assert forall|i: int| 0 <= i < srcs.drop_first().len() implies !done[#[trigger] srcs.drop_first()[i] as int] by {
            assert(srcs.drop_first()[i] == srcs[i + 1]);
        }
        lemma_count_pending_none(srcs.drop_first(), done);
        assert(!done[srcs[0] as int]);
    }
}

fn copy_counts(v: &Vec<usize>) -> (r: Vec<usize>)
    ensures
        r@ == v@,
{
    let mut r: Vec<usize> = Vec::new();
    let mut i: usize = 0;
    while i < v.len()
        invariant
            0 <= i <= v.len(),
            r@ == v@.take(i as int),
        decreases v.len() - i,
    {
        r.push(v[i]);
        i += 1;
        assert(r@ =~= v@.take(i as int));
    }
    assert(v@.take(v.len() as int) =~= v@);
    r
}

fn copy_flags(v: &Vec<bool>) -> (r: Vec<bool>)
    ensures
        r@ == v@,
{
    let mut r: Vec<bool> = Vec::new();
    let mut i: usize = 0;
    while i < v.len()
        invariant
            0 <= i <= v.len(),
            r@ == v@.take(i as int),
        decreases v.len() - i,
    {
        r.push(v[i]);
        i += 1;
        assert(r@ =~= v@.take(i as int));
    }
    assert(v@.take(v.len() as int) =~= v@);
    r
}

/// When the imports have no cycle and some unit is not built, some unit is ready.
pub proof fn lemma_acyclic_has_ready(edges: Seq<(usize, usize)>, done: Seq<bool>)
    requires
        done.len() < u32::MAX,
        is_acyclic(done.len(), edges),
        edges_within(done.len(), edges),
        !all_done(done),
    ensures
        ready_nodes(edges, done, done.len() as int).len() > 0,
{
    let n = done.len();
    let order = choose|order: Seq<usize>| is_topological_order(order, n, edges);
    let u = choose|u: int| 0 <= u < done.len() && !#[trigger] done[u];
    assert(order.contains(u as usize));
    let ku = choose|k: int| 0 <= k < order.len() && order[k] == u as usize;
    assert(!done[order[ku] as int]);
    let j = lemma_find_first_pending(order, done, 0);
    lemma_first_pending_is_ready(order, n, edges, done, j);
    lemma_ready_nodes_shape(edges, done, n as int);
    assert(ready_nodes(edges, done, n as int).contains(order[j]));
}

/// `done` with every unit of `wave` marked built.
pub open spec fn complete_all(done: Seq<bool>, wave: Seq<usize>) -> Seq<bool> {
    Seq::new(done.len(), |i: int| done[i] || wave.contains(i as usize))
}

/// The progress after `k` rounds of compiling the whole ready wave.
pub open spec fn after_waves(edges: Seq<(usize, usize)>, done: Seq<bool>, k: nat) -> Seq<bool>
    decreases k,
{
    if k == 0 {
        done
    } else {
        after_waves(edges, complete_all(done, ready_nodes(edges, done, done.len() as int)), (k - 1) as nat)
    }
}

/// The number of units not yet built.
pub open spec fn count_unbuilt(done: Seq<bool>) -> nat
    decreases done.len(),
{
    if done.len() == 0 {
        0
    } else {
        count_unbuilt(done.drop_last()) + if done.last() { 0nat } else { 1nat }
    }
}

proof fn lemma_count_unbuilt_bounds(done: Seq<bool>)
    ensures
        count_unbuilt(done) <= done.len(),
        count_unbuilt(done) == 0 <==> all_done(done),
    decreases done.len(),
{
    if done.len() > 0 {
        lemma_count_unbuilt_bounds(done.drop_last());
        if all_done(done) {
            assert(all_done(done.drop_last())) by {
                assert forall|i: int| 0 <= i < done.drop_last().len() implies #[trigger] done.drop_last()[i] by {
                    assert(done[i]);
                }
            }
            assert(done[done.len() - 1]);
        }
        if count_unbuilt(done) == 0 {
            assert forall|i: int| 0 <= i < done.len() implies #[trigger] done[i] by {
                if i < done.len() - 1 {
                    assert(done.drop_last()[i] == done[i]);
                }
            }
        }
    }
}

proof fn lemma_count_unbuilt_shrinks(d1: Seq<bool>, d2: Seq<bool>, v: int)
    requires
        d1.len() == d2.len(),
        forall|i: int| 0 <= i < d1.len() && #[trigger] d1[i] ==> d2[i],
        0 <= v < d1.len(),
        !d1[v],
        d2[v],
    ensures
        count_unbuilt(d2) < count_unbuilt(d1),
    decreases d1.len(),
{
    lemma_count_unbuilt_monotone(d1.drop_last(), d2.drop_last());
    if v < d1.len() - 1 {
        assert(!d1.drop_last()[v]);
        assert(d2.drop_last()[v]);
        lemma_count_unbuilt_shrinks(d1.drop_last(), d2.drop_last(), v);
        if d1.last() {
            assert(d1[d1.len() - 1]);
        }
    }
}

proof fn lemma_count_unbuilt_monotone(d1: Seq<bool>, d2: Seq<bool>)
    requires
        d1.len() == d2.len(),
        forall|i: int| 0 <= i < d1.len() && #[trigger] d1[i] ==> d2[i],
    ensures
        count_unbuilt(d2) <= count_unbuilt(d1),
    decreases d1.len(),
{
    if d1.len() > 0 {
        assert forall|i: int| 0 <= i < d1.drop_last().len() && #[trigger] d1.drop_last()[i] implies d2.drop_last()[i] by {
            assert(d1[i]);
        }
        lemma_count_unbuilt_monotone(d1.drop_last(), d2.drop_last());
        if d1.last() {
            assert(d1[d1.len() - 1]);
        }
    }
}

proof fn lemma_waves_finish_within(edges: Seq<(usize, usize)>, done: Seq<bool>, k: nat)
    requires
        done.len() < u32::MAX,
        is_acyclic(done.len(), edges),
        edges_within(done.len(), edges),
        count_unbuilt(done) <= k,
    ensures
        all_done(after_waves(edges, done, k)),
    decreases k,
{
    lemma_count_unbuilt_bounds(done);
    if k > 0 {
        let wave = ready_nodes(edges, done, done.len() as int);
        let next = complete_all(done, wave);
        assert forall|i: int| 0 <= i < done.len() && #[trigger] done[i] implies next[i] by {}
        lemma_count_unbuilt_monotone(done, next);
        if !all_done(done) {
            lemma_acyclic_has_ready(edges, done);
            lemma_ready_nodes_shape(edges, done, done.len() as int);
            let v = wave[0];
            assert(wave.contains(v));
            assert(!done[v as int]);
            assert(next[v as int]);
            lemma_count_unbuilt_shrinks(done, next, v as int);
        }
        lemma_waves_finish_within(edges, next, (k - 1) as nat);
    }
}

/// On imports without cycles, compiling the whole ready wave round after
/// round builds every unit within as many rounds as there are units.
pub proof fn lemma_waves_finish(edges: Seq<(usize, usize)>, done: Seq<bool>)
    requires
        done.len() < u32::MAX,
        is_acyclic(done.len(), edges),
        edges_within(done.len(), edges),
    ensures
        all_done(after_waves(edges, done, done.len())),
{
    lemma_count_unbuilt_bounds(done);
    lemma_waves_finish_within(edges, done, done.len());
}

} // verus!
