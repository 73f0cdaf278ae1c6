//! The core scheduling engine: the job store, the dependency graph, and the
//! readiness computation that turns a trigger into due instructions.

use vstd::prelude::*;
use vstd::arithmetic::div_mod::lemma_fundamental_div_mod;
use vstd::arithmetic::div_mod::lemma_mod_division_less_than_divisor;
use vstd::arithmetic::div_mod::lemma_div_pos_is_pos;
use vstd::arithmetic::div_mod::lemma_div_nonincreasing;

verus! {

/// A job refreshed at `current` with recurrence interval `frequency` is
/// still fresh at `now` when less than one full interval has passed.
pub open spec fn fresh_at(current: int, frequency: int, now: int) -> bool {
    now - current < frequency
}

/// Integer division truncating toward zero, for a positive divisor. The
/// readiness computation counts how many whole recurrence intervals fit in
/// an elapsed span that may be negative, and a negative span must count as
/// zero intervals rather than minus one.
pub open spec fn trunc_div(d: int, f: int) -> int
    recommends
        f > 0,
{
    if d >= 0 {
        d / f
    } else {
        -((-d) / f)
    }
}

/// Truncating division never grows the magnitude of the dividend.
pub proof fn lemma_trunc_div_bounds(d: int, f: int)
    requires
        f > 0,
    ensures
        d >= 0 ==> 0 <= trunc_div(d, f) <= d,
        d < 0 ==> d <= trunc_div(d, f) <= 0,
{
    if d >= 0 {
        lemma_div_pos_is_pos(d, f);
        lemma_div_nonincreasing(d, f);
    } else {
        lemma_div_pos_is_pos(-d, f);
        lemma_div_nonincreasing(-d, f);
    }
}

/// Rounding an integer span down to whole intervals never leaves the span:
/// the product `trunc_div(d, f) * f` lies between 0 and `d`.
pub proof fn lemma_trunc_div_product(d: int, f: int)
    requires
        f > 0,
    ensures
        d >= 0 ==> 0 <= trunc_div(d, f) * f <= d,
        d < 0 ==> d <= trunc_div(d, f) * f <= 0,
{
    if d >= 0 {
        let q = d / f;
        lemma_div_pos_is_pos(d, f);
        lemma_fundamental_div_mod(d, f);
        lemma_mod_division_less_than_divisor(d, f);
        assert(q * f >= 0) by (nonlinear_arith)
            requires
                q >= 0,
                f > 0,
        ;
        assert(q * f == f * q) by (nonlinear_arith);
    } else {
        let e = -d;
        let q = e / f;
        lemma_div_pos_is_pos(e, f);
        lemma_fundamental_div_mod(e, f);
        lemma_mod_division_less_than_divisor(e, f);
        assert(q * f >= 0) by (nonlinear_arith)
            requires
                q >= 0,
                f > 0,
        ;
        assert(q * f == f * q) by (nonlinear_arith);
        assert(trunc_div(d, f) * f == -(q * f)) by (nonlinear_arith)
            requires
                trunc_div(d, f) == -q,
        ;
    }
}

/// A job as handed in by a caller: a unique name, the names of the jobs it
/// depends on, its recurrence interval in seconds, and the timestamp (seconds)
/// of its last acknowledged refresh.
#[derive(Debug, Clone)]
pub struct Job {
    pub name: String,
    pub dependencies: Vec<String>,
    pub frequency: i64,
    pub current: i64,
}

impl Job {
    /// Is this job still fresh at `now`? Exactly when less than one full
    /// recurrence interval has passed since its last refresh.
    pub fn updated(&self, now: i64) -> (r: bool)
        ensures
            r == fresh_at(self.current as int, self.frequency as int, now as int),
    {
        ((now as i128) - (self.current as i128)) < (self.frequency as i128)
    }
}

/// A due instruction: the named job's readiness window has elapsed and it
/// should now run up to `target`. `current` is the job's refresh timestamp
/// from before the evaluation that emitted this instruction.
#[derive(Debug, Clone, PartialEq, Eq, Hash)]
pub struct Task {
    pub name: String,
    pub current: i64,
    pub target: i64,
}

/// Mathematical image of a [`Task`].
pub ghost struct TaskView {
    pub name: Seq<char>,
    pub current: int,
    pub target: int,
}

impl View for Task {
    type V = TaskView;

    open spec fn view(&self) -> TaskView {
        TaskView { name: self.name@, current: self.current as int, target: self.target as int }
    }
}

/// Why an operation on the engine was rejected.
#[derive(Debug)]
pub enum EventulerError {
    /// Linking the requested edges would close a directed cycle.
    WouldCycle,
    /// The named job (a trigger target, or a dependency of an inserted job)
    /// is not in the graph.
    NodeNotFound(String),
    /// A job with this name is already in the graph.
    DuplicateName(String),
}

/// One node of the dependency graph: a stored job together with the handles
/// of its parents (the nodes it depends on). Handles are indices into the
/// engine's node arena; a node's parents always carry smaller indices than
/// the node itself, because every dependency must already be present when a
/// job is inserted.
pub struct JobNode {
    pub name: String,
    pub frequency: i64,
    pub current: i64,
    pub parents: Vec<usize>,
}

/// Mathematical image of a [`JobNode`].
pub ghost struct NodeView {
    pub name: Seq<char>,
    pub frequency: int,
    pub current: int,
    pub parents: Seq<int>,
}

impl View for JobNode {
    type V = NodeView;

    open spec fn view(&self) -> NodeView {
        NodeView {
            name: self.name@,
            frequency: self.frequency as int,
            current: self.current as int,
            parents: self.parents@.map_values(|p: usize| p as int),
        }
    }
}

/// The engine: an arena of job nodes addressed by stable integer handles.
/// Jobs are never removed; the graph only grows.
pub struct Eventuler {
    pub nodes: Vec<JobNode>,
}

impl View for Eventuler {
    type V = Seq<NodeView>;

    open spec fn view(&self) -> Seq<NodeView> {
        self.nodes@.map_values(|n: JobNode| n@)
    }
}

/// Every edge runs from a strictly smaller handle to a larger one: a node's
/// parents were all inserted before it.
pub open spec fn edges_ok(g: Seq<NodeView>) -> bool {
    forall|i: int, k: int|
        0 <= i < g.len() && 0 <= k < g[i].parents.len() ==> 0 <= #[trigger] g[i].parents[k] < i
}

/// Some node carries this name.
pub open spec fn contains_name(g: Seq<NodeView>, name: Seq<char>) -> bool {
    exists|i: int| 0 <= i < g.len() && g[i].name == name
}

/// The handle of the node carrying this name (meaningful when the name is
/// present and names are unique).
pub open spec fn idx_of(g: Seq<NodeView>, name: Seq<char>) -> int {
    choose|i: int| 0 <= i < g.len() && g[i].name == name
}

/// The dependency names of a job, as sequences of characters.
pub open spec fn deps_of(job: Job) -> Seq<Seq<char>> {
    job.dependencies@.map_values(|d: String| d@)
}

/// Every one of these names is carried by some node.
pub open spec fn all_deps_present(g: Seq<NodeView>, deps: Seq<Seq<char>>) -> bool {
    forall|k: int| 0 <= k < deps.len() ==> contains_name(g, #[trigger] deps[k])
}

/// The first of these names that no node carries, scanning from `k` on.
pub open spec fn first_missing_from(g: Seq<NodeView>, deps: Seq<Seq<char>>, k: int) -> Seq<char>
    decreases deps.len() - k,
{
    if k < 0 || k >= deps.len() {
        Seq::empty()
    } else if !contains_name(g, deps[k]) {
        deps[k]
    } else {
        first_missing_from(g, deps, k + 1)
    }
}

/// The first of these names that no node carries.
pub open spec fn first_missing(g: Seq<NodeView>, deps: Seq<Seq<char>>) -> Seq<char> {
    first_missing_from(g, deps, 0)
}

/// The handles that the first `k` of these dependency names resolve to, in
/// first-occurrence order, with repetitions collapsed: naming the same
/// dependency twice yields one edge, as an edge either exists or does not.
pub open spec fn resolve_upto(g: Seq<NodeView>, deps: Seq<Seq<char>>, k: int) -> Seq<int>
    decreases k,
{
    if k <= 0 {
        Seq::empty()
    } else {
        let rest = resolve_upto(g, deps, k - 1);
        let i = idx_of(g, deps[k - 1]);
        if rest.contains(i) {
            rest
        } else {
            rest.push(i)
        }
    }
}

/// The handles that these dependency names resolve to.
pub open spec fn resolve(g: Seq<NodeView>, deps: Seq<Seq<char>>) -> Seq<int> {
    resolve_upto(g, deps, deps.len() as int)
}

/// The node a name resolves to is unique when names are unique.
pub proof fn lemma_idx_of(g: Seq<NodeView>, name: Seq<char>, i: int)
    requires
        names_unique(g),
        0 <= i < g.len(),
        g[i].name == name,
    ensures
        contains_name(g, name),
        idx_of(g, name) == i,
{
    assert(contains_name(g, name));
    let c = idx_of(g, name);
    assert(0 <= c < g.len() && g[c].name == name);
}

proof fn lemma_first_missing_from(g: Seq<NodeView>, deps: Seq<Seq<char>>, j: int, k: int)
    requires
        0 <= j <= k < deps.len(),
        forall|t: int| j <= t < k ==> contains_name(g, #[trigger] deps[t]),
        !contains_name(g, deps[k]),
    ensures
        first_missing_from(g, deps, j) == deps[k],
    decreases k - j,
{
    if j < k {
        lemma_first_missing_from(g, deps, j + 1, k);
    }
}

/// Casting a sequence of handles to mathematical integers keeps membership.
pub proof fn lemma_map_to_int_contains(v: Seq<usize>, x: usize)
    ensures
        v.contains(x) == v.map_values(|u: usize| u as int).contains(x as int),
{
    let m = v.map_values(|u: usize| u as int);
    if v.contains(x) {
        let j = choose|j: int| 0 <= j < v.len() && v[j] == x;
        assert(m[j] == x as int);
        assert(m.contains(x as int));
    }
    if m.contains(x as int) {
        let j = choose|j: int| 0 <= j < m.len() && m[j] == x as int;
        assert(v[j] == x);
        assert(v.contains(x));
    }
}

/// No two nodes carry the same name.
pub open spec fn names_unique(g: Seq<NodeView>) -> bool {
    forall|i: int, j: int|
        0 <= i < g.len() && 0 <= j < g.len() && i != j ==> #[trigger] g[i].name
            != #[trigger] g[j].name
}

/// Every recurrence interval is positive.
pub open spec fn freqs_pos(g: Seq<NodeView>) -> bool {
    forall|i: int| 0 <= i < g.len() ==> #[trigger] g[i].frequency > 0
}

/// No node lists the same parent twice.
pub open spec fn parents_nodup(g: Seq<NodeView>) -> bool {
    forall|i: int, k1: int, k2: int|
        0 <= i < g.len() && 0 <= k1 < g[i].parents.len() && 0 <= k2 < g[i].parents.len() && k1
            != k2 ==> #[trigger] g[i].parents[k1] != #[trigger] g[i].parents[k2]
}

/// There is a directed path (possibly empty) from node `a` to node `b`,
/// following edges from dependency to dependent. Well-founded because every
/// parent handle is smaller than the node holding it.
pub open spec fn spec_reaches(g: Seq<NodeView>, a: int, b: int) -> bool
    decreases b,
    when edges_ok(g) && 0 <= b < g.len()
{
    a == b || exists|k: int|
        0 <= k < g[b].parents.len() && spec_reaches(g, a, #[trigger] g[b].parents[k])
}

/// A node never reaches a node with a smaller handle: paths only run from
/// older nodes to newer ones.
pub proof fn lemma_reaches_only_forward(g: Seq<NodeView>, a: int, b: int)
    requires
        edges_ok(g),
        0 <= b < g.len(),
        b < a,
    ensures
        !spec_reaches(g, a, b),
    decreases b,
{
    if spec_reaches(g, a, b) {
        let k = choose|k: int|
            0 <= k < g[b].parents.len() && spec_reaches(g, a, #[trigger] g[b].parents[k]);
        lemma_reaches_only_forward(g, a, g[b].parents[k]);
    }
}

/// The dependency graph is acyclic: two nodes reaching each other are one
/// and the same. In particular no insertion ever closes a cycle, since every
/// dependency of an inserted job must already be in the graph.
pub proof fn lemma_acyclic(g: Seq<NodeView>, a: int, b: int)
    requires
        edges_ok(g),
        0 <= a < g.len(),
        0 <= b < g.len(),
        spec_reaches(g, a, b),
        spec_reaches(g, b, a),
    ensures
        a == b,
{
    if a < b {
        lemma_reaches_only_forward(g, b, a);
    } else if b < a {
        lemma_reaches_only_forward(g, a, b);
    }
}

/// Resolved dependency handles always point at stored nodes.
proof fn lemma_resolve_in_range(g: Seq<NodeView>, deps: Seq<Seq<char>>, k: int)
    requires
        all_deps_present(g, deps),
        k <= deps.len(),
    ensures
        forall|t: int|
            0 <= t < resolve_upto(g, deps, k).len() ==> 0 <= #[trigger] resolve_upto(
                g,
                deps,
                k,
            )[t] < g.len(),
    decreases k,
{
    if k > 0 {
        lemma_resolve_in_range(g, deps, k - 1);
        let r0 = resolve_upto(g, deps, k - 1);
        let r1 = resolve_upto(g, deps, k);
        let i = idx_of(g, deps[k - 1]);
        assert(contains_name(g, deps[k - 1]));
        assert(0 <= i < g.len());
        assert forall|t: int| 0 <= t < r1.len() implies 0 <= #[trigger] r1[t] < g.len() by {
            if r0.contains(i) || t < r0.len() {
                assert(r1[t] == r0[t]);
            } else {
                assert(r1[t] == i);
            }
        }
    }
}

/// Inserting a job whose dependencies all resolve can never close a cycle:
/// every dependency already lies below the new node, and paths only run from
/// older nodes to newer ones. Together with [`Eventuler::insert`]'s contract
/// this shows that `insert` never rejects a job as cyclic.
pub proof fn lemma_insert_never_cycles(g: Seq<NodeView>, nv: NodeView, job: Job)
    requires
        edges_ok(g),
        all_deps_present(g, deps_of(job)),
        nv.parents == resolve(g, deps_of(job)),
    ensures
        forall|k: int|
            0 <= k < nv.parents.len() ==> !spec_reaches(
                g.push(nv),
                g.len() as int,
                #[trigger] nv.parents[k],
            ),
{
    lemma_resolve_in_range(g, deps_of(job), deps_of(job).len() as int);
    let g1 = g.push(nv);
    assert forall|i: int, k: int|
        0 <= i < g1.len() && 0 <= k < g1[i].parents.len() implies 0 <= #[trigger] g1[i].parents[k]
        < i by {
        if i < g.len() {
            assert(g1[i] == g[i]);
        } else {
            assert(g1[i] == nv);
        }
    }
    assert forall|k: int| 0 <= k < nv.parents.len() implies !spec_reaches(
        g1,
        g.len() as int,
        #[trigger] nv.parents[k],
    ) by {
        lemma_reaches_only_forward(g1, g.len() as int, nv.parents[k]);
    }
}

/// Node `j` depends directly on node `parent`.
pub open spec fn is_child(g: Seq<NodeView>, parent: int, j: int) -> bool {
    g[j].parents.contains(parent)
}

/// The smallest `current` timestamp among these parent handles.
pub open spec fn min_parent_current(g: Seq<NodeView>, ps: Seq<int>) -> int
    recommends
        ps.len() > 0,
    decreases ps.len(),
{
    if ps.len() <= 1 {
        g[ps[0]].current
    } else {
        let m = min_parent_current(g, ps.drop_last());
        let c = g[ps.last()].current;
        if c < m {
            c
        } else {
            m
        }
    }
}

/// The due instruction, if any, that evaluating node `j` emits.
///
/// The span from `j`'s own refresh to the slowest parent's refresh is cut
/// down to whole recurrence intervals of `j` (truncating toward zero), and
/// the end of that span is the prospective `target`. The instruction is
/// emitted when `j` is no longer fresh at `target` and every parent still
/// is: all upstream producers have advanced at least as far as `target`.
pub open spec fn spec_ready_task(g: Seq<NodeView>, j: int) -> Option<TaskView> {
    let nd = g[j];
    if nd.parents.len() == 0 {
        None
    } else {
        let mpc = min_parent_current(g, nd.parents);
        let n = trunc_div(mpc - nd.current, nd.frequency);
        let target = nd.current + n * nd.frequency;
        if fresh_at(nd.current, nd.frequency, target) {
            None
        } else if !(forall|k: int|
            0 <= k < nd.parents.len() ==> fresh_at(
                g[#[trigger] nd.parents[k]].current,
                g[nd.parents[k]].frequency,
                target,
            )) {
            None
        } else {
            Some(TaskView { name: nd.name, current: nd.current, target })
        }
    }
}

/// The due instructions emitted by evaluating, in handle order, the first
/// `k` nodes that depend directly on `parent`.
pub open spec fn due_tasks_upto(g: Seq<NodeView>, parent: int, k: int) -> Seq<TaskView>
    decreases k,
{
    if k <= 0 {
        Seq::empty()
    } else {
        let rest = due_tasks_upto(g, parent, k - 1);
        if is_child(g, parent, k - 1) {
            match spec_ready_task(g, k - 1) {
                Some(t) => rest.push(t),
                None => rest,
            }
        } else {
            rest
        }
    }
}

/// The due instructions emitted by evaluating every direct dependent of
/// `parent`, in handle order.
pub open spec fn due_tasks(g: Seq<NodeView>, parent: int) -> Seq<TaskView> {
    due_tasks_upto(g, parent, g.len() as int)
}

impl Eventuler {
    /// Well-formedness of the graph: positive frequencies, edges from older
    /// to newer nodes, unique names, and no repeated parent within one node.
    pub open spec fn wf(&self) -> bool {
        &&& edges_ok(self@)
        &&& freqs_pos(self@)
        &&& names_unique(self@)
        &&& parents_nodup(self@)
    }

    /// An empty engine: no jobs, no edges.
    pub fn new() -> (e: Eventuler)
        ensures
            e@ == Seq::<NodeView>::empty(),
            e.wf(),
    {
        let e = Eventuler { nodes: Vec::new() };
        proof {
            assert(e@ =~= Seq::<NodeView>::empty());
        }
        e
    }

    /// Looks a name up in the arena.
    pub fn find_idx(&self, name: &String) -> (r: Option<usize>)
        ensures
            match r {
                Some(i) => i < self@.len() && self@[i as int].name == name@,
                None => !contains_name(self@, name@),
            },
    {
        let n = self.nodes.len();
        let mut i: usize = 0;
        while i < n
            invariant
                n == self@.len(),
                i <= n,
                forall|j: int| 0 <= j < i ==> self@[j].name != name@,
            decreases n - i,
        {
            if self.nodes[i].name == *name {
                return Some(i);
            }
            i += 1;
        }
        None
    }

    /// Decides whether a directed path runs from node `from` to node `to`.
    /// Since every edge runs from a smaller handle to a larger one, handle
    /// order is a topological order, and one pass over the arena in handle
    /// order settles reachability exactly.
    fn reaches(&self, from: usize, to: usize) -> (r: bool)
        requires
            self.wf(),
            from < self@.len(),
            to < self@.len(),
        ensures
            r == spec_reaches(self@, from as int, to as int),
    {
        let n = self.nodes.len();
        let mut mark: Vec<bool> = Vec::new();
        let mut j: usize = 0;
        while j < n
            invariant
                self.wf(),
                from < n,
                n == self@.len(),
                j <= n,
                mark@.len() == j,
                forall|t: int| 0 <= t < j ==> mark@[t] == spec_reaches(self@, from as int, t),
            decreases n - j,
        {
            let mut hit = j == from;
            let np = self.nodes[j].parents.len();
            let mut k: usize = 0;
            while k < np
                invariant
                    self.wf(),
                    from < n,
                    n == self@.len(),
                    j < n,
                    mark@.len() == j,
                    np == self@[j as int].parents.len(),
                    k <= np,
                    forall|t: int| 0 <= t < j ==> mark@[t] == spec_reaches(self@, from as int, t),
                    hit == (j == from || exists|k2: int|
                        0 <= k2 < k && spec_reaches(
                            self@,
                            from as int,
                            #[trigger] self@[j as int].parents[k2],
                        )),
                decreases np - k,
            {
                let p = self.nodes[j].parents[k];
                proof {
                    assert(self@[j as int].parents[k as int] == p as int);
                    assert(0 <= self@[j as int].parents[k as int] < j);
                }
                if mark[p] {
                    hit = true;
                }
                k += 1;
            }
            proof {
                assert(hit == spec_reaches(self@, from as int, j as int));
            }
            mark.push(hit);
            j += 1;
        }
        mark[to]
    }

    /// Inserts a job. All or nothing: on any error the graph is unchanged.
    ///
    /// The operation fails with `NodeNotFound` naming the first dependency
    /// that is not in the graph, with `DuplicateName` when a job of this
    /// name is already stored, and with `WouldCycle` when linking the new
    /// node to its dependencies would close a directed cycle — which, as
    /// [`lemma_insert_never_cycles`] shows, cannot actually arise, since
    /// every dependency must already be in the graph.
    #[verifier::loop_isolation(false)]
    pub fn insert(&mut self, job: Job) -> (r: Result<(), EventulerError>)
        requires
            old(self).wf(),
            job.frequency > 0,
        ensures
            final(self).wf(),
            ({
                let g0 = old(self)@;
                let ds = deps_of(job);
                let nv = NodeView {
                    name: job.name@,
                    frequency: job.frequency as int,
                    current: job.current as int,
                    parents: resolve(g0, ds),
                };
                match r {
                    Ok(_) => {
                        &&& all_deps_present(g0, ds)
                        &&& !contains_name(g0, job.name@)
                        &&& forall|k: int|
                            0 <= k < nv.parents.len() ==> !spec_reaches(
                                g0.push(nv),
                                g0.len() as int,
                                #[trigger] nv.parents[k],
                            )
                        &&& final(self)@ == g0.push(nv)
                    },
                    Err(EventulerError::NodeNotFound(d)) => {
                        &&& final(self)@ == g0
                        &&& !all_deps_present(g0, ds)
                        &&& d@ == first_missing(g0, ds)
                    },
                    Err(EventulerError::DuplicateName(n)) => {
                        &&& final(self)@ == g0
                        &&& all_deps_present(g0, ds)
                        &&& contains_name(g0, job.name@)
                        &&& n@ == job.name@
                    },
                    Err(EventulerError::WouldCycle) => {
                        &&& final(self)@ == g0
                        &&& all_deps_present(g0, ds)
                        &&& !contains_name(g0, job.name@)
                        &&& exists|k: int|
                            0 <= k < nv.parents.len() && spec_reaches(
                                g0.push(nv),
                                g0.len() as int,
                                #[trigger] nv.parents[k],
                            )
                    },
                }
            }),
    {
        let ghost g0 = self@;
        let ghost ds = deps_of(job);
        let n0 = self.nodes.len();
        let mut pvec: Vec<usize> = Vec::new();
        let mut k: usize = 0;
        while k < job.dependencies.len()
            invariant
                self.wf(),
                self@ == g0,
                n0 == g0.len(),
                ds == deps_of(job),
                ds.len() == job.dependencies@.len(),
                k <= job.dependencies@.len(),
                forall|j: int| 0 <= j < k ==> contains_name(g0, #[trigger] ds[j]),
                pvec@.map_values(|u: usize| u as int) == resolve_upto(g0, ds, k as int),
                forall|j: int| 0 <= j < pvec@.len() ==> #[trigger] pvec@[j] < n0,
                forall|j1: int, j2: int|
                    0 <= j1 < pvec@.len() && 0 <= j2 < pvec@.len() && j1 != j2
                        ==> #[trigger] pvec@[j1] != #[trigger] pvec@[j2],
            decreases job.dependencies@.len() - k,
        {
            let dep = &job.dependencies[k];
            proof {
                assert(ds[k as int] == dep@);
            }
            match self.find_idx(dep) {
                None => {
                    proof {
                        lemma_first_missing_from(g0, ds, 0, k as int);
                        assert(!all_deps_present(g0, ds));
                    }
                    return Err(EventulerError::NodeNotFound(dep.clone()));
                },
                Some(i) => {
                    proof {
                        lemma_idx_of(g0, ds[k as int], i as int);
                        lemma_map_to_int_contains(pvec@, i);
                    }
                    let ghost rest = pvec@.map_values(|u: usize| u as int);
                    if !contains_handle(&pvec, i) {
                        pvec.push(i);
                        proof {
                            assert(pvec@.map_values(|u: usize| u as int) =~= rest.push(
                                i as int,
                            ));
                        }
                    }
                    proof {
                        assert(pvec@.map_values(|u: usize| u as int) == resolve_upto(
                            g0,
                            ds,
                            k as int + 1,
                        ));
                    }
                },
            }
            k += 1;
        }
        proof {
            assert(all_deps_present(g0, ds));
            assert(resolve_upto(g0, ds, k as int) == resolve(g0, ds));
        }
        match self.find_idx(&job.name) {
            Some(_) => {
                return Err(EventulerError::DuplicateName(job.name));
            },
            None => {},
        }
        let new_idx = self.nodes.len();
        let npar = pvec.len();
        let ghost nv = NodeView {
            name: job.name@,
            frequency: job.frequency as int,
            current: job.current as int,
            parents: resolve(g0, ds),
        };
        let node = JobNode {
            name: job.name,
            frequency: job.frequency,
            current: job.current,
            parents: pvec,
        };
        let ghost nodes0 = self.nodes@;
        self.nodes.push(node);
        proof {
            assert(self@ =~= g0.push(nv));
            assert forall|i: int, kk: int|
                0 <= i < self@.len() && 0 <= kk < self@[i].parents.len() implies 0
                <= #[trigger] self@[i].parents[kk] < i by {
                if i < g0.len() {
                    assert(self@[i] == g0[i]);
                } else {
                    assert(self@[i] == nv);
                }
            }
            assert(edges_ok(self@));
            assert forall|i: int, j: int|
                0 <= i < self@.len() && 0 <= j < self@.len() && i != j implies #[trigger] self@[i].name
                != #[trigger] self@[j].name by {
                if i == g0.len() {
                    assert(!contains_name(g0, job.name@));
                    assert(self@[j] == g0[j]);
                } else if j == g0.len() {
                    assert(!contains_name(g0, job.name@));
                    assert(self@[i] == g0[i]);
                }
            }
            assert(names_unique(self@));
            assert(freqs_pos(self@));
            assert(parents_nodup(self@));
        }
        let mut k2: usize = 0;
        while k2 < npar
            invariant
                self.wf(),
                self@ == g0.push(nv),
                self.nodes@.len() == nodes0.len() + 1,
                forall|i: int| 0 <= i < nodes0.len() ==> self.nodes@[i] == nodes0[i],
                nodes0.map_values(|n: JobNode| n@) == g0,
                new_idx == g0.len(),
                new_idx < self@.len(),
                npar == nv.parents.len(),
                npar == self@[new_idx as int].parents.len(),
                k2 <= npar,
                forall|j: int|
                    0 <= j < k2 ==> !spec_reaches(
                        self@,
                        new_idx as int,
                        #[trigger] nv.parents[j],
                    ),
            decreases npar - k2,
        {
            let p = self.nodes[new_idx].parents[k2];
            proof {
                assert(self@[new_idx as int].parents[k2 as int] == p as int);
                assert(0 <= (p as int) && (p as int) < (new_idx as int));
            }
            if self.reaches(new_idx, p) {
                proof {
                    assert(spec_reaches(g0.push(nv), g0.len() as int, nv.parents[k2 as int]));
                }
                self.nodes.pop();
                proof {
                    assert(self.nodes@ =~= nodes0);
                    assert(self@ =~= g0);
                }
                return Err(EventulerError::WouldCycle);
            }
            k2 += 1;
        }
        Ok(())
    }

    /// Does node `j` depend directly on node `x`?
    fn node_has_parent(&self, j: usize, x: usize) -> (b: bool)
        requires
            j < self@.len(),
        ensures
            b == is_child(self@, x as int, j as int),
    {
        let np = self.nodes[j].parents.len();
        let mut k: usize = 0;
        while k < np
            invariant
                j < self@.len(),
                np == self@[j as int].parents.len(),
                k <= np,
                forall|t: int| 0 <= t < k ==> self@[j as int].parents[t] != x as int,
            decreases np - k,
        {
            if self.nodes[j].parents[k] == x {
                proof {
                    assert(self@[j as int].parents[k as int] == x as int);
                }
                return true;
            }
            k += 1;
        }
        proof {
            assert(!self@[j as int].parents.contains(x as int));
        }
        false
    }

    /// Evaluates one direct dependent of a just-triggered job, emitting a
    /// due instruction exactly when its readiness window has elapsed and
    /// every one of its parents has advanced past the window's end.
    #[verifier::loop_isolation(false)]
    fn task_if_ready(&self, j: usize) -> (r: Option<Task>)
        requires
            self.wf(),
            j < self@.len(),
        ensures
            match r {
                Some(t) => spec_ready_task(self@, j as int) == Some(t@),
                None => spec_ready_task(self@, j as int) is None,
            },
    {
        let node = &self.nodes[j];
        let np = node.parents.len();
        if np == 0 {
            return None;
        }
        let ghost ps = self@[j as int].parents;
        let p0 = node.parents[0];
        proof {
            assert(ps[0] == p0 as int);
            assert(0 <= ps[0] < j as int);
        }
        let mut mpc: i64 = self.nodes[p0].current;
        let mut k: usize = 1;
        proof {
            assert(ps.take(1).len() == 1);
            assert(ps.take(1)[0] == ps[0]);
        }
        while k < np
            invariant
                1 <= k <= np,
                mpc as int == min_parent_current(self@, ps.take(k as int)),
            decreases np - k,
        {
            let p = node.parents[k];
            proof {
                assert(ps[k as int] == p as int);
                assert(0 <= ps[k as int] < j as int);
                assert(ps.take(k as int + 1).drop_last() =~= ps.take(k as int));
                assert(ps.take(k as int + 1).last() == ps[k as int]);
            }
            let c = self.nodes[p].current;
            if c < mpc {
                mpc = c;
            }
            k += 1;
        }
        proof {
            assert(ps.take(np as int) =~= ps);
        }
        let cur: i64 = node.current;
        let freq: i64 = node.frequency;
        proof {
            assert(self@[j as int].frequency > 0);
        }
        let diff: i128 = (mpc as i128) - (cur as i128);
        let freqw: i128 = freq as i128;
        let ghost td = trunc_div(diff as int, freqw as int);
        proof {
            lemma_trunc_div_bounds(diff as int, freqw as int);
            lemma_trunc_div_product(diff as int, freqw as int);
        }
        let n128: i128 = match diff.checked_div(freqw) {
            Some(v) => v,
            None => {
                proof {
                    assert(false);
                }
                0
            },
        };
        proof {
            assert(n128 as int == td);
        }
        let prod: i128 = n128 * freqw;
        let t128: i128 = (cur as i128) + prod;
        proof {
            assert(prod == td * (freqw as int));
            assert(cur as int <= t128 as int <= mpc as int || mpc as int <= t128 as int
                <= cur as int);
        }
        let target: i64 = t128 as i64;
        if t128 - (cur as i128) < freqw {
            proof {
                assert(fresh_at(cur as int, freq as int, t128 as int));
            }
            return None;
        }
        let mut k2: usize = 0;
        while k2 < np
            invariant
                k2 <= np,
                forall|t: int|
                    0 <= t < k2 ==> fresh_at(
                        self@[#[trigger] ps[t]].current,
                        self@[ps[t]].frequency,
                        t128 as int,
                    ),
            decreases np - k2,
        {
            let p = node.parents[k2];
            proof {
                assert(ps[k2 as int] == p as int);
                assert(0 <= ps[k2 as int] < j as int);
            }
            let pc = self.nodes[p].current;
            let pf = self.nodes[p].frequency;
            if t128 - (pc as i128) >= pf as i128 {
                proof {
                    assert(!fresh_at(self@[ps[k2 as int]].current, self@[ps[k2 as int]].frequency, t128 as int));
                }
                return None;
            }
            k2 += 1;
        }
        Some(Task { name: node.name.clone(), current: cur, target })
    }

    /// Records that the named job has just refreshed as of `updatetime` —
    /// unconditionally, even if `updatetime` lies before the job's previous
    /// refresh — and returns the due instructions of every direct dependent
    /// that has thereby become runnable. No propagation beyond direct
    /// dependents happens here: the caller is expected to trigger a
    /// dependent again, with the instruction's `target`, once that
    /// instruction's work is done.
    #[verifier::loop_isolation(false)]
    pub fn trigger(&mut self, name: &str, updatetime: i64) -> (r: Result<
        Vec<Task>,
        EventulerError,
    >)
        requires
            old(self).wf(),
        ensures
            final(self).wf(),
            ({
                let g0 = old(self)@;
                match r {
                    Ok(tasks) => {
                        &&& contains_name(g0, name@)
                        &&& ({
                            let i = idx_of(g0, name@);
                            let g1 = g0.update(
                                i,
                                (NodeView { current: updatetime as int, ..g0[i] }),
                            );
                            &&& final(self)@ == g1
                            &&& tasks@.map_values(|t: Task| t@) == due_tasks(g1, i)
                        })
                    },
                    Err(EventulerError::NodeNotFound(n)) => {
                        &&& final(self)@ == g0
                        &&& !contains_name(g0, name@)
                        &&& n@ == name@
                    },
                    Err(_) => false,
                }
            }),
    {
        let ghost g0 = self@;
        let name_s: String = name.to_owned();
        let idx = match self.find_idx(&name_s) {
            None => {
                return Err(EventulerError::NodeNotFound(name_s));
            },
            Some(idx) => idx,
        };
        proof {
            lemma_idx_of(g0, name@, idx as int);
        }
        let ghost g1 = g0.update(
            idx as int,
            (NodeView { current: updatetime as int, ..g0[idx as int] }),
        );
        let noderef = vstd::std_specs::vec::vec_index_mut(&mut self.nodes, idx);
        noderef.current = updatetime;
        proof {
            assert(self@ =~= g1);
            assert forall|i: int, kk: int|
                0 <= i < g1.len() && 0 <= kk < g1[i].parents.len() implies 0
                <= #[trigger] g1[i].parents[kk] < i by {
                assert(g1[i].parents == g0[i].parents);
            }
            assert(names_unique(g1)) by {
                assert forall|i: int, jj: int|
                    0 <= i < g1.len() && 0 <= jj < g1.len() && i != jj implies #[trigger] g1[i].name
                    != #[trigger] g1[jj].name by {
                    assert(g1[i].name == g0[i].name);
                    assert(g1[jj].name == g0[jj].name);
                }
            }
            assert(freqs_pos(g1)) by {
                assert forall|i: int| 0 <= i < g1.len() implies #[trigger] g1[i].frequency > 0 by {
                    assert(g1[i].frequency == g0[i].frequency);
                }
            }
            assert(parents_nodup(g1)) by {
                assert forall|i: int, k1: int, k2: int|
                    0 <= i < g1.len() && 0 <= k1 < g1[i].parents.len() && 0 <= k2
                        < g1[i].parents.len() && k1 != k2 implies #[trigger] g1[i].parents[k1]
                    != #[trigger] g1[i].parents[k2] by {
                    assert(g1[i].parents == g0[i].parents);
                }
            }
            assert(self.wf());
        }
        let mut tasks: Vec<Task> = Vec::new();
        let n = self.nodes.len();
        let mut j: usize = 0;
        while j < n
            invariant
                j <= n,
                tasks@.map_values(|t: Task| t@) == due_tasks_upto(self@, idx as int, j as int),
            decreases n - j,
        {
            let ghost prev = tasks@.map_values(|t: Task| t@);
            if self.node_has_parent(j, idx) {
                match self.task_if_ready(j) {
                    Some(t) => {
                        tasks.push(t);
                        proof {
                            assert(tasks@.map_values(|t: Task| t@) =~= prev.push(t@));
                        }
                    },
                    None => {},
                }
            }
            j += 1;
        }
        Ok(tasks)
    }
}

/// Membership of one handle in a list of handles.
fn contains_handle(v: &Vec<usize>, x: usize) -> (b: bool)
    ensures
        b == v@.contains(x),
{
    let n = v.len();
    let mut i: usize = 0;
    while i < n
        invariant
            n == v@.len(),
            i <= n,
            forall|j: int| 0 <= j < i ==> v@[j] != x,
        decreases n - i,
    {
        if v[i] == x {
            return true;
        }
        i += 1;
    }
    false
}

impl Default for Eventuler {
    /// Same as [`Eventuler::new`].
    fn default() -> (e: Eventuler)
        ensures
            e@ == Seq::<NodeView>::empty(),
            e.wf(),
    {
        Eventuler::new()
    }
}

} // verus!
