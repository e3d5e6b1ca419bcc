use vstd::prelude::*;

verus! {

/// One node of a task graph: a named task, or an ad hoc command line.
pub struct TaskNode {
    /// Absent for an ad hoc command built from the literal command line.
    pub name: Option<String>,
    /// The command text handed to the shell evaluator.
    pub command: String,
    /// The environment the task is bound to.
    pub environment: String,
    /// Indices, into the graph's node list, of the tasks that must run first.
    pub depends_on: Vec<usize>,
    /// False for an alias, which only groups its dependencies.
    pub executable: bool,
    pub description: Option<String>,
    /// Run with a bare activation environment instead of the inherited one.
    pub clean_env: bool,
    /// The directory to run in, relative to the workspace root; the root itself when absent.
    pub cwd: Option<String>,
    /// Input glob patterns; a watch session restarts when one of them changes.
    pub inputs: Option<Vec<String>>,
}

/// Why a set of nodes does not form a task graph.
#[derive(Debug, PartialEq, Eq, Structural, Clone, Copy)]
pub enum GraphError {
    /// Node `task` names a dependency index that is not a node.
    UnresolvedDependency { task: usize, dependency: usize },
    /// The dependency edges contain a cycle.
    Cycle,
}

/// A dependency graph of tasks together with its execution order.
pub struct TaskGraph {
    nodes: Vec<TaskNode>,
    order: Vec<usize>,
}

/// The dependency lists of a node sequence.
pub open spec fn deps_of(nodes: Seq<TaskNode>) -> Seq<Seq<usize>> {
    Seq::new(nodes.len(), |i: int| nodes[i].depends_on@)
}

/// Every edge points at an existing node.
pub open spec fn edges_resolved(deps: Seq<Seq<usize>>) -> bool {
    forall|i: int, e: int|
        0 <= i < deps.len() && 0 <= e < deps[i].len() ==> deps[i][e] < deps.len()
}

/// Each dependency of the node at position `k` appears earlier in `order`.
pub open spec fn deps_before(order: Seq<usize>, deps: Seq<Seq<usize>>, k: int) -> bool {
    forall|e: int|
        0 <= e < deps[order[k] as int].len() ==> #[trigger] order.take(k).contains(
            deps[order[k] as int][e],
        )
}

/// `order` lists every node exactly once, each after all of its dependencies.
pub open spec fn is_topological_order(order: Seq<usize>, deps: Seq<Seq<usize>>) -> bool {
    &&& order.len() == deps.len()
    &&& order.no_duplicates()
    &&& forall|k: int| 0 <= k < order.len() ==> order[k] < deps.len()
    &&& forall|k: int| 0 <= k < order.len() ==> #[trigger] deps_before(order, deps, k)
}

/// The graph has no cycle: some order puts every dependency before its dependents.
pub open spec fn is_acyclic(deps: Seq<Seq<usize>>) -> bool {
    exists|order: Seq<usize>| is_topological_order(order, deps)
}

/// One placement pass from node `i` on: in index order, each node that is not
/// yet in `order` and whose dependencies all are is appended to it.
pub open spec fn place_pass(deps: Seq<Seq<usize>>, order: Seq<usize>, i: int) -> Seq<usize>
    decreases deps.len() - i,
{
    if i < 0 || i >= deps.len() {
        order
    } else if !order.contains(i as usize) && (forall|e: int|
        0 <= e < deps[i].len() ==> order.contains(#[trigger] deps[i][e])) {
        place_pass(deps, order.push(i as usize), i + 1)
    } else {
        place_pass(deps, order, i + 1)
    }
}

/// Placement passes repeated from `order` for as long as they place a node.
pub open spec fn placement(deps: Seq<Seq<usize>>, order: Seq<usize>) -> Seq<usize>
    decreases deps.len() - order.len(),
{
    let next = place_pass(deps, order, 0);
    if order.len() < next.len() && next.len() <= deps.len() {
        placement(deps, next)
    } else {
        order
    }
}

/// The execution order of a graph: repeated passes over the nodes in insertion
/// order, each placing every node whose dependencies are already placed. Ties
/// are thus broken by insertion order, and the order depends on the
/// dependency lists alone.
pub open spec fn placement_order(deps: Seq<Seq<usize>>) -> Seq<usize> {
    placement(deps, Seq::empty())
}

proof fn lemma_full_pass_places_nothing(deps: Seq<Seq<usize>>, order: Seq<usize>, i: int)
    requires
        deps.len() <= usize::MAX,
        forall|x: usize| x < deps.len() ==> order.contains(x),
    ensures
        place_pass(deps, order, i) == order,
    decreases deps.len() - i,
{
    if 0 <= i < deps.len() {
        assert(order.contains(i as usize));
        lemma_full_pass_places_nothing(deps, order, i + 1);
    }
}

/// Every index in `dep` is marked.
pub open spec fn all_deps_marked(dep: Seq<usize>, placed: Seq<bool>) -> bool {
    forall|e: int| 0 <= e < dep.len() ==> placed[dep[e] as int]
}

/// A sequence of distinct indices below `n` is no longer than `n`.
pub(crate) proof fn lemma_distinct_bounded_len(s: Seq<usize>, n: usize)
    requires
        s.no_duplicates(),
        forall|k: int| 0 <= k < s.len() ==> s[k] < n,
    ensures
        s.len() <= n,
        s.len() == n ==> forall|x: usize| x < n ==> s.contains(x),
        s.len() < n ==> exists|x: usize| x < n && !s.contains(x),
{
    broadcast use vstd::set_lib::range_set_properties;

    let r = Set::<usize>::range(0, n);
    s.unique_seq_to_set();
    assert(s.to_set().subset_of(r)) by {
        assert forall|x: usize| s.to_set().contains(x) implies r.contains(x) by {
            let k = choose|k: int| 0 <= k < s.len() && s[k] == x;
        }
    }
    vstd::set_lib::lemma_len_subset(s.to_set(), r);
    if s.len() == n {
        vstd::set_lib::lemma_subset_equality(s.to_set(), r);
        assert forall|x: usize| x < n implies s.contains(x) by {
            assert(r.contains(x));
        }
    }
    if s.len() < n && forall|x: usize| x < n ==> s.contains(x) {
        assert(r.subset_of(s.to_set()));
        vstd::set_lib::lemma_len_subset(r, s.to_set());
    }
}

/// In any topological order, nodes are marked up to position `k`, when every
/// unmarked node has an unmarked dependency.
proof fn lemma_prefix_marked(order: Seq<usize>, deps: Seq<Seq<usize>>, placed: Seq<bool>, k: int)
    requires
        is_topological_order(order, deps),
        placed.len() == deps.len(),
        0 <= k < order.len(),
        forall|i: int|
            0 <= i < deps.len() && !placed[i] ==> exists|e: int|
                0 <= e < deps[i].len() && !placed[#[trigger] deps[i][e] as int],
    ensures
        placed[order[k] as int],
    decreases k,
{
    let i = order[k] as int;
    if !placed[i] {
        let e = choose|e: int| 0 <= e < deps[i].len() && !placed[#[trigger] deps[i][e] as int];
        assert(deps_before(order, deps, k));
        assert(order.take(k).contains(deps[i][e]));
        let j = choose|j: int| 0 <= j < k && order.take(k)[j] == deps[i][e];
        lemma_prefix_marked(order, deps, placed, j);
    }
}

/// When a full pass places nothing, every remaining node waits on another
/// remaining node, and no topological order exists.
proof fn lemma_stuck_is_cyclic(deps: Seq<Seq<usize>>, placed: Seq<bool>, n: usize, x: int)
    requires
        deps.len() == n,
        placed.len() == deps.len(),
        0 <= x < deps.len(),
        !placed[x],
        forall|i: int|
            0 <= i < deps.len() && !placed[i] ==> exists|e: int|
                0 <= e < deps[i].len() && !placed[#[trigger] deps[i][e] as int],
    ensures
        !is_acyclic(deps),
{
    if is_acyclic(deps) {
        let order = choose|order: Seq<usize>| is_topological_order(order, deps);
        lemma_distinct_bounded_len(order, n);
        assert(order.contains(x as usize));
        let k = choose|k: int| 0 <= k < order.len() && order[k] == x as usize;
        lemma_prefix_marked(order, deps, placed, k);
    }
}

/// `cycle` walks dependency edges: each node depends on the next one, and the
/// last node depends on the first.
pub open spec fn is_cycle(deps: Seq<Seq<usize>>, cycle: Seq<usize>) -> bool {
    &&& cycle.len() > 0
    &&& forall|k: int| 0 <= k < cycle.len() ==> cycle[k] < deps.len()
    &&& forall|k: int|
        0 <= k < cycle.len() ==> #[trigger] deps[cycle[k] as int].contains(
            cycle[(k + 1) % (cycle.len() as int)],
        )
}

/// A topological order lists each node of the graph exactly once.
pub proof fn lemma_topological_order_is_permutation(order: Seq<usize>, deps: Seq<Seq<usize>>, n: usize)
    requires
        deps.len() == n,
        is_topological_order(order, deps),
    ensures
        order.no_duplicates(),
        forall|x: usize| x < n <==> order.contains(x),
{
    lemma_distinct_bounded_len(order, n);
}

spec fn position(order: Seq<usize>, x: usize) -> int {
    choose|j: int| 0 <= j < order.len() && order[j] == x
}

proof fn lemma_positions_descend(order: Seq<usize>, deps: Seq<Seq<usize>>, cycle: Seq<usize>, n: usize, k: int)
    requires
        deps.len() == n,
        is_topological_order(order, deps),
        is_cycle(deps, cycle),
        0 <= k < cycle.len(),
    ensures
        position(order, cycle[k]) <= position(order, cycle[0]) - k,
        0 <= position(order, cycle[k]) < order.len(),
        order[position(order, cycle[k])] == cycle[k],
    decreases k,
{
    lemma_distinct_bounded_len(order, n);
    assert(order.contains(cycle[k]));
    if k > 0 {
        lemma_positions_descend(order, deps, cycle, n, k - 1);
        lemma_dependency_earlier(order, deps, cycle, n, k - 1);
        vstd::arithmetic::div_mod::lemma_small_mod(k as nat, cycle.len());
    }
}

proof fn lemma_dependency_earlier(order: Seq<usize>, deps: Seq<Seq<usize>>, cycle: Seq<usize>, n: usize, k: int)
    requires
        deps.len() == n,
        is_topological_order(order, deps),
        is_cycle(deps, cycle),
        0 <= k < cycle.len(),
    ensures
        position(order, cycle[(k + 1) % (cycle.len() as int)]) < position(order, cycle[k]),
{
    lemma_distinct_bounded_len(order, n);
    let next = cycle[(k + 1) % (cycle.len() as int)];
    assert(order.contains(cycle[k]));
    assert(order.contains(next));
    let p = position(order, cycle[k]);
    let q = position(order, next);
    let node = cycle[k] as int;
    assert(deps[node].contains(next));
    let e = choose|e: int| 0 <= e < deps[node].len() && deps[node][e] == next;
    assert(deps_before(order, deps, p));
    assert(order.take(p).contains(deps[order[p] as int][e]));
    let j = choose|j: int| 0 <= j < p && order.take(p)[j] == next;
    assert(order[j] == next);
    assert(j == q);
}

/// A graph whose edges hold a cycle has no topological order, so building a
/// task graph from it fails with `GraphError::Cycle` before anything runs.
pub proof fn lemma_cycle_is_rejected(deps: Seq<Seq<usize>>, cycle: Seq<usize>, n: usize)
    requires
        deps.len() == n,
        is_cycle(deps, cycle),
    ensures
        !is_acyclic(deps),
{
    if is_acyclic(deps) {
        let order = choose|order: Seq<usize>| is_topological_order(order, deps);
        let last = cycle.len() - 1;
        lemma_positions_descend(order, deps, cycle, n, last);
        lemma_dependency_earlier(order, deps, cycle, n, last);
        vstd::arithmetic::div_mod::lemma_mod_self_0(cycle.len() as int);
    }
}

/// The first unmarked dependency of `a`, when every unmarked node has one.
spec fn unmarked_dep(deps: Seq<Seq<usize>>, placed: Seq<bool>, a: int) -> int {
    deps[a][choose|e: int| 0 <= e < deps[a].len() && !placed[#[trigger] deps[a][e] as int]] as int
}

/// `k` steps from `x`, each to the first unmarked dependency.
spec fn stuck_walk(deps: Seq<Seq<usize>>, placed: Seq<bool>, x: int, k: nat) -> int
    decreases k,
{
    if k == 0 {
        x
    } else {
        unmarked_dep(deps, placed, stuck_walk(deps, placed, x, (k - 1) as nat))
    }
}

proof fn lemma_stuck_walk(deps: Seq<Seq<usize>>, placed: Seq<bool>, x: int, k: nat)
    requires
        placed.len() == deps.len(),
        edges_resolved(deps),
        0 <= x < deps.len(),
        !placed[x],
        forall|i: int|
            0 <= i < deps.len() && !placed[i] ==> exists|e: int|
                0 <= e < deps[i].len() && !placed[#[trigger] deps[i][e] as int],
    ensures
        0 <= stuck_walk(deps, placed, x, k) < deps.len(),
        !placed[stuck_walk(deps, placed, x, k)],
        deps[stuck_walk(deps, placed, x, k)].contains(stuck_walk(deps, placed, x, k + 1) as usize),
    decreases k,
{
    if k > 0 {
        lemma_stuck_walk(deps, placed, x, (k - 1) as nat);
    }
    let a = stuck_walk(deps, placed, x, k);
    let e = choose|e: int| 0 <= e < deps[a].len() && !placed[#[trigger] deps[a][e] as int];
    assert(stuck_walk(deps, placed, x, k + 1) == deps[a][e] as int);
}

/// When every unmarked node has an unmarked dependency, the unmarked nodes
/// hold a dependency cycle.
proof fn lemma_stuck_has_cycle(deps: Seq<Seq<usize>>, placed: Seq<bool>, n: usize, x: int)
    requires
        deps.len() == n,
        placed.len() == deps.len(),
        edges_resolved(deps),
        0 <= x < deps.len(),
        !placed[x],
        forall|i: int|
            0 <= i < deps.len() && !placed[i] ==> exists|e: int|
                0 <= e < deps[i].len() && !placed[#[trigger] deps[i][e] as int],
    ensures
        exists|cycle: Seq<usize>| is_cycle(deps, cycle),
{
    let w = Seq::new((n + 1) as nat, |k: int| stuck_walk(deps, placed, x, k as nat) as usize);
    assert forall|k: int| 0 <= k < w.len() implies w[k] < n by {
        lemma_stuck_walk(deps, placed, x, k as nat);
    }
    if w.no_duplicates() {
        lemma_distinct_bounded_len(w, n);
    }
    let (i0, j0) = choose|i: int, j: int| 0 <= i < w.len() && 0 <= j < w.len() && i != j && w[i] == w[j];
    let i = if i0 < j0 { i0 } else { j0 };
    let j = if i0 < j0 { j0 } else { i0 };
    let len = j - i;
    let cycle = Seq::new(len as nat, |t: int| w[i + t]);
    assert forall|t: int| 0 <= t < cycle.len() implies cycle[t] < deps.len() by {
        lemma_stuck_walk(deps, placed, x, (i + t) as nat);
    }
    assert forall|t: int| 0 <= t < cycle.len() implies #[trigger] deps[cycle[t] as int].contains(
        cycle[(t + 1) % (cycle.len() as int)],
    ) by {
        lemma_stuck_walk(deps, placed, x, (i + t) as nat);
        if t + 1 < len {
            vstd::arithmetic::div_mod::lemma_small_mod((t + 1) as nat, len as nat);
        } else {
            vstd::arithmetic::div_mod::lemma_mod_self_0(len);
            assert(w[i + t + 1] == w[j]);
        }
    }
    assert(is_cycle(deps, cycle));
}

fn deps_marked(dep: &Vec<usize>, placed: &Vec<bool>) -> (r: bool)
    requires
        forall|e: int| 0 <= e < dep@.len() ==> dep@[e] < placed@.len(),
    ensures
        r == all_deps_marked(dep@, placed@),
{
    let mut e: usize = 0;
    while e < dep.len()
        invariant
            e <= dep@.len(),
            forall|e: int| 0 <= e < dep@.len() ==> dep@[e] < placed@.len(),
            forall|f: int| 0 <= f < e ==> placed@[dep@[f] as int],
        decreases dep@.len() - e,
    {
        if !placed[dep[e]] {
            return false;
        }
        e = e + 1;
    }
    true
}

/// Finds the first dependency index that is not a node, if any.
fn find_unresolved(nodes: &Vec<TaskNode>) -> (r: Option<(usize, usize)>)
    ensures
        match r {
            None => edges_resolved(deps_of(nodes@)),
            Some((i, d)) => i < nodes@.len() && d >= nodes@.len() && nodes@[i as int].depends_on@.contains(d),
        },
{
    let n = nodes.len();
    let mut i: usize = 0;
    while i < n
        invariant
            n == nodes@.len(),
            i <= n,
            forall|a: int, e: int|
                0 <= a < i && 0 <= e < nodes@[a].depends_on@.len() ==> nodes@[a].depends_on@[e] < n,
        decreases n - i,
    {
        let dep = &nodes[i].depends_on;
        let mut e: usize = 0;
        while e < dep.len()
            invariant
                n == nodes@.len(),
                i < n,
                dep == &nodes@[i as int].depends_on,
                e <= dep@.len(),
                forall|f: int| 0 <= f < e ==> dep@[f] < n,
            decreases dep@.len() - e,
        {
            if dep[e] >= n {
                return Some((i, dep[e]));
            }
            e = e + 1;
        }
        i = i + 1;
    }
    None
}

/// Orders the nodes so that each comes after its dependencies, passing over the
/// nodes in insertion order and placing every node whose dependencies are placed.
fn order_nodes(nodes: &Vec<TaskNode>) -> (r: Option<Vec<usize>>)
    requires
        edges_resolved(deps_of(nodes@)),
    ensures
        match r {
            Some(order) => is_topological_order(order@, deps_of(nodes@)) && order@
                == placement_order(deps_of(nodes@)),
            None => !is_acyclic(deps_of(nodes@)) && exists|cycle: Seq<usize>|
                is_cycle(deps_of(nodes@), cycle),
        },
{
    let ghost deps = deps_of(nodes@);
    let n = nodes.len();
    let mut placed: Vec<bool> = Vec::new();
    let mut z: usize = 0;
    while z < n
        invariant
            z <= n,
            placed@.len() == z,
            forall|a: int| 0 <= a < z ==> !placed@[a],
        decreases n - z,
    {
        placed.push(false);
        z = z + 1;
    }
    let mut order: Vec<usize> = Vec::new();
    loop
        invariant
            n == nodes@.len(),
            deps == deps_of(nodes@),
            edges_resolved(deps),
            placed@.len() == n,
            order@.no_duplicates(),
            forall|k: int| 0 <= k < order@.len() ==> order@[k] < n,
            forall|a: int| 0 <= a < n ==> (placed@[a] <==> order@.contains(a as usize)),
            forall|k: int| 0 <= k < order@.len() ==> #[trigger] deps_before(order@, deps, k),
            placement(deps, order@) == placement_order(deps),
        decreases n - order@.len(),
    {
        proof {
            lemma_distinct_bounded_len(order@, n);
        }
        let ghost start = order@;
        let mut progress = false;
        let mut i: usize = 0;
        while i < n
            invariant
                n == nodes@.len(),
                deps == deps_of(nodes@),
                edges_resolved(deps),
                i <= n,
                placed@.len() == n,
                order@.no_duplicates(),
                forall|k: int| 0 <= k < order@.len() ==> order@[k] < n,
                forall|a: int| 0 <= a < n ==> (placed@[a] <==> order@.contains(a as usize)),
                forall|k: int| 0 <= k < order@.len() ==> #[trigger] deps_before(order@, deps, k),
                progress ==> order@.len() > start.len(),
                !progress ==> order@ == start,
                place_pass(deps, start, 0) == place_pass(deps, order@, i as int),
                !progress ==> forall|a: int|
                    0 <= a < i && !placed@[a] ==> exists|e: int|
                        0 <= e < deps[a].len() && !placed@[#[trigger] deps[a][e] as int],
            decreases n - i,
        {
            proof {
                assert(nodes@[i as int].depends_on@ == deps[i as int]);
                assert(all_deps_marked(deps[i as int], placed@) <==> (forall|e: int|
                    0 <= e < deps[i as int].len() ==> order@.contains(#[trigger] deps[i as int][e]))) by {
                    if all_deps_marked(deps[i as int], placed@) {
                        assert forall|e: int| 0 <= e < deps[i as int].len() implies order@.contains(
                            #[trigger] deps[i as int][e],
                        ) by {
                            assert(placed@[deps[i as int][e] as int]);
                        }
                    }
                    if forall|e: int|
                        0 <= e < deps[i as int].len() ==> order@.contains(#[trigger] deps[i as int][e]) {
                        assert forall|e: int| 0 <= e < deps[i as int].len() implies placed@[deps[i as int][e] as int] by {
                            assert(order@.contains(deps[i as int][e]));
                        }
                    }
                }
            }
            if !placed[i] {
                if deps_marked(&nodes[i].depends_on, &placed) {
                    let ghost before = order@;
                    placed.set(i, true);
                    order.push(i);
                    proof {
                        assert forall|k: int| 0 <= k < order@.len() implies #[trigger] deps_before(
                            order@,
                            deps,
                            k,
                        ) by {
                            assert(order@.take(k) == before.take(k) || k == before.len());
                            if k < before.len() {
                                assert(order@.take(k) =~= before.take(k));
                                assert(deps_before(before, deps, k));
                            } else {
                                assert(order@.take(k) =~= before);
                                assert forall|e: int| 0 <= e < deps[order@[k] as int].len() implies
                                    #[trigger] order@.take(k).contains(deps[order@[k] as int][e]) by {
                                    let d = deps[i as int][e];
                                    assert(placed@[d as int]);
                                }
                            }
                        }
                        assert forall|a: int| 0 <= a < n implies (placed@[a] <==> order@.contains(
                            a as usize,
                        )) by {
                            if a == i {
                                assert(order@[before.len() as int] == i);
                            } else if before.contains(a as usize) {
                                let k = choose|k: int| 0 <= k < before.len() && before[k] == a as usize;
                                assert(order@[k] == a as usize);
                            } else if order@.contains(a as usize) {
                                let k = choose|k: int| 0 <= k < order@.len() && order@[k] == a as usize;
                                assert(k < before.len());
                            }
                        }
                    }
                    progress = true;
                }
            }
            i = i + 1;
        }
        proof {
            lemma_distinct_bounded_len(order@, n);
            if progress {
                assert(placement(deps, start) == placement(deps, order@));
            }
        }
        if order.len() == n {
            proof {
                lemma_full_pass_places_nothing(deps, order@, 0);
                assert(placement(deps, order@) == order@);
            }
            return Some(order);
        }
        if !progress {
            proof {
                lemma_distinct_bounded_len(order@, n);
                let x = choose|x: usize| x < n && !order@.contains(x);
                lemma_stuck_is_cyclic(deps, placed@, n, x as int);
                lemma_stuck_has_cycle(deps, placed@, n, x as int);
            }
            return None;
        }
    }
}

impl TaskGraph {
    /// The nodes, in insertion order.
    pub closed spec fn spec_nodes(&self) -> Seq<TaskNode> {
        self.nodes@
    }

    /// The execution order fixed at construction.
    pub closed spec fn spec_order(&self) -> Seq<usize> {
        self.order@
    }

    /// The graph's edges are resolved and its order is topological.
    pub open spec fn wf(&self) -> bool {
        &&& edges_resolved(deps_of(self.spec_nodes()))
        &&& is_topological_order(self.spec_order(), deps_of(self.spec_nodes()))
    }

    /// Builds a graph from nodes whose `depends_on` lists index into `nodes`.
    /// Fails, before anything runs, on a dependency that is not a node or on a cycle.
    pub fn new(nodes: Vec<TaskNode>) -> (r: Result<TaskGraph, GraphError>)
        ensures
            r is Ok <==> edges_resolved(deps_of(nodes@)) && is_acyclic(deps_of(nodes@)),
            match r {
                Ok(g) => g.wf() && g.spec_nodes() == nodes@ && g.spec_order() == placement_order(
                    deps_of(nodes@),
                ),
                Err(GraphError::UnresolvedDependency { task, dependency }) => {
                    &&& task < nodes@.len()
                    &&& dependency >= nodes@.len()
                    &&& nodes@[task as int].depends_on@.contains(dependency)
                },
                Err(GraphError::Cycle) => {
                    &&& edges_resolved(deps_of(nodes@))
                    &&& !is_acyclic(deps_of(nodes@))
                    &&& exists|cycle: Seq<usize>| is_cycle(deps_of(nodes@), cycle)
                },
            },
    {
        match find_unresolved(&nodes) {
            Some((task, dependency)) => {
                proof {
                    let deps = deps_of(nodes@);
                    let e = choose|e: int|
                        0 <= e < nodes@[task as int].depends_on@.len()
                            && nodes@[task as int].depends_on@[e] == dependency;
                    assert(deps[task as int][e] == dependency);
                }
                Err(GraphError::UnresolvedDependency { task, dependency })
            },
            None => match order_nodes(&nodes) {
                Some(order) => Ok(TaskGraph { nodes, order }),
                None => Err(GraphError::Cycle),
            },
        }
    }

    /// The number of nodes.
    pub fn len(&self) -> (r: usize)
        ensures
            r == self.spec_nodes().len(),
    {
        self.nodes.len()
    }

    /// The node with index `id`.
    pub fn node(&self, id: usize) -> (r: &TaskNode)
        requires
            id < self.spec_nodes().len(),
        ensures
            *r == self.spec_nodes()[id as int],
    {
        &self.nodes[id]
    }

    /// Node indices with every dependency before its dependents. The order is
    /// fixed when the graph is built, so repeated calls return the same sequence.
    pub fn topological_order(&self) -> (r: Vec<usize>)
        requires
            self.wf(),
        ensures
            r@ == self.spec_order(),
            is_topological_order(r@, deps_of(self.spec_nodes())),
    {
        let mut r: Vec<usize> = Vec::new();
        let mut k: usize = 0;
        while k < self.order.len()
            invariant
                k <= self.order@.len(),
                r@ == self.order@.take(k as int),
            decreases self.order@.len() - k,
        {
            r.push(self.order[k]);
            k = k + 1;
            assert(r@ =~= self.order@.take(k as int));
        }
        assert(r@ =~= self.order@);
        r
    }
}

} // verus!
