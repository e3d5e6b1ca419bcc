use vstd::prelude::*;
use vstd::string::*;

use crate::graph::{deps_of, is_cycle, GraphError, TaskGraph, TaskNode};

verus! {

/// A task as an environment declares it. Dependencies are named.
pub struct TaskDefinition {
    pub environment: String,
    pub name: String,
    pub command: String,
    pub depends_on: Vec<String>,
    pub executable: bool,
    pub description: Option<String>,
    pub clean_env: bool,
    /// The directory to run in, relative to the workspace root.
    pub cwd: Option<String>,
    pub inputs: Option<Vec<String>>,
}

/// A task name that several environments declare, handed to the chooser.
pub struct AmbiguousTask {
    pub task_name: String,
    /// The task that depends on it, when it was reached as a dependency.
    pub depended_on_by: Option<String>,
    /// The environments that declare it, in catalogue order.
    pub environments: Vec<String>,
}

/// Why the command line does not resolve to a task graph.
#[derive(Debug)]
pub enum ResolveError {
    /// No task was given.
    NoTask,
    /// Several environments declare the task and none was chosen.
    AmbiguousTask { task_name: String },
    /// A dependency names no task.
    UnknownDependency { task_name: String },
    /// The resolved tasks do not form a graph.
    Graph(GraphError),
}

/// The words joined with single spaces.
pub open spec fn join_words(words: Seq<Seq<char>>) -> Seq<char>
    decreases words.len(),
{
    if words.len() == 0 {
        Seq::empty()
    } else if words.len() == 1 {
        words[0]
    } else {
        join_words(words.drop_last()) + seq![' '] + words.last()
    }
}

/// The node was made from catalogue entry `def`.
pub open spec fn made_from(node: TaskNode, def: TaskDefinition) -> bool {
    &&& node.name is Some
    &&& node.name->Some_0@ == def.name@
    &&& node.environment@ == def.environment@
    &&& node.executable == def.executable
    &&& node.clean_env == def.clean_env
    &&& (node.cwd is Some <==> def.cwd is Some)
    &&& node.cwd is Some ==> node.cwd->Some_0@ == def.cwd->Some_0@
}

/// Node `k` has one edge per dependency that `def` declares, each leading to a
/// node with the dependency's name.
pub open spec fn edges_follow(nodes: Seq<TaskNode>, k: int, def: TaskDefinition) -> bool {
    &&& nodes[k].depends_on@.len() == def.depends_on@.len()
    &&& forall|e: int|
        0 <= e < def.depends_on@.len() ==> #[trigger] nodes[k].depends_on@[e] < nodes.len()
            && nodes[nodes[k].depends_on@[e] as int].name is Some
            && nodes[nodes[k].depends_on@[e] as int].name->Some_0@ == def.depends_on@[e]@
}

/// Node `k` was made from some catalogue entry, and, unless dependencies were
/// skipped, its edges follow that entry's dependencies.
pub open spec fn has_source(nodes: Seq<TaskNode>, k: int, catalog: Seq<TaskDefinition>, skip_deps: bool) -> bool {
    exists|c: int|
        0 <= c < catalog.len() && #[trigger] made_from(nodes[k], catalog[c]) && (skip_deps
            || edges_follow(nodes, k, catalog[c]))
}

/// Entry `c` of the catalogue carries `name`.
pub open spec fn named(catalog: Seq<TaskDefinition>, c: int, name: Seq<char>) -> bool {
    0 <= c < catalog.len() && catalog[c].name@ == name
}

/// No entry carries `name`.
pub open spec fn no_entry(catalog: Seq<TaskDefinition>, name: Seq<char>) -> bool {
    forall|c: int| 0 <= c < catalog.len() ==> catalog[c].name@ != name
}

/// At most one entry carries `name`.
pub open spec fn at_most_one(catalog: Seq<TaskDefinition>, name: Seq<char>) -> bool {
    forall|c: int, d: int| #[trigger] named(catalog, c, name) && #[trigger] named(catalog, d, name) ==> c == d
}

/// Two different entries carry `name`.
pub open spec fn several(catalog: Seq<TaskDefinition>, name: Seq<char>) -> bool {
    exists|c: int, d: int| #[trigger] named(catalog, c, name) && #[trigger] named(catalog, d, name) && c != d
}

/// Entry `a` declares a dependency named like entry `b`.
pub open spec fn dep_step(catalog: Seq<TaskDefinition>, a: int, b: int) -> bool {
    &&& 0 <= a < catalog.len()
    &&& 0 <= b < catalog.len()
    &&& exists|e: int|
        0 <= e < catalog[a].depends_on@.len() && #[trigger] catalog[a].depends_on@[e]@ == catalog[b].name@
}

/// Entry `c` is named `root`, or is reached from such an entry in at most `n`
/// dependency steps.
pub open spec fn reach_within(catalog: Seq<TaskDefinition>, root: Seq<char>, c: int, n: nat) -> bool
    decreases n,
{
    if n == 0 {
        named(catalog, c, root)
    } else {
        reach_within(catalog, root, c, (n - 1) as nat) || exists|a: int|
            reach_within(catalog, root, a, (n - 1) as nat) && #[trigger] dep_step(catalog, a, c)
    }
}

/// Entry `c` is reached from an entry named `root` through dependencies.
pub open spec fn reachable(catalog: Seq<TaskDefinition>, root: Seq<char>, c: int) -> bool {
    exists|n: nat| #[trigger] reach_within(catalog, root, c, n)
}

/// Some reached entry declares a dependency called `name`.
pub open spec fn reached_dep(catalog: Seq<TaskDefinition>, root: Seq<char>, name: Seq<char>) -> bool {
    exists|c: int, e: int|
        #[trigger] reachable(catalog, root, c) && 0 <= e < catalog[c].depends_on@.len()
            && #[trigger] catalog[c].depends_on@[e]@ == name
}

/// The requested name and every dependency name reached from it each have at
/// most one entry, so no choice is ever needed.
pub open spec fn unambiguous(catalog: Seq<TaskDefinition>, root: Seq<char>) -> bool {
    &&& at_most_one(catalog, root)
    &&& forall|name: Seq<char>| #[trigger] reached_dep(catalog, root, name) ==> at_most_one(catalog, name)
}

/// A reached dependency name has no entry.
pub open spec fn has_unknown_dep(catalog: Seq<TaskDefinition>, root: Seq<char>) -> bool {
    exists|name: Seq<char>| #[trigger] reached_dep(catalog, root, name) && no_entry(catalog, name)
}

/// `cycle` lists reached entries, each depending on the next and the last on
/// the first.
pub open spec fn is_closure_cycle(catalog: Seq<TaskDefinition>, root: Seq<char>, cycle: Seq<int>) -> bool {
    &&& cycle.len() > 0
    &&& forall|t: int| 0 <= t < cycle.len() ==> #[trigger] reachable(catalog, root, cycle[t])
    &&& forall|t: int|
        0 <= t < cycle.len() ==> #[trigger] dep_step(
            catalog,
            cycle[t],
            cycle[(t + 1) % (cycle.len() as int)],
        )
}

/// Reached entries that depend on one another in a circle.
pub open spec fn closure_has_cycle(catalog: Seq<TaskDefinition>, root: Seq<char>) -> bool {
    exists|cycle: Seq<int>| #[trigger] is_closure_cycle(catalog, root, cycle)
}

/// What the resolution loop has built: `def_of[k]` is the entry of node `k`,
/// `dls[k]` its edges, each to the node of the entry named as the dependency.
spec fn resolution_facts(
    catalog: Seq<TaskDefinition>,
    root: Seq<char>,
    def_of: Seq<usize>,
    dls: Seq<Seq<usize>>,
) -> bool {
    &&& catalog.len() <= usize::MAX
    &&& def_of.len() <= usize::MAX
    &&& def_of.len() >= 1
    &&& dls.len() == def_of.len()
    &&& def_of.no_duplicates()
    &&& forall|k: int| 0 <= k < def_of.len() ==> def_of[k] < catalog.len()
    &&& catalog[def_of[0] as int].name@ == root
    &&& forall|a: int| 0 <= a < def_of.len() ==> #[trigger] dls[a].len() == catalog[def_of[a] as int].depends_on@.len()
    &&& forall|a: int, e: int|
        0 <= a < def_of.len() && 0 <= e < dls[a].len() ==> #[trigger] dls[a][e] < def_of.len()
            && catalog[def_of[dls[a][e] as int] as int].name@ == catalog[def_of[a] as int].depends_on@[e]@
    &&& forall|k: int| 0 <= k < def_of.len() ==> #[trigger] reachable(catalog, root, def_of[k] as int)
}

/// Without ambiguity, every reached entry has a node.
proof fn lemma_closure_covered(
    catalog: Seq<TaskDefinition>,
    root: Seq<char>,
    def_of: Seq<usize>,
    dls: Seq<Seq<usize>>,
    c: int,
    n: nat,
)
    requires
        resolution_facts(catalog, root, def_of, dls),
        unambiguous(catalog, root),
        reach_within(catalog, root, c, n),
    ensures
        def_of.contains(c as usize),
        0 <= c < catalog.len(),
    decreases n,
{
    if n == 0 {
        assert(named(catalog, def_of[0] as int, root));
        assert(def_of[0] as int == c);
    } else if reach_within(catalog, root, c, (n - 1) as nat) {
        lemma_closure_covered(catalog, root, def_of, dls, c, (n - 1) as nat);
    } else {
        let a = choose|a: int| reach_within(catalog, root, a, (n - 1) as nat) && #[trigger] dep_step(catalog, a, c);
        lemma_closure_covered(catalog, root, def_of, dls, a, (n - 1) as nat);
        let k = choose|k: int| 0 <= k < def_of.len() && def_of[k] == a as usize;
        let e = choose|e: int| 0 <= e < catalog[a].depends_on@.len() && #[trigger] catalog[a].depends_on@[e]@ == catalog[c].name@;
        let name = catalog[a].depends_on@[e]@;
        assert(dls[k].len() == catalog[def_of[k] as int].depends_on@.len());
        let d = dls[k][e] as int;
        assert(d < def_of.len());
        assert(reachable(catalog, root, a));
        assert(reached_dep(catalog, root, name));
        assert(named(catalog, def_of[d] as int, name));
        assert(named(catalog, c, name));
        assert(def_of[d] == c as usize);
    }
}

/// Without ambiguity, a finished resolution met no unknown dependency.
proof fn lemma_no_unknown(
    catalog: Seq<TaskDefinition>,
    root: Seq<char>,
    def_of: Seq<usize>,
    dls: Seq<Seq<usize>>,
)
    requires
        resolution_facts(catalog, root, def_of, dls),
        unambiguous(catalog, root),
    ensures
        !has_unknown_dep(catalog, root),
{
    if has_unknown_dep(catalog, root) {
        let name = choose|name: Seq<char>| #[trigger] reached_dep(catalog, root, name) && no_entry(catalog, name);
        let (c, e) = choose|c: int, e: int|
            #[trigger] reachable(catalog, root, c) && 0 <= e < catalog[c].depends_on@.len()
                && #[trigger] catalog[c].depends_on@[e]@ == name;
        let n = choose|n: nat| #[trigger] reach_within(catalog, root, c, n);
        lemma_closure_covered(catalog, root, def_of, dls, c, n);
        let k = choose|k: int| 0 <= k < def_of.len() && def_of[k] == c as usize;
        assert(dls[k].len() == catalog[def_of[k] as int].depends_on@.len());
        let d = dls[k][e] as int;
        assert(d < def_of.len());
        assert(catalog[def_of[d] as int].name@ == name);
    }
}

/// A cycle among the nodes is a cycle among reached entries.
proof fn lemma_node_cycle_is_closure_cycle(
    catalog: Seq<TaskDefinition>,
    root: Seq<char>,
    def_of: Seq<usize>,
    dls: Seq<Seq<usize>>,
    ncycle: Seq<usize>,
)
    requires
        resolution_facts(catalog, root, def_of, dls),
        is_cycle(dls, ncycle),
    ensures
        closure_has_cycle(catalog, root),
{
    let cycle = Seq::new(ncycle.len(), |t: int| def_of[ncycle[t] as int] as int);
    assert forall|t: int| 0 <= t < cycle.len() implies #[trigger] reachable(catalog, root, cycle[t]) by {
        assert(reachable(catalog, root, def_of[ncycle[t] as int] as int));
    }
    assert forall|t: int| 0 <= t < cycle.len() implies #[trigger] dep_step(
        catalog,
        cycle[t],
        cycle[(t + 1) % (cycle.len() as int)],
    ) by {
        let a = ncycle[t] as int;
        let t1 = (t + 1) % (cycle.len() as int);
        assert(dls[a].contains(ncycle[t1]));
        let e = choose|e: int| 0 <= e < dls[a].len() && dls[a][e] == ncycle[t1];
        assert(dls[a][e] < def_of.len());
        assert(dls[a].len() == catalog[def_of[a] as int].depends_on@.len());
        assert(catalog[def_of[a] as int].depends_on@[e]@ == catalog[cycle[t1]].name@);
    }
    assert(is_closure_cycle(catalog, root, cycle));
}

spec fn node_index(def_of: Seq<usize>, c: int) -> int {
    choose|k: int| 0 <= k < def_of.len() && def_of[k] == c as usize
}

/// Without ambiguity, a cycle among reached entries is a cycle among the nodes.
proof fn lemma_closure_cycle_is_node_cycle(
    catalog: Seq<TaskDefinition>,
    root: Seq<char>,
    def_of: Seq<usize>,
    dls: Seq<Seq<usize>>,
)
    requires
        resolution_facts(catalog, root, def_of, dls),
        unambiguous(catalog, root),
        closure_has_cycle(catalog, root),
    ensures
        exists|ncycle: Seq<usize>| is_cycle(dls, ncycle),
{
    let cycle = choose|cycle: Seq<int>| #[trigger] is_closure_cycle(catalog, root, cycle);
    let len = cycle.len() as int;
    assert forall|t: int| 0 <= t < len implies def_of.contains(cycle[t] as usize) && 0 <= cycle[t] < catalog.len() by {
        assert(reachable(catalog, root, cycle[t]));
        let n = choose|n: nat| #[trigger] reach_within(catalog, root, cycle[t], n);
        lemma_closure_covered(catalog, root, def_of, dls, cycle[t], n);
    }
    let ncycle = Seq::new(cycle.len(), |t: int| node_index(def_of, cycle[t]) as usize);
    assert forall|t: int| 0 <= t < ncycle.len() implies ncycle[t] < dls.len() && def_of[ncycle[t] as int] as int == cycle[t] by {
        assert(def_of.contains(cycle[t] as usize));
        assert(0 <= cycle[t] < catalog.len());
    }
    assert forall|t: int| 0 <= t < ncycle.len() implies #[trigger] dls[ncycle[t] as int].contains(
        ncycle[(t + 1) % (ncycle.len() as int)],
    ) by {
        let t1 = (t + 1) % len;
        vstd::arithmetic::div_mod::lemma_mod_bound(t + 1, len);
        assert(dep_step(catalog, cycle[t], cycle[t1]));
        let a = ncycle[t] as int;
        let b = ncycle[t1] as int;
        assert(def_of[a] as int == cycle[t]);
        assert(def_of[b] as int == cycle[t1]);
        let e = choose|e: int|
            0 <= e < catalog[cycle[t]].depends_on@.len() && #[trigger] catalog[cycle[t]].depends_on@[e]@
                == catalog[cycle[t1]].name@;
        let name = catalog[cycle[t1]].name@;
        assert(reachable(catalog, root, cycle[t]));
        assert(catalog[cycle[t]].depends_on@[e]@ == name);
        assert(dls[a].len() == catalog[def_of[a] as int].depends_on@.len());
        let d = dls[a][e] as int;
        assert(d < def_of.len());
        assert(reached_dep(catalog, root, name));
        assert(named(catalog, def_of[d] as int, name));
        assert(named(catalog, cycle[t1], name));
        assert(def_of[d] == def_of[b]);
        assert(d == b);
        assert(dls[a][e] == ncycle[t1]);
    }
    assert(is_cycle(dls, ncycle));
}

/// The indices, ascending, of the catalogue entries named `name`.
pub open spec fn lookup_spec(catalog: Seq<TaskDefinition>, name: Seq<char>, r: Seq<usize>) -> bool {
    &&& forall|j: int| 0 <= j < r.len() ==> r[j] < catalog.len() && catalog[r[j] as int].name@ == name
    &&& forall|c: int|
        0 <= c < catalog.len() && catalog[c].name@ == name ==> r.contains(c as usize)
    &&& forall|i: int, j: int| 0 <= i < j < r.len() ==> r[i] < r[j]
}

/// The catalogue entries named `name`, in catalogue order.
pub fn lookup(catalog: &Vec<TaskDefinition>, name: &String) -> (r: Vec<usize>)
    ensures
        lookup_spec(catalog@, name@, r@),
{
    let mut r: Vec<usize> = Vec::new();
    let mut c: usize = 0;
    while c < catalog.len()
        invariant
            c <= catalog@.len(),
            forall|j: int| 0 <= j < r@.len() ==> r@[j] < c && catalog@[r@[j] as int].name@ == name@,
            forall|d: int| 0 <= d < c && catalog@[d].name@ == name@ ==> r@.contains(d as usize),
            forall|i: int, j: int| 0 <= i < j < r@.len() ==> r@[i] < r@[j],
        decreases catalog@.len() - c,
    {
        if catalog[c].name == *name {
            let ghost before = r@;
            r.push(c);
            proof {
                assert forall|d: int| 0 <= d < c + 1 && catalog@[d].name@ == name@ implies r@.contains(
                    d as usize,
                ) by {
                    if d == c {
                        assert(r@[before.len() as int] == c);
                    } else {
                        let j = choose|j: int| 0 <= j < before.len() && before[j] == d as usize;
                        assert(r@[j] == d as usize);
                    }
                }
            }
        }
        c = c + 1;
    }
    r
}

/// Joins the words with single spaces.
pub fn join_command(words: &Vec<String>) -> (r: String)
    ensures
        r@ == join_words(words@.map_values(|w: String| w@)),
{
    let ghost ws = words@.map_values(|w: String| w@);
    let mut out = String::new();
    let mut k: usize = 0;
    while k < words.len()
        invariant
            k <= words@.len(),
            ws == words@.map_values(|w: String| w@),
            out@ == join_words(ws.take(k as int)),
        decreases words@.len() - k,
    {
        if k > 0 {
            out.append(" ");
            proof {
                reveal_strlit(" ");
            }
        }
        out.append(words[k].as_str());
        proof {
            assert(ws.take(k + 1).drop_last() =~= ws.take(k as int));
            if k == 0 {
                assert(out@ =~= ws.take(1)[0]);
            } else {
                assert(out@ =~= join_words(ws.take(k as int)) + seq![' '] + ws[k as int]);
            }
        }
        k = k + 1;
    }
    assert(ws.take(words@.len() as int) =~= ws);
    out
}

/// Picks one of the candidate entries: the only one, or the one the chooser
/// names among several. None when the chooser declines or names no candidate.
fn pick<F: Fn(AmbiguousTask) -> Option<usize>>(
    catalog: &Vec<TaskDefinition>,
    candidates: &Vec<usize>,
    name: &String,
    depended_on_by: &Option<String>,
    chooser: &F,
) -> (r: Option<usize>)
    requires
        candidates@.len() >= 1,
        forall|j: int| 0 <= j < candidates@.len() ==> candidates@[j] < catalog@.len(),
        forall|p: AmbiguousTask| chooser.requires((p,)),
    ensures
        match r {
            Some(c) => candidates@.contains(c),
            None => candidates@.len() > 1,
        },
        candidates@.len() == 1 ==> r == Some(candidates@[0]),
{
    if candidates.len() == 1 {
        return Some(candidates[0]);
    }
    let mut environments: Vec<String> = Vec::new();
    let mut k: usize = 0;
    while k < candidates.len()
        invariant
            k <= candidates@.len(),
            forall|j: int| 0 <= j < candidates@.len() ==> candidates@[j] < catalog@.len(),
        decreases candidates@.len() - k,
    {
        environments.push(catalog[candidates[k]].environment.clone());
        k = k + 1;
    }
    let problem = AmbiguousTask {
        task_name: name.clone(),
        depended_on_by: depended_on_by.clone(),
        environments,
    };
    match chooser(problem) {
        Some(i) => if i < candidates.len() {
            Some(candidates[i])
        } else {
            None
        },
        None => None,
    }
}

fn clone_strings(v: &Vec<String>) -> (r: Vec<String>)
    ensures
        r@.map_values(|s: String| s@) == v@.map_values(|s: String| s@),
{
    let mut r: Vec<String> = Vec::new();
    let mut k: usize = 0;
    while k < v.len()
        invariant
            k <= v@.len(),
            r@.len() == k,
            forall|j: int| 0 <= j < k ==> r@[j]@ == v@[j]@,
        decreases v@.len() - k,
    {
        r.push(v[k].clone());
        k = k + 1;
    }
    assert(r@.map_values(|s: String| s@) =~= v@.map_values(|s: String| s@));
    r
}

fn copy_indices(v: &Vec<usize>) -> (r: Vec<usize>)
    ensures
        r@ == v@,
{
    let mut r: Vec<usize> = Vec::new();
    let mut k: usize = 0;
    while k < v.len()
        invariant
            k <= v@.len(),
            r@ == v@.take(k as int),
        decreases v@.len() - k,
    {
        r.push(v[k]);
        k = k + 1;
        assert(r@ =~= v@.take(k as int));
    }
    assert(v@.take(v@.len() as int) =~= v@);
    r
}

fn clone_opt_strings(v: &Option<Vec<String>>) -> (r: Option<Vec<String>>)
    ensures
        r is Some <==> v is Some,
        r is Some ==> r->Some_0@.map_values(|s: String| s@) == v->Some_0@.map_values(|s: String| s@),
{
    match v {
        Some(v) => Some(clone_strings(v)),
        None => None,
    }
}

/// The node for catalogue entry `def`, with `extra` appended to its command.
fn node_for(def: &TaskDefinition, depends_on: Vec<usize>, extra: &String) -> (r: TaskNode)
    ensures
        r.name is Some && r.name->Some_0@ == def.name@,
        r.environment@ == def.environment@,
        r.depends_on@ == depends_on@,
        r.executable == def.executable,
        r.clean_env == def.clean_env,
        r.cwd is Some <==> def.cwd is Some,
        r.cwd is Some ==> r.cwd->Some_0@ == def.cwd->Some_0@,
        extra@.len() == 0 ==> r.command@ == def.command@,
        extra@.len() > 0 ==> r.command@ == def.command@ + seq![' '] + extra@,
{
    let mut command = def.command.clone();
    if extra.unicode_len() > 0 {
        command.append(" ");
        proof {
            reveal_strlit(" ");
        }
        command.append(extra.as_str());
    }
    TaskNode {
        name: Some(def.name.clone()),
        command,
        environment: def.environment.clone(),
        depends_on,
        executable: def.executable,
        description: match &def.description {
            Some(d) => Some(d.clone()),
            None => None,
        },
        clean_env: def.clean_env,
        cwd: match &def.cwd {
            Some(d) => Some(d.clone()),
            None => None,
        },
        inputs: clone_opt_strings(&def.inputs),
    }
}

/// Builds the task graph for a command line. The first token names the task;
/// the remaining tokens are appended to its command. A name that no task in the
/// catalogue carries makes the whole line an ad hoc command in `environment`.
/// Unless `skip_deps`, the named task's dependencies are added transitively,
/// each entry once; where several environments declare a name, `chooser`
/// picks one, and declining fails the resolution.
pub fn from_cmd_args<F: Fn(AmbiguousTask) -> Option<usize>>(
    catalog: &Vec<TaskDefinition>,
    tokens: Vec<String>,
    environment: &String,
    skip_deps: bool,
    chooser: &F,
) -> (r: Result<TaskGraph, ResolveError>)
    requires
        forall|p: AmbiguousTask| chooser.requires((p,)),
    ensures
        tokens@.len() == 0 <==> r matches Err(ResolveError::NoTask),
        r is Ok ==> {
            let g = r->Ok_0;
            let root = g.spec_nodes()[0];
            &&& g.wf()
            &&& g.spec_nodes().len() >= 1
            &&& tokens@.len() >= 1
            &&& skip_deps ==> g.spec_nodes().len() == 1 && root.depends_on@.len() == 0
            &&& (forall|c: int| 0 <= c < catalog@.len() ==> catalog@[c].name@ != tokens@[0]@) ==> {
                &&& g.spec_nodes().len() == 1
                &&& root.name is None
                &&& root.command@ == join_words(tokens@.map_values(|w: String| w@))
                &&& root.environment@ == environment@
                &&& root.depends_on@.len() == 0
                &&& root.executable
            }
            &&& (exists|c: int| 0 <= c < catalog@.len() && catalog@[c].name@ == tokens@[0]@)
                ==> root.name is Some && root.name->Some_0@ == tokens@[0]@
            &&& (exists|c: int| 0 <= c < catalog@.len() && catalog@[c].name@ == tokens@[0]@)
                ==> forall|k: int|
                0 <= k < g.spec_nodes().len() ==> #[trigger] has_source(g.spec_nodes(), k, catalog@, skip_deps)
        },
        tokens@.len() >= 1 && no_entry(catalog@, tokens@[0]@) ==> r is Ok,
        tokens@.len() >= 1 && !no_entry(catalog@, tokens@[0]@) && at_most_one(catalog@, tokens@[0]@) && (
        skip_deps || (unambiguous(catalog@, tokens@[0]@) && !has_unknown_dep(catalog@, tokens@[0]@)
            && !closure_has_cycle(catalog@, tokens@[0]@))) ==> r is Ok,
        r matches Err(ResolveError::UnknownDependency { task_name }) ==> {
            &&& !skip_deps
            &&& tokens@.len() >= 1
            &&& reached_dep(catalog@, tokens@[0]@, task_name@)
            &&& no_entry(catalog@, task_name@)
        },
        tokens@.len() >= 1 && !no_entry(catalog@, tokens@[0]@) && !skip_deps && unambiguous(
            catalog@,
            tokens@[0]@,
        ) && has_unknown_dep(catalog@, tokens@[0]@) ==> r matches Err(
            ResolveError::UnknownDependency { .. },
        ),
        r matches Err(ResolveError::Graph(e)) ==> {
            &&& e == GraphError::Cycle
            &&& !skip_deps
            &&& tokens@.len() >= 1
            &&& closure_has_cycle(catalog@, tokens@[0]@)
        },
        tokens@.len() >= 1 && !no_entry(catalog@, tokens@[0]@) && !skip_deps && unambiguous(
            catalog@,
            tokens@[0]@,
        ) && !has_unknown_dep(catalog@, tokens@[0]@) && closure_has_cycle(catalog@, tokens@[0]@)
            ==> r matches Err(ResolveError::Graph(GraphError::Cycle)),
        r matches Err(ResolveError::AmbiguousTask { task_name }) ==> {
            &&& tokens@.len() >= 1
            &&& several(catalog@, task_name@)
            &&& task_name@ == tokens@[0]@ || reached_dep(catalog@, tokens@[0]@, task_name@)
        },
{
    if tokens.len() == 0 {
        return Err(ResolveError::NoTask);
    }
    let name = &tokens[0];
    let candidates = lookup(catalog, name);
    if candidates.len() == 0 {
        let node = TaskNode {
            name: None,
            command: join_command(&tokens),
            environment: environment.clone(),
            depends_on: Vec::new(),
            executable: true,
            description: None,
            clean_env: false,
            cwd: None,
            inputs: None,
        };
        let mut nodes: Vec<TaskNode> = Vec::new();
        nodes.push(node);
        proof {
            assert forall|c: int| 0 <= c < catalog@.len() implies catalog@[c].name@ != tokens@[0]@ by {
                if catalog@[c].name@ == tokens@[0]@ {
                    assert(candidates@.contains(c as usize));
                }
            }
            let one = seq![0usize];
            assert(crate::graph::deps_before(one, deps_of(nodes@), 0));
            assert(crate::graph::is_topological_order(one, deps_of(nodes@)));
        }
        return match TaskGraph::new(nodes) {
            Ok(g) => Ok(g),
            Err(e) => Err(ResolveError::Graph(e)),
        };
    }
    let ghost root_name = tokens@[0]@;
    proof {
        assert(named(catalog@, candidates@[0] as int, root_name));
    }
    let root = match pick(catalog, &candidates, name, &None, chooser) {
        Some(c) => c,
        None => {
            proof {
                assert(named(catalog@, candidates@[0] as int, root_name));
                assert(named(catalog@, candidates@[1] as int, root_name));
            }
            return Err(ResolveError::AmbiguousTask { task_name: name.clone() });
        },
    };
    proof {
        let j = choose|j: int| 0 <= j < candidates@.len() && candidates@[j] == root;
        assert(named(catalog@, root as int, root_name));
        assert(reach_within(catalog@, root_name, root as int, 0));
    }
    let ghost mut depth: Seq<nat> = seq![0nat];
    let mut rest: Vec<String> = Vec::new();
    let mut t: usize = 1;
    while t < tokens.len()
        invariant
            1 <= t <= tokens@.len(),
        decreases tokens@.len() - t,
    {
        rest.push(tokens[t].clone());
        t = t + 1;
    }
    let extra = join_command(&rest);
    let n = catalog.len();
    // def_of[k]: the catalogue entry of node k; node_of[c]: the node of entry c.
    let mut def_of: Vec<usize> = Vec::new();
    let mut node_of: Vec<Option<usize>> = Vec::new();
    let mut z: usize = 0;
    while z < n
        invariant
            z <= n,
            n == catalog@.len(),
            node_of@.len() == z,
            forall|c: int| 0 <= c < z ==> node_of@[c] is None,
        decreases n - z,
    {
        node_of.push(None);
        z = z + 1;
    }
    def_of.push(root);
    node_of.set(root, Some(0));
    let mut dep_lists: Vec<Vec<usize>> = Vec::new();
    let mut q: usize = 0;
    while q < def_of.len()
        invariant
            n == catalog@.len(),
            node_of@.len() == n,
            1 <= def_of@.len(),
            def_of@[0] == root,
            root < n,
            q <= def_of@.len(),
            dep_lists@.len() == q,
            forall|k: int| 0 <= k < def_of@.len() ==> def_of@[k] < n && node_of@[def_of@[k] as int] == Some(k as usize),
            forall|c: int| 0 <= c < n && node_of@[c] is Some ==> node_of@[c]->Some_0 < def_of@.len() && def_of@[node_of@[c]->Some_0 as int] == c,
            forall|a: int, e: int| 0 <= a < q && 0 <= e < dep_lists@[a]@.len() ==> dep_lists@[a]@[e] < def_of@.len(),
            skip_deps ==> def_of@.len() == 1,
            skip_deps ==> forall|a: int| 0 <= a < q ==> dep_lists@[a]@.len() == 0,
            !skip_deps ==> forall|a: int| 0 <= a < q ==> #[trigger] dep_lists@[a]@.len() == catalog@[def_of@[a] as int].depends_on@.len(),
            !skip_deps ==> forall|a: int, e: int| 0 <= a < q && 0 <= e < dep_lists@[a]@.len() ==>
                catalog@[def_of@[dep_lists@[a]@[e] as int] as int].name@ == catalog@[def_of@[a] as int].depends_on@[e]@,
            tokens@.len() >= 1,
            root_name == tokens@[0]@,
            !no_entry(catalog@, root_name),
            named(catalog@, root as int, root_name),
            depth.len() == def_of@.len(),
            forall|k: int| 0 <= k < def_of@.len() ==> #[trigger] reach_within(catalog@, root_name, def_of@[k] as int, depth[k]),
            forall|p: AmbiguousTask| chooser.requires((p,)),
        decreases n + 1 - q,
    {
        proof {
            assert(def_of@.no_duplicates()) by {
                assert forall|i: int, j: int| 0 <= i < def_of@.len() && 0 <= j < def_of@.len() && i != j implies def_of@[i] != def_of@[j] by {
                    assert(node_of@[def_of@[i] as int] == Some(i as usize));
                    assert(node_of@[def_of@[j] as int] == Some(j as usize));
                }
            }
            crate::graph::lemma_distinct_bounded_len(def_of@, n);
        }
        let def = &catalog[def_of[q]];
        let mut deps: Vec<usize> = Vec::new();
        if !skip_deps {
            let mut e: usize = 0;
            while e < def.depends_on.len()
                invariant
                    n == catalog@.len(),
                    node_of@.len() == n,
                    1 <= def_of@.len(),
                    def_of@[0] == root,
                    q < def_of@.len(),
                    dep_lists@.len() == q,
                    def == &catalog@[def_of@[q as int] as int],
                    e <= def.depends_on@.len(),
                    forall|k: int| 0 <= k < def_of@.len() ==> def_of@[k] < n && node_of@[def_of@[k] as int] == Some(k as usize),
                    forall|c: int| 0 <= c < n && node_of@[c] is Some ==> node_of@[c]->Some_0 < def_of@.len() && def_of@[node_of@[c]->Some_0 as int] == c,
                    forall|a: int, e: int| 0 <= a < q && 0 <= e < dep_lists@[a]@.len() ==> dep_lists@[a]@[e] < def_of@.len(),
                    forall|j: int| 0 <= j < deps@.len() ==> deps@[j] < def_of@.len(),
                    deps@.len() == e,
                    forall|j: int| 0 <= j < e ==> catalog@[def_of@[deps@[j] as int] as int].name@ == def.depends_on@[j]@,
                    forall|a: int| 0 <= a < q ==> #[trigger] dep_lists@[a]@.len() == catalog@[def_of@[a] as int].depends_on@.len(),
                    forall|a: int, e: int| 0 <= a < q && 0 <= e < dep_lists@[a]@.len() ==>
                        catalog@[def_of@[dep_lists@[a]@[e] as int] as int].name@ == catalog@[def_of@[a] as int].depends_on@[e]@,
                    !skip_deps,
                    tokens@.len() >= 1,
                    root_name == tokens@[0]@,
                    !no_entry(catalog@, root_name),
                    named(catalog@, root as int, root_name),
                    depth.len() == def_of@.len(),
                    forall|k: int| 0 <= k < def_of@.len() ==> #[trigger] reach_within(catalog@, root_name, def_of@[k] as int, depth[k]),
                    forall|p: AmbiguousTask| chooser.requires((p,)),
                decreases def.depends_on@.len() - e,
            {
                let dep_name = &def.depends_on[e];
                proof {
                    let a = def_of@[q as int] as int;
                    assert(reach_within(catalog@, root_name, a, depth[q as int]));
                    assert(reachable(catalog@, root_name, a));
                    assert(catalog@[a].depends_on@[e as int]@ == dep_name@);
                    assert(reached_dep(catalog@, root_name, dep_name@));
                }
                let found = lookup(catalog, dep_name);
                if found.len() == 0 {
                    proof {
                        assert forall|c: int| 0 <= c < catalog@.len() implies catalog@[c].name@ != dep_name@ by {
                            if catalog@[c].name@ == dep_name@ {
                                assert(found@.contains(c as usize));
                            }
                        }
                    }
                    return Err(ResolveError::UnknownDependency { task_name: dep_name.clone() });
                }
                let c = match pick(catalog, &found, dep_name, &Some(def.name.clone()), chooser) {
                    Some(c) => c,
                    None => {
                        proof {
                            assert(named(catalog@, found@[0] as int, dep_name@));
                            assert(named(catalog@, found@[1] as int, dep_name@));
                        }
                        return Err(ResolveError::AmbiguousTask { task_name: dep_name.clone() });
                    },
                };
                proof {
                    let j = choose|j: int| 0 <= j < found@.len() && found@[j] == c;
                    let a = def_of@[q as int] as int;
                    assert(catalog@[c as int].name@ == dep_name@);
                    assert(catalog@[a].depends_on@[e as int]@ == catalog@[c as int].name@);
                    assert(dep_step(catalog@, a, c as int));
                    assert(reach_within(catalog@, root_name, c as int, depth[q as int] + 1));
                }
                match node_of[c] {
                    Some(k) => {
                        deps.push(k);
                    },
                    None => {
                        let k = def_of.len();
                        def_of.push(c);
                        node_of.set(c, Some(k));
                        deps.push(k);
                        proof {
                            depth = depth.push(depth[q as int] + 1);
                        }
                    },
                }
                e = e + 1;
            }
        }
        dep_lists.push(deps);
        q = q + 1;
    }
    let mut nodes: Vec<TaskNode> = Vec::new();
    let mut k: usize = 0;
    let empty = String::new();
    while k < def_of.len()
        invariant
            n == catalog@.len(),
            tokens@.len() >= 1,
            k <= def_of@.len(),
            dep_lists@.len() == def_of@.len(),
            1 <= def_of@.len(),
            def_of@[0] == root,
            root < n,
            catalog@[root as int].name@ == tokens@[0]@,
            nodes@.len() == k,
            forall|j: int| 0 <= j < def_of@.len() ==> def_of@[j] < n,
            forall|j: int| 0 <= j < k ==> #[trigger] nodes@[j].name is Some && nodes@[j].name->Some_0@ == catalog@[def_of@[j] as int].name@,
            k > 0 ==> nodes@[0].name is Some && nodes@[0].name->Some_0@ == tokens@[0]@,
            skip_deps ==> def_of@.len() == 1 && dep_lists@[0]@.len() == 0,
            k > 0 && skip_deps ==> nodes@[0].depends_on@.len() == 0,
            forall|j: int| 0 <= j < k ==> #[trigger] made_from(nodes@[j], catalog@[def_of@[j] as int]),
            forall|j: int| 0 <= j < k ==> nodes@[j].depends_on@ == dep_lists@[j]@,
            !skip_deps ==> forall|a: int| 0 <= a < def_of@.len() ==> #[trigger] dep_lists@[a]@.len() == catalog@[def_of@[a] as int].depends_on@.len(),
            !skip_deps ==> forall|a: int, e: int| 0 <= a < def_of@.len() && 0 <= e < dep_lists@[a]@.len() ==>
                catalog@[def_of@[dep_lists@[a]@[e] as int] as int].name@ == catalog@[def_of@[a] as int].depends_on@[e]@,
            forall|a: int, e: int| 0 <= a < def_of@.len() && 0 <= e < dep_lists@[a]@.len() ==> dep_lists@[a]@[e] < def_of@.len(),
            empty@.len() == 0,
            root_name == tokens@[0]@,
            depth.len() == def_of@.len(),
            forall|k: int| 0 <= k < def_of@.len() ==> #[trigger] reach_within(catalog@, root_name, def_of@[k] as int, depth[k]),
            forall|k: int| 0 <= k < def_of@.len() ==> node_of@[def_of@[k] as int] == Some(k as usize),
            node_of@.len() == n,
        decreases def_of@.len() - k,
    {
        let def = &catalog[def_of[k]];
        let deps = copy_indices(&dep_lists[k]);
        let node = if k == 0 {
            node_for(def, deps, &extra)
        } else {
            node_for(def, deps, &empty)
        };
        nodes.push(node);
        k = k + 1;
    }
    proof {
        assert forall|j: int| 0 <= j < nodes@.len() implies #[trigger] has_source(nodes@, j, catalog@, skip_deps) by {
            let c = def_of@[j] as int;
            assert(made_from(nodes@[j], catalog@[c]));
            if !skip_deps {
                assert(dep_lists@[j]@.len() == catalog@[def_of@[j] as int].depends_on@.len());
                assert forall|e: int| 0 <= e < catalog@[c].depends_on@.len() implies #[trigger] nodes@[j].depends_on@[e]
                    < nodes@.len() && nodes@[nodes@[j].depends_on@[e] as int].name is Some
                    && nodes@[nodes@[j].depends_on@[e] as int].name->Some_0@ == catalog@[c].depends_on@[e]@ by {
                    let d = dep_lists@[j]@[e] as int;
                    assert(made_from(nodes@[d], catalog@[def_of@[d] as int]));
                }
            }
        }
    }
    let ghost built = nodes@;
    let ghost dls = dep_lists@.map_values(|v: Vec<usize>| v@);
    let node_count = nodes.len();
    let def_count = def_of.len();
    proof {
        assert(deps_of(built) =~= dls) by {
            assert forall|j: int| 0 <= j < built.len() implies deps_of(built)[j] == dls[j] by {
                assert(built[j].depends_on@ == dep_lists@[j]@);
            }
        }
        assert(crate::graph::edges_resolved(deps_of(built)));
        assert(def_of@.no_duplicates()) by {
            assert forall|i: int, j: int| 0 <= i < def_of@.len() && 0 <= j < def_of@.len() && i != j implies def_of@[i] != def_of@[j] by {
                assert(node_of@[def_of@[i] as int] == Some(i as usize));
                assert(node_of@[def_of@[j] as int] == Some(j as usize));
            }
        }
        assert forall|k: int| 0 <= k < def_of@.len() implies #[trigger] reachable(catalog@, root_name, def_of@[k] as int) by {
            assert(reach_within(catalog@, root_name, def_of@[k] as int, depth[k]));
        }
        if !skip_deps {
            assert(resolution_facts(catalog@, root_name, def_of@, dls));
        }
    }
    match TaskGraph::new(nodes) {
        Ok(g) => {
            proof {
                assert forall|k: int| 0 <= k < g.spec_nodes().len() implies #[trigger] has_source(
                    g.spec_nodes(),
                    k,
                    catalog@,
                    skip_deps,
                ) by {
                    assert(has_source(built, k, catalog@, skip_deps));
                }
                if !skip_deps && unambiguous(catalog@, root_name) {
                    lemma_no_unknown(catalog@, root_name, def_of@, dls);
                    if closure_has_cycle(catalog@, root_name) {
                        lemma_closure_cycle_is_node_cycle(catalog@, root_name, def_of@, dls);
                        let ncycle = choose|ncycle: Seq<usize>| is_cycle(dls, ncycle);
                        crate::graph::lemma_cycle_is_rejected(deps_of(built), ncycle, node_count);
                    }
                }
            }
            Ok(g)
        },
        Err(e) => {
            proof {
                if let GraphError::UnresolvedDependency { task, dependency } = e {
                    let j = choose|j: int| 0 <= j < built[task as int].depends_on@.len() && built[task as int].depends_on@[j] == dependency;
                    assert(deps_of(built)[task as int][j] < built.len());
                }
                assert(e == GraphError::Cycle);
                if !skip_deps && unambiguous(catalog@, root_name) {
                    lemma_no_unknown(catalog@, root_name, def_of@, dls);
                }
                let ncycle = choose|ncycle: Seq<usize>| is_cycle(deps_of(built), ncycle);
                if skip_deps {
                    assert(dls[0].len() == 0);
                    assert(deps_of(built)[ncycle[0] as int].contains(ncycle[(0int + 1) % (ncycle.len() as int)]));
                } else {
                    lemma_node_cycle_is_closure_cycle(catalog@, root_name, def_of@, dls, ncycle);
                }
            }
            Err(ResolveError::Graph(e))
        },
    }
}

} // verus!
