use vstd::prelude::*;
use vstd::string::*;

use crate::graph::TaskGraph;
use crate::paths::{is_under, path_is_under};

verus! {

/// The exit code of a process ended by an interrupt: 128 plus SIGINT's number.
pub const SIGINT_EXIT_CODE: i32 = 130;

/// What watch mode can do with a resolved graph.
#[derive(Debug, PartialEq, Eq, Structural, Clone, Copy)]
pub enum WatchTarget {
    /// Watch this single task.
    Single(usize),
    /// The graph is empty.
    NothingToRun,
    /// Watch mode only supports a single task without dependencies.
    MultipleTasks,
    /// The single task is an alias and cannot run.
    NotExecutable,
}

/// A task's working directory is missing or lies outside the workspace root.
#[derive(Debug)]
pub struct InvalidWorkingDirectory {
    pub path: String,
}

/// Picks the task that watch mode runs.
pub fn watch_target(graph: &TaskGraph) -> (r: WatchTarget)
    requires
        graph.wf(),
    ensures
        graph.spec_order().len() == 0 ==> r == WatchTarget::NothingToRun,
        graph.spec_order().len() > 1 ==> r == WatchTarget::MultipleTasks,
        graph.spec_order().len() == 1 ==> r == (if graph.spec_nodes()[graph.spec_order()[0] as int].executable {
            WatchTarget::Single(graph.spec_order()[0])
        } else {
            WatchTarget::NotExecutable
        }),
{
    let order = graph.topological_order();
    if order.len() == 0 {
        WatchTarget::NothingToRun
    } else if order.len() > 1 {
        WatchTarget::MultipleTasks
    } else if graph.node(order[0]).executable {
        WatchTarget::Single(order[0])
    } else {
        WatchTarget::NotExecutable
    }
}

/// `rel` resolved against `base`: an absolute `rel` stands alone, otherwise the
/// two are joined with one separator.
pub open spec fn joined(base: Seq<char>, rel: Seq<char>) -> Seq<char> {
    if rel.len() > 0 && rel[0] == '/' {
        rel
    } else if base.len() == 0 || base.last() == '/' {
        base + rel
    } else {
        base + seq!['/'] + rel
    }
}

/// Resolves `rel` against `base`.
pub fn join_path(base: &str, rel: &str) -> (r: String)
    ensures
        r@ == joined(base@, rel@),
{
    let bn = base.unicode_len();
    let rn = rel.unicode_len();
    if rn > 0 && rel.get_char(0) == '/' {
        return String::from_str(rel);
    }
    let mut out = String::from_str(base);
    if !(bn == 0 || base.get_char(bn - 1) == '/') {
        out.append("/");
        proof {
            reveal_strlit("/");
        }
    }
    out.append(rel);
    proof {
        if !(bn == 0 || base@.last() == '/') {
            assert(out@ =~= base@ + seq!['/'] + rel@);
        }
    }
    out
}

/// The directory a task runs in: the workspace root, or the configured
/// directory resolved against it, which must exist and lie within the root.
pub fn working_directory(root: &String, configured: &Option<String>, configured_exists: bool) -> (r:
    Result<String, InvalidWorkingDirectory>)
    ensures
        match configured {
            None => r is Ok && r->Ok_0@ == root@,
            Some(dir) => {
                let path = joined(root@, dir@);
                &&& r is Ok <==> configured_exists && is_under(path, root@)
                &&& r is Ok ==> r->Ok_0@ == path
                &&& r is Err ==> r->Err_0.path@ == path
            },
        },
{
    match configured {
        None => Ok(root.clone()),
        Some(dir) => {
            let path = join_path(root.as_str(), dir.as_str());
            if configured_exists && path_is_under(path.as_str(), root.as_str()) {
                Ok(path)
            } else {
                Err(InvalidWorkingDirectory { path })
            }
        },
    }
}

/// The patterns a task's inputs are watched through, resolved against the
/// workspace root; none when the task declares no inputs.
pub fn watch_patterns(root: &String, inputs: &Option<Vec<String>>) -> (r: Option<Vec<String>>)
    ensures
        match inputs {
            None => r is None,
            Some(v) => r is Some && r->Some_0@.len() == v@.len() && forall|k: int|
                0 <= k < v@.len() ==> #[trigger] r->Some_0@[k]@ == joined(root@, v@[k]@),
        },
{
    match inputs {
        None => None,
        Some(v) => {
            let mut out: Vec<String> = Vec::new();
            let mut k: usize = 0;
            while k < v.len()
                invariant
                    k <= v@.len(),
                    out@.len() == k,
                    forall|j: int| 0 <= j < k ==> #[trigger] out@[j]@ == joined(root@, v@[j]@),
                decreases v@.len() - k,
            {
                out.push(join_path(root.as_str(), v[k].as_str()));
                k = k + 1;
            }
            Some(out)
        },
    }
}

} // verus!
