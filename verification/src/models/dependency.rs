//! Dependencies between tasks as they are stored, and the resolution of the
//! stored dependencies to the edges of a project's graph.

use vstd::prelude::*;
use vstd::string::*;
use crate::graph::{TaskGraph, TaskId};
use crate::model::GraphModel;

verus! {

/// A recorded dependency: the task `target_task_id` cannot begin before the
/// task `source_task_id` has finished. `created_at` counts microseconds
/// since the Unix epoch.
#[derive(Debug, Clone)]
pub struct TaskDependency {
    pub id: u128,
    pub source_task_id: TaskId,
    pub target_task_id: TaskId,
    pub type_: String,
    pub created_at: i64,
}

/// A request for a new dependency.
#[derive(Debug)]
pub struct DependencyCreateRequest {
    pub source_task_id: TaskId,
    pub target_task_id: TaskId,
    pub type_: String,
}

/// The kind of a dependency for which a request names none.
pub fn default_type() -> (kind: String)
    ensures
        kind@ == "finish_to_start"@,
{
    String::from_str("finish_to_start")
}

impl TaskDependency {
    /// The record of the dependency that `request` asks for, under the
    /// identifier `id` and made at `created_at`.
    pub fn new(id: u128, request: DependencyCreateRequest, created_at: i64) -> (dep: TaskDependency)
        ensures
            dep.id == id,
            dep.source_task_id == request.source_task_id,
            dep.target_task_id == request.target_task_id,
            dep.type_ == request.type_,
            dep.created_at == created_at,
    {
        TaskDependency {
            id,
            source_task_id: request.source_task_id,
            target_task_id: request.target_task_id,
            type_: request.type_,
            created_at,
        }
    }
}

/// The pairs (source, target) of the dependencies among `deps` whose source
/// is a node of `g`, in the order of `deps`; a pair that occurs twice is kept
/// twice.
pub open spec fn live_pairs(g: GraphModel<TaskId>, deps: Seq<TaskDependency>) -> Seq<(TaskId, TaskId)>
    decreases deps.len(),
{
    if deps.len() == 0 {
        Seq::empty()
    } else {
        let rest = live_pairs(g, deps.drop_last());
        let dep = deps.last();
        if g.has_node(dep.source_task_id) {
            rest.push((dep.source_task_id, dep.target_task_id))
        } else {
            rest
        }
    }
}

/// Resolves the stored dependencies to the edges of a project: those whose
/// source is a task of `graph`.
pub fn resolve_edges(graph: &TaskGraph, deps: &Vec<TaskDependency>) -> (pairs: Vec<(TaskId, TaskId)>)
    requires
        graph.wf(),
    ensures
        pairs@ == live_pairs(graph@, deps@),
{
    let mut pairs: Vec<(TaskId, TaskId)> = Vec::new();
    let mut i: usize = 0;
    while i < deps.len()
        invariant
            i <= deps.len(),
            graph.wf(),
            pairs@ == live_pairs(graph@, deps@.take(i as int)),
        decreases deps.len() - i,
    {
        proof {
            assert(deps@.take(i as int + 1).drop_last() =~= deps@.take(i as int));
        }
        if graph.contains_task(deps[i].source_task_id) {
            pairs.push((deps[i].source_task_id, deps[i].target_task_id));
        }
        i += 1;
    }
    proof {
        assert(deps@.take(deps.len() as int) =~= deps@);
    }
    pairs
}

} // verus!
