//! The write path of the engine: a requested dependency is vetted, added
//! and recorded.

use vstd::prelude::*;
use crate::errors::GraphError;
use crate::graph::TaskGraph;
use crate::models::dependency::{DependencyCreateRequest, TaskDependency};
use crate::utils::{fresh_id, utc_now};

verus! {

/// Vets the requested dependency against `graph` and, where the guard
/// accepts it, adds it to the graph and gives its record, with a fresh
/// identifier and the current time. A refusal leaves the graph as it is.
pub fn create_dependency(graph: &mut TaskGraph, request: DependencyCreateRequest) -> (made: Result<
    TaskDependency,
    GraphError,
>)
    requires
        old(graph).wf(),
    ensures
        final(graph).wf(),
        old(graph)@.acyclic() ==> final(graph)@.acyclic(),
        match made {
            Ok(dep) => {
                &&& old(graph)@.vet_link(request.source_task_id, request.target_task_id) is Ok
                &&& final(graph)@ == old(graph)@.with_link(
                    request.source_task_id,
                    request.target_task_id,
                )
                &&& dep.source_task_id == request.source_task_id
                &&& dep.target_task_id == request.target_task_id
                &&& dep.type_ == request.type_
            },
            Err(e) => {
                &&& old(graph)@.vet_link(request.source_task_id, request.target_task_id) == Err::<
                    (),
                    GraphError,
                >(e)
                &&& final(graph)@ == old(graph)@
            },
        },
{
    match graph.create_dependency(request.source_task_id, request.target_task_id) {
        Ok(()) => {
            let id = fresh_id();
            let now = utc_now();
            Ok(TaskDependency::new(id, request, now))
        },
        Err(e) => Err(e),
    }
}

} // verus!
