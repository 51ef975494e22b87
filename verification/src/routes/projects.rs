//! The read path of the engine: from the stored tasks and dependencies of a
//! project to its graph and its critical path.

use vstd::prelude::*;
use crate::errors::GraphError;
use crate::graph::{TaskGraph, TaskId};
use crate::model::GraphModel;
use crate::models::dependency::{live_pairs, resolve_edges, TaskDependency};
use crate::models::task::{live_nodes, resolve_nodes, TaskNode, TaskRow};

verus! {

/// The average progress recorded on one day.
#[derive(Debug)]
pub struct ActualPoint {
    pub date: String,
    pub actual: i32,
}

/// The tasks of a project's critical path, in the order of the dependencies.
#[derive(Debug)]
pub struct CriticalPathResponse {
    pub task_ids: Vec<TaskId>,
}

/// The graph after the nodes `nodes` were added in turn; a later node with
/// the identifier of an earlier one replaces its weight.
pub open spec fn with_nodes(g: GraphModel<TaskId>, nodes: Seq<TaskNode>) -> GraphModel<TaskId>
    decreases nodes.len(),
{
    if nodes.len() == 0 {
        g
    } else {
        with_nodes(g, nodes.drop_last()).with_node(nodes.last().id, nodes.last().weight)
    }
}

/// The graph after the stored dependencies `pairs` (source, target) were
/// taken over in turn; a pair with an end that is no node is passed over.
pub open spec fn with_stored_links(g: GraphModel<TaskId>, pairs: Seq<(TaskId, TaskId)>) -> GraphModel<
    TaskId,
>
    decreases pairs.len(),
{
    if pairs.len() == 0 {
        g
    } else {
        let h = with_stored_links(g, pairs.drop_last());
        let pair = pairs.last();
        if h.has_node(pair.0) && h.has_node(pair.1) {
            h.with_link(pair.0, pair.1)
        } else {
            h
        }
    }
}

/// The graph of a project with the tasks `nodes` and the stored
/// dependencies `pairs`.
pub open spec fn project_model(nodes: Seq<TaskNode>, pairs: Seq<(TaskId, TaskId)>) -> GraphModel<TaskId> {
    with_stored_links(with_nodes(GraphModel::empty(), nodes), pairs)
}

/// The graph of a project as it is stored: its live tasks, and the stored
/// dependencies that start at one of them and end at one of them.
pub open spec fn stored_model(rows: Seq<TaskRow>, deps: Seq<TaskDependency>) -> GraphModel<TaskId> {
    let base = with_nodes(GraphModel::empty(), live_nodes(rows));
    with_stored_links(base, live_pairs(base, deps))
}

/// Adds the nodes to the graph, in turn.
pub fn add_nodes(graph: &mut TaskGraph, nodes: &Vec<TaskNode>)
    requires
        old(graph).wf(),
    ensures
        final(graph).wf(),
        final(graph)@ == with_nodes(old(graph)@, nodes@),
{
    let ghost base = graph@;
    let mut i: usize = 0;
    while i < nodes.len()
        invariant
            i <= nodes.len(),
            graph.wf(),
            graph@ == with_nodes(base, nodes@.take(i as int)),
        decreases nodes.len() - i,
    {
        proof {
            assert(nodes@.take(i as int + 1).drop_last() =~= nodes@.take(i as int));
        }
        graph.add_task(nodes[i].id, nodes[i].weight);
        i += 1;
    }
    proof {
        assert(nodes@.take(nodes.len() as int) =~= nodes@);
    }
}

/// Takes the stored dependencies over into the graph, in turn and without
/// vetting them.
pub fn add_stored_links(graph: &mut TaskGraph, pairs: &Vec<(TaskId, TaskId)>)
    requires
        old(graph).wf(),
    ensures
        final(graph).wf(),
        final(graph)@ == with_stored_links(old(graph)@, pairs@),
{
    let ghost base = graph@;
    let mut j: usize = 0;
    while j < pairs.len()
        invariant
            j <= pairs.len(),
            graph.wf(),
            graph@ == with_stored_links(base, pairs@.take(j as int)),
        decreases pairs.len() - j,
    {
        proof {
            assert(pairs@.take(j as int + 1).drop_last() =~= pairs@.take(j as int));
        }
        let _kept = graph.insert_dependency(pairs[j].0, pairs[j].1);
        j += 1;
    }
    proof {
        assert(pairs@.take(pairs.len() as int) =~= pairs@);
    }
}

/// Builds the graph with the nodes `nodes` and the stored dependencies
/// `pairs`.
pub fn build_graph(nodes: &Vec<TaskNode>, pairs: &Vec<(TaskId, TaskId)>) -> (graph: TaskGraph)
    ensures
        graph.wf(),
        graph@ == project_model(nodes@, pairs@),
{
    let mut graph = TaskGraph::new();
    add_nodes(&mut graph, nodes);
    add_stored_links(&mut graph, pairs);
    graph
}

/// Builds the graph of a project from its stored tasks and dependencies.
pub fn project_graph(rows: &Vec<TaskRow>, deps: &Vec<TaskDependency>) -> (graph: TaskGraph)
    ensures
        graph.wf(),
        graph@ == stored_model(rows@, deps@),
{
    let nodes = resolve_nodes(rows);
    let mut graph = TaskGraph::new();
    add_nodes(&mut graph, &nodes);
    let pairs = resolve_edges(&graph, deps);
    add_stored_links(&mut graph, &pairs);
    graph
}

/// The critical path of the graph with the nodes `nodes` and the stored
/// dependencies `pairs`: a chain of the greatest total weight over the whole
/// graph, empty for a graph without nodes. Dependencies that hold a cycle
/// give `GraphInvalid`.
pub fn compute_critical_path(nodes: &Vec<TaskNode>, pairs: &Vec<(TaskId, TaskId)>) -> (found: Result<
    Vec<TaskId>,
    GraphError,
>)
    ensures
        found is Ok <==> project_model(nodes@, pairs@).acyclic(),
        match found {
            Ok(path) => project_model(nodes@, pairs@).is_critical_path(path@),
            Err(e) => e == GraphError::GraphInvalid,
        },
{
    let graph = build_graph(nodes, pairs);
    graph.critical_path()
}

/// The critical path of a project as it is stored: the chain of dependent
/// live tasks of the greatest total weight, empty for a project without live
/// tasks. Stored dependencies that hold a cycle give `GraphInvalid`.
pub fn get_project_critical_path(rows: &Vec<TaskRow>, deps: &Vec<TaskDependency>) -> (found: Result<
    CriticalPathResponse,
    GraphError,
>)
    ensures
        found is Ok <==> stored_model(rows@, deps@).acyclic(),
        match found {
            Ok(response) => stored_model(rows@, deps@).is_critical_path(response.task_ids@),
            Err(e) => e == GraphError::GraphInvalid,
        },
{
    let graph = project_graph(rows, deps);
    match graph.critical_path() {
        Ok(task_ids) => Ok(CriticalPathResponse { task_ids }),
        Err(e) => Err(e),
    }
}

} // verus!
