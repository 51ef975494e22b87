//! Tasks as the graph engine sees them: an identifier and a weight in days.

use vstd::prelude::*;
use crate::graph::TaskId;

verus! {

/// A task as the graph engine sees it.
#[derive(Debug, Clone, Copy, PartialEq, Eq, Structural)]
pub struct TaskNode {
    pub id: TaskId,
    pub weight: u64,
}

/// The length of a day in seconds.
pub const SECONDS_PER_DAY: i64 = 86_400;

/// The weight of a task in days: its stored duration where it has one, else
/// the whole days from its start to its end where both are stored (as seconds
/// since the Unix epoch), else nothing. A negative figure counts as nothing.
pub open spec fn weight_in_days(
    duration_days: Option<i64>,
    start_date: Option<i64>,
    end_date: Option<i64>,
) -> u64 {
    match duration_days {
        Some(days) => if days < 0 {
            0
        } else {
            days as u64
        },
        None => match (start_date, end_date) {
            (Some(start), Some(end)) => if end <= start {
                0
            } else {
                ((end - start) / (SECONDS_PER_DAY as int)) as u64
            },
            _ => 0,
        },
    }
}

/// Computes the weight of a task from what is stored of it.
pub fn task_weight(duration_days: Option<i64>, start_date: Option<i64>, end_date: Option<i64>) -> (weight:
    u64)
    ensures
        weight == weight_in_days(duration_days, start_date, end_date),
{
    match duration_days {
        Some(days) => {
            if days < 0 {
                0
            } else {
                days as u64
            }
        },
        None => match (start_date, end_date) {
            (Some(start), Some(end)) => {
                if end <= start {
                    0
                } else {
                    let span: i128 = end as i128 - start as i128;
                    (span / SECONDS_PER_DAY as i128) as u64
                }
            },
            _ => 0,
        },
    }
}

/// A task as it is stored. Dates count seconds since the Unix epoch; a task
/// with a date of deletion is no longer live.
#[derive(Debug, Clone, Copy)]
pub struct TaskRow {
    pub id: TaskId,
    pub duration_days: Option<i64>,
    pub start_date: Option<i64>,
    pub end_date: Option<i64>,
    pub deleted_at: Option<i64>,
}

impl TaskRow {
    /// The task is not deleted.
    pub open spec fn is_live(self) -> bool {
        self.deleted_at is None
    }

    /// The node that stands for the task in the graph.
    pub open spec fn node(self) -> TaskNode {
        TaskNode {
            id: self.id,
            weight: weight_in_days(self.duration_days, self.start_date, self.end_date),
        }
    }
}

/// The nodes of the live tasks among `rows`, in the order of the rows.
pub open spec fn live_nodes(rows: Seq<TaskRow>) -> Seq<TaskNode>
    decreases rows.len(),
{
    if rows.len() == 0 {
        Seq::empty()
    } else {
        let rest = live_nodes(rows.drop_last());
        if rows.last().is_live() {
            rest.push(rows.last().node())
        } else {
            rest
        }
    }
}

/// Resolves the stored tasks of a project to the nodes of its graph: deleted
/// tasks are left out, and every other task gets its weight.
pub fn resolve_nodes(rows: &Vec<TaskRow>) -> (nodes: Vec<TaskNode>)
    ensures
        nodes@ == live_nodes(rows@),
{
    let mut nodes: Vec<TaskNode> = Vec::new();
    let mut i: usize = 0;
    while i < rows.len()
        invariant
            i <= rows.len(),
            nodes@ == live_nodes(rows@.take(i as int)),
        decreases rows.len() - i,
    {
        proof {
            assert(rows@.take(i as int + 1).drop_last() =~= rows@.take(i as int));
        }
        let row = rows[i];
        if row.deleted_at.is_none() {
            nodes.push(TaskNode::resolve(row.id, row.duration_days, row.start_date, row.end_date));
        }
        i += 1;
    }
    proof {
        assert(rows@.take(rows.len() as int) =~= rows@);
    }
    nodes
}

impl TaskNode {
    /// The node of the task `id` with the weight that its stored duration
    /// and dates give.
    pub fn resolve(
        id: TaskId,
        duration_days: Option<i64>,
        start_date: Option<i64>,
        end_date: Option<i64>,
    ) -> (node: TaskNode)
        ensures
            node.id == id,
            node.weight == weight_in_days(duration_days, start_date, end_date),
    {
        TaskNode { id, weight: task_weight(duration_days, start_date, end_date) }
    }
}

} // verus!
