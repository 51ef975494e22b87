use s_curve::models::task::{resolve_nodes, task_weight, TaskNode, TaskRow};

#[test]
fn stored_duration_comes_first() {
    assert_eq!(task_weight(Some(5), Some(0), Some(86_400 * 30)), 5);
    assert_eq!(task_weight(Some(0), Some(0), Some(86_400 * 30)), 0);
}

#[test]
fn span_of_the_dates_counts_whole_days() {
    // 2025-10-01T09:00:00Z to 2025-10-05T17:00:00Z: four days and eight hours
    assert_eq!(task_weight(None, Some(1_759_309_200), Some(1_759_683_600)), 4);
    assert_eq!(task_weight(None, Some(0), Some(86_399)), 0);
    assert_eq!(task_weight(None, Some(0), Some(86_400)), 1);
    assert_eq!(task_weight(None, Some(-86_400), Some(86_400)), 2);
}

#[test]
fn missing_date_gives_no_weight() {
    assert_eq!(task_weight(None, None, None), 0);
    assert_eq!(task_weight(None, Some(5), None), 0);
    assert_eq!(task_weight(None, None, Some(86_400 * 9)), 0);
}

#[test]
fn weight_is_never_negative() {
    assert_eq!(task_weight(Some(-3), None, None), 0);
    assert_eq!(task_weight(None, Some(86_400 * 10), Some(0)), 0);
    assert_eq!(task_weight(None, Some(7), Some(7)), 0);
}

#[test]
fn widest_span_fits() {
    let days = ((i64::MAX as i128 - i64::MIN as i128) / 86_400) as u64;
    assert_eq!(task_weight(None, Some(i64::MIN), Some(i64::MAX)), days);
    assert_eq!(task_weight(Some(i64::MAX), None, None), i64::MAX as u64);
}

#[test]
fn node_is_resolved_from_its_row() {
    let node = TaskNode::resolve(42, None, Some(0), Some(86_400 * 3 + 5));
    assert_eq!(node, TaskNode { id: 42, weight: 3 });
}

#[test]
fn only_live_tasks_are_resolved() {
    let rows = vec![
        TaskRow { id: 1, duration_days: Some(2), start_date: None, end_date: None, deleted_at: None },
        TaskRow {
            id: 2,
            duration_days: Some(3),
            start_date: None,
            end_date: None,
            deleted_at: Some(1_700_000_000),
        },
        TaskRow {
            id: 3,
            duration_days: None,
            start_date: Some(86_400),
            end_date: Some(86_400 * 3),
            deleted_at: None,
        },
    ];
    assert_eq!(
        resolve_nodes(&rows),
        vec![TaskNode { id: 1, weight: 2 }, TaskNode { id: 3, weight: 2 }]
    );
    assert_eq!(resolve_nodes(&Vec::new()), Vec::new());
}
