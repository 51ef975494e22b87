use s_curve::models::dependency::TaskDependency;
use s_curve::models::task::{TaskNode, TaskRow};
use s_curve::routes::projects::{
    build_graph, compute_critical_path, get_project_critical_path, project_graph,
};
use uuid::Uuid;

fn task(id: Uuid, duration_days: Option<i64>) -> TaskRow {
    TaskRow { id: id.as_u128(), duration_days, start_date: None, end_date: None, deleted_at: None }
}

fn dependency(source: Uuid, target: Uuid) -> TaskDependency {
    TaskDependency {
        id: Uuid::new_v4().as_u128(),
        source_task_id: source.as_u128(),
        target_task_id: target.as_u128(),
        type_: "finish_to_start".to_string(),
        created_at: chrono::Utc::now().timestamp_micros(),
    }
}

#[test]
fn test_critical_path_basic() {
    let a = Uuid::new_v4();
    let b = Uuid::new_v4();
    let c = Uuid::new_v4();
    let d = Uuid::new_v4();

    // Tasks with explicit durations (days)
    let rows = vec![task(a, Some(2)), task(b, Some(3)), task(c, Some(5)), task(d, Some(1))];
    // Dependencies: A->B, B->C, A->D
    let deps = vec![dependency(a, b), dependency(b, c), dependency(a, d)];

    let ids = get_project_critical_path(&rows, &deps).unwrap().task_ids;

    // Expect critical path A -> B -> C
    assert_eq!(ids.len(), 3);
    assert_eq!(ids[0], a.as_u128());
    assert_eq!(ids[1], b.as_u128());
    assert_eq!(ids[2], c.as_u128());

    let graph = project_graph(&rows, &deps);
    assert_eq!(graph.path_weight(&ids), Some(10));
    assert_eq!(graph.critical_weight(), Ok(10));
}

#[test]
fn critical_path_of_empty_project_is_empty() {
    let found = get_project_critical_path(&Vec::new(), &Vec::new());
    assert_eq!(found.unwrap().task_ids, Vec::<u128>::new());
    assert_eq!(compute_critical_path(&Vec::new(), &Vec::new()), Ok(Vec::new()));
    assert_eq!(build_graph(&Vec::new(), &Vec::new()).critical_weight(), Ok(0));
}

#[test]
fn critical_path_of_single_task_is_that_task() {
    let nodes = vec![TaskNode { id: 7, weight: 4 }];
    let found = compute_critical_path(&nodes, &Vec::new()).unwrap();
    assert_eq!(found, vec![7]);
}

#[test]
fn parallel_dependencies_are_counted_once() {
    let nodes = vec![TaskNode { id: 1, weight: 2 }, TaskNode { id: 2, weight: 3 }];
    let pairs = vec![(1, 2), (1, 2), (1, 2)];
    let ids = compute_critical_path(&nodes, &pairs).unwrap();
    assert_eq!(ids, vec![1, 2]);
    let graph = build_graph(&nodes, &pairs);
    assert_eq!(graph.path_weight(&ids), Some(5));
}

#[test]
fn dependencies_with_unknown_ends_are_passed_over() {
    let nodes = vec![TaskNode { id: 1, weight: 2 }, TaskNode { id: 2, weight: 3 }];
    let pairs = vec![(1, 99), (98, 2), (2, 1)];
    let graph = build_graph(&nodes, &pairs);
    assert!(!graph.has_dependency(1, 99));
    assert!(!graph.has_dependency(98, 2));
    assert!(graph.has_dependency(2, 1));
    let ids = compute_critical_path(&nodes, &pairs).unwrap();
    assert_eq!(ids, vec![2, 1]);
}

#[test]
fn later_row_of_a_task_replaces_its_weight() {
    let nodes = vec![
        TaskNode { id: 1, weight: 2 },
        TaskNode { id: 2, weight: 3 },
        TaskNode { id: 1, weight: 9 },
    ];
    let graph = build_graph(&nodes, &Vec::new());
    assert_eq!(graph.task_count(), 2);
    assert_eq!(graph.weight_of(1), Some(9));
    assert_eq!(graph.weight_of(2), Some(3));
    assert_eq!(graph.weight_of(3), None);
    let ids = compute_critical_path(&nodes, &Vec::new()).unwrap();
    assert_eq!(ids, vec![1]);
}

#[test]
fn heaviest_chain_wins_over_longest_chain() {
    // 1 -> 2 -> 3 -> 4 weighs 4 in all; 5 -> 6 weighs 20.
    let nodes = vec![
        TaskNode { id: 1, weight: 1 },
        TaskNode { id: 2, weight: 1 },
        TaskNode { id: 3, weight: 1 },
        TaskNode { id: 4, weight: 1 },
        TaskNode { id: 5, weight: 10 },
        TaskNode { id: 6, weight: 10 },
    ];
    let pairs = vec![(1, 2), (2, 3), (3, 4), (5, 6)];
    let ids = compute_critical_path(&nodes, &pairs).unwrap();
    assert_eq!(ids, vec![5, 6]);
}

#[test]
fn critical_path_follows_the_heavier_branch_of_a_diamond() {
    // 1 -> 2 -> 4 and 1 -> 3 -> 4, with 3 heavier than 2.
    let nodes = vec![
        TaskNode { id: 1, weight: 1 },
        TaskNode { id: 2, weight: 2 },
        TaskNode { id: 3, weight: 7 },
        TaskNode { id: 4, weight: 1 },
    ];
    let pairs = vec![(3, 4), (1, 2), (2, 4), (1, 3)];
    let ids = compute_critical_path(&nodes, &pairs).unwrap();
    assert_eq!(ids, vec![1, 3, 4]);
    let graph = build_graph(&nodes, &pairs);
    assert_eq!(graph.path_weight(&ids), Some(9));
}

#[test]
fn total_weight_does_not_depend_on_the_order_of_the_rows() {
    let nodes = vec![
        TaskNode { id: 1, weight: 2 },
        TaskNode { id: 2, weight: 3 },
        TaskNode { id: 3, weight: 5 },
        TaskNode { id: 4, weight: 1 },
    ];
    let pairs = vec![(1, 2), (2, 3), (1, 4)];
    let mut nodes_back = nodes.clone();
    nodes_back.reverse();
    let mut pairs_back = pairs.clone();
    pairs_back.reverse();

    let first = compute_critical_path(&nodes, &pairs).unwrap();
    let second = compute_critical_path(&nodes_back, &pairs_back).unwrap();
    let graph = build_graph(&nodes, &pairs);
    assert_eq!(graph.path_weight(&first), Some(10));
    assert_eq!(graph.path_weight(&second), Some(10));
    assert_eq!(graph.critical_weight(), Ok(10));
    assert_eq!(build_graph(&nodes_back, &pairs_back).critical_weight(), Ok(10));
}

#[test]
fn weights_near_the_limit_do_not_overflow() {
    let nodes = vec![
        TaskNode { id: 1, weight: u64::MAX },
        TaskNode { id: 2, weight: u64::MAX },
        TaskNode { id: 3, weight: u64::MAX },
    ];
    let pairs = vec![(1, 2), (2, 3)];
    let ids = compute_critical_path(&nodes, &pairs).unwrap();
    assert_eq!(ids, vec![1, 2, 3]);
    let graph = build_graph(&nodes, &pairs);
    assert_eq!(graph.path_weight(&ids), Some(3 * (u64::MAX as u128)));
}

#[test]
fn path_weight_of_unknown_task_is_nothing() {
    let nodes = vec![TaskNode { id: 1, weight: 2 }];
    let graph = build_graph(&nodes, &Vec::new());
    assert_eq!(graph.path_weight(&vec![1, 2]), None);
    assert_eq!(graph.path_weight(&vec![1, 1]), Some(4));
    assert_eq!(graph.path_weight(&Vec::new()), Some(0));
}

#[test]
fn deleted_tasks_and_their_dependencies_take_no_part() {
    let a = Uuid::new_v4();
    let b = Uuid::new_v4();
    let c = Uuid::new_v4();
    let mut gone = task(b, Some(50));
    gone.deleted_at = Some(1_700_000_000);
    let rows = vec![task(a, Some(2)), gone, task(c, Some(3))];
    let deps = vec![dependency(a, b), dependency(b, c), dependency(a, c)];

    let graph = project_graph(&rows, &deps);
    assert_eq!(graph.task_count(), 2);
    assert!(!graph.contains_task(b.as_u128()));
    assert!(graph.has_dependency(a.as_u128(), c.as_u128()));
    assert!(!graph.has_dependency(a.as_u128(), b.as_u128()));

    let ids = get_project_critical_path(&rows, &deps).unwrap().task_ids;
    assert_eq!(ids, vec![a.as_u128(), c.as_u128()]);
    assert_eq!(graph.path_weight(&ids), Some(5));
}

#[test]
fn weight_of_a_stored_task_comes_from_its_dates_where_it_has_no_duration() {
    let a = Uuid::new_v4();
    let b = Uuid::new_v4();
    let rows = vec![
        TaskRow {
            id: a.as_u128(),
            duration_days: None,
            start_date: Some(0),
            end_date: Some(86_400 * 7),
            deleted_at: None,
        },
        task(b, Some(3)),
    ];
    let graph = project_graph(&rows, &Vec::new());
    assert_eq!(graph.weight_of(a.as_u128()), Some(7));
    assert_eq!(graph.weight_of(b.as_u128()), Some(3));
    let ids = get_project_critical_path(&rows, &Vec::new()).unwrap().task_ids;
    assert_eq!(ids, vec![a.as_u128()]);
}
