use s_curve::errors::GraphError;
use s_curve::models::dependency::TaskDependency;
use s_curve::models::task::{TaskNode, TaskRow};
use s_curve::routes::projects::{
    build_graph, compute_critical_path, get_project_critical_path, project_graph,
};
use uuid::Uuid;

fn task(id: u128, duration_days: Option<i64>) -> TaskRow {
    TaskRow { id, duration_days, start_date: None, end_date: None, deleted_at: None }
}

fn dependency(source: u128, target: u128) -> TaskDependency {
    TaskDependency {
        id: Uuid::new_v4().as_u128(),
        source_task_id: source,
        target_task_id: target,
        type_: "finish_to_start".to_string(),
        created_at: chrono::Utc::now().timestamp_micros(),
    }
}

#[test]
fn test_cycle_detection_returns_error() {
    let a = Uuid::new_v4().as_u128();
    let b = Uuid::new_v4().as_u128();
    let c = Uuid::new_v4().as_u128();

    let rows = vec![
        task(a, Some(1)),
        task(b, Some(1)),
        task(c, Some(1)),
    ];
    // dependencies forming cycle
    let deps = vec![dependency(a, b), dependency(b, c), dependency(c, a)];

    let res = get_project_critical_path(&rows, &deps);
    assert!(res.is_err(), "expected error for cyclic dependency graph");
    assert_eq!(res.err(), Some(GraphError::GraphInvalid));
}

#[test]
fn test_disconnected_graph_picks_longest_component() {
    let a = Uuid::new_v4().as_u128();
    let b = Uuid::new_v4().as_u128();
    let c = Uuid::new_v4().as_u128();
    let d = Uuid::new_v4().as_u128();
    let e = Uuid::new_v4().as_u128();

    let rows = vec![
        // comp1
        task(a, Some(2)),
        task(b, Some(3)),
        // comp2
        task(c, Some(1)),
        task(d, Some(4)),
        task(e, Some(4)),
    ];
    let deps = vec![dependency(a, b), dependency(c, d), dependency(d, e)];

    let ids = get_project_critical_path(&rows, &deps).unwrap().task_ids;

    // Expect component C->D->E to be chosen
    assert_eq!(ids.len(), 3);
    assert_eq!(ids[0], c);
    assert_eq!(ids[1], d);
    assert_eq!(ids[2], e);
}

#[test]
fn test_equal_length_paths_returns_valid_path_of_expected_length() {
    let a = Uuid::new_v4().as_u128();
    let b = Uuid::new_v4().as_u128();
    let c = Uuid::new_v4().as_u128();
    let x = Uuid::new_v4().as_u128();
    let y = Uuid::new_v4().as_u128();

    let rows = vec![
        // A->B->C durations: 2 + 2 + 2 = 6
        task(a, Some(2)),
        task(b, Some(2)),
        task(c, Some(2)),
        // X->Y durations: 3 + 3 = 6
        task(x, Some(3)),
        task(y, Some(3)),
    ];
    let deps = vec![dependency(a, b), dependency(b, c), dependency(x, y)];

    let ids = get_project_critical_path(&rows, &deps).unwrap().task_ids;
    let graph = project_graph(&rows, &deps);

    let mut total_duration: u64 = 0;
    for id in ids.iter() {
        total_duration += graph.weight_of(*id).unwrap();
    }
    assert_eq!(total_duration, 6);
    assert_eq!(graph.path_weight(&ids), Some(6));
    assert_eq!(graph.critical_weight(), Ok(6));
    assert!(ids == vec![a, b, c] || ids == vec![x, y]);
    // Validate chaining: for every consecutive pair, ensure dependency exists
    for w in ids.windows(2) {
        let src = w[0];
        let tgt = w[1];
        assert!(
            graph.has_dependency(src, tgt),
            "consecutive pair {:?}->{:?} must be a dependency",
            src,
            tgt
        );
    }
}

#[test]
fn test_zero_duration_tasks() {
    let a = Uuid::new_v4().as_u128();
    let b = Uuid::new_v4().as_u128();
    let c = Uuid::new_v4().as_u128();

    let rows = vec![
        task(a, None),
        task(b, None),
        task(c, None),
    ];
    let deps = vec![dependency(a, b), dependency(b, c)];

    let ids = get_project_critical_path(&rows, &deps).unwrap().task_ids;
    let graph = project_graph(&rows, &deps);

    assert!(ids.len() >= 1 && ids.len() <= 3, "unexpected path length: {}", ids.len());

    // Ensure total duration is 0
    let mut total: u64 = 0;
    for id in ids.iter() {
        total += graph.weight_of(*id).unwrap();
    }
    assert_eq!(total, 0);

    // Validate chaining for consecutive pairs (if any)
    for w in ids.windows(2) {
        let src = w[0];
        let tgt = w[1];
        assert!(
            graph.has_dependency(src, tgt),
            "consecutive pair {:?}->{:?} must be a dependency",
            src,
            tgt
        );
    }
}

#[test]
fn cycle_behind_a_sound_chain_is_still_reported() {
    let nodes = vec![
        TaskNode { id: 1, weight: 1 },
        TaskNode { id: 2, weight: 1 },
        TaskNode { id: 3, weight: 1 },
        TaskNode { id: 4, weight: 1 },
    ];
    let pairs = vec![(1, 2), (2, 3), (3, 4), (4, 3)];
    assert_eq!(compute_critical_path(&nodes, &pairs).err(), Some(GraphError::GraphInvalid));
    let graph = build_graph(&nodes, &pairs);
    assert!(graph.topological_order().is_none());
    assert_eq!(graph.critical_weight(), Err(GraphError::GraphInvalid));
}

#[test]
fn stored_self_dependency_is_a_cycle() {
    let nodes = vec![TaskNode { id: 1, weight: 1 }];
    let pairs = vec![(1, 1)];
    assert_eq!(compute_critical_path(&nodes, &pairs).err(), Some(GraphError::GraphInvalid));
}
