use s_curve::errors::GraphError;
use s_curve::models::dependency::{default_type, DependencyCreateRequest, TaskDependency};
use s_curve::models::dependency::resolve_edges;
use s_curve::models::task::{TaskNode, TaskRow};
use s_curve::routes::projects::{build_graph, project_graph};
use s_curve::routes::tasks::create_dependency;
use uuid::Uuid;

#[test]
fn test_task_dependencies() {
    let task1_id = Uuid::new_v4().as_u128();
    let task2_id = Uuid::new_v4().as_u128();
    let rows = vec![
        TaskRow {
            id: task1_id,
            duration_days: None,
            start_date: None,
            end_date: None,
            deleted_at: None,
        },
        TaskRow {
            id: task2_id,
            duration_days: None,
            start_date: None,
            end_date: None,
            deleted_at: None,
        },
    ];
    let mut stored: Vec<TaskDependency> = Vec::new();
    let mut graph = project_graph(&rows, &stored);

    // 1. Create Dependency T1 -> T2
    let payload = DependencyCreateRequest {
        source_task_id: task1_id,
        target_task_id: task2_id,
        type_: "finish_to_start".to_string(),
    };
    let dep = create_dependency(&mut graph, payload).unwrap();
    let dep_id = dep.id;
    stored.push(dep);

    // 2. List Dependencies
    assert_eq!(stored.len(), 1);
    assert_eq!(stored[0].id, dep_id);
    assert_eq!(stored[0].source_task_id, task1_id);
    assert_eq!(stored[0].target_task_id, task2_id);
    assert_eq!(stored[0].type_, "finish_to_start");
    assert!(graph.has_dependency(task1_id, task2_id));

    // 3. Try Reverse Dependency (Cycle) T2 -> T1
    let payload = DependencyCreateRequest {
        source_task_id: task2_id,
        target_task_id: task1_id,
        type_: "finish_to_start".to_string(),
    };
    let res = create_dependency(&mut graph, payload);
    assert!(res.is_err());
    assert_eq!(res.err(), Some(GraphError::ReverseExists));

    // 4. Try Self Dependency T1 -> T1
    let payload = DependencyCreateRequest {
        source_task_id: task1_id,
        target_task_id: task1_id,
        type_: "finish_to_start".to_string(),
    };
    let res = create_dependency(&mut graph, payload);
    assert!(res.is_err());
    assert_eq!(res.err(), Some(GraphError::SelfDependency));

    // 5. Delete Dependency
    stored.retain(|d| d.id != dep_id);

    // 6. Verify Deletion
    assert_eq!(stored.len(), 0);
    let graph = project_graph(&rows, &stored);
    assert!(!graph.has_dependency(task1_id, task2_id));
}

#[test]
fn created_dependency_carries_the_request_and_a_random_identifier() {
    let nodes = vec![TaskNode { id: 1, weight: 0 }, TaskNode { id: 2, weight: 0 }];
    let mut graph = build_graph(&nodes, &Vec::new());
    let before = chrono::Utc::now().timestamp_micros();
    let request =
        DependencyCreateRequest { source_task_id: 1, target_task_id: 2, type_: default_type() };
    let dep = create_dependency(&mut graph, request).unwrap();
    let after = chrono::Utc::now().timestamp_micros();
    assert_eq!(dep.source_task_id, 1);
    assert_eq!(dep.target_task_id, 2);
    assert_eq!(dep.type_, "finish_to_start");
    // a version 4 UUID of the standard variant
    assert_eq!((dep.id >> 76) & 0xF, 4);
    assert_eq!((dep.id >> 62) & 0x3, 2);
    assert!(before <= dep.created_at && dep.created_at <= after);
}

#[test]
fn dependency_record_is_assembled_from_its_parts() {
    let request = DependencyCreateRequest {
        source_task_id: 10,
        target_task_id: 20,
        type_: "start_to_start".to_string(),
    };
    let dep = TaskDependency::new(5, request, 1_700_000_000_000_000);
    assert_eq!(dep.id, 5);
    assert_eq!(dep.source_task_id, 10);
    assert_eq!(dep.target_task_id, 20);
    assert_eq!(dep.type_, "start_to_start");
    assert_eq!(dep.created_at, 1_700_000_000_000_000);
}

#[test]
fn default_kind_is_finish_to_start() {
    assert_eq!(default_type(), "finish_to_start");
}

#[test]
fn edges_are_resolved_by_their_source() {
    let nodes = vec![TaskNode { id: 1, weight: 0 }, TaskNode { id: 2, weight: 0 }];
    let graph = build_graph(&nodes, &Vec::new());
    let dep = |source: u128, target: u128| TaskDependency {
        id: 0,
        source_task_id: source,
        target_task_id: target,
        type_: default_type(),
        created_at: 0,
    };
    let deps = vec![dep(1, 2), dep(3, 1), dep(2, 9), dep(1, 2)];
    assert_eq!(resolve_edges(&graph, &deps), vec![(1, 2), (2, 9), (1, 2)]);
}
