use s_curve::errors::GraphError;
use s_curve::graph::TaskGraph;

fn graph_of(tasks: &[u128], pairs: &[(u128, u128)]) -> TaskGraph {
    let mut graph = TaskGraph::new();
    for id in tasks {
        graph.add_task(*id, 1);
    }
    for (s, t) in pairs {
        assert!(graph.insert_dependency(*s, *t));
    }
    graph
}

#[test]
fn self_dependency_is_refused() {
    let mut graph = graph_of(&[1, 2], &[]);
    assert_eq!(graph.check_dependency(1, 1), Err(GraphError::SelfDependency));
    assert_eq!(graph.create_dependency(2, 2), Err(GraphError::SelfDependency));
    assert!(!graph.has_dependency(2, 2));
}

#[test]
fn reverse_of_a_held_dependency_is_refused() {
    let mut graph = graph_of(&[1, 2], &[]);
    assert_eq!(graph.create_dependency(1, 2), Ok(()));
    assert_eq!(graph.create_dependency(2, 1), Err(GraphError::ReverseExists));
    assert!(graph.has_dependency(1, 2));
    assert!(!graph.has_dependency(2, 1));
}

#[test]
fn dependency_that_closes_a_chain_is_refused() {
    let mut graph = graph_of(&[1, 2, 3], &[]);
    assert_eq!(graph.create_dependency(1, 2), Ok(()));
    assert_eq!(graph.create_dependency(2, 3), Ok(()));
    assert_eq!(graph.create_dependency(3, 1), Err(GraphError::CycleDetected));
    assert!(!graph.has_dependency(3, 1));
}

#[test]
fn dependency_that_closes_a_long_chain_is_refused() {
    let tasks: Vec<u128> = (0..50).collect();
    let mut graph = graph_of(&tasks, &[]);
    for i in 0..49u128 {
        assert_eq!(graph.create_dependency(i, i + 1), Ok(()));
    }
    assert_eq!(graph.check_dependency(49, 0), Err(GraphError::CycleDetected));
    assert_eq!(graph.check_dependency(30, 10), Err(GraphError::CycleDetected));
    assert_eq!(graph.check_dependency(10, 30), Ok(()));
    assert_eq!(graph.check_dependency(11, 10), Err(GraphError::ReverseExists));
}

#[test]
fn unknown_task_is_reported_before_anything_else() {
    let graph = graph_of(&[1, 2], &[(1, 2)]);
    assert_eq!(graph.check_dependency(1, 9), Err(GraphError::TaskNotFound));
    assert_eq!(graph.check_dependency(9, 1), Err(GraphError::TaskNotFound));
    assert_eq!(graph.check_dependency(9, 9), Err(GraphError::TaskNotFound));
}

#[test]
fn second_dependency_between_the_same_tasks_is_accepted() {
    let mut graph = graph_of(&[1, 2], &[]);
    assert_eq!(graph.create_dependency(1, 2), Ok(()));
    assert_eq!(graph.create_dependency(1, 2), Ok(()));
    assert_eq!(graph.critical_path(), Ok(vec![1, 2]));
}

#[test]
fn accepted_dependencies_never_make_a_cycle() {
    // every ordered pair of eight tasks is requested, in an order that mixes
    // forward and backward requests; whatever is accepted must leave a graph
    // that can be ordered
    let tasks: Vec<u128> = (0..8).collect();
    let mut graph = graph_of(&tasks, &[]);
    let mut accepted = 0;
    for step in 0..64u128 {
        let s = (step * 5 + 3) % 8;
        let t = (step * 7 + step / 8) % 8;
        if graph.create_dependency(s, t).is_ok() {
            accepted += 1;
        }
        let order = graph.topological_order().expect("the guard let a cycle in");
        assert_eq!(order.len(), 8);
        assert!(graph.critical_path().is_ok());
    }
    assert!(accepted > 0);
}

#[test]
fn topological_order_puts_every_source_before_its_target() {
    let pairs = [(5, 1), (1, 3), (4, 3), (3, 2), (5, 2)];
    let graph = graph_of(&[1, 2, 3, 4, 5], &pairs);
    let order = graph.topological_order().unwrap();
    assert_eq!(order.len(), 5);
    for (s, t) in pairs {
        let ps = order.iter().position(|x| *x == s).unwrap();
        let pt = order.iter().position(|x| *x == t).unwrap();
        assert!(ps < pt);
    }
    // among the tasks that are free at one time the one added first comes first
    assert_eq!(order, vec![4, 5, 1, 3, 2]);
}

#[test]
fn reachability_follows_the_dependencies() {
    let graph = graph_of(&[1, 2, 3, 4], &[(1, 2), (2, 3)]);
    assert!(graph.reaches(1, 2));
    assert!(graph.reaches(1, 3));
    assert!(!graph.reaches(3, 1));
    assert!(!graph.reaches(1, 1));
    assert!(!graph.reaches(1, 4));
    assert!(!graph.reaches(1, 9));
    assert!(!graph.reaches(9, 1));
    let looped = graph_of(&[1, 2], &[(1, 2), (2, 1)]);
    assert!(looped.reaches(1, 1));
}

#[test]
fn guard_leaves_the_graph_alone_on_refusal() {
    let mut graph = graph_of(&[1, 2, 3], &[(1, 2), (2, 3)]);
    assert!(graph.create_dependency(3, 1).is_err());
    assert!(graph.create_dependency(7, 1).is_err());
    assert_eq!(graph.task_count(), 3);
    assert!(graph.contains_task(3));
    assert!(!graph.contains_task(7));
    assert_eq!(graph.critical_path(), Ok(vec![1, 2, 3]));
}

#[test]
fn errors_have_their_messages() {
    assert_eq!(GraphError::SelfDependency.message(), "Cannot link task to itself");
    assert_eq!(
        GraphError::ReverseExists.message(),
        "Cycle detected: reverse dependency already exists"
    );
    assert_eq!(
        GraphError::CycleDetected.message(),
        "Cycle detected: would create circular dependency"
    );
    assert_eq!(GraphError::TaskNotFound.message(), "task not found");
    assert_eq!(GraphError::GraphInvalid.message(), "dependency graph is not a DAG");
    assert!(GraphError::CycleDetected.is_client_error());
    assert!(GraphError::TaskNotFound.is_client_error());
    assert!(!GraphError::GraphInvalid.is_client_error());
    assert_eq!(GraphError::SelfDependency.status_code(), 400);
    assert_eq!(GraphError::ReverseExists.status_code(), 400);
    assert_eq!(GraphError::CycleDetected.status_code(), 400);
    assert_eq!(GraphError::TaskNotFound.status_code(), 404);
    assert_eq!(GraphError::GraphInvalid.status_code(), 500);
}
