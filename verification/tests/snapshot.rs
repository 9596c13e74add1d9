use tdc::snapshot::{handles_distinct, texts_distinct};
use tdc::{Graph, GraphError, Task, TaskOrder, TaskStatus};

fn task(name: &str, dependencies: Vec<usize>) -> Task {
    Task::from_parts(
        String::from(name),
        TaskStatus::Deselected,
        TaskOrder::Last,
        Vec::new(),
        dependencies,
    )
}

#[test]
fn task_from_parts() {
    let built = Task::from_parts(
        String::from("a"),
        TaskStatus::Finished,
        TaskOrder::Order(4),
        vec![String::from("x"), String::from("y")],
        vec![3, 1],
    );
    assert_eq!(built.name, "a");
    assert_eq!(built.status(), TaskStatus::Finished);
    assert_eq!(built.order, TaskOrder::Order(4));
    assert_eq!(built.tags(), &[String::from("x"), String::from("y")]);
    assert_eq!(built.dependencies(), &[3, 1]);
    assert_eq!(task("b", vec![]), Task::new("b"));
}

#[test]
fn restore_keeps_handles() {
    let graph = Graph::restore(vec![
        (5, task("five", vec![2])),
        (2, task("two", vec![])),
        (9, task("nine", vec![5, 2])),
    ])
    .unwrap();
    assert_eq!(graph.len(), 3);
    assert_eq!(graph.get(5).unwrap().name, "five");
    assert_eq!(graph.get(2).unwrap().name, "two");
    assert_eq!(graph.get(9).unwrap().dependencies(), &[5, 2]);
    assert!(graph.get(0).is_none());
    assert!(graph.get(3).is_none());
    let ids: Vec<usize> = graph.iter().iter().map(|entry| entry.0).collect();
    assert_eq!(ids, vec![2, 5, 9]);
    assert!(graph.is_valid());
    assert_eq!(graph.is_reachable(9, 2), Ok(true));
}

#[test]
fn restore_then_insert_uses_a_vacant_handle() {
    let mut graph = Graph::restore(vec![(1, task("one", vec![])), (3, task("three", vec![1]))]).unwrap();
    let fresh = graph.insert(Task::new("fresh"));
    assert!(fresh != 1 && fresh != 3);
    assert_eq!(graph.get(1).unwrap().name, "one");
    assert_eq!(graph.get(3).unwrap().name, "three");
    assert_eq!(graph.get(fresh).unwrap().name, "fresh");
    assert_eq!(graph.len(), 3);
}

#[test]
fn restore_of_nothing_is_empty() {
    let graph = Graph::restore(Vec::new()).unwrap();
    assert!(graph.is_empty());
}

#[test]
fn restore_takes_the_last_of_two_with_one_handle() {
    let graph = Graph::restore(vec![(0, task("old", vec![])), (0, task("new", vec![]))]).unwrap();
    assert_eq!(graph.len(), 1);
    assert_eq!(graph.get(0).unwrap().name, "new");
}

#[test]
fn restore_refuses_what_is_no_graph() {
    let dangling = Graph::restore(vec![(0, task("a", vec![1]))]);
    assert_eq!(dangling.unwrap_err(), GraphError::GraphParseError);
    let own = Graph::restore(vec![(0, task("a", vec![0]))]);
    assert_eq!(own.unwrap_err(), GraphError::GraphParseError);
    let cycle = Graph::restore(vec![
        (0, task("a", vec![1])),
        (1, task("b", vec![2])),
        (2, task("c", vec![0])),
    ]);
    assert_eq!(cycle.unwrap_err(), GraphError::GraphParseError);
    let twice = Graph::restore(vec![(0, task("a", vec![])), (1, task("b", vec![0, 0]))]);
    assert_eq!(twice.unwrap_err(), GraphError::GraphParseError);
    let tags = Task::from_parts(
        String::from("a"),
        TaskStatus::Deselected,
        TaskOrder::Last,
        vec![String::from("x"), String::from("x")],
        Vec::new(),
    );
    assert_eq!(Graph::restore(vec![(0, tags)]).unwrap_err(), GraphError::GraphParseError);
}

#[test]
fn a_graph_accepts_tasks_that_fit() {
    let mut graph = Graph::new();
    let a = graph.insert(Task::new("a"));
    assert!(graph.accepts_task(&Task::new("b")));
    assert!(graph.accepts_task(&task("b", vec![a])));
    assert!(!graph.accepts_task(&task("b", vec![a, a])));
    assert!(!graph.accepts_task(&task("b", vec![a + 1])));
    let b = graph.insert(task("b", vec![a]));
    assert_eq!(graph.get(b).unwrap().dependencies(), &[a]);
    assert!(graph.is_valid());
}

#[test]
fn a_graph_written_through_get_mut_can_be_checked() {
    let mut graph = Graph::new();
    let a = graph.insert(Task::new("a"));
    assert!(graph.is_valid());
    *graph.get_mut(a).unwrap() = task("a", vec![a]);
    assert!(!graph.is_valid());
    *graph.get_mut(a).unwrap() = task("a", vec![a + 5]);
    assert!(!graph.is_valid());
    *graph.get_mut(a).unwrap() = task("a", vec![]);
    assert!(graph.is_valid());
}

#[test]
fn distinct_lists() {
    assert!(handles_distinct(&vec![]));
    assert!(handles_distinct(&vec![1, 2, 3]));
    assert!(!handles_distinct(&vec![1, 2, 1]));
    assert!(texts_distinct(&vec![String::from("a"), String::from("b")]));
    assert!(!texts_distinct(&vec![String::from("a"), String::from("a")]));
}

#[test]
fn reachability_on_a_graph_with_a_cycle() {
    let mut graph = Graph::new();
    let a = graph.insert(Task::new("a"));
    let b = graph.insert(Task::new("b"));
    let c = graph.insert(Task::new("c"));
    let d = graph.insert(Task::new("d"));
    *graph.get_mut(a).unwrap() = task("a", vec![b]);
    *graph.get_mut(b).unwrap() = task("b", vec![a, d]);
    assert!(!graph.is_valid());
    assert_eq!(graph.is_reachable(a, b), Ok(true));
    assert_eq!(graph.is_reachable(b, a), Ok(true));
    assert_eq!(graph.is_reachable(a, d), Ok(true));
    assert_eq!(graph.is_reachable(a, c), Ok(false));
    assert_eq!(graph.is_reachable(d, a), Ok(false));
    assert_eq!(graph.is_reachable(a, a), Ok(true));
    assert_eq!(graph.len(), 4);
}

#[test]
fn restore_takes_handles_far_apart() {
    let graph = Graph::restore(vec![(1000, task("far", vec![3])), (3, task("near", vec![]))]).unwrap();
    assert_eq!(graph.len(), 2);
    assert_eq!(graph.get(1000).unwrap().dependencies(), &[3]);
    assert!(graph.get(999).is_none());
}
