use tdc::views::{comes_after, sort_by_order};
use tdc::{Graph, GraphError, Task, TaskOrder, TaskStatus};

fn ids(entries: &[(usize, &Task)]) -> Vec<usize> {
    entries.iter().map(|entry| entry.0).collect()
}

#[test]
fn traversal_is_depth_first_from_selected_tasks() {
    let mut graph = Graph::new();
    let a = graph.insert(Task::new("a"));
    let b = graph.insert(Task::new("b"));
    let c = graph.insert(Task::new("c"));
    let d = graph.insert(Task::new("d"));
    let e = graph.insert(Task::new("e"));
    graph.insert_dependency(e, c).unwrap();
    graph.insert_dependency(e, a).unwrap();
    graph.insert_dependency(c, d).unwrap();
    graph.insert_dependency(b, d).unwrap();
    assert!(graph.traverse_selected().is_empty());
    graph.set_status(e, TaskStatus::Selected).unwrap();
    assert_eq!(ids(&graph.traverse_selected()), vec![e, c, d, a]);
    graph.set_status(b, TaskStatus::Selected).unwrap();
    assert_eq!(ids(&graph.traverse_selected()), vec![b, d, e, c, a]);
    for (id, task) in graph.traverse_selected() {
        assert_eq!(graph.get(id).unwrap(), task);
    }
}

#[test]
fn traversal_meets_each_task_once() {
    let mut graph = Graph::new();
    let h0 = graph.insert(Task::new("h0"));
    let h1 = graph.insert(Task::new("h1"));
    let h2 = graph.insert(Task::new("h2"));
    graph.insert_dependency(h2, h0).unwrap();
    graph.insert_dependency(h2, h1).unwrap();
    graph.insert_dependency(h1, h0).unwrap();
    graph.select_all();
    let found = ids(&graph.traverse_selected());
    assert_eq!(found, vec![h0, h1, h2]);
    graph.deselect_all();
    graph.set_status(h2, TaskStatus::Selected).unwrap();
    assert_eq!(ids(&graph.traverse_selected()), vec![h2, h0, h1]);
}

#[test]
fn finished_roots_are_not_walked() {
    let mut graph = Graph::new();
    let a = graph.insert(Task::new("a"));
    let b = graph.insert(Task::new("b"));
    graph.insert_dependency(b, a).unwrap();
    graph.set_status(a, TaskStatus::Finished).unwrap();
    graph.set_status(b, TaskStatus::Selected).unwrap();
    assert_eq!(ids(&graph.traverse_selected()), vec![b, a]);
    graph.set_status(b, TaskStatus::Finished).unwrap();
    assert!(graph.traverse_selected().is_empty());
}

#[test]
fn todo_list_puts_doable_first_then_by_order() {
    let mut graph = Graph::new();
    let a = graph.insert(Task::new("a"));
    let b = graph.insert(Task::new("b"));
    let c = graph.insert(Task::new("c"));
    let d = graph.insert(Task::new("d"));
    let e = graph.insert(Task::new("e"));
    graph.insert_dependency(d, a).unwrap();
    graph.insert_dependency(e, b).unwrap();
    graph.select_all();
    assert_eq!(ids(&graph.traverse_selected()), vec![a, b, c, d, e]);
    assert_eq!(ids(&graph.todo_list(false)), vec![a, b, c]);
    assert_eq!(ids(&graph.todo_list(true)), vec![a, b, c, d, e]);
    graph.set_order(c, TaskOrder::Order(1)).unwrap();
    graph.set_order(a, TaskOrder::Order(5)).unwrap();
    graph.set_order(e, TaskOrder::Order(-3)).unwrap();
    assert_eq!(ids(&graph.todo_list(false)), vec![c, a, b]);
    assert_eq!(ids(&graph.todo_list(true)), vec![c, a, b, e, d]);
    graph.set_order(b, TaskOrder::Order(5)).unwrap();
    assert_eq!(ids(&graph.todo_list(false)), vec![c, a, b]);
    graph.set_order(b, TaskOrder::Order(4)).unwrap();
    assert_eq!(ids(&graph.todo_list(false)), vec![c, b, a]);
}

#[test]
fn todo_list_without_all_shows_tasks_without_dependencies() {
    let mut graph = Graph::new();
    let a = graph.insert(Task::new("a"));
    let b = graph.insert(Task::new("b"));
    graph.insert_dependency(b, a).unwrap();
    graph.set_status(b, TaskStatus::Selected).unwrap();
    assert_eq!(ids(&graph.todo_list(false)), vec![a]);
    assert_eq!(ids(&graph.todo_list(true)), vec![a, b]);
    graph.set_status(a, TaskStatus::Finished).unwrap();
    assert_eq!(ids(&graph.todo_list(false)), vec![a]);
    assert_eq!(ids(&graph.todo_list(true)), vec![a, b]);
    graph.remove_dependency(b, a).unwrap();
    assert_eq!(ids(&graph.todo_list(false)), vec![b]);
}

#[test]
fn listing_puts_selected_first_and_finished_last() {
    let mut graph = Graph::new();
    let a = graph.insert(Task::new("a"));
    let b = graph.insert(Task::new("b"));
    let c = graph.insert(Task::new("c"));
    let d = graph.insert(Task::new("d"));
    assert_eq!(ids(&graph.list()), vec![a, b, c, d]);
    graph.set_status(a, TaskStatus::Finished).unwrap();
    graph.set_status(c, TaskStatus::Selected).unwrap();
    graph.set_status(d, TaskStatus::Selected).unwrap();
    assert_eq!(ids(&graph.list()), vec![c, d, b, a]);
    let all = graph.iter();
    assert_eq!(ids(&graph.sort_by_selection(&all)), vec![c, d, b, a]);
}

#[test]
fn order_hints_compare_with_last_at_the_end() {
    assert!(comes_after(TaskOrder::Last, TaskOrder::Order(i32::MAX)));
    assert!(!comes_after(TaskOrder::Order(i32::MAX), TaskOrder::Last));
    assert!(!comes_after(TaskOrder::Last, TaskOrder::Last));
    assert!(comes_after(TaskOrder::Order(2), TaskOrder::Order(1)));
    assert!(!comes_after(TaskOrder::Order(1), TaskOrder::Order(1)));
    assert!(!comes_after(TaskOrder::Order(-1), TaskOrder::Order(0)));
    assert!(TaskOrder::Order(7) < TaskOrder::Last);
    assert!(TaskOrder::Order(-7) < TaskOrder::Order(7));
}

#[test]
fn sorting_by_order_is_stable() {
    let mut tasks = Vec::new();
    for (name, order) in [("a", 2), ("b", 1), ("c", 2), ("d", 1), ("e", 0)] {
        let mut task = Task::new(name);
        task.order = TaskOrder::Order(order);
        tasks.push(task);
    }
    tasks.push(Task::new("f"));
    tasks.insert(2, Task::new("g"));
    let entries: Vec<(usize, &Task)> = tasks.iter().enumerate().collect();
    let sorted = sort_by_order(&entries);
    let names: Vec<&str> = sorted.iter().map(|entry| entry.1.name.as_str()).collect();
    assert_eq!(names, vec!["e", "b", "d", "a", "c", "g", "f"]);
    assert!(sort_by_order(&Vec::new()).is_empty());
}

#[test]
fn views_of_an_empty_graph() {
    let graph = Graph::new();
    assert!(graph.traverse_selected().is_empty());
    assert!(graph.todo_list(true).is_empty());
    assert!(graph.list().is_empty());
    assert_eq!(graph.doable(0), Err(GraphError::TaskNotFound));
}

#[test]
fn task_infos_put_doable_first() {
    let mut graph = Graph::new();
    let a = graph.insert(Task::new("a"));
    let b = graph.insert(Task::new("b"));
    let c = graph.insert(Task::new("c"));
    graph.insert_dependency(a, b).unwrap();
    graph.insert_dependency(b, c).unwrap();
    graph.set_order(c, TaskOrder::Order(9)).unwrap();
    graph.set_status(a, TaskStatus::Selected).unwrap();
    assert_eq!(graph.task_infos(), vec![(c, true), (a, false), (b, false)]);
    graph.set_status(c, TaskStatus::Finished).unwrap();
    assert_eq!(graph.task_infos(), vec![(c, true), (a, false), (b, false)]);
    assert!(Graph::new().task_infos().is_empty());
}
