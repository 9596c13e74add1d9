use tdc::{Graph, GraphError, Task, TaskStatus};

fn chain() -> (Graph, usize, usize, usize) {
    let mut graph = Graph::new();
    let keys = graph.insert(Task::new("Find Keys"));
    let wallet = graph.insert(Task::new("Find Wallet"));
    let groceries = graph.insert(Task::new("Get Groceries"));
    graph.insert_dependency(groceries, keys).unwrap();
    graph.insert_dependency(groceries, wallet).unwrap();
    (graph, keys, wallet, groceries)
}

#[test]
fn new_task_is_deselected() {
    let task = Task::new("x");
    assert_eq!(task.status(), TaskStatus::Deselected);
    assert!(!task.selected());
    assert_eq!(TaskStatus::default(), TaskStatus::Deselected);
}

#[test]
fn select_and_deselect() {
    let (mut graph, keys, _, _) = chain();
    assert_eq!(graph.set_status(keys, TaskStatus::Selected), Ok(()));
    assert_eq!(graph.get(keys).unwrap().status(), TaskStatus::Selected);
    assert!(graph.get(keys).unwrap().selected());
    assert_eq!(graph.set_status(keys, TaskStatus::Deselected), Ok(()));
    assert_eq!(graph.get(keys).unwrap().status(), TaskStatus::Deselected);
    assert_eq!(graph.set_selected(keys, true), Ok(()));
    assert_eq!(graph.get(keys).unwrap().status(), TaskStatus::Selected);
    assert_eq!(graph.set_selected(keys, false), Ok(()));
    assert_eq!(graph.get(keys).unwrap().status(), TaskStatus::Deselected);
}

#[test]
fn status_of_a_vacant_handle() {
    let (mut graph, _, _, _) = chain();
    assert_eq!(graph.set_status(17, TaskStatus::Selected), Err(GraphError::TaskNotFound));
    assert_eq!(graph.set_selected(17, true), Err(GraphError::TaskNotFound));
    assert_eq!(graph.has_met_dependencies(17), Err(GraphError::TaskNotFound));
}

#[test]
fn finish_needs_finished_dependencies() {
    let (mut graph, keys, wallet, groceries) = chain();
    assert_eq!(
        graph.set_status(groceries, TaskStatus::Finished),
        Err(GraphError::TaskDependenciesUnmet)
    );
    assert_eq!(graph.get(groceries).unwrap().status(), TaskStatus::Deselected);
    assert_eq!(graph.set_status(keys, TaskStatus::Finished), Ok(()));
    assert_eq!(
        graph.set_status(groceries, TaskStatus::Finished),
        Err(GraphError::TaskDependenciesUnmet)
    );
    assert_eq!(graph.set_status(wallet, TaskStatus::Finished), Ok(()));
    assert_eq!(graph.set_status(groceries, TaskStatus::Finished), Ok(()));
    assert_eq!(graph.get(groceries).unwrap().status(), TaskStatus::Finished);
}

#[test]
fn finished_is_final() {
    let (mut graph, keys, _, _) = chain();
    graph.set_status(keys, TaskStatus::Finished).unwrap();
    assert_eq!(
        graph.set_status(keys, TaskStatus::Selected),
        Err(GraphError::CannotSelectFinishedTask)
    );
    assert_eq!(
        graph.set_status(keys, TaskStatus::Deselected),
        Err(GraphError::CannotDeselectFinishedTask)
    );
    assert_eq!(
        graph.set_status(keys, TaskStatus::Finished),
        Err(GraphError::CannotFinishFinishedTask)
    );
    assert_eq!(graph.set_selected(keys, true), Err(GraphError::CannotSelectFinishedTask));
    assert_eq!(graph.set_selected(keys, false), Err(GraphError::CannotDeselectFinishedTask));
    graph.select_all();
    assert_eq!(graph.get(keys).unwrap().status(), TaskStatus::Finished);
    graph.deselect_all();
    assert_eq!(graph.get(keys).unwrap().status(), TaskStatus::Finished);
    graph.set_selected_all(true);
    assert_eq!(graph.get(keys).unwrap().status(), TaskStatus::Finished);
    graph.rename(keys, String::from("Keys")).unwrap();
    assert_eq!(graph.get(keys).unwrap().status(), TaskStatus::Finished);
}

#[test]
fn bulk_selection_skips_finished() {
    let (mut graph, keys, wallet, groceries) = chain();
    graph.set_status(keys, TaskStatus::Finished).unwrap();
    graph.select_all();
    assert_eq!(graph.get(keys).unwrap().status(), TaskStatus::Finished);
    assert_eq!(graph.get(wallet).unwrap().status(), TaskStatus::Selected);
    assert_eq!(graph.get(groceries).unwrap().status(), TaskStatus::Selected);
    graph.deselect_all();
    assert_eq!(graph.get(keys).unwrap().status(), TaskStatus::Finished);
    assert_eq!(graph.get(wallet).unwrap().status(), TaskStatus::Deselected);
    assert_eq!(graph.get(groceries).unwrap().status(), TaskStatus::Deselected);
    graph.set_selected_all(true);
    assert_eq!(graph.get(wallet).unwrap().status(), TaskStatus::Selected);
    graph.set_selected_all(false);
    assert_eq!(graph.get(wallet).unwrap().status(), TaskStatus::Deselected);
}

#[test]
fn met_dependencies() {
    let (mut graph, keys, wallet, groceries) = chain();
    assert_eq!(graph.has_met_dependencies(keys), Ok(true));
    assert_eq!(graph.has_met_dependencies(groceries), Ok(false));
    graph.set_status(keys, TaskStatus::Finished).unwrap();
    assert_eq!(graph.has_met_dependencies(keys), Ok(false));
    assert_eq!(graph.has_met_dependencies(groceries), Ok(false));
    graph.set_status(wallet, TaskStatus::Finished).unwrap();
    assert_eq!(graph.has_met_dependencies(groceries), Ok(true));
}

#[test]
fn doable_means_no_dependencies() {
    let (mut graph, keys, wallet, groceries) = chain();
    assert_eq!(graph.doable(keys), Ok(true));
    assert_eq!(graph.doable(groceries), Ok(false));
    assert_eq!(graph.doable(99), Err(GraphError::TaskNotFound));
    assert!(graph.get(keys).unwrap().doable());
    assert!(!graph.get(groceries).unwrap().doable());
    graph.set_status(keys, TaskStatus::Finished).unwrap();
    graph.set_status(wallet, TaskStatus::Finished).unwrap();
    assert_eq!(graph.has_met_dependencies(groceries), Ok(true));
    assert_eq!(graph.doable(groceries), Ok(false));
    assert_eq!(graph.doable(keys), Ok(true));
    graph.clear_dependencies(groceries).unwrap();
    assert_eq!(graph.doable(groceries), Ok(true));
}

#[test]
fn error_messages() {
    assert_eq!(GraphError::TaskNotFound.message(), "Task not found");
    assert_eq!(GraphError::TaskDependenciesUnmet.message(), "Task has unmet dependencies");
    assert_eq!(GraphError::CycleDetected.message(), "Cycle detected");
    assert_eq!(GraphError::CannotSelectFinishedTask.message(), "Cannot select finished task");
    assert_eq!(GraphError::CannotDeselectFinishedTask.message(), "Cannot deselect finished task");
    assert_eq!(
        GraphError::CannotFinishFinishedTask.message(),
        "Cannot finish an already finished task"
    );
    assert_eq!(GraphError::GraphParseError.message(), "Failed to parse graph file");
}
