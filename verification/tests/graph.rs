use tdc::{Graph, GraphError, Task, TaskStatus};

#[test]
fn lib_test_insertion_and_retrieval() {
    let mut graph = Graph::new();
    let find_keys_id = graph.insert(Task::new("Find Keys"));
    let find_wallet_id = graph.insert(Task::new("Find Wallet"));
    let find_keys = graph.get(find_keys_id).unwrap();
    let find_wallet = graph.get(find_wallet_id).unwrap();
    assert_eq!(find_keys, &Task::new("Find Keys"));
    assert_eq!(find_wallet, &Task::new("Find Wallet"));
}

#[test]
fn graph_test_insertion_and_retrieval() {
    let mut graph = Graph::new();
    let find_keys_id = graph.insert(Task::new("Find Keys"));
    let find_wallet_id = graph.insert(Task::new("Find Wallet"));
    let find_keys = graph.get(find_keys_id).unwrap();
    let find_wallet = graph.get(find_wallet_id).unwrap();
    assert_eq!(find_keys, &Task::new("Find Keys"));
    assert_eq!(find_wallet, &Task::new("Find Wallet"));
}

#[test]
fn test_insert_with_children() {
    let mut graph = Graph::new();
    let find_keys_id = graph.insert(Task::new("Find Keys"));
    let find_wallet_id = graph.insert(Task::new("Find Wallet"));
    let get_groceries_id = graph
        .insert_with_children(Task::new("Get Groceries"), vec![find_keys_id, find_wallet_id])
        .unwrap();
    let get_groceries = graph.get(get_groceries_id).unwrap();
    assert_eq!(get_groceries.name.as_str(), "Get Groceries");
    assert_eq!(get_groceries.children(), &[find_keys_id, find_wallet_id]);
}

#[test]
fn test_insert_child() {
    let mut graph = Graph::new();
    let find_keys_id = graph.insert(Task::new("Find Keys"));
    let find_wallet_id = graph.insert(Task::new("Find Wallet"));
    let get_groceries_id = graph.insert(Task::new("Get Groceries"));
    graph.insert_child(get_groceries_id, find_keys_id).unwrap();
    graph.insert_child(get_groceries_id, find_wallet_id).unwrap();
    let get_groceries = graph.get(get_groceries_id).unwrap();
    assert_eq!(get_groceries.name.as_str(), "Get Groceries");
    assert_eq!(get_groceries.children(), &[find_keys_id, find_wallet_id]);
}

#[test]
fn test_removal_with_children() {
    let mut graph = Graph::new();
    let find_keys_id = graph.insert(Task::new("Find Keys"));
    let find_wallet_id = graph.insert(Task::new("Find Wallet"));
    let get_groceries_id = graph
        .insert_with_children(Task::new("Get Groceries"), vec![find_keys_id, find_wallet_id])
        .unwrap();
    graph.remove(find_keys_id);
    let get_groceries = graph.get(get_groceries_id).unwrap();
    assert_eq!(get_groceries.children(), &[find_wallet_id]);
    graph.remove(find_wallet_id);
    let get_groceries = graph.get(get_groceries_id).unwrap();
    assert_eq!(get_groceries.children(), &[] as &[usize]);
}

#[test]
fn graph_test_insert_dependency() {
    let mut graph = Graph::new();
    let find_keys_id = graph.insert(Task::new("Find Keys"));
    let find_wallet_id = graph.insert(Task::new("Find Wallet"));
    let get_groceries_id = graph.insert(Task::new("Get Groceries"));
    graph.insert_dependency(get_groceries_id, find_keys_id).unwrap();
    graph.insert_dependency(get_groceries_id, find_wallet_id).unwrap();
    let get_groceries = graph.get(get_groceries_id).unwrap();
    assert_eq!(get_groceries.name.as_str(), "Get Groceries");
    assert_eq!(get_groceries.dependencies(), &[find_keys_id, find_wallet_id]);
}

#[test]
fn lib_test_insert_dependency() {
    let mut graph = Graph::new();
    let find_keys_id = graph.insert(Task::new("Find Keys"));
    let find_wallet_id = graph.insert(Task::new("Find Wallet"));
    let get_groceries_id = graph.insert(Task::new("Get Groceries"));
    graph.insert_dependency(get_groceries_id, find_keys_id).unwrap();
    graph.insert_dependency(get_groceries_id, find_wallet_id).unwrap();
    let get_groceries = graph.get(get_groceries_id).unwrap();
    assert_eq!(get_groceries.name.as_str(), "Get Groceries");
    assert_eq!(get_groceries.dependencies(), &[find_keys_id, find_wallet_id]);
}

#[test]
fn graph_test_removal_with_dependencies() {
    let mut graph = Graph::new();
    let find_keys_id = graph.insert(Task::new("Find Keys"));
    let find_wallet_id = graph.insert(Task::new("Find Wallet"));
    let get_groceries_id = graph.insert(Task::new("Get Groceries"));
    graph.insert_dependency(get_groceries_id, find_keys_id).unwrap();
    graph.insert_dependency(get_groceries_id, find_wallet_id).unwrap();
    graph.remove(find_keys_id);
    let get_groceries = graph.get(get_groceries_id).unwrap();
    assert_eq!(get_groceries.dependencies(), &[find_wallet_id]);
    graph.remove(find_wallet_id);
    let get_groceries = graph.get(get_groceries_id).unwrap();
    assert_eq!(get_groceries.dependencies(), &[] as &[usize]);
}

#[test]
fn lib_test_removal_with_dependencies() {
    let mut graph = Graph::new();
    let find_keys_id = graph.insert(Task::new("Find Keys"));
    let find_wallet_id = graph.insert(Task::new("Find Wallet"));
    let get_groceries_id = graph.insert(Task::new("Get Groceries"));
    graph.insert_dependency(get_groceries_id, find_keys_id).unwrap();
    graph.insert_dependency(get_groceries_id, find_wallet_id).unwrap();
    graph.remove(find_keys_id);
    let get_groceries = graph.get(get_groceries_id).unwrap();
    assert_eq!(get_groceries.dependencies(), &[find_wallet_id]);
    graph.remove(find_wallet_id);
    let get_groceries = graph.get(get_groceries_id).unwrap();
    assert_eq!(get_groceries.dependencies(), &[] as &[usize]);
}

#[test]
fn self_dependency_is_a_cycle() {
    let mut graph = Graph::new();
    let h0 = graph.insert(Task::new("Find Keys"));
    assert_eq!(graph.insert_dependency(h0, h0), Err(GraphError::CycleDetected));
    assert_eq!(graph.get(h0).unwrap().dependencies(), &[] as &[usize]);
}

#[test]
fn back_edge_is_a_cycle() {
    let mut graph = Graph::new();
    let h0 = graph.insert(Task::new("a"));
    let h1 = graph.insert(Task::new("b"));
    assert_eq!(graph.insert_dependency(h0, h1), Ok(()));
    assert_eq!(graph.insert_dependency(h1, h0), Err(GraphError::CycleDetected));
    assert_eq!(graph.get(h1).unwrap().dependencies(), &[] as &[usize]);
    assert_eq!(graph.get(h0).unwrap().dependencies(), &[h1]);
}

#[test]
fn long_back_edge_is_a_cycle() {
    let mut graph = Graph::new();
    let h0 = graph.insert(Task::new("a"));
    let h1 = graph.insert(Task::new("b"));
    let h2 = graph.insert(Task::new("c"));
    let h3 = graph.insert(Task::new("d"));
    graph.insert_dependency(h0, h1).unwrap();
    graph.insert_dependency(h1, h2).unwrap();
    graph.insert_dependency(h0, h3).unwrap();
    graph.insert_dependency(h3, h2).unwrap();
    assert_eq!(graph.is_reachable(h0, h2), Ok(true));
    assert_eq!(graph.is_reachable(h2, h0), Ok(false));
    assert_eq!(graph.is_reachable(h1, h3), Ok(false));
    assert_eq!(graph.insert_dependency(h2, h0), Err(GraphError::CycleDetected));
    assert_eq!(graph.insert_dependency(h2, h2), Err(GraphError::CycleDetected));
}

#[test]
fn shared_dependency_is_visited_once() {
    let mut graph = Graph::new();
    let h0 = graph.insert(Task::new("a"));
    let h1 = graph.insert(Task::new("b"));
    let h2 = graph.insert(Task::new("c"));
    graph.insert_dependency(h2, h0).unwrap();
    graph.set_status(h0, TaskStatus::Selected).unwrap();
    graph.set_status(h2, TaskStatus::Selected).unwrap();
    let ids: Vec<usize> = graph.traverse_selected().iter().map(|entry| entry.0).collect();
    assert_eq!(ids, vec![h0, h2]);
    assert_eq!(ids.iter().filter(|id| **id == h0).count(), 1);
    let _ = h1;
}
