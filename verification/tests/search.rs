use tdc::search::{found_by_verdicts, keep_marked, match_text};
use tdc::{Graph, InvalidPattern, Task, TaskStatus};

fn sample() -> (Graph, usize, usize, usize) {
    let mut graph = Graph::new();
    let keys = graph.insert(Task::new("Find Keys"));
    let wallet = graph.insert(Task::new("find wallet"));
    let groceries = graph.insert(Task::new("Get Groceries"));
    (graph, keys, wallet, groceries)
}

fn ids(entries: &[(usize, &Task)]) -> Vec<usize> {
    entries.iter().map(|entry| entry.0).collect()
}

#[test]
fn substring_with_case() {
    let (graph, keys, wallet, groceries) = sample();
    assert_eq!(ids(&graph.find_by_name("Find", true)), vec![keys]);
    assert_eq!(ids(&graph.find_by_name("find", true)), vec![wallet]);
    assert_eq!(ids(&graph.find_by_name("e", true)), vec![keys, wallet, groceries]);
    assert_eq!(ids(&graph.find_by_name("", true)), vec![keys, wallet, groceries]);
    assert!(graph.find_by_name("Find Keys!", true).is_empty());
    assert_eq!(ids(&graph.find_by_name("Get Groceries", true)), vec![groceries]);
}

#[test]
fn substring_without_case() {
    let (graph, keys, wallet, groceries) = sample();
    assert_eq!(ids(&graph.find_by_name("find", false)), vec![keys, wallet]);
    assert_eq!(ids(&graph.find_by_name("FIND", false)), vec![keys, wallet]);
    assert_eq!(ids(&graph.find_by_name("groc", false)), vec![groceries]);
    assert!(graph.find_by_name("xyz", false).is_empty());
}

#[test]
fn glob_patterns() {
    let (graph, keys, wallet, groceries) = sample();
    assert_eq!(ids(&graph.find_by_glob("Find*", true).unwrap()), vec![keys]);
    assert_eq!(ids(&graph.find_by_glob("find*", false).unwrap()), vec![keys, wallet]);
    assert_eq!(ids(&graph.find_by_glob("*e*", true).unwrap()), vec![keys, wallet, groceries]);
    assert_eq!(ids(&graph.find_by_glob("Get Gr?ceries", true).unwrap()), vec![groceries]);
    assert_eq!(ids(&graph.find_by_glob("G[a-f]t*", true).unwrap()), vec![groceries]);
    assert!(graph.find_by_glob("Find", true).unwrap().is_empty());
}

#[test]
fn invalid_glob_pattern() {
    let (graph, _, _, _) = sample();
    let fault = graph.find_by_glob("a***", true).unwrap_err();
    assert_eq!(fault.pos, 3);
    assert_eq!(fault.msg, "wildcards are either regular `*` or recursive `**`");
    let fault = graph.find_by_glob("[", true).unwrap_err();
    assert_eq!(fault.pos, 0);
    assert_eq!(fault.msg, "invalid range pattern");
    assert!(graph.find("[", true, true).is_err());
    assert!(graph.find("[", false, true).unwrap().is_empty());
    let empty = Graph::new();
    assert!(empty.find_by_glob("[", true).is_err());
}

#[test]
fn find_shows_selected_first() {
    let (mut graph, keys, wallet, groceries) = sample();
    graph.set_status(wallet, TaskStatus::Selected).unwrap();
    graph.set_status(keys, TaskStatus::Finished).unwrap();
    assert_eq!(ids(&graph.find("e", false, true).unwrap()), vec![wallet, groceries, keys]);
    assert_eq!(ids(&graph.find("*", true, true).unwrap()), vec![wallet, groceries, keys]);
    assert_eq!(ids(&graph.find("FIND", false, false).unwrap()), vec![wallet, keys]);
    assert_eq!(ids(&graph.find("FIND*", true, false).unwrap()), vec![wallet, keys]);
    assert!(graph.find("FIND*", true, true).unwrap().is_empty());
}

#[test]
fn marked_entries_are_kept() {
    let a = Task::new("a");
    let b = Task::new("b");
    let c = Task::new("c");
    let entries = vec![(4, &a), (7, &b), (9, &c)];
    assert_eq!(ids(&keep_marked(&entries, &vec![true, false, true])), vec![4, 9]);
    assert_eq!(ids(&keep_marked(&entries, &vec![false, false, false])), Vec::<usize>::new());
    assert_eq!(ids(&keep_marked(&entries, &vec![true, true, true])), vec![4, 7, 9]);
    assert!(keep_marked(&Vec::new(), &Vec::new()).is_empty());
}

#[test]
fn plain_patterns_are_never_refused() {
    let (graph, keys, _, _) = sample();
    for pattern in ["", "abc", "a*b*c?", "]", "!", "a]b", "*", "?*?", "-", "Find Keys"] {
        assert!(graph.find_by_glob(pattern, true).is_ok(), "{pattern}");
        assert!(graph.find_by_glob(pattern, false).is_ok(), "{pattern}");
        assert!(Graph::new().find_by_glob(pattern, true).unwrap().is_empty());
    }
    assert_eq!(ids(&graph.find_by_glob("Find Keys", true).unwrap()), vec![keys]);
    assert!(graph.find_by_glob("a**b", true).is_err());
    assert!(graph.find_by_glob("[a", true).is_err());
}

#[test]
fn verdicts_decide_what_is_found() {
    let a = Task::new("a");
    let b = Task::new("b");
    let entries = vec![(2, &a), (5, &b)];
    let found = found_by_verdicts(&entries, Ok(vec![false, true])).unwrap();
    assert_eq!(ids(&found), vec![5]);
    assert_eq!(found[0].1, &b);
    let found = found_by_verdicts(&entries, Ok(vec![true, true])).unwrap();
    assert_eq!(ids(&found), vec![2, 5]);
    let fault = InvalidPattern { pos: 4, msg: String::from("invalid range pattern") };
    assert_eq!(found_by_verdicts(&entries, Err(fault.clone())), Err(fault.clone()));
    assert_eq!(found_by_verdicts(&Vec::new(), Err(fault.clone())), Err(fault));
    assert!(found_by_verdicts(&Vec::new(), Ok(Vec::new())).unwrap().is_empty());
}

#[test]
fn texts_as_the_matcher_gets_them() {
    assert_eq!(match_text("Find Keys", true), "Find Keys");
    assert_eq!(match_text("Find Keys", false), "FIND KEYS");
    assert_eq!(match_text("", false), "");
    assert_eq!(match_text("a*b?", false), "A*B?");
}

#[test]
fn find_never_refuses_a_plain_pattern() {
    let (graph, keys, wallet, _) = sample();
    for pattern in ["", "abc", "find*", "?", "]"] {
        assert!(graph.find(pattern, true, true).is_ok(), "{pattern}");
        assert!(graph.find(pattern, true, false).is_ok(), "{pattern}");
    }
    assert_eq!(ids(&graph.find("find*", true, false).unwrap()), vec![keys, wallet]);
    assert_eq!(ids(&graph.find("find*", true, true).unwrap()), vec![wallet]);
}
