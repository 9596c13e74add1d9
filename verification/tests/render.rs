use tdc::config::{config_path, graph_path};
use tdc::render::{decimal_text, handles_text, joined_text};
use tdc::{Config, ConfigError, Graph, GraphError, Task, TaskOrder, APP_NAME};

#[test]
fn numbers_in_decimal() {
    assert_eq!(decimal_text(0), "0");
    assert_eq!(decimal_text(7), "7");
    assert_eq!(decimal_text(10), "10");
    assert_eq!(decimal_text(1234567890), "1234567890");
    assert_eq!(decimal_text(u64::MAX), "18446744073709551615");
}

#[test]
fn order_hints_as_text() {
    assert_eq!(TaskOrder::Last.text(), "");
    assert_eq!(TaskOrder::Order(0).text(), "0");
    assert_eq!(TaskOrder::Order(42).text(), "42");
    assert_eq!(TaskOrder::Order(-5).text(), "-5");
    assert_eq!(TaskOrder::Order(i32::MAX).text(), "2147483647");
    assert_eq!(TaskOrder::Order(i32::MIN).text(), "-2147483648");
}

#[test]
fn lists_joined_by_commas() {
    assert_eq!(handles_text(&[]), "");
    assert_eq!(handles_text(&[3]), "3");
    assert_eq!(handles_text(&[3, 0, 12]), "3,0,12");
    assert_eq!(joined_text(&[]), "");
    assert_eq!(joined_text(&[String::from("a")]), "a");
    assert_eq!(joined_text(&[String::from("a"), String::from(""), String::from("bc")]), "a,,bc");
}

#[test]
fn dependencies_as_text() {
    let mut graph = Graph::new();
    let a = graph.insert(Task::new("a"));
    let b = graph.insert(Task::new("b"));
    let c = graph.insert(Task::new("c"));
    graph.insert_dependency(c, b).unwrap();
    graph.insert_dependency(c, a).unwrap();
    assert_eq!(graph.get(c).unwrap().dependencies_text(), format!("{b},{a}"));
    assert_eq!(graph.get(a).unwrap().dependencies_text(), "");
    assert_eq!(graph.get(a).unwrap().tags_text(), "");
}

#[test]
fn tree_of_a_task() {
    let mut graph = Graph::new();
    let keys = graph.insert(Task::new("Find Keys"));
    let wallet = graph.insert(Task::new("Find Wallet"));
    let car = graph.insert(Task::new("Start Car"));
    let groceries = graph.insert(Task::new("Get Groceries"));
    graph.insert_dependency(car, keys).unwrap();
    graph.insert_dependency(groceries, car).unwrap();
    graph.insert_dependency(groceries, wallet).unwrap();
    graph.insert_dependency(groceries, keys).unwrap();
    let expected = format!(
        "{groceries}) Get Groceries\n    {car}) Start Car\n        {keys}) Find Keys\n    {wallet}) Find Wallet\n    {keys}) Find Keys\n"
    );
    assert_eq!(graph.tree(groceries), Ok(expected));
    assert_eq!(graph.tree(keys), Ok(format!("{keys}) Find Keys\n")));
    assert_eq!(graph.tree(77), Err(GraphError::TaskNotFound));
}

#[test]
fn tree_of_a_long_chain_is_whole() {
    let mut graph = Graph::new();
    let mut previous = graph.insert(Task::new("t"));
    let first = previous;
    for _ in 0..20 {
        let next = graph.insert(Task::new("t"));
        graph.insert_dependency(next, previous).unwrap();
        previous = next;
    }
    let text = graph.tree(previous).unwrap();
    assert_eq!(text.lines().count(), 21);
    let last_line = text.lines().last().unwrap();
    assert_eq!(last_line, format!("{}{first}) t", "    ".repeat(20)));
}

#[test]
fn paths_below_the_home_directory() {
    assert_eq!(APP_NAME, "tdc");
    assert_eq!(config_path("/home/ada"), "/home/ada/.config/tdc/config.ron");
    assert_eq!(graph_path("/home/ada"), "/home/ada/.local/share/tdc/graph.ron");
    assert_eq!(config_path(""), "/.config/tdc/config.ron");
    let config = Config::initial("/home/ada");
    assert_eq!(config.graph_path, "/home/ada/.local/share/tdc/graph.ron");
    assert_eq!(config, Config { graph_path: graph_path("/home/ada") });
}

#[test]
fn config_error_messages() {
    assert_eq!(ConfigError::HomeDirError.message(), "Failed to get home directory");
    assert_eq!(ConfigError::ConfigParseError.message(), "Failed to parse config file");
    assert_eq!(ConfigError::IOError(String::from("disk full")).message(), "disk full");
}
