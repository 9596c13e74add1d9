//! A personal task list whose items form a dependency graph.
//!
//! Tasks live in an arena and are addressed by integer handles. A task may
//! depend on other tasks; the dependency relation is kept acyclic and free of
//! dangling handles by every operation of [`Graph`].

pub mod arena;
pub mod closure;
pub mod config;
pub mod edges;
pub mod error;
pub mod graph;
pub mod handles;
pub mod laws;
pub mod listing;
pub mod model;
pub mod reach;
pub mod relation;
pub mod render;
pub mod search;
pub mod snapshot;
pub mod status;
pub mod tags;
pub mod task;
pub mod traverse;
pub mod tree;
pub mod views;

pub use config::{Config, ConfigError, APP_NAME};
pub use error::GraphError;
pub use graph::Graph;
pub use search::InvalidPattern;
pub use task::{Task, TaskId, TaskOrder, TaskStatus, TaskView};
