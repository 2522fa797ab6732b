//! An in-memory task tracker: a store of tasks with unique titles and ids that
//! are never reused, status and tag updates, and keyword, priority and status
//! queries.

pub mod error;
pub mod laws;
pub mod shell;
pub mod store;
pub mod task;
pub mod text;

pub use error::TaskError;
pub use shell::CLI;
pub use store::TaskManager;
pub use task::{Priority, Task, TaskStatus};
