//! A task runner's execution core: the dependency graph of tasks and its
//! order, the cache gate that lets an unchanged task be skipped, the planning of
//! file watches, debouncing, the step machines of a single run and of a watch
//! session, and the coordinator that lets one interrupt cancel every session.
//! The shell, the file-system notifier and the interrupt handler are driven by
//! the caller, which reports what they did as events.

pub mod cache;
pub mod coordinator;
pub mod debounce;
pub mod graph;
pub mod listing;
pub mod paths;
pub mod resolve;
pub mod run_loop;
pub mod session;
pub mod task;
