//! Core engine of a personal task tracker: hierarchical tasks with manual
//! ordering, categories with visibility, a single pomodoro session shared by
//! any number of tasks, a read-only projection for display, and a
//! deterministic text codec for persistence.
//!
//! Every time-dependent operation takes the current time as an explicit
//! parameter (seconds since the UNIX epoch), so the engine is deterministic
//! and the host owns the clock.

pub mod model;
pub mod database;
pub mod session;
pub mod numbers;
pub mod view;
pub mod selection;
pub mod storage;
