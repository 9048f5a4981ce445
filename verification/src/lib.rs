//! A verified index-maintenance engine for a personal task list.
//!
//! The store keeps tasks with a dense, 1-based display position; every
//! mutation (append, insert with shifting, mark done, stable sort, remove)
//! is specified and proved to keep positions contiguous, names unique, and
//! identifiers stable.

pub mod commands;
pub mod store;
pub mod task;
pub mod text;
