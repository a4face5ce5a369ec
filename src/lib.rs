//! A small task tracker: task records, and the plain-text format that a task
//! list is stored in.

pub mod task;
pub mod text;
pub mod storage;
pub mod quotes;
pub mod commands;
pub mod laws;
