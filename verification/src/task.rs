//! Tasks and their scheduling.

pub mod manager;
pub mod processor;
pub mod task;
