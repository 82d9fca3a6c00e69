//! Task management: task control blocks, the ready queue and deadlock
//! detection.
pub mod deadlock_detector;
pub mod manager;
pub mod task;
