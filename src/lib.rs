//! An online judge: problem catalog, user directory, contest registry, job
//! store, the judging state machine and the ranking engine.
pub mod config;
pub mod contests;
pub mod error;
pub mod jobs;
pub mod judger;
pub mod ranking;
mod sorting;
pub mod text;
pub mod time;
pub mod users;

pub use text::{standard_compare, strict_compare};
