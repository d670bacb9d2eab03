//! Fleet-health logic of the supervictor IoT platform, verified with Verus.

pub mod calendar;
pub mod edge;
pub mod cli;
pub mod error;
pub mod fleet;
pub mod json;
pub mod middleware;
pub mod models;
pub mod store;
pub mod text;
pub mod ui;
pub mod watchdog;
pub mod time;
