//! A fixed-size worker pool whose dispatch and teardown are verified, with the
//! configuration and request routing of the small HTTP server that runs on it.

pub mod config;
pub mod pool;
pub mod routing;
