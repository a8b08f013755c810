//! Populations that carry their own stream and problem.

pub mod common;
pub mod minimum;
pub mod using_db;
