//! A local workflow executor: dependency resolution between jobs, and the
//! decisions of a sequential, fail-fast run of their steps.
pub mod workflow;
pub mod graph;
pub mod resolver;
pub mod env;
pub mod engine;
pub mod output;
