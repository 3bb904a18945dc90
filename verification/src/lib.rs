//! A parallel build orchestrator for C projects in the conventional package
//! layout: a typed dependency graph of interface, library and executable
//! targets, a pure instructor that turns a node into compile and link
//! instructions, a worker pool that runs them and correlates results by job
//! id, and a scheduler that drives the build in dependency order.
pub mod configurator;
pub mod dependency_graph;
pub mod filesystem;
pub mod instructor;
pub mod scheduler;
pub mod strings;
pub mod target_data;
pub mod toolchain;
pub mod work_pool;
