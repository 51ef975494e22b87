//! Task-dependency graph engine of a project tracker: cycle-guarded
//! insertion of dependencies, topological ordering and critical-path
//! computation over a project's tasks, with the plain data types around it.

pub mod authz;
pub mod dag;
pub mod db;
pub mod errors;
pub mod events;
pub mod graph;
pub mod longest;
pub mod model;
pub mod models;
pub mod reach;
pub mod routes;
pub mod toposort;
pub mod utils;
