pub mod dependency;
pub mod progress;
pub mod project;
pub mod rbac;
pub mod task;
pub mod user;
