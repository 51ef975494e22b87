pub mod auth;
pub mod health;
pub mod projects;
pub mod tasks;
