pub mod handlers;
pub mod sanitize;
pub mod config;
