//! A small terminal planner: a plain-text task database, a day table and a
//! week table, with the rules that turn between them verified.

pub mod config;
pub mod text;
pub mod files;
pub mod clock;
pub mod tables;
