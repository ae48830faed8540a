//! Materialises named provider settings as one file per provider and keeps
//! that directory consistent with the provider store.
//!
//! The library decides; the program around it touches the disk. Every
//! operation that would read or change a file takes what was read as an
//! argument and returns the steps to perform.

pub mod error;
pub mod utils;
pub mod config;
pub mod db;
pub mod commands;
