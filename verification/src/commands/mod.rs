//! What the commands of the program decide and print.

pub mod completions;
pub mod list;
pub mod run;
