//! Name codec, name order, settings documents and path resolution.

pub mod encoding;
pub mod fs;
pub mod json;
pub mod sorting;
pub mod text;
