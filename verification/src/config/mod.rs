//! The provider document, the extraction of its providers and the cache of
//! materialised settings files.

pub mod cache;
pub mod manager;
pub mod parser;
