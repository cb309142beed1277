//! Core columnar execution engine: typed, nullable, chunked column storage
//! behind a type-erased `Series` handle, an ordered `DataFrame` of such
//! columns, and a binary interchange codec that persists and restores the
//! structure with projection pushdown, row limiting and row-count synthesis.
pub mod boolean;
pub mod chunked;
pub mod codec;
pub mod compress;
pub mod error;
pub mod hashing;
pub mod ipc;
pub mod frame;
pub mod groups;
pub mod series;

