//! Engine of an interactive process-memory scanner: a typed value codec,
//! enumeration of a target's memory regions, block-wise pattern search with
//! narrowing scans, a watchlist of pinned addresses, and the cross-process
//! read/write primitives behind it all.

pub mod codec;
pub mod dec;
pub mod hexfmt;
pub mod maps;
pub mod mem;
pub mod proc;
pub mod render;
pub mod scan;
pub mod search;
pub mod ui;
