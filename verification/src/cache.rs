//! Caches for immutable pages.

pub mod lru;
mod links;
