//! Pages: immutable sorted runs of records with a self-describing header.

pub mod header;
pub mod builder;
pub mod lookup;
pub mod reader;
