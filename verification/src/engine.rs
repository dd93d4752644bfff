//! The parts of the engine that drive the storage layer.

pub mod metrics;
pub mod seqno;
pub mod writer;
pub mod recovery;
pub mod reader;
pub mod reader_laws;
