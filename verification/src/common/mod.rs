//! Types shared by the cache managers and the scheduler.

pub mod evictor;
pub mod protocols;
pub mod random;
pub mod sequence;
pub mod sequence_laws;
pub mod sequence_model;
pub mod sequence_signals;
pub mod tokens;
