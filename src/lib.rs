pub mod definition;
pub mod dot;
pub mod optimize;
pub mod probability;
pub mod quorum;
pub mod semantics;
pub mod term;
