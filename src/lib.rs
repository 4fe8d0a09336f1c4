//! Failure-domain discovery from network adjacency, and the placement
//! hierarchy update that groups leaf devices into one bucket per domain.

pub mod names;
pub mod partition;
pub mod hierarchy;
pub mod augment;
pub mod rule;
pub mod unit;
pub mod facts;
