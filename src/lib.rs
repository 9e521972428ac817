//! An in-memory cognitive graph store: lineages whose energy decays with time,
//! bonds that carry signals between them, and a ternary decision layer that
//! arbitrates retention.

pub mod bond;
pub mod decay;
pub mod engine;
pub mod protocol;
pub mod psyche;
pub mod setun;
pub mod snapshot;
pub mod stability;
pub mod strata;
pub mod synapse;
pub mod unit;
