//! A consistent-hashing ring: string keys are assigned to backend hostnames
//! placed on a modular numeric ring, with virtual-node replication,
//! nearest-successor lookup, and minimal reassignment when the set of
//! backends changes. A small command parser drives membership updates.

pub mod commands;
pub mod laws;
pub mod model;
pub mod ring;

pub use commands::read_line;
pub use commands::Command;
pub use ring::HashRing;
pub use ring::ServerLocation;
