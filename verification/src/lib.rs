//! Program lifecycle management: a registry of external program descriptors
//! with verified command decomposition, identifier sanitization and
//! uniquification, configuration migration and repair, duplicate-launch
//! confirmation, and an ordered shutdown plan that signals every other
//! managed process before the host's own.
//!
//! File and process side effects (reading configuration, spawning, killing)
//! happen at the edges: either behind small trusted wrappers over outside
//! crates, or in the surrounding application, which hands the results back
//! to the verified core as plain values.

pub mod boundary;
pub mod command;
pub mod ident;
pub mod launch;
pub mod probe;
pub mod registry;
pub mod shutdown;
pub mod text;
