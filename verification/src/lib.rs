//! A composition protocol for treating a fixed, heterogeneous group of typed
//! values (a bundle) as a single insertable/extractable unit.
//!
//! The protocol derives, for any aggregate of distinctly-typed members, a
//! deterministic canonical ordering over the members' type descriptors, and
//! two ownership-transferring operations: decomposition (move every member
//! out to caller-supplied destinations) and composition (reconstruct the
//! aggregate from a type-indexed supply of stored values, failing cleanly
//! when a member type is missing).

pub mod descriptor;
pub mod definition;
pub mod order;
pub mod transfer;
