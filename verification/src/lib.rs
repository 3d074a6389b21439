//! Core of an attenuated-capability-token verifier.
//!
//! A token is a chain of append-only blocks: an authority block that states
//! the maximal rights, followed by attenuation blocks that can only narrow
//! them through caveats. This crate holds the in-memory verification logic:
//! the interned symbol table shared across the chain, the fact/rule model
//! and its fixed-point evaluation, and the two-phase scoped check protocol
//! that decides whether a presented token authorizes a request.
//!
//! The cryptographic chain that binds and authenticates blocks on the wire
//! is a separate concern and is not part of this crate.

pub mod datalog;
pub mod laws;
pub mod symbols;
pub mod token;
