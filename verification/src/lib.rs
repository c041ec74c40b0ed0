//! A crowd-sourced trust-scoring registry.
//!
//! Pseudonymous identities cast boolean trust votes against named entries;
//! the registry aggregates each entry's votes into a public score unless an
//! authority pins a permanent override verdict. Voting is idempotent per
//! identity, pinning freezes an entry's tally forever, and the privileged
//! calls (pinning, extending the authority set) are gated on membership in a
//! grow-only authority set.

pub mod model;
pub mod registry;
pub mod laws;
