//! A certification registry: issuers attest skill/level pairs for users and
//! may later revoke them. The registry is an append-only, id-indexed store of
//! certificates whose operations preserve three invariants: ids are assigned
//! by a monotonic counter and never reused, no certificate attests its own
//! issuer, and a user holds at most one Active certificate per skill.

pub mod registry;
pub mod codec;
