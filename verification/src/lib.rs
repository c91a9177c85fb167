//! A generalized filter lock (the N-process extension of Peterson's mutual
//! exclusion algorithm), modeled as a sequentially consistent transition
//! system and verified.
//!
//! The crate has three parts, leaves first:
//!
//! * [`oracle`] — the race oracle: a single exclusive-access flag whose only
//!   job is to detect violations of mutual exclusion.
//! * [`lock`] — the shared protocol state: one `flag` slot per process, one
//!   `turn` slot per level, and the blocking predicate.
//! * [`harness`] — the interleaving model: each worker is a small program
//!   counter, and every shared-memory access of the protocol is one atomic
//!   step. Mutual exclusion is proved as an inductive invariant of this
//!   transition system, so the oracle can never fire while the blocking
//!   predicate is enabled.

pub mod harness;
pub mod lock;
pub mod oracle;
