//! Stable two-sided matching by deferred acceptance.
//!
//! Two populations of equal size, the proposers and the proposees, are
//! paired so that no proposer and proposee would both rather have each other
//! than their partners. Every entity ranks the whole other side; the
//! proposers propose in the order of their rankings, and the proposees hold
//! on to the best proposer they have seen.
//!
//! - [`ranking`]: preference lists as permutations of places.
//! - [`matching`]: stable pairings and the one that is best for the proposers.
//! - [`courtship`], [`consistency`], [`run`]: the procedure as a sequence of
//!   snapshots, its invariant, and what follows for whole runs.
//! - [`state`], [`engine`]: the procedure itself, on tables of places.
//! - [`marriage`]: the same for populations of entities told apart by `==`.
//! - [`random`], [`person`]: entities that rank each other at random.
//! - [`lines`]: lists of names, one to a line.

pub mod consistency;
pub mod courtship;
pub mod engine;
pub mod lines;
pub mod marriage;
pub mod matching;
pub mod person;
pub mod random;
pub mod ranking;
pub mod run;
pub mod state;
