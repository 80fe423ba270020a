//! A directed acyclic graph of scalar operations (named inputs, addition,
//! multiplication, sine, raising to a fixed power) with pull-based evaluation
//! and a memoization cache keyed on dependency-value snapshots.
//!
//! Scalars are carried as opaque 32-bit patterns; the arithmetic itself is
//! performed by the caller, one operation at a time, through the `poll` /
//! `record` interface on [`graph::Graph`]: `poll` either returns the root's
//! value or names the one arithmetic step still missing, whose result the
//! caller hands back with `record`, until `poll` reports the value. Each
//! round resolves one more node, so the loop finishes within as many rounds
//! as the graph has nodes. Everything else — graph construction, the
//! transitive dependency sets, the cache and its validity, and the order of
//! evaluation — is verified here; the [`laws`] module states and proves the
//! dependency-union, memoization and cache-validity properties.

pub mod eval;
pub mod graph;
pub mod laws;
pub mod op;
