//! Incremental build core: a dependency graph over build units with
//! topological batching and cycle detection, a fingerprint store that
//! remembers what each unit looked like when it was last built, a
//! scheduler that decides which units are dirty and in what order they
//! may be compiled, and a build report that accounts for every unit.
//!
//! The core works on plain values (unit identities, fingerprints,
//! compile results); reading sources, invoking a compiler and persisting
//! the store are left to the surrounding program.

pub mod dirty;
pub mod fingerprint;
pub mod graph;
pub mod scaffold;
pub mod schedule;
