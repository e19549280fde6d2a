//! Package universe and dependency-resolver core for a Debian-style package
//! manager.
//!
//! The universe interns package names, architectures and version constraints
//! into dense integer ids, indexes every concrete package candidate
//! (solvable), answers the clause solver's queries (candidates, filtering,
//! dependency materialization, candidate ordering), and orders a finished
//! solution by strongly-connected components of its dependency graph.
pub mod bytes;
pub mod graph;
pub mod laws;
pub mod model;
pub mod provider;
pub mod universe;
pub mod version;
