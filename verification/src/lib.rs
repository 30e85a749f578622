//! Conversion of Makefile-style dependency listings ("target: prerequisite...")
//! into an ordered, deduplicated collection of entries, ready for JSON output.
//!
//! The pipeline is: a byte-level rule scanner ([`dependency::DependencyParser`]),
//! a merge pass that folds rules with equal targets together while keeping
//! first-seen order, and a JSON serializer ([`json::JsonSerializer`]).
//! [`hash::PathHasher`] is the fingerprint hash backing the dedup structures.

pub mod args;
pub mod dependency;
pub mod hash;
pub mod json;
pub mod merge;
pub mod scan;
pub mod term;
