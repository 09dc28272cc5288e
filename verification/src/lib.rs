//! Discovery of the transitive dependency closure of packages in a
//! semver-versioned registry, honoring optional-dependency and feature-flag
//! semantics.
//!
//! The exploration engine accumulates per-package demand (feature tokens and
//! version ranges), decides when a package's dependency set must be
//! (re)computed, and derives the demand that each dependency edge places on
//! further packages. Network fetches and worker dispatch are left to the
//! caller, which feeds fetch results back through the engine's entry points.

pub mod demand;
pub mod error;
pub mod semver_api;
pub mod records;
pub mod demand_map;
pub mod cache_map;
pub mod derivation;
pub mod engine;
pub mod registry;
