//! Verified core of a package-manager dependency resolver.
//!
//! Given root package summaries and access to a registry of package
//! metadata, the resolver picks exactly one version per package name so
//! that every declared dependency constraint is satisfied, or reports a
//! precise conflict.  This crate holds the verified parts: the data
//! model (versions, sources, packages, requirements), the memoizing
//! shared index, the constraint-provider decisions, and the solution
//! validator.  The concurrent shell that drives fetches and the
//! backtracking search loop lives outside and feeds plain values in.

pub mod extern_types;
pub mod index;
pub mod pkg;
pub mod provider;
pub mod ranges;
pub mod requirement;
pub mod resolver;
pub mod rpc;
pub mod source;
pub mod version;
