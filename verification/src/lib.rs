//! Core engine of a source-package build tool.
//!
//! Given a root package's manifest data, the engine collects the package
//! sources that should be consulted (including locally configured override
//! paths), resolves a consistent, acyclic assignment of versions for the
//! full transitive dependency graph, materializes the resolved packages,
//! and produces a compile plan that respects the dependency order.  A
//! process-invocation value type describes each external compiler call with
//! a precisely controlled environment.
//!
//! All file, network and process side effects live outside this crate: the
//! functions here work on plain values (the loaded configuration, the
//! catalog of available packages, the observed outcome of a spawned
//! process) so that every decision the engine makes is verified.

pub mod config;
pub mod errors;
pub mod ops;
pub mod orchestrate;
pub mod order;
pub mod package;
pub mod process_builder;
pub mod registry;
pub mod resolver;
pub mod source_id;
