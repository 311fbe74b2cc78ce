//! Error taxonomy of the build engine.
//!
//! Each pipeline stage fails fast with one of these variants; outer stages
//! wrap the proximate cause with stage-identifying context so a caller sees
//! both what failed and where.

use vstd::prelude::*;

verus! {

/// Why dependency resolution failed.
#[derive(Debug)]
pub enum ResolveError {
    /// No available version of the named package satisfies the constraint
    /// placed on it.
    Unsatisfiable { name: String },
    /// A version was already chosen for the named package, and a later
    /// constraint on the same name rejects that version.
    Incompatible { name: String },
    /// The declared dependency graph contains a cycle.
    Cycle,
}

/// A failed external process invocation.
#[derive(Debug)]
pub enum ProcessError {
    /// The process could not be started at all (for example, the executable
    /// does not exist).  No output is available in this case.
    StartFailure { command: String, detail: String },
    /// The process ran but exited unsuccessfully.  `code` is `None` when the
    /// process was terminated without an exit code; `output` carries the
    /// captured streams when the invocation captured them.
    ExitFailure { command: String, code: Option<i32>, output: Option<crate::process_builder::ProcessOutput> },
}

/// Any failure of the pipeline.
#[derive(Debug)]
pub enum CargoError {
    /// A configuration value had the wrong shape.
    Config { detail: String },
    /// Dependency resolution failed.
    Resolution { kind: ResolveError },
    /// A package could not be materialized from its source.
    Source { name: String, version: u64, detail: String },
    /// An external process invocation failed.
    Process { error: ProcessError },
    /// Compilation of one package failed; the build stops here.
    CompileFailed { name: String, version: u64, cause: Box<CargoError> },
    /// A failure from an inner stage, wrapped with context naming the stage.
    Wrapped { context: String, cause: Box<CargoError> },
}

impl CargoError {
    /// Wraps an error with stage-identifying context, as each pipeline
    /// stage does when propagating a failure from a stage below it.
    pub fn wrap(self, context: String) -> (r: CargoError)
        ensures
            r == (CargoError::Wrapped { context, cause: Box::new(self) }),
    {
        CargoError::Wrapped { context, cause: Box::new(self) }
    }
}

} // verus!
