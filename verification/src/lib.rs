//! A deductive rule-evaluation engine.
//!
//! Given a logic program (derivation rules plus base facts), the engine
//! computes the set of derivable facts by iterating the rules to a fixpoint,
//! stratum by stratum, and exposes each derived predicate's extension as an
//! enumerable, serializable table.

use vstd::prelude::*;

pub mod bound;
pub mod engine;
pub mod model;
pub mod output;
pub mod strata;
pub mod table;

verus! {

/// Every failure the engine or its output pipeline can report.
#[derive(Clone, Copy, Debug, PartialEq, Eq, Structural)]
pub enum EngineError {
    /// Inconsistent predicate arities, or a reference to an undeclared
    /// predicate or constant.
    SchemaError,
    /// The program cannot be safely evaluated: a rule uses a variable in its
    /// head or in a negated atom that no positive body atom binds.
    InitializationError,
    /// Negation occurs inside a recursive stratum, so no stratification
    /// exists.
    UnstratifiableProgramError,
    /// A safety violation was found during evaluation, or results were
    /// requested from an engine that has not executed.
    ExecutionError,
    /// The output directory cannot be created or is not writable.
    PathError,
    /// The target output file exists and overwriting is disabled.
    FileExistsError,
    /// A write to an output stream failed.
    IoError,
    /// The external rule-language parser rejected its input.
    ParseError,
}

} // verus!
