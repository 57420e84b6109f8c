use vstd::prelude::*;

verus! {

/// Fatal conditions of the trace analysis. Every one aborts the run:
/// no partial result is ever produced.
#[derive(Clone, Copy, Debug, PartialEq, Eq, Structural)]
pub enum ProfError {
    /// An instruction address needed at a frame-boundary step is absent
    /// from the program map.
    MissingDebugInfo,
    /// A scope chain whose length is neither 2 nor 3 was met at a
    /// frame-boundary step.
    MalformedScopeChain,
    /// Zero profiles, or more than one, carry the "no caller" marker.
    NoRootFound,
    /// The sum of proper instruction counts disagrees with the trace length.
    InstructionCountMismatch,
    /// A return step names a function that no earlier call step created.
    UnknownFunction,
    /// Cumulative-cost or tree recursion ran out of depth: the call graph
    /// holds an indirect cycle.
    UnboundedRecursion,
    /// A cumulative instruction count does not fit the counter type.
    CumulOverflow,
}

} // verus!
