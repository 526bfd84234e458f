//! Error taxonomy of the wiring generator.
//!
//! Every failure is terminal for the run: either generation fully
//! succeeds, or one of these diagnostics is produced and no source is
//! emitted. Each diagnostic embeds the concrete type keys and provider
//! paths involved, so it is directly presentable.

use vstd::prelude::*;

verus! {

/// One type key registered by more than one declaration, with every
/// colliding canonical path, in registration order.
#[derive(Debug)]
pub struct ConflictEntry {
    pub key: String,
    pub paths: Vec<String>,
}

/// Why synthesis of the generated source failed.
#[derive(Debug)]
pub enum GenerationFault {
    /// A fallible provider feeds a target whose generated function cannot
    /// propagate failure.
    FallibleProvider { path: String },
    /// A dependency key had no bound variable when its call site was
    /// generated.
    UnboundDependency { key: String },
}

/// A terminal diagnostic of graph building, resolution or synthesis.
#[derive(Debug)]
pub enum WireError {
    /// Some type key received more than one declaration.
    Conflict { entries: Vec<ConflictEntry> },
    /// A required type key has no provider, exactly or fuzzily. Carries
    /// the requested key and every registered key.
    NotFound { requested: String, available: Vec<String> },
    /// A dependency cycle is reachable from the target. Carries the
    /// ordered chain of canonical provider paths around the cycle.
    Cycle { chain: Vec<String> },
    /// The resolved plan cannot be turned into source text.
    Generation { fault: GenerationFault },
}

} // verus!
