//! The error kinds that protocol operations report.

use vstd::prelude::*;

verus! {

/// Every recoverable error the control plane reports.  Each operation's
/// contract states exactly which inputs produce which variant.
#[derive(Clone, Copy, Debug, PartialEq, Eq, Structural)]
pub enum OrcError {
    /// `define` or `define_materializing` named a symbol that already has a
    /// definition in the target namespace, or the same request named one
    /// symbol twice.
    DuplicateDefinition,
    /// A namespace with the requested name already exists in the session.
    DuplicateNamespace,
    /// An operation referenced a symbol outside the responsibility it was
    /// addressed to, or one that is no longer pending under it.
    UnknownSymbol,
    /// `notify_emitted` was called while some symbol of the responsibility
    /// was not yet resolved, or after a dependency of one of its symbols had
    /// failed.
    PrematureEmission,
    /// `add_dependencies` would have made the dependence graph cyclic.
    DependencyCycle,
}

} // verus!
