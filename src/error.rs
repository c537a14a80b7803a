use vstd::prelude::*;

verus! {

/// The kinds of failure that the library reports.
#[derive(Clone, Copy, Debug, PartialEq, Eq, Structural)]
pub enum LauncherError {
    /// A malformed key combination, or one without a modifier.
    InvalidCombination,
    /// The operating system refused the registration: another application holds it.
    AlreadyClaimed,
    /// A discovery root or a target path is missing.
    NotFound,
    /// The filesystem or the operating system denied access.
    PermissionDenied,
    /// The persisted bindings could not be read, written or understood.
    PersistenceFailure,
    /// A target could not be started.
    LaunchFailure,
}

} // verus!
