use vstd::prelude::*;

verus! {

/// Everything that can go wrong while building a dependency graph or
/// scheduling a closure upload.
#[derive(Debug)]
pub enum ClosureError {
    /// An artifact's reference list names an identity that is not present in
    /// the closure. Carries the offending identity.
    MalformedReference(String),
    /// No progress is possible: artifacts remain pending but none of them is
    /// ready. Carries the identities still pending (the suspected cycle
    /// members).
    CycleDetected(Vec<String>),
    /// `mark_uploaded` was called with an identity that is not a node of the
    /// graph. Carries that identity.
    UnknownArtifact(String),
    /// `mark_uploaded` was called with an identity that is already uploaded.
    /// Carries that identity.
    AlreadyUploaded(String),
}

} // verus!
