//! Error taxonomy: a flat set of kinds, each error carrying a message.

use vstd::prelude::*;

verus! {

/// What went wrong, as a flat taxonomy.
///
/// `IndexCache` is only ever produced while loading or storing the cache
/// snapshot and is always absorbed by a re-scan; every other kind is surfaced
/// to the caller.
#[derive(Debug, Clone, Copy, PartialEq, Eq, Structural)]
pub enum Kind {
    /// No home directory is resolvable.
    Environment,
    /// The cache snapshot could not be read, decoded or written.
    IndexCache,
    /// The common directory could not be enumerated.
    IndexReadDir,
    /// A version string was not `"major.minor"` nor `"experimental"`.
    VersionParse,
    /// A launch-toggle token was not recognised.
    ParseRuntimeOpt,
    /// The per-version compatibility-data directory could not be created.
    ProtonDir,
    /// The compatibility-tool executable does not exist.
    ProtonMissing,
    /// The target program does not exist.
    ProgramMissing,
    /// The requested runtime container is not installed.
    RuntimeMissing,
    /// Spawning the compatibility tool failed.
    ProtonSpawn,
    /// Spawning the runtime-wrapped invocation failed.
    ProtonExit,
    /// Waiting on the spawned child failed.
    ProtonWait,
}

/// An error: a [`Kind`] plus a message naming what the failure was about
/// (the offending token, the missing path, or the OS error text).
#[derive(Debug)]
pub struct Error {
    /// Which failure this is.
    pub kind: Kind,
    /// What the failure was about.
    pub message: String,
}

impl Error {
    /// Builds an error of the given kind around the given message.
    pub fn new(kind: Kind, message: String) -> (e: Error)
        ensures
            e.kind == kind,
            e.message@ == message@,
    {
        Error { kind, message }
    }
}

} // verus!
