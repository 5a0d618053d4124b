//! The trusted boundary to the host filesystem.

use vstd::prelude::*;

verus! {

/// Relies on `std::path::Path::exists`: whether the path points to an
/// entity on disk. The result depends on the state of the disk, so nothing
/// is assumed of it.
#[verifier::external_body]
pub(crate) fn path_exists(p: &str) -> bool {
    std::path::Path::new(p).exists()
}

} // verus!
