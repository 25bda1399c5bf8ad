//! The error taxonomy shared by every store and entry operation.

use vstd::prelude::*;

verus! {

/// Why a store or entry operation failed.
///
/// `NotFound` often marks an expected absence (a missing key or value)
/// rather than a true fault; lookup-style operations convert it into an
/// absence value instead of returning it.
#[derive(Clone, Copy, Debug, PartialEq, Eq, Structural)]
pub enum CtxError {
    /// The target location or value is absent.
    NotFound,
    /// A creation collided with an existing location.
    AlreadyExists,
    /// The caller passed an unacceptable argument, such as an empty name.
    InvalidInput,
    /// The store refused access for lack of privilege.
    PermissionDenied,
    /// Any other store failure.
    Other,
}

} // verus!
