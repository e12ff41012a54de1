//! Error taxonomy of the node layer.

use vstd::prelude::*;

verus! {

/// Errno value for "no such file or directory".
pub const ENOENT: u32 = 2;

/// Errno value for an input/output inconsistency.
pub const EIO: u32 = 5;

/// Errno value for "operation not permitted".
pub const EPERM: u32 = 1;

/// Errno value for an invalid argument.
pub const EINVAL: u32 = 22;

/// Errno value for "file exists".
pub const EEXIST: u32 = 17;

/// Errno value for an unsupported operation.
pub const ENOSYS: u32 = 38;

/// Errors surfaced by node operations.
#[derive(Clone, Copy, PartialEq, Eq, Structural, Debug)]
pub enum NodeError {
    /// A requested name or path is absent in the tree and on the host.
    NotFound,
    /// A mapping request hit a name that is already bound (or bound to a
    /// non-directory where a directory was needed).
    AlreadyMapped,
    /// A host-backed entity changed type since it was last observed.
    Inconsistent,
    /// A host call failed; carries the host's errno.
    Host(u32),
    /// A contract violation (double delete, reopening a deleted file,
    /// constructing a node from metadata of the wrong type), reported as an
    /// error instead of aborting.
    InvalidOperation,
    /// The host object's kind has no node variant here (a symbolic link).
    Unsupported,
}

impl NodeError {
    /// The errno under which this error is reported to the kernel.
    pub fn errno(&self) -> (r: u32)
        ensures
            r == spec_errno(*self),
    {
        match self {
            NodeError::NotFound => ENOENT,
            NodeError::AlreadyMapped => EEXIST,
            NodeError::Inconsistent => EIO,
            NodeError::Host(e) => *e,
            NodeError::InvalidOperation => EINVAL,
            NodeError::Unsupported => ENOSYS,
        }
    }
}

/// The errno corresponding to each error variant.
pub open spec fn spec_errno(e: NodeError) -> u32 {
    match e {
        NodeError::NotFound => ENOENT,
        NodeError::AlreadyMapped => EEXIST,
        NodeError::Inconsistent => EIO,
        NodeError::Host(err) => err,
        NodeError::InvalidOperation => EINVAL,
        NodeError::Unsupported => ENOSYS,
    }
}

} // verus!
