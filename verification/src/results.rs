use vstd::prelude::*;
use vstd::string::StringSliceAdditionalSpecFns;

verus! {

/// The stable set of error kinds that the engine reports to its callers.
#[derive(Clone, Copy, Debug, PartialEq, Eq, Structural)]
pub enum HttmErrorKind {
    /// A catch-all for errors raised at the boundary.
    Generic,
    /// The path has no ancestor among the inventoried dataset mounts.
    NoQualifyingDataset,
    /// The relative-path computation failed: the path is not below its dataset.
    PathOutsideDataset,
    /// The dataset of interest has no snapshot roots; recoverable, flattened by callers.
    NoSnapshotsForDataset,
    /// The alternate-replica map has no entry for the proximate mount; recoverable.
    AltReplicatedMissing,
    /// Every input produced nothing and snapshots were not disabled.
    NoCopiesFound,
    /// A read or stat failure surfaced by the boundary.
    Io,
}

/// An error value: a kind together with a human-readable message (raw bytes).
#[derive(Debug)]
pub struct HttmError {
    pub kind: HttmErrorKind,
    pub details: Vec<u8>,
}

impl HttmError {
    /// A generic error carrying only a message.
    pub fn new(msg: &str) -> (e: Self)
        ensures
            e.kind == HttmErrorKind::Generic,
            e.details@ == msg.spec_bytes(),
    {
        HttmError { kind: HttmErrorKind::Generic, details: vstd::slice::slice_to_vec(msg.as_bytes()) }
    }

    /// An error of a given kind with a message.
    pub fn with_kind(kind: HttmErrorKind, msg: &str) -> (e: Self)
        ensures
            e.kind == kind,
            e.details@ == msg.spec_bytes(),
    {
        HttmError { kind, details: vstd::slice::slice_to_vec(msg.as_bytes()) }
    }

    /// The message bytes, for the boundary to render.
    pub fn message(&self) -> (m: &Vec<u8>)
        ensures
            m@ == self.details@,
    {
        &self.details
    }
}

/// Payload type for the hangup beacon.  The library exposes no way to build
/// one and never sends one, so the only event a receiver observes is the
/// channel's disconnection.
pub struct Never {
    _private: bool,
}

} // verus!

verus! {

/// Classify a failed restore copy: a permission failure names the
/// destination the user could not write; anything else is surfaced as a
/// plain I/O failure.
pub fn map_io_err(permission_denied: bool) -> (e: HttmError)
    ensures
        e.kind == HttmErrorKind::Io,
        permission_denied ==> e.details@
            == "the restore failed because the user lacks permission to write the destination".spec_bytes(),
        !permission_denied ==> e.details@ == "the restore failed for an I/O reason".spec_bytes(),
{
    if permission_denied {
        HttmError::with_kind(
            HttmErrorKind::Io,
            "the restore failed because the user lacks permission to write the destination",
        )
    } else {
        HttmError::with_kind(HttmErrorKind::Io, "the restore failed for an I/O reason")
    }
}

} // verus!
