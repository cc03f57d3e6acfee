use vstd::prelude::*;

use crate::filesystem_map::DatasetCollection;
use crate::paths::HttmPath;

verus! {

/// How the per-path version sequence is reduced to its last snapshot.
#[derive(Clone, Copy, Debug, PartialEq, Eq, Structural)]
pub enum LastSnapMode {
    /// The default reduction: keep the full sequence; when it is empty,
    /// synthesize the live record.
    KeepAll,
    /// Keep only the last version, if any.
    Any,
    /// Keep the last version only when its metadata equals the live file's.
    DittoOnly,
    /// Keep the last version only when its metadata differs from the live file's.
    NoDittoExclusive,
    /// As `NoDittoExclusive`, but synthesize the live record when the
    /// sequence is empty.
    NoDittoInclusive,
}

/// Whether and how deleted files are surfaced during enumeration.
#[derive(Clone, Copy, Debug, PartialEq, Eq, Structural)]
pub enum DeletedMode {
    Disabled,
    DepthOfOne,
    All,
    Only,
}

/// Who consumes the streamed items.
#[derive(Clone, Copy, Debug, PartialEq, Eq, Structural)]
pub enum ExecMode {
    /// The interactive selector: live and phantom items flow to the sink.
    Interactive,
    /// The batching printer: only phantom items flow to the sink.
    NonInteractiveRecursive,
}

/// How the boundary prints: formatted, or raw with a chosen delimiter.
#[derive(Clone, Copy, Debug, PartialEq, Eq, Structural)]
pub enum PrintMode {
    FormattedDefault,
    FormattedNotPretty,
    RawNewline,
    RawZero,
}

/// The recognized options of one invocation, together with the inventory.
/// Shared read-only by every engine operation.
pub struct Config {
    pub dataset_collection: DatasetCollection,
    pub opt_no_snap: bool,
    pub opt_no_live: bool,
    pub opt_no_hidden: bool,
    pub opt_no_traverse: bool,
    pub opt_no_filter: bool,
    pub opt_omit_ditto: bool,
    pub opt_recursive: bool,
    pub opt_last_snap: Option<LastSnapMode>,
    pub deleted_mode: DeletedMode,
    pub exec_mode: ExecMode,
    pub print_mode: PrintMode,
    pub opt_requested_dir: Option<HttmPath>,
    pub requested_utc_offset: i32,
}

} // verus!
