use vstd::prelude::*;
use vstd::string::StringSliceAdditionalSpecFns;

use crate::config::{Config, PrintMode};
use crate::filesystem_map::{spec_stat, FilesystemType, FsView};
use crate::paths::HttmPath;

verus! {

/// The delimiter raw output ends each record with: NUL under raw-zero,
/// newline otherwise.
pub fn get_delimiter(config: &Config) -> (r: u8)
    ensures
        config.print_mode == PrintMode::RawZero ==> r == 0u8,
        config.print_mode != PrintMode::RawZero ==> r == 10u8,
{
    match config.print_mode {
        PrintMode::RawZero => 0u8,
        _ => 10u8,
    }
}

/// The name of the ZFS snapshot directory's child, `snapshot`.
pub open spec fn snapshot_component_name() -> Seq<u8> {
    seq![115u8, 110u8, 97u8, 112u8, 115u8, 104u8, 111u8, 116u8]
}

/// The `snapshot` name as a component.
fn snapshot_component() -> (r: Vec<u8>)
    ensures
        r@ == snapshot_component_name(),
{
    let mut r: Vec<u8> = Vec::new();
    r.push(115u8);
    r.push(110u8);
    r.push(97u8);
    r.push(112u8);
    r.push(115u8);
    r.push(104u8);
    r.push(111u8);
    r.push(116u8);
    proof {
        assert(r@ =~= snapshot_component_name());
    }
    r
}

/// The filesystem kind of a dataset mount, judged by which hidden snapshot
/// directory exists beneath it: `.zfs/snapshot` marks ZFS, `.snapshots`
/// marks Btrfs with snapper, and neither leaves the kind unknown.
pub open spec fn spec_fs_type_from_hidden_dir(
    entries: Seq<crate::filesystem_map::FsEntry>,
    mount: Seq<Seq<u8>>,
) -> Option<FilesystemType> {
    if spec_stat(
        entries,
        mount.push(crate::recursive::zfs_hidden_name()).push(snapshot_component_name()),
    ) is Some {
        Some(FilesystemType::Zfs)
    } else if spec_stat(entries, mount.push(crate::recursive::btrfs_snapper_hidden_name()))
        is Some {
        Some(FilesystemType::Btrfs)
    } else {
        None
    }
}

/// Judge a dataset mount's filesystem kind by its hidden snapshot directory.
pub fn get_fs_type_from_hidden_dir(fs_view: &FsView, dataset_mount: &HttmPath) -> (r: Option<
    FilesystemType,
>)
    ensures
        r == spec_fs_type_from_hidden_dir(fs_view.entries@, dataset_mount@),
{
    let zfs_snap_dir = dataset_mount.join_component(
        &crate::recursive::zfs_hidden_component(),
    ).join_component(&snapshot_component());
    if fs_view.contains_path(&zfs_snap_dir) {
        return Some(FilesystemType::Zfs);
    }
    let btrfs_dir = dataset_mount.join_component(
        &crate::recursive::btrfs_snapper_hidden_component(),
    );
    if fs_view.contains_path(&btrfs_dir) {
        return Some(FilesystemType::Btrfs);
    }
    None
}

/// The two shapes a date is rendered in: for human display, or as a
/// filename-safe timestamp.
#[derive(Clone, Copy, Debug, PartialEq, Eq, Structural)]
pub enum DateFormat {
    Display,
    Timestamp,
}

/// The format description for each date shape.
pub fn get_date_format(format: &DateFormat) -> (r: &'static str)
    ensures
        r == (match format {
            DateFormat::Display => "[weekday repr:short] [month repr:short] [day] [hour]:[minute]:[second] [year]",
            DateFormat::Timestamp => "[year]-[month]-[day]-[hour]:[minute]:[second]",
        }),
{
    match format {
        DateFormat::Display => "[weekday repr:short] [month repr:short] [day] [hour]:[minute]:[second] [year]",
        DateFormat::Timestamp => "[year]-[month]-[day]-[hour]:[minute]:[second]",
    }
}

/// What the time crate renders for a given second count, offset and shape.
/// The rendering depends on these arguments alone.
pub uninterp spec fn rendered_date(secs: int, offset_secs: int, timestamp_format: bool) -> Seq<u8>;

/// Relies on time's `OffsetDateTime::format` with a parsed format
/// description: the rendering of an instant at an offset is a function of
/// the second count, the offset and the chosen description alone.
#[verifier::external_body]
fn render_datetime(secs: i64, offset_secs: i32, timestamp_format: bool) -> (r: Vec<u8>)
    ensures
        r@ == rendered_date(secs as int, offset_secs as int, timestamp_format),
{
    let fmt = if timestamp_format {
        "[year]-[month]-[day]-[hour]:[minute]:[second]"
    } else {
        "[weekday repr:short] [month repr:short] [day] [hour]:[minute]:[second] [year]"
    };
    let items = match time::format_description::parse(fmt) { Ok(i) => i, Err(_) => return Vec::new() };
    let dt = match time::OffsetDateTime::from_unix_timestamp(secs) { Ok(d) => d, Err(_) => return Vec::new() };
    let off = match time::UtcOffset::from_whole_seconds(offset_secs) { Ok(o) => o, Err(_) => return Vec::new() };
    let dt = match dt.checked_to_offset(off) { Some(d) => d, None => return Vec::new() };
    match dt.format(&items) { Ok(s) => s.into_bytes(), Err(_) => Vec::new() }
}

/// The rendered date, suffixed with a UTC marker when the offset is UTC
/// itself: an underscore-joined marker for timestamps, a spaced one for
/// display.
pub open spec fn spec_date_string(offset_secs: int, secs: int, format: DateFormat) -> Seq<u8> {
    let raw = rendered_date(secs, offset_secs, format == DateFormat::Timestamp);
    if offset_secs == 0 {
        match format {
            DateFormat::Timestamp => raw + "_UTC".spec_bytes(),
            DateFormat::Display => raw + " UTC".spec_bytes(),
        }
    } else {
        raw
    }
}

/// Render a timestamp at the requested UTC offset, in the chosen shape.
pub fn get_date(requested_utc_offset: i32, secs: u64, format: DateFormat) -> (r: Vec<u8>)
    requires
        secs <= i64::MAX,
    ensures
        r@ == spec_date_string(requested_utc_offset as int, secs as int, format),
{
    let is_timestamp = match format {
        DateFormat::Timestamp => true,
        DateFormat::Display => false,
    };
    let mut raw = render_datetime(secs as i64, requested_utc_offset, is_timestamp);
    if requested_utc_offset == 0 {
        let suffix: &str = if is_timestamp {
            "_UTC"
        } else {
            " UTC"
        };
        raw.extend_from_slice(suffix.as_bytes());
    }
    raw
}

} // verus!
