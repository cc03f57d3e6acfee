use httm::config::{Config, DeletedMode, ExecMode, LastSnapMode, PrintMode};
use httm::display::{DisplaySet, PrintAsMap};
use httm::filesystem_map::{
    DatasetCollection, DatasetMetadata, FileTypeKind, FilesystemType, FsEntry, FsView, MountType,
    SnapsSelectedForSearch,
};
use httm::paths::{
    bytes_lt_exec, clone_bytes, cmp_path, compare_metadata, get_common_path, make_tmp_path,
    opt_metadata_eq, HttmPath, PathData, PathMetadata,
};
use httm::results::{map_io_err, HttmError, HttmErrorKind};
use httm::snaps::{pool_of_exec, PrecautionarySnapType, SnapGuard, SnapshotMounts};
use httm::utility::{get_date, get_delimiter, get_fs_type_from_hidden_dir, DateFormat};

fn dp(s: &str) -> HttmPath {
    HttmPath::new(
        s.split('/')
            .filter(|c| !c.is_empty())
            .map(|c| c.as_bytes().to_vec())
            .collect(),
    )
}

fn dcollection() -> DatasetCollection {
    DatasetCollection {
        map_of_datasets: vec![
            (
                dp("/tank"),
                DatasetMetadata {
                    name: b"tank".to_vec(),
                    fs_type: FilesystemType::Zfs,
                    mount_type: MountType::Local,
                },
            ),
            (
                dp("/pool2/data"),
                DatasetMetadata {
                    name: b"pool2/data".to_vec(),
                    fs_type: FilesystemType::Zfs,
                    mount_type: MountType::Local,
                },
            ),
        ],
        map_of_snaps: vec![(dp("/tank"), vec![dp("/tank/.zfs/snapshot/a")])],
        opt_map_of_alts: None,
        opt_map_of_aliases: None,
        vec_of_filter_dirs: Vec::new(),
        opt_common_snap_dir: None,
        snaps_selected_for_search: SnapsSelectedForSearch::MostProximateOnly,
    }
}

fn dconfig(print_mode: PrintMode) -> Config {
    Config {
        dataset_collection: dcollection(),
        opt_no_snap: false,
        opt_no_live: false,
        opt_no_hidden: false,
        opt_no_traverse: false,
        opt_no_filter: false,
        opt_omit_ditto: false,
        opt_recursive: false,
        opt_last_snap: None,
        deleted_mode: DeletedMode::Disabled,
        exec_mode: ExecMode::Interactive,
        print_mode,
        opt_requested_dir: None,
        requested_utc_offset: 0,
    }
}

#[test]
fn formatted_output_pads_and_quotes() {
    let map = PrintAsMap {
        inner: vec![(b"/t/f".to_vec(), vec![b"/t/.s/a/f".to_vec(), b"/t/.s/b/f".to_vec()])],
    };
    let config = dconfig(PrintMode::FormattedDefault);
    let out = map.format(&config);
    let expected = "\"/t/f\" : \"/t/.s/a/f\"\n       : \"/t/.s/b/f\"\n";
    assert_eq!(String::from_utf8(out).unwrap(), expected);
}

#[test]
fn not_so_pretty_output_uses_tabs() {
    let map = PrintAsMap { inner: vec![(b"/t/f".to_vec(), vec![b"/t/.s/a/f".to_vec()])] };
    let config = dconfig(PrintMode::FormattedNotPretty);
    let out = map.format(&config);
    assert_eq!(String::from_utf8(out).unwrap(), "/t/f:\t/t/.s/a/f\n");
}

#[test]
fn last_snap_formatting_skips_empty_keys() {
    let map = PrintAsMap {
        inner: vec![
            (b"/t/empty".to_vec(), Vec::new()),
            (b"/t/full".to_vec(), vec![b"/t/.s/a/full".to_vec()]),
        ],
    };
    let mut config = dconfig(PrintMode::FormattedDefault);
    config.opt_last_snap = Some(LastSnapMode::Any);
    let out = map.format(&config);
    let text = String::from_utf8(out).unwrap();
    assert!(!text.contains("empty"));
    assert!(text.contains("full"));
}

#[test]
fn raw_output_joins_values_with_the_delimiter() {
    let map = PrintAsMap {
        inner: vec![(b"/t/f".to_vec(), vec![b"a".to_vec(), b"b".to_vec()])],
    };
    let newline = map.print_raw(&dconfig(PrintMode::RawNewline));
    assert_eq!(newline, b"a\nb\n".to_vec());
    let zero = map.print_raw(&dconfig(PrintMode::RawZero));
    assert_eq!(zero, b"a\0b\0".to_vec());
}

#[test]
fn delimiter_follows_the_print_mode() {
    assert_eq!(get_delimiter(&dconfig(PrintMode::RawZero)), 0u8);
    assert_eq!(get_delimiter(&dconfig(PrintMode::RawNewline)), 10u8);
    assert_eq!(get_delimiter(&dconfig(PrintMode::FormattedDefault)), 10u8);
}

#[test]
fn display_set_splits_snaps_and_live() {
    let config = dconfig(PrintMode::FormattedDefault);
    let view = FsView {
        entries: vec![FsEntry {
            path: dp("/tank/.zfs/snapshot/a/f"),
            metadata: PathMetadata { modify_time: 1, size: 1 },
            kind: FileTypeKind::RegularFile,
            link_target: None,
        }],
    };
    let set = vec![PathData::new(dp("/tank/f"), Some(PathMetadata { modify_time: 2, size: 2 }))];
    let map = httm::versions::versions_lookup_exec(&config, &set, &view).unwrap();
    let display_set = DisplaySet::new(&config, &map);
    assert_eq!(display_set.snaps.len(), 1);
    assert_eq!(display_set.live.len(), 1);
    assert!(display_set.live[0].path_buf.path_eq(&dp("/tank/f")));
    let mut no_live = dconfig(PrintMode::FormattedDefault);
    no_live.opt_no_live = true;
    let reduced = DisplaySet::new(&no_live, &map);
    assert_eq!(reduced.live.len(), 0);
}

#[test]
fn epoch_renders_as_utc_with_the_marker() {
    let stamp = get_date(0, 0, DateFormat::Timestamp);
    assert_eq!(String::from_utf8(stamp).unwrap(), "1970-01-01-00:00:00_UTC");
    let display = get_date(0, 0, DateFormat::Display);
    assert_eq!(String::from_utf8(display).unwrap(), "Thu Jan 01 00:00:00 1970 UTC");
    let offset = get_date(3600, 0, DateFormat::Timestamp);
    assert_eq!(String::from_utf8(offset).unwrap(), "1970-01-01-01:00:00");
}

#[test]
fn fs_type_is_judged_by_the_hidden_directory() {
    let view = FsView {
        entries: vec![
            FsEntry {
                path: dp("/tank/.zfs/snapshot"),
                metadata: PathMetadata { modify_time: 0, size: 0 },
                kind: FileTypeKind::Directory,
                link_target: None,
            },
            FsEntry {
                path: dp("/vol/.snapshots"),
                metadata: PathMetadata { modify_time: 0, size: 0 },
                kind: FileTypeKind::Directory,
                link_target: None,
            },
        ],
    };
    assert_eq!(get_fs_type_from_hidden_dir(&view, &dp("/tank")), Some(FilesystemType::Zfs));
    assert_eq!(get_fs_type_from_hidden_dir(&view, &dp("/vol")), Some(FilesystemType::Btrfs));
    assert_eq!(get_fs_type_from_hidden_dir(&view, &dp("/other")), None);
}

#[test]
fn tmp_path_appends_the_suffix_to_the_last_component() {
    let renamed = make_tmp_path(&dp("/tank/file.txt"));
    assert!(renamed.path_eq(&dp("/tank/file.txt.tmp")));
    let rooted = make_tmp_path(&HttmPath::new(Vec::new()));
    assert!(rooted.path_eq(&dp("/.tmp")));
}

#[test]
fn common_path_finds_the_deepest_shared_ancestor() {
    let paths = vec![dp("/tank/a/b"), dp("/tank/a/c"), dp("/tank/a")];
    let common = get_common_path(&paths).unwrap();
    assert!(common.path_eq(&dp("/tank/a")));
    let disjoint = vec![dp("/tank/a"), dp("/zpool/b")];
    assert!(get_common_path(&disjoint).is_none());
    let pair = cmp_path(&dp("/tank/a/b"), &dp("/tank/c")).unwrap();
    assert!(pair.path_eq(&dp("/tank")));
}

#[test]
fn metadata_comparison_matches_equality() {
    let a = PathData::new(dp("/tank/f"), Some(PathMetadata { modify_time: 1, size: 2 }));
    let b = PathData::new(dp("/tank/g"), Some(PathMetadata { modify_time: 1, size: 2 }));
    let c = PathData::new(dp("/tank/h"), Some(PathMetadata { modify_time: 9, size: 2 }));
    assert!(compare_metadata(&a, &b).is_ok());
    let err: HttmError = compare_metadata(&a, &c).unwrap_err();
    assert_eq!(err.kind, HttmErrorKind::Generic);
    assert!(opt_metadata_eq(&a.metadata, &b.metadata));
    assert!(!opt_metadata_eq(&a.metadata, &c.metadata));
}

#[test]
fn byte_order_is_the_dictionary_order() {
    assert!(bytes_lt_exec(&b"abc".to_vec(), &b"abd".to_vec()));
    assert!(bytes_lt_exec(&b"ab".to_vec(), &b"abc".to_vec()));
    assert!(!bytes_lt_exec(&b"abc".to_vec(), &b"abc".to_vec()));
    assert!(!bytes_lt_exec(&b"b".to_vec(), &b"abc".to_vec()));
}

#[test]
fn io_errors_are_classified() {
    let denied = map_io_err(true);
    assert_eq!(denied.kind, HttmErrorKind::Io);
    assert!(String::from_utf8(denied.details).unwrap().contains("permission"));
    let other = map_io_err(false);
    assert_eq!(other.kind, HttmErrorKind::Io);
}

#[test]
fn snapshot_names_are_grouped_by_pool_sorted_and_unique() {
    let config = dconfig(PrintMode::FormattedDefault);
    let mounts = vec![dp("/pool2/data"), dp("/tank"), dp("/tank")];
    let groups = SnapshotMounts::exec(
        &config,
        &mounts,
        &b"mySuffix".to_vec(),
        &b"2024-01-01-00:00:00".to_vec(),
    )
    .unwrap();
    assert_eq!(groups.len(), 2);
    assert_eq!(groups[0].0, b"pool2".to_vec());
    assert_eq!(
        groups[0].1,
        vec![b"pool2/data@snap_2024-01-01-00:00:00_mySuffix".to_vec()]
    );
    // a root dataset's name holds no separator, so the whole snapshot name keys its group
    assert_eq!(groups[1].0, b"tank@snap_2024-01-01-00:00:00_mySuffix".to_vec());
    assert_eq!(groups[1].1, vec![b"tank@snap_2024-01-01-00:00:00_mySuffix".to_vec()]);
}

#[test]
fn snapshot_names_need_inventoried_zfs_mounts() {
    let config = dconfig(PrintMode::FormattedDefault);
    let unknown = vec![dp("/elsewhere")];
    let err = SnapshotMounts::get_snapshot_names(
        &config,
        &unknown,
        &b"s".to_vec(),
        &b"t".to_vec(),
    )
    .unwrap_err();
    assert_eq!(err.kind, HttmErrorKind::Generic);
}

#[test]
fn pool_prefix_stops_at_the_first_slash() {
    assert_eq!(pool_of_exec(&b"tank/data@snap".to_vec()), b"tank".to_vec());
    assert_eq!(pool_of_exec(&b"tank@snap".to_vec()), b"tank@snap".to_vec());
}

#[test]
fn guard_snapshot_names_carry_the_occasion() {
    let ts = b"2024-01-01-00:00:00".to_vec();
    let pre = SnapGuard::new(&b"tank".to_vec(), &PrecautionarySnapType::PreRestore, &ts);
    assert_eq!(
        pre.new_snap_name,
        b"tank@snap_pre_2024-01-01-00:00:00_httmSnapRestore".to_vec()
    );
    let post = SnapGuard::new(
        &b"tank".to_vec(),
        &PrecautionarySnapType::PostRollForward(b"ok".to_vec()),
        &ts,
    );
    assert_eq!(
        post.new_snap_name,
        b"tank@snap_post_2024-01-01-00:00:00_:ok:_httmSnapRollForward".to_vec()
    );
    let rollback = post.rollback();
    assert_eq!(rollback.len(), 3);
    assert_eq!(rollback[0], b"rollback".to_vec());
    assert_eq!(rollback[1], b"-r".to_vec());
    assert_eq!(rollback[2], post.new_snap_name);
}

#[test]
fn error_messages_survive_the_round_trip() {
    let e = HttmError::new("nothing to see here");
    assert_eq!(e.kind, HttmErrorKind::Generic);
    assert_eq!(e.message(), &b"nothing to see here".to_vec());
    let bytes = clone_bytes(&b"abc".to_vec());
    assert_eq!(bytes, b"abc".to_vec());
}
