use httm::config::{Config, DeletedMode, ExecMode, LastSnapMode, PrintMode};
use httm::filesystem_map::{
    DatasetCollection, DatasetMetadata, FileTypeKind, FilesystemType, FsEntry, FsView, MountType,
    RemotePathAndFsType, SnapDatasetType, SnapsSelectedForSearch,
};
use httm::paths::{HttmPath, PathData, PathMetadata};
use httm::results::HttmErrorKind;
use httm::versions::{
    versions_for_path, versions_lookup_exec, MostProximateAndOptAlts, RelativePathAndSnapMounts,
};

fn p(s: &str) -> HttmPath {
    HttmPath::new(
        s.split('/')
            .filter(|c| !c.is_empty())
            .map(|c| c.as_bytes().to_vec())
            .collect(),
    )
}

fn file_entry(path: &str, mtime: u64, size: u64) -> FsEntry {
    FsEntry {
        path: p(path),
        metadata: PathMetadata { modify_time: mtime, size },
        kind: FileTypeKind::RegularFile,
        link_target: None,
    }
}

fn dir_entry(path: &str) -> FsEntry {
    FsEntry {
        path: p(path),
        metadata: PathMetadata { modify_time: 0, size: 0 },
        kind: FileTypeKind::Directory,
        link_target: None,
    }
}

fn tank_collection() -> DatasetCollection {
    DatasetCollection {
        map_of_datasets: vec![(
            p("/tank"),
            DatasetMetadata {
                name: b"tank".to_vec(),
                fs_type: FilesystemType::Zfs,
                mount_type: MountType::Local,
            },
        )],
        map_of_snaps: vec![(
            p("/tank"),
            vec![p("/tank/.zfs/snapshot/a"), p("/tank/.zfs/snapshot/b")],
        )],
        opt_map_of_alts: None,
        opt_map_of_aliases: None,
        vec_of_filter_dirs: Vec::new(),
        opt_common_snap_dir: None,
        snaps_selected_for_search: SnapsSelectedForSearch::MostProximateOnly,
    }
}

fn base_config(collection: DatasetCollection) -> Config {
    Config {
        dataset_collection: collection,
        opt_no_snap: false,
        opt_no_live: false,
        opt_no_hidden: false,
        opt_no_traverse: false,
        opt_no_filter: false,
        opt_omit_ditto: false,
        opt_recursive: true,
        opt_last_snap: None,
        deleted_mode: DeletedMode::Disabled,
        exec_mode: ExecMode::Interactive,
        print_mode: PrintMode::FormattedDefault,
        opt_requested_dir: None,
        requested_utc_offset: 0,
    }
}

fn tank_view() -> FsView {
    FsView {
        entries: vec![
            dir_entry("/tank"),
            file_entry("/tank/f", 200, 10),
            file_entry("/tank/.zfs/snapshot/a/f", 100, 10),
            file_entry("/tank/.zfs/snapshot/b/f", 200, 10),
        ],
    }
}

fn live(path: &str, mtime: u64, size: u64) -> PathData {
    PathData::new(p(path), Some(PathMetadata { modify_time: mtime, size }))
}

#[test]
fn scenario_two_versions_kept_without_omit_ditto() {
    let config = base_config(tank_collection());
    let view = tank_view();
    let out = versions_for_path(&config, &view, &live("/tank/f", 200, 10));
    assert_eq!(out.len(), 2);
    assert!(out[0].path_buf.path_eq(&p("/tank/.zfs/snapshot/a/f")));
    assert!(out[1].path_buf.path_eq(&p("/tank/.zfs/snapshot/b/f")));
    assert_eq!(out[0].metadata, Some(PathMetadata { modify_time: 100, size: 10 }));
    assert_eq!(out[1].metadata, Some(PathMetadata { modify_time: 200, size: 10 }));
}

#[test]
fn scenario_omit_ditto_drops_the_unchanged_version() {
    let mut config = base_config(tank_collection());
    config.opt_omit_ditto = true;
    let view = tank_view();
    let out = versions_for_path(&config, &view, &live("/tank/f", 200, 10));
    assert_eq!(out.len(), 1);
    assert!(out[0].path_buf.path_eq(&p("/tank/.zfs/snapshot/a/f")));
}

#[test]
fn scenario_no_ditto_inclusive_synthesizes_the_live_record() {
    let mut config = base_config(tank_collection());
    config.opt_last_snap = Some(LastSnapMode::NoDittoInclusive);
    let view = tank_view();
    let out = versions_for_path(&config, &view, &live("/tank/g", 300, 5));
    assert_eq!(out.len(), 1);
    assert!(out[0].path_buf.path_eq(&p("/tank/g")));
    assert_eq!(out[0].metadata, Some(PathMetadata { modify_time: 300, size: 5 }));
}

#[test]
fn scenario_alias_resolves_to_the_remote_dataset() {
    let mut collection = tank_collection();
    collection.map_of_datasets = vec![(
        p("/remote/tank"),
        DatasetMetadata {
            name: b"remote/tank".to_vec(),
            fs_type: FilesystemType::Zfs,
            mount_type: MountType::Network,
        },
    )];
    collection.map_of_snaps = vec![(p("/remote/tank"), vec![p("/remote/tank/.zfs/snapshot/a")])];
    collection.opt_map_of_aliases = Some(vec![(
        p("/local/proj"),
        RemotePathAndFsType { remote_dir: p("/remote/tank"), fs_type: FilesystemType::Zfs },
    )]);
    let config = base_config(collection);
    let requested = live("/local/proj/src/x.c", 1, 1);
    let mp =
        MostProximateAndOptAlts::new(&config, &requested, &SnapDatasetType::MostProximate).unwrap();
    assert!(mp.proximate_dataset_mount.path_eq(&p("/remote/tank")));
    let bundle = RelativePathAndSnapMounts::new(
        &config,
        &requested,
        &mp.proximate_dataset_mount,
        &mp.proximate_dataset_mount,
    )
    .unwrap();
    assert!(bundle.relative_path.path_eq(&p("/src/x.c")));
    assert_eq!(bundle.snap_mounts.len(), 1);
    assert!(bundle.snap_mounts[0].path_eq(&p("/remote/tank/.zfs/snapshot/a")));
}

#[test]
fn scenario_proximity_prefers_the_nearest_dataset() {
    let mut collection = tank_collection();
    collection.map_of_datasets = vec![
        (
            p("/"),
            DatasetMetadata {
                name: b"root".to_vec(),
                fs_type: FilesystemType::Zfs,
                mount_type: MountType::Local,
            },
        ),
        (
            p("/tank"),
            DatasetMetadata {
                name: b"tank".to_vec(),
                fs_type: FilesystemType::Zfs,
                mount_type: MountType::Local,
            },
        ),
    ];
    let config = base_config(collection);
    let requested = live("/tank/sub/file", 1, 1);
    let found = httm::versions::get_proximate_dataset(
        &requested,
        &config.dataset_collection.map_of_datasets,
    )
    .unwrap();
    assert!(found.path_eq(&p("/tank")));
}

#[test]
fn scenario_identical_versions_collapse_to_one() {
    let config = base_config(tank_collection());
    let view = FsView {
        entries: vec![
            file_entry("/tank/f", 200, 10),
            file_entry("/tank/.zfs/snapshot/a/f", 150, 10),
            file_entry("/tank/.zfs/snapshot/b/f", 150, 10),
        ],
    };
    let out = versions_for_path(&config, &view, &live("/tank/f", 200, 10));
    assert_eq!(out.len(), 1);
}

#[test]
fn lookup_is_deterministic_across_runs() {
    let config = base_config(tank_collection());
    let view = tank_view();
    let set = vec![live("/tank/f", 200, 10)];
    let m1 = versions_lookup_exec(&config, &set, &view).unwrap();
    let m2 = versions_lookup_exec(&config, &set, &view).unwrap();
    assert_eq!(m1.inner.len(), m2.inner.len());
    for i in 0..m1.inner.len() {
        assert!(m1.inner[i].0.path_buf.path_eq(&m2.inner[i].0.path_buf));
        assert_eq!(m1.inner[i].1.len(), m2.inner[i].1.len());
        for j in 0..m1.inner[i].1.len() {
            assert!(m1.inner[i].1[j].path_buf.path_eq(&m2.inner[i].1[j].path_buf));
            assert_eq!(m1.inner[i].1[j].metadata, m2.inner[i].1[j].metadata);
        }
    }
}

#[test]
fn versions_are_ordered_and_free_of_duplicate_keys() {
    let config = base_config(tank_collection());
    let view = FsView {
        entries: vec![
            file_entry("/tank/f", 500, 1),
            file_entry("/tank/.zfs/snapshot/a/f", 300, 7),
            file_entry("/tank/.zfs/snapshot/b/f", 100, 9),
        ],
    };
    let out = versions_for_path(&config, &view, &live("/tank/f", 500, 1));
    assert_eq!(out.len(), 2);
    for i in 1..out.len() {
        let a = out[i - 1].metadata.unwrap();
        let b = out[i].metadata.unwrap();
        assert!(
            a.modify_time < b.modify_time || (a.modify_time == b.modify_time && a.size < b.size)
        );
    }
}

#[test]
fn every_version_lies_beneath_a_snapshot_root() {
    let config = base_config(tank_collection());
    let view = tank_view();
    let out = versions_for_path(&config, &view, &live("/tank/f", 200, 10));
    for record in &out {
        let under_a = record.path_buf.starts_with(&p("/tank/.zfs/snapshot/a"));
        let under_b = record.path_buf.starts_with(&p("/tank/.zfs/snapshot/b"));
        assert!(under_a || under_b);
    }
}

#[test]
fn alias_lookup_matches_direct_lookup() {
    let view = FsView {
        entries: vec![
            file_entry("/remote/tank/.zfs/snapshot/a/x", 10, 1),
            file_entry("/remote/tank/x", 20, 2),
        ],
    };
    let mut aliased = tank_collection();
    aliased.map_of_datasets = Vec::new();
    aliased.map_of_snaps = vec![(p("/remote/tank"), vec![p("/remote/tank/.zfs/snapshot/a")])];
    aliased.opt_map_of_aliases = Some(vec![(
        p("/local/proj"),
        RemotePathAndFsType { remote_dir: p("/remote/tank"), fs_type: FilesystemType::Zfs },
    )]);
    let alias_config = base_config(aliased);

    let mut direct = tank_collection();
    direct.map_of_datasets = vec![(
        p("/remote/tank"),
        DatasetMetadata {
            name: b"remote/tank".to_vec(),
            fs_type: FilesystemType::Zfs,
            mount_type: MountType::Network,
        },
    )];
    direct.map_of_snaps = vec![(p("/remote/tank"), vec![p("/remote/tank/.zfs/snapshot/a")])];
    let direct_config = base_config(direct);

    let through_alias = versions_for_path(&alias_config, &view, &live("/local/proj/x", 20, 2));
    let through_mount = versions_for_path(&direct_config, &view, &live("/remote/tank/x", 20, 2));
    assert_eq!(through_alias.len(), through_mount.len());
    for i in 0..through_alias.len() {
        assert!(through_alias[i].path_buf.path_eq(&through_mount[i].path_buf));
        assert_eq!(through_alias[i].metadata, through_mount[i].metadata);
    }
    assert_eq!(through_alias.len(), 1);
    assert!(through_alias[0].path_buf.path_eq(&p("/remote/tank/.zfs/snapshot/a/x")));
}

#[test]
fn no_qualifying_dataset_is_reported() {
    let config = base_config(tank_collection());
    let requested = live("/other/file", 1, 1);
    let err = MostProximateAndOptAlts::new(&config, &requested, &SnapDatasetType::MostProximate)
        .unwrap_err();
    assert_eq!(err.kind, HttmErrorKind::NoQualifyingDataset);
}

#[test]
fn missing_alternates_are_recoverable() {
    let config = base_config(tank_collection());
    let requested = live("/tank/f", 200, 10);
    let err = MostProximateAndOptAlts::new(&config, &requested, &SnapDatasetType::AltReplicated)
        .unwrap_err();
    assert_eq!(err.kind, HttmErrorKind::AltReplicatedMissing);
}

#[test]
fn missing_snapshots_are_recoverable() {
    let mut collection = tank_collection();
    collection.map_of_snaps = Vec::new();
    let config = base_config(collection);
    let requested = live("/tank/f", 200, 10);
    let err =
        RelativePathAndSnapMounts::new(&config, &requested, &p("/tank"), &p("/tank")).unwrap_err();
    assert_eq!(err.kind, HttmErrorKind::NoSnapshotsForDataset);
}

#[test]
fn path_outside_dataset_is_fatal() {
    let config = base_config(tank_collection());
    let requested = live("/tank/f", 200, 10);
    let err = httm::versions::get_relative_path(&config, &requested, &p("/zpool")).unwrap_err();
    assert_eq!(err.kind, HttmErrorKind::PathOutsideDataset);
}

#[test]
fn no_copies_found_when_everything_is_phantom_and_empty() {
    let config = base_config(tank_collection());
    let view = FsView { entries: Vec::new() };
    let set = vec![PathData::new(p("/tank/ghost"), None)];
    let err = versions_lookup_exec(&config, &set, &view).unwrap_err();
    assert_eq!(err.kind, HttmErrorKind::NoCopiesFound);
    let ok_set = vec![live("/tank/f", 200, 10)];
    assert!(versions_lookup_exec(&config, &ok_set, &tank_view()).is_ok());
}

#[test]
fn display_map_keys_are_sorted_and_unique() {
    let config = base_config(tank_collection());
    let view = tank_view();
    let set = vec![live("/tank/f", 200, 10), live("/tank/a", 1, 1), live("/tank/f", 200, 10)];
    let map = versions_lookup_exec(&config, &set, &view).unwrap();
    assert_eq!(map.inner.len(), 2);
    assert!(map.inner[0].0.path_buf.path_eq(&p("/tank/a")));
    assert!(map.inner[1].0.path_buf.path_eq(&p("/tank/f")));
}

#[test]
fn last_snap_modes_reduce_as_specified() {
    let view = tank_view();
    let requested = live("/tank/f", 200, 10);
    let base = base_config(tank_collection());
    let snaps = versions_for_path(&base, &view, &requested);
    assert_eq!(snaps.len(), 2);

    let any = httm::versions::get_last_snap(&LastSnapMode::Any, &requested, &snaps);
    assert_eq!(any.len(), 1);
    assert!(any[0].path_buf.path_eq(&p("/tank/.zfs/snapshot/b/f")));

    let ditto = httm::versions::get_last_snap(&LastSnapMode::DittoOnly, &requested, &snaps);
    assert_eq!(ditto.len(), 1);

    let no_ditto =
        httm::versions::get_last_snap(&LastSnapMode::NoDittoExclusive, &requested, &snaps);
    assert_eq!(no_ditto.len(), 0);

    let keep = httm::versions::get_last_snap(&LastSnapMode::KeepAll, &requested, &snaps);
    assert_eq!(keep.len(), 2);

    let empty: Vec<PathData> = Vec::new();
    let synthesized = httm::versions::get_last_snap(&LastSnapMode::KeepAll, &requested, &empty);
    assert_eq!(synthesized.len(), 1);
    assert!(synthesized[0].path_buf.path_eq(&p("/tank/f")));
}
