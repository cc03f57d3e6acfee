use httm::config::{Config, DeletedMode, ExecMode, PrintMode};
use httm::deleted::{enumerate_deleted, get_unique_deleted};
use httm::filesystem_map::{
    DatasetCollection, DatasetMetadata, FileTypeKind, FilesystemType, FsEntry, FsView, MountType,
    SnapsSelectedForSearch,
};
use httm::paths::{HttmPath, PathMetadata};
use httm::recursive::{enumerate_directory, RecursiveMainLoop};

fn rp(s: &str) -> HttmPath {
    HttmPath::new(
        s.split('/')
            .filter(|c| !c.is_empty())
            .map(|c| c.as_bytes().to_vec())
            .collect(),
    )
}

fn rfile(path: &str, mtime: u64, size: u64) -> FsEntry {
    FsEntry {
        path: rp(path),
        metadata: PathMetadata { modify_time: mtime, size },
        kind: FileTypeKind::RegularFile,
        link_target: None,
    }
}

fn rdir(path: &str) -> FsEntry {
    FsEntry {
        path: rp(path),
        metadata: PathMetadata { modify_time: 0, size: 0 },
        kind: FileTypeKind::Directory,
        link_target: None,
    }
}

fn rlink(path: &str, target: &str) -> FsEntry {
    FsEntry {
        path: rp(path),
        metadata: PathMetadata { modify_time: 0, size: 0 },
        kind: FileTypeKind::Symlink,
        link_target: Some(rp(target)),
    }
}

fn rcollection() -> DatasetCollection {
    DatasetCollection {
        map_of_datasets: vec![(
            rp("/tank"),
            DatasetMetadata {
                name: b"tank".to_vec(),
                fs_type: FilesystemType::Zfs,
                mount_type: MountType::Local,
            },
        )],
        map_of_snaps: vec![(rp("/tank"), vec![rp("/tank/.zfs/snapshot/a")])],
        opt_map_of_alts: None,
        opt_map_of_aliases: None,
        vec_of_filter_dirs: Vec::new(),
        opt_common_snap_dir: None,
        snaps_selected_for_search: SnapsSelectedForSearch::MostProximateOnly,
    }
}

fn rconfig(collection: DatasetCollection) -> Config {
    Config {
        dataset_collection: collection,
        opt_no_snap: false,
        opt_no_live: false,
        opt_no_hidden: false,
        opt_no_traverse: false,
        opt_no_filter: false,
        opt_omit_ditto: false,
        opt_recursive: true,
        opt_last_snap: None,
        deleted_mode: DeletedMode::Disabled,
        exec_mode: ExecMode::Interactive,
        print_mode: PrintMode::FormattedDefault,
        opt_requested_dir: None,
        requested_utc_offset: 0,
    }
}

fn tree_view() -> FsView {
    FsView {
        entries: vec![
            rdir("/tank"),
            rdir("/tank/d"),
            rfile("/tank/d/live.txt", 5, 5),
            rdir("/tank/d/sub"),
            rfile("/tank/d/sub/deep.txt", 6, 6),
            rdir("/tank/.zfs"),
            rfile("/tank/hello.txt", 1, 1),
        ],
    }
}

#[test]
fn enumeration_streams_files_then_dirs_and_recurses() {
    let config = rconfig(rcollection());
    let view = tree_view();
    let items = enumerate_directory(&config, &view, &rp("/tank/d"), 8);
    let got: Vec<Vec<Vec<u8>>> =
        items.iter().map(|c| c.path.components.clone()).collect();
    assert_eq!(
        got,
        vec![
            rp("/tank/d/live.txt").components,
            rp("/tank/d/sub").components,
            rp("/tank/d/sub/deep.txt").components,
        ]
    );
    assert!(items.iter().all(|c| !c.is_phantom));
}

#[test]
fn hidden_snapshot_directories_are_never_entered() {
    let config = rconfig(rcollection());
    let view = tree_view();
    let items = enumerate_directory(&config, &view, &rp("/tank"), 8);
    for item in &items {
        assert!(!item.path.path_eq(&rp("/tank/.zfs")));
    }
}

#[test]
fn adding_a_filter_dir_only_removes_entries() {
    let config = rconfig(rcollection());
    let mut stricter_collection = rcollection();
    stricter_collection.vec_of_filter_dirs = vec![rp("/tank/d/sub")];
    let stricter = rconfig(stricter_collection);
    let view = tree_view();
    let full = enumerate_directory(&config, &view, &rp("/tank/d"), 8);
    let reduced = enumerate_directory(&stricter, &view, &rp("/tank/d"), 8);
    assert!(reduced.len() < full.len());
    for item in &reduced {
        assert!(full.iter().any(|other| other.path.path_eq(&item.path)));
    }
}

#[test]
fn the_requested_root_is_kept_even_when_filtered() {
    let mut collection = rcollection();
    collection.vec_of_filter_dirs = vec![rp("/tank/d")];
    let mut config = rconfig(collection);
    config.opt_requested_dir = Some(rp("/tank/d"));
    assert!(!httm::recursive::is_filter_dir(&config, &rp("/tank/d")));
    config.opt_requested_dir = None;
    assert!(httm::recursive::is_filter_dir(&config, &rp("/tank/d")));
}

#[test]
fn symlink_loops_are_not_directories() {
    let view = FsView {
        entries: vec![
            rdir("/tank"),
            rdir("/tank/d"),
            rlink("/tank/d/back", "/tank/d"),
            rlink("/tank/d/over", "/tank"),
        ],
    };
    let listing = view.read_dir(&rp("/tank/d"));
    for entry in &listing {
        assert!(!httm::recursive::httm_is_dir(&view, entry));
    }
}

#[test]
fn symlink_to_an_unrelated_directory_is_a_directory() {
    let view = FsView {
        entries: vec![rdir("/tank"), rdir("/zpool"), rlink("/tank/over", "/zpool")],
    };
    let listing = view.read_dir(&rp("/tank"));
    assert_eq!(listing.len(), 1);
    assert!(httm::recursive::httm_is_dir(&view, &listing[0]));
}

#[test]
fn closed_hangup_beacon_stops_the_walk_within_one_directory() {
    let config = rconfig(rcollection());
    let view = tree_view();
    let (mut walker, _items) = RecursiveMainLoop::start(&config, &view, &rp("/tank/d"));
    assert!(!walker.is_done());
    let after_hangup = walker.step(&config, &view, true);
    assert_eq!(after_hangup.len(), 0);
    assert!(walker.is_done());
}

#[test]
fn the_walk_pops_the_back_of_the_queue_first() {
    let config = rconfig(rcollection());
    let view = FsView {
        entries: vec![
            rdir("/tank"),
            rdir("/tank/a"),
            rdir("/tank/b"),
            rfile("/tank/b/inner.txt", 1, 1),
        ],
    };
    let (mut walker, _items) = RecursiveMainLoop::start(&config, &view, &rp("/tank"));
    let first_step = walker.step(&config, &view, false);
    assert_eq!(first_step.len(), 1);
    assert!(first_step[0].path.path_eq(&rp("/tank/b/inner.txt")));
}

fn deleted_view() -> FsView {
    FsView {
        entries: vec![
            rdir("/tank"),
            rdir("/tank/d"),
            rfile("/tank/d/kept.txt", 5, 5),
            rdir("/tank/.zfs/snapshot/a/d"),
            rfile("/tank/.zfs/snapshot/a/d/kept.txt", 5, 5),
            rfile("/tank/.zfs/snapshot/a/d/gone.txt", 3, 3),
            rdir("/tank/.zfs/snapshot/a/d/lost"),
            rfile("/tank/.zfs/snapshot/a/d/lost/under.txt", 2, 2),
        ],
    }
}

#[test]
fn deleted_names_are_reported_exactly_once() {
    let mut collection = rcollection();
    collection.map_of_snaps = vec![(
        rp("/tank"),
        vec![rp("/tank/.zfs/snapshot/a"), rp("/tank/.zfs/snapshot/a")],
    )];
    let config = rconfig(collection);
    let view = deleted_view();
    let deleted = get_unique_deleted(&config, &view, &rp("/tank/d"));
    let mut names: Vec<Vec<u8>> = deleted.iter().map(|e| e.file_name.clone()).collect();
    names.sort();
    assert_eq!(names, vec![b"gone.txt".to_vec(), b"lost".to_vec()]);
}

#[test]
fn deleted_scan_descends_behind_deleted_directories() {
    let mut config = rconfig(rcollection());
    config.deleted_mode = DeletedMode::All;
    let view = deleted_view();
    let items = enumerate_deleted(&config, &view, &rp("/tank/d"), 8);
    assert!(items.iter().all(|c| c.is_phantom));
    let expected_child = rp("/tank/d/lost/under.txt");
    assert!(items.iter().any(|c| c.path.path_eq(&expected_child)));
}

#[test]
fn depth_of_one_does_not_descend() {
    let mut config = rconfig(rcollection());
    config.deleted_mode = DeletedMode::DepthOfOne;
    let view = deleted_view();
    let items = enumerate_deleted(&config, &view, &rp("/tank/d"), 8);
    assert_eq!(items.len(), 2);
    let expected_child = rp("/tank/d/lost/under.txt");
    assert!(!items.iter().any(|c| c.path.path_eq(&expected_child)));
}

#[test]
fn deleted_only_mode_withholds_live_entries() {
    let mut config = rconfig(rcollection());
    config.deleted_mode = DeletedMode::Only;
    let view = deleted_view();
    let (walker_queue, live_items) = RecursiveMainLoop::new(&config, &view, &rp("/tank/d"));
    assert_eq!(live_items.len(), 0);
    assert_eq!(walker_queue.len(), 0);
    let phantoms = enumerate_deleted(&config, &view, &rp("/tank/d"), 8);
    assert!(!phantoms.is_empty());
    assert!(phantoms.iter().all(|c| c.is_phantom));
}

#[test]
fn the_stream_survives_a_real_channel_round_trip() {
    let mut config = rconfig(rcollection());
    config.deleted_mode = DeletedMode::Only;
    let view = deleted_view();
    let (tx, rx) = crossbeam::channel::unbounded();
    let (hangup_tx, hangup_rx) = crossbeam::channel::bounded::<httm::results::Never>(0);
    httm::channels::RecursiveSearch::exec(&config, &view, &rp("/tank/d"), &tx, &hangup_rx, 64);
    drop(tx);
    let received: Vec<httm::recursive::SelectionCandidate> = rx.iter().collect();
    assert_eq!(received.len(), 0);
    drop(hangup_tx);
}

#[test]
fn a_closed_beacon_is_observed_and_an_open_one_is_not() {
    let (hangup_tx, hangup_rx) = crossbeam::channel::bounded::<httm::results::Never>(0);
    assert!(!httm::channels::is_channel_closed(&hangup_rx));
    drop(hangup_tx);
    assert!(httm::channels::is_channel_closed(&hangup_rx));
}

#[test]
fn interactive_items_flow_through_the_channel() {
    let config = rconfig(rcollection());
    let view = tree_view();
    let (tx, rx) = crossbeam::channel::unbounded();
    let (hangup_tx, hangup_rx) = crossbeam::channel::bounded::<httm::results::Never>(0);
    httm::channels::RecursiveSearch::exec(&config, &view, &rp("/tank/d"), &tx, &hangup_rx, 64);
    drop(tx);
    let received: Vec<httm::recursive::SelectionCandidate> = rx.iter().collect();
    assert_eq!(received.len(), 3);
    assert!(received.iter().all(|c| !c.is_phantom));
    drop(hangup_tx);
}
