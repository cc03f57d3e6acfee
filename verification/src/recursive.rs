use vstd::prelude::*;

use crate::config::{Config, DeletedMode, ExecMode};
use crate::filesystem_map::{
    spec_read_dir, spec_stat, BasicDirEntryInfo, FileTypeKind, FsEntry, FsView,
};
use crate::paths::HttmPath;

verus! {

/// The name of the hidden ZFS snapshot directory, `.zfs`.
pub open spec fn zfs_hidden_name() -> Seq<u8> {
    seq![46u8, 122u8, 102u8, 115u8]
}

/// The name of the hidden Btrfs snapper directory, `.snapshots`.
pub open spec fn btrfs_snapper_hidden_name() -> Seq<u8> {
    seq![46u8, 115u8, 110u8, 97u8, 112u8, 115u8, 104u8, 111u8, 116u8, 115u8]
}

/// The `.zfs` name as a component.
pub fn zfs_hidden_component() -> (r: Vec<u8>)
    ensures
        r@ == zfs_hidden_name(),
{
    let mut r: Vec<u8> = Vec::new();
    r.push(46u8);
    r.push(122u8);
    r.push(102u8);
    r.push(115u8);
    proof {
        assert(r@ =~= zfs_hidden_name());
    }
    r
}

/// The `.snapshots` name as a component.
pub fn btrfs_snapper_hidden_component() -> (r: Vec<u8>)
    ensures
        r@ == btrfs_snapper_hidden_name(),
{
    let mut r: Vec<u8> = Vec::new();
    r.push(46u8);
    r.push(115u8);
    r.push(110u8);
    r.push(97u8);
    r.push(112u8);
    r.push(115u8);
    r.push(104u8);
    r.push(111u8);
    r.push(116u8);
    r.push(115u8);
    proof {
        assert(r@ =~= btrfs_snapper_hidden_name());
    }
    r
}

/// Whether some filter directory equals the path.
pub open spec fn spec_filter_dirs_contain(dirs: Seq<HttmPath>, p: Seq<Seq<u8>>) -> bool {
    exists|i: int| 0 <= i < dirs.len() && (#[trigger] dirs[i])@ == p
}

/// Whether recursive descent must not enter a directory: the hidden snapshot
/// directories, the common Btrfs snapshot parent, and the inventoried filter
/// directories are all blocked — unless the path is the exact directory the
/// user requested, which is always kept.  The filter-directory lookup is
/// skipped when the path is deeper than the deepest filter directory; that
/// shortcut is part of the contract, since it defines observable non-descent.
pub open spec fn spec_is_filter_dir(cfg: Config, p: Seq<Seq<u8>>) -> bool {
    if match cfg.opt_requested_dir {
        Some(d) => d@ == p,
        None => false,
    } {
        false
    } else {
        ||| (p.len() > 0 && (p.last() == zfs_hidden_name() || p.last()
            == btrfs_snapper_hidden_name()))
        ||| (match cfg.dataset_collection.opt_common_snap_dir {
            Some(c) => c@ == p,
            None => false,
        })
        ||| (p.len() <= crate::filesystem_map::spec_filter_dirs_max_len(
            cfg.dataset_collection.vec_of_filter_dirs@,
        ) && spec_filter_dirs_contain(cfg.dataset_collection.vec_of_filter_dirs@, p))
    }
}

/// Decide whether descent into a directory is blocked.
pub fn is_filter_dir(config: &Config, path: &HttmPath) -> (r: bool)
    ensures
        r == spec_is_filter_dir(*config, path@),
{
    match &config.opt_requested_dir {
        Some(d) => {
            if d.path_eq(path) {
                return false;
            }
        },
        None => {},
    }
    match path.file_name() {
        Some(name) => {
            let zfs = zfs_hidden_component();
            let btrfs = btrfs_snapper_hidden_component();
            if crate::paths::bytes_eq(name, &zfs) || crate::paths::bytes_eq(name, &btrfs) {
                return true;
            }
        },
        None => {},
    }
    match &config.dataset_collection.opt_common_snap_dir {
        Some(c) => {
            if c.path_eq(path) {
                return true;
            }
        },
        None => {},
    }
    let max_len = config.dataset_collection.filter_dirs_max_len();
    if path.depth() > max_len {
        return false;
    }
    let dirs = &config.dataset_collection.vec_of_filter_dirs;
    let mut i: usize = 0;
    while i < dirs.len()
        invariant
            i <= dirs@.len(),
            dirs@ == config.dataset_collection.vec_of_filter_dirs@,
            path@.len() <= crate::filesystem_map::spec_filter_dirs_max_len(
                config.dataset_collection.vec_of_filter_dirs@,
            ),
            match config.opt_requested_dir {
                Some(d) => d@ != path@,
                None => true,
            },
            forall|j: int| 0 <= j < i ==> (#[trigger] dirs@[j])@ != path@,
        decreases dirs@.len() - i,
    {
        if dirs[i].path_eq(path) {
            proof {
                assert(spec_filter_dirs_contain(dirs@, path@));
            }
            return true;
        }
        i += 1;
    }
    false
}

/// Whether an enumerated entry passes the filtering rules: everything passes
/// under `no-filter`; hidden names are dropped under `no-hidden`; a directory
/// is dropped when descent into it is blocked.
pub open spec fn spec_keep_entry(
    cfg: Config,
    b: (Seq<u8>, Seq<Seq<u8>>, Option<FileTypeKind>),
) -> bool {
    if cfg.opt_no_filter {
        true
    } else if cfg.opt_no_hidden && b.0.len() > 0 && b.0[0] == 46u8 {
        false
    } else if b.2 == Some(FileTypeKind::Directory) {
        !spec_is_filter_dir(cfg, b.1)
    } else {
        true
    }
}

/// Apply the filtering rules to one enumerated entry.
pub fn keep_entry(config: &Config, entry: &BasicDirEntryInfo) -> (r: bool)
    ensures
        r == spec_keep_entry(*config, entry@),
{
    if config.opt_no_filter {
        return true;
    }
    if config.opt_no_hidden && entry.file_name.len() > 0 && entry.file_name[0] == 46u8 {
        return false;
    }
    let is_dir_type = match entry.file_type {
        Some(FileTypeKind::Directory) => true,
        _ => false,
    };
    if is_dir_type {
        return !is_filter_dir(config, &entry.path);
    }
    true
}

/// Whether an entry counts as a directory for traversal: a directory plainly;
/// a symlink only when its canonicalized target is a directory and no
/// ancestor of the entry equals that target (the loop guard).
pub open spec fn spec_httm_is_dir(
    entries: Seq<FsEntry>,
    b: (Seq<u8>, Seq<Seq<u8>>, Option<FileTypeKind>),
) -> bool {
    match b.2 {
        Some(FileTypeKind::Directory) => true,
        Some(FileTypeKind::Symlink) => match spec_stat(entries, b.1) {
            Some(fe) => match fe.link_target {
                Some(t) => spec_is_dir_at(entries, t@) && (forall|k: int|
                    0 <= k <= b.1.len() ==> b.1.take(k) != t@),
                None => false,
            },
            None => false,
        },
        _ => false,
    }
}

/// Whether the view holds a directory at the path.
pub open spec fn spec_is_dir_at(entries: Seq<FsEntry>, p: Seq<Seq<u8>>) -> bool {
    match spec_stat(entries, p) {
        Some(e) => e.kind == FileTypeKind::Directory,
        None => false,
    }
}

/// Decide whether an entry counts as a directory for traversal.
pub fn httm_is_dir(fs_view: &FsView, entry: &BasicDirEntryInfo) -> (r: bool)
    ensures
        r == spec_httm_is_dir(fs_view.entries@, entry@),
{
    match entry.file_type {
        Some(FileTypeKind::Directory) => true,
        Some(FileTypeKind::Symlink) => {
            let fe = match fs_view.stat(&entry.path) {
                Some(fe) => fe,
                None => {
                    return false;
                },
            };
            let target = match &fe.link_target {
                Some(t) => t,
                None => {
                    return false;
                },
            };
            let target_is_dir = match fs_view.stat(target) {
                Some(te) => match te.kind {
                    FileTypeKind::Directory => true,
                    _ => false,
                },
                None => false,
            };
            if !target_is_dir {
                return false;
            }
            let depth = entry.path.depth();
            let mut k: usize = depth;
            loop
                invariant
                    k <= depth,
                    depth == entry.path@.len(),
                    entry@.2 == Some(FileTypeKind::Symlink),
                    spec_stat(fs_view.entries@, entry.path@) is Some,
                    spec_stat(fs_view.entries@, entry.path@)->0.link_target is Some,
                    spec_stat(fs_view.entries@, entry.path@)->0.link_target->0@ == target@,
                    spec_is_dir_at(fs_view.entries@, target@),
                    forall|j: int| k < j <= depth ==> entry.path@.take(j) != target@,
                ensures
                    forall|j: int| 0 <= j <= depth ==> entry.path@.take(j) != target@,
                decreases k,
            {
                let ancestor = entry.path.ancestor(k);
                if ancestor.path_eq(target) {
                    proof {
                        assert(entry.path@.take(k as int) == target@);
                    }
                    return false;
                }
                if k == 0 {
                    break;
                }
                k -= 1;
            }
            true
        },
        _ => false,
    }
}

/// Whether an entry is treated as a directory: under `no-traverse` the raw
/// file-type verdict alone decides; otherwise symlinks are resolved with the
/// loop guard.
pub open spec fn spec_is_entry_dir(
    cfg: Config,
    entries: Seq<FsEntry>,
    b: (Seq<u8>, Seq<Seq<u8>>, Option<FileTypeKind>),
) -> bool {
    if cfg.opt_no_traverse {
        b.2 == Some(FileTypeKind::Directory)
    } else {
        spec_httm_is_dir(entries, b)
    }
}

/// Decide whether an entry is treated as a directory.
pub fn is_entry_dir(config: &Config, fs_view: &FsView, entry: &BasicDirEntryInfo) -> (r: bool)
    ensures
        r == spec_is_entry_dir(*config, fs_view.entries@, entry@),
{
    if config.opt_no_traverse {
        match entry.file_type {
            Some(FileTypeKind::Directory) => true,
            _ => false,
        }
    } else {
        httm_is_dir(fs_view, entry)
    }
}

/// The views of a sequence of entries.
pub open spec fn bde_views(s: Seq<BasicDirEntryInfo>) -> Seq<
    (Seq<u8>, Seq<Seq<u8>>, Option<FileTypeKind>),
> {
    s.map_values(|b: BasicDirEntryInfo| b@)
}

/// The filtered listing of a directory.
pub open spec fn spec_kept_listing(cfg: Config, entries: Seq<FsEntry>, d: Seq<Seq<u8>>) -> Seq<
    (Seq<u8>, Seq<Seq<u8>>, Option<FileTypeKind>),
> {
    spec_read_dir(entries, d).filter(
        |b: (Seq<u8>, Seq<Seq<u8>>, Option<FileTypeKind>)| spec_keep_entry(cfg, b),
    )
}

/// The filtered listing, split into directories and the rest.
pub open spec fn spec_partitioned(cfg: Config, entries: Seq<FsEntry>, d: Seq<Seq<u8>>) -> (
    Seq<(Seq<u8>, Seq<Seq<u8>>, Option<FileTypeKind>)>,
    Seq<(Seq<u8>, Seq<Seq<u8>>, Option<FileTypeKind>)>,
) {
    let kept = spec_kept_listing(cfg, entries, d);
    (
        kept.filter(
            |b: (Seq<u8>, Seq<Seq<u8>>, Option<FileTypeKind>)| spec_is_entry_dir(cfg, entries, b),
        ),
        kept.filter(
            |b: (Seq<u8>, Seq<Seq<u8>>, Option<FileTypeKind>)| !spec_is_entry_dir(cfg, entries, b),
        ),
    )
}

/// Read a directory, apply the filtering rules, and split the entries into
/// directories and files.
pub fn get_entries_partitioned(config: &Config, fs_view: &FsView, requested_dir: &HttmPath) -> (r: (
    Vec<BasicDirEntryInfo>,
    Vec<BasicDirEntryInfo>,
))
    ensures
        bde_views(r.0@) == spec_partitioned(*config, fs_view.entries@, requested_dir@).0,
        bde_views(r.1@) == spec_partitioned(*config, fs_view.entries@, requested_dir@).1,
{
    let ghost keepf = |b: (Seq<u8>, Seq<Seq<u8>>, Option<FileTypeKind>)| spec_keep_entry(*config, b);
    let ghost dirf = |b: (Seq<u8>, Seq<Seq<u8>>, Option<FileTypeKind>)|
        spec_is_entry_dir(*config, fs_view.entries@, b);
    let ghost notdirf = |b: (Seq<u8>, Seq<Seq<u8>>, Option<FileTypeKind>)|
        !spec_is_entry_dir(*config, fs_view.entries@, b);
    let listing = fs_view.read_dir(requested_dir);
    let ghost lviews = bde_views(listing@);
    let mut vec_dirs: Vec<BasicDirEntryInfo> = Vec::new();
    let mut vec_files: Vec<BasicDirEntryInfo> = Vec::new();
    let mut i: usize = 0;
    proof {
        reveal(Seq::filter);
        assert(lviews.take(0) =~= Seq::<(Seq<u8>, Seq<Seq<u8>>, Option<FileTypeKind>)>::empty());
        assert(bde_views(vec_dirs@) =~= lviews.take(0).filter(keepf).filter(dirf));
        assert(bde_views(vec_files@) =~= lviews.take(0).filter(keepf).filter(notdirf));
    }
    while i < listing.len()
        invariant
            i <= listing@.len(),
            lviews == bde_views(listing@),
            keepf == (|b: (Seq<u8>, Seq<Seq<u8>>, Option<FileTypeKind>)|
                spec_keep_entry(*config, b)),
            dirf == (|b: (Seq<u8>, Seq<Seq<u8>>, Option<FileTypeKind>)|
                spec_is_entry_dir(*config, fs_view.entries@, b)),
            notdirf == (|b: (Seq<u8>, Seq<Seq<u8>>, Option<FileTypeKind>)|
                !spec_is_entry_dir(*config, fs_view.entries@, b)),
            bde_views(vec_dirs@) == lviews.take(i as int).filter(keepf).filter(dirf),
            bde_views(vec_files@) == lviews.take(i as int).filter(keepf).filter(notdirf),
        decreases listing@.len() - i,
    {
        let entry = &listing[i];
        proof {
            reveal(Seq::filter);
            assert(lviews.take(i as int + 1).drop_last() =~= lviews.take(i as int));
            assert(lviews.take(i as int + 1).last() == lviews[i as int]);
            assert(lviews[i as int] == listing@[i as int]@);
        }
        let ghost kept_pre = lviews.take(i as int).filter(keepf);
        let ghost kept_post = lviews.take(i as int + 1).filter(keepf);
        if keep_entry(config, entry) {
            proof {
                reveal(Seq::filter);
                assert(kept_post == kept_pre.push(lviews[i as int]));
                assert(kept_post.drop_last() =~= kept_pre);
                assert(kept_post.last() == lviews[i as int]);
            }
            let ghost dirs_pre = vec_dirs@;
            let ghost files_pre = vec_files@;
            if is_entry_dir(config, fs_view, entry) {
                vec_dirs.push(entry.clone());
                proof {
                    reveal(Seq::filter);
                    assert(bde_views(vec_dirs@) =~= bde_views(dirs_pre).push(lviews[i as int]));
                }
            } else {
                vec_files.push(entry.clone());
                proof {
                    reveal(Seq::filter);
                    assert(bde_views(vec_files@) =~= bde_views(files_pre).push(lviews[i as int]));
                }
            }
        } else {
            proof {
                reveal(Seq::filter);
                assert(kept_post == kept_pre);
            }
        }
        i += 1;
    }
    proof {
        assert(lviews.take(lviews.len() as int) =~= lviews);
        assert(listing@.take(listing@.len() as int) =~= listing@);
    }
    (vec_dirs, vec_files)
}

} // verus!

verus! {

/// One streamed item: an absolute path, its file-type hint, and whether the
/// record is phantom (found only in snapshots).
pub struct SelectionCandidate {
    pub path: HttmPath,
    pub file_type: Option<FileTypeKind>,
    pub is_phantom: bool,
}

impl View for SelectionCandidate {
    type V = (Seq<Seq<u8>>, Option<FileTypeKind>, bool);

    open spec fn view(&self) -> (Seq<Seq<u8>>, Option<FileTypeKind>, bool) {
        (self.path@, self.file_type, self.is_phantom)
    }
}

/// The views of a sequence of streamed items.
pub open spec fn sc_views(s: Seq<SelectionCandidate>) -> Seq<
    (Seq<Seq<u8>>, Option<FileTypeKind>, bool),
> {
    s.map_values(|c: SelectionCandidate| c@)
}

/// The pseudo-live rehoming of one entry under the pseudo-live directory:
/// the entry's name below `d`.
pub open spec fn spec_pseudo_live(
    b: (Seq<u8>, Seq<Seq<u8>>, Option<FileTypeKind>),
    d: Seq<Seq<u8>>,
) -> (Seq<Seq<u8>>, Option<FileTypeKind>, bool) {
    if b.1.len() > 0 {
        (d.push(b.1.last()), b.2, true)
    } else {
        (d, b.2, true)
    }
}

/// What one directory contributes to the stream: its files then its
/// directories, rehomed and marked phantom for the deleted scanner; live
/// entries are withheld in deleted-only mode and for the batching printer.
pub open spec fn spec_combined(
    cfg: Config,
    entries: Seq<FsEntry>,
    d: Seq<Seq<u8>>,
    is_phantom: bool,
) -> Seq<(Seq<Seq<u8>>, Option<FileTypeKind>, bool)> {
    let parts = spec_partitioned(cfg, entries, d);
    let combined = parts.1 + parts.0;
    if is_phantom {
        combined.map_values(
            |b: (Seq<u8>, Seq<Seq<u8>>, Option<FileTypeKind>)| spec_pseudo_live(b, d),
        )
    } else if cfg.deleted_mode == DeletedMode::Only || cfg.exec_mode
        == ExecMode::NonInteractiveRecursive {
        Seq::empty()
    } else {
        combined.map_values(
            |b: (Seq<u8>, Seq<Seq<u8>>, Option<FileTypeKind>)| (b.1, b.2, false),
        )
    }
}

/// Turn partitioned entries into streamed items: files then directories,
/// rehomed under the pseudo-live directory when phantom, withheld when live
/// items must not flow.
pub fn combine_and_send_entries(
    config: &Config,
    vec_files: Vec<BasicDirEntryInfo>,
    vec_dirs: &Vec<BasicDirEntryInfo>,
    is_phantom: bool,
    requested_dir: &HttmPath,
) -> (r: Vec<SelectionCandidate>)
    requires
        is_phantom ==> forall|j: int| 0 <= j < vec_files@.len() ==> (#[trigger] vec_files@[j])@.1.len() > 0,
        is_phantom ==> forall|j: int| 0 <= j < vec_dirs@.len() ==> (#[trigger] vec_dirs@[j])@.1.len() > 0,
    ensures
        is_phantom ==> sc_views(r@) == (bde_views(vec_files@) + bde_views(vec_dirs@)).map_values(
            |b: (Seq<u8>, Seq<Seq<u8>>, Option<FileTypeKind>)| spec_pseudo_live(b, requested_dir@),
        ),
        !is_phantom && (config.deleted_mode == DeletedMode::Only || config.exec_mode
            == ExecMode::NonInteractiveRecursive) ==> sc_views(r@) == Seq::<
            (Seq<Seq<u8>>, Option<FileTypeKind>, bool),
        >::empty(),
        !is_phantom && !(config.deleted_mode == DeletedMode::Only || config.exec_mode
            == ExecMode::NonInteractiveRecursive) ==> sc_views(r@) == (bde_views(vec_files@)
            + bde_views(vec_dirs@)).map_values(
            |b: (Seq<u8>, Seq<Seq<u8>>, Option<FileTypeKind>)| (b.1, b.2, false),
        ),
{
    let ghost combined_views = bde_views(vec_files@) + bde_views(vec_dirs@);
    let mut r: Vec<SelectionCandidate> = Vec::new();
    if !is_phantom {
        let withhold = match config.deleted_mode {
            DeletedMode::Only => true,
            _ => match config.exec_mode {
                ExecMode::NonInteractiveRecursive => true,
                _ => false,
            },
        };
        if withhold {
            proof {
                assert(sc_views(r@) =~= Seq::<
                    (Seq<Seq<u8>>, Option<FileTypeKind>, bool),
                >::empty());
            }
            return r;
        }
    }
    let mut i: usize = 0;
    while i < vec_files.len()
        invariant
            i <= vec_files@.len(),
            combined_views == bde_views(vec_files@) + bde_views(vec_dirs@),
            is_phantom ==> forall|j: int|
                0 <= j < vec_files@.len() ==> (#[trigger] vec_files@[j])@.1.len() > 0,
            is_phantom ==> sc_views(r@) == combined_views.take(i as int).map_values(
                |b: (Seq<u8>, Seq<Seq<u8>>, Option<FileTypeKind>)| spec_pseudo_live(
                    b,
                    requested_dir@,
                ),
            ),
            !is_phantom ==> sc_views(r@) == combined_views.take(i as int).map_values(
                |b: (Seq<u8>, Seq<Seq<u8>>, Option<FileTypeKind>)| (b.1, b.2, false),
            ),
        decreases vec_files@.len() - i,
    {
        let ghost pre = r@;
        let entry = &vec_files[i];
        proof {
            assert(combined_views[i as int] == vec_files@[i as int]@);
        }
        if is_phantom {
            let path = match entry.path.file_name() {
                Some(name) => requested_dir.join_component(name),
                None => requested_dir.clone(),
            };
            r.push(SelectionCandidate { path, file_type: entry.file_type, is_phantom: true });
            proof {
                assert(sc_views(r@) =~= sc_views(pre).push(
                    spec_pseudo_live(combined_views[i as int], requested_dir@),
                ));
            }
        } else {
            r.push(
                SelectionCandidate {
                    path: entry.path.clone(),
                    file_type: entry.file_type,
                    is_phantom: false,
                },
            );
            proof {
                assert(sc_views(r@) =~= sc_views(pre).push(
                    (
                        combined_views[i as int].1,
                        combined_views[i as int].2,
                        false,
                    ),
                ));
            }
        }
        proof {
            let f1 = |b: (Seq<u8>, Seq<Seq<u8>>, Option<FileTypeKind>)| spec_pseudo_live(
                b,
                requested_dir@,
            );
            let f2 = |b: (Seq<u8>, Seq<Seq<u8>>, Option<FileTypeKind>)| (b.1, b.2, false);
            assert(combined_views.take(i as int + 1).map_values(f1) =~= combined_views.take(
                i as int,
            ).map_values(f1).push(f1(combined_views[i as int])));
            assert(combined_views.take(i as int + 1).map_values(f2) =~= combined_views.take(
                i as int,
            ).map_values(f2).push(f2(combined_views[i as int])));
        }
        i += 1;
    }
    let flen = vec_files.len();
    let mut k: usize = 0;
    while k < vec_dirs.len()
        invariant
            k <= vec_dirs@.len(),
            flen == vec_files@.len(),
            combined_views == bde_views(vec_files@) + bde_views(vec_dirs@),
            is_phantom ==> forall|j: int|
                0 <= j < vec_dirs@.len() ==> (#[trigger] vec_dirs@[j])@.1.len() > 0,
            is_phantom ==> sc_views(r@) == combined_views.take(flen + k as int).map_values(
                |b: (Seq<u8>, Seq<Seq<u8>>, Option<FileTypeKind>)| spec_pseudo_live(
                    b,
                    requested_dir@,
                ),
            ),
            !is_phantom ==> sc_views(r@) == combined_views.take(flen + k as int).map_values(
                |b: (Seq<u8>, Seq<Seq<u8>>, Option<FileTypeKind>)| (b.1, b.2, false),
            ),
        decreases vec_dirs@.len() - k,
    {
        let ghost pre = r@;
        let entry = &vec_dirs[k];
        proof {
            assert(combined_views[flen + k as int] == vec_dirs@[k as int]@);
        }
        if is_phantom {
            let path = match entry.path.file_name() {
                Some(name) => requested_dir.join_component(name),
                None => requested_dir.clone(),
            };
            r.push(SelectionCandidate { path, file_type: entry.file_type, is_phantom: true });
            proof {
                assert(sc_views(r@) =~= sc_views(pre).push(
                    spec_pseudo_live(combined_views[flen + k as int], requested_dir@),
                ));
            }
        } else {
            r.push(
                SelectionCandidate {
                    path: entry.path.clone(),
                    file_type: entry.file_type,
                    is_phantom: false,
                },
            );
            proof {
                assert(sc_views(r@) =~= sc_views(pre).push(
                    (
                        combined_views[flen + k as int].1,
                        combined_views[flen + k as int].2,
                        false,
                    ),
                ));
            }
        }
        proof {
            let f1 = |b: (Seq<u8>, Seq<Seq<u8>>, Option<FileTypeKind>)| spec_pseudo_live(
                b,
                requested_dir@,
            );
            let f2 = |b: (Seq<u8>, Seq<Seq<u8>>, Option<FileTypeKind>)| (b.1, b.2, false);
            assert(combined_views.take(flen + k as int + 1).map_values(f1) =~= combined_views.take(
                flen + k as int,
            ).map_values(f1).push(f1(combined_views[flen + k as int])));
            assert(combined_views.take(flen + k as int + 1).map_values(f2) =~= combined_views.take(
                flen + k as int,
            ).map_values(f2).push(f2(combined_views[flen + k as int])));
        }
        k += 1;
    }
    proof {
        assert(combined_views.take(combined_views.len() as int) =~= combined_views);
    }
    r
}

} // verus!

verus! {

/// The single-threaded LIFO walk that drives live enumeration: directories
/// wait in a queue whose back is popped first, so results appear depth-first
/// near the user's starting point.
pub struct RecursiveMainLoop {
    pub queue: Vec<BasicDirEntryInfo>,
}

impl RecursiveMainLoop {
    /// Process one directory: the items it contributes to the stream, and
    /// its child directories for the queue.
    pub fn new(config: &Config, fs_view: &FsView, requested_dir: &HttmPath) -> (r: (
        Vec<BasicDirEntryInfo>,
        Vec<SelectionCandidate>,
    ))
        ensures
            bde_views(r.0@) == spec_partitioned(*config, fs_view.entries@, requested_dir@).0,
            sc_views(r.1@) == spec_combined(*config, fs_view.entries@, requested_dir@, false),
    {
        let (vec_dirs, vec_files) = get_entries_partitioned(config, fs_view, requested_dir);
        let items = combine_and_send_entries(config, vec_files, &vec_dirs, false, requested_dir);
        (vec_dirs, items)
    }

    /// Start the walk at the requested directory: its items flow first, and
    /// its child directories prime the queue.
    pub fn start(config: &Config, fs_view: &FsView, requested_dir: &HttmPath) -> (r: (
        Self,
        Vec<SelectionCandidate>,
    ))
        ensures
            bde_views(r.0.queue@) == spec_partitioned(*config, fs_view.entries@, requested_dir@).0,
            sc_views(r.1@) == spec_combined(*config, fs_view.entries@, requested_dir@, false),
    {
        let (queue, items) = Self::new(config, fs_view, requested_dir);
        (RecursiveMainLoop { queue }, items)
    }

    /// Whether the walk is finished.
    pub fn is_done(&self) -> (r: bool)
        ensures
            r == (self.queue@.len() == 0),
    {
        self.queue.len() == 0
    }

    /// One iteration of the walk, checked against the hangup beacon first.
    /// Once the beacon is closed, no further directory is processed: the
    /// queue is abandoned and nothing more is emitted — the cancellation
    /// happens within one directory of work.
    pub fn step(&mut self, config: &Config, fs_view: &FsView, hangup: bool) -> (r: Vec<
        SelectionCandidate,
    >)
        ensures
            hangup ==> final(self).queue@.len() == 0 && r@.len() == 0,
            !hangup && old(self).queue@.len() == 0 ==> final(self).queue@ == old(self).queue@
                && r@.len() == 0,
            !hangup && old(self).queue@.len() > 0 ==> sc_views(r@) == spec_combined(
                *config,
                fs_view.entries@,
                old(self).queue@.last()@.1,
                false,
            ) && bde_views(final(self).queue@) == bde_views(old(self).queue@.drop_last())
                + spec_partitioned(*config, fs_view.entries@, old(self).queue@.last()@.1).0,
    {
        if hangup {
            self.queue.clear();
            return Vec::new();
        }
        let item = match self.queue.pop() {
            Some(item) => item,
            None => {
                return Vec::new();
            },
        };
        let (mut dirs, items) = Self::new(config, fs_view, &item.path);
        proof {
            assert(item@.1 == old(self).queue@.last()@.1);
        }
        let ghost mid = self.queue@;
        let ghost added = dirs@;
        self.queue.append(&mut dirs);
        proof {
            assert(self.queue@ =~= mid + added);
            assert(bde_views(self.queue@) =~= bde_views(mid) + bde_views(added));
        }
        items
    }
}

} // verus!

verus! {

/// The full stream of one recursive enumeration from `d`, depth-first in
/// listing order, down to the given depth budget.  A budget of at least the
/// view's deepest path always suffices.
pub open spec fn spec_enumerate(cfg: Config, entries: Seq<FsEntry>, d: Seq<Seq<u8>>, fuel: nat) -> Seq<
    (Seq<Seq<u8>>, Option<FileTypeKind>, bool),
>
    decreases fuel, 0nat,
{
    if fuel == 0 {
        Seq::empty()
    } else {
        spec_combined(cfg, entries, d, false) + spec_enumerate_list(
            cfg,
            entries,
            spec_partitioned(cfg, entries, d).0,
            (fuel - 1) as nat,
        )
    }
}

/// The streams of a list of directories, one after the other.
pub open spec fn spec_enumerate_list(
    cfg: Config,
    entries: Seq<FsEntry>,
    ds: Seq<(Seq<u8>, Seq<Seq<u8>>, Option<FileTypeKind>)>,
    fuel: nat,
) -> Seq<(Seq<Seq<u8>>, Option<FileTypeKind>, bool)>
    decreases fuel, ds.len() + 1,
{
    if ds.len() == 0 {
        Seq::empty()
    } else {
        spec_enumerate(cfg, entries, ds[0].1, fuel) + spec_enumerate_list(
            cfg,
            entries,
            ds.skip(1),
            fuel,
        )
    }
}

/// Enumerate a directory tree depth-first into one vector, down to the given
/// depth budget.  This is the engine of the batching (non-interactive)
/// search, where the stream is collected rather than transmitted.
pub fn enumerate_directory(config: &Config, fs_view: &FsView, requested_dir: &HttmPath, fuel: usize) -> (r:
    Vec<SelectionCandidate>)
    ensures
        sc_views(r@) == spec_enumerate(*config, fs_view.entries@, requested_dir@, fuel as nat),
    decreases fuel,
{
    let mut r: Vec<SelectionCandidate> = Vec::new();
    if fuel == 0 {
        proof {
            assert(sc_views(r@) =~= Seq::<(Seq<Seq<u8>>, Option<FileTypeKind>, bool)>::empty());
        }
        return r;
    }
    let (vec_dirs, vec_files) = get_entries_partitioned(config, fs_view, requested_dir);
    let mut items = combine_and_send_entries(config, vec_files, &vec_dirs, false, requested_dir);
    let ghost items_views = sc_views(items@);
    r.append(&mut items);
    proof {
        assert(sc_views(r@) =~= items_views);
    }
    let ghost dviews = bde_views(vec_dirs@);
    let mut i: usize = 0;
    proof {
        assert(dviews.skip(0) =~= dviews);
    }
    while i < vec_dirs.len()
        invariant
            i <= vec_dirs@.len(),
            fuel >= 1,
            dviews == bde_views(vec_dirs@),
            dviews == spec_partitioned(*config, fs_view.entries@, requested_dir@).0,
            spec_enumerate(*config, fs_view.entries@, requested_dir@, fuel as nat) == sc_views(r@)
                + spec_enumerate_list(
                *config,
                fs_view.entries@,
                dviews.skip(i as int),
                (fuel - 1) as nat,
            ),
        decreases vec_dirs@.len() - i,
    {
        let mut sub = enumerate_directory(config, fs_view, &vec_dirs[i].path, fuel - 1);
        let ghost sub_views = sc_views(sub@);
        let ghost r_pre = sc_views(r@);
        r.append(&mut sub);
        proof {
            assert(sc_views(r@) =~= r_pre + sub_views);
            assert(dviews.skip(i as int)[0] == dviews[i as int]);
            assert(dviews.skip(i as int).skip(1) =~= dviews.skip(i as int + 1));
            assert(dviews[i as int].1 == vec_dirs@[i as int]@.1);
            assert(r_pre + (sub_views + spec_enumerate_list(
                *config,
                fs_view.entries@,
                dviews.skip(i as int + 1),
                (fuel - 1) as nat,
            )) =~= sc_views(r@) + spec_enumerate_list(
                *config,
                fs_view.entries@,
                dviews.skip(i as int + 1),
                (fuel - 1) as nat,
            ));
        }
        i += 1;
    }
    proof {
        assert(dviews.skip(dviews.len() as int) =~= Seq::<
            (Seq<u8>, Seq<Seq<u8>>, Option<FileTypeKind>),
        >::empty());
        assert(sc_views(r@) + Seq::<(Seq<Seq<u8>>, Option<FileTypeKind>, bool)>::empty()
            =~= sc_views(r@));
    }
    r
}

} // verus!

verus! {

/// The configuration fields the enumeration reads, equal in both
/// configurations, except that the second has one more filter directory.
pub open spec fn cfg_with_extra_filter_dir(cfg1: Config, cfg2: Config, extra: HttmPath) -> bool {
    &&& cfg1.opt_no_filter == cfg2.opt_no_filter
    &&& cfg1.opt_no_hidden == cfg2.opt_no_hidden
    &&& cfg1.opt_no_traverse == cfg2.opt_no_traverse
    &&& cfg1.deleted_mode == cfg2.deleted_mode
    &&& cfg1.exec_mode == cfg2.exec_mode
    &&& cfg1.opt_requested_dir == cfg2.opt_requested_dir
    &&& cfg1.dataset_collection.opt_common_snap_dir
        == cfg2.dataset_collection.opt_common_snap_dir
    &&& cfg2.dataset_collection.vec_of_filter_dirs@
        == cfg1.dataset_collection.vec_of_filter_dirs@.push(extra)
}

/// Adding a filter directory can only block more directories, never fewer.
proof fn lemma_filter_dir_monotone(cfg1: Config, cfg2: Config, extra: HttmPath, p: Seq<Seq<u8>>)
    requires
        cfg_with_extra_filter_dir(cfg1, cfg2, extra),
    ensures
        spec_is_filter_dir(cfg1, p) ==> spec_is_filter_dir(cfg2, p),
{
    let f1 = cfg1.dataset_collection.vec_of_filter_dirs@;
    let f2 = cfg2.dataset_collection.vec_of_filter_dirs@;
    assert(f2.drop_last() =~= f1);
    assert(f2.last() == extra);
    assert(crate::filesystem_map::spec_filter_dirs_max_len(f1)
        <= crate::filesystem_map::spec_filter_dirs_max_len(f2));
    if spec_filter_dirs_contain(f1, p) {
        let i = choose|i: int| 0 <= i < f1.len() && (#[trigger] f1[i])@ == p;
        assert(f2[i]@ == p);
        assert(spec_filter_dirs_contain(f2, p));
    }
}

/// Adding a filter directory can only drop entries from the filtered
/// listing, never keep more.
proof fn lemma_keep_entry_monotone(
    cfg1: Config,
    cfg2: Config,
    extra: HttmPath,
    b: (Seq<u8>, Seq<Seq<u8>>, Option<FileTypeKind>),
)
    requires
        cfg_with_extra_filter_dir(cfg1, cfg2, extra),
    ensures
        spec_keep_entry(cfg2, b) ==> spec_keep_entry(cfg1, b),
{
    lemma_filter_dir_monotone(cfg1, cfg2, extra, b.1);
}

/// The partitioned directory and file listings of the stricter
/// configuration are subsets of the original's.
proof fn lemma_partitioned_monotone(
    cfg1: Config,
    cfg2: Config,
    extra: HttmPath,
    entries: Seq<FsEntry>,
    d: Seq<Seq<u8>>,
)
    requires
        cfg_with_extra_filter_dir(cfg1, cfg2, extra),
    ensures
        forall|b: (Seq<u8>, Seq<Seq<u8>>, Option<FileTypeKind>)|
            #[trigger] spec_partitioned(cfg2, entries, d).0.contains(b) ==> spec_partitioned(
                cfg1,
                entries,
                d,
            ).0.contains(b),
        forall|b: (Seq<u8>, Seq<Seq<u8>>, Option<FileTypeKind>)|
            #[trigger] spec_partitioned(cfg2, entries, d).1.contains(b) ==> spec_partitioned(
                cfg1,
                entries,
                d,
            ).1.contains(b),
{
    let listing = spec_read_dir(entries, d);
    let keep1 = |b: (Seq<u8>, Seq<Seq<u8>>, Option<FileTypeKind>)| spec_keep_entry(cfg1, b);
    let keep2 = |b: (Seq<u8>, Seq<Seq<u8>>, Option<FileTypeKind>)| spec_keep_entry(cfg2, b);
    let dirf = |b: (Seq<u8>, Seq<Seq<u8>>, Option<FileTypeKind>)|
        spec_is_entry_dir(cfg1, entries, b);
    let dirf2 = |b: (Seq<u8>, Seq<Seq<u8>>, Option<FileTypeKind>)|
        spec_is_entry_dir(cfg2, entries, b);
    assert(dirf =~= dirf2);
    let notdirf = |b: (Seq<u8>, Seq<Seq<u8>>, Option<FileTypeKind>)|
        !spec_is_entry_dir(cfg1, entries, b);
    let notdirf2 = |b: (Seq<u8>, Seq<Seq<u8>>, Option<FileTypeKind>)|
        !spec_is_entry_dir(cfg2, entries, b);
    assert(notdirf =~= notdirf2);
    assert forall|b: (Seq<u8>, Seq<Seq<u8>>, Option<FileTypeKind>)|
        #[trigger] listing.filter(keep2).contains(b) implies listing.filter(keep1).contains(b) by {
        broadcast use vstd::seq_lib::group_filter_ensures;

        listing.lemma_filter_contains_rev(keep2, b);
        let i = choose|i: int| 0 <= i < listing.len() && listing[i] == b;
        lemma_keep_entry_monotone(cfg1, cfg2, extra, b);
        listing.lemma_filter_contains(keep1, i);
    }
    assert forall|b: (Seq<u8>, Seq<Seq<u8>>, Option<FileTypeKind>)|
        #[trigger] spec_kept_listing(cfg2, entries, d).filter(dirf2).contains(b) implies
        spec_kept_listing(cfg1, entries, d).filter(dirf).contains(b) by {
        broadcast use vstd::seq_lib::group_filter_ensures;

        let kept2 = spec_kept_listing(cfg2, entries, d);
        let kept1 = spec_kept_listing(cfg1, entries, d);
        kept2.lemma_filter_contains_rev(dirf2, b);
        assert(kept1.contains(b));
        let i = choose|i: int| 0 <= i < kept1.len() && kept1[i] == b;
        assert(dirf(b));
        kept1.lemma_filter_contains(dirf, i);
    }
    assert forall|b: (Seq<u8>, Seq<Seq<u8>>, Option<FileTypeKind>)|
        #[trigger] spec_kept_listing(cfg2, entries, d).filter(notdirf2).contains(b) implies
        spec_kept_listing(cfg1, entries, d).filter(notdirf).contains(b) by {
        broadcast use vstd::seq_lib::group_filter_ensures;

        let kept2 = spec_kept_listing(cfg2, entries, d);
        let kept1 = spec_kept_listing(cfg1, entries, d);
        kept2.lemma_filter_contains_rev(notdirf2, b);
        assert(kept1.contains(b));
        let i = choose|i: int| 0 <= i < kept1.len() && kept1[i] == b;
        assert(notdirf(b));
        kept1.lemma_filter_contains(notdirf, i);
    }
}

/// Every item a directory contributes under the stricter configuration is
/// contributed under the original one too.
proof fn lemma_combined_monotone(
    cfg1: Config,
    cfg2: Config,
    extra: HttmPath,
    entries: Seq<FsEntry>,
    d: Seq<Seq<u8>>,
)
    requires
        cfg_with_extra_filter_dir(cfg1, cfg2, extra),
    ensures
        forall|x: (Seq<Seq<u8>>, Option<FileTypeKind>, bool)|
            #[trigger] spec_combined(cfg2, entries, d, false).contains(x) ==> spec_combined(
                cfg1,
                entries,
                d,
                false,
            ).contains(x),
{
    lemma_partitioned_monotone(cfg1, cfg2, extra, entries, d);
    let p1 = spec_partitioned(cfg1, entries, d);
    let p2 = spec_partitioned(cfg2, entries, d);
    let c1 = p1.1 + p1.0;
    let c2 = p2.1 + p2.0;
    let live = |b: (Seq<u8>, Seq<Seq<u8>>, Option<FileTypeKind>)| (b.1, b.2, false);
    assert forall|x: (Seq<Seq<u8>>, Option<FileTypeKind>, bool)|
        #[trigger] spec_combined(cfg2, entries, d, false).contains(x) implies spec_combined(
        cfg1,
        entries,
        d,
        false,
    ).contains(x) by {
        if !(cfg1.deleted_mode == DeletedMode::Only || cfg1.exec_mode
            == ExecMode::NonInteractiveRecursive) {
            let k = choose|k: int| 0 <= k < c2.len() && c2.map_values(live)[k] == x;
            assert(c2.map_values(live)[k] == live(c2[k]));
            let b = c2[k];
            assert(c2.contains(b));
            if k < p2.1.len() {
                assert(p2.1[k] == b);
                assert(p2.1.contains(b));
            } else {
                assert(p2.0[k - p2.1.len()] == b);
                assert(p2.0.contains(b));
            }
            if p1.1.contains(b) {
                let m = choose|m: int| 0 <= m < p1.1.len() && p1.1[m] == b;
                assert(c1[m] == b);
                assert(c1.map_values(live)[m] == x);
            } else {
                assert(p1.0.contains(b));
                let m = choose|m: int| 0 <= m < p1.0.len() && p1.0[m] == b;
                assert(c1[p1.1.len() + m] == b);
                assert(c1.map_values(live)[p1.1.len() + m] == x);
            }
        }
    }
}

/// An item of a concatenated list stream belongs to some member's stream.
proof fn lemma_enumerate_list_contains(
    cfg: Config,
    entries: Seq<FsEntry>,
    ds: Seq<(Seq<u8>, Seq<Seq<u8>>, Option<FileTypeKind>)>,
    fuel: nat,
    x: (Seq<Seq<u8>>, Option<FileTypeKind>, bool),
)
    requires
        spec_enumerate_list(cfg, entries, ds, fuel).contains(x),
    ensures
        exists|i: int|
            0 <= i < ds.len() && spec_enumerate(cfg, entries, (#[trigger] ds[i]).1, fuel).contains(
                x,
            ),
    decreases ds.len(),
{
    if ds.len() == 0 {
    } else {
        let head = spec_enumerate(cfg, entries, ds[0].1, fuel);
        let rest = spec_enumerate_list(cfg, entries, ds.skip(1), fuel);
        let k = choose|k: int|
            0 <= k < (head + rest).len() && (head + rest)[k] == x;
        if k < head.len() {
            assert(head[k] == x);
            assert(head.contains(x));
        } else {
            assert(rest[k - head.len()] == x);
            assert(rest.contains(x));
            lemma_enumerate_list_contains(cfg, entries, ds.skip(1), fuel, x);
            let i = choose|i: int|
                0 <= i < ds.skip(1).len() && spec_enumerate(
                    cfg,
                    entries,
                    (#[trigger] ds.skip(1)[i]).1,
                    fuel,
                ).contains(x);
            assert(ds[i + 1] == ds.skip(1)[i]);
        }
    }
}

/// A member's stream is contained in the concatenated list stream.
proof fn lemma_enumerate_list_member(
    cfg: Config,
    entries: Seq<FsEntry>,
    ds: Seq<(Seq<u8>, Seq<Seq<u8>>, Option<FileTypeKind>)>,
    fuel: nat,
    i: int,
    x: (Seq<Seq<u8>>, Option<FileTypeKind>, bool),
)
    requires
        0 <= i < ds.len(),
        spec_enumerate(cfg, entries, ds[i].1, fuel).contains(x),
    ensures
        spec_enumerate_list(cfg, entries, ds, fuel).contains(x),
    decreases i,
{
    let head = spec_enumerate(cfg, entries, ds[0].1, fuel);
    let rest = spec_enumerate_list(cfg, entries, ds.skip(1), fuel);
    if i == 0 {
        let k = choose|k: int| 0 <= k < head.len() && head[k] == x;
        assert((head + rest)[k] == x);
    } else {
        assert(ds.skip(1)[i - 1] == ds[i]);
        lemma_enumerate_list_member(cfg, entries, ds.skip(1), fuel, i - 1, x);
        let k = choose|k: int| 0 <= k < rest.len() && rest[k] == x;
        assert((head + rest)[head.len() + k] == x);
    }
}

/// The filter-monotonicity law: adding a directory to the filter set can
/// only remove items from the recursive stream, never add any.
pub proof fn lemma_filter_monotone(
    cfg1: Config,
    cfg2: Config,
    extra: HttmPath,
    entries: Seq<FsEntry>,
    d: Seq<Seq<u8>>,
    fuel: nat,
)
    requires
        cfg_with_extra_filter_dir(cfg1, cfg2, extra),
    ensures
        forall|x: (Seq<Seq<u8>>, Option<FileTypeKind>, bool)|
            #[trigger] spec_enumerate(cfg2, entries, d, fuel).contains(x) ==> spec_enumerate(
                cfg1,
                entries,
                d,
                fuel,
            ).contains(x),
    decreases fuel,
{
    if fuel == 0 {
    } else {
        lemma_combined_monotone(cfg1, cfg2, extra, entries, d);
        lemma_partitioned_monotone(cfg1, cfg2, extra, entries, d);
        let items1 = spec_combined(cfg1, entries, d, false);
        let items2 = spec_combined(cfg2, entries, d, false);
        let dirs1 = spec_partitioned(cfg1, entries, d).0;
        let dirs2 = spec_partitioned(cfg2, entries, d).0;
        let rest1 = spec_enumerate_list(cfg1, entries, dirs1, (fuel - 1) as nat);
        let rest2 = spec_enumerate_list(cfg2, entries, dirs2, (fuel - 1) as nat);
        assert forall|x: (Seq<Seq<u8>>, Option<FileTypeKind>, bool)|
            #[trigger] spec_enumerate(cfg2, entries, d, fuel).contains(x) implies spec_enumerate(
            cfg1,
            entries,
            d,
            fuel,
        ).contains(x) by {
            let k = choose|k: int|
                0 <= k < (items2 + rest2).len() && (items2 + rest2)[k] == x;
            if k < items2.len() {
                assert(items2[k] == x);
                assert(items2.contains(x));
                assert(items1.contains(x));
                let m = choose|m: int| 0 <= m < items1.len() && items1[m] == x;
                assert((items1 + rest1)[m] == x);
                assert(spec_enumerate(cfg1, entries, d, fuel).contains(x));
            } else {
                assert(rest2[k - items2.len()] == x);
                assert(rest2.contains(x));
                lemma_enumerate_list_contains(cfg2, entries, dirs2, (fuel - 1) as nat, x);
                let i = choose|i: int|
                    0 <= i < dirs2.len() && spec_enumerate(
                        cfg2,
                        entries,
                        (#[trigger] dirs2[i]).1,
                        (fuel - 1) as nat,
                    ).contains(x);
                assert(dirs2.contains(dirs2[i]));
                assert(dirs1.contains(dirs2[i]));
                let m = choose|m: int| 0 <= m < dirs1.len() && dirs1[m] == dirs2[i];
                lemma_filter_monotone(cfg1, cfg2, extra, entries, dirs2[i].1, (fuel - 1) as nat);
                lemma_enumerate_list_member(cfg1, entries, dirs1, (fuel - 1) as nat, m, x);
                let kk = choose|kk: int| 0 <= kk < rest1.len() && rest1[kk] == x;
                assert((items1 + rest1)[items1.len() + kk] == x);
                assert(spec_enumerate(cfg1, entries, d, fuel).contains(x));
            }
        }
    }
}

} // verus!
