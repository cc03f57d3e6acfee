use vstd::prelude::*;

use crate::paths::{clone_bytes, HttmPath, PathMetadata};
use crate::versions::MostProximateAndOptAlts;

verus! {

/// The filesystem kinds whose snapshot conventions the engine understands.
#[derive(Clone, Copy, Debug, PartialEq, Eq, Structural)]
pub enum FilesystemType {
    Zfs,
    Btrfs,
}

/// Whether a dataset is local to this machine or mounted over the network.
#[derive(Clone, Copy, Debug, PartialEq, Eq, Structural)]
pub enum MountType {
    Local,
    Network,
}

/// The target of a user-declared alias: a remote snapshot-bearing directory
/// and the filesystem kind found there.
pub struct RemotePathAndFsType {
    pub remote_dir: HttmPath,
    pub fs_type: FilesystemType,
}

/// What the inventory knows about one dataset mount.
pub struct DatasetMetadata {
    pub name: Vec<u8>,
    pub fs_type: FilesystemType,
    pub mount_type: MountType,
}

/// Which groups of datasets a lookup searches.
#[derive(Clone, Copy, Debug, PartialEq, Eq, Structural)]
pub enum SnapDatasetType {
    MostProximate,
    AltReplicated,
}

/// The search strategy: only the proximate dataset, or the alternate
/// replicas as well.
#[derive(Clone, Copy, Debug, PartialEq, Eq, Structural)]
pub enum SnapsSelectedForSearch {
    MostProximateOnly,
    IncludeAltReplicated,
}

impl SnapsSelectedForSearch {
    /// The dataset types to search, alternates first so that their results
    /// render above the proximate set.
    pub fn get_value(&self) -> (r: Vec<SnapDatasetType>)
        ensures
            *self == SnapsSelectedForSearch::IncludeAltReplicated ==> r@ == seq![
                SnapDatasetType::AltReplicated,
                SnapDatasetType::MostProximate,
            ],
            *self == SnapsSelectedForSearch::MostProximateOnly ==> r@ == seq![
                SnapDatasetType::MostProximate,
            ],
    {
        let mut r: Vec<SnapDatasetType> = Vec::new();
        match self {
            SnapsSelectedForSearch::IncludeAltReplicated => {
                r.push(SnapDatasetType::AltReplicated);
                r.push(SnapDatasetType::MostProximate);
                proof {
                    assert(r@ =~= seq![
                        SnapDatasetType::AltReplicated,
                        SnapDatasetType::MostProximate,
                    ]);
                }
            },
            SnapsSelectedForSearch::MostProximateOnly => {
                r.push(SnapDatasetType::MostProximate);
                proof {
                    assert(r@ =~= seq![SnapDatasetType::MostProximate]);
                }
            },
        }
        r
    }
}

/// Whether all keys of an association list are distinct.
pub open spec fn map_keys_unique<V>(m: Seq<(HttmPath, V)>) -> bool {
    forall|i: int, j: int| 0 <= i < j < m.len() ==> m[i].0@ != m[j].0@
}

/// Whether some pair of the association list has the given key.
pub open spec fn spec_map_contains<V>(m: Seq<(HttmPath, V)>, k: Seq<Seq<u8>>) -> bool {
    exists|i: int| 0 <= i < m.len() && m[i].0@ == k
}

/// The value at the first pair with the given key, if any.
pub open spec fn spec_map_get<V>(m: Seq<(HttmPath, V)>, k: Seq<Seq<u8>>) -> Option<V>
    decreases m.len(),
{
    if m.len() == 0 {
        None
    } else if m[0].0@ == k {
        Some(m[0].1)
    } else {
        spec_map_get(m.skip(1), k)
    }
}

/// The lookup succeeds exactly on contained keys.
pub proof fn lemma_map_get_contains<V>(m: Seq<(HttmPath, V)>, k: Seq<Seq<u8>>)
    ensures
        spec_map_get(m, k) is Some <==> spec_map_contains(m, k),
    decreases m.len(),
{
    if m.len() == 0 {
    } else if m[0].0@ == k {
    } else {
        lemma_map_get_contains(m.skip(1), k);
        assert forall|i: int| 0 <= i < m.len() && m[i].0@ == k implies spec_map_contains(
            m.skip(1),
            k,
        ) by {
            assert(m.skip(1)[i - 1] == m[i]);
        }
        if spec_map_contains(m.skip(1), k) {
            let i = choose|i: int| 0 <= i < m.skip(1).len() && m.skip(1)[i].0@ == k;
            assert(m[i + 1] == m.skip(1)[i]);
        }
    }
}

/// Skipping pairs whose keys all differ from `k` does not change the lookup.
proof fn lemma_map_get_skip<V>(m: Seq<(HttmPath, V)>, k: Seq<Seq<u8>>, i: int)
    requires
        0 <= i <= m.len(),
        forall|j: int| 0 <= j < i ==> m[j].0@ != k,
    ensures
        spec_map_get(m, k) == spec_map_get(m.skip(i), k),
    decreases i,
{
    if i == 0 {
        assert(m.skip(0) =~= m);
    } else {
        assert(forall|j: int| 0 <= j < i - 1 ==> m.skip(1)[j].0@ != k);
        lemma_map_get_skip(m.skip(1), k, i - 1);
        assert(m.skip(1).skip(i - 1) =~= m.skip(i));
    }
}

/// Look a key up in an association list; the first matching pair wins.
pub fn map_get<'a, V>(m: &'a Vec<(HttmPath, V)>, k: &HttmPath) -> (r: Option<&'a V>)
    ensures
        match r {
            Some(v) => spec_map_get(m@, k@) == Some(*v),
            None => spec_map_get(m@, k@) is None,
        },
{
    let mut i: usize = 0;
    while i < m.len()
        invariant
            i <= m@.len(),
            forall|j: int| 0 <= j < i ==> m@[j].0@ != k@,
        decreases m@.len() - i,
    {
        if m[i].0.path_eq(k) {
            proof {
                lemma_map_get_skip(m@, k@, i as int);
                assert(m@.skip(i as int)[0] == m@[i as int]);
            }
            return Some(&m[i].1);
        }
        i += 1;
    }
    proof {
        lemma_map_get_skip(m@, k@, m@.len() as int);
    }
    None
}

/// Whether an association list contains a key.
pub fn map_contains_key<V>(m: &Vec<(HttmPath, V)>, k: &HttmPath) -> (r: bool)
    ensures
        r == spec_map_contains(m@, k@),
{
    proof {
        lemma_map_get_contains(m@, k@);
    }
    match map_get(m, k) {
        Some(_) => true,
        None => false,
    }
}

/// The file-type verdict a directory entry carries.
#[derive(Clone, Copy, Debug, PartialEq, Eq, Structural)]
pub enum FileTypeKind {
    Directory,
    RegularFile,
    Symlink,
    Other,
}

/// One filesystem object as the engine sees it: its absolute path, its
/// metadata, its file type, and, for a symlink, its canonicalized target.
pub struct FsEntry {
    pub path: HttmPath,
    pub metadata: PathMetadata,
    pub kind: FileTypeKind,
    pub link_target: Option<HttmPath>,
}

/// A value of the filesystem state consulted during one invocation: the set
/// of objects that exist, each once.  The boundary collects it; the engine
/// performs no live discovery of its own.
pub struct FsView {
    pub entries: Vec<FsEntry>,
}

/// The entry at the given path, if the object exists; the first match wins,
/// and under `wf` there is at most one.
pub open spec fn spec_stat(s: Seq<FsEntry>, p: Seq<Seq<u8>>) -> Option<FsEntry>
    decreases s.len(),
{
    if s.len() == 0 {
        None
    } else if s[0].path@ == p {
        Some(s[0])
    } else {
        spec_stat(s.skip(1), p)
    }
}

/// Skipping entries whose paths all differ from `p` does not change the stat.
proof fn lemma_stat_skip(s: Seq<FsEntry>, p: Seq<Seq<u8>>, i: int)
    requires
        0 <= i <= s.len(),
        forall|j: int| 0 <= j < i ==> s[j].path@ != p,
    ensures
        spec_stat(s, p) == spec_stat(s.skip(i), p),
    decreases i,
{
    if i == 0 {
        assert(s.skip(0) =~= s);
    } else {
        assert(forall|j: int| 0 <= j < i - 1 ==> s.skip(1)[j].path@ != p);
        lemma_stat_skip(s.skip(1), p, i - 1);
        assert(s.skip(1).skip(i - 1) =~= s.skip(i));
    }
}

/// Whether an entry is an immediate child of the directory `d`.
pub open spec fn is_child_of(e: FsEntry, d: Seq<Seq<u8>>) -> bool {
    e.path@.len() == d.len() + 1 && d.is_prefix_of(e.path@)
}

/// The view of one directory entry handed to callers: name, path, file type.
pub open spec fn child_view(e: FsEntry) -> (Seq<u8>, Seq<Seq<u8>>, Option<FileTypeKind>) {
    (e.path@.last(), e.path@, Some(e.kind))
}

/// The listing of a directory, in the stable order of the view.
pub open spec fn spec_read_dir(s: Seq<FsEntry>, d: Seq<Seq<u8>>) -> Seq<
    (Seq<u8>, Seq<Seq<u8>>, Option<FileTypeKind>),
> {
    s.filter_map(
        |e: FsEntry|
            if is_child_of(e, d) {
                Some(child_view(e))
            } else {
                None
            },
    )
}

/// The information a directory read yields about one entry, before any
/// metadata call: its name, its path, and its file-type verdict.
pub struct BasicDirEntryInfo {
    pub file_name: Vec<u8>,
    pub path: HttmPath,
    pub file_type: Option<FileTypeKind>,
}

impl View for BasicDirEntryInfo {
    type V = (Seq<u8>, Seq<Seq<u8>>, Option<FileTypeKind>);

    open spec fn view(&self) -> (Seq<u8>, Seq<Seq<u8>>, Option<FileTypeKind>) {
        (self.file_name@, self.path@, self.file_type)
    }
}

impl Clone for BasicDirEntryInfo {
    /// Cloning keeps the name, path and file type.
    fn clone(&self) -> (r: Self)
        ensures
            r@ == self@,
    {
        BasicDirEntryInfo {
            file_name: clone_bytes(&self.file_name),
            path: self.path.clone(),
            file_type: self.file_type,
        }
    }
}

impl FsView {
    /// Each object appears at most once.
    pub open spec fn wf(&self) -> bool {
        forall|i: int, j: int|
            0 <= i < j < self.entries@.len() ==> self.entries@[i].path@ != self.entries@[j].path@
    }

    /// Stat one path: the entry there, if the object exists.
    pub fn stat(&self, p: &HttmPath) -> (r: Option<&FsEntry>)
        ensures
            match r {
                Some(e) => spec_stat(self.entries@, p@) == Some(*e),
                None => spec_stat(self.entries@, p@) is None,
            },
    {
        let mut i: usize = 0;
        while i < self.entries.len()
            invariant
                i <= self.entries@.len(),
                forall|j: int| 0 <= j < i ==> self.entries@[j].path@ != p@,
            decreases self.entries@.len() - i,
        {
            if self.entries[i].path.path_eq(p) {
                proof {
                    lemma_stat_skip(self.entries@, p@, i as int);
                    assert(self.entries@.skip(i as int)[0] == self.entries@[i as int]);
                }
                return Some(&self.entries[i]);
            }
            i += 1;
        }
        proof {
            lemma_stat_skip(self.entries@, p@, self.entries@.len() as int);
        }
        None
    }

    /// Whether the path names an existing object.
    pub fn contains_path(&self, p: &HttmPath) -> (r: bool)
        ensures
            r == (spec_stat(self.entries@, p@) is Some),
    {
        match self.stat(p) {
            Some(_) => true,
            None => false,
        }
    }

    /// List the immediate children of a directory, in the view's stable order.
    pub fn read_dir(&self, d: &HttmPath) -> (r: Vec<BasicDirEntryInfo>)
        ensures
            r@.map_values(|b: BasicDirEntryInfo| b@) == spec_read_dir(self.entries@, d@),
    {
        let ghost f = |e: FsEntry|
            if is_child_of(e, d@) {
                Some(child_view(e))
            } else {
                None
            };
        let mut r: Vec<BasicDirEntryInfo> = Vec::new();
        let mut i: usize = 0;
        proof {
            assert(self.entries@.take(0) =~= Seq::<FsEntry>::empty());
            assert(r@.map_values(|b: BasicDirEntryInfo| b@) =~= self.entries@.take(
                0,
            ).filter_map(f));
        }
        while i < self.entries.len()
            invariant
                i <= self.entries@.len(),
                f == (|e: FsEntry|
                    if is_child_of(e, d@) {
                        Some(child_view(e))
                    } else {
                        None
                    }),
                r@.map_values(|b: BasicDirEntryInfo| b@) == self.entries@.take(i as int).filter_map(
                    f,
                ),
            decreases self.entries@.len() - i,
        {
            let ghost pre = r@;
            let e = &self.entries[i];
            let ed = e.path.depth();
            let dd = d.depth();
            let is_child = ed > dd && ed - 1 == dd && e.path.starts_with(d);
            proof {
                assert(is_child == is_child_of(self.entries@[i as int], d@));
            }
            if is_child {
                let name = match e.path.file_name() {
                    Some(n) => clone_bytes(n),
                    None => Vec::new(),
                };
                r.push(
                    BasicDirEntryInfo {
                        file_name: name,
                        path: e.path.clone(),
                        file_type: Some(e.kind),
                    },
                );
            }
            proof {
                let s = self.entries@;
                assert(s.take(i as int + 1).drop_last() =~= s.take(i as int));
                assert(s.take(i as int + 1).last() == s[i as int]);
                if is_child_of(s[i as int], d@) {
                    assert(r@.map_values(|b: BasicDirEntryInfo| b@) =~= pre.map_values(
                        |b: BasicDirEntryInfo| b@,
                    ).push(child_view(s[i as int])));
                    assert(s.take(i as int).filter_map(f).push(child_view(s[i as int])) =~= s.take(
                        i as int,
                    ).filter_map(f) + seq![child_view(s[i as int])]);
                } else {
                    assert(r@.map_values(|b: BasicDirEntryInfo| b@) =~= pre.map_values(
                        |b: BasicDirEntryInfo| b@,
                    ));
                }
            }
            i += 1;
        }
        proof {
            assert(self.entries@.take(self.entries@.len() as int) =~= self.entries@);
        }
        r
    }
}

/// The inventory of datasets, snapshots, aliases and filters consulted by
/// one invocation; immutable after construction.
pub struct DatasetCollection {
    /// Dataset mount -> its source name, filesystem kind and mount type.
    pub map_of_datasets: Vec<(HttmPath, DatasetMetadata)>,
    /// Dataset mount -> the ordered snapshot roots found below it.
    pub map_of_snaps: Vec<(HttmPath, Vec<HttmPath>)>,
    /// Dataset mount -> its alternate replicated datasets, when enabled.
    pub opt_map_of_alts: Option<Vec<(HttmPath, MostProximateAndOptAlts)>>,
    /// Local directory -> remote snapshot-bearing directory, when declared.
    pub opt_map_of_aliases: Option<Vec<(HttmPath, RemotePathAndFsType)>>,
    /// Mount paths excluded from recursive descent.
    pub vec_of_filter_dirs: Vec<HttmPath>,
    /// The single Btrfs snapshot parent always filtered, when present.
    pub opt_common_snap_dir: Option<HttmPath>,
    /// Which dataset groups a lookup searches.
    pub snaps_selected_for_search: SnapsSelectedForSearch,
}

impl DatasetCollection {
    /// The inventory's invariants: unique keys throughout, snapshot and
    /// alternate keys drawn from the datasets, and no dataset that is also
    /// an alias target.
    pub open spec fn wf(&self) -> bool {
        &&& map_keys_unique(self.map_of_datasets@)
        &&& map_keys_unique(self.map_of_snaps@)
        &&& (self.opt_map_of_alts matches Some(alts) ==> map_keys_unique(alts@))
        &&& (self.opt_map_of_aliases matches Some(aliases) ==> map_keys_unique(aliases@))
        &&& forall|i: int|
            0 <= i < self.map_of_snaps@.len() ==> spec_map_contains(
                self.map_of_datasets@,
                #[trigger] self.map_of_snaps@[i].0@,
            )
        &&& (self.opt_map_of_aliases matches Some(aliases) ==> forall|i: int|
            0 <= i < aliases@.len() ==> !spec_map_contains(
                self.map_of_datasets@,
                #[trigger] aliases@[i].1.remote_dir@,
            ) || !spec_map_contains(self.map_of_datasets@, aliases@[i].0@))
    }

    /// The greatest component count among the filter directories.
    pub fn filter_dirs_max_len(&self) -> (r: usize)
        ensures
            r == spec_filter_dirs_max_len(self.vec_of_filter_dirs@),
    {
        let mut r: usize = 0;
        let mut i: usize = 0;
        while i < self.vec_of_filter_dirs.len()
            invariant
                i <= self.vec_of_filter_dirs@.len(),
                r == spec_filter_dirs_max_len(self.vec_of_filter_dirs@.take(i as int)),
            decreases self.vec_of_filter_dirs@.len() - i,
        {
            let d = self.vec_of_filter_dirs[i].depth();
            proof {
                assert(self.vec_of_filter_dirs@.take(i as int + 1).drop_last()
                    =~= self.vec_of_filter_dirs@.take(i as int));
            }
            if d > r {
                r = d;
            }
            i += 1;
        }
        proof {
            assert(self.vec_of_filter_dirs@.take(self.vec_of_filter_dirs@.len() as int)
                =~= self.vec_of_filter_dirs@);
        }
        r
    }
}

/// The greatest component count among the filter directories.
pub open spec fn spec_filter_dirs_max_len(dirs: Seq<HttmPath>) -> int
    decreases dirs.len(),
{
    if dirs.len() == 0 {
        0
    } else {
        let rest = spec_filter_dirs_max_len(dirs.drop_last());
        if dirs.last()@.len() > rest {
            dirs.last()@.len() as int
        } else {
            rest
        }
    }
}

} // verus!

verus! {

/// A successful lookup returns the value of some pair with the key.
pub proof fn lemma_map_get_entry<V>(m: Seq<(HttmPath, V)>, k: Seq<Seq<u8>>)
    ensures
        spec_map_get(m, k) is Some ==> exists|i: int|
            0 <= i < m.len() && (#[trigger] m[i]).0@ == k && m[i].1 == spec_map_get(m, k)->0,
    decreases m.len(),
{
    if m.len() == 0 {
    } else if m[0].0@ == k {
        assert(m[0].0@ == k && m[0].1 == spec_map_get(m, k)->0);
    } else {
        lemma_map_get_entry(m.skip(1), k);
        if spec_map_get(m.skip(1), k) is Some {
            let i = choose|i: int|
                0 <= i < m.skip(1).len() && (#[trigger] m.skip(1)[i]).0@ == k && m.skip(1)[i].1
                    == spec_map_get(m.skip(1), k)->0;
            assert(m[i + 1] == m.skip(1)[i]);
        }
    }
}

} // verus!
