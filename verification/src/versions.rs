use vstd::prelude::*;

use crate::config::Config;
use crate::filesystem_map::{spec_map_contains, spec_map_get, spec_stat, DatasetMetadata, FsEntry, FsView, RemotePathAndFsType, SnapDatasetType};
use crate::paths::{clone_paths, paths_view, HttmPath, PathData, PathMetadata};
use crate::results::{HttmError, HttmErrorKind};

verus! {

/// The proximity result for one path: its most proximate dataset mount,
/// and, under the alternate-replica strategy, the datasets of interest.
#[derive(Debug)]
pub struct MostProximateAndOptAlts {
    pub proximate_dataset_mount: HttmPath,
    pub opt_datasets_of_interest: Option<Vec<HttmPath>>,
}

impl View for MostProximateAndOptAlts {
    type V = (Seq<Seq<u8>>, Option<Seq<Seq<Seq<u8>>>>);

    open spec fn view(&self) -> (Seq<Seq<u8>>, Option<Seq<Seq<Seq<u8>>>>) {
        (
            self.proximate_dataset_mount@,
            match self.opt_datasets_of_interest {
                Some(ds) => Some(paths_view(ds@)),
                None => None,
            },
        )
    }
}

impl Clone for MostProximateAndOptAlts {
    /// Cloning keeps the mount and the datasets of interest.
    fn clone(&self) -> (r: Self)
        ensures
            r@ == self@,
    {
        MostProximateAndOptAlts {
            proximate_dataset_mount: self.proximate_dataset_mount.clone(),
            opt_datasets_of_interest: match &self.opt_datasets_of_interest {
                Some(ds) => Some(clone_paths(ds)),
                None => None,
            },
        }
    }
}

/// The nearest alias at or above the path, walking from the path itself up
/// to the root, considering ancestors of at most `k` components.
pub open spec fn spec_alias_at(
    aliases: Seq<(HttmPath, RemotePathAndFsType)>,
    p: Seq<Seq<u8>>,
    k: int,
) -> Option<Seq<Seq<u8>>>
    decreases k + 1,
{
    if k < 0 {
        None
    } else {
        match spec_map_get(aliases, p.take(k)) {
            Some(info) => Some(info.remote_dir@),
            None => spec_alias_at(aliases, p, k - 1),
        }
    }
}

/// The remote directory of the nearest alias at or above the path, if any.
pub open spec fn spec_alias_dataset(
    aliases: Seq<(HttmPath, RemotePathAndFsType)>,
    p: Seq<Seq<u8>>,
) -> Option<Seq<Seq<u8>>> {
    spec_alias_at(aliases, p, p.len() as int)
}

/// Find the nearest alias at or above a path; its remote directory is the
/// proximate mount.
pub fn get_alias_dataset(
    pathdata: &PathData,
    map_of_aliases: &Vec<(HttmPath, RemotePathAndFsType)>,
) -> (r: Option<HttmPath>)
    ensures
        match r {
            Some(p) => spec_alias_dataset(map_of_aliases@, pathdata.path_buf@) == Some(p@),
            None => spec_alias_dataset(map_of_aliases@, pathdata.path_buf@) is None,
        },
{
    let depth = pathdata.path_buf.depth();
    let mut k: usize = depth;
    loop
        invariant
            k <= depth,
            depth == pathdata.path_buf@.len(),
            spec_alias_dataset(map_of_aliases@, pathdata.path_buf@) == spec_alias_at(
                map_of_aliases@,
                pathdata.path_buf@,
                k as int,
            ),
        ensures
            spec_alias_dataset(map_of_aliases@, pathdata.path_buf@) is None,
        decreases k,
    {
        let ancestor = pathdata.path_buf.ancestor(k);
        match crate::filesystem_map::map_get(map_of_aliases, &ancestor) {
            Some(info) => {
                return Some(info.remote_dir.clone());
            },
            None => {},
        }
        if k == 0 {
            proof {
                assert(spec_alias_at(map_of_aliases@, pathdata.path_buf@, -1) is None);
                assert(spec_alias_at(map_of_aliases@, pathdata.path_buf@, 0) is None);
            }
            break;
        }
        k -= 1;
    }
    None
}

/// The nearest dataset mount at or above the path, considering ancestors of
/// at most `k` components.
pub open spec fn spec_proximate_at(
    datasets: Seq<(HttmPath, DatasetMetadata)>,
    p: Seq<Seq<u8>>,
    k: int,
) -> Option<Seq<Seq<u8>>>
    decreases k + 1,
{
    if k < 0 {
        None
    } else if spec_map_contains(datasets, p.take(k)) {
        Some(p.take(k))
    } else {
        spec_proximate_at(datasets, p, k - 1)
    }
}

/// The most proximate dataset mount: the nearest ancestor that is a key of
/// the dataset map.
pub open spec fn spec_proximate_dataset(
    datasets: Seq<(HttmPath, DatasetMetadata)>,
    p: Seq<Seq<u8>>,
) -> Option<Seq<Seq<u8>>> {
    spec_proximate_at(datasets, p, p.len() as int)
}

/// Find the most proximate dataset mount of a path.
pub fn get_proximate_dataset(
    pathdata: &PathData,
    map_of_datasets: &Vec<(HttmPath, DatasetMetadata)>,
) -> (r: Result<HttmPath, HttmError>)
    ensures
        match r {
            Ok(p) => spec_proximate_dataset(map_of_datasets@, pathdata.path_buf@) == Some(p@),
            Err(e) => spec_proximate_dataset(map_of_datasets@, pathdata.path_buf@) is None
                && e.kind == HttmErrorKind::NoQualifyingDataset,
        },
{
    let depth = pathdata.path_buf.depth();
    let mut k: usize = depth;
    loop
        invariant
            k <= depth,
            depth == pathdata.path_buf@.len(),
            spec_proximate_dataset(map_of_datasets@, pathdata.path_buf@) == spec_proximate_at(
                map_of_datasets@,
                pathdata.path_buf@,
                k as int,
            ),
        ensures
            spec_proximate_dataset(map_of_datasets@, pathdata.path_buf@) is None,
        decreases k,
    {
        let ancestor = pathdata.path_buf.ancestor(k);
        if crate::filesystem_map::map_contains_key(map_of_datasets, &ancestor) {
            return Ok(ancestor);
        }
        if k == 0 {
            proof {
                assert(spec_proximate_at(map_of_datasets@, pathdata.path_buf@, -1) is None);
                assert(spec_proximate_at(map_of_datasets@, pathdata.path_buf@, 0) is None);
            }
            break;
        }
        k -= 1;
    }
    Err(
        HttmError::with_kind(
            HttmErrorKind::NoQualifyingDataset,
            "could not identify any qualifying dataset for the path",
        ),
    )
}

/// The proximate mount of a path: the nearest alias's remote directory when
/// one applies, else the most proximate dataset mount.
pub open spec fn spec_proximate_mount(cfg: Config, p: Seq<Seq<u8>>) -> Option<Seq<Seq<u8>>> {
    match cfg.dataset_collection.opt_map_of_aliases {
        Some(aliases) => match spec_alias_dataset(aliases@, p) {
            Some(remote) => Some(remote),
            None => spec_proximate_dataset(cfg.dataset_collection.map_of_datasets@, p),
        },
        None => spec_proximate_dataset(cfg.dataset_collection.map_of_datasets@, p),
    }
}

/// What the proximity resolution yields for a path and a dataset type:
/// the proximate mount alone, or the alternate replicas recorded for it.
pub open spec fn spec_proximity(cfg: Config, p: Seq<Seq<u8>>, t: SnapDatasetType) -> Option<
    (Seq<Seq<u8>>, Option<Seq<Seq<Seq<u8>>>>),
> {
    match spec_proximate_mount(cfg, p) {
        None => None,
        Some(prox) => match t {
            SnapDatasetType::MostProximate => Some((prox, None)),
            SnapDatasetType::AltReplicated => match cfg.dataset_collection.opt_map_of_alts {
                Some(alts) => match spec_map_get(alts@, prox) {
                    Some(v) => Some(v@),
                    None => None,
                },
                None => None,
            },
        },
    }
}

impl MostProximateAndOptAlts {
    /// Resolve the proximity of one path for one dataset type.  Fails with
    /// `NoQualifyingDataset` when no ancestor is inventoried, and with the
    /// recoverable `AltReplicatedMissing` when alternates were requested but
    /// none are recorded for the proximate mount.
    pub fn new(config: &Config, pathdata: &PathData, requested_dataset_type: &SnapDatasetType) -> (r:
        Result<Self, HttmError>)
        ensures
            r is Ok <==> spec_proximity(*config, pathdata.path_buf@, *requested_dataset_type)
                is Some,
            r matches Ok(v) ==> Some(v@) == spec_proximity(
                *config,
                pathdata.path_buf@,
                *requested_dataset_type,
            ),
            r matches Err(e) ==> e.kind == if spec_proximate_mount(*config, pathdata.path_buf@)
                is None {
                HttmErrorKind::NoQualifyingDataset
            } else {
                HttmErrorKind::AltReplicatedMissing
            },
    {
        let proximate_dataset_mount = match &config.dataset_collection.opt_map_of_aliases {
            Some(map_of_aliases) => match get_alias_dataset(pathdata, map_of_aliases) {
                Some(alias_snap_dir) => alias_snap_dir,
                None => {
                    match get_proximate_dataset(
                        pathdata,
                        &config.dataset_collection.map_of_datasets,
                    ) {
                        Ok(p) => p,
                        Err(e) => {
                            return Err(e);
                        },
                    }
                },
            },
            None => {
                match get_proximate_dataset(pathdata, &config.dataset_collection.map_of_datasets) {
                    Ok(p) => p,
                    Err(e) => {
                        return Err(e);
                    },
                }
            },
        };
        match requested_dataset_type {
            SnapDatasetType::MostProximate => Ok(
                MostProximateAndOptAlts {
                    proximate_dataset_mount,
                    opt_datasets_of_interest: None,
                },
            ),
            SnapDatasetType::AltReplicated => match &config.dataset_collection.opt_map_of_alts {
                Some(map_of_alts) => match crate::filesystem_map::map_get(
                    map_of_alts,
                    &proximate_dataset_mount,
                ) {
                    Some(snap_types_for_search) => Ok(snap_types_for_search.clone()),
                    None => Err(
                        HttmError::with_kind(
                            HttmErrorKind::AltReplicatedMissing,
                            "no alternate replicated datasets are recorded for this mount",
                        ),
                    ),
                },
                None => Err(
                    HttmError::with_kind(
                        HttmErrorKind::AltReplicatedMissing,
                        "alternate replicated datasets were requested but none were inventoried",
                    ),
                ),
            },
        }
    }

    /// The datasets this proximity result asks to search.
    pub fn get_datasets_of_interest(self) -> (r: Vec<HttmPath>)
        ensures
            paths_view(r@) == spec_datasets_of_interest(self@),
    {
        match self.opt_datasets_of_interest {
            Some(ds) => ds,
            None => {
                let mut r: Vec<HttmPath> = Vec::new();
                r.push(self.proximate_dataset_mount);
                proof {
                    assert(paths_view(r@) =~= seq![self@.0]);
                }
                r
            },
        }
    }
}

/// The datasets of interest of a proximity result: the recorded alternates,
/// or the proximate mount alone.
pub open spec fn spec_datasets_of_interest(v: (Seq<Seq<u8>>, Option<Seq<Seq<Seq<u8>>>>)) -> Seq<
    Seq<Seq<u8>>,
> {
    match v.1 {
        Some(ds) => ds,
        None => seq![v.0],
    }
}

/// The local directory of the first alias whose remote directory is the
/// given proximate mount, if any.
pub open spec fn spec_find_alias_local(
    aliases: Seq<(HttmPath, RemotePathAndFsType)>,
    prox: Seq<Seq<u8>>,
) -> Option<Seq<Seq<u8>>>
    decreases aliases.len(),
{
    if aliases.len() == 0 {
        None
    } else if aliases[0].1.remote_dir@ == prox {
        Some(aliases[0].0@)
    } else {
        spec_find_alias_local(aliases.skip(1), prox)
    }
}

/// Skipping aliases whose remote directories all differ does not change the search.
proof fn lemma_find_alias_local_skip(
    aliases: Seq<(HttmPath, RemotePathAndFsType)>,
    prox: Seq<Seq<u8>>,
    i: int,
)
    requires
        0 <= i <= aliases.len(),
        forall|j: int| 0 <= j < i ==> aliases[j].1.remote_dir@ != prox,
    ensures
        spec_find_alias_local(aliases, prox) == spec_find_alias_local(aliases.skip(i), prox),
    decreases i,
{
    if i == 0 {
        assert(aliases.skip(0) =~= aliases);
    } else {
        assert(forall|j: int| 0 <= j < i - 1 ==> aliases.skip(1)[j].1.remote_dir@ != prox);
        lemma_find_alias_local_skip(aliases.skip(1), prox, i - 1);
        assert(aliases.skip(1).skip(i - 1) =~= aliases.skip(i));
    }
}

/// Find the local directory of the first alias whose remote directory is the
/// given proximate mount.
fn find_alias_local<'a>(
    map_of_aliases: &'a Vec<(HttmPath, RemotePathAndFsType)>,
    prox: &HttmPath,
) -> (r: Option<&'a HttmPath>)
    ensures
        match r {
            Some(l) => spec_find_alias_local(map_of_aliases@, prox@) == Some(l@),
            None => spec_find_alias_local(map_of_aliases@, prox@) is None,
        },
{
    let mut i: usize = 0;
    while i < map_of_aliases.len()
        invariant
            i <= map_of_aliases@.len(),
            forall|j: int| 0 <= j < i ==> map_of_aliases@[j].1.remote_dir@ != prox@,
        decreases map_of_aliases@.len() - i,
    {
        if map_of_aliases[i].1.remote_dir.path_eq(prox) {
            proof {
                lemma_find_alias_local_skip(map_of_aliases@, prox@, i as int);
                assert(map_of_aliases@.skip(i as int)[0] == map_of_aliases@[i as int]);
            }
            return Some(&map_of_aliases[i].0);
        }
        i += 1;
    }
    proof {
        lemma_find_alias_local_skip(map_of_aliases@, prox@, map_of_aliases@.len() as int);
    }
    None
}

/// The relative suffix of a path beneath its dataset: the alias's local
/// directory is stripped when the proximate mount came from an alias,
/// otherwise the proximate mount itself is stripped.
pub open spec fn spec_relative_path(cfg: Config, p: Seq<Seq<u8>>, prox: Seq<Seq<u8>>) -> Option<
    Seq<Seq<u8>>,
> {
    let alias_local = match cfg.dataset_collection.opt_map_of_aliases {
        Some(aliases) => spec_find_alias_local(aliases@, prox),
        None => None,
    };
    match alias_local {
        Some(local) => if local.is_prefix_of(p) {
            Some(p.skip(local.len() as int))
        } else if prox.is_prefix_of(p) {
            Some(p.skip(prox.len() as int))
        } else {
            None
        },
        None => if prox.is_prefix_of(p) {
            Some(p.skip(prox.len() as int))
        } else {
            None
        },
    }
}

/// Compute the relative suffix of a path beneath its dataset.  Failure to
/// strip is the fatal `PathOutsideDataset`.
pub fn get_relative_path(
    config: &Config,
    pathdata: &PathData,
    proximate_dataset_mount: &HttmPath,
) -> (r: Result<HttmPath, HttmError>)
    ensures
        r is Ok <==> spec_relative_path(*config, pathdata.path_buf@, proximate_dataset_mount@)
            is Some,
        r matches Ok(rel) ==> Some(rel@) == spec_relative_path(
            *config,
            pathdata.path_buf@,
            proximate_dataset_mount@,
        ),
        r matches Err(e) ==> e.kind == HttmErrorKind::PathOutsideDataset,
{
    let opt_alias_local: Option<&HttmPath> = match &config.dataset_collection.opt_map_of_aliases {
        Some(map_of_aliases) => find_alias_local(map_of_aliases, proximate_dataset_mount),
        None => None,
    };
    if let Some(local_dir) = opt_alias_local {
        if let Some(stripped) = pathdata.path_buf.strip_prefix(local_dir) {
            return Ok(stripped);
        }
    }
    match pathdata.path_buf.strip_prefix(proximate_dataset_mount) {
        Some(stripped) => Ok(stripped),
        None => Err(
            HttmError::with_kind(
                HttmErrorKind::PathOutsideDataset,
                "the path lies outside every dataset it was matched to",
            ),
        ),
    }
}

} // verus!

verus! {

/// One unit of search work: the relative suffix of the requested path and
/// the snapshot roots to try it under.
#[derive(Debug)]
pub struct RelativePathAndSnapMounts {
    pub relative_path: HttmPath,
    pub snap_mounts: Vec<HttmPath>,
}

impl View for RelativePathAndSnapMounts {
    type V = (Seq<Seq<u8>>, Seq<Seq<Seq<u8>>>);

    open spec fn view(&self) -> (Seq<Seq<u8>>, Seq<Seq<Seq<u8>>>) {
        (self.relative_path@, paths_view(self.snap_mounts@))
    }
}

/// The search bundle for one path under one dataset of interest, when the
/// relative suffix can be computed and snapshot roots are recorded.
pub open spec fn spec_bundle(
    cfg: Config,
    p: Seq<Seq<u8>>,
    prox: Seq<Seq<u8>>,
    interest: Seq<Seq<u8>>,
) -> Option<(Seq<Seq<u8>>, Seq<Seq<Seq<u8>>>)> {
    match spec_relative_path(cfg, p, prox) {
        None => None,
        Some(rel) => match spec_map_get(cfg.dataset_collection.map_of_snaps@, interest) {
            None => None,
            Some(mounts) => Some((rel, paths_view(mounts@))),
        },
    }
}

impl RelativePathAndSnapMounts {
    /// Build the search bundle for one dataset of interest.  A missing
    /// snapshot entry is the recoverable `NoSnapshotsForDataset`.
    pub fn new(
        config: &Config,
        pathdata: &PathData,
        proximate_dataset_mount: &HttmPath,
        dataset_of_interest: &HttmPath,
    ) -> (r: Result<Self, HttmError>)
        ensures
            r is Ok <==> spec_bundle(
                *config,
                pathdata.path_buf@,
                proximate_dataset_mount@,
                dataset_of_interest@,
            ) is Some,
            r matches Ok(b) ==> Some(b@) == spec_bundle(
                *config,
                pathdata.path_buf@,
                proximate_dataset_mount@,
                dataset_of_interest@,
            ),
            r matches Err(e) ==> e.kind == HttmErrorKind::PathOutsideDataset || e.kind
                == HttmErrorKind::NoSnapshotsForDataset,
    {
        let relative_path = match get_relative_path(config, pathdata, proximate_dataset_mount) {
            Ok(rel) => rel,
            Err(e) => {
                return Err(e);
            },
        };
        match crate::filesystem_map::map_get(
            &config.dataset_collection.map_of_snaps,
            dataset_of_interest,
        ) {
            Some(snap_mounts) => Ok(
                RelativePathAndSnapMounts { relative_path, snap_mounts: clone_paths(snap_mounts) },
            ),
            None => Err(
                HttmError::with_kind(
                    HttmErrorKind::NoSnapshotsForDataset,
                    "no snapshot roots are recorded for this dataset",
                ),
            ),
        }
    }
}

/// The strict order on version keys: by modification time, ties by size.
pub open spec fn md_lt(a: PathMetadata, b: PathMetadata) -> bool {
    a.modify_time < b.modify_time || (a.modify_time == b.modify_time && a.size < b.size)
}

/// Compare a version record's key against a candidate key.
fn md_lt_exec(a: &PathData, b: &PathMetadata) -> (r: bool)
    ensures
        r == md_lt(a.spec_md_infallible(), *b),
{
    let m = a.md_infallible();
    m.modify_time < b.modify_time || (m.modify_time == b.modify_time && m.size < b.size)
}

/// The view of a version record: its path and its metadata key.
pub open spec fn version_view(pd: PathData) -> (Seq<Seq<u8>>, PathMetadata) {
    (pd.path_buf@, pd.spec_md_infallible())
}

/// The views of a sequence of version records.
pub open spec fn versions_view(s: Seq<PathData>) -> Seq<(Seq<Seq<u8>>, PathMetadata)> {
    s.map_values(|pd: PathData| version_view(pd))
}

/// Every record of the sequence carries metadata.
pub open spec fn all_versions_present(s: Seq<PathData>) -> bool {
    forall|i: int| 0 <= i < s.len() ==> (#[trigger] s[i]).metadata is Some
}

/// Insert a candidate into a key-sorted, key-unique version list.  A
/// candidate whose key is already present is dropped: the first insertion
/// wins.
pub open spec fn insert_version(
    s: Seq<(Seq<Seq<u8>>, PathMetadata)>,
    c: (Seq<Seq<u8>>, PathMetadata),
) -> Seq<(Seq<Seq<u8>>, PathMetadata)>
    decreases s.len(),
{
    if s.len() == 0 {
        seq![c]
    } else if md_lt(s[0].1, c.1) {
        seq![s[0]] + insert_version(s.skip(1), c)
    } else if s[0].1 == c.1 {
        s
    } else {
        seq![c] + s
    }
}

/// Deduplicate candidates by their `(modify time, size)` key and sort them
/// ascending: the map that collects the candidates, read back in key order.
pub open spec fn dedup_sort_versions(cands: Seq<(Seq<Seq<u8>>, PathMetadata)>) -> Seq<
    (Seq<Seq<u8>>, PathMetadata),
>
    decreases cands.len(),
{
    if cands.len() == 0 {
        Seq::empty()
    } else {
        insert_version(dedup_sort_versions(cands.drop_last()), cands.last())
    }
}

/// Where the scan stopped is where the spec insertion lands.
proof fn lemma_insert_version_at(
    s: Seq<(Seq<Seq<u8>>, PathMetadata)>,
    c: (Seq<Seq<u8>>, PathMetadata),
    pos: int,
)
    requires
        0 <= pos <= s.len(),
        forall|j: int| 0 <= j < pos ==> md_lt(s[j].1, c.1),
        pos < s.len() ==> !md_lt(s[pos].1, c.1),
    ensures
        insert_version(s, c) == if pos < s.len() && s[pos].1 == c.1 {
            s
        } else {
            s.take(pos) + seq![c] + s.skip(pos)
        },
    decreases pos,
{
    if pos == 0 {
        if s.len() == 0 {
            assert(insert_version(s, c) =~= s.take(0) + seq![c] + s.skip(0));
        } else if s[0].1 == c.1 {
        } else {
            assert(insert_version(s, c) =~= s.take(0) + seq![c] + s.skip(0));
        }
    } else {
        assert(md_lt(s[0].1, c.1));
        assert(forall|j: int| 0 <= j < pos - 1 ==> md_lt(s.skip(1)[j].1, c.1));
        if pos < s.len() {
            assert(s.skip(1)[pos - 1] == s[pos]);
        }
        lemma_insert_version_at(s.skip(1), c, pos - 1);
        if pos < s.len() && s[pos].1 == c.1 {
            assert(insert_version(s, c) =~= s);
        } else {
            assert(s.skip(1).take(pos - 1) =~= s.take(pos).skip(1));
            assert(seq![s[0]] + (s.take(pos).skip(1) + seq![c] + s.skip(1).skip(pos - 1)) =~= s.take(
                pos,
            ) + seq![c] + s.skip(pos));
        }
    }
}

/// Insert one candidate version into the sorted record list.
fn insert_version_exec(sorted: &mut Vec<PathData>, path: HttmPath, md: PathMetadata)
    ensures
        versions_view(final(sorted)@) == insert_version(versions_view(old(sorted)@), (path@, md)),
        all_versions_present(old(sorted)@) ==> all_versions_present(final(sorted)@),
{
    let mut pos: usize = 0;
    while pos < sorted.len() && md_lt_exec(&sorted[pos], &md)
        invariant
            pos <= sorted@.len(),
            forall|j: int| 0 <= j < pos ==> md_lt(versions_view(sorted@)[j].1, md),
        decreases sorted@.len() - pos,
    {
        pos += 1;
    }
    proof {
        lemma_insert_version_at(versions_view(sorted@), (path@, md), pos as int);
    }
    if pos < sorted.len() {
        let existing = sorted[pos].md_infallible();
        if existing.modify_time == md.modify_time && existing.size == md.size {
            return ;
        }
    }
    let ghost pre = sorted@;
    sorted.insert(pos, PathData { path_buf: path, metadata: Some(md) });
    proof {
        assert(versions_view(sorted@) =~= versions_view(pre).take(pos as int) + seq![(path@, md)]
            + versions_view(pre).skip(pos as int));
    }
}

/// The candidate versions of one search bundle: for each snapshot root, the
/// joined path and its metadata when the stat succeeds, in root order.
pub open spec fn spec_candidates(
    entries: Seq<FsEntry>,
    mounts: Seq<Seq<Seq<u8>>>,
    rel: Seq<Seq<u8>>,
) -> Seq<(Seq<Seq<u8>>, PathMetadata)> {
    mounts.filter_map(
        |m: Seq<Seq<u8>>|
            match spec_stat(entries, m + rel) {
                Some(e) => Some((m + rel, e.metadata)),
                None => None,
            },
    )
}

impl RelativePathAndSnapMounts {
    /// The unique versions this bundle yields: stat each snapshot root joined
    /// with the relative suffix, deduplicate by `(modify time, size)`, and
    /// sort ascending by that key.
    pub fn get_versions(&self, fs_view: &FsView) -> (r: Vec<PathData>)
        ensures
            versions_view(r@) == dedup_sort_versions(
                spec_candidates(fs_view.entries@, self@.1, self@.0),
            ),
            all_versions_present(r@),
    {
        let ghost f = |m: Seq<Seq<u8>>|
            match spec_stat(fs_view.entries@, m + self@.0) {
                Some(e) => Some((m + self@.0, e.metadata)),
                None => None,
            };
        let mut sorted: Vec<PathData> = Vec::new();
        let mut i: usize = 0;
        proof {
            assert(self@.1.take(0) =~= Seq::<Seq<Seq<u8>>>::empty());
            assert(versions_view(sorted@) =~= dedup_sort_versions(self@.1.take(0).filter_map(f)));
        }
        while i < self.snap_mounts.len()
            invariant
                i <= self.snap_mounts@.len(),
                self@.1.len() == self.snap_mounts@.len(),
                f == (|m: Seq<Seq<u8>>|
                    match spec_stat(fs_view.entries@, m + self@.0) {
                        Some(e) => Some((m + self@.0, e.metadata)),
                        None => None,
                    }),
                versions_view(sorted@) == dedup_sort_versions(self@.1.take(i as int).filter_map(f)),
                all_versions_present(sorted@),
            decreases self.snap_mounts@.len() - i,
        {
            let joined_path = self.snap_mounts[i].join(&self.relative_path);
            proof {
                assert(self@.1.take(i as int + 1).drop_last() =~= self@.1.take(i as int));
                assert(self@.1.take(i as int + 1).last() == self@.1[i as int]);
                assert(joined_path@ == self@.1[i as int] + self@.0);
            }
            match fs_view.stat(&joined_path) {
                Some(entry) => {
                    let md = entry.metadata;
                    let ghost cands_pre = self@.1.take(i as int).filter_map(f);
                    insert_version_exec(&mut sorted, joined_path, md);
                    proof {
                        assert(self@.1.take(i as int + 1).filter_map(f) =~= cands_pre + seq![
                            (self@.1[i as int] + self@.0, md),
                        ]);
                        assert(self@.1.take(i as int + 1).filter_map(f).drop_last() =~= cands_pre);
                    }
                },
                None => {
                    proof {
                        assert(self@.1.take(i as int + 1).filter_map(f) =~= self@.1.take(
                            i as int,
                        ).filter_map(f));
                    }
                },
            }
            i += 1;
        }
        proof {
            assert(self@.1.take(self@.1.len() as int) =~= self@.1);
        }
        sorted
    }
}

} // verus!

verus! {

/// Insert each candidate in turn into a sorted version list.
pub open spec fn insert_all_versions(
    s: Seq<(Seq<Seq<u8>>, PathMetadata)>,
    cands: Seq<(Seq<Seq<u8>>, PathMetadata)>,
) -> Seq<(Seq<Seq<u8>>, PathMetadata)>
    decreases cands.len(),
{
    if cands.len() == 0 {
        s
    } else {
        insert_version(insert_all_versions(s, cands.drop_last()), cands.last())
    }
}

/// Inserting a concatenation is inserting one part after the other.
pub proof fn lemma_insert_all_append(
    s: Seq<(Seq<Seq<u8>>, PathMetadata)>,
    a: Seq<(Seq<Seq<u8>>, PathMetadata)>,
    b: Seq<(Seq<Seq<u8>>, PathMetadata)>,
)
    ensures
        insert_all_versions(s, a + b) == insert_all_versions(insert_all_versions(s, a), b),
    decreases b.len(),
{
    if b.len() == 0 {
        assert(a + b =~= a);
    } else {
        assert((a + b).drop_last() =~= a + b.drop_last());
        assert((a + b).last() == b.last());
        lemma_insert_all_append(s, a, b.drop_last());
    }
}

/// The collected candidates, deduplicated and sorted, start to finish.
pub open spec fn dedup_sorted_of(cands: Seq<(Seq<Seq<u8>>, PathMetadata)>) -> Seq<
    (Seq<Seq<u8>>, PathMetadata),
> {
    insert_all_versions(Seq::empty(), cands)
}

/// The two spellings of the collection agree.
pub proof fn lemma_dedup_sort_is_insert_all(cands: Seq<(Seq<Seq<u8>>, PathMetadata)>)
    ensures
        dedup_sort_versions(cands) == dedup_sorted_of(cands),
    decreases cands.len(),
{
    if cands.len() == 0 {
    } else {
        lemma_dedup_sort_is_insert_all(cands.drop_last());
    }
}

/// Insert every candidate of one bundle into the running sorted list.
fn collect_versions_into(
    sorted: &mut Vec<PathData>,
    fs_view: &FsView,
    bundle: &RelativePathAndSnapMounts,
)
    ensures
        versions_view(final(sorted)@) == insert_all_versions(
            versions_view(old(sorted)@),
            spec_candidates(fs_view.entries@, bundle@.1, bundle@.0),
        ),
        all_versions_present(old(sorted)@) ==> all_versions_present(final(sorted)@),
{
    let ghost f = |m: Seq<Seq<u8>>|
        match spec_stat(fs_view.entries@, m + bundle@.0) {
            Some(e) => Some((m + bundle@.0, e.metadata)),
            None => None,
        };
    let mut i: usize = 0;
    proof {
        assert(bundle@.1.take(0) =~= Seq::<Seq<Seq<u8>>>::empty());
        assert(versions_view(sorted@) =~= insert_all_versions(
            versions_view(sorted@),
            bundle@.1.take(0).filter_map(f),
        ));
    }
    while i < bundle.snap_mounts.len()
        invariant
            i <= bundle.snap_mounts@.len(),
            bundle@.1.len() == bundle.snap_mounts@.len(),
            f == (|m: Seq<Seq<u8>>|
                match spec_stat(fs_view.entries@, m + bundle@.0) {
                    Some(e) => Some((m + bundle@.0, e.metadata)),
                    None => None,
                }),
            versions_view(sorted@) == insert_all_versions(
                versions_view(old(sorted)@),
                bundle@.1.take(i as int).filter_map(f),
            ),
            all_versions_present(old(sorted)@) ==> all_versions_present(sorted@),
        decreases bundle.snap_mounts@.len() - i,
    {
        let joined_path = bundle.snap_mounts[i].join(&bundle.relative_path);
        proof {
            assert(bundle@.1.take(i as int + 1).drop_last() =~= bundle@.1.take(i as int));
            assert(bundle@.1.take(i as int + 1).last() == bundle@.1[i as int]);
            assert(joined_path@ == bundle@.1[i as int] + bundle@.0);
        }
        match fs_view.stat(&joined_path) {
            Some(entry) => {
                let md = entry.metadata;
                let ghost cands_pre = bundle@.1.take(i as int).filter_map(f);
                insert_version_exec(sorted, joined_path, md);
                proof {
                    assert(bundle@.1.take(i as int + 1).filter_map(f) =~= cands_pre + seq![
                        (bundle@.1[i as int] + bundle@.0, md),
                    ]);
                    assert(bundle@.1.take(i as int + 1).filter_map(f).drop_last() =~= cands_pre);
                }
            },
            None => {
                proof {
                    assert(bundle@.1.take(i as int + 1).filter_map(f) =~= bundle@.1.take(
                        i as int,
                    ).filter_map(f));
                }
            },
        }
        i += 1;
    }
    proof {
        assert(bundle@.1.take(bundle@.1.len() as int) =~= bundle@.1);
    }
}

/// The search bundles for the datasets of interest; `None` as soon as any
/// dataset yields none (the caller reports the first error).
pub open spec fn spec_bundles_list(
    cfg: Config,
    p: Seq<Seq<u8>>,
    prox: Seq<Seq<u8>>,
    ds: Seq<Seq<Seq<u8>>>,
) -> Option<Seq<(Seq<Seq<u8>>, Seq<Seq<Seq<u8>>>)>>
    decreases ds.len(),
{
    if ds.len() == 0 {
        Some(Seq::empty())
    } else {
        match spec_bundle(cfg, p, prox, ds[0]) {
            None => None,
            Some(b) => match spec_bundles_list(cfg, p, prox, ds.skip(1)) {
                None => None,
                Some(r) => Some(seq![b] + r),
            },
        }
    }
}

/// The search bundles of one proximity result.
pub open spec fn spec_search_bundles(
    cfg: Config,
    p: Seq<Seq<u8>>,
    v: (Seq<Seq<u8>>, Option<Seq<Seq<Seq<u8>>>>),
) -> Option<Seq<(Seq<Seq<u8>>, Seq<Seq<Seq<u8>>>)>> {
    spec_bundles_list(cfg, p, v.0, spec_datasets_of_interest(v))
}

impl MostProximateAndOptAlts {
    /// Build the search bundles for this proximity result, one per dataset
    /// of interest.  The first failing dataset's error is returned.
    pub fn get_search_bundles(&self, config: &Config, pathdata: &PathData) -> (r: Result<
        Vec<RelativePathAndSnapMounts>,
        HttmError,
    >)
        ensures
            r is Ok <==> spec_search_bundles(*config, pathdata.path_buf@, self@) is Some,
            r matches Ok(bs) ==> Some(bs@.map_values(|b: RelativePathAndSnapMounts| b@))
                == spec_search_bundles(*config, pathdata.path_buf@, self@),
            r matches Err(e) ==> e.kind == HttmErrorKind::PathOutsideDataset || e.kind
                == HttmErrorKind::NoSnapshotsForDataset,
    {
        let ghost ds_full = spec_datasets_of_interest(self@);
        let mut out: Vec<RelativePathAndSnapMounts> = Vec::new();
        match &self.opt_datasets_of_interest {
            Some(datasets_of_interest) => {
                let mut i: usize = 0;
                proof {
                    assert(ds_full.skip(0) =~= ds_full);
                }
                while i < datasets_of_interest.len()
                    invariant
                        i <= datasets_of_interest@.len(),
                        self.opt_datasets_of_interest matches Some(d) && d@
                            == datasets_of_interest@,
                        ds_full == spec_datasets_of_interest(self@),
                        ds_full.len() == datasets_of_interest@.len(),
                        forall|j: int| 0 <= j < ds_full.len() ==> ds_full[j]
                            == datasets_of_interest@[j]@,
                        spec_search_bundles(*config, pathdata.path_buf@, self@) == (
                        match spec_bundles_list(
                            *config,
                            pathdata.path_buf@,
                            self@.0,
                            ds_full.skip(i as int),
                        ) {
                            None => None::<Seq<(Seq<Seq<u8>>, Seq<Seq<Seq<u8>>>)>>,
                            Some(rest) => Some(
                                out@.map_values(|b: RelativePathAndSnapMounts| b@) + rest,
                            ),
                        }),
                    decreases datasets_of_interest@.len() - i,
                {
                    let ghost pre = out@;
                    match RelativePathAndSnapMounts::new(
                        config,
                        pathdata,
                        &self.proximate_dataset_mount,
                        &datasets_of_interest[i],
                    ) {
                        Ok(bundle) => {
                            proof {
                                assert(ds_full.skip(i as int)[0] == ds_full[i as int]);
                                assert(ds_full.skip(i as int).skip(1) =~= ds_full.skip(i as int + 1));
                            }
                            out.push(bundle);
                            proof {
                                assert(out@.map_values(|b: RelativePathAndSnapMounts| b@)
                                    =~= pre.map_values(|b: RelativePathAndSnapMounts| b@).push(
                                    out@.last()@,
                                ));
                                let sb = spec_bundles_list(
                                    *config,
                                    pathdata.path_buf@,
                                    self@.0,
                                    ds_full.skip(i as int + 1),
                                );
                                if sb is Some {
                                    assert(pre.map_values(|b: RelativePathAndSnapMounts| b@) + (seq![
                                        out@.last()@,
                                    ] + sb->0) =~= out@.map_values(
                                        |b: RelativePathAndSnapMounts| b@,
                                    ) + sb->0);
                                }
                            }
                        },
                        Err(e) => {
                            proof {
                                assert(ds_full.skip(i as int)[0] == ds_full[i as int]);
                            }
                            return Err(e);
                        },
                    }
                    i += 1;
                }
                proof {
                    assert(ds_full.skip(ds_full.len() as int) =~= Seq::<Seq<Seq<u8>>>::empty());
                    assert(spec_bundles_list(
                        *config,
                        pathdata.path_buf@,
                        self@.0,
                        Seq::<Seq<Seq<u8>>>::empty(),
                    ) == Some(Seq::<(Seq<Seq<u8>>, Seq<Seq<Seq<u8>>>)>::empty()));
                    assert(out@.map_values(|b: RelativePathAndSnapMounts| b@) + Seq::<
                        (Seq<Seq<u8>>, Seq<Seq<Seq<u8>>>),
                    >::empty() =~= out@.map_values(|b: RelativePathAndSnapMounts| b@));
                }
                Ok(out)
            },
            None => {
                match RelativePathAndSnapMounts::new(
                    config,
                    pathdata,
                    &self.proximate_dataset_mount,
                    &self.proximate_dataset_mount,
                ) {
                    Ok(bundle) => {
                        proof {
                            assert(ds_full =~= seq![self@.0]);
                            assert(ds_full.skip(1) =~= Seq::<Seq<Seq<u8>>>::empty());
                            assert(ds_full[0] == self@.0);
                            assert(spec_bundles_list(
                                *config,
                                pathdata.path_buf@,
                                self@.0,
                                Seq::<Seq<Seq<u8>>>::empty(),
                            ) == Some(Seq::<(Seq<Seq<u8>>, Seq<Seq<Seq<u8>>>)>::empty()));
                        }
                        out.push(bundle);
                        proof {
                            assert(out@.map_values(|b: RelativePathAndSnapMounts| b@) =~= seq![
                                out@[0]@,
                            ]);
                            let ob = spec_bundle(*config, pathdata.path_buf@, self@.0, self@.0);
                            if ob is Some {
                                assert(seq![ob->0] + Seq::<
                                    (Seq<Seq<u8>>, Seq<Seq<Seq<u8>>>),
                                >::empty() =~= seq![ob->0]);
                            }
                        }
                        Ok(out)
                    },
                    Err(e) => {
                        proof {
                            assert(ds_full =~= seq![self@.0]);
                        }
                        Err(e)
                    },
                }
            },
        }
    }
}

} // verus!

verus! {

/// The candidates of a list of bundles, in bundle order.
pub open spec fn spec_cands_bundles(
    entries: Seq<FsEntry>,
    bundles: Seq<(Seq<Seq<u8>>, Seq<Seq<Seq<u8>>>)>,
) -> Seq<(Seq<Seq<u8>>, PathMetadata)>
    decreases bundles.len(),
{
    if bundles.len() == 0 {
        Seq::empty()
    } else {
        spec_cands_bundles(entries, bundles.drop_last()) + spec_candidates(
            entries,
            bundles.last().1,
            bundles.last().0,
        )
    }
}

/// The candidates one dataset type contributes for a path; resolution
/// errors are flattened to no candidates.
pub open spec fn spec_cands_for_type(
    cfg: Config,
    entries: Seq<FsEntry>,
    p: Seq<Seq<u8>>,
    t: SnapDatasetType,
) -> Seq<(Seq<Seq<u8>>, PathMetadata)> {
    match spec_proximity(cfg, p, t) {
        None => Seq::empty(),
        Some(v) => match spec_search_bundles(cfg, p, v) {
            None => Seq::empty(),
            Some(bs) => spec_cands_bundles(entries, bs),
        },
    }
}

/// Every candidate version of a path, across the selected dataset types,
/// alternates first.
pub open spec fn spec_all_candidates(cfg: Config, entries: Seq<FsEntry>, p: Seq<Seq<u8>>) -> Seq<
    (Seq<Seq<u8>>, PathMetadata),
> {
    match cfg.dataset_collection.snaps_selected_for_search {
        crate::filesystem_map::SnapsSelectedForSearch::IncludeAltReplicated => spec_cands_for_type(
            cfg,
            entries,
            p,
            SnapDatasetType::AltReplicated,
        ) + spec_cands_for_type(cfg, entries, p, SnapDatasetType::MostProximate),
        crate::filesystem_map::SnapsSelectedForSearch::MostProximateOnly => spec_cands_for_type(
            cfg,
            entries,
            p,
            SnapDatasetType::MostProximate,
        ),
    }
}

/// Insert every candidate one dataset type contributes into the running list.
fn collect_type_into(
    sorted: &mut Vec<PathData>,
    config: &Config,
    fs_view: &FsView,
    pathdata: &PathData,
    dataset_type: SnapDatasetType,
)
    ensures
        versions_view(final(sorted)@) == insert_all_versions(
            versions_view(old(sorted)@),
            spec_cands_for_type(*config, fs_view.entries@, pathdata.path_buf@, dataset_type),
        ),
        all_versions_present(old(sorted)@) ==> all_versions_present(final(sorted)@),
{
    let mp = match MostProximateAndOptAlts::new(config, pathdata, &dataset_type) {
        Ok(mp) => mp,
        Err(_) => {
            return ;
        },
    };
    let bundles = match mp.get_search_bundles(config, pathdata) {
        Ok(bs) => bs,
        Err(_) => {
            return ;
        },
    };
    let ghost bundle_views = bundles@.map_values(|b: RelativePathAndSnapMounts| b@);
    let mut i: usize = 0;
    proof {
        assert(bundle_views.take(0) =~= Seq::<(Seq<Seq<u8>>, Seq<Seq<Seq<u8>>>)>::empty());
        assert(versions_view(sorted@) =~= insert_all_versions(
            versions_view(sorted@),
            spec_cands_bundles(fs_view.entries@, bundle_views.take(0)),
        ));
    }
    while i < bundles.len()
        invariant
            i <= bundles@.len(),
            bundle_views == bundles@.map_values(|b: RelativePathAndSnapMounts| b@),
            versions_view(sorted@) == insert_all_versions(
                versions_view(old(sorted)@),
                spec_cands_bundles(fs_view.entries@, bundle_views.take(i as int)),
            ),
            all_versions_present(old(sorted)@) ==> all_versions_present(sorted@),
        decreases bundles@.len() - i,
    {
        proof {
            assert(bundle_views.take(i as int + 1).drop_last() =~= bundle_views.take(i as int));
            assert(bundle_views.take(i as int + 1).last() == bundle_views[i as int]);
            assert(bundles@[i as int]@ == bundle_views[i as int]);
        }
        collect_versions_into(sorted, fs_view, &bundles[i]);
        proof {
            lemma_insert_all_append(
                versions_view(old(sorted)@),
                spec_cands_bundles(fs_view.entries@, bundle_views.take(i as int)),
                spec_candidates(
                    fs_view.entries@,
                    bundle_views[i as int].1,
                    bundle_views[i as int].0,
                ),
            );
        }
        i += 1;
    }
    proof {
        assert(bundle_views.take(bundle_views.len() as int) =~= bundle_views);
    }
}

/// The metadata of an optional pair, or the phantom placeholder.
pub open spec fn opt_md_inf(m: Option<PathMetadata>) -> PathMetadata {
    match m {
        Some(md) => md,
        None => crate::paths::phantom_metadata(),
    }
}

/// The view of one record as a key-value pair: its path and its optional
/// metadata.
pub open spec fn pd_view(pd: PathData) -> (Seq<Seq<u8>>, Option<PathMetadata>) {
    (pd.path_buf@, pd.metadata)
}

/// The views of a sequence of records.
pub open spec fn pd_views(s: Seq<PathData>) -> Seq<(Seq<Seq<u8>>, Option<PathMetadata>)> {
    s.map_values(|pd: PathData| pd_view(pd))
}

/// The last-snap reduction of the ordered version sequence.
pub open spec fn spec_last_snap(
    mode: crate::config::LastSnapMode,
    live: (Seq<Seq<u8>>, Option<PathMetadata>),
    snaps: Seq<(Seq<Seq<u8>>, Option<PathMetadata>)>,
) -> Seq<(Seq<Seq<u8>>, Option<PathMetadata>)> {
    if snaps.len() == 0 {
        match mode {
            crate::config::LastSnapMode::KeepAll => seq![live],
            crate::config::LastSnapMode::NoDittoInclusive => seq![live],
            _ => Seq::empty(),
        }
    } else {
        let last = snaps.last();
        match mode {
            crate::config::LastSnapMode::KeepAll => snaps,
            crate::config::LastSnapMode::Any => seq![last],
            crate::config::LastSnapMode::DittoOnly => if opt_md_inf(live.1) == opt_md_inf(last.1) {
                seq![last]
            } else {
                Seq::empty()
            },
            _ => if opt_md_inf(live.1) != opt_md_inf(last.1) {
                seq![last]
            } else {
                Seq::empty()
            },
        }
    }
}

/// Reduce the ordered version sequence per the last-snap mode: keep the last
/// version, keep it only when it matches (or differs from) the live file, or
/// synthesize the live record when nothing remains.
pub fn get_last_snap(
    last_snap_mode: &crate::config::LastSnapMode,
    pathdata: &PathData,
    snaps: &Vec<PathData>,
) -> (r: Vec<PathData>)
    ensures
        pd_views(r@) == spec_last_snap(*last_snap_mode, pd_view(*pathdata), pd_views(snaps@)),
{
    let mut r: Vec<PathData> = Vec::new();
    if snaps.len() == 0 {
        match last_snap_mode {
            crate::config::LastSnapMode::KeepAll | crate::config::LastSnapMode::NoDittoInclusive => {
                r.push(pathdata.clone());
                proof {
                    assert(pd_views(r@) =~= seq![pd_view(*pathdata)]);
                }
            },
            _ => {
                proof {
                    assert(pd_views(r@) =~= Seq::<(Seq<Seq<u8>>, Option<PathMetadata>)>::empty());
                }
            },
        }
        return r;
    }
    let last = &snaps[snaps.len() - 1];
    proof {
        assert(pd_views(snaps@).last() == pd_view(snaps@.last()));
    }
    let keep: bool = match last_snap_mode {
        crate::config::LastSnapMode::KeepAll => {
            let out = clone_records(snaps);
            return out;
        },
        crate::config::LastSnapMode::Any => true,
        crate::config::LastSnapMode::DittoOnly => {
            let a = pathdata.md_infallible();
            let b = last.md_infallible();
            a.modify_time == b.modify_time && a.size == b.size
        },
        crate::config::LastSnapMode::NoDittoExclusive
        | crate::config::LastSnapMode::NoDittoInclusive => {
            let a = pathdata.md_infallible();
            let b = last.md_infallible();
            !(a.modify_time == b.modify_time && a.size == b.size)
        },
    };
    if keep {
        r.push(last.clone());
        proof {
            assert(pd_views(r@) =~= seq![pd_view(snaps@.last())]);
        }
    } else {
        proof {
            assert(pd_views(r@) =~= Seq::<(Seq<Seq<u8>>, Option<PathMetadata>)>::empty());
        }
    }
    r
}

/// Copy a sequence of records.
pub fn clone_records(v: &Vec<PathData>) -> (r: Vec<PathData>)
    ensures
        pd_views(r@) == pd_views(v@),
{
    let mut r: Vec<PathData> = Vec::new();
    let mut i: usize = 0;
    while i < v.len()
        invariant
            i <= v@.len(),
            pd_views(r@) == pd_views(v@.take(i as int)),
        decreases v@.len() - i,
    {
        let ghost pre = r@;
        r.push(v[i].clone());
        proof {
            assert(pd_views(r@) =~= pd_views(pre).push(pd_view(v@[i as int])));
            assert(pd_views(v@.take(i as int + 1)) =~= pd_views(v@.take(i as int)).push(
                pd_view(v@[i as int]),
            ));
        }
        i += 1;
    }
    proof {
        assert(v@.take(v@.len() as int) =~= v@);
    }
    r
}

/// The complete per-path result: the deduplicated, ordered versions, after
/// the omit-ditto filter and the last-snap reduction.
pub open spec fn spec_snaps_for_path(
    cfg: Config,
    entries: Seq<FsEntry>,
    live: (Seq<Seq<u8>>, Option<PathMetadata>),
) -> Seq<(Seq<Seq<u8>>, Option<PathMetadata>)> {
    let deduped = dedup_sorted_of(spec_all_candidates(cfg, entries, live.0));
    let lifted = deduped.map_values(
        |v: (Seq<Seq<u8>>, PathMetadata)| (v.0, Some(v.1)),
    );
    let after = if cfg.opt_omit_ditto {
        lifted.filter(|v: (Seq<Seq<u8>>, Option<PathMetadata>)| opt_md_inf(v.1) != opt_md_inf(live.1))
    } else {
        lifted
    };
    match cfg.opt_last_snap {
        Some(mode) => spec_last_snap(mode, live, after),
        None => after,
    }
}

/// Compute the versions of one live path: collect candidates across the
/// selected dataset types, deduplicate by `(modify time, size)`, sort, then
/// apply the omit-ditto filter and the last-snap reduction.
pub fn versions_for_path(config: &Config, fs_view: &FsView, pathdata: &PathData) -> (r: Vec<
    PathData,
>)
    ensures
        pd_views(r@) == spec_snaps_for_path(*config, fs_view.entries@, pd_view(*pathdata)),
{
    let mut sorted: Vec<PathData> = Vec::new();
    proof {
        assert(versions_view(sorted@) =~= Seq::<(Seq<Seq<u8>>, PathMetadata)>::empty());
        assert(all_versions_present(sorted@));
    }
    match config.dataset_collection.snaps_selected_for_search {
        crate::filesystem_map::SnapsSelectedForSearch::IncludeAltReplicated => {
            collect_type_into(
                &mut sorted,
                config,
                fs_view,
                pathdata,
                SnapDatasetType::AltReplicated,
            );
            collect_type_into(
                &mut sorted,
                config,
                fs_view,
                pathdata,
                SnapDatasetType::MostProximate,
            );
            proof {
                lemma_insert_all_append(
                    Seq::empty(),
                    spec_cands_for_type(
                        *config,
                        fs_view.entries@,
                        pathdata.path_buf@,
                        SnapDatasetType::AltReplicated,
                    ),
                    spec_cands_for_type(
                        *config,
                        fs_view.entries@,
                        pathdata.path_buf@,
                        SnapDatasetType::MostProximate,
                    ),
                );
            }
        },
        crate::filesystem_map::SnapsSelectedForSearch::MostProximateOnly => {
            collect_type_into(
                &mut sorted,
                config,
                fs_view,
                pathdata,
                SnapDatasetType::MostProximate,
            );
        },
    }
    let ghost deduped = dedup_sorted_of(
        spec_all_candidates(*config, fs_view.entries@, pathdata.path_buf@),
    );
    proof {
        assert(versions_view(sorted@) == deduped);
        assert(pd_views(sorted@) =~= deduped.map_values(
            |v: (Seq<Seq<u8>>, PathMetadata)| (v.0, Some(v.1)),
        ));
    }
    let after = if config.opt_omit_ditto {
        let live_md = pathdata.md_infallible();
        let ghost pred = |v: (Seq<Seq<u8>>, Option<PathMetadata>)|
            opt_md_inf(v.1) != opt_md_inf(pd_view(*pathdata).1);
        let mut kept: Vec<PathData> = Vec::new();
        let mut i: usize = 0;
        proof {
            reveal(Seq::filter);
            assert(pd_views(sorted@.take(0)) =~= Seq::<
                (Seq<Seq<u8>>, Option<PathMetadata>),
            >::empty());
            assert(pd_views(kept@) =~= pd_views(sorted@.take(0)).filter(pred));
        }
        while i < sorted.len()
            invariant
                i <= sorted@.len(),
                pred == (|v: (Seq<Seq<u8>>, Option<PathMetadata>)|
                    opt_md_inf(v.1) != opt_md_inf(pd_view(*pathdata).1)),
                live_md == opt_md_inf(pd_view(*pathdata).1),
                pd_views(kept@) == pd_views(sorted@.take(i as int)).filter(pred),
            decreases sorted@.len() - i,
        {
            let ghost pre = kept@;
            let m = sorted[i].md_infallible();
            let retain = !(m.modify_time == live_md.modify_time && m.size == live_md.size);
            if retain {
                kept.push(sorted[i].clone());
            }
            proof {
                reveal(Seq::filter);
                assert(pd_views(sorted@.take(i as int + 1)).drop_last() =~= pd_views(
                    sorted@.take(i as int),
                ));
                assert(pd_views(sorted@.take(i as int + 1)).last() == pd_view(sorted@[i as int]));
                assert(retain == pred(pd_view(sorted@[i as int])));
                if retain {
                    assert(pd_views(kept@) =~= pd_views(pre).push(pd_view(sorted@[i as int])));
                }
            }
            i += 1;
        }
        proof {
            assert(sorted@.take(sorted@.len() as int) =~= sorted@);
        }
        kept
    } else {
        sorted
    };
    match &config.opt_last_snap {
        Some(mode) => get_last_snap(mode, pathdata, &after),
        None => after,
    }
}

} // verus!

verus! {

use crate::paths::path_lt;

/// Insert a live record into a path-sorted, path-unique key list.  A record
/// whose path is already present is dropped: the first occurrence wins.
pub open spec fn insert_live(
    s: Seq<(Seq<Seq<u8>>, Option<PathMetadata>)>,
    c: (Seq<Seq<u8>>, Option<PathMetadata>),
) -> Seq<(Seq<Seq<u8>>, Option<PathMetadata>)>
    decreases s.len(),
{
    if s.len() == 0 {
        seq![c]
    } else if path_lt(s[0].0, c.0) {
        seq![s[0]] + insert_live(s.skip(1), c)
    } else if s[0].0 == c.0 {
        s
    } else {
        seq![c] + s
    }
}

/// Insert each live record in turn.
pub open spec fn insert_all_live(
    s: Seq<(Seq<Seq<u8>>, Option<PathMetadata>)>,
    cs: Seq<(Seq<Seq<u8>>, Option<PathMetadata>)>,
) -> Seq<(Seq<Seq<u8>>, Option<PathMetadata>)>
    decreases cs.len(),
{
    if cs.len() == 0 {
        s
    } else {
        insert_live(insert_all_live(s, cs.drop_last()), cs.last())
    }
}

/// The requested paths, deduplicated by path and sorted lexicographically:
/// the key sequence of the display map.
pub open spec fn sort_dedup_live(cs: Seq<(Seq<Seq<u8>>, Option<PathMetadata>)>) -> Seq<
    (Seq<Seq<u8>>, Option<PathMetadata>),
> {
    insert_all_live(Seq::empty(), cs)
}

/// Where the scan stopped is where the spec insertion lands.
proof fn lemma_insert_live_at(
    s: Seq<(Seq<Seq<u8>>, Option<PathMetadata>)>,
    c: (Seq<Seq<u8>>, Option<PathMetadata>),
    pos: int,
)
    requires
        0 <= pos <= s.len(),
        forall|j: int| 0 <= j < pos ==> path_lt(s[j].0, c.0),
        pos < s.len() ==> !path_lt(s[pos].0, c.0),
    ensures
        insert_live(s, c) == if pos < s.len() && s[pos].0 == c.0 {
            s
        } else {
            s.take(pos) + seq![c] + s.skip(pos)
        },
    decreases pos,
{
    if pos == 0 {
        if s.len() == 0 {
            assert(insert_live(s, c) =~= s.take(0) + seq![c] + s.skip(0));
        } else if s[0].0 == c.0 {
        } else {
            assert(insert_live(s, c) =~= s.take(0) + seq![c] + s.skip(0));
        }
    } else {
        assert(path_lt(s[0].0, c.0));
        assert(forall|j: int| 0 <= j < pos - 1 ==> path_lt(s.skip(1)[j].0, c.0));
        if pos < s.len() {
            assert(s.skip(1)[pos - 1] == s[pos]);
        }
        lemma_insert_live_at(s.skip(1), c, pos - 1);
        if pos < s.len() && s[pos].0 == c.0 {
            assert(insert_live(s, c) =~= s);
        } else {
            assert(s.skip(1).take(pos - 1) =~= s.take(pos).skip(1));
            assert(seq![s[0]] + (s.take(pos).skip(1) + seq![c] + s.skip(1).skip(pos - 1)) =~= s.take(
                pos,
            ) + seq![c] + s.skip(pos));
        }
    }
}

/// The key views of the map's pairs.
pub open spec fn map_keys(m: Seq<(PathData, Vec<PathData>)>) -> Seq<
    (Seq<Seq<u8>>, Option<PathMetadata>),
> {
    m.map_values(|kv: (PathData, Vec<PathData>)| pd_view(kv.0))
}

/// Every value list is the per-path result of its own key.
pub open spec fn map_values_consistent(
    cfg: Config,
    entries: Seq<FsEntry>,
    m: Seq<(PathData, Vec<PathData>)>,
) -> bool {
    forall|i: int|
        0 <= i < m.len() ==> pd_views((#[trigger] m[i]).1@) == spec_snaps_for_path(
            cfg,
            entries,
            pd_view(m[i].0),
        )
}

/// The insertion-ordered mapping from each requested live path to its
/// ordered snapshot versions.  Keys are sorted lexicographically by path and
/// unique; each value list is the per-path lookup result.
#[derive(Debug)]
pub struct DisplayMap {
    pub inner: Vec<(PathData, Vec<PathData>)>,
}

impl DisplayMap {
    /// Build the live-to-snapshots map for a set of requested paths.
    pub fn new(config: &Config, path_set: &Vec<PathData>, fs_view: &FsView) -> (r: Self)
        ensures
            map_keys(r.inner@) == sort_dedup_live(pd_views(path_set@)),
            map_values_consistent(*config, fs_view.entries@, r.inner@),
    {
        let mut inner: Vec<(PathData, Vec<PathData>)> = Vec::new();
        let mut i: usize = 0;
        proof {
            assert(pd_views(path_set@.take(0)) =~= Seq::<
                (Seq<Seq<u8>>, Option<PathMetadata>),
            >::empty());
            assert(map_keys(inner@) =~= sort_dedup_live(pd_views(path_set@.take(0))));
        }
        while i < path_set.len()
            invariant
                i <= path_set@.len(),
                map_keys(inner@) == sort_dedup_live(pd_views(path_set@.take(i as int))),
                map_values_consistent(*config, fs_view.entries@, inner@),
            decreases path_set@.len() - i,
        {
            let pathdata = &path_set[i];
            let snaps = versions_for_path(config, fs_view, pathdata);
            proof {
                assert(pd_views(path_set@.take(i as int + 1)).drop_last() =~= pd_views(
                    path_set@.take(i as int),
                ));
                assert(pd_views(path_set@.take(i as int + 1)).last() == pd_view(
                    path_set@[i as int],
                ));
            }
            let mut pos: usize = 0;
            while pos < inner.len() && crate::paths::path_lt_exec(
                &inner[pos].0.path_buf,
                &pathdata.path_buf,
            )
                invariant
                    pos <= inner@.len(),
                    forall|j: int| 0 <= j < pos ==> path_lt(map_keys(inner@)[j].0, pathdata.path_buf@),
                decreases inner@.len() - pos,
            {
                pos += 1;
            }
            proof {
                lemma_insert_live_at(map_keys(inner@), pd_view(*pathdata), pos as int);
            }
            if pos < inner.len() && inner[pos].0.path_buf.path_eq(&pathdata.path_buf) {
                // the path was already requested: the first occurrence wins
            } else {
                let ghost pre = inner@;
                inner.insert(pos, (pathdata.clone(), snaps));
                proof {
                    assert(map_keys(inner@) =~= map_keys(pre).take(pos as int) + seq![
                        pd_view(*pathdata),
                    ] + map_keys(pre).skip(pos as int));
                    assert forall|k: int|
                        0 <= k < inner@.len() implies pd_views((#[trigger] inner@[k]).1@)
                        == spec_snaps_for_path(
                        *config,
                        fs_view.entries@,
                        pd_view(inner@[k].0),
                    ) by {
                        if k < pos {
                            assert(inner@[k] == pre[k]);
                        } else if k == pos {
                            assert(pd_view(inner@[k].0) == pd_view(*pathdata));
                        } else {
                            assert(inner@[k] == pre[k - 1]);
                        }
                    }
                }
            }
            i += 1;
        }
        proof {
            assert(path_set@.take(path_set@.len() as int) =~= path_set@);
        }
        DisplayMap { inner }
    }
}

/// Whether the whole lookup found nothing: every key is phantom and every
/// value sequence is empty.
pub open spec fn spec_no_copies(
    cfg: Config,
    entries: Seq<FsEntry>,
    keys: Seq<(Seq<Seq<u8>>, Option<PathMetadata>)>,
) -> bool {
    &&& forall|i: int|
        0 <= i < keys.len() ==> spec_snaps_for_path(cfg, entries, #[trigger] keys[i]).len() == 0
    &&& forall|i: int| 0 <= i < keys.len() ==> (#[trigger] keys[i]).1 is None
}

/// Run the lookup on a set of requested paths.  Fails with `NoCopiesFound`
/// exactly when every requested path is phantom, every value sequence is
/// empty, and snapshots were not disabled.
pub fn versions_lookup_exec(config: &Config, path_set: &Vec<PathData>, fs_view: &FsView) -> (r:
    Result<DisplayMap, HttmError>)
    ensures
        r is Ok <==> !(spec_no_copies(
            *config,
            fs_view.entries@,
            sort_dedup_live(pd_views(path_set@)),
        ) && !config.opt_no_snap),
        r matches Ok(m) ==> map_keys(m.inner@) == sort_dedup_live(pd_views(path_set@))
            && map_values_consistent(*config, fs_view.entries@, m.inner@),
        r matches Err(e) ==> e.kind == HttmErrorKind::NoCopiesFound,
{
    let map_live_to_snaps = DisplayMap::new(config, path_set, fs_view);
    let mut all_empty_and_phantom = true;
    let mut i: usize = 0;
    while i < map_live_to_snaps.inner.len()
        invariant
            i <= map_live_to_snaps.inner@.len(),
            map_keys(map_live_to_snaps.inner@) == sort_dedup_live(pd_views(path_set@)),
            map_values_consistent(*config, fs_view.entries@, map_live_to_snaps.inner@),
            all_empty_and_phantom <==> (forall|j: int|
                0 <= j < i ==> pd_views((#[trigger] map_live_to_snaps.inner@[j]).1@).len() == 0
                    && (map_live_to_snaps.inner@[j].0).metadata is None),
        decreases map_live_to_snaps.inner@.len() - i,
    {
        let entry_is_empty = map_live_to_snaps.inner[i].1.len() == 0;
        let key_is_phantom = match map_live_to_snaps.inner[i].0.metadata {
            Some(_) => false,
            None => true,
        };
        if !(entry_is_empty && key_is_phantom) {
            all_empty_and_phantom = false;
        }
        i += 1;
    }
    if all_empty_and_phantom && !config.opt_no_snap {
        proof {
            let keys = sort_dedup_live(pd_views(path_set@));
            assert forall|j: int|
                0 <= j < keys.len() implies spec_snaps_for_path(
                *config,
                fs_view.entries@,
                #[trigger] keys[j],
            ).len() == 0 && keys[j].1 is None by {
                assert(keys[j] == pd_view(map_live_to_snaps.inner@[j].0));
                assert(pd_views(map_live_to_snaps.inner@[j].1@).len() == 0);
            }
        }
        return Err(
            HttmError::with_kind(
                HttmErrorKind::NoCopiesFound,
                "could not find either a live copy or a snapshot copy of any specified file",
            ),
        );
    }
    proof {
        let keys = sort_dedup_live(pd_views(path_set@));
        if spec_no_copies(*config, fs_view.entries@, keys) {
            assert forall|j: int|
                0 <= j < map_live_to_snaps.inner@.len() implies pd_views(
                (#[trigger] map_live_to_snaps.inner@[j]).1@,
            ).len() == 0 && (map_live_to_snaps.inner@[j].0).metadata is None by {
                assert(keys[j] == pd_view(map_live_to_snaps.inner@[j].0));
            }
        }
    }
    Ok(map_live_to_snaps)
}

} // verus!

verus! {

/// Strictly ascending in the `(modify time, size)` key: each record's key is
/// below the next one's, so no two records share a key.
pub open spec fn versions_strictly_sorted(s: Seq<(Seq<Seq<u8>>, PathMetadata)>) -> bool {
    forall|i: int, j: int| 0 <= i < j < s.len() ==> md_lt(s[i].1, s[j].1)
}

/// The same, over records with optional metadata.
pub open spec fn records_strictly_sorted(s: Seq<(Seq<Seq<u8>>, Option<PathMetadata>)>) -> bool {
    forall|i: int, j: int| 0 <= i < j < s.len() ==> md_lt(opt_md_inf(s[i].1), opt_md_inf(s[j].1))
}

/// Inserting keeps the list strictly sorted, adds no key but the candidate's,
/// and afterwards the candidate's key is present.
proof fn lemma_insert_version_sorted(
    s: Seq<(Seq<Seq<u8>>, PathMetadata)>,
    c: (Seq<Seq<u8>>, PathMetadata),
)
    requires
        versions_strictly_sorted(s),
    ensures
        versions_strictly_sorted(insert_version(s, c)),
        forall|x: (Seq<Seq<u8>>, PathMetadata)|
            #[trigger] insert_version(s, c).contains(x) ==> s.contains(x) || x == c,
        exists|i: int|
            0 <= i < insert_version(s, c).len() && #[trigger] insert_version(s, c)[i].1 == c.1,
        forall|x: (Seq<Seq<u8>>, PathMetadata)| s.contains(x) ==> exists|i: int|
            0 <= i < insert_version(s, c).len() && #[trigger] insert_version(s, c)[i].1 == x.1,
    decreases s.len(),
{
    let out = insert_version(s, c);
    if s.len() == 0 {
        assert(out =~= seq![c]);
        assert(out[0].1 == c.1);
    } else if md_lt(s[0].1, c.1) {
        assert(versions_strictly_sorted(s.skip(1))) by {
            assert(forall|i: int, j: int|
                0 <= i < j < s.skip(1).len() ==> s.skip(1)[i] == s[i + 1] && s.skip(1)[j] == s[j
                    + 1]);
        }
        lemma_insert_version_sorted(s.skip(1), c);
        let rest = insert_version(s.skip(1), c);
        assert(out =~= seq![s[0]] + rest);
        assert forall|i: int, j: int| 0 <= i < j < out.len() implies md_lt(out[i].1, out[j].1) by {
            if i == 0 {
                assert(out[j] == rest[j - 1]);
                assert(rest.contains(rest[j - 1]));
                if s.skip(1).contains(rest[j - 1]) {
                    let k = choose|k: int|
                        0 <= k < s.skip(1).len() && s.skip(1)[k] == rest[j - 1];
                    assert(s[k + 1] == rest[j - 1]);
                    assert(md_lt(s[0].1, s[k + 1].1));
                }
            } else {
                assert(out[i] == rest[i - 1] && out[j] == rest[j - 1]);
            }
        }
        assert forall|x: (Seq<Seq<u8>>, PathMetadata)| #[trigger] out.contains(x) implies s.contains(
            x,
        ) || x == c by {
            let k = choose|k: int| 0 <= k < out.len() && out[k] == x;
            if k == 0 {
                assert(s[0] == x);
            } else {
                assert(rest[k - 1] == x);
                assert(rest.contains(x));
                if s.skip(1).contains(x) {
                    let m = choose|m: int| 0 <= m < s.skip(1).len() && s.skip(1)[m] == x;
                    assert(s[m + 1] == x);
                }
            }
        }
        let ci = choose|i: int| 0 <= i < rest.len() && rest[i].1 == c.1;
        assert(out[ci + 1].1 == c.1);
        assert forall|x: (Seq<Seq<u8>>, PathMetadata)| s.contains(x) implies exists|i: int|
            0 <= i < out.len() && #[trigger] out[i].1 == x.1 by {
            let k = choose|k: int| 0 <= k < s.len() && s[k] == x;
            if k == 0 {
                assert(out[0].1 == x.1);
            } else {
                assert(s.skip(1)[k - 1] == x);
                assert(s.skip(1).contains(x));
                let m = choose|m: int| 0 <= m < rest.len() && rest[m].1 == x.1;
                assert(out[m + 1].1 == x.1);
            }
        }
    } else if s[0].1 == c.1 {
        assert(out[0].1 == c.1);
        assert(forall|x: (Seq<Seq<u8>>, PathMetadata)| s.contains(x) ==> out.contains(x));
        assert forall|x: (Seq<Seq<u8>>, PathMetadata)| s.contains(x) implies exists|i: int|
            0 <= i < out.len() && #[trigger] out[i].1 == x.1 by {
            let k = choose|k: int| 0 <= k < s.len() && s[k] == x;
            assert(out[k].1 == x.1);
        }
    } else {
        assert(out =~= seq![c] + s);
        assert forall|i: int, j: int| 0 <= i < j < out.len() implies md_lt(out[i].1, out[j].1) by {
            if i == 0 {
                assert(out[j] == s[j - 1]);
                assert(!md_lt(s[0].1, c.1) && s[0].1 != c.1);
                assert(md_lt(c.1, s[0].1));
                if j > 1 {
                    assert(md_lt(s[0].1, s[j - 1].1));
                }
            } else {
                assert(out[i] == s[i - 1] && out[j] == s[j - 1]);
            }
        }
        assert forall|x: (Seq<Seq<u8>>, PathMetadata)| #[trigger] out.contains(x) implies s.contains(
            x,
        ) || x == c by {
            let k = choose|k: int| 0 <= k < out.len() && out[k] == x;
            if k > 0 {
                assert(s[k - 1] == x);
            }
        }
        assert(out[0].1 == c.1);
        assert forall|x: (Seq<Seq<u8>>, PathMetadata)| s.contains(x) implies exists|i: int|
            0 <= i < out.len() && #[trigger] out[i].1 == x.1 by {
            let k = choose|k: int| 0 <= k < s.len() && s[k] == x;
            assert(out[k + 1].1 == x.1);
        }
    }
}

/// The deduplication law and the order law for the collected candidates:
/// the result is strictly ascending in the `(modify time, size)` key, every
/// record is one of the candidates, and every candidate's key appears.
pub proof fn lemma_dedup_sorted(s: Seq<(Seq<Seq<u8>>, PathMetadata)>, cands: Seq<(Seq<Seq<u8>>, PathMetadata)>)
    requires
        versions_strictly_sorted(s),
    ensures
        versions_strictly_sorted(insert_all_versions(s, cands)),
        forall|x: (Seq<Seq<u8>>, PathMetadata)|
            #[trigger] insert_all_versions(s, cands).contains(x) ==> s.contains(x)
                || cands.contains(x),
        forall|x: (Seq<Seq<u8>>, PathMetadata)| s.contains(x) || cands.contains(x) ==> exists|i: int|
            0 <= i < insert_all_versions(s, cands).len() && #[trigger] insert_all_versions(
                s,
                cands,
            )[i].1 == x.1,
    decreases cands.len(),
{
    let out = insert_all_versions(s, cands);
    if cands.len() == 0 {
        assert forall|x: (Seq<Seq<u8>>, PathMetadata)|
            s.contains(x) || cands.contains(x) implies exists|i: int|
            0 <= i < out.len() && #[trigger] out[i].1 == x.1 by {
            let k = choose|k: int| 0 <= k < s.len() && s[k] == x;
            assert(out[k].1 == x.1);
        }
    } else {
        lemma_dedup_sorted(s, cands.drop_last());
        let mid = insert_all_versions(s, cands.drop_last());
        lemma_insert_version_sorted(mid, cands.last());
        assert forall|x: (Seq<Seq<u8>>, PathMetadata)| #[trigger] out.contains(x) implies s.contains(
            x,
        ) || cands.contains(x) by {
            if x != cands.last() {
                assert(mid.contains(x));
                if cands.drop_last().contains(x) {
                    let k = choose|k: int| 0 <= k < cands.drop_last().len() && cands.drop_last()[k]
                        == x;
                    assert(cands[k] == x);
                }
            }
        }
        assert forall|x: (Seq<Seq<u8>>, PathMetadata)|
            s.contains(x) || cands.contains(x) implies exists|i: int|
            0 <= i < out.len() && #[trigger] out[i].1 == x.1 by {
            if x == cands.last() {
            } else if cands.contains(x) && !cands.drop_last().contains(x) {
                let k = choose|k: int| 0 <= k < cands.len() && cands[k] == x;
                if k < cands.len() - 1 {
                    assert(cands.drop_last()[k] == x);
                }
                assert(x == cands.last());
            } else {
                let m = choose|m: int| 0 <= m < mid.len() && #[trigger] mid[m].1 == x.1;
                assert(mid.contains(mid[m]));
            }
        }
    }
}

/// Determinism: the lookup's outcome is a function of the inventory, the
/// options, the requested paths and the filesystem state alone, so two maps
/// built from the same inputs agree key for key and record for record.
pub proof fn lemma_lookup_deterministic(
    cfg: Config,
    entries: Seq<FsEntry>,
    path_set: Seq<PathData>,
    m1: Seq<(PathData, Vec<PathData>)>,
    m2: Seq<(PathData, Vec<PathData>)>,
)
    requires
        map_keys(m1) == sort_dedup_live(pd_views(path_set)),
        map_keys(m2) == sort_dedup_live(pd_views(path_set)),
        map_values_consistent(cfg, entries, m1),
        map_values_consistent(cfg, entries, m2),
    ensures
        m1.len() == m2.len(),
        forall|i: int| 0 <= i < m1.len() ==> pd_view(#[trigger] m1[i].0) == pd_view(m2[i].0),
        forall|i: int| 0 <= i < m1.len() ==> pd_views(#[trigger] m1[i].1@) == pd_views(m2[i].1@),
{
    assert(map_keys(m1).len() == m1.len());
    assert(map_keys(m2).len() == m2.len());
    assert forall|i: int| 0 <= i < m1.len() implies pd_view(#[trigger] m1[i].0) == pd_view(
        m2[i].0,
    ) by {
        assert(map_keys(m1)[i] == pd_view(m1[i].0));
        assert(map_keys(m2)[i] == pd_view(m2[i].0));
    }
}

} // verus!

verus! {

/// Whether a path is one of the inventoried snapshot roots.
pub open spec fn is_snap_root(cfg: Config, root: Seq<Seq<u8>>) -> bool {
    exists|di: int, ri: int|
        #![auto]
        0 <= di < cfg.dataset_collection.map_of_snaps@.len() && 0 <= ri
            < cfg.dataset_collection.map_of_snaps@[di].1@.len()
            && cfg.dataset_collection.map_of_snaps@[di].1@[ri]@ == root
}

/// Whether a record's path lies beneath some inventoried snapshot root.
pub open spec fn under_some_snap_root(cfg: Config, p: Seq<Seq<u8>>) -> bool {
    exists|root: Seq<Seq<u8>>| #[trigger] is_snap_root(cfg, root) && root.is_prefix_of(p)
}

/// Every candidate of a bundle is a snapshot root joined with the suffix.
proof fn lemma_candidates_prefix(
    entries: Seq<FsEntry>,
    mounts: Seq<Seq<Seq<u8>>>,
    rel: Seq<Seq<u8>>,
)
    ensures
        forall|x: (Seq<Seq<u8>>, PathMetadata)|
            #[trigger] spec_candidates(entries, mounts, rel).contains(x) ==> exists|j: int|
                0 <= j < mounts.len() && x.0 == #[trigger] mounts[j] + rel,
{
    let f = |m: Seq<Seq<u8>>|
        match spec_stat(entries, m + rel) {
            Some(e) => Some((m + rel, e.metadata)),
            None => None,
        };
    assert forall|x: (Seq<Seq<u8>>, PathMetadata)|
        #[trigger] spec_candidates(entries, mounts, rel).contains(x) implies exists|j: int|
        0 <= j < mounts.len() && x.0 == #[trigger] mounts[j] + rel by {
        mounts.lemma_filter_map_contains(f, x);
        let t = choose|t: Seq<Seq<u8>>| #[trigger] mounts.contains(t) && f(t) == Some(x);
        let j = choose|j: int| 0 <= j < mounts.len() && mounts[j] == t;
        assert(x.0 == mounts[j] + rel);
    }
}

/// Every bundle a resolution yields draws its roots from the snapshot map.
proof fn lemma_bundles_list_roots(
    cfg: Config,
    p: Seq<Seq<u8>>,
    prox: Seq<Seq<u8>>,
    ds: Seq<Seq<Seq<u8>>>,
)
    ensures
        spec_bundles_list(cfg, p, prox, ds) is Some ==> forall|bi: int, j: int|
            #![auto]
            0 <= bi < spec_bundles_list(cfg, p, prox, ds)->0.len() && 0 <= j < spec_bundles_list(
                cfg,
                p,
                prox,
                ds,
            )->0[bi].1.len() ==> is_snap_root(cfg, spec_bundles_list(cfg, p, prox, ds)->0[bi].1[j]),
    decreases ds.len(),
{
    if ds.len() == 0 {
    } else {
        lemma_bundles_list_roots(cfg, p, prox, ds.skip(1));
        if spec_bundles_list(cfg, p, prox, ds) is Some {
            let b = spec_bundle(cfg, p, prox, ds[0])->0;
            let rest = spec_bundles_list(cfg, p, prox, ds.skip(1))->0;
            let bs = spec_bundles_list(cfg, p, prox, ds)->0;
            assert(bs == seq![b] + rest);
            let snaps = cfg.dataset_collection.map_of_snaps@;
            crate::filesystem_map::lemma_map_get_entry(snaps, ds[0]);
            let di = choose|i: int|
                0 <= i < snaps.len() && (#[trigger] snaps[i]).0@ == ds[0] && snaps[i].1
                    == spec_map_get(snaps, ds[0])->0;
            assert forall|bi: int, j: int|
                #![auto]
                0 <= bi < bs.len() && 0 <= j < bs[bi].1.len() implies is_snap_root(
                cfg,
                bs[bi].1[j],
            ) by {
                if bi == 0 {
                    assert(bs[0] == b);
                    assert(b.1 == paths_view(snaps[di].1@));
                    assert(b.1[j] == snaps[di].1@[j]@);
                } else {
                    assert(bs[bi] == rest[bi - 1]);
                }
            }
        }
    }
}

/// Every collected candidate lies beneath some inventoried snapshot root.
proof fn lemma_cands_bundles_roots(
    cfg: Config,
    entries: Seq<FsEntry>,
    bundles: Seq<(Seq<Seq<u8>>, Seq<Seq<Seq<u8>>>)>,
)
    requires
        forall|bi: int, j: int|
            #![auto]
            0 <= bi < bundles.len() && 0 <= j < bundles[bi].1.len() ==> is_snap_root(
                cfg,
                bundles[bi].1[j],
            ),
    ensures
        forall|x: (Seq<Seq<u8>>, PathMetadata)|
            #[trigger] spec_cands_bundles(entries, bundles).contains(x) ==> under_some_snap_root(
                cfg,
                x.0,
            ),
    decreases bundles.len(),
{
    if bundles.len() == 0 {
    } else {
        let init = bundles.drop_last();
        assert(forall|bi: int, j: int|
            #![auto]
            0 <= bi < init.len() && 0 <= j < init[bi].1.len() ==> is_snap_root(
                cfg,
                init[bi].1[j],
            )) by {
            assert(forall|bi: int| 0 <= bi < init.len() ==> init[bi] == bundles[bi]);
        }
        lemma_cands_bundles_roots(cfg, entries, init);
        let last = bundles.last();
        lemma_candidates_prefix(entries, last.1, last.0);
        assert forall|x: (Seq<Seq<u8>>, PathMetadata)|
            #[trigger] spec_cands_bundles(entries, bundles).contains(x) implies under_some_snap_root(
            cfg,
            x.0,
        ) by {
            let whole = spec_cands_bundles(entries, bundles);
            let k = choose|k: int| 0 <= k < whole.len() && whole[k] == x;
            let front = spec_cands_bundles(entries, init);
            if k < front.len() {
                assert(front[k] == x);
                assert(front.contains(x));
            } else {
                let cand = spec_candidates(entries, last.1, last.0);
                assert(cand[k - front.len()] == x);
                assert(cand.contains(x));
                let j = choose|j: int| 0 <= j < last.1.len() && x.0 == #[trigger] last.1[j] + last.0;
                assert(is_snap_root(cfg, last.1[j]));
                assert((last.1[j] + last.0).subrange(0, last.1[j].len() as int) =~= last.1[j]);
                assert(last.1[j].is_prefix_of(x.0));
            }
        }
    }
}

/// Every candidate of the whole search lies beneath a snapshot root.
proof fn lemma_all_candidates_roots(cfg: Config, entries: Seq<FsEntry>, p: Seq<Seq<u8>>)
    ensures
        forall|x: (Seq<Seq<u8>>, PathMetadata)|
            #[trigger] spec_all_candidates(cfg, entries, p).contains(x) ==> under_some_snap_root(
                cfg,
                x.0,
            ),
{
    assert forall|t: SnapDatasetType, x: (Seq<Seq<u8>>, PathMetadata)|
        #[trigger] spec_cands_for_type(cfg, entries, p, t).contains(x) implies under_some_snap_root(
        cfg,
        x.0,
    ) by {
        if spec_proximity(cfg, p, t) is Some {
            let v = spec_proximity(cfg, p, t)->0;
            if spec_search_bundles(cfg, p, v) is Some {
                lemma_bundles_list_roots(cfg, p, v.0, spec_datasets_of_interest(v));
                lemma_cands_bundles_roots(cfg, entries, spec_search_bundles(cfg, p, v)->0);
            }
        }
    }
    assert forall|x: (Seq<Seq<u8>>, PathMetadata)|
        #[trigger] spec_all_candidates(cfg, entries, p).contains(x) implies under_some_snap_root(
        cfg,
        x.0,
    ) by {
        match cfg.dataset_collection.snaps_selected_for_search {
            crate::filesystem_map::SnapsSelectedForSearch::IncludeAltReplicated => {
                let a = spec_cands_for_type(cfg, entries, p, SnapDatasetType::AltReplicated);
                let m = spec_cands_for_type(cfg, entries, p, SnapDatasetType::MostProximate);
                let k = choose|k: int| 0 <= k < (a + m).len() && (a + m)[k] == x;
                if k < a.len() {
                    assert(a[k] == x);
                    assert(a.contains(x));
                } else {
                    assert(m[k - a.len()] == x);
                    assert(m.contains(x));
                }
            },
            crate::filesystem_map::SnapsSelectedForSearch::MostProximateOnly => {},
        }
    }
}

/// The containment law: with no last-snap reduction, every record the lookup
/// emits for a path lies beneath some snapshot root listed in the inventory.
/// (A last-snap mode may synthesize the live record itself, which lies under
/// no snapshot root; those modes are excluded here.)
pub proof fn lemma_containment(
    cfg: Config,
    entries: Seq<FsEntry>,
    live: (Seq<Seq<u8>>, Option<PathMetadata>),
)
    requires
        cfg.opt_last_snap is None,
    ensures
        forall|i: int|
            0 <= i < spec_snaps_for_path(cfg, entries, live).len() ==> under_some_snap_root(
                cfg,
                (#[trigger] spec_snaps_for_path(cfg, entries, live)[i]).0,
            ),
{
    let cands = spec_all_candidates(cfg, entries, live.0);
    let deduped = dedup_sorted_of(cands);
    let lifted = deduped.map_values(|v: (Seq<Seq<u8>>, PathMetadata)| (v.0, Some(v.1)));
    let out = spec_snaps_for_path(cfg, entries, live);
    lemma_dedup_sorted(Seq::empty(), cands);
    lemma_all_candidates_roots(cfg, entries, live.0);
    assert forall|i: int| 0 <= i < out.len() implies under_some_snap_root(
        cfg,
        (#[trigger] out[i]).0,
    ) by {
        assert(out.contains(out[i]));
        if cfg.opt_omit_ditto {
            let pred = |v: (Seq<Seq<u8>>, Option<PathMetadata>)|
                opt_md_inf(v.1) != opt_md_inf(live.1);
            lifted.lemma_filter_contains_rev(pred, out[i]);
        }
        assert(lifted.contains(out[i]));
        let k = choose|k: int| 0 <= k < lifted.len() && lifted[k] == out[i];
        assert(deduped[k].0 == out[i].0);
        assert(deduped.contains(deduped[k]));
        assert(cands.contains(deduped[k]));
    }
}

} // verus!

verus! {

/// A filtered subsequence of a strictly sorted record list is strictly sorted.
proof fn lemma_filter_preserves_sorted(
    s: Seq<(Seq<Seq<u8>>, Option<PathMetadata>)>,
    pred: spec_fn((Seq<Seq<u8>>, Option<PathMetadata>)) -> bool,
)
    requires
        records_strictly_sorted(s),
    ensures
        records_strictly_sorted(s.filter(pred)),
    decreases s.len(),
{
    reveal(Seq::filter);
    if s.len() == 0 {
    } else {
        let front = s.drop_last();
        assert(records_strictly_sorted(front)) by {
            assert(forall|i: int| 0 <= i < front.len() ==> front[i] == s[i]);
        }
        lemma_filter_preserves_sorted(front, pred);
        let ff = front.filter(pred);
        if pred(s.last()) {
            let out = s.filter(pred);
            assert(out == ff.push(s.last()));
            assert forall|i: int, j: int| 0 <= i < j < out.len() implies md_lt(
                opt_md_inf(out[i].1),
                opt_md_inf(out[j].1),
            ) by {
                if j < ff.len() {
                } else {
                    assert(out[j] == s.last());
                    assert(ff.contains(ff[i]));
                    front.lemma_filter_contains_rev(pred, ff[i]);
                    let k = choose|k: int| 0 <= k < front.len() && front[k] == ff[i];
                    assert(md_lt(opt_md_inf(s[k].1), opt_md_inf(s.last().1)));
                }
            }
        }
    }
}

/// The order law and the deduplication law at the lookup's surface: the
/// records emitted for a path are strictly ascending in `(modify time, size)`,
/// so the sequence is non-decreasing and no two records share that key.
pub proof fn lemma_snaps_for_path_ordered(
    cfg: Config,
    entries: Seq<FsEntry>,
    live: (Seq<Seq<u8>>, Option<PathMetadata>),
)
    ensures
        records_strictly_sorted(spec_snaps_for_path(cfg, entries, live)),
        forall|i: int, j: int|
            0 <= i < j < spec_snaps_for_path(cfg, entries, live).len()
                ==> opt_md_inf(#[trigger] spec_snaps_for_path(cfg, entries, live)[i].1)
                != opt_md_inf(#[trigger] spec_snaps_for_path(cfg, entries, live)[j].1),
{
    let cands = spec_all_candidates(cfg, entries, live.0);
    let deduped = dedup_sorted_of(cands);
    let lifted = deduped.map_values(|v: (Seq<Seq<u8>>, PathMetadata)| (v.0, Some(v.1)));
    lemma_dedup_sorted(Seq::empty(), cands);
    assert(records_strictly_sorted(lifted)) by {
        assert(forall|i: int|
            0 <= i < lifted.len() ==> opt_md_inf(#[trigger] lifted[i].1) == deduped[i].1);
    }
    let after = if cfg.opt_omit_ditto {
        lifted.filter(
            |v: (Seq<Seq<u8>>, Option<PathMetadata>)| opt_md_inf(v.1) != opt_md_inf(live.1),
        )
    } else {
        lifted
    };
    if cfg.opt_omit_ditto {
        lemma_filter_preserves_sorted(
            lifted,
            |v: (Seq<Seq<u8>>, Option<PathMetadata>)| opt_md_inf(v.1) != opt_md_inf(live.1),
        );
    }
    let out = spec_snaps_for_path(cfg, entries, live);
    match cfg.opt_last_snap {
        Some(mode) => {
            assert(records_strictly_sorted(out)) by {
                if after.len() == 0 {
                } else {
                    assert(out == spec_last_snap(mode, live, after));
                }
            }
        },
        None => {},
    }
    assert forall|i: int, j: int| 0 <= i < j < out.len() implies opt_md_inf(
        #[trigger] out[i].1,
    ) != opt_md_inf(#[trigger] out[j].1) by {
        assert(md_lt(opt_md_inf(out[i].1), opt_md_inf(out[j].1)));
    }
}

/// The alias-transparency law: when an alias maps the local directory `l` to
/// the remote dataset `r`, looking a path up through the alias yields exactly
/// the records that the same suffix yields under the remote dataset mounted
/// directly, provided the two configurations agree on everything but the
/// aliases, the strategy searches the proximate dataset only, and the
/// resolutions find `l` and `r` respectively.  A last-snap mode can
/// synthesize the live record itself, whose path keeps the alias prefix, so
/// those reductions are excluded.
pub proof fn lemma_alias_transparency(
    cfg_alias: Config,
    cfg_direct: Config,
    entries: Seq<FsEntry>,
    l: Seq<Seq<u8>>,
    r: Seq<Seq<u8>>,
    x: Seq<Seq<u8>>,
    live_md: Option<PathMetadata>,
)
    requires
        cfg_alias.dataset_collection.map_of_snaps@ == cfg_direct.dataset_collection.map_of_snaps@,
        cfg_alias.opt_omit_ditto == cfg_direct.opt_omit_ditto,
        cfg_alias.opt_last_snap is None,
        cfg_direct.opt_last_snap is None,
        cfg_alias.dataset_collection.snaps_selected_for_search
            == crate::filesystem_map::SnapsSelectedForSearch::MostProximateOnly,
        cfg_direct.dataset_collection.snaps_selected_for_search
            == crate::filesystem_map::SnapsSelectedForSearch::MostProximateOnly,
        cfg_alias.dataset_collection.opt_map_of_aliases matches Some(aliases)
            && spec_alias_dataset(aliases@, l + x) == Some(r)
            && spec_find_alias_local(aliases@, r) == Some(l),
        cfg_direct.dataset_collection.opt_map_of_aliases is None,
        spec_proximate_dataset(cfg_direct.dataset_collection.map_of_datasets@, r + x) == Some(r),
    ensures
        spec_snaps_for_path(cfg_alias, entries, (l + x, live_md)) == spec_snaps_for_path(
            cfg_direct,
            entries,
            (r + x, live_md),
        ),
{
    let pa = l + x;
    let pd = r + x;
    assert(spec_proximate_mount(cfg_alias, pa) == Some(r));
    assert(spec_proximate_mount(cfg_direct, pd) == Some(r));
    assert(spec_proximity(cfg_alias, pa, SnapDatasetType::MostProximate) == Some(
        (r, None::<Seq<Seq<Seq<u8>>>>),
    ));
    assert(spec_proximity(cfg_direct, pd, SnapDatasetType::MostProximate) == Some(
        (r, None::<Seq<Seq<Seq<u8>>>>),
    ));
    assert(l.is_prefix_of(pa)) by {
        assert(pa.subrange(0, l.len() as int) =~= l);
    }
    assert(r.is_prefix_of(pd)) by {
        assert(pd.subrange(0, r.len() as int) =~= r);
    }
    assert(pa.skip(l.len() as int) =~= x);
    assert(pd.skip(r.len() as int) =~= x);
    assert(spec_relative_path(cfg_alias, pa, r) == Some(x));
    assert(spec_relative_path(cfg_direct, pd, r) == Some(x));
    assert(spec_bundle(cfg_alias, pa, r, r) == spec_bundle(cfg_direct, pd, r, r));
    let v = (r, None::<Seq<Seq<Seq<u8>>>>);
    assert(spec_datasets_of_interest(v) == seq![r]);
    assert(seq![r][0] == r);
    assert(seq![r].skip(1) =~= Seq::<Seq<Seq<u8>>>::empty());
    assert(spec_bundles_list(cfg_alias, pa, r, Seq::<Seq<Seq<u8>>>::empty()) == Some(
        Seq::<(Seq<Seq<u8>>, Seq<Seq<Seq<u8>>>)>::empty(),
    ));
    assert(spec_bundles_list(cfg_direct, pd, r, Seq::<Seq<Seq<u8>>>::empty()) == Some(
        Seq::<(Seq<Seq<u8>>, Seq<Seq<Seq<u8>>>)>::empty(),
    ));
    assert(spec_search_bundles(cfg_alias, pa, v) == spec_search_bundles(cfg_direct, pd, v));
    assert(spec_cands_for_type(cfg_alias, entries, pa, SnapDatasetType::MostProximate)
        == spec_cands_for_type(cfg_direct, entries, pd, SnapDatasetType::MostProximate));
    assert(spec_all_candidates(cfg_alias, entries, pa) == spec_all_candidates(
        cfg_direct,
        entries,
        pd,
    ));
    if cfg_alias.opt_omit_ditto {
        let live_a = (pa, live_md);
        let live_d = (pd, live_md);
        let pred_a = |v: (Seq<Seq<u8>>, Option<PathMetadata>)|
            opt_md_inf(v.1) != opt_md_inf(live_a.1);
        let pred_d = |v: (Seq<Seq<u8>>, Option<PathMetadata>)|
            opt_md_inf(v.1) != opt_md_inf(live_d.1);
        assert(pred_a =~= pred_d);
    }
}

} // verus!
