use vstd::prelude::*;
use vstd::string::StringSliceAdditionalSpecFns;

use crate::config::Config;
use crate::display::push_bytes;
use crate::filesystem_map::{spec_map_get, FilesystemType};
use crate::paths::{bytes_lt, clone_bytes, HttmPath};
use crate::results::{HttmError, HttmErrorKind};

verus! {

/// The snapshot name taken for one mount: the dataset's source name, an `@`
/// separator, and the timestamped, suffixed snap label.
pub open spec fn spec_snap_name(cfg: Config, mount: Seq<Seq<u8>>, ts: Seq<u8>, sfx: Seq<u8>) -> Seq<
    u8,
> {
    match spec_map_get(cfg.dataset_collection.map_of_datasets@, mount) {
        Some(md) => md.name@ + "@snap_".spec_bytes() + ts + "_".spec_bytes() + sfx,
        None => Seq::empty(),
    }
}

/// Whether snapshot names can be taken for every mount: no user-defined
/// aliases, every mount inventoried, and every mount on ZFS.
pub open spec fn spec_snap_names_ok(cfg: Config, mounts: Seq<Seq<Seq<u8>>>) -> bool {
    &&& cfg.dataset_collection.opt_map_of_aliases is None
    &&& forall|i: int|
        0 <= i < mounts.len() ==> match spec_map_get(
            cfg.dataset_collection.map_of_datasets@,
            #[trigger] mounts[i],
        ) {
            Some(md) => md.fs_type == FilesystemType::Zfs,
            None => false,
        }
}

/// The snapshot names of all mounts, in mount order.
pub open spec fn spec_snap_names(
    cfg: Config,
    mounts: Seq<Seq<Seq<u8>>>,
    ts: Seq<u8>,
    sfx: Seq<u8>,
) -> Seq<Seq<u8>> {
    mounts.map_values(|m: Seq<Seq<u8>>| spec_snap_name(cfg, m, ts, sfx))
}

/// The length of a snapshot name's pool prefix: up to its first `/`.
pub open spec fn pool_len(name: Seq<u8>) -> int
    decreases name.len(),
{
    if name.len() == 0 {
        0
    } else if name[0] == 47u8 {
        0
    } else {
        1 + pool_len(name.skip(1))
    }
}

/// The pool a snapshot name belongs to: its prefix before the first `/`, or
/// the whole name.
pub open spec fn pool_of(name: Seq<u8>) -> Seq<u8> {
    name.take(pool_len(name))
}

/// A scan that stops at the first `/` finds the pool length.
proof fn lemma_pool_len_at(name: Seq<u8>, i: int)
    requires
        0 <= i <= name.len(),
        forall|j: int| 0 <= j < i ==> name[j] != 47u8,
        i < name.len() ==> name[i] == 47u8,
    ensures
        pool_len(name) == i,
    decreases i,
{
    if i == 0 {
    } else {
        assert(name.len() > 0 && name[0] != 47u8);
        assert(forall|j: int| 0 <= j < i - 1 ==> name.skip(1)[j] != 47u8);
        if i < name.len() {
            assert(name.skip(1)[i - 1] == name[i]);
        }
        lemma_pool_len_at(name.skip(1), i - 1);
    }
}

/// Split a snapshot name's pool prefix off.
pub fn pool_of_exec(name: &Vec<u8>) -> (r: Vec<u8>)
    ensures
        r@ == pool_of(name@),
{
    let mut i: usize = 0;
    loop
        invariant
            i <= name@.len(),
            forall|j: int| 0 <= j < i ==> name@[j] != 47u8,
        ensures
            i <= name@.len(),
            i == pool_len(name@),
        decreases name@.len() - i,
    {
        if i == name.len() {
            proof {
                lemma_pool_len_at(name@, i as int);
            }
            break;
        }
        if name[i] == 47u8 {
            proof {
                lemma_pool_len_at(name@, i as int);
            }
            break;
        }
        i += 1;
    }
    let mut r: Vec<u8> = Vec::new();
    let mut j: usize = 0;
    while j < i
        invariant
            j <= i <= name@.len(),
            i == pool_len(name@),
            r@ == name@.take(j as int),
        decreases i - j,
    {
        r.push(name[j]);
        proof {
            assert(name@.take(j as int + 1) =~= name@.take(j as int).push(name@[j as int]));
        }
        j += 1;
    }
    r
}

/// Insert a snapshot name into a sorted, duplicate-free name list.
pub open spec fn insert_name(s: Seq<Seq<u8>>, n: Seq<u8>) -> Seq<Seq<u8>>
    decreases s.len(),
{
    if s.len() == 0 {
        seq![n]
    } else if bytes_lt(s[0], n) {
        seq![s[0]] + insert_name(s.skip(1), n)
    } else if s[0] == n {
        s
    } else {
        seq![n] + s
    }
}

/// Insert a snapshot name into the pool-keyed, sorted group list.
pub open spec fn insert_grouped(
    gs: Seq<(Seq<u8>, Seq<Seq<u8>>)>,
    pool: Seq<u8>,
    n: Seq<u8>,
) -> Seq<(Seq<u8>, Seq<Seq<u8>>)>
    decreases gs.len(),
{
    if gs.len() == 0 {
        seq![(pool, seq![n])]
    } else if bytes_lt(gs[0].0, pool) {
        seq![gs[0]] + insert_grouped(gs.skip(1), pool, n)
    } else if gs[0].0 == pool {
        seq![(gs[0].0, insert_name(gs[0].1, n))] + gs.skip(1)
    } else {
        seq![(pool, seq![n])] + gs
    }
}

/// The snapshot names grouped by pool, pools sorted, names sorted and
/// deduplicated within each pool.
pub open spec fn spec_group_names(names: Seq<Seq<u8>>) -> Seq<(Seq<u8>, Seq<Seq<u8>>)>
    decreases names.len(),
{
    if names.len() == 0 {
        Seq::empty()
    } else {
        insert_grouped(spec_group_names(names.drop_last()), pool_of(names.last()), names.last())
    }
}

/// Where the scan stopped is where the name insertion lands.
proof fn lemma_insert_name_at(s: Seq<Seq<u8>>, n: Seq<u8>, pos: int)
    requires
        0 <= pos <= s.len(),
        forall|j: int| 0 <= j < pos ==> bytes_lt(#[trigger] s[j], n),
        pos < s.len() ==> !bytes_lt(s[pos], n),
    ensures
        insert_name(s, n) == if pos < s.len() && s[pos] == n {
            s
        } else {
            s.take(pos) + seq![n] + s.skip(pos)
        },
    decreases pos,
{
    if pos == 0 {
        if s.len() == 0 {
            assert(insert_name(s, n) =~= s.take(0) + seq![n] + s.skip(0));
        } else if s[0] == n {
        } else {
            assert(insert_name(s, n) =~= s.take(0) + seq![n] + s.skip(0));
        }
    } else {
        assert(bytes_lt(s[0], n));
        assert(forall|j: int| 0 <= j < pos - 1 ==> bytes_lt(#[trigger] s.skip(1)[j], n));
        if pos < s.len() {
            assert(s.skip(1)[pos - 1] == s[pos]);
        }
        lemma_insert_name_at(s.skip(1), n, pos - 1);
        if pos < s.len() && s[pos] == n {
            assert(insert_name(s, n) =~= s);
        } else {
            assert(s.skip(1).take(pos - 1) =~= s.take(pos).skip(1));
            assert(seq![s[0]] + (s.take(pos).skip(1) + seq![n] + s.skip(1).skip(pos - 1)) =~= s.take(
                pos,
            ) + seq![n] + s.skip(pos));
        }
    }
}

/// Where the scan stopped is where the group insertion lands.
proof fn lemma_insert_grouped_at(gs: Seq<(Seq<u8>, Seq<Seq<u8>>)>, pool: Seq<u8>, n: Seq<u8>, pos: int)
    requires
        0 <= pos <= gs.len(),
        forall|j: int| 0 <= j < pos ==> bytes_lt((#[trigger] gs[j]).0, pool),
        pos < gs.len() ==> !bytes_lt(gs[pos].0, pool),
    ensures
        insert_grouped(gs, pool, n) == if pos < gs.len() && gs[pos].0 == pool {
            gs.update(pos, (gs[pos].0, insert_name(gs[pos].1, n)))
        } else {
            gs.take(pos) + seq![(pool, seq![n])] + gs.skip(pos)
        },
    decreases pos,
{
    if pos == 0 {
        if gs.len() == 0 {
            assert(insert_grouped(gs, pool, n) =~= gs.take(0) + seq![(pool, seq![n])] + gs.skip(0));
        } else if gs[0].0 == pool {
            assert(insert_grouped(gs, pool, n) =~= gs.update(
                0,
                (gs[0].0, insert_name(gs[0].1, n)),
            ));
        } else {
            assert(insert_grouped(gs, pool, n) =~= gs.take(0) + seq![(pool, seq![n])] + gs.skip(0));
        }
    } else {
        assert(bytes_lt(gs[0].0, pool));
        assert(forall|j: int| 0 <= j < pos - 1 ==> bytes_lt((#[trigger] gs.skip(1)[j]).0, pool));
        if pos < gs.len() {
            assert(gs.skip(1)[pos - 1] == gs[pos]);
        }
        lemma_insert_grouped_at(gs.skip(1), pool, n, pos - 1);
        if pos < gs.len() && gs[pos].0 == pool {
            assert(seq![gs[0]] + gs.skip(1).update(pos - 1, (gs[pos].0, insert_name(gs[pos].1, n)))
                =~= gs.update(pos, (gs[pos].0, insert_name(gs[pos].1, n))));
        } else {
            assert(gs.skip(1).take(pos - 1) =~= gs.take(pos).skip(1));
            assert(seq![gs[0]] + (gs.take(pos).skip(1) + seq![(pool, seq![n])] + gs.skip(1).skip(
                pos - 1,
            )) =~= gs.take(pos) + seq![(pool, seq![n])] + gs.skip(pos));
        }
    }
}

/// The views of a grouped name list.
pub open spec fn group_views(gs: Seq<(Vec<u8>, Vec<Vec<u8>>)>) -> Seq<(Seq<u8>, Seq<Seq<u8>>)> {
    gs.map_values(|g: (Vec<u8>, Vec<Vec<u8>>)| (g.0@, g.1@.map_values(|v: Vec<u8>| v@)))
}

/// The snapshot-and-rollback workflow's compute surface.
pub struct SnapshotMounts;

impl SnapshotMounts {
    /// Compute the snapshot names for a set of mounts, grouped by pool so
    /// that one command is issued per pool: names within one pool are sorted
    /// and deduplicated, pools are sorted.  Fails when aliases are declared,
    /// when a mount is not inventoried, or when a mount is not on ZFS.
    pub fn get_snapshot_names(
        config: &Config,
        mounts: &Vec<HttmPath>,
        requested_snapshot_suffix: &Vec<u8>,
        timestamp: &Vec<u8>,
    ) -> (r: Result<Vec<(Vec<u8>, Vec<Vec<u8>>)>, HttmError>)
        ensures
            r is Ok <==> spec_snap_names_ok(*config, crate::paths::paths_view(mounts@)),
            r matches Ok(groups) ==> group_views(groups@) == spec_group_names(
                spec_snap_names(
                    *config,
                    crate::paths::paths_view(mounts@),
                    timestamp@,
                    requested_snapshot_suffix@,
                ),
            ),
            r matches Err(e) ==> e.kind == HttmErrorKind::Generic,
    {
        if config.dataset_collection.opt_map_of_aliases.is_some() {
            return Err(
                HttmError::new("snapshots are not supported for user defined mount points"),
            );
        }
        let ghost mviews = crate::paths::paths_view(mounts@);
        let ghost names = spec_snap_names(
            *config,
            mviews,
            timestamp@,
            requested_snapshot_suffix@,
        );
        let mut groups: Vec<(Vec<u8>, Vec<Vec<u8>>)> = Vec::new();
        let mut i: usize = 0;
        proof {
            assert(names.take(0) =~= Seq::<Seq<u8>>::empty());
            assert(group_views(groups@) =~= spec_group_names(names.take(0)));
        }
        while i < mounts.len()
            invariant
                i <= mounts@.len(),
                mviews == crate::paths::paths_view(mounts@),
                names == spec_snap_names(
                    *config,
                    mviews,
                    timestamp@,
                    requested_snapshot_suffix@,
                ),
                names.len() == mounts@.len(),
                config.dataset_collection.opt_map_of_aliases is None,
                forall|j: int|
                    0 <= j < i ==> match spec_map_get(
                        config.dataset_collection.map_of_datasets@,
                        #[trigger] mviews[j],
                    ) {
                        Some(md) => md.fs_type == FilesystemType::Zfs,
                        None => false,
                    },
                group_views(groups@) == spec_group_names(names.take(i as int)),
            decreases mounts@.len() - i,
        {
            let dataset_info = match crate::filesystem_map::map_get(
                &config.dataset_collection.map_of_datasets,
                &mounts[i],
            ) {
                Some(info) => info,
                None => {
                    proof {
                        assert(mviews[i as int] == mounts@[i as int]@);
                    }
                    return Err(HttmError::new("unable to parse a dataset from the mount"));
                },
            };
            match dataset_info.fs_type {
                FilesystemType::Zfs => {},
                FilesystemType::Btrfs => {
                    proof {
                        assert(mviews[i as int] == mounts@[i as int]@);
                    }
                    return Err(
                        HttmError::new("snapshots are not supported for non-ZFS filesystems"),
                    );
                },
            }
            let mut name = clone_bytes(&dataset_info.name);
            name.extend_from_slice("@snap_".as_bytes());
            push_bytes(&mut name, timestamp);
            name.extend_from_slice("_".as_bytes());
            push_bytes(&mut name, requested_snapshot_suffix);
            proof {
                assert(name@ =~= spec_snap_name(
                    *config,
                    mviews[i as int],
                    timestamp@,
                    requested_snapshot_suffix@,
                ));
                assert(names[i as int] == spec_snap_name(
                    *config,
                    mviews[i as int],
                    timestamp@,
                    requested_snapshot_suffix@,
                ));
            }
            let pool = pool_of_exec(&name);
            let ghost gviews_pre = group_views(groups@);
            let mut pos: usize = 0;
            while pos < groups.len() && crate::paths::bytes_lt_exec(&groups[pos].0, &pool)
                invariant
                    pos <= groups@.len(),
                    pool@ == pool_of(name@),
                    forall|j: int|
                        0 <= j < pos ==> bytes_lt((#[trigger] group_views(groups@)[j]).0, pool@),
                decreases groups@.len() - pos,
            {
                pos += 1;
            }
            proof {
                lemma_insert_grouped_at(group_views(groups@), pool@, name@, pos as int);
            }
            let group_exists = pos < groups.len() && crate::paths::bytes_eq(&groups[pos].0, &pool);
            if group_exists {
                let mut group = groups.remove(pos);
                let ghost gnames = group.1@.map_values(|v: Vec<u8>| v@);
                let mut npos: usize = 0;
                while npos < group.1.len() && crate::paths::bytes_lt_exec(&group.1[npos], &name)
                    invariant
                        npos <= group.1@.len(),
                        gnames == group.1@.map_values(|v: Vec<u8>| v@),
                        forall|j: int| 0 <= j < npos ==> bytes_lt(#[trigger] gnames[j], name@),
                    decreases group.1@.len() - npos,
                {
                    npos += 1;
                }
                proof {
                    lemma_insert_name_at(gnames, name@, npos as int);
                }
                let name_exists = npos < group.1.len() && crate::paths::bytes_eq(
                    &group.1[npos],
                    &name,
                );
                if !name_exists {
                    group.1.insert(npos, name);
                    proof {
                        assert(group.1@.map_values(|v: Vec<u8>| v@) =~= gnames.take(npos as int)
                            + seq![name@] + gnames.skip(npos as int));
                        assert(group.1@.map_values(|v: Vec<u8>| v@) =~= insert_name(gnames, name@));
                    }
                } else {
                    proof {
                        assert(group.1@.map_values(|v: Vec<u8>| v@) =~= insert_name(gnames, name@));
                    }
                }
                groups.insert(pos, group);
                proof {
                    assert(group_views(groups@) =~= gviews_pre.update(
                        pos as int,
                        (gviews_pre[pos as int].0, insert_name(gviews_pre[pos as int].1, name@)),
                    ));
                }
            } else {
                let mut fresh: Vec<Vec<u8>> = Vec::new();
                fresh.push(name);
                let entry = (pool, fresh);
                groups.insert(pos, entry);
                proof {
                    assert(groups@[pos as int].1@.map_values(|v: Vec<u8>| v@) =~= seq![
                        names[i as int],
                    ]);
                    assert(group_views(groups@) =~= gviews_pre.take(pos as int) + seq![
                        (pool_of(names[i as int]), seq![names[i as int]]),
                    ] + gviews_pre.skip(pos as int));
                }
            }
            proof {
                assert(names.take(i as int + 1).drop_last() =~= names.take(i as int));
                assert(names.take(i as int + 1).last() == names[i as int]);
                assert(group_views(groups@) =~= spec_group_names(names.take(i as int + 1)));
            }
            i += 1;
        }
        proof {
            assert(names.take(names.len() as int) =~= names);
        }
        Ok(groups)
    }

    /// The snapshot workflow for a set of mounts: the grouped snapshot names
    /// whose commands the boundary then issues, one per pool.
    pub fn exec(
        config: &Config,
        mounts: &Vec<HttmPath>,
        requested_snapshot_suffix: &Vec<u8>,
        timestamp: &Vec<u8>,
    ) -> (r: Result<Vec<(Vec<u8>, Vec<Vec<u8>>)>, HttmError>)
        ensures
            r is Ok <==> spec_snap_names_ok(*config, crate::paths::paths_view(mounts@)),
            r matches Ok(groups) ==> group_views(groups@) == spec_group_names(
                spec_snap_names(
                    *config,
                    crate::paths::paths_view(mounts@),
                    timestamp@,
                    requested_snapshot_suffix@,
                ),
            ),
            r matches Err(e) ==> e.kind == HttmErrorKind::Generic,
    {
        Self::get_snapshot_names(config, mounts, requested_snapshot_suffix, timestamp)
    }
}

/// Why a precautionary snapshot is taken: before a roll-forward, after one
/// (carrying extra information), or before a restore.
pub enum PrecautionarySnapType {
    PreRollForward,
    PostRollForward(Vec<u8>),
    PreRestore,
}

/// The name of the precautionary snapshot for a dataset and occasion.
pub open spec fn spec_guard_snap_name(
    ds: Seq<u8>,
    snap_type: PrecautionarySnapType,
    ts: Seq<u8>,
) -> Seq<u8> {
    match snap_type {
        PrecautionarySnapType::PreRollForward => ds + "@snap_pre_".spec_bytes() + ts
            + "_httmSnapRollForward".spec_bytes(),
        PrecautionarySnapType::PostRollForward(info) => ds + "@snap_post_".spec_bytes() + ts
            + "_:".spec_bytes() + info@ + ":_httmSnapRollForward".spec_bytes(),
        PrecautionarySnapType::PreRestore => ds + "@snap_pre_".spec_bytes() + ts
            + "_httmSnapRestore".spec_bytes(),
    }
}

/// A guard around a risky filesystem action: the precautionary snapshot's
/// name and its dataset, from which the boundary takes the snapshot first
/// and can roll back afterwards.
pub struct SnapGuard {
    pub new_snap_name: Vec<u8>,
    pub dataset_name: Vec<u8>,
}

impl SnapGuard {
    /// Compute the guard for a dataset: the timestamped precautionary
    /// snapshot name for the occasion.  The boundary issues the snapshot
    /// command itself.
    pub fn new(dataset_name: &Vec<u8>, snap_type: &PrecautionarySnapType, timestamp: &Vec<u8>) -> (g:
        Self)
        ensures
            g.new_snap_name@ == spec_guard_snap_name(dataset_name@, *snap_type, timestamp@),
            g.dataset_name@ == dataset_name@,
    {
        let mut new_snap_name = clone_bytes(dataset_name);
        match snap_type {
            PrecautionarySnapType::PreRollForward => {
                new_snap_name.extend_from_slice("@snap_pre_".as_bytes());
                push_bytes(&mut new_snap_name, timestamp);
                new_snap_name.extend_from_slice("_httmSnapRollForward".as_bytes());
            },
            PrecautionarySnapType::PostRollForward(info) => {
                new_snap_name.extend_from_slice("@snap_post_".as_bytes());
                push_bytes(&mut new_snap_name, timestamp);
                new_snap_name.extend_from_slice("_:".as_bytes());
                push_bytes(&mut new_snap_name, info);
                new_snap_name.extend_from_slice(":_httmSnapRollForward".as_bytes());
            },
            PrecautionarySnapType::PreRestore => {
                new_snap_name.extend_from_slice("@snap_pre_".as_bytes());
                push_bytes(&mut new_snap_name, timestamp);
                new_snap_name.extend_from_slice("_httmSnapRestore".as_bytes());
            },
        }
        proof {
            assert(new_snap_name@ =~= spec_guard_snap_name(dataset_name@, *snap_type, timestamp@));
        }
        SnapGuard { new_snap_name, dataset_name: clone_bytes(dataset_name) }
    }

    /// The arguments of the rollback command undoing everything since the
    /// guard's snapshot; the boundary hands them to the filesystem tool.
    pub fn rollback(&self) -> (r: Vec<Vec<u8>>)
        ensures
            r@.map_values(|v: Vec<u8>| v@) == seq![
                "rollback".spec_bytes(),
                "-r".spec_bytes(),
                self.new_snap_name@,
            ],
    {
        let mut r: Vec<Vec<u8>> = Vec::new();
        r.push(vstd::slice::slice_to_vec("rollback".as_bytes()));
        r.push(vstd::slice::slice_to_vec("-r".as_bytes()));
        r.push(clone_bytes(&self.new_snap_name));
        proof {
            assert(r@.map_values(|v: Vec<u8>| v@) =~= seq![
                "rollback".spec_bytes(),
                "-r".spec_bytes(),
                self.new_snap_name@,
            ]);
        }
        r
    }
}

} // verus!
