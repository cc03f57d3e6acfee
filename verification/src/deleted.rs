use vstd::prelude::*;

use crate::config::{Config, DeletedMode};
use crate::filesystem_map::{
    spec_read_dir, spec_stat, BasicDirEntryInfo, FileTypeKind, FsEntry, FsView,
};
use crate::paths::{HttmPath, PathData};
use crate::recursive::{bde_views, sc_views, spec_httm_is_dir, spec_pseudo_live, SelectionCandidate};
use crate::versions::{spec_proximity, MostProximateAndOptAlts, RelativePathAndSnapMounts};

verus! {

/// Whether some entry of the sequence carries the given name.
pub open spec fn contains_name(
    s: Seq<(Seq<u8>, Seq<Seq<u8>>, Option<FileTypeKind>)>,
    n: Seq<u8>,
) -> bool {
    exists|i: int| 0 <= i < s.len() && (#[trigger] s[i]).0 == n
}

/// The candidates of the deleted scan for one directory: for each snapshot
/// root in turn, the children of the root joined with the relative suffix
/// whose names are absent from the live directory.
pub open spec fn spec_deleted_candidates(
    entries: Seq<FsEntry>,
    mounts: Seq<Seq<Seq<u8>>>,
    rel: Seq<Seq<u8>>,
    d: Seq<Seq<u8>>,
) -> Seq<(Seq<u8>, Seq<Seq<u8>>, Option<FileTypeKind>)>
    decreases mounts.len(),
{
    if mounts.len() == 0 {
        Seq::empty()
    } else {
        spec_deleted_candidates(entries, mounts.drop_last(), rel, d) + spec_read_dir(
            entries,
            mounts.last() + rel,
        ).filter(
            |b: (Seq<u8>, Seq<Seq<u8>>, Option<FileTypeKind>)|
                spec_stat(entries, d.push(b.0)) is None,
        )
    }
}

/// Deduplicate candidates by name: the first occurrence wins.
pub open spec fn spec_dedup_by_name(s: Seq<(Seq<u8>, Seq<Seq<u8>>, Option<FileTypeKind>)>) -> Seq<
    (Seq<u8>, Seq<Seq<u8>>, Option<FileTypeKind>),
>
    decreases s.len(),
{
    if s.len() == 0 {
        Seq::empty()
    } else {
        let front = spec_dedup_by_name(s.drop_last());
        if contains_name(s.drop_last(), s.last().0) {
            front
        } else {
            front.push(s.last())
        }
    }
}

/// Deduplication keeps exactly the names of its input, each once, and every
/// kept entry is one of the candidates.
pub proof fn lemma_dedup_by_name(s: Seq<(Seq<u8>, Seq<Seq<u8>>, Option<FileTypeKind>)>)
    ensures
        forall|n: Seq<u8>| contains_name(spec_dedup_by_name(s), n) <==> contains_name(s, n),
        forall|i: int, j: int|
            0 <= i < j < spec_dedup_by_name(s).len() ==> (#[trigger] spec_dedup_by_name(s)[i]).0
                != (#[trigger] spec_dedup_by_name(s)[j]).0,
        forall|x: (Seq<u8>, Seq<Seq<u8>>, Option<FileTypeKind>)|
            #[trigger] spec_dedup_by_name(s).contains(x) ==> s.contains(x),
    decreases s.len(),
{
    let out = spec_dedup_by_name(s);
    if s.len() == 0 {
    } else {
        lemma_dedup_by_name(s.drop_last());
        let front = spec_dedup_by_name(s.drop_last());
        if contains_name(s.drop_last(), s.last().0) {
            assert(out == front);
        } else {
            assert(out == front.push(s.last()));
        }
        assert forall|n: Seq<u8>| contains_name(out, n) implies contains_name(s, n) by {
            let i = choose|i: int| 0 <= i < out.len() && (#[trigger] out[i]).0 == n;
            if i < front.len() {
                assert(out[i] == front[i]);
                assert(contains_name(front, n));
                assert(contains_name(s.drop_last(), n));
                let j = choose|j: int|
                    0 <= j < s.drop_last().len() && (#[trigger] s.drop_last()[j]).0 == n;
                assert(s.drop_last()[j] == s[j]);
                assert(s[j].0 == n);
            } else {
                assert(out[i] == s.last());
                assert(s[s.len() - 1].0 == n);
            }
        }
        assert forall|n: Seq<u8>| contains_name(s, n) implies contains_name(out, n) by {
            let i = choose|i: int| 0 <= i < s.len() && (#[trigger] s[i]).0 == n;
            if i < s.len() - 1 {
                assert(s.drop_last()[i].0 == n);
                assert(contains_name(s.drop_last(), n));
                let j = choose|j: int| 0 <= j < front.len() && (#[trigger] front[j]).0 == n;
                assert(out[j].0 == n);
            } else {
                if contains_name(s.drop_last(), s.last().0) {
                    let j = choose|j: int| 0 <= j < front.len() && (#[trigger] front[j]).0 == n;
                    assert(out[j].0 == n);
                } else {
                    assert(out[out.len() - 1].0 == n);
                }
            }
        }
        assert forall|i: int, j: int|
            0 <= i < j < out.len() implies (#[trigger] out[i]).0 != (#[trigger] out[j]).0 by {
            if j < front.len() {
            } else if !contains_name(s.drop_last(), s.last().0) {
                assert(out[j] == s.last());
                assert(front[i].0 == out[i].0);
                assert(contains_name(front, front[i].0));
                assert(contains_name(s.drop_last(), front[i].0));
            }
        }
        assert forall|x: (Seq<u8>, Seq<Seq<u8>>, Option<FileTypeKind>)|
            #[trigger] out.contains(x) implies s.contains(x) by {
            let i = choose|i: int| 0 <= i < out.len() && out[i] == x;
            if i < front.len() {
                assert(front.contains(x));
                let j = choose|j: int| 0 <= j < s.drop_last().len() && s.drop_last()[j] == x;
                assert(s[j] == x);
            } else {
                assert(x == s.last());
                assert(s[s.len() - 1] == x);
            }
        }
    }
}

/// The deleted-coverage law: after the scan of directory `d`, every name
/// visible under some snapshot root but absent from the live directory
/// appears exactly once, and nothing else appears: every kept entry names a
/// child of some snapshot root that is absent from the live directory.
pub proof fn lemma_deleted_coverage(
    entries: Seq<FsEntry>,
    mounts: Seq<Seq<Seq<u8>>>,
    rel: Seq<Seq<u8>>,
    d: Seq<Seq<u8>>,
)
    ensures
        forall|mi: int, x: (Seq<u8>, Seq<Seq<u8>>, Option<FileTypeKind>)|
            0 <= mi < mounts.len() && #[trigger] spec_read_dir(entries, mounts[mi] + rel).contains(
                x,
            ) && spec_stat(entries, d.push(x.0)) is None ==> contains_name(
                spec_dedup_by_name(spec_deleted_candidates(entries, mounts, rel, d)),
                x.0,
            ),
        forall|i: int, j: int|
            0 <= i < j < spec_dedup_by_name(
                spec_deleted_candidates(entries, mounts, rel, d),
            ).len() ==> (#[trigger] spec_dedup_by_name(
                spec_deleted_candidates(entries, mounts, rel, d),
            )[i]).0 != (#[trigger] spec_dedup_by_name(
                spec_deleted_candidates(entries, mounts, rel, d),
            )[j]).0,
        forall|x: (Seq<u8>, Seq<Seq<u8>>, Option<FileTypeKind>)|
            #[trigger] spec_dedup_by_name(
                spec_deleted_candidates(entries, mounts, rel, d),
            ).contains(x) ==> spec_stat(entries, d.push(x.0)) is None && exists|mi: int|
                0 <= mi < mounts.len() && spec_read_dir(entries, #[trigger] mounts[mi]
                    + rel).contains(x),
{
    let cands = spec_deleted_candidates(entries, mounts, rel, d);
    lemma_dedup_by_name(cands);
    lemma_deleted_candidates_complete(entries, mounts, rel, d);
    assert forall|mi: int, x: (Seq<u8>, Seq<Seq<u8>>, Option<FileTypeKind>)|
        0 <= mi < mounts.len() && #[trigger] spec_read_dir(entries, mounts[mi] + rel).contains(x)
            && spec_stat(entries, d.push(x.0)) is None implies contains_name(
        spec_dedup_by_name(cands),
        x.0,
    ) by {
        assert(cands.contains(x));
        let i = choose|i: int| 0 <= i < cands.len() && cands[i] == x;
        assert(contains_name(cands, x.0));
    }
}

/// Membership in the candidate list, both ways.
proof fn lemma_deleted_candidates_complete(
    entries: Seq<FsEntry>,
    mounts: Seq<Seq<Seq<u8>>>,
    rel: Seq<Seq<u8>>,
    d: Seq<Seq<u8>>,
)
    ensures
        forall|mi: int, x: (Seq<u8>, Seq<Seq<u8>>, Option<FileTypeKind>)|
            0 <= mi < mounts.len() && #[trigger] spec_read_dir(entries, mounts[mi] + rel).contains(
                x,
            ) && spec_stat(entries, d.push(x.0)) is None ==> spec_deleted_candidates(
                entries,
                mounts,
                rel,
                d,
            ).contains(x),
        forall|x: (Seq<u8>, Seq<Seq<u8>>, Option<FileTypeKind>)|
            #[trigger] spec_deleted_candidates(entries, mounts, rel, d).contains(x) ==> spec_stat(
                entries,
                d.push(x.0),
            ) is None && exists|mi: int|
                0 <= mi < mounts.len() && spec_read_dir(entries, #[trigger] mounts[mi]
                    + rel).contains(x),
    decreases mounts.len(),
{
    let cands = spec_deleted_candidates(entries, mounts, rel, d);
    let absent = |b: (Seq<u8>, Seq<Seq<u8>>, Option<FileTypeKind>)|
        spec_stat(entries, d.push(b.0)) is None;
    if mounts.len() == 0 {
    } else {
        lemma_deleted_candidates_complete(entries, mounts.drop_last(), rel, d);
        let front = spec_deleted_candidates(entries, mounts.drop_last(), rel, d);
        let lastlist = spec_read_dir(entries, mounts.last() + rel).filter(absent);
        assert forall|mi: int, x: (Seq<u8>, Seq<Seq<u8>>, Option<FileTypeKind>)|
            0 <= mi < mounts.len() && #[trigger] spec_read_dir(entries, mounts[mi] + rel).contains(
                x,
            ) && spec_stat(entries, d.push(x.0)) is None implies cands.contains(x) by {
            if mi < mounts.len() - 1 {
                assert(mounts.drop_last()[mi] == mounts[mi]);
                assert(front.contains(x));
                let k = choose|k: int| 0 <= k < front.len() && front[k] == x;
                assert(cands[k] == x);
            } else {
                assert(mounts[mi] == mounts.last());
                let listing = spec_read_dir(entries, mounts.last() + rel);
                let k = choose|k: int| 0 <= k < listing.len() && listing[k] == x;
                listing.lemma_filter_contains(absent, k);
                let m = choose|m: int| 0 <= m < lastlist.len() && lastlist[m] == x;
                assert(cands[front.len() + m] == x);
            }
        }
        assert forall|x: (Seq<u8>, Seq<Seq<u8>>, Option<FileTypeKind>)|
            #[trigger] cands.contains(x) implies spec_stat(entries, d.push(x.0)) is None && exists|
            mi: int,
        |
            0 <= mi < mounts.len() && #[trigger] spec_read_dir(entries, mounts[mi] + rel).contains(
                x,
            ) by {
            let k = choose|k: int| 0 <= k < cands.len() && cands[k] == x;
            if k < front.len() {
                assert(front[k] == x);
                assert(front.contains(x));
                let mi = choose|mi: int|
                    0 <= mi < mounts.drop_last().len() && #[trigger] spec_read_dir(
                        entries,
                        mounts.drop_last()[mi] + rel,
                    ).contains(x);
                assert(mounts[mi] == mounts.drop_last()[mi]);
            } else {
                assert(lastlist[k - front.len()] == x);
                assert(lastlist.contains(x));
                broadcast use vstd::seq_lib::group_filter_ensures;

                let listing = spec_read_dir(entries, mounts.last() + rel);
                listing.lemma_filter_contains_rev(absent, x);
                assert(mounts[mounts.len() - 1] == mounts.last());
            }
        }
    }
}

} // verus!

verus! {

/// The deleted names of one directory: under the proximate dataset's
/// snapshot roots, the children absent from the live directory, first
/// occurrence of each name winning.  Resolution failures yield nothing.
pub open spec fn spec_unique_deleted(cfg: Config, entries: Seq<FsEntry>, d: Seq<Seq<u8>>) -> Seq<
    (Seq<u8>, Seq<Seq<u8>>, Option<FileTypeKind>),
> {
    match spec_proximity(cfg, d, crate::filesystem_map::SnapDatasetType::MostProximate) {
        None => Seq::empty(),
        Some(v) => match crate::versions::spec_bundle(cfg, d, v.0, v.0) {
            None => Seq::empty(),
            Some(b) => spec_dedup_by_name(spec_deleted_candidates(entries, b.1, b.0, d)),
        },
    }
}

/// Whether the listed entries carry the given name.
fn contains_entry_name(v: &Vec<BasicDirEntryInfo>, n: &Vec<u8>) -> (r: bool)
    ensures
        r == contains_name(bde_views(v@), n@),
{
    let mut i: usize = 0;
    while i < v.len()
        invariant
            i <= v@.len(),
            forall|j: int| 0 <= j < i ==> (#[trigger] bde_views(v@)[j]).0 != n@,
        decreases v@.len() - i,
    {
        if crate::paths::bytes_eq(&v[i].file_name, n) {
            proof {
                assert(bde_views(v@)[i as int].0 == n@);
            }
            return true;
        }
        i += 1;
    }
    false
}

/// Scan the snapshot roots of a directory's proximate dataset for names that
/// exist in some snapshot but not live; each name is reported once, at its
/// first occurrence, carrying its snapshot-side path.
pub fn get_unique_deleted(config: &Config, fs_view: &FsView, requested_dir: &HttmPath) -> (r: Vec<
    BasicDirEntryInfo,
>)
    ensures
        bde_views(r@) == spec_unique_deleted(*config, fs_view.entries@, requested_dir@),
{
    let pathdata = PathData { path_buf: requested_dir.clone(), metadata: None };
    let mp = match MostProximateAndOptAlts::new(
        config,
        &pathdata,
        &crate::filesystem_map::SnapDatasetType::MostProximate,
    ) {
        Ok(mp) => mp,
        Err(_) => {
            let r: Vec<BasicDirEntryInfo> = Vec::new();
            proof {
                assert(bde_views(r@) =~= Seq::<
                    (Seq<u8>, Seq<Seq<u8>>, Option<FileTypeKind>),
                >::empty());
            }
            return r;
        },
    };
    let bundle = match RelativePathAndSnapMounts::new(
        config,
        &pathdata,
        &mp.proximate_dataset_mount,
        &mp.proximate_dataset_mount,
    ) {
        Ok(b) => b,
        Err(_) => {
            let r: Vec<BasicDirEntryInfo> = Vec::new();
            proof {
                assert(bde_views(r@) =~= Seq::<
                    (Seq<u8>, Seq<Seq<u8>>, Option<FileTypeKind>),
                >::empty());
            }
            return r;
        },
    };
    let ghost entries = fs_view.entries@;
    let ghost d = requested_dir@;
    let ghost mviews = bundle@.1;
    let ghost rel = bundle@.0;
    let ghost absent = |b: (Seq<u8>, Seq<Seq<u8>>, Option<FileTypeKind>)|
        spec_stat(entries, d.push(b.0)) is None;
    let mut out: Vec<BasicDirEntryInfo> = Vec::new();
    let mut mi: usize = 0;
    proof {
        assert(mviews.take(0) =~= Seq::<Seq<Seq<u8>>>::empty());
        assert(bde_views(out@) =~= spec_dedup_by_name(
            spec_deleted_candidates(entries, mviews.take(0), rel, d),
        ));
    }
    while mi < bundle.snap_mounts.len()
        invariant
            mi <= bundle.snap_mounts@.len(),
            mviews == bundle@.1,
            rel == bundle@.0,
            entries == fs_view.entries@,
            d == requested_dir@,
            mviews.len() == bundle.snap_mounts@.len(),
            absent == (|b: (Seq<u8>, Seq<Seq<u8>>, Option<FileTypeKind>)|
                spec_stat(entries, d.push(b.0)) is None),
            bde_views(out@) == spec_dedup_by_name(
                spec_deleted_candidates(entries, mviews.take(mi as int), rel, d),
            ),
        decreases bundle.snap_mounts@.len() - mi,
    {
        let snap_dir = bundle.snap_mounts[mi].join(&bundle.relative_path);
        let listing = fs_view.read_dir(&snap_dir);
        proof {
            assert(snap_dir@ == mviews[mi as int] + rel);
        }
        let ghost lviews = bde_views(listing@);
        let ghost cands_pre = spec_deleted_candidates(entries, mviews.take(mi as int), rel, d);
        let mut j: usize = 0;
        proof {
            reveal(Seq::filter);
            assert(lviews.take(0) =~= Seq::<(Seq<u8>, Seq<Seq<u8>>, Option<FileTypeKind>)>::empty());
            assert(cands_pre + lviews.take(0).filter(absent) =~= cands_pre);
        }
        while j < listing.len()
            invariant
                j <= listing@.len(),
                lviews == bde_views(listing@),
                entries == fs_view.entries@,
                d == requested_dir@,
                absent == (|b: (Seq<u8>, Seq<Seq<u8>>, Option<FileTypeKind>)|
                    spec_stat(entries, d.push(b.0)) is None),
                cands_pre == spec_deleted_candidates(entries, mviews.take(mi as int), rel, d),
                bde_views(out@) == spec_dedup_by_name(
                    cands_pre + lviews.take(j as int).filter(absent),
                ),
            decreases listing@.len() - j,
        {
            let entry = &listing[j];
            proof {
                reveal(Seq::filter);
                assert(lviews.take(j as int + 1).drop_last() =~= lviews.take(j as int));
                assert(lviews.take(j as int + 1).last() == lviews[j as int]);
                assert(lviews[j as int] == listing@[j as int]@);
            }
            let ghost cands_mid = cands_pre + lviews.take(j as int).filter(absent);
            let live_child = requested_dir.join_component(&entry.file_name);
            if !fs_view.contains_path(&live_child) {
                proof {
                    reveal(Seq::filter);
                    assert(absent(lviews[j as int]));
                    assert(cands_pre + lviews.take(j as int + 1).filter(absent) =~= cands_mid.push(
                        lviews[j as int],
                    ));
                    assert((cands_mid.push(lviews[j as int])).drop_last() =~= cands_mid);
                }
                let ghost out_pre = out@;
                if !contains_entry_name(&out, &entry.file_name) {
                    proof {
                        lemma_dedup_by_name(cands_mid);
                        assert(!contains_name(cands_mid, lviews[j as int].0));
                    }
                    out.push(entry.clone());
                    proof {
                        assert(bde_views(out@) =~= bde_views(out_pre).push(lviews[j as int]));
                    }
                } else {
                    proof {
                        lemma_dedup_by_name(cands_mid);
                        assert(contains_name(cands_mid, lviews[j as int].0));
                    }
                }
            } else {
                proof {
                    reveal(Seq::filter);
                    assert(!absent(lviews[j as int]));
                    assert(cands_pre + lviews.take(j as int + 1).filter(absent) =~= cands_mid);
                }
            }
            j += 1;
        }
        proof {
            assert(lviews.take(lviews.len() as int) =~= lviews);
            assert(listing@.take(listing@.len() as int) =~= listing@);
            assert(mviews.take(mi as int + 1).drop_last() =~= mviews.take(mi as int));
            assert(mviews.take(mi as int + 1).last() == mviews[mi as int]);
            assert(spec_deleted_candidates(entries, mviews.take(mi as int + 1), rel, d)
                == cands_pre + lviews.filter(absent));
        }
        mi += 1;
    }
    proof {
        assert(mviews.take(mviews.len() as int) =~= mviews);
    }
    out
}

} // verus!

verus! {

/// Every listed child sits one component below its directory, and its name
/// is its last component.
pub proof fn lemma_read_dir_shape(entries: Seq<FsEntry>, d: Seq<Seq<u8>>)
    ensures
        forall|x: (Seq<u8>, Seq<Seq<u8>>, Option<FileTypeKind>)|
            #[trigger] spec_read_dir(entries, d).contains(x) ==> x.1.len() == d.len() + 1
                && d.is_prefix_of(x.1) && x.0 == x.1.last(),
{
    let f = |e: FsEntry|
        if crate::filesystem_map::is_child_of(e, d) {
            Some(crate::filesystem_map::child_view(e))
        } else {
            None
        };
    assert forall|x: (Seq<u8>, Seq<Seq<u8>>, Option<FileTypeKind>)|
        #[trigger] spec_read_dir(entries, d).contains(x) implies x.1.len() == d.len() + 1
        && d.is_prefix_of(x.1) && x.0 == x.1.last() by {
        entries.lemma_filter_map_contains(f, x);
        let e = choose|e: FsEntry| #[trigger] entries.contains(e) && f(e) == Some(x);
        assert(crate::filesystem_map::is_child_of(e, d));
    }
}

/// Split entries into those treated as directories and the rest, by the
/// symlink-resolving verdict alone.
pub fn partition_deleted(fs_view: &FsView, v: Vec<BasicDirEntryInfo>) -> (r: (
    Vec<BasicDirEntryInfo>,
    Vec<BasicDirEntryInfo>,
))
    ensures
        bde_views(r.0@) == bde_views(v@).filter(
            |b: (Seq<u8>, Seq<Seq<u8>>, Option<FileTypeKind>)| spec_httm_is_dir(
                fs_view.entries@,
                b,
            ),
        ),
        bde_views(r.1@) == bde_views(v@).filter(
            |b: (Seq<u8>, Seq<Seq<u8>>, Option<FileTypeKind>)| !spec_httm_is_dir(
                fs_view.entries@,
                b,
            ),
        ),
{
    let ghost dirf = |b: (Seq<u8>, Seq<Seq<u8>>, Option<FileTypeKind>)|
        spec_httm_is_dir(fs_view.entries@, b);
    let ghost notdirf = |b: (Seq<u8>, Seq<Seq<u8>>, Option<FileTypeKind>)|
        !spec_httm_is_dir(fs_view.entries@, b);
    let ghost vviews = bde_views(v@);
    let mut vec_dirs: Vec<BasicDirEntryInfo> = Vec::new();
    let mut vec_files: Vec<BasicDirEntryInfo> = Vec::new();
    let mut i: usize = 0;
    proof {
        reveal(Seq::filter);
        assert(vviews.take(0) =~= Seq::<(Seq<u8>, Seq<Seq<u8>>, Option<FileTypeKind>)>::empty());
        assert(bde_views(vec_dirs@) =~= vviews.take(0).filter(dirf));
        assert(bde_views(vec_files@) =~= vviews.take(0).filter(notdirf));
    }
    while i < v.len()
        invariant
            i <= v@.len(),
            vviews == bde_views(v@),
            dirf == (|b: (Seq<u8>, Seq<Seq<u8>>, Option<FileTypeKind>)| spec_httm_is_dir(
                fs_view.entries@,
                b,
            )),
            notdirf == (|b: (Seq<u8>, Seq<Seq<u8>>, Option<FileTypeKind>)| !spec_httm_is_dir(
                fs_view.entries@,
                b,
            )),
            bde_views(vec_dirs@) == vviews.take(i as int).filter(dirf),
            bde_views(vec_files@) == vviews.take(i as int).filter(notdirf),
        decreases v@.len() - i,
    {
        let entry = &v[i];
        proof {
            reveal(Seq::filter);
            assert(vviews.take(i as int + 1).drop_last() =~= vviews.take(i as int));
            assert(vviews.take(i as int + 1).last() == vviews[i as int]);
            assert(vviews[i as int] == v@[i as int]@);
        }
        let ghost dirs_pre = vec_dirs@;
        let ghost files_pre = vec_files@;
        if crate::recursive::httm_is_dir(fs_view, entry) {
            vec_dirs.push(entry.clone());
            proof {
                assert(bde_views(vec_dirs@) =~= bde_views(dirs_pre).push(vviews[i as int]));
            }
        } else {
            vec_files.push(entry.clone());
            proof {
                assert(bde_views(vec_files@) =~= bde_views(files_pre).push(vviews[i as int]));
            }
        }
        i += 1;
    }
    proof {
        assert(vviews.take(vviews.len() as int) =~= vviews);
        assert(v@.take(v@.len() as int) =~= v@);
    }
    (vec_dirs, vec_files)
}

/// The phantom stream found behind one deleted directory: the snapshot-side
/// children of `snap_dir`, re-homed under the pseudo-live directory, then
/// the same below each child directory, down to the depth budget.
pub open spec fn spec_behind_deleted(
    entries: Seq<FsEntry>,
    snap_dir: Seq<Seq<u8>>,
    pseudo_dir: Seq<Seq<u8>>,
    fuel: nat,
) -> Seq<(Seq<Seq<u8>>, Option<FileTypeKind>, bool)>
    decreases fuel, 0nat,
{
    if fuel == 0 {
        Seq::empty()
    } else {
        let listing = spec_read_dir(entries, snap_dir);
        let dirs = listing.filter(
            |b: (Seq<u8>, Seq<Seq<u8>>, Option<FileTypeKind>)| spec_httm_is_dir(entries, b),
        );
        let files = listing.filter(
            |b: (Seq<u8>, Seq<Seq<u8>>, Option<FileTypeKind>)| !spec_httm_is_dir(entries, b),
        );
        (files + dirs).map_values(
            |b: (Seq<u8>, Seq<Seq<u8>>, Option<FileTypeKind>)| spec_pseudo_live(b, pseudo_dir),
        ) + spec_behind_list(entries, dirs, pseudo_dir, (fuel - 1) as nat)
    }
}

/// The streams behind a list of deleted directories, one after the other.
pub open spec fn spec_behind_list(
    entries: Seq<FsEntry>,
    ds: Seq<(Seq<u8>, Seq<Seq<u8>>, Option<FileTypeKind>)>,
    pseudo_parent: Seq<Seq<u8>>,
    fuel: nat,
) -> Seq<(Seq<Seq<u8>>, Option<FileTypeKind>, bool)>
    decreases fuel, ds.len() + 1,
{
    if ds.len() == 0 {
        Seq::empty()
    } else {
        spec_behind_deleted(entries, ds[0].1, pseudo_parent.push(ds[0].0), fuel)
            + spec_behind_list(entries, ds.skip(1), pseudo_parent, fuel)
    }
}

/// Walk the snapshot-side tree behind one deleted directory, re-homing every
/// entry under the pseudo-live path, down to the depth budget.
pub fn behind_deleted_dir(
    config: &Config,
    fs_view: &FsView,
    deleted_dir: &HttmPath,
    pseudo_live_dir: &HttmPath,
    fuel: usize,
) -> (r: Vec<SelectionCandidate>)
    ensures
        sc_views(r@) == spec_behind_deleted(
            fs_view.entries@,
            deleted_dir@,
            pseudo_live_dir@,
            fuel as nat,
        ),
    decreases fuel,
{
    let mut r: Vec<SelectionCandidate> = Vec::new();
    if fuel == 0 {
        proof {
            assert(sc_views(r@) =~= Seq::<(Seq<Seq<u8>>, Option<FileTypeKind>, bool)>::empty());
        }
        return r;
    }
    let listing = fs_view.read_dir(deleted_dir);
    proof {
        lemma_read_dir_shape(fs_view.entries@, deleted_dir@);
        assert forall|j: int|
            0 <= j < bde_views(listing@).len() implies (#[trigger] bde_views(
            listing@,
        )[j]).1.len() > 0 by {
            assert(bde_views(listing@)[j] == listing@[j]@);
            assert(spec_read_dir(fs_view.entries@, deleted_dir@).contains(listing@[j]@));
        }
    }
    let (vec_dirs, vec_files) = partition_deleted(fs_view, listing);
    proof {
        assert forall|j: int|
            0 <= j < vec_files@.len() implies (#[trigger] vec_files@[j])@.1.len() > 0 by {
            assert(bde_views(vec_files@)[j] == vec_files@[j]@);
            assert(bde_views(vec_files@).contains(vec_files@[j]@));
            bde_views(listing@).lemma_filter_contains_rev(
                |b: (Seq<u8>, Seq<Seq<u8>>, Option<FileTypeKind>)| !spec_httm_is_dir(
                    fs_view.entries@,
                    b,
                ),
                vec_files@[j]@,
            );
        }
        assert forall|j: int|
            0 <= j < vec_dirs@.len() implies (#[trigger] vec_dirs@[j])@.1.len() > 0 by {
            assert(bde_views(vec_dirs@)[j] == vec_dirs@[j]@);
            assert(bde_views(vec_dirs@).contains(vec_dirs@[j]@));
            bde_views(listing@).lemma_filter_contains_rev(
                |b: (Seq<u8>, Seq<Seq<u8>>, Option<FileTypeKind>)| spec_httm_is_dir(
                    fs_view.entries@,
                    b,
                ),
                vec_dirs@[j]@,
            );
        }
    }
    let mut items = crate::recursive::combine_and_send_entries(
        config,
        vec_files,
        &vec_dirs,
        true,
        pseudo_live_dir,
    );
    let ghost items_views = sc_views(items@);
    r.append(&mut items);
    proof {
        assert(sc_views(r@) =~= items_views);
    }
    let ghost dviews = bde_views(vec_dirs@);
    let mut i: usize = 0;
    proof {
        assert(dviews.skip(0) =~= dviews);
    }
    while i < vec_dirs.len()
        invariant
            i <= vec_dirs@.len(),
            fuel >= 1,
            dviews == bde_views(vec_dirs@),
            forall|j: int| 0 <= j < dviews.len() ==> (#[trigger] dviews[j]).1.len() > 0,
            spec_behind_deleted(fs_view.entries@, deleted_dir@, pseudo_live_dir@, fuel as nat)
                == sc_views(r@) + spec_behind_list(
                fs_view.entries@,
                dviews.skip(i as int),
                pseudo_live_dir@,
                (fuel - 1) as nat,
            ),
        decreases vec_dirs@.len() - i,
    {
        let pseudo_child = pseudo_live_dir.join_component(&vec_dirs[i].file_name);
        let mut sub = behind_deleted_dir(config, fs_view, &vec_dirs[i].path, &pseudo_child, fuel - 1);
        let ghost sub_views = sc_views(sub@);
        let ghost r_pre = sc_views(r@);
        r.append(&mut sub);
        proof {
            assert(sc_views(r@) =~= r_pre + sub_views);
            assert(dviews.skip(i as int)[0] == dviews[i as int]);
            assert(dviews.skip(i as int).skip(1) =~= dviews.skip(i as int + 1));
            assert(dviews[i as int] == vec_dirs@[i as int]@);
            assert(r_pre + (sub_views + spec_behind_list(
                fs_view.entries@,
                dviews.skip(i as int + 1),
                pseudo_live_dir@,
                (fuel - 1) as nat,
            )) =~= sc_views(r@) + spec_behind_list(
                fs_view.entries@,
                dviews.skip(i as int + 1),
                pseudo_live_dir@,
                (fuel - 1) as nat,
            ));
        }
        i += 1;
    }
    proof {
        assert(dviews.skip(dviews.len() as int) =~= Seq::<
            (Seq<u8>, Seq<Seq<u8>>, Option<FileTypeKind>),
        >::empty());
        assert(sc_views(r@) + Seq::<(Seq<Seq<u8>>, Option<FileTypeKind>, bool)>::empty()
            =~= sc_views(r@));
    }
    r
}

} // verus!

verus! {

/// Every deleted entry keeps a nonempty snapshot-side path.
proof fn lemma_unique_deleted_shape(cfg: Config, entries: Seq<FsEntry>, d: Seq<Seq<u8>>)
    ensures
        forall|x: (Seq<u8>, Seq<Seq<u8>>, Option<FileTypeKind>)|
            #[trigger] spec_unique_deleted(cfg, entries, d).contains(x) ==> x.1.len() > 0,
{
    assert forall|x: (Seq<u8>, Seq<Seq<u8>>, Option<FileTypeKind>)|
        #[trigger] spec_unique_deleted(cfg, entries, d).contains(x) implies x.1.len() > 0 by {
        let v = spec_proximity(cfg, d, crate::filesystem_map::SnapDatasetType::MostProximate)->0;
        let b = crate::versions::spec_bundle(cfg, d, v.0, v.0)->0;
        lemma_dedup_by_name(spec_deleted_candidates(entries, b.1, b.0, d));
        lemma_deleted_candidates_complete(entries, b.1, b.0, d);
        let mi = choose|mi: int|
            0 <= mi < b.1.len() && #[trigger] spec_read_dir(entries, b.1[mi] + b.0).contains(x);
        lemma_read_dir_shape(entries, b.1[mi] + b.0);
    }
}

/// The complete deleted scan of one directory: a phantom item for each
/// deleted name, then, unless the scan is limited to one level, the phantom
/// stream behind each deleted directory.
pub open spec fn spec_enumerate_deleted(
    cfg: Config,
    entries: Seq<FsEntry>,
    d: Seq<Seq<u8>>,
    fuel: nat,
) -> Seq<(Seq<Seq<u8>>, Option<FileTypeKind>, bool)> {
    let del = spec_unique_deleted(cfg, entries, d);
    let dirs = del.filter(
        |b: (Seq<u8>, Seq<Seq<u8>>, Option<FileTypeKind>)| spec_httm_is_dir(entries, b),
    );
    let files = del.filter(
        |b: (Seq<u8>, Seq<Seq<u8>>, Option<FileTypeKind>)| !spec_httm_is_dir(entries, b),
    );
    (files + dirs).map_values(
        |b: (Seq<u8>, Seq<Seq<u8>>, Option<FileTypeKind>)| spec_pseudo_live(b, d),
    ) + if cfg.deleted_mode != DeletedMode::DepthOfOne {
        spec_behind_list(entries, dirs, d, fuel)
    } else {
        Seq::empty()
    }
}

/// Scan one directory for deleted names and stream a phantom item for each;
/// unless the scan is limited to one level, descend behind each deleted
/// directory, re-homing everything found there under its pseudo-live path.
pub fn enumerate_deleted(config: &Config, fs_view: &FsView, requested_dir: &HttmPath, fuel: usize) -> (r:
    Vec<SelectionCandidate>)
    ensures
        sc_views(r@) == spec_enumerate_deleted(
            *config,
            fs_view.entries@,
            requested_dir@,
            fuel as nat,
        ),
{
    let deleted = get_unique_deleted(config, fs_view, requested_dir);
    proof {
        lemma_unique_deleted_shape(*config, fs_view.entries@, requested_dir@);
        assert forall|j: int|
            0 <= j < bde_views(deleted@).len() implies (#[trigger] bde_views(
            deleted@,
        )[j]).1.len() > 0 by {
            assert(bde_views(deleted@)[j] == deleted@[j]@);
            assert(spec_unique_deleted(*config, fs_view.entries@, requested_dir@).contains(
                deleted@[j]@,
            ));
        }
    }
    let (vec_dirs, vec_files) = partition_deleted(fs_view, deleted);
    proof {
        assert forall|j: int|
            0 <= j < vec_files@.len() implies (#[trigger] vec_files@[j])@.1.len() > 0 by {
            assert(bde_views(vec_files@)[j] == vec_files@[j]@);
            assert(bde_views(vec_files@).contains(vec_files@[j]@));
            bde_views(deleted@).lemma_filter_contains_rev(
                |b: (Seq<u8>, Seq<Seq<u8>>, Option<FileTypeKind>)| !spec_httm_is_dir(
                    fs_view.entries@,
                    b,
                ),
                vec_files@[j]@,
            );
        }
        assert forall|j: int|
            0 <= j < vec_dirs@.len() implies (#[trigger] vec_dirs@[j])@.1.len() > 0 by {
            assert(bde_views(vec_dirs@)[j] == vec_dirs@[j]@);
            assert(bde_views(vec_dirs@).contains(vec_dirs@[j]@));
            bde_views(deleted@).lemma_filter_contains_rev(
                |b: (Seq<u8>, Seq<Seq<u8>>, Option<FileTypeKind>)| spec_httm_is_dir(
                    fs_view.entries@,
                    b,
                ),
                vec_dirs@[j]@,
            );
        }
    }
    let mut r = crate::recursive::combine_and_send_entries(
        config,
        vec_files,
        &vec_dirs,
        true,
        requested_dir,
    );
    let depth_of_one = match config.deleted_mode {
        DeletedMode::DepthOfOne => true,
        _ => false,
    };
    if depth_of_one {
        proof {
            assert(sc_views(r@) + Seq::<(Seq<Seq<u8>>, Option<FileTypeKind>, bool)>::empty()
                =~= sc_views(r@));
        }
        return r;
    }
    let ghost dviews = bde_views(vec_dirs@);
    let mut i: usize = 0;
    proof {
        assert(dviews.skip(0) =~= dviews);
    }
    while i < vec_dirs.len()
        invariant
            i <= vec_dirs@.len(),
            dviews == bde_views(vec_dirs@),
            config.deleted_mode != DeletedMode::DepthOfOne,
            spec_enumerate_deleted(*config, fs_view.entries@, requested_dir@, fuel as nat)
                == sc_views(r@) + spec_behind_list(
                fs_view.entries@,
                dviews.skip(i as int),
                requested_dir@,
                fuel as nat,
            ),
        decreases vec_dirs@.len() - i,
    {
        let pseudo_child = requested_dir.join_component(&vec_dirs[i].file_name);
        let mut sub = behind_deleted_dir(config, fs_view, &vec_dirs[i].path, &pseudo_child, fuel);
        let ghost sub_views = sc_views(sub@);
        let ghost r_pre = sc_views(r@);
        r.append(&mut sub);
        proof {
            assert(sc_views(r@) =~= r_pre + sub_views);
            assert(dviews.skip(i as int)[0] == dviews[i as int]);
            assert(dviews.skip(i as int).skip(1) =~= dviews.skip(i as int + 1));
            assert(dviews[i as int] == vec_dirs@[i as int]@);
            assert(r_pre + (sub_views + spec_behind_list(
                fs_view.entries@,
                dviews.skip(i as int + 1),
                requested_dir@,
                fuel as nat,
            )) =~= sc_views(r@) + spec_behind_list(
                fs_view.entries@,
                dviews.skip(i as int + 1),
                requested_dir@,
                fuel as nat,
            ));
        }
        i += 1;
    }
    proof {
        assert(dviews.skip(dviews.len() as int) =~= Seq::<
            (Seq<u8>, Seq<Seq<u8>>, Option<FileTypeKind>),
        >::empty());
        assert(sc_views(r@) + Seq::<(Seq<Seq<u8>>, Option<FileTypeKind>, bool)>::empty()
            =~= sc_views(r@));
    }
    r
}

} // verus!
