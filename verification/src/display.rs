use vstd::prelude::*;

use crate::config::{Config, PrintMode};
use crate::paths::PathData;
use crate::versions::{clone_records, map_keys, pd_views, DisplayMap};

verus! {

/// The values of the map flattened in key order: every snapshot record.
pub open spec fn flatten_map_values(m: Seq<(PathData, Vec<PathData>)>) -> Seq<
    (Seq<Seq<u8>>, Option<crate::paths::PathMetadata>),
>
    decreases m.len(),
{
    if m.len() == 0 {
        Seq::empty()
    } else {
        flatten_map_values(m.drop_last()) + pd_views(m.last().1@)
    }
}

/// The two sets a rendering works from: the snapshot records of every key,
/// and the live records themselves.  Snapshots are withheld under `no-snap`;
/// live records are withheld under `no-live` and under any last-snap
/// reduction.
pub struct DisplaySet {
    pub snaps: Vec<PathData>,
    pub live: Vec<PathData>,
}

impl DisplaySet {
    /// Split a display map into its snapshot set and its live set.
    pub fn new(config: &Config, map: &DisplayMap) -> (r: Self)
        ensures
            config.opt_no_snap ==> r.snaps@.len() == 0,
            !config.opt_no_snap ==> pd_views(r.snaps@) == flatten_map_values(map.inner@),
            config.opt_last_snap is Some || config.opt_no_live ==> r.live@.len() == 0,
            !(config.opt_last_snap is Some || config.opt_no_live) ==> pd_views(r.live@)
                == map_keys(map.inner@),
    {
        let mut snaps: Vec<PathData> = Vec::new();
        if !config.opt_no_snap {
            let mut i: usize = 0;
            proof {
                assert(map.inner@.take(0) =~= Seq::<(PathData, Vec<PathData>)>::empty());
                assert(pd_views(snaps@) =~= flatten_map_values(map.inner@.take(0)));
            }
            while i < map.inner.len()
                invariant
                    i <= map.inner@.len(),
                    pd_views(snaps@) == flatten_map_values(map.inner@.take(i as int)),
                decreases map.inner@.len() - i,
            {
                let mut vals = clone_records(&map.inner[i].1);
                let ghost vals_views = pd_views(vals@);
                let ghost pre = pd_views(snaps@);
                snaps.append(&mut vals);
                proof {
                    assert(pd_views(snaps@) =~= pre + vals_views);
                    assert(map.inner@.take(i as int + 1).drop_last() =~= map.inner@.take(i as int));
                    assert(map.inner@.take(i as int + 1).last() == map.inner@[i as int]);
                }
                i += 1;
            }
            proof {
                assert(map.inner@.take(map.inner@.len() as int) =~= map.inner@);
            }
        }
        let mut live: Vec<PathData> = Vec::new();
        let withhold_live = match config.opt_last_snap {
            Some(_) => true,
            None => config.opt_no_live,
        };
        if !withhold_live {
            let mut i: usize = 0;
            proof {
                assert(map.inner@.take(0) =~= Seq::<(PathData, Vec<PathData>)>::empty());
                assert(pd_views(live@) =~= map_keys(map.inner@.take(0)));
            }
            while i < map.inner.len()
                invariant
                    i <= map.inner@.len(),
                    pd_views(live@) == map_keys(map.inner@.take(i as int)),
                decreases map.inner@.len() - i,
            {
                let ghost pre = pd_views(live@);
                live.push(map.inner[i].0.clone());
                proof {
                    assert(pd_views(live@) =~= pre.push(crate::versions::pd_view(
                        map.inner@[i as int].0,
                    )));
                    assert(map_keys(map.inner@.take(i as int + 1)) =~= map_keys(
                        map.inner@.take(i as int),
                    ).push(crate::versions::pd_view(map.inner@[i as int].0)));
                }
                i += 1;
            }
            proof {
                assert(map.inner@.take(map.inner@.len() as int) =~= map.inner@);
            }
        }
        DisplaySet { snaps, live }
    }
}

/// A run of `n` spaces.
pub open spec fn pad_spaces(n: int) -> Seq<u8>
    decreases n,
{
    if n <= 0 {
        Seq::empty()
    } else {
        pad_spaces(n - 1).push(32u8)
    }
}

/// The text left-aligned in a field of width `w`.
pub open spec fn pad_to(s: Seq<u8>, w: int) -> Seq<u8> {
    s + pad_spaces(w - s.len())
}

/// The views of the rendered map's pairs.
pub open spec fn pam_views(m: Seq<(Vec<u8>, Vec<Vec<u8>>)>) -> Seq<(Seq<u8>, Seq<Seq<u8>>)> {
    m.map_values(|kv: (Vec<u8>, Vec<Vec<u8>>)| (kv.0@, kv.1@.map_values(|v: Vec<u8>| v@)))
}

/// The field width keys are padded to: the longest key plus its quotes.
pub open spec fn spec_map_padding(m: Seq<(Seq<u8>, Seq<Seq<u8>>)>) -> int
    decreases m.len(),
{
    if m.len() == 0 {
        0
    } else {
        let rest = spec_map_padding(m.drop_last());
        if m.last().0.len() + 2 > rest {
            m.last().0.len() as int + 2
        } else {
            rest
        }
    }
}

/// One rendered value line: a tabbed value in the parseable shape; in the
/// pretty shape the padded key heads the first line and spaces head the rest,
/// each followed by a colon and the quoted value.
pub open spec fn spec_value_line(
    dp: Seq<u8>,
    pad: int,
    idx: int,
    v: Seq<u8>,
    not_pretty: bool,
) -> Seq<u8> {
    if not_pretty {
        seq![9u8] + v
    } else if idx == 0 {
        pad_to(dp, pad) + seq![32u8, 58u8, 32u8, 34u8] + v + seq![34u8, 10u8]
    } else {
        pad_spaces(pad) + seq![32u8, 58u8, 32u8, 34u8] + v + seq![34u8, 10u8]
    }
}

/// The rendered value lines of one key.
pub open spec fn spec_value_lines(dp: Seq<u8>, pad: int, vs: Seq<Seq<u8>>, not_pretty: bool) -> Seq<
    u8,
>
    decreases vs.len(),
{
    if vs.len() == 0 {
        Seq::empty()
    } else {
        spec_value_lines(dp, pad, vs.drop_last(), not_pretty) + spec_value_line(
            dp,
            pad,
            vs.len() - 1,
            vs.last(),
            not_pretty,
        )
    }
}

/// The rendered text of one map entry.  Keys with no values are dropped when
/// a last-snap reduction is in force; keys are quoted in the pretty shape;
/// the parseable shape writes the key, a colon, the tabbed values and a
/// final newline.
pub open spec fn spec_entry_text(
    key: Seq<u8>,
    vs: Seq<Seq<u8>>,
    pad: int,
    not_pretty: bool,
    skip_empty: bool,
) -> Seq<u8> {
    if skip_empty && vs.len() == 0 {
        Seq::empty()
    } else {
        let dp = if not_pretty {
            key
        } else {
            seq![34u8] + key + seq![34u8]
        };
        let lines = spec_value_lines(dp, pad, vs, not_pretty);
        if not_pretty {
            dp + seq![58u8] + lines + seq![10u8]
        } else {
            lines
        }
    }
}

/// The rendered text of the whole map, entry after entry.
pub open spec fn spec_format_map(
    m: Seq<(Seq<u8>, Seq<Seq<u8>>)>,
    pad: int,
    not_pretty: bool,
    skip_empty: bool,
) -> Seq<u8>
    decreases m.len(),
{
    if m.len() == 0 {
        Seq::empty()
    } else {
        spec_format_map(m.drop_last(), pad, not_pretty, skip_empty) + spec_entry_text(
            m.last().0,
            m.last().1,
            pad,
            not_pretty,
            skip_empty,
        )
    }
}

/// Append a run of spaces.
fn push_pad_spaces(out: &mut Vec<u8>, n: usize)
    ensures
        final(out)@ == old(out)@ + pad_spaces(n as int),
{
    let mut i: usize = 0;
    proof {
        assert(old(out)@ + pad_spaces(0) =~= old(out)@);
    }
    while i < n
        invariant
            i <= n,
            out@ == old(out)@ + pad_spaces(i as int),
        decreases n - i,
    {
        out.push(32u8);
        proof {
            assert(old(out)@ + pad_spaces(i as int + 1) =~= (old(out)@ + pad_spaces(
                i as int,
            )).push(32u8));
        }
        i += 1;
    }
}

/// Append a byte string.
pub fn push_bytes(out: &mut Vec<u8>, s: &Vec<u8>)
    ensures
        final(out)@ == old(out)@ + s@,
{
    let mut i: usize = 0;
    proof {
        assert(out@ =~= old(out)@ + s@.take(0));
    }
    while i < s.len()
        invariant
            i <= s@.len(),
            out@ == old(out)@ + s@.take(i as int),
        decreases s@.len() - i,
    {
        out.push(s[i]);
        proof {
            assert(old(out)@ + s@.take(i as int + 1) =~= (old(out)@ + s@.take(i as int)).push(
                s@[i as int],
            ));
        }
        i += 1;
    }
    proof {
        assert(s@.take(s@.len() as int) =~= s@);
    }
}

/// A mapping from rendered live keys to their rendered snapshot values, in
/// key order, ready for text output.
pub struct PrintAsMap {
    pub inner: Vec<(Vec<u8>, Vec<Vec<u8>>)>,
}

impl PrintAsMap {
    /// The field width keys are padded to.
    pub fn map_padding(&self) -> (r: usize)
        requires
            forall|i: int|
                0 <= i < self.inner@.len() ==> (#[trigger] self.inner@[i]).0@.len() + 2
                    <= usize::MAX,
        ensures
            r == spec_map_padding(pam_views(self.inner@)),
    {
        let mut r: usize = 0;
        let mut i: usize = 0;
        proof {
            assert(pam_views(self.inner@.take(0)) =~= Seq::<(Seq<u8>, Seq<Seq<u8>>)>::empty());
        }
        while i < self.inner.len()
            invariant
                i <= self.inner@.len(),
                forall|j: int|
                    0 <= j < self.inner@.len() ==> (#[trigger] self.inner@[j]).0@.len() + 2
                        <= usize::MAX,
                r == spec_map_padding(pam_views(self.inner@.take(i as int))),
            decreases self.inner@.len() - i,
        {
            let w = self.inner[i].0.len() + 2;
            proof {
                assert(pam_views(self.inner@.take(i as int + 1)).drop_last() =~= pam_views(
                    self.inner@.take(i as int),
                ));
                assert(pam_views(self.inner@.take(i as int + 1)).last() == (
                    self.inner@[i as int].0@,
                    self.inner@[i as int].1@.map_values(|v: Vec<u8>| v@),
                ));
            }
            if w > r {
                r = w;
            }
            i += 1;
        }
        proof {
            assert(self.inner@.take(self.inner@.len() as int) =~= self.inner@);
        }
        r
    }

    /// Render the map: one block per key, keys padded to a common width,
    /// values quoted; or the tab-separated parseable shape.  Keys with no
    /// values are dropped when a last-snap reduction is in force.
    pub fn format(&self, config: &Config) -> (r: Vec<u8>)
        requires
            forall|i: int|
                0 <= i < self.inner@.len() ==> (#[trigger] self.inner@[i]).0@.len() + 2
                    <= usize::MAX,
        ensures
            r@ == spec_format_map(
                pam_views(self.inner@),
                spec_map_padding(pam_views(self.inner@)),
                config.print_mode == PrintMode::FormattedNotPretty,
                config.opt_last_snap is Some,
            ),
    {
        let padding = self.map_padding();
        let not_pretty = match config.print_mode {
            PrintMode::FormattedNotPretty => true,
            _ => false,
        };
        let skip_empty = match config.opt_last_snap {
            Some(_) => true,
            None => false,
        };
        let ghost pad = spec_map_padding(pam_views(self.inner@));
        let mut out: Vec<u8> = Vec::new();
        let mut i: usize = 0;
        proof {
            assert(pam_views(self.inner@.take(0)) =~= Seq::<(Seq<u8>, Seq<Seq<u8>>)>::empty());
            assert(out@ =~= spec_format_map(
                pam_views(self.inner@.take(0)),
                pad,
                not_pretty,
                skip_empty,
            ));
        }
        while i < self.inner.len()
            invariant
                i <= self.inner@.len(),
                padding == pad,
                pad == spec_map_padding(pam_views(self.inner@)),
                not_pretty == (config.print_mode == PrintMode::FormattedNotPretty),
                skip_empty == (config.opt_last_snap is Some),
                out@ == spec_format_map(
                    pam_views(self.inner@.take(i as int)),
                    pad,
                    not_pretty,
                    skip_empty,
                ),
            decreases self.inner@.len() - i,
        {
            let ghost kv = (
                self.inner@[i as int].0@,
                self.inner@[i as int].1@.map_values(|v: Vec<u8>| v@),
            );
            proof {
                assert(pam_views(self.inner@.take(i as int + 1)).drop_last() =~= pam_views(
                    self.inner@.take(i as int),
                ));
                assert(pam_views(self.inner@.take(i as int + 1)).last() == kv);
            }
            let entry = &self.inner[i];
            if skip_empty && entry.1.len() == 0 {
                proof {
                    assert(spec_entry_text(kv.0, kv.1, pad, not_pretty, skip_empty) =~= Seq::<
                        u8,
                    >::empty());
                    assert(out@ + Seq::<u8>::empty() =~= out@);
                }
            } else {
                let ghost out_start = out@;
                let mut dp: Vec<u8> = Vec::new();
                if not_pretty {
                    push_bytes(&mut dp, &entry.0);
                    proof {
                        assert(dp@ =~= kv.0);
                    }
                } else {
                    dp.push(34u8);
                    push_bytes(&mut dp, &entry.0);
                    dp.push(34u8);
                    proof {
                        assert(dp@ =~= seq![34u8] + kv.0 + seq![34u8]);
                    }
                }
                let ghost dpv = dp@;
                if not_pretty {
                    push_bytes(&mut out, &dp);
                    out.push(58u8);
                    proof {
                        assert(out@ =~= out_start + dpv + seq![58u8]);
                    }
                }
                let ghost lines_start = out@;
                let mut j: usize = 0;
                proof {
                    assert(kv.1.take(0) =~= Seq::<Seq<u8>>::empty());
                    assert(out@ =~= lines_start + spec_value_lines(dpv, pad, kv.1.take(0), not_pretty));
                }
                while j < entry.1.len()
                    invariant
                        j <= entry.1@.len(),
                        entry == self.inner@[i as int],
                        0 <= i < self.inner@.len(),
                        kv == (
                            self.inner@[i as int].0@,
                            self.inner@[i as int].1@.map_values(|v: Vec<u8>| v@),
                        ),
                        kv.1.len() == entry.1@.len(),
                        dpv == dp@,
                        pad >= 0,
                        padding == pad,
                        not_pretty == (config.print_mode == PrintMode::FormattedNotPretty),
                        out@ == lines_start + spec_value_lines(
                            dpv,
                            pad,
                            kv.1.take(j as int),
                            not_pretty,
                        ),
                    decreases entry.1@.len() - j,
                {
                    let ghost line_start = out@;
                    proof {
                        assert(kv.1.take(j as int + 1).drop_last() =~= kv.1.take(j as int));
                        assert(kv.1.take(j as int + 1).last() == kv.1[j as int]);
                        assert(kv.1[j as int] == entry.1@[j as int]@);
                    }
                    if not_pretty {
                        out.push(9u8);
                        push_bytes(&mut out, &entry.1[j]);
                        proof {
                            assert(out@ =~= line_start + (seq![9u8] + kv.1[j as int]));
                        }
                    } else {
                        if j == 0 {
                            push_bytes(&mut out, &dp);
                            if padding > dp.len() {
                                push_pad_spaces(&mut out, padding - dp.len());
                            } else {
                                proof {
                                    assert(pad_spaces(pad - dpv.len() as int) =~= Seq::<
                                        u8,
                                    >::empty());
                                }
                            }
                            proof {
                                assert(out@ =~= line_start + pad_to(dpv, pad));
                            }
                        } else {
                            push_pad_spaces(&mut out, padding);
                        }
                        out.push(32u8);
                        out.push(58u8);
                        out.push(32u8);
                        out.push(34u8);
                        push_bytes(&mut out, &entry.1[j]);
                        out.push(34u8);
                        out.push(10u8);
                        proof {
                            if j == 0 {
                                assert(out@ =~= line_start + (pad_to(dpv, pad) + seq![
                                    32u8,
                                    58u8,
                                    32u8,
                                    34u8,
                                ] + kv.1[j as int] + seq![34u8, 10u8]));
                            } else {
                                assert(out@ =~= line_start + (pad_spaces(pad) + seq![
                                    32u8,
                                    58u8,
                                    32u8,
                                    34u8,
                                ] + kv.1[j as int] + seq![34u8, 10u8]));
                            }
                        }
                    }
                    proof {
                        assert(out@ =~= lines_start + spec_value_lines(
                            dpv,
                            pad,
                            kv.1.take(j as int + 1),
                            not_pretty,
                        ));
                    }
                    j += 1;
                }
                proof {
                    assert(kv.1.take(kv.1.len() as int) =~= kv.1);
                }
                if not_pretty {
                    out.push(10u8);
                    proof {
                        assert(out@ =~= out_start + (dpv + seq![58u8] + spec_value_lines(
                            dpv,
                            pad,
                            kv.1,
                            not_pretty,
                        ) + seq![10u8]));
                    }
                }
                proof {
                    assert(out@ =~= out_start + spec_entry_text(
                        kv.0,
                        kv.1,
                        pad,
                        not_pretty,
                        skip_empty,
                    ));
                }
            }
            i += 1;
        }
        proof {
            assert(self.inner@.take(self.inner@.len() as int) =~= self.inner@);
        }
        out
    }

    /// The raw rendering: every value in key order, each followed by the
    /// chosen delimiter, with no other decoration.
    pub fn print_raw(&self, config: &Config) -> (r: Vec<u8>)
        ensures
            r@ == spec_raw_map(
                pam_views(self.inner@),
                if config.print_mode == PrintMode::RawZero {
                    0u8
                } else {
                    10u8
                },
            ),
    {
        let delimiter = crate::utility::get_delimiter(config);
        let ghost delim = if config.print_mode == PrintMode::RawZero {
            0u8
        } else {
            10u8
        };
        let mut out: Vec<u8> = Vec::new();
        let mut i: usize = 0;
        proof {
            assert(pam_views(self.inner@.take(0)) =~= Seq::<(Seq<u8>, Seq<Seq<u8>>)>::empty());
            assert(out@ =~= spec_raw_map(pam_views(self.inner@.take(0)), delim));
        }
        while i < self.inner.len()
            invariant
                i <= self.inner@.len(),
                delimiter == delim,
                delim == if config.print_mode == PrintMode::RawZero {
                    0u8
                } else {
                    10u8
                },
                out@ == spec_raw_map(pam_views(self.inner@.take(i as int)), delim),
            decreases self.inner@.len() - i,
        {
            let ghost kv = (
                self.inner@[i as int].0@,
                self.inner@[i as int].1@.map_values(|v: Vec<u8>| v@),
            );
            proof {
                assert(pam_views(self.inner@.take(i as int + 1)).drop_last() =~= pam_views(
                    self.inner@.take(i as int),
                ));
                assert(pam_views(self.inner@.take(i as int + 1)).last() == kv);
            }
            let entry = &self.inner[i];
            let ghost entry_start = out@;
            let mut j: usize = 0;
            proof {
                assert(kv.1.take(0) =~= Seq::<Seq<u8>>::empty());
                assert(out@ =~= entry_start + spec_raw_values(kv.1.take(0), delim));
            }
            while j < entry.1.len()
                invariant
                    j <= entry.1@.len(),
                    entry == self.inner@[i as int],
                    0 <= i < self.inner@.len(),
                    kv == (
                        self.inner@[i as int].0@,
                        self.inner@[i as int].1@.map_values(|v: Vec<u8>| v@),
                    ),
                    kv.1.len() == entry.1@.len(),
                    delimiter == delim,
                    out@ == entry_start + spec_raw_values(kv.1.take(j as int), delim),
                decreases entry.1@.len() - j,
            {
                let ghost line_start = out@;
                proof {
                    assert(kv.1.take(j as int + 1).drop_last() =~= kv.1.take(j as int));
                    assert(kv.1.take(j as int + 1).last() == kv.1[j as int]);
                    assert(kv.1[j as int] == entry.1@[j as int]@);
                }
                push_bytes(&mut out, &entry.1[j]);
                out.push(delimiter);
                proof {
                    assert(out@ =~= line_start + (kv.1[j as int] + seq![delim]));
                    assert(out@ =~= entry_start + spec_raw_values(kv.1.take(j as int + 1), delim));
                }
                j += 1;
            }
            proof {
                assert(kv.1.take(kv.1.len() as int) =~= kv.1);
            }
            i += 1;
        }
        proof {
            assert(self.inner@.take(self.inner@.len() as int) =~= self.inner@);
        }
        out
    }
}

/// The raw rendering of one key's values.
pub open spec fn spec_raw_values(vs: Seq<Seq<u8>>, delim: u8) -> Seq<u8>
    decreases vs.len(),
{
    if vs.len() == 0 {
        Seq::empty()
    } else {
        spec_raw_values(vs.drop_last(), delim) + vs.last() + seq![delim]
    }
}

/// The raw rendering of the whole map.
pub open spec fn spec_raw_map(m: Seq<(Seq<u8>, Seq<Seq<u8>>)>, delim: u8) -> Seq<u8>
    decreases m.len(),
{
    if m.len() == 0 {
        Seq::empty()
    } else {
        spec_raw_map(m.drop_last(), delim) + spec_raw_values(m.last().1, delim)
    }
}

} // verus!
