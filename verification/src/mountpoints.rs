//! Mount Table Reader.
//!
//! Parses line-oriented mount records — fields `(device, mountpoint,
//! fstype, ...)` separated by blanks — into filtered [`MountPoint`]
//! lists, and merges a live table with a static one, deduplicating by
//! mountpoint with the live side winning. Reading the table files is
//! the caller's business: the library works on their lines.

use vstd::prelude::*;

use crate::config::{Config, ConfigV};
use crate::strutil::is_prefix;

verus! {

/// Mathematical model of a [`MountPoint`].
#[verifier::ext_equal]
pub ghost struct MountV {
    pub dev: Seq<char>,
    pub path: Option<Seq<char>>,
    pub fs: Seq<char>,
    pub mounted: bool,
}

/// One parsed record of a mount table: device path, mountpoint,
/// filesystem type, and whether it came from the live table.
pub struct MountPoint {
    pub dev: String,
    pub path: Option<String>,
    pub fs: String,
    pub mounted: bool,
}

impl View for MountPoint {
    type V = MountV;

    open spec fn view(&self) -> MountV {
        MountV {
            dev: self.dev@,
            path: self.path.deep_view(),
            fs: self.fs@,
            mounted: self.mounted,
        }
    }
}

impl DeepView for MountPoint {
    type V = MountV;

    open spec fn deep_view(&self) -> MountV {
        self.view()
    }
}

impl Clone for MountPoint {
    /// The clone is the very same record.
    fn clone(&self) -> (r: Self)
        ensures
            r == *self,
    {
        MountPoint {
            dev: self.dev.clone(),
            path: match &self.path {
                Some(p) => Some(p.clone()),
                None => None,
            },
            fs: self.fs.clone(),
            mounted: self.mounted,
        }
    }
}

/// Field separators inside a mount-table line.
pub open spec fn is_space(c: char) -> bool {
    c == ' ' || c == '\t'
}

/// The first position at or after `i` holding a non-blank character
/// (or the end of the line).
pub open spec fn skip_spaces(l: Seq<char>, i: int) -> int
    decreases l.len() - i,
    when 0 <= i <= l.len()
{
    if i >= l.len() {
        i
    } else if is_space(l[i]) {
        skip_spaces(l, i + 1)
    } else {
        i
    }
}

/// The first position at or after `i` holding a blank (or the end of
/// the line): the end of the field starting at `i`.
pub open spec fn token_end(l: Seq<char>, i: int) -> int
    decreases l.len() - i,
    when 0 <= i <= l.len()
{
    if i >= l.len() {
        i
    } else if is_space(l[i]) {
        i
    } else {
        token_end(l, i + 1)
    }
}

/// What one line of a mount table means: `None` for a comment line, a
/// blank line, or one lacking any of the three required fields;
/// otherwise the record `(device, mountpoint, fstype)`, not yet
/// marked mounted.
pub open spec fn spec_parse_line(l: Seq<char>) -> Option<MountV> {
    let s1 = skip_spaces(l, 0);
    let e1 = token_end(l, s1);
    let s2 = skip_spaces(l, e1);
    let e2 = token_end(l, s2);
    let s3 = skip_spaces(l, e2);
    let e3 = token_end(l, s3);
    if s1 >= l.len() {
        None
    } else if l[s1] == '#' {
        None
    } else if s2 >= l.len() || s3 >= l.len() {
        None
    } else {
        Some(
            MountV {
                dev: l.subrange(s1, e1),
                path: Some(l.subrange(s2, e2)),
                fs: l.subrange(s3, e3),
                mounted: false,
            },
        )
    }
}

/// The ignore policy: an entry is kept when its filesystem type is in
/// no type-ignore entry and its mountpoint exists and starts with no
/// path-ignore prefix.
pub open spec fn spec_keep(m: MountV, cfg: ConfigV) -> bool {
    &&& !cfg.fstype_ignore.contains(m.fs)
    &&& m.path matches Some(p)
    &&& !(exists|k: int| 0 <= k < cfg.path_ignore.len() && is_prefix(cfg.path_ignore[k], p))
}

/// The contribution of one line to the parsed table: its record, if
/// the line parses and survives the ignore policy.
pub open spec fn spec_entry_of_line(l: Seq<char>, cfg: ConfigV) -> Option<MountV> {
    match spec_parse_line(l) {
        Some(m) => if spec_keep(m, cfg) {
            Some(m)
        } else {
            None
        },
        None => None,
    }
}

/// The parsed, filtered table for a sequence of lines, in line order.
pub open spec fn spec_parse_table(lines: Seq<Seq<char>>, cfg: ConfigV) -> Seq<MountV>
    decreases lines.len(),
{
    if lines.len() == 0 {
        Seq::empty()
    } else {
        spec_parse_table(lines.drop_last(), cfg) + match spec_entry_of_line(
            lines.last(),
            cfg,
        ) {
            Some(m) => seq![m],
            None => Seq::empty(),
        }
    }
}

/// Live entries as they enter the merged table: marked mounted.
pub open spec fn spec_mark_mounted(live: Seq<MountV>) -> Seq<MountV> {
    live.map_values(|m: MountV| MountV { mounted: true, ..m })
}

/// Whether some live entry already claims the mountpoint `p`.
pub open spec fn live_has_path(live: Seq<MountV>, p: Option<Seq<char>>) -> bool {
    exists|i: int| 0 <= i < live.len() && live[i].path == p
}

/// Static entries surviving the merge: those whose mountpoint no live
/// entry claims, as unmounted candidates. The live side wins on a
/// conflict.
pub open spec fn spec_dedupe_statics(live: Seq<MountV>, statics: Seq<MountV>) -> Seq<MountV>
    decreases statics.len(),
{
    if statics.len() == 0 {
        Seq::empty()
    } else {
        spec_dedupe_statics(live, statics.drop_last()) + if live_has_path(
            live,
            statics.last().path,
        ) {
            Seq::<MountV>::empty()
        } else {
            seq![MountV { mounted: false, ..statics.last() }]
        }
    }
}

/// The merged mount table: every live entry, mounted, followed by the
/// static entries whose mountpoint is not already live.
pub open spec fn spec_collect(live: Seq<MountV>, statics: Seq<MountV>) -> Seq<MountV> {
    spec_mark_mounted(live) + spec_dedupe_statics(live, statics)
}

/// How often a mountpoint occurs in a table.
pub open spec fn count_path(s: Seq<MountV>, p: Option<Seq<char>>) -> nat
    decreases s.len(),
{
    if s.len() == 0 {
        0
    } else {
        count_path(s.drop_last(), p) + (if s.last().path == p {
            1nat
        } else {
            0nat
        })
    }
}

/// Occurrence counts add over concatenation.
pub proof fn lemma_count_path_add(a: Seq<MountV>, b: Seq<MountV>, p: Option<Seq<char>>)
    ensures
        count_path(a + b, p) == count_path(a, p) + count_path(b, p),
    decreases b.len(),
{
    if b.len() == 0 {
        assert(a + b =~= a);
    } else {
        assert((a + b).drop_last() =~= a + b.drop_last());
        assert((a + b).last() == b.last());
        lemma_count_path_add(a, b.drop_last(), p);
    }
}

/// A table without the mountpoint counts it zero times.
pub proof fn lemma_count_path_zero(s: Seq<MountV>, p: Option<Seq<char>>)
    requires
        forall|k: int| 0 <= k < s.len() ==> (#[trigger] s[k]).path != p,
    ensures
        count_path(s, p) == 0,
    decreases s.len(),
{
    if s.len() > 0 {
        lemma_count_path_zero(s.drop_last(), p);
    }
}

/// Marking the live entries mounted moves no mountpoint.
pub proof fn lemma_count_path_mark(live: Seq<MountV>, p: Option<Seq<char>>)
    ensures
        count_path(spec_mark_mounted(live), p) == count_path(live, p),
    decreases live.len(),
{
    if live.len() > 0 {
        assert(spec_mark_mounted(live).drop_last() =~= spec_mark_mounted(live.drop_last()));
        assert(spec_mark_mounted(live).last() == MountV { mounted: true, ..live.last() });
        lemma_count_path_mark(live.drop_last(), p);
    }
}

/// A mountpoint the live table claims never survives from the static
/// side.
pub proof fn lemma_dedupe_drops_live_paths(
    live: Seq<MountV>,
    statics: Seq<MountV>,
    p: Option<Seq<char>>,
)
    requires
        live_has_path(live, p),
    ensures
        forall|k: int|
            0 <= k < spec_dedupe_statics(live, statics).len() ==> (#[trigger] spec_dedupe_statics(
                live,
                statics,
            )[k]).path != p,
    decreases statics.len(),
{
    if statics.len() > 0 {
        lemma_dedupe_drops_live_paths(live, statics.drop_last(), p);
        let r = spec_dedupe_statics(live, statics);
        let rr = spec_dedupe_statics(live, statics.drop_last());
        assert forall|k: int| 0 <= k < r.len() implies (#[trigger] r[k]).path != p by {
            if k < rr.len() {
                assert(r[k] == rr[k]);
            } else {
                assert(!live_has_path(live, statics.last().path));
                assert(r[k].path == statics.last().path);
            }
        }
    }
}

/// Dedup law: a mountpoint present in the live table occurs in the
/// merged table exactly as often as in the live table — once, when
/// the live table holds it once, however often the static table
/// repeats it — and every merged entry carrying it is mounted: the
/// live side wins.
pub proof fn lemma_collect_dedup(live: Seq<MountV>, statics: Seq<MountV>, p: Option<Seq<char>>)
    requires
        live_has_path(live, p),
    ensures
        count_path(spec_collect(live, statics), p) == count_path(live, p),
        forall|k: int|
            0 <= k < spec_collect(live, statics).len() && (#[trigger] spec_collect(
                live,
                statics,
            )[k]).path == p ==> spec_collect(live, statics)[k].mounted,
{
    let marked = spec_mark_mounted(live);
    let kept = spec_dedupe_statics(live, statics);
    lemma_count_path_add(marked, kept, p);
    lemma_count_path_mark(live, p);
    lemma_dedupe_drops_live_paths(live, statics, p);
    lemma_count_path_zero(kept, p);
    let r = spec_collect(live, statics);
    assert forall|k: int| 0 <= k < r.len() && (#[trigger] r[k]).path == p implies r[k].mounted by {
        if k < marked.len() {
            assert(r[k] == marked[k]);
            assert(marked[k] == MountV { mounted: true, ..live[k] });
        } else {
            assert(r[k] == kept[k - marked.len()]);
        }
    }
}

/// Two records that agree on everything but their mounted flag.
pub open spec fn same_record(a: MountV, b: MountV) -> bool {
    a.dev == b.dev && a.path == b.path && a.fs == b.fs
}

/// Every entry of the parsed table survives the ignore policy.
pub proof fn lemma_parse_table_filtered(lines: Seq<Seq<char>>, cfg: ConfigV)
    ensures
        forall|k: int|
            0 <= k < spec_parse_table(lines, cfg).len() ==> spec_keep(
                #[trigger] spec_parse_table(lines, cfg)[k],
                cfg,
            ),
    decreases lines.len(),
{
    if lines.len() > 0 {
        lemma_parse_table_filtered(lines.drop_last(), cfg);
        let r = spec_parse_table(lines, cfg);
        let rr = spec_parse_table(lines.drop_last(), cfg);
        assert forall|k: int| 0 <= k < r.len() implies spec_keep(#[trigger] r[k], cfg) by {
            if k < rr.len() {
                assert(r[k] == rr[k]);
            }
        }
    }
}

/// Every merged entry carries the device, mountpoint and filesystem
/// type of some input entry.
pub proof fn lemma_collect_from_inputs(live: Seq<MountV>, statics: Seq<MountV>)
    ensures
        forall|k: int|
            0 <= k < spec_collect(live, statics).len() ==> exists|j: int|
                (0 <= j < live.len() && same_record(
                    #[trigger] spec_collect(live, statics)[k],
                    live[j],
                )) || (0 <= j < statics.len() && same_record(
                    spec_collect(live, statics)[k],
                    statics[j],
                )),
{
    let r = spec_collect(live, statics);
    let marked = spec_mark_mounted(live);
    lemma_dedupe_from_statics(live, statics);
    let kept = spec_dedupe_statics(live, statics);
    assert forall|k: int| 0 <= k < r.len() implies exists|j: int|
        (0 <= j < live.len() && same_record(#[trigger] r[k], live[j])) || (0 <= j < statics.len()
            && same_record(r[k], statics[j])) by {
        if k < marked.len() {
            assert(r[k] == marked[k]);
            assert(marked[k] == MountV { mounted: true, ..live[k] });
            assert(same_record(r[k], live[k]));
        } else {
            assert(r[k] == kept[k - marked.len()]);
            let j = choose|j: int| 0 <= j < statics.len() && same_record(
                kept[k - marked.len()],
                statics[j],
            );
            assert(same_record(r[k], statics[j]));
        }
    }
}

/// Every surviving static entry carries the record of some static
/// entry.
proof fn lemma_dedupe_from_statics(live: Seq<MountV>, statics: Seq<MountV>)
    ensures
        forall|k: int|
            0 <= k < spec_dedupe_statics(live, statics).len() ==> exists|j: int|
                0 <= j < statics.len() && same_record(
                    #[trigger] spec_dedupe_statics(live, statics)[k],
                    statics[j],
                ),
    decreases statics.len(),
{
    if statics.len() > 0 {
        lemma_dedupe_from_statics(live, statics.drop_last());
        let r = spec_dedupe_statics(live, statics);
        let rr = spec_dedupe_statics(live, statics.drop_last());
        assert forall|k: int| 0 <= k < r.len() implies exists|j: int|
            0 <= j < statics.len() && same_record(#[trigger] r[k], statics[j]) by {
            if k < rr.len() {
                assert(r[k] == rr[k]);
                let j = choose|j: int|
                    0 <= j < statics.drop_last().len() && same_record(
                        rr[k],
                        statics.drop_last()[j],
                    );
                assert(statics[j] == statics.drop_last()[j]);
                assert(same_record(r[k], statics[j]));
            } else {
                assert(r[k] == MountV { mounted: false, ..statics.last() });
                assert(same_record(r[k], statics[statics.len() - 1]));
            }
        }
    }
}

/// Filtering law: with the default ignore-sets, no entry of the
/// merged table read from the two sources has filesystem type
/// `tmpfs`, nor a mountpoint under `/proc`.
pub proof fn lemma_default_filtering(live_lines: Seq<Seq<char>>, static_lines: Seq<Seq<char>>)
    ensures
        ({
            let cfg = crate::config::spec_default_config();
            let r = spec_collect(
                spec_parse_table(live_lines, cfg),
                spec_parse_table(static_lines, cfg),
            );
            forall|k: int|
                0 <= k < r.len() ==> (#[trigger] r[k]).fs != "tmpfs"@ && !(r[k].path matches Some(
                    p,
                ) && is_prefix("/proc"@, p))
        }),
{
    let cfg = crate::config::spec_default_config();
    let live = spec_parse_table(live_lines, cfg);
    let statics = spec_parse_table(static_lines, cfg);
    let r = spec_collect(live, statics);
    lemma_parse_table_filtered(live_lines, cfg);
    lemma_parse_table_filtered(static_lines, cfg);
    lemma_collect_from_inputs(live, statics);
    assert forall|k: int|
        0 <= k < r.len() implies (#[trigger] r[k]).fs != "tmpfs"@ && !(r[k].path matches Some(p)
        && is_prefix("/proc"@, p)) by {
        let j = choose|j: int|
            (0 <= j < live.len() && same_record(r[k], live[j])) || (0 <= j < statics.len()
                && same_record(r[k], statics[j]));
        let e = if 0 <= j < live.len() && same_record(r[k], live[j]) {
            live[j]
        } else {
            statics[j]
        };
        if 0 <= j < live.len() && same_record(r[k], live[j]) {
            assert(live[j] == spec_parse_table(live_lines, cfg)[j]);
            assert(spec_keep(e, cfg));
        } else {
            assert(statics[j] == spec_parse_table(static_lines, cfg)[j]);
            assert(spec_keep(e, cfg));
        }
        if r[k].fs == "tmpfs"@ {
            assert(cfg.fstype_ignore[0] == "tmpfs"@);
            assert(cfg.fstype_ignore.contains(e.fs));
            assert(false);
        }
        match r[k].path {
            Some(p) => {
                if is_prefix("/proc"@, p) {
                    assert(cfg.path_ignore[2] == "/proc"@);
                    assert(e.path == Some(p));
                    assert(exists|t: int|
                        0 <= t < cfg.path_ignore.len() && is_prefix(cfg.path_ignore[t], p));
                    assert(false);
                }
            },
            None => {},
        }
    }
}

/// Clones an optional string, keeping its value.
fn clone_opt_string(o: &Option<String>) -> (r: Option<String>)
    ensures
        r == *o,
{
    match o {
        Some(s) => Some(s.clone()),
        None => None,
    }
}

/// Compares two optional mountpoints by content.
fn opt_path_eq(a: &Option<String>, b: &Option<String>) -> (r: bool)
    ensures
        r == (a.deep_view() == b.deep_view()),
{
    match (a, b) {
        (Some(x), Some(y)) => *x == *y,
        (None, None) => true,
        _ => false,
    }
}

/// Whether some entry of `live` has the mountpoint `p`.
fn live_has_path_x(live: &Vec<MountPoint>, p: &Option<String>) -> (r: bool)
    ensures
        r == live_has_path(live.deep_view(), p.deep_view()),
{
    let mut i: usize = 0;
    while i < live.len()
        invariant
            i <= live.len(),
            forall|k: int| 0 <= k < i ==> live.deep_view()[k].path != p.deep_view(),
        decreases live.len() - i,
    {
        let e = &live[i];
        if opt_path_eq(&e.path, p) {
            proof {
                assert(live.deep_view()[i as int].path == p.deep_view());
            }
            return true;
        }
        i = i + 1;
    }
    false
}

/// Advances past blanks: returns `skip_spaces(line@, i)`.
fn skip_spaces_x(line: &str, i: usize) -> (r: usize)
    requires
        i <= line@.len(),
    ensures
        r == skip_spaces(line@, i as int),
        i <= r <= line@.len(),
{
    let len = line.unicode_len();
    let mut j = i;
    while j < len
        invariant
            i <= j <= len,
            len == line@.len(),
            skip_spaces(line@, i as int) == skip_spaces(line@, j as int),
        ensures
            i <= j <= len,
            skip_spaces(line@, i as int) == j,
        decreases len - j,
    {
        let c = line.get_char(j);
        if !(c == ' ' || c == '\t') {
            break;
        }
        j = j + 1;
    }
    j
}

/// Advances past a field: returns `token_end(line@, i)`.
fn token_end_x(line: &str, i: usize) -> (r: usize)
    requires
        i <= line@.len(),
    ensures
        r == token_end(line@, i as int),
        i <= r <= line@.len(),
{
    let len = line.unicode_len();
    let mut j = i;
    while j < len
        invariant
            i <= j <= len,
            len == line@.len(),
            token_end(line@, i as int) == token_end(line@, j as int),
        ensures
            i <= j <= len,
            token_end(line@, i as int) == j,
        decreases len - j,
    {
        let c = line.get_char(j);
        if c == ' ' || c == '\t' {
            break;
        }
        j = j + 1;
    }
    j
}

impl MountPoint {
    /// Parses one mount-table line into its record, skipping comment
    /// lines and lines with fewer than three fields.
    pub fn parse_line(line: &str) -> (r: Option<MountPoint>)
        ensures
            r.deep_view() == spec_parse_line(line@),
    {
        let len = line.unicode_len();
        let s1 = skip_spaces_x(line, 0);
        let e1 = token_end_x(line, s1);
        let s2 = skip_spaces_x(line, e1);
        let e2 = token_end_x(line, s2);
        let s3 = skip_spaces_x(line, e2);
        let e3 = token_end_x(line, s3);
        if s1 >= len {
            return None;
        }
        if line.get_char(s1) == '#' {
            return None;
        }
        if s2 >= len || s3 >= len {
            return None;
        }
        let dev = line.substring_char(s1, e1).to_owned();
        let path = line.substring_char(s2, e2).to_owned();
        let fs = line.substring_char(s3, e3).to_owned();
        Some(MountPoint { dev, path: Some(path), fs, mounted: false })
    }

    /// Whether `m` survives the ignore policy of `cfg`.
    pub fn keep(m: &MountPoint, cfg: &Config) -> (r: bool)
        ensures
            r == spec_keep(m@, cfg@),
    {
        if crate::strutil::contains_str(&cfg.fstype_ignore, &m.fs) {
            return false;
        }
        match &m.path {
            Some(p) => {
                let bad = crate::strutil::any_prefix_of(&cfg.path_ignore, p);
                proof {
                    assert(m@.path == Some(p@));
                }
                !bad
            },
            None => false,
        }
    }

    /// Parses a whole mount table, line by line, applying the ignore
    /// policy of `cfg`; malformed lines are skipped, never fatal.
    pub fn parse_table(lines: &Vec<String>, cfg: &Config) -> (r: Vec<MountPoint>)
        ensures
            r.deep_view() == spec_parse_table(lines.deep_view(), cfg@),
    {
        let mut r: Vec<MountPoint> = Vec::new();
        let mut i: usize = 0;
        while i < lines.len()
            invariant
                i <= lines.len(),
                r.deep_view() == spec_parse_table(lines.deep_view().take(i as int), cfg@),
            decreases lines.len() - i,
        {
            let ghost prefix = lines.deep_view().take(i as int);
            let ghost prefix1 = lines.deep_view().take(i + 1int);
            proof {
                assert(prefix1.drop_last() =~= prefix);
                assert(prefix1.last() == lines.deep_view()[i as int]);
            }
            match MountPoint::parse_line(lines[i].as_str()) {
                Some(m) => {
                    if MountPoint::keep(&m, cfg) {
                        let ghost old_r = r.deep_view();
                        let ghost mv = m@;
                        r.push(m);
                        proof {
                            assert(r.deep_view() =~= old_r + seq![mv]);
                        }
                    }
                },
                None => {},
            }
            i = i + 1;
        }
        proof {
            assert(lines.deep_view().take(lines.deep_view().len() as int) =~= lines.deep_view());
        }
        r
    }

    /// Merges the live and the static mount tables: the union of all
    /// live entries, each mounted, plus the static entries whose
    /// mountpoint is not already present among the live entries
    /// (dedupe key is the mountpoint; live wins on conflict).
    pub fn collect(live: Vec<MountPoint>, statics: Vec<MountPoint>) -> (r: Vec<MountPoint>)
        ensures
            r.deep_view() == spec_collect(live.deep_view(), statics.deep_view()),
    {
        let ghost lv = live.deep_view();
        let ghost sv = statics.deep_view();
        let mut r: Vec<MountPoint> = Vec::new();
        let mut i: usize = 0;
        while i < live.len()
            invariant
                i <= live.len(),
                lv == live.deep_view(),
                r.deep_view() == spec_mark_mounted(lv.take(i as int)),
            decreases live.len() - i,
        {
            let e = &live[i];
            let m = MountPoint {
                dev: e.dev.clone(),
                path: clone_opt_string(&e.path),
                fs: e.fs.clone(),
                mounted: true,
            };
            let ghost old_r = r.deep_view();
            let ghost mv = m@;
            proof {
                assert(mv == MountV { mounted: true, ..lv[i as int] });
            }
            r.push(m);
            proof {
                assert(r.deep_view() =~= old_r.push(mv));
                assert(spec_mark_mounted(lv.take(i + 1int)) =~= spec_mark_mounted(
                    lv.take(i as int),
                ).push(MountV { mounted: true, ..lv[i as int] }));
            }
            i = i + 1;
        }
        proof {
            assert(lv.take(lv.len() as int) =~= lv);
        }
        let mut j: usize = 0;
        while j < statics.len()
            invariant
                j <= statics.len(),
                lv == live.deep_view(),
                sv == statics.deep_view(),
                r.deep_view() == spec_mark_mounted(lv) + spec_dedupe_statics(
                    lv,
                    sv.take(j as int),
                ),
            decreases statics.len() - j,
        {
            proof {
                assert(sv.take(j + 1int).drop_last() =~= sv.take(j as int));
                assert(sv.take(j + 1int).last() == sv[j as int]);
            }
            let e = &statics[j];
            let ghost old_r = r.deep_view();
            if !live_has_path_x(&live, &e.path) {
                let m = MountPoint {
                    dev: e.dev.clone(),
                    path: clone_opt_string(&e.path),
                    fs: e.fs.clone(),
                    mounted: false,
                };
                let ghost mv = m@;
                proof {
                    assert(mv == MountV { mounted: false, ..sv[j as int] });
                }
                r.push(m);
                proof {
                    assert(r.deep_view() =~= old_r + seq![mv]);
                }
            } else {
                proof {
                    assert(old_r + Seq::<MountV>::empty() =~= old_r);
                }
            }
            j = j + 1;
        }
        proof {
            assert(sv.take(sv.len() as int) =~= sv);
        }
        r
    }
}

} // verus!
