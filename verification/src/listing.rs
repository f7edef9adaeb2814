//! Rendering of the package changes computed from lists of store paths.
use vstd::prelude::*;
use crate::engine::{scan_from, lemma_scan_from};
use crate::matching::{Pairing, PairIndex, pairing_refers};
use crate::paths::{
    Change, Diff, DiffStatus, PathDiffView, StorePath, version_views, path_diff_views, path_diffs, path_diff,
    lists_fit, list_pairs, match_version_lists, collect_path_versions, collect_system_names, generate_diffs_from_paths,
    add_selection_status, path_entries, store_path_views, system_names, lemma_sub_lists_fit, PathEntryView,
};
use crate::closure::{
    sort_diffs, insert_diff, diff_after_at, sort_diff_list, closures_fit, ClosureSnapshot, SnapshotError, diff_snapshots,
    snapshot_changes, sort_versions, first_outside, lemma_sort_versions_members,
};
use crate::render::{
    Segment, Style, seg_views, push_text, version_segs, single_version_segs, with_sep, others_text, write_version,
    fmt_single_version_diff, display_width, text_width, selection_mark, header_text, StatusGroup,
    line_head, line_tail, write_line_head, write_line_tail,
};
use crate::report::{selection_of, text_views};
use crate::paths::entry_views;

verus! {

/// The old and new segments written so far, and whether each side has a
/// version yet.
pub ghost struct ListState {
    pub old: Seq<(Seq<char>, Style)>,
    pub new: Seq<(Seq<char>, Style)>,
    pub old_wrote: bool,
    pub new_wrote: bool,
}

/// Writes one pairing of versions: unpaired old versions red, unpaired new
/// ones green, paired different versions compared piece by piece.
pub open spec fn list_step(st: ListState, q: PairIndex, old: Seq<Seq<char>>, new: Seq<Seq<char>>) -> ListState {
    match q {
        PairIndex::Left(i) => ListState {
            old: with_sep(st.old, st.old_wrote) + version_segs(old[i], Style::Red),
            old_wrote: true,
            ..st
        },
        PairIndex::Right(j) => ListState {
            new: with_sep(st.new, st.new_wrote) + version_segs(new[j], Style::Green),
            new_wrote: true,
            ..st
        },
        PairIndex::Both(i, j) => if old[i] == new[j] {
            st
        } else {
            ListState {
                old: with_sep(st.old, st.old_wrote) + single_version_segs(old[i], new[j]).0,
                new: with_sep(st.new, st.new_wrote) + single_version_segs(old[i], new[j]).1,
                old_wrote: true,
                new_wrote: true,
            }
        },
    }
}

/// Writes a list of pairings, first to last.
pub open spec fn list_steps(qs: Seq<PairIndex>, old: Seq<Seq<char>>, new: Seq<Seq<char>>) -> ListState
    decreases qs.len(),
{
    if qs.len() == 0 {
        ListState { old: Seq::empty(), new: Seq::empty(), old_wrote: false, new_wrote: false }
    } else {
        list_step(list_steps(qs.drop_last(), old, new), qs.last(), old, new)
    }
}

/// The old and new segments of a package's old-only and new-only versions,
/// with `<others>` on both sides where some versions are on both.
pub open spec fn version_list_segs(old: Seq<Seq<char>>, new: Seq<Seq<char>>, has_common: bool) -> (Seq<(Seq<char>, Style)>, Seq<(Seq<char>, Style)>) {
    let st = list_steps(list_pairs(old, new), old, new);
    if has_common {
        (
            with_sep(st.old, st.old_wrote).push((others_text(), Style::BlueItalic)),
            with_sep(st.new, st.new_wrote).push((others_text(), Style::BlueItalic)),
        )
    } else {
        (st.old, st.new)
    }
}

fn append_sep(acc: &mut Vec<Segment>, wrote: &mut bool)
    ensures
        seg_views(final(acc)@) == with_sep(seg_views(old(acc)@), *old(wrote)),
        *final(wrote),
{
    if *wrote {
        push_text(acc, ", ", Style::Plain);
        proof {
            reveal_strlit(", ");
            assert(", "@ =~= seq![',', ' ']);
        }
    } else {
        *wrote = true;
    }
}

/// The old and new segments of a package's old-only and new-only versions.
pub fn fmt_version_list_diffs(old_versions: &[crate::version::Version], new_versions: &[crate::version::Version], has_common_versions: bool) -> (r: (Vec<Segment>, Vec<Segment>))
    requires
        lists_fit(version_views(old_versions@), version_views(new_versions@)),
    ensures
        seg_views(r.0@) == version_list_segs(version_views(old_versions@), version_views(new_versions@), has_common_versions).0,
        seg_views(r.1@) == version_list_segs(version_views(old_versions@), version_views(new_versions@), has_common_versions).1,
{
    let ghost ov = version_views(old_versions@);
    let ghost nv = version_views(new_versions@);
    let pairs = match_version_lists(old_versions, new_versions);
    let ghost qs = list_pairs(ov, nv);
    let mut old_acc: Vec<Segment> = Vec::new();
    let mut new_acc: Vec<Segment> = Vec::new();
    let mut old_wrote = false;
    let mut new_wrote = false;
    let mut k: usize = 0;
    proof {
        assert(seg_views(old_acc@) =~= Seq::<(Seq<char>, Style)>::empty());
        assert(seg_views(new_acc@) =~= Seq::<(Seq<char>, Style)>::empty());
        assert(qs.take(0) =~= Seq::<PairIndex>::empty());
    }
    while k < pairs.len()
        invariant
            ov == version_views(old_versions@),
            nv == version_views(new_versions@),
            qs == list_pairs(ov, nv),
            pairs@.len() == qs.len(),
            forall|t: int| 0 <= t < pairs@.len() ==> pairing_refers(#[trigger] pairs@[t], qs[t], old_versions@, new_versions@),
            k <= qs.len(),
            list_steps(qs.take(k as int), ov, nv) == (ListState {
                old: seg_views(old_acc@),
                new: seg_views(new_acc@),
                old_wrote,
                new_wrote,
            }),
        decreases qs.len() - k,
    {
        proof {
            assert(qs.take(k + 1).drop_last() =~= qs.take(k as int));
            assert(qs.take(k + 1).last() == qs[k as int]);
            assert(pairing_refers(pairs@[k as int], qs[k as int], old_versions@, new_versions@));
        }
        match pairs[k] {
            Pairing::Left(old) => {
                append_sep(&mut old_acc, &mut old_wrote);
                write_version(&mut old_acc, old, Style::Red);
            },
            Pairing::Right(new) => {
                append_sep(&mut new_acc, &mut new_wrote);
                write_version(&mut new_acc, new, Style::Green);
            },
            Pairing::Both(old, new) => {
                if old.name == new.name {
                } else {
                    append_sep(&mut old_acc, &mut old_wrote);
                    append_sep(&mut new_acc, &mut new_wrote);
                    fmt_single_version_diff(&mut old_acc, &mut new_acc, old, new);
                }
            },
        }
        proof {
            let st = list_steps(qs.take(k + 1), ov, nv);
            assert(st.old =~= seg_views(old_acc@));
            assert(st.new =~= seg_views(new_acc@));
        }
        k = k + 1;
    }
    proof {
        assert(qs.take(k as int) =~= qs);
    }
    if has_common_versions {
        append_sep(&mut old_acc, &mut old_wrote);
        append_sep(&mut new_acc, &mut new_wrote);
        push_text(&mut old_acc, "<others>", Style::BlueItalic);
        push_text(&mut new_acc, "<others>", Style::BlueItalic);
        proof {
            reveal_strlit("<others>");
            assert("<others>"@ =~= others_text());
        }
    }
    (old_acc, new_acc)
}

/// The character and style that mark a status.
pub open spec fn path_status_mark(status: DiffStatus) -> (char, Style) {
    match status {
        DiffStatus::Changed(Change::UpgradeDowngrade) => ('C', Style::YellowBold),
        DiffStatus::Changed(Change::Upgraded) => ('U', Style::BrightCyanBold),
        DiffStatus::Changed(Change::Downgraded) => ('D', Style::MagentaBold),
        DiffStatus::Added => ('A', Style::GreenBold),
        DiffStatus::Removed => ('R', Style::RedBold),
    }
}

fn path_status_char(status: DiffStatus) -> (r: (char, Style))
    ensures
        r == path_status_mark(status),
{
    match status {
        DiffStatus::Changed(Change::UpgradeDowngrade) => ('C', Style::YellowBold),
        DiffStatus::Changed(Change::Upgraded) => ('U', Style::BrightCyanBold),
        DiffStatus::Changed(Change::Downgraded) => ('D', Style::MagentaBold),
        DiffStatus::Added => ('A', Style::GreenBold),
        DiffStatus::Removed => ('R', Style::RedBold),
    }
}

/// The section of a status.
pub open spec fn path_group(status: DiffStatus) -> StatusGroup {
    match status {
        DiffStatus::Changed(_) => StatusGroup::Changed,
        DiffStatus::Added => StatusGroup::Added,
        DiffStatus::Removed => StatusGroup::Removed,
    }
}

/// The line of one package change.
pub open spec fn path_line(d: PathDiffView, width: int) -> Seq<(Seq<char>, Style)> {
    let (sc, ss) = path_status_mark(d.status);
    let (lc, ls) = selection_mark(d.selection);
    let (o, n) = version_list_segs(d.old, d.new, d.has_common_versions);
    line_head((sc, ss), (lc, ls), d.name, width) + line_tail(o, n)
}

/// The lines of a list of changes, with a heading where the status rank
/// changes and an empty line between sections.
pub open spec fn path_listing(ds: Seq<PathDiffView>, width: int) -> Seq<(Seq<char>, Style)>
    decreases ds.len(),
{
    if ds.len() == 0 {
        Seq::empty()
    } else {
        let d = ds.last();
        let first = ds.len() == 1;
        let new_section = first || ds[ds.len() - 2].status.rank() != d.status.rank();
        let heading = if new_section {
            (if first { Seq::empty() } else { seq![(seq!['\n'], Style::Plain)] })
                + seq![(header_text(path_group(d.status)), Style::Bold), (seq!['\n'], Style::Plain)]
        } else {
            Seq::empty()
        };
        path_listing(ds.drop_last(), width) + heading + path_line(d, width)
    }
}

/// The widest display width of the names, plus one.
pub open spec fn path_name_column(ds: Seq<PathDiffView>) -> int
    decreases ds.len(),
{
    if ds.len() == 0 {
        1
    } else {
        let rest = path_name_column(ds.drop_last());
        let w: int = display_width(ds.last().name) as int + 1;
        if w > rest {
            w
        } else {
            rest
        }
    }
}

/// Whether every name's display width is below `usize::MAX`.
pub open spec fn path_widths_fit(ds: Seq<PathDiffView>) -> bool {
    forall|k: int| 0 <= k < ds.len() ==> display_width(#[trigger] ds[k].name) < usize::MAX
}

/// Whether every change's versions fit the version matching's weights.
pub open spec fn diffs_fit(ds: Seq<PathDiffView>) -> bool {
    forall|k: int| 0 <= k < ds.len() ==> lists_fit(#[trigger] ds[k].old, ds[k].new)
}

fn path_name_column_of(diffs: &Vec<Diff>) -> (w: Option<usize>)
    ensures
        w is Some <==> path_widths_fit(path_diff_views(diffs@)),
        w matches Some(x) ==> x == path_name_column(path_diff_views(diffs@)),
{
    let ghost ds = path_diff_views(diffs@);
    let mut best: usize = 1;
    let mut k: usize = 0;
    while k < diffs.len()
        invariant
            ds == path_diff_views(diffs@),
            k <= ds.len(),
            path_widths_fit(ds.take(k as int)),
            best == path_name_column(ds.take(k as int)),
        decreases ds.len() - k,
    {
        let w = text_width(diffs[k].name.as_str());
        proof {
            assert(ds.take(k + 1).drop_last() =~= ds.take(k as int));
            assert(ds.take(k + 1).last() == diffs@[k as int]@);
            assert(ds[k as int] == diffs@[k as int]@);
        }
        if w == usize::MAX {
            proof {
                assert(display_width(ds[k as int].name) == usize::MAX);
            }
            return None;
        }
        if w + 1 > best {
            best = w + 1;
        }
        proof {
            assert forall|j: int| 0 <= j < k + 1 implies display_width(#[trigger] ds.take(k + 1)[j].name) < usize::MAX by {
                if j < k {
                    assert(ds.take(k + 1)[j] == ds.take(k as int)[j]);
                }
            }
        }
        k = k + 1;
    }
    proof {
        assert(ds.take(k as int) =~= ds);
    }
    Some(best)
}

/// Appends the line of one package change.
fn write_path_line(acc: &mut Vec<Segment>, d: &Diff, width: usize)
    requires
        lists_fit(d@.old, d@.new),
    ensures
        seg_views(final(acc)@) == seg_views(old(acc)@) + path_line(d@, width as int),
{
    let ghost before = seg_views(acc@);
    let status = path_status_char(d.status);
    let selection = crate::render::selection_char(d.selection);
    write_line_head(acc, status, selection, d.name.as_str(), width);
    let (old_segs, new_segs) = fmt_version_list_diffs(d.old.as_slice(), d.new.as_slice(), d.has_common_versions);
    write_line_tail(acc, old_segs, new_segs);
    proof {
        assert(seg_views(acc@) =~= before + path_line(d@, width as int));
    }
}

/// The lines of a list of package changes, in the given order; `None` where
/// a name's display width is `usize::MAX`.
pub fn render_path_diffs(diffs: &Vec<Diff>) -> (r: Option<Vec<Segment>>)
    requires
        diffs_fit(path_diff_views(diffs@)),
    ensures
        r is Some <==> path_widths_fit(path_diff_views(diffs@)),
        r matches Some(segs) ==> seg_views(segs@) == path_listing(path_diff_views(diffs@), path_name_column(path_diff_views(diffs@))),
{
    let width = path_name_column_of(diffs)?;
    let ghost ds = path_diff_views(diffs@);
    let mut out: Vec<Segment> = Vec::new();
    let mut last: Option<DiffStatus> = None;
    let mut k: usize = 0;
    proof {
        assert(seg_views(out@) =~= path_listing(ds.take(0), width as int));
    }
    while k < diffs.len()
        invariant
            ds == path_diff_views(diffs@),
            diffs_fit(ds),
            k <= ds.len(),
            seg_views(out@) == path_listing(ds.take(k as int), width as int),
            k == 0 <==> last is None,
            k > 0 ==> (last matches Some(s) && s.rank() == ds[k - 1].status.rank()),
        decreases ds.len() - k,
    {
        let d = &diffs[k];
        let ghost before = seg_views(out@);
        proof {
            assert(ds[k as int] == d@);
            let t = ds.take(k + 1);
            assert(t.drop_last() =~= ds.take(k as int));
            assert(t.last() == d@);
            if k > 0 {
                assert(t[t.len() - 2] == ds[k - 1]);
            }
            assert(lists_fit(ds[k as int].old, ds[k as int].new));
        }
        let new_section = match &last {
            None => true,
            Some(s) => !s.sorts_with(&d.status),
        };
        if new_section {
            if last.is_some() {
                push_text(&mut out, "\n", Style::Plain);
            }
            let header = match d.status {
                DiffStatus::Changed(_) => "CHANGED",
                DiffStatus::Added => "ADDED",
                DiffStatus::Removed => "REMOVED",
            };
            push_text(&mut out, header, Style::Bold);
            push_text(&mut out, "\n", Style::Plain);
            proof {
                reveal_strlit("\n");
                reveal_strlit("CHANGED");
                reveal_strlit("ADDED");
                reveal_strlit("REMOVED");
                assert("\n"@ =~= seq!['\n']);
                assert(header@ =~= header_text(path_group(d@.status)));
            }
        }
        last = Some(d.status);
        let ghost mid = seg_views(out@);
        write_path_line(&mut out, d, width);
        proof {
            let t = ds.take(k + 1);
            let first = t.len() == 1;
            let heading = if new_section {
                (if first { Seq::empty() } else { seq![(seq!['\n'], Style::Plain)] })
                    + seq![(header_text(path_group(d@.status)), Style::Bold), (seq!['\n'], Style::Plain)]
            } else {
                Seq::empty()
            };
            assert(mid =~= before + heading);
            assert(seg_views(out@) =~= path_listing(t, width as int));
        }
        k = k + 1;
    }
    proof {
        assert(ds.take(k as int) =~= ds);
    }
    Some(out)
}


/// Every change of entries whose versions fit the matching's weights has
/// versions that fit them too.
proof fn lemma_path_diffs_fit(es: Seq<PathEntryView>)
    requires
        forall|k: int| 0 <= k < es.len() ==> lists_fit(#[trigger] es[k].old, es[k].new),
    ensures
        diffs_fit(path_diffs(es)),
    decreases es.len(),
{
    if es.len() > 0 {
        let rest = es.drop_last();
        assert forall|k: int| 0 <= k < rest.len() implies lists_fit(#[trigger] rest[k].old, rest[k].new) by {
            assert(rest[k] == es[k]);
        }
        lemma_path_diffs_fit(rest);
        let e = es.last();
        assert(lists_fit(es[es.len() - 1].old, es[es.len() - 1].new));
        lemma_sub_lists_fit(e.old, e.new);
        let prev = path_diffs(rest);
        match path_diff(e.name, e.old, e.new) {
            Some(d) => {
                assert forall|k: int| 0 <= k < prev.push(d).len() implies lists_fit(#[trigger] prev.push(d)[k].old, prev.push(d)[k].new) by {
                    if k < prev.len() {
                        assert(prev.push(d)[k] == prev[k]);
                    }
                }
            },
            None => {},
        }
    }
}

/// Sorting changes keeps each change: every sorted change is one of the
/// given changes.
proof fn lemma_sort_diffs_members(ds: Seq<PathDiffView>)
    ensures
        forall|x: PathDiffView| sort_diffs(ds).contains(x) ==> ds.contains(x),
    decreases ds.len(),
{
    if ds.len() > 0 {
        let rest = ds.drop_last();
        lemma_sort_diffs_members(rest);
        let prev = sort_diffs(rest);
        let x = ds.last();
        let pos = scan_from(diff_after_at(prev, x), 0, prev.len() as int);
        lemma_scan_from(diff_after_at(prev, x), 0, prev.len() as int);
        let ins = prev.insert(pos, x);
        assert forall|y: PathDiffView| sort_diffs(ds).contains(y) implies ds.contains(y) by {
            assert(sort_diffs(ds) == ins);
            let j = choose|j: int| 0 <= j < ins.len() && ins[j] == y;
            if j < pos {
                assert(ins[j] == prev[j]);
                assert(prev.contains(y));
                assert(rest.contains(y));
                let t = choose|t: int| 0 <= t < rest.len() && rest[t] == y;
                assert(ds[t] == y);
            } else if j == pos {
                assert(ds[ds.len() - 1] == y);
            } else {
                assert(ins[j] == prev[j - 1]);
                assert(prev.contains(y));
                assert(rest.contains(y));
                let t = choose|t: int| 0 <= t < rest.len() && rest[t] == y;
                assert(ds[t] == y);
            }
        }
    }
}

/// The changes between two lists of store paths: each package's versions
/// that the other side lacks, selection status from the system paths,
/// sorted by status and then by name.
pub open spec fn packages_changes(
    old: Seq<Seq<char>>,
    new: Seq<Seq<char>>,
    system_old: Seq<Seq<char>>,
    system_new: Seq<Seq<char>>,
) -> Seq<PathDiffView> {
    let ds = path_diffs(path_entries(old, new));
    sort_diffs(ds.map_values(|d: PathDiffView| PathDiffView {
        selection: selection_of(system_names(system_old).contains(d.name), system_names(system_new).contains(d.name)),
        ..d
    }))
}

/// The listing of the package changes between two lists of store paths,
/// with the number of changes listed; `None` where a name's display width
/// is `usize::MAX`.
pub fn write_packages_diff(
    paths_old: &[StorePath],
    paths_new: &[StorePath],
    system_paths_old: &[StorePath],
    system_paths_new: &[StorePath],
) -> (r: Option<(usize, Vec<Segment>)>)
    requires
        closures_fit(store_path_views(paths_old@), store_path_views(paths_new@)),
    ensures
        ({
            let changes = packages_changes(
                store_path_views(paths_old@),
                store_path_views(paths_new@),
                store_path_views(system_paths_old@),
                store_path_views(system_paths_new@),
            );
            &&& r is Some <==> path_widths_fit(changes)
            &&& r matches Some((n, segs)) ==> n == changes.len() && seg_views(segs@) == path_listing(changes, path_name_column(changes))
        }),
{
    let entries = collect_path_versions(paths_old, paths_new);
    let sys_old = collect_system_names(system_paths_old);
    let sys_new = collect_system_names(system_paths_new);
    let ghost es = entry_views(entries@);
    let ghost so = system_names(store_path_views(system_paths_old@));
    let ghost sn = system_names(store_path_views(system_paths_new@));
    let mut diffs = generate_diffs_from_paths(entries);
    let ghost ds = path_diff_views(diffs@);
    proof {
        lemma_path_diffs_fit(es);
    }
    add_selection_status(&mut diffs, &sys_old, &sys_new);
    let ghost selected = path_diff_views(diffs@);
    let sorted = sort_diff_list(diffs);
    let ghost expected = ds.map_values(|d: PathDiffView| PathDiffView {
        selection: selection_of(so.contains(d.name), sn.contains(d.name)),
        ..d
    });
    proof {
        assert(text_views(sys_old@).to_set() == so);
        assert(text_views(sys_new@).to_set() == sn);
        assert(selected =~= expected) by {
            assert forall|j: int| 0 <= j < expected.len() implies selected[j] == expected[j] by {
                assert(so.contains(ds[j].name) == text_views(sys_old@).contains(ds[j].name));
                assert(sn.contains(ds[j].name) == text_views(sys_new@).contains(ds[j].name));
            }
        }
        assert(diffs_fit(expected)) by {
            assert forall|k: int| 0 <= k < expected.len() implies lists_fit(#[trigger] expected[k].old, expected[k].new) by {
                assert(lists_fit(ds[k].old, ds[k].new));
            }
        }
        lemma_sort_diffs_members(expected);
        let out = sort_diffs(expected);
        assert(diffs_fit(out)) by {
            assert forall|k: int| 0 <= k < out.len() implies lists_fit(#[trigger] out[k].old, out[k].new) by {
                assert(out.contains(out[k]));
                assert(expected.contains(out[k]));
                let t = choose|t: int| 0 <= t < expected.len() && expected[t] == out[k];
                assert(lists_fit(expected[t].old, expected[t].new));
                assert(out[k].old == expected[t].old);
            }
        }
    }
    let count = sorted.len();
    match render_path_diffs(&sorted) {
        Some(segs) => Some((count, segs)),
        None => None,
    }
}

/// Store paths compared with themselves show no package change, whatever
/// the system paths.
pub proof fn lemma_identical_packages_unchanged(paths: Seq<Seq<char>>, system_old: Seq<Seq<char>>, system_new: Seq<Seq<char>>)
    ensures
        packages_changes(paths, paths, system_old, system_new) == Seq::<PathDiffView>::empty(),
{
    crate::paths::lemma_identical_paths_unchanged(paths);
    let ds = path_diffs(path_entries(paths, paths));
    let selected = ds.map_values(|d: PathDiffView| PathDiffView {
        selection: selection_of(system_names(system_old).contains(d.name), system_names(system_new).contains(d.name)),
        ..d
    });
    assert(selected =~= Seq::<PathDiffView>::empty());
}

/// Sorting both lists of versions keeps them within the matching's weights.
proof fn lemma_sorted_lists_fit(a: Seq<Seq<char>>, b: Seq<Seq<char>>)
    requires
        lists_fit(a, b),
    ensures
        lists_fit(sort_versions(a), sort_versions(b)),
{
    lemma_sort_versions_members(a);
    lemma_sort_versions_members(b);
    let sa = sort_versions(a);
    let sb = sort_versions(b);
    let f = a.len() + b.len() + 2;
    assert forall|i: int| 0 <= i < sa.len() implies crate::version::comp_views(#[trigger] sa[i]).len() * f <= i32::MAX by {
        assert(sa.contains(sa[i]));
        assert(a.contains(sa[i]));
        let u = choose|u: int| 0 <= u < a.len() && a[u] == sa[i];
        assert(crate::version::comp_views(a[u]).len() * f <= i32::MAX);
    }
    assert forall|j: int| 0 <= j < sb.len() implies crate::version::comp_views(#[trigger] sb[j]).len() * f <= i32::MAX by {
        assert(sb.contains(sb[j]));
        assert(b.contains(sb[j]));
        let u = choose|u: int| 0 <= u < b.len() && b[u] == sb[j];
        assert(crate::version::comp_views(b[u]).len() * f <= i32::MAX);
    }
}

/// The changes of closures whose versions fit the matching's weights have
/// versions that fit them too.
proof fn lemma_snapshot_changes_fit(
    old_closure: Seq<Seq<char>>,
    new_closure: Seq<Seq<char>>,
    old_selected: Seq<Seq<char>>,
    new_selected: Seq<Seq<char>>,
)
    requires
        closures_fit(old_closure, new_closure),
    ensures
        diffs_fit(snapshot_changes(old_closure, new_closure, old_selected, new_selected)),
{
    let es = path_entries(old_closure, new_closure);
    assert forall|k: int| 0 <= k < es.len() implies lists_fit(#[trigger] es[k].old, es[k].new) by {
        assert(lists_fit(path_entries(old_closure, new_closure)[k].old, path_entries(old_closure, new_closure)[k].new));
    }
    lemma_path_diffs_fit(es);
    let ds = path_diffs(es);
    let prepared = ds.map_values(|d: PathDiffView| PathDiffView {
        old: sort_versions(d.old),
        new: sort_versions(d.new),
        selection: selection_of(system_names(old_selected).contains(d.name), system_names(new_selected).contains(d.name)),
        ..d
    });
    assert forall|k: int| 0 <= k < prepared.len() implies lists_fit(#[trigger] prepared[k].old, prepared[k].new) by {
        assert(lists_fit(ds[k].old, ds[k].new));
        lemma_sorted_lists_fit(ds[k].old, ds[k].new);
    }
    lemma_sort_diffs_members(prepared);
    let out = sort_diffs(prepared);
    assert forall|k: int| 0 <= k < out.len() implies lists_fit(#[trigger] out[k].old, out[k].new) by {
        assert(out.contains(out[k]));
        assert(prepared.contains(out[k]));
        let t = choose|t: int| 0 <= t < prepared.len() && prepared[t] == out[k];
        assert(lists_fit(prepared[t].old, prepared[t].new));
    }
}

/// The package changes of two closure snapshots as written after a blank
/// line, with the number of changes: the snapshot's error where a selected
/// path lies outside its closure, and `None` where a name's display width
/// is `usize::MAX`.
pub fn write_package_diff(old: &ClosureSnapshot, new: &ClosureSnapshot) -> (r: Result<Option<(usize, Vec<Segment>)>, SnapshotError>)
    requires
        closures_fit(store_path_views(old.closure_paths@), store_path_views(new.closure_paths@)),
    ensures
        r is Ok <==> first_outside(store_path_views(old.selected_paths@), store_path_views(old.closure_paths@))
            == old.selected_paths@.len() && first_outside(store_path_views(new.selected_paths@), store_path_views(new.closure_paths@))
            == new.selected_paths@.len(),
        r matches Ok(listing) ==> {
            let changes = snapshot_changes(
                store_path_views(old.closure_paths@),
                store_path_views(new.closure_paths@),
                store_path_views(old.selected_paths@),
                store_path_views(new.selected_paths@),
            );
            &&& listing is Some <==> path_widths_fit(changes)
            &&& listing matches Some((n, segs)) ==> n == changes.len() && seg_views(segs@) == seq![(seq!['\n'], Style::Plain)]
                + path_listing(changes, path_name_column(changes))
        },
        r matches Err(SnapshotError::SelectedOutsideClosure { selected, root }) ==> {
            let ko = first_outside(store_path_views(old.selected_paths@), store_path_views(old.closure_paths@));
            let kn = first_outside(store_path_views(new.selected_paths@), store_path_views(new.closure_paths@));
            if ko < old.selected_paths@.len() {
                selected@ == old.selected_paths@[ko]@ && root@ == old.root_path@
            } else {
                0 <= kn < new.selected_paths@.len() && selected@ == new.selected_paths@[kn]@ && root@ == new.root_path@
            }
        },
{
    let report = diff_snapshots(old, new)?;
    proof {
        lemma_snapshot_changes_fit(
            store_path_views(old.closure_paths@),
            store_path_views(new.closure_paths@),
            store_path_views(old.selected_paths@),
            store_path_views(new.selected_paths@),
        );
    }
    let count = report.diffs.len();
    match render_path_diffs(&report.diffs) {
        None => Ok(None),
        Some(listing) => {
            let mut out: Vec<Segment> = Vec::new();
            push_text(&mut out, "\n", Style::Plain);
            let ghost first = seg_views(out@);
            crate::render::push_segments(&mut out, listing);
            proof {
                reveal_strlit("\n");
                assert("\n"@ =~= seq!['\n']);
                assert(first =~= seq![(seq!['\n'], Style::Plain)]);
            }
            Ok(Some((count, out)))
        },
    }
}

} // verus!
