//! Detached closure snapshots and the package diff report of two of them.
use vstd::prelude::*;
use crate::engine::{scan_from, lemma_scan_from, version_after};
use crate::paths::{
    StorePath, Diff, DiffStatus, PathDiffView, PathEntryView, version_views, path_diff_views, path_diffs,
    path_entries, store_path_views, system_names, lists_fit, collect_path_versions, collect_system_names,
    generate_diffs_from_paths, add_selection_status, entry_views,
};
use crate::report::{selection_of, text_views};
use crate::text::{str_order, chars_of, range_order, lemma_str_order_antisymmetric, lemma_str_order_transitive};
use crate::version::{Version, version_order, numbers_fit, lemma_version_order_total};

verus! {

/// Whether the version at entry `k` orders after `x`.
pub open spec fn version_after_at(list: Seq<Seq<char>>, x: Seq<char>) -> spec_fn(int) -> bool {
    |k: int| version_order(list[k], x) > 0
}

/// Inserts `x` before the first version that orders after it.
pub open spec fn insert_sorted(list: Seq<Seq<char>>, x: Seq<char>) -> Seq<Seq<char>> {
    list.insert(scan_from(version_after_at(list, x), 0, list.len() as int), x)
}

/// Versions sorted by version order, equal ones keeping their order.
pub open spec fn sort_versions(vs: Seq<Seq<char>>) -> Seq<Seq<char>>
    decreases vs.len(),
{
    if vs.len() == 0 {
        Seq::empty()
    } else {
        insert_sorted(sort_versions(vs.drop_last()), vs.last())
    }
}

/// Sorts a list of versions by version order, keeping equal ones in order.
pub fn sort_version_list(vs: Vec<Version>) -> (r: Vec<Version>)
    ensures
        version_views(r@) == sort_versions(version_views(vs@)),
{
    let ghost all = version_views(vs@);
    let total = vs.len();
    let mut rest = vs;
    let mut sorted: Vec<Version> = Vec::new();
    let mut k: usize = 0;
    proof {
        assert(version_views(sorted@) =~= sort_versions(all.take(0)));
        assert(version_views(rest@) =~= all.skip(0));
    }
    while rest.len() > 0
        invariant
            all.len() == total,
            all.len() == k + rest@.len(),
            version_views(rest@) == all.skip(k as int),
            version_views(sorted@) == sort_versions(all.take(k as int)),
        decreases rest@.len(),
    {
        let ghost before = rest@;
        let v = rest.remove(0);
        let ghost list = version_views(sorted@);
        proof {
            assert(version_views(before)[0] == all.skip(k as int)[0]);
            assert(version_views(rest@) =~= version_views(before).drop_first());
            assert(v@ == all[k as int]);
            assert(version_views(rest@) =~= all.skip(k + 1));
            assert(all.take(k + 1).drop_last() =~= all.take(k as int));
            assert(all.take(k + 1).last() == v@);
        }
        let mut p: usize = 0;
        while p < sorted.len()
            invariant
                list == version_views(sorted@),
                p <= list.len(),
                scan_from(version_after_at(list, v@), 0, list.len() as int)
                    == scan_from(version_after_at(list, v@), p as int, list.len() as int),
            ensures
                p <= list.len(),
                scan_from(version_after_at(list, v@), 0, list.len() as int) == p,
            decreases list.len() - p,
        {
            if version_after(&sorted[p], &v) {
                break;
            }
            p = p + 1;
        }
        sorted.insert(p, v);
        proof {
            assert(version_views(sorted@) =~= list.insert(p as int, v@));
        }
        k = k + 1;
    }
    proof {
        assert(all.take(k as int) =~= all);
    }
    sorted
}

/// Whether change `k` sorts after `x`: by status rank, then by name.
pub open spec fn diff_after_at(list: Seq<PathDiffView>, x: PathDiffView) -> spec_fn(int) -> bool {
    |k: int| list[k].status.rank() > x.status.rank() || (list[k].status.rank() == x.status.rank() && str_order(list[k].name, x.name) > 0)
}

/// Inserts `x` before the first change that sorts after it.
pub open spec fn insert_diff(list: Seq<PathDiffView>, x: PathDiffView) -> Seq<PathDiffView> {
    list.insert(scan_from(diff_after_at(list, x), 0, list.len() as int), x)
}

/// Changes sorted by status (changed, added, removed), then by name.
pub open spec fn sort_diffs(ds: Seq<PathDiffView>) -> Seq<PathDiffView>
    decreases ds.len(),
{
    if ds.len() == 0 {
        Seq::empty()
    } else {
        insert_diff(sort_diffs(ds.drop_last()), ds.last())
    }
}

/// Whether text `a` orders after text `b`.
fn text_after(a: &str, b: &str) -> (r: bool)
    ensures
        r == (str_order(a@, b@) > 0),
{
    let x = chars_of(a);
    let y = chars_of(b);
    assert(x@.subrange(0, x@.len() as int) =~= x@);
    assert(y@.subrange(0, y@.len() as int) =~= y@);
    range_order(&x, 0, x.len(), &y, 0, y.len()) > 0
}

/// Whether change `a` sorts after change `b`.
fn diff_sorts_after(a: &Diff, b: &Diff) -> (r: bool)
    ensures
        r == (a@.status.rank() > b@.status.rank() || (a@.status.rank() == b@.status.rank() && str_order(a@.name, b@.name) > 0)),
{
    if a.status.sorts_after(&b.status) {
        true
    } else if a.status.sorts_with(&b.status) {
        text_after(a.name.as_str(), b.name.as_str())
    } else {
        false
    }
}

/// Sorts changes by status (changed, added, removed), then by name.
pub fn sort_diff_list(ds: Vec<Diff>) -> (r: Vec<Diff>)
    ensures
        path_diff_views(r@) == sort_diffs(path_diff_views(ds@)),
{
    let ghost all = path_diff_views(ds@);
    let total = ds.len();
    let mut rest = ds;
    let mut sorted: Vec<Diff> = Vec::new();
    let mut k: usize = 0;
    proof {
        assert(path_diff_views(sorted@) =~= sort_diffs(all.take(0)));
        assert(path_diff_views(rest@) =~= all.skip(0));
    }
    while rest.len() > 0
        invariant
            all.len() == total,
            all.len() == k + rest@.len(),
            path_diff_views(rest@) == all.skip(k as int),
            path_diff_views(sorted@) == sort_diffs(all.take(k as int)),
        decreases rest@.len(),
    {
        let ghost before = rest@;
        let d = rest.remove(0);
        let ghost list = path_diff_views(sorted@);
        proof {
            assert(path_diff_views(before)[0] == all.skip(k as int)[0]);
            assert(path_diff_views(rest@) =~= path_diff_views(before).drop_first());
            assert(d@ == all[k as int]);
            assert(path_diff_views(rest@) =~= all.skip(k + 1));
            assert(all.take(k + 1).drop_last() =~= all.take(k as int));
            assert(all.take(k + 1).last() == d@);
        }
        let mut p: usize = 0;
        while p < sorted.len()
            invariant
                list == path_diff_views(sorted@),
                p <= list.len(),
                scan_from(diff_after_at(list, d@), 0, list.len() as int)
                    == scan_from(diff_after_at(list, d@), p as int, list.len() as int),
            ensures
                p <= list.len(),
                scan_from(diff_after_at(list, d@), 0, list.len() as int) == p,
            decreases list.len() - p,
        {
            if diff_sorts_after(&sorted[p], &d) {
                break;
            }
            p = p + 1;
        }
        let ghost dv = d@;
        sorted.insert(p, d);
        proof {
            assert(path_diff_views(sorted@) =~= list.insert(p as int, dv));
        }
        k = k + 1;
    }
    proof {
        assert(all.take(k as int) =~= all);
    }
    sorted
}

/// A closure snapshot gathered from a store and detached from it.
#[derive(Debug, Clone, PartialEq, Eq)]
pub struct ClosureSnapshot {
    /// Root path the snapshot was gathered from.
    pub root_path: StorePath,
    /// Total transitive closure size in bytes.
    pub closure_size_bytes: i64,
    /// All store paths in the transitive closure of the root.
    pub closure_paths: Vec<StorePath>,
    /// Directly selected system package paths.
    pub selected_paths: Vec<StorePath>,
}

/// The package diff report of two closure snapshots.
#[derive(Debug, PartialEq, Eq)]
pub struct SnapshotDiffReport {
    /// Package changes.
    pub diffs: Vec<Diff>,
    /// Old closure size in bytes.
    pub size_old: i64,
    /// New closure size in bytes.
    pub size_new: i64,
}

/// Why a snapshot was refused.
#[derive(Debug, Clone, PartialEq, Eq)]
pub enum SnapshotError {
    /// A selected path is not in the snapshot's closure.
    SelectedOutsideClosure { selected: String, root: String },
}

impl SnapshotError {
    /// The error as a message.
    pub fn to_string(&self) -> (s: String)
        ensures
            match self {
                SnapshotError::SelectedOutsideClosure { selected, root } => s@ == "selected path '"@ + selected@
                    + "' is not present in closure snapshot for '"@ + root@ + "'"@,
            },
    {
        match self {
            SnapshotError::SelectedOutsideClosure { selected, root } => {
                let mut s = String::from_str("selected path '");
                s.append(selected.as_str());
                s.append("' is not present in closure snapshot for '");
                s.append(root.as_str());
                s.append("'");
                s
            },
        }
    }
}

/// Whether selected path `k` lies outside the closure.
pub open spec fn outside_closure_at(selected: Seq<Seq<char>>, closure: Seq<Seq<char>>) -> spec_fn(int) -> bool {
    |k: int| !closure.contains(selected[k])
}

/// The first selected path outside the closure, or `selected.len()`.
pub open spec fn first_outside(selected: Seq<Seq<char>>, closure: Seq<Seq<char>>) -> int {
    scan_from(outside_closure_at(selected, closure), 0, selected.len() as int)
}

/// Whether `p` occurs among `paths`, by text.
fn contains_path(paths: &Vec<StorePath>, p: &StorePath) -> (r: bool)
    ensures
        r == store_path_views(paths@).contains(p@),
{
    let mut k: usize = 0;
    while k < paths.len()
        invariant
            k <= paths@.len(),
            forall|j: int| 0 <= j < k ==> paths@[j]@ != p@,
        decreases paths@.len() - k,
    {
        if text_equal(paths[k].as_str(), p.as_str()) {
            proof {
                assert(store_path_views(paths@)[k as int] == p@);
            }
            return true;
        }
        k = k + 1;
    }
    proof {
        if store_path_views(paths@).contains(p@) {
            let j = choose|j: int| 0 <= j < paths@.len() && store_path_views(paths@)[j] == p@;
            assert(paths@[j]@ == p@);
        }
    }
    false
}

/// Whether two texts are equal.
fn text_equal(a: &str, b: &str) -> (r: bool)
    ensures
        r == (a@ == b@),
{
    let x = chars_of(a);
    let y = chars_of(b);
    assert(x@.subrange(0, x@.len() as int) =~= x@);
    assert(y@.subrange(0, y@.len() as int) =~= y@);
    let o = range_order(&x, 0, x.len(), &y, 0, y.len());
    proof {
        crate::text::lemma_str_order_zero_iff_equal(a@, b@);
    }
    o == 0
}

/// Checks that every selected path of a snapshot is in its closure.
pub fn validate_snapshot(snapshot: &ClosureSnapshot) -> (r: Result<(), SnapshotError>)
    ensures
        r is Ok <==> first_outside(store_path_views(snapshot.selected_paths@), store_path_views(snapshot.closure_paths@))
            == snapshot.selected_paths@.len(),
        r matches Err(SnapshotError::SelectedOutsideClosure { selected, root }) ==> {
            let k = first_outside(store_path_views(snapshot.selected_paths@), store_path_views(snapshot.closure_paths@));
            &&& 0 <= k < snapshot.selected_paths@.len()
            &&& selected@ == snapshot.selected_paths@[k]@
            &&& root@ == snapshot.root_path@
        },
{
    let ghost sel = store_path_views(snapshot.selected_paths@);
    let ghost clo = store_path_views(snapshot.closure_paths@);
    proof {
        lemma_scan_from(outside_closure_at(sel, clo), 0, sel.len() as int);
    }
    let mut k: usize = 0;
    while k < snapshot.selected_paths.len()
        invariant
            sel == store_path_views(snapshot.selected_paths@),
            clo == store_path_views(snapshot.closure_paths@),
            k <= sel.len(),
            scan_from(outside_closure_at(sel, clo), 0, sel.len() as int) == scan_from(outside_closure_at(sel, clo), k as int, sel.len() as int),
        decreases sel.len() - k,
    {
        if !contains_path(&snapshot.closure_paths, &snapshot.selected_paths[k]) {
            proof {
                assert(sel[k as int] == snapshot.selected_paths@[k as int]@);
            }
            return Err(SnapshotError::SelectedOutsideClosure {
                selected: String::from_str(snapshot.selected_paths[k].as_str()),
                root: String::from_str(snapshot.root_path.as_str()),
            });
        }
        proof {
            assert(sel[k as int] == snapshot.selected_paths@[k as int]@);
        }
        k = k + 1;
    }
    Ok(())
}

/// The package changes of two closures: the changes of their store paths
/// with versions sorted, selection status from the selected paths, sorted
/// by status and name.
pub open spec fn snapshot_changes(
    old_closure: Seq<Seq<char>>,
    new_closure: Seq<Seq<char>>,
    old_selected: Seq<Seq<char>>,
    new_selected: Seq<Seq<char>>,
) -> Seq<PathDiffView> {
    let ds = path_diffs(path_entries(old_closure, new_closure));
    let prepared = ds.map_values(|d: PathDiffView| PathDiffView {
        old: sort_versions(d.old),
        new: sort_versions(d.new),
        selection: selection_of(system_names(old_selected).contains(d.name), system_names(new_selected).contains(d.name)),
        ..d
    });
    sort_diffs(prepared)
}

/// Whether every package's versions of two closures fit the version
/// matching's weights.
pub open spec fn closures_fit(old_closure: Seq<Seq<char>>, new_closure: Seq<Seq<char>>) -> bool {
    forall|k: int| 0 <= k < path_entries(old_closure, new_closure).len() ==> lists_fit(
        #[trigger] path_entries(old_closure, new_closure)[k].old,
        path_entries(old_closure, new_closure)[k].new,
    )
}

/// The package diff report of two closure snapshots, after checking that
/// each snapshot's selected paths lie in its closure.
pub fn diff_snapshots(old: &ClosureSnapshot, new: &ClosureSnapshot) -> (r: Result<SnapshotDiffReport, SnapshotError>)
    requires
        closures_fit(store_path_views(old.closure_paths@), store_path_views(new.closure_paths@)),
    ensures
        r is Ok <==> first_outside(store_path_views(old.selected_paths@), store_path_views(old.closure_paths@))
            == old.selected_paths@.len() && first_outside(store_path_views(new.selected_paths@), store_path_views(new.closure_paths@))
            == new.selected_paths@.len(),
        r matches Err(SnapshotError::SelectedOutsideClosure { selected, root }) ==> {
            let ko = first_outside(store_path_views(old.selected_paths@), store_path_views(old.closure_paths@));
            let kn = first_outside(store_path_views(new.selected_paths@), store_path_views(new.closure_paths@));
            if ko < old.selected_paths@.len() {
                selected@ == old.selected_paths@[ko]@ && root@ == old.root_path@
            } else {
                0 <= kn < new.selected_paths@.len() && selected@ == new.selected_paths@[kn]@ && root@ == new.root_path@
            }
        },
        r matches Ok(report) ==> {
            &&& report.size_old == old.closure_size_bytes
            &&& report.size_new == new.closure_size_bytes
            &&& path_diff_views(report.diffs@) == snapshot_changes(
                store_path_views(old.closure_paths@),
                store_path_views(new.closure_paths@),
                store_path_views(old.selected_paths@),
                store_path_views(new.selected_paths@),
            )
        },
{
    validate_snapshot(old)?;
    validate_snapshot(new)?;
    let entries = collect_path_versions(old.closure_paths.as_slice(), new.closure_paths.as_slice());
    let sys_old = collect_system_names(old.selected_paths.as_slice());
    let sys_new = collect_system_names(new.selected_paths.as_slice());
    let mut diffs = generate_diffs_from_paths(entries);
    let ghost ds = path_diff_views(diffs@);
    let ghost so = system_names(store_path_views(old.selected_paths@));
    let ghost sn = system_names(store_path_views(new.selected_paths@));
    let mut prepared: Vec<Diff> = Vec::new();
    let mut k: usize = 0;
    let total = diffs.len();
    proof {
        assert(path_diff_views(diffs@) =~= ds.skip(0));
    }
    while diffs.len() > 0
        invariant
            ds.len() == total,
            ds.len() == k + diffs@.len(),
            path_diff_views(diffs@) == ds.skip(k as int),
            prepared@.len() == k,
            forall|j: int| 0 <= j < k ==> (#[trigger] prepared@[j])@ == (PathDiffView {
                old: sort_versions(ds[j].old),
                new: sort_versions(ds[j].new),
                ..ds[j]
            }),
        decreases diffs@.len(),
    {
        let ghost before = diffs@;
        let d = diffs.remove(0);
        proof {
            assert(path_diff_views(before)[0] == ds.skip(k as int)[0]);
            assert(path_diff_views(diffs@) =~= path_diff_views(before).drop_first());
            assert(d@ == ds[k as int]);
            assert(path_diff_views(diffs@) =~= ds.skip(k + 1));
        }
        let Diff { name, old: old_versions, new: new_versions, status, selection, has_common_versions } = d;
        let new_sorted = sort_version_list(new_versions);
        let old_sorted = sort_version_list(old_versions);
        prepared.push(Diff { name, old: old_sorted, new: new_sorted, status, selection, has_common_versions });
        k = k + 1;
    }
    let ghost pv = path_diff_views(prepared@);
    add_selection_status(&mut prepared, &sys_old, &sys_new);
    let sorted = sort_diff_list(prepared);
    proof {
        let expected = ds.map_values(|d: PathDiffView| PathDiffView {
            old: sort_versions(d.old),
            new: sort_versions(d.new),
            selection: selection_of(so.contains(d.name), sn.contains(d.name)),
            ..d
        });
        assert(text_views(sys_old@).to_set() == so);
        assert(text_views(sys_new@).to_set() == sn);
        assert(path_diff_views(prepared@) =~= expected) by {
            assert forall|j: int| 0 <= j < expected.len() implies path_diff_views(prepared@)[j] == expected[j] by {
                assert(pv[j] == (PathDiffView { old: sort_versions(ds[j].old), new: sort_versions(ds[j].new), ..ds[j] }));
                assert(so.contains(ds[j].name) == text_views(sys_old@).contains(ds[j].name));
                assert(sn.contains(ds[j].name) == text_views(sys_new@).contains(ds[j].name));
            }
        }
    }
    Ok(SnapshotDiffReport { diffs: sorted, size_old: old.closure_size_bytes, size_new: new.closure_size_bytes })
}

/// A closure snapshot compared with itself shows no package change.
pub proof fn lemma_identical_closures_unchanged(closure: Seq<Seq<char>>, selected: Seq<Seq<char>>)
    ensures
        snapshot_changes(closure, closure, selected, selected) == Seq::<PathDiffView>::empty(),
{
    crate::paths::lemma_identical_paths_unchanged(closure);
    let ds = path_diffs(path_entries(closure, closure));
    let prepared = ds.map_values(|d: PathDiffView| PathDiffView {
        old: sort_versions(d.old),
        new: sort_versions(d.new),
        selection: selection_of(system_names(selected).contains(d.name), system_names(selected).contains(d.name)),
        ..d
    });
    assert(prepared =~= Seq::<PathDiffView>::empty());
}

/// Whether a version's components times `factor` stay within `i32::MAX`.
fn components_fit(v: &Version, factor: u128) -> (r: bool)
    requires
        factor <= 0x3_0000_0000_0000_0000,
    ensures
        r == (crate::version::comp_views(v@).len() * factor <= i32::MAX),
{
    let comps = v.components();
    let n = comps.len() as u128;
    proof {
        assert(comps@.map_values(|c: crate::version::VersionComponent| c@).len() == comps@.len());
        assert(n == crate::version::comp_views(v@).len());
    }
    if n > 2147483647 {
        if factor == 0 {
            return true;
        }
        proof {
            assert(n * factor >= n) by (nonlinear_arith)
                requires
                    factor >= 1,
                    n >= 0,
            ;
        }
        return false;
    }
    proof {
        assert(n * factor <= 2147483647 * 0x3_0000_0000_0000_0000) by (nonlinear_arith)
            requires
                n <= 2147483647,
                factor <= 0x3_0000_0000_0000_0000,
        ;
    }
    n * factor <= 2147483647
}

/// Whether the component lists of two lists of versions are short enough
/// for the version matching's weights.
pub fn lists_fit_check(from: &[Version], to: &[Version]) -> (r: bool)
    ensures
        r == lists_fit(version_views(from@), version_views(to@)),
{
    let ghost fv = version_views(from@);
    let ghost tv = version_views(to@);
    let ghost f = fv.len() + tv.len() + 2;
    let factor: u128 = (from.len() as u128) + (to.len() as u128) + 2;
    let mut i: usize = 0;
    while i < from.len()
        invariant
            fv == version_views(from@),
            tv == version_views(to@),
            f == fv.len() + tv.len() + 2,
            factor == f,
            factor <= 0x3_0000_0000_0000_0000,
            i <= fv.len(),
            forall|k: int| 0 <= k < i ==> crate::version::comp_views(#[trigger] fv[k]).len() * f <= i32::MAX,
        decreases fv.len() - i,
    {
        proof {
            assert(fv[i as int] == from@[i as int]@);
        }
        if !components_fit(&from[i], factor) {
            proof {
                assert(crate::version::comp_views(fv[i as int]).len() * f > i32::MAX);
                assert(!lists_fit(fv, tv));
            }
            return false;
        }
        i = i + 1;
    }
    let mut j: usize = 0;
    while j < to.len()
        invariant
            fv == version_views(from@),
            tv == version_views(to@),
            f == fv.len() + tv.len() + 2,
            factor == f,
            factor <= 0x3_0000_0000_0000_0000,
            j <= tv.len(),
            forall|k: int| 0 <= k < fv.len() ==> crate::version::comp_views(#[trigger] fv[k]).len() * f <= i32::MAX,
            forall|k: int| 0 <= k < j ==> crate::version::comp_views(#[trigger] tv[k]).len() * f <= i32::MAX,
        decreases tv.len() - j,
    {
        proof {
            assert(tv[j as int] == to@[j as int]@);
        }
        if !components_fit(&to[j], factor) {
            return false;
        }
        j = j + 1;
    }
    true
}

/// Whether every package's versions of two lists of store paths fit the
/// version matching's weights.
pub fn closures_fit_check(old: &[StorePath], new: &[StorePath]) -> (r: bool)
    ensures
        r == closures_fit(store_path_views(old@), store_path_views(new@)),
{
    let entries = collect_path_versions(old, new);
    let ghost es = path_entries(store_path_views(old@), store_path_views(new@));
    let mut k: usize = 0;
    while k < entries.len()
        invariant
            entry_views(entries@) == es,
            es == path_entries(store_path_views(old@), store_path_views(new@)),
            k <= es.len(),
            forall|t: int| 0 <= t < k ==> lists_fit(#[trigger] es[t].old, es[t].new),
        decreases es.len() - k,
    {
        proof {
            assert(es[k as int].old == version_views(entries@[k as int].1@));
            assert(es[k as int].new == version_views(entries@[k as int].2@));
        }
        if !lists_fit_check(entries[k].1.as_slice(), entries[k].2.as_slice()) {
            return false;
        }
        k = k + 1;
    }
    true
}

/// Whether change `a` may stand before change `b`: a lower status rank,
/// or the same rank and a name that does not order after.
pub open spec fn diff_le(a: PathDiffView, b: PathDiffView) -> bool {
    a.status.rank() < b.status.rank() || (a.status.rank() == b.status.rank() && str_order(a.name, b.name) <= 0)
}

/// Whether changes are sorted by status rank, then by name.
pub open spec fn diffs_sorted(ds: Seq<PathDiffView>) -> bool {
    forall|i: int, j: int| 0 <= i < j < ds.len() ==> diff_le(#[trigger] ds[i], #[trigger] ds[j])
}

/// A change that sorts after `x` may stand after it.
proof fn lemma_after_le(x: PathDiffView, y: PathDiffView)
    requires
        y.status.rank() > x.status.rank() || (y.status.rank() == x.status.rank() && str_order(y.name, x.name) > 0),
    ensures
        diff_le(x, y),
{
    lemma_str_order_antisymmetric(y.name, x.name);
}

/// A change that follows, in sorted order, one that sorts after `x` sorts
/// after `x` too.
proof fn lemma_after_chain(x: PathDiffView, y: PathDiffView, z: PathDiffView)
    requires
        y.status.rank() > x.status.rank() || (y.status.rank() == x.status.rank() && str_order(y.name, x.name) > 0),
        diff_le(y, z),
    ensures
        z.status.rank() > x.status.rank() || (z.status.rank() == x.status.rank() && str_order(z.name, x.name) > 0),
{
    if z.status.rank() == x.status.rank() && y.status.rank() == x.status.rank() {
        lemma_str_order_antisymmetric(y.name, x.name);
        lemma_str_order_antisymmetric(z.name, x.name);
        crate::text::lemma_str_order_zero_iff_equal(y.name, z.name);
        if str_order(y.name, z.name) < 0 {
            lemma_str_order_transitive(x.name, y.name, z.name);
        }
    }
}

/// Inserting a change into sorted changes keeps them sorted.
proof fn lemma_insert_diff_sorted(list: Seq<PathDiffView>, x: PathDiffView)
    requires
        diffs_sorted(list),
    ensures
        diffs_sorted(insert_diff(list, x)),
{
    let n = list.len() as int;
    let pos = scan_from(diff_after_at(list, x), 0, n);
    lemma_scan_from(diff_after_at(list, x), 0, n);
    let r = insert_diff(list, x);
    assert(r == list.insert(pos, x));
    assert forall|j: int| pos <= j < n implies (#[trigger] list[j]).status.rank() > x.status.rank()
        || (list[j].status.rank() == x.status.rank() && str_order(list[j].name, x.name) > 0) by {
        assert(diff_after_at(list, x)(pos));
        if j > pos {
            assert(diff_le(list[pos], list[j]));
            lemma_after_chain(x, list[pos], list[j]);
        }
    }
    assert forall|i: int, j: int| 0 <= i < j < r.len() implies diff_le(#[trigger] r[i], #[trigger] r[j]) by {
        if j < pos {
            assert(r[i] == list[i] && r[j] == list[j]);
        } else if j == pos {
            assert(r[i] == list[i]);
            assert(!diff_after_at(list, x)(i));
            crate::text::lemma_str_order_zero_iff_equal(list[i].name, x.name);
        } else if i == pos {
            assert(r[j] == list[j - 1]);
            lemma_after_le(x, list[j - 1]);
        } else if i < pos {
            assert(r[i] == list[i] && r[j] == list[j - 1]);
        } else {
            assert(r[i] == list[i - 1] && r[j] == list[j - 1]);
        }
    }
}

/// Sorted changes are sorted by status rank (changed, added, removed),
/// then by name.
pub proof fn lemma_sort_diffs_sorted(ds: Seq<PathDiffView>)
    ensures
        diffs_sorted(sort_diffs(ds)),
    decreases ds.len(),
{
    if ds.len() > 0 {
        lemma_sort_diffs_sorted(ds.drop_last());
        lemma_insert_diff_sorted(sort_diffs(ds.drop_last()), ds.last());
    }
}

/// Sorting versions keeps each version: the sorted list is as long, and
/// every sorted version is one of the given versions.
pub(crate) proof fn lemma_sort_versions_members(vs: Seq<Seq<char>>)
    ensures
        sort_versions(vs).len() == vs.len(),
        forall|x: Seq<char>| sort_versions(vs).contains(x) ==> vs.contains(x),
    decreases vs.len(),
{
    if vs.len() > 0 {
        let rest = vs.drop_last();
        lemma_sort_versions_members(rest);
        let prev = sort_versions(rest);
        let x = vs.last();
        let pos = scan_from(version_after_at(prev, x), 0, prev.len() as int);
        lemma_scan_from(version_after_at(prev, x), 0, prev.len() as int);
        let ins = prev.insert(pos, x);
        assert(sort_versions(vs) == ins);
        assert forall|y: Seq<char>| sort_versions(vs).contains(y) implies vs.contains(y) by {
            let j = choose|j: int| 0 <= j < ins.len() && ins[j] == y;
            if j == pos {
                assert(vs[vs.len() - 1] == y);
            } else {
                let t = if j < pos { j } else { j - 1 };
                assert(ins[j] == prev[t]);
                assert(prev.contains(y));
                assert(rest.contains(y));
                let u = choose|u: int| 0 <= u < rest.len() && rest[u] == y;
                assert(vs[u] == y);
            }
        }
    }
}

/// Whether versions are in version order.
pub open spec fn versions_sorted(vs: Seq<Seq<char>>) -> bool {
    forall|i: int, j: int| 0 <= i < j < vs.len() ==> version_order(#[trigger] vs[i], #[trigger] vs[j]) <= 0
}

/// Whether every version's numeric components fit in `u64`.
pub open spec fn all_numbers_fit(vs: Seq<Seq<char>>) -> bool {
    forall|k: int| 0 <= k < vs.len() ==> numbers_fit(#[trigger] vs[k])
}

/// Inserting a version into sorted versions keeps them sorted, where all
/// numeric components fit in `u64`.
proof fn lemma_insert_sorted_sorted(list: Seq<Seq<char>>, x: Seq<char>)
    requires
        versions_sorted(list),
        all_numbers_fit(list),
        numbers_fit(x),
    ensures
        versions_sorted(insert_sorted(list, x)),
{
    let n = list.len() as int;
    let pos = scan_from(version_after_at(list, x), 0, n);
    lemma_scan_from(version_after_at(list, x), 0, n);
    let r = insert_sorted(list, x);
    assert(r == list.insert(pos, x));
    assert forall|j: int| pos <= j < n implies version_order(#[trigger] list[j], x) > 0 by {
        assert(version_after_at(list, x)(pos));
        if j > pos {
            assert(version_order(list[pos], list[j]) <= 0);
            assert(numbers_fit(list[pos]) && numbers_fit(list[j]));
            lemma_version_order_total(x, list[pos], list[j]);
            lemma_version_order_total(list[j], x, list[pos]);
            lemma_version_order_total(list[pos], list[j], x);
            if list[pos] == list[j] {
            } else {
                assert(version_order(x, list[pos]) < 0);
                assert(version_order(list[pos], list[j]) < 0);
            }
        }
    }
    assert forall|i: int, j: int| 0 <= i < j < r.len() implies version_order(#[trigger] r[i], #[trigger] r[j]) <= 0 by {
        if j < pos {
            assert(r[i] == list[i] && r[j] == list[j]);
        } else if j == pos {
            assert(r[i] == list[i]);
            assert(!version_after_at(list, x)(i));
        } else if i == pos {
            assert(r[j] == list[j - 1]);
            lemma_version_order_total(x, list[j - 1], x);
        } else if i < pos {
            assert(r[i] == list[i] && r[j] == list[j - 1]);
        } else {
            assert(r[i] == list[i - 1] && r[j] == list[j - 1]);
        }
    }
}

/// Versions whose numeric components fit in `u64` come out of the sort in
/// version order.
pub proof fn lemma_sort_versions_sorted(vs: Seq<Seq<char>>)
    requires
        all_numbers_fit(vs),
    ensures
        versions_sorted(sort_versions(vs)),
    decreases vs.len(),
{
    if vs.len() > 0 {
        let rest = vs.drop_last();
        assert forall|k: int| 0 <= k < rest.len() implies numbers_fit(#[trigger] rest[k]) by {
            assert(rest[k] == vs[k]);
        }
        lemma_sort_versions_sorted(rest);
        lemma_sort_versions_members(rest);
        let prev = sort_versions(rest);
        assert forall|k: int| 0 <= k < prev.len() implies numbers_fit(#[trigger] prev[k]) by {
            assert(prev.contains(prev[k]));
            assert(rest.contains(prev[k]));
            let u = choose|u: int| 0 <= u < rest.len() && rest[u] == prev[k];
            assert(numbers_fit(rest[u]));
        }
        assert(numbers_fit(vs[vs.len() - 1]));
        lemma_insert_sorted_sorted(prev, vs.last());
    }
}

} // verus!
