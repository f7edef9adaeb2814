//! The package diff engine: groups the packages of two closures by name,
//! counts their versions, pairs the versions that changed and classifies
//! each package change.
use vstd::prelude::*;
use std::cmp::Ordering;
use crate::text::{str_order, chars_of, range_order, lemma_str_order_zero_iff_equal, lemma_str_order_antisymmetric, lemma_str_order_transitive};
use crate::version::{Version, version_order, ordering_of};
use crate::version::{change_order, VersionChangeOrdering, Order};
use crate::model::{VersionAmount, VersionDiff, VersionDiffView, Diff, DiffView, DiffStatus, copy_version};
use crate::package::{Package, PackageSnapshot};
use crate::edit::views;
use crate::matching::{PairIndex, Pairing, pair_indices, pairing_refers, match_version_amounts};

verus! {

/// The first index in `i..n` at which `p` holds, or `n`.
pub open spec fn scan_from(p: spec_fn(int) -> bool, i: int, n: int) -> int
    decreases n - i,
{
    if i >= n {
        n
    } else if p(i) {
        i
    } else {
        scan_from(p, i + 1, n)
    }
}

pub proof fn lemma_scan_from(p: spec_fn(int) -> bool, i: int, n: int)
    requires
        i <= n,
    ensures
        i <= scan_from(p, i, n) <= n,
        forall|j: int| i <= j < scan_from(p, i, n) ==> !#[trigger] p(j),
        scan_from(p, i, n) < n ==> p(scan_from(p, i, n)),
    decreases n - i,
{
    if i < n && !p(i) {
        lemma_scan_from(p, i + 1, n);
    }
}

/// Whether entry `k` is version `v`.
pub open spec fn is_version_at(entries: Seq<(Seq<char>, nat)>, v: Seq<char>) -> spec_fn(int) -> bool {
    |k: int| entries[k].0 == v
}

/// Whether entry `k` orders after version `v`.
pub open spec fn orders_after_at(entries: Seq<(Seq<char>, nat)>, v: Seq<char>) -> spec_fn(int) -> bool {
    |k: int| version_order(entries[k].0, v) > 0
}

/// Where version `v` stands among `entries`, or `entries.len()`.
pub open spec fn version_index(entries: Seq<(Seq<char>, nat)>, v: Seq<char>) -> int {
    scan_from(is_version_at(entries, v), 0, entries.len() as int)
}

/// The first entry that orders after `v`, or `entries.len()`.
pub open spec fn version_position(entries: Seq<(Seq<char>, nat)>, v: Seq<char>) -> int {
    scan_from(orders_after_at(entries, v), 0, entries.len() as int)
}

/// Counts one more occurrence of version `v`: its amount grows by one, or it
/// is inserted with amount one before the first entry that orders after it.
pub open spec fn insert_version(entries: Seq<(Seq<char>, nat)>, v: Seq<char>) -> Seq<(Seq<char>, nat)> {
    let k = version_index(entries, v);
    if k < entries.len() {
        entries.update(k, (v, entries[k].1 + 1))
    } else {
        entries.insert(version_position(entries, v), (v, 1nat))
    }
}

/// All amounts are between one and `b`, and there are at most `b` entries.
pub open spec fn amounts_within(entries: Seq<(Seq<char>, nat)>, b: int) -> bool {
    &&& entries.len() <= b
    &&& forall|k: int| 0 <= k < entries.len() ==> 1 <= (#[trigger] entries[k]).1 <= b
}

pub proof fn lemma_insert_version_within(entries: Seq<(Seq<char>, nat)>, v: Seq<char>, b: int)
    requires
        amounts_within(entries, b),
    ensures
        amounts_within(insert_version(entries, v), b + 1),
{
    lemma_scan_from(is_version_at(entries, v), 0, entries.len() as int);
    lemma_scan_from(orders_after_at(entries, v), 0, entries.len() as int);
    let r = insert_version(entries, v);
    let k = version_index(entries, v);
    if k >= entries.len() {
        let p = version_position(entries, v);
        assert forall|j: int| 0 <= j < r.len() implies 1 <= (#[trigger] r[j]).1 <= b + 1 by {
            if j < p {
                assert(r[j] == entries[j]);
            } else if j > p {
                assert(r[j] == entries[j - 1]);
            }
        }
    }
}

/// Whether two versions have the same text.
fn same_version(a: &Version, b: &Version) -> (r: bool)
    ensures
        r == (a@ == b@),
{
    a.name == b.name
}

/// Whether `a` orders after `b`.
pub fn version_after(a: &Version, b: &Version) -> (r: bool)
    ensures
        r == (version_order(a@, b@) > 0),
{
    match a.cmp(b) {
        Ordering::Greater => true,
        _ => false,
    }
}

/// The versions of one side of a package, each with its amount, ordered.
pub struct VersionAmounts {
    entries: Vec<VersionAmount>,
}

impl View for VersionAmounts {
    type V = Seq<(Seq<char>, nat)>;

    closed spec fn view(&self) -> Seq<(Seq<char>, nat)> {
        self.entries@.map_values(|a: VersionAmount| a@)
    }
}

impl VersionAmounts {
    pub fn new() -> (r: VersionAmounts)
        ensures
            r@ == Seq::<(Seq<char>, nat)>::empty(),
    {
        let r = VersionAmounts { entries: Vec::new() };
        assert(r@ =~= Seq::<(Seq<char>, nat)>::empty());
        r
    }

    pub fn len(&self) -> (n: usize)
        ensures
            n == self@.len(),
    {
        self.entries.len()
    }

    pub fn is_empty(&self) -> (r: bool)
        ensures
            r == (self@.len() == 0),
    {
        self.entries.len() == 0
    }

    /// The entry at index `k`.
    pub fn entry(&self, k: usize) -> (a: &VersionAmount)
        requires
            k < self@.len(),
        ensures
            a@ == self@[k as int],
    {
        &self.entries[k]
    }

    /// The index of version `v`, or the number of entries.
    pub fn index_of(&self, v: &Version) -> (k: usize)
        ensures
            k == version_index(self@, v@),
    {
        let ghost e = self@;
        proof {
            lemma_scan_from(is_version_at(e, v@), 0, e.len() as int);
        }
        let mut k: usize = 0;
        while k < self.entries.len()
            invariant
                e == self@,
                k <= e.len(),
                scan_from(is_version_at(e, v@), 0, e.len() as int) == scan_from(is_version_at(e, v@), k as int, e.len() as int),
            decreases e.len() - k,
        {
            if same_version(&self.entries[k].version, v) {
                return k;
            }
            k = k + 1;
        }
        k
    }

    /// The amount of version `v`, if it occurs.
    pub fn get(&self, v: &Version) -> (r: Option<usize>)
        ensures
            r is Some <==> version_index(self@, v@) < self@.len(),
            r is Some ==> r->0 == self@[version_index(self@, v@)].1,
    {
        let k = self.index_of(v);
        proof {
            lemma_scan_from(is_version_at(self@, v@), 0, self@.len() as int);
        }
        if k < self.entries.len() {
            Some(self.entries[k].amount)
        } else {
            None
        }
    }

    /// Counts one more occurrence of `version`.
    pub fn add(&mut self, version: Version)
        requires
            forall|k: int| 0 <= k < old(self)@.len() ==> (#[trigger] old(self)@[k]).1 < usize::MAX,
            forall|k: int| 0 <= k < old(self)@.len() ==> (#[trigger] old(self)@[k]).1 >= 1,
        ensures
            final(self)@ == insert_version(old(self)@, version@),
    {
        let ghost e = self@;
        let k = self.index_of(&version);
        proof {
            lemma_scan_from(is_version_at(e, version@), 0, e.len() as int);
            lemma_scan_from(orders_after_at(e, version@), 0, e.len() as int);
        }
        if k < self.entries.len() {
            let amount = self.entries[k].amount;
            proof {
                assert(e[k as int].1 == amount);
            }
            self.entries.set(k, VersionAmount { version, amount: amount + 1 });
            proof {
                assert(self@ =~= e.update(k as int, (version@, e[k as int].1 + 1)));
            }
        } else {
            let mut p: usize = 0;
            while p < self.entries.len()
                invariant
                    e == self@,
                    p <= e.len(),
                    scan_from(orders_after_at(e, version@), 0, e.len() as int)
                        == scan_from(orders_after_at(e, version@), p as int, e.len() as int),
                ensures
                    p <= e.len(),
                    scan_from(orders_after_at(e, version@), 0, e.len() as int) == p,
                decreases e.len() - p,
            {
                if version_after(&self.entries[p].version, &version) {
                    break;
                }
                p = p + 1;
            }
            let ghost pos = p;
            self.entries.insert(p, VersionAmount { version, amount: 1 });
            proof {
                assert(self@ =~= e.insert(pos as int, (version@, 1nat)));
            }
        }
    }
}

/// The versions of one package name in the old and the new closure.
pub ghost struct GroupView {
    pub name: Seq<char>,
    pub old: Seq<(Seq<char>, nat)>,
    pub new: Seq<(Seq<char>, nat)>,
}

/// Whether group `k` has name `name`.
pub open spec fn is_name_at(groups: Seq<GroupView>, name: Seq<char>) -> spec_fn(int) -> bool {
    |k: int| groups[k].name == name
}

/// Whether the name of group `k` orders after `name`.
pub open spec fn name_after_at(groups: Seq<GroupView>, name: Seq<char>) -> spec_fn(int) -> bool {
    |k: int| str_order(groups[k].name, name) > 0
}

/// Where the group of `name` stands, or `groups.len()`.
pub open spec fn name_index(groups: Seq<GroupView>, name: Seq<char>) -> int {
    scan_from(is_name_at(groups, name), 0, groups.len() as int)
}

/// The first group whose name orders after `name`, or `groups.len()`.
pub open spec fn name_position(groups: Seq<GroupView>, name: Seq<char>) -> int {
    scan_from(name_after_at(groups, name), 0, groups.len() as int)
}

/// Counts version `v` into the old or the new side of a group.
pub open spec fn count_into(g: GroupView, v: Seq<char>, is_old: bool) -> GroupView {
    if is_old {
        GroupView { name: g.name, old: insert_version(g.old, v), new: g.new }
    } else {
        GroupView { name: g.name, old: g.old, new: insert_version(g.new, v) }
    }
}

/// Counts a package `(name, version)` into the groups: into its name's
/// group, or into a new group placed before the first name that orders
/// after it.
pub open spec fn add_package(groups: Seq<GroupView>, p: (Seq<char>, Seq<char>), is_old: bool) -> Seq<GroupView> {
    let k = name_index(groups, p.0);
    if k < groups.len() {
        groups.update(k, count_into(groups[k], p.1, is_old))
    } else {
        groups.insert(
            name_position(groups, p.0),
            count_into(GroupView { name: p.0, old: Seq::empty(), new: Seq::empty() }, p.1, is_old),
        )
    }
}

/// Counts a list of packages into the groups, first to last.
pub open spec fn add_packages(groups: Seq<GroupView>, pkgs: Seq<(Seq<char>, Seq<char>)>, is_old: bool) -> Seq<GroupView>
    decreases pkgs.len(),
{
    if pkgs.len() == 0 {
        groups
    } else {
        add_package(add_packages(groups, pkgs.drop_last(), is_old), pkgs.last(), is_old)
    }
}

/// The packages of two closures grouped by name, with the versions of each
/// side counted.
pub open spec fn group_packages(old: Seq<(Seq<char>, Seq<char>)>, new: Seq<(Seq<char>, Seq<char>)>) -> Seq<GroupView> {
    add_packages(add_packages(Seq::empty(), old, true), new, false)
}

/// Every group's old side is within `bo` and its new side within `bn`.
pub open spec fn groups_within(groups: Seq<GroupView>, bo: int, bn: int) -> bool {
    forall|k: int| 0 <= k < groups.len() ==> amounts_within((#[trigger] groups[k]).old, bo) && amounts_within(groups[k].new, bn)
}

pub proof fn lemma_add_package_within(groups: Seq<GroupView>, p: (Seq<char>, Seq<char>), is_old: bool, bo: int, bn: int)
    requires
        bo >= 0,
        bn >= 0,
        groups_within(groups, bo, bn),
    ensures
        groups_within(add_package(groups, p, is_old), if is_old { bo + 1 } else { bo }, if is_old { bn } else { bn + 1 }),
{
    let bo2 = if is_old { bo + 1 } else { bo };
    let bn2 = if is_old { bn } else { bn + 1 };
    lemma_scan_from(is_name_at(groups, p.0), 0, groups.len() as int);
    lemma_scan_from(name_after_at(groups, p.0), 0, groups.len() as int);
    let r = add_package(groups, p, is_old);
    let k = name_index(groups, p.0);
    let e = Seq::<(Seq<char>, nat)>::empty();
    assert forall|j: int| 0 <= j < r.len() implies amounts_within((#[trigger] r[j]).old, bo2) && amounts_within(r[j].new, bn2) by {
        if k < groups.len() {
            if j == k {
                lemma_insert_version_within(groups[k].old, p.1, bo);
                lemma_insert_version_within(groups[k].new, p.1, bn);
            } else {
                assert(r[j] == groups[j]);
            }
        } else {
            let q = name_position(groups, p.0);
            if j == q {
                lemma_insert_version_within(e, p.1, 0);
                assert(amounts_within(e, bo));
                assert(amounts_within(e, bn));
            } else if j < q {
                assert(r[j] == groups[j]);
            } else {
                assert(r[j] == groups[j - 1]);
            }
        }
    }
}

/// Whether text `a` orders after text `b`.
fn text_after(a: &str, b: &str) -> (r: bool)
    ensures
        r == (str_order(a@, b@) > 0),
{
    let x = chars_of(a);
    let y = chars_of(b);
    assert(x@.subrange(0, x@.len() as int) =~= x@);
    assert(y@.subrange(0, y@.len() as int) =~= y@);
    range_order(&x, 0, x.len(), &y, 0, y.len()) > 0
}

/// The versions of one package name in the old and the new closure.
pub struct PackageVersions {
    pub name: String,
    pub old: VersionAmounts,
    pub new: VersionAmounts,
}

impl View for PackageVersions {
    type V = GroupView;

    open spec fn view(&self) -> GroupView {
        GroupView { name: self.name@, old: self.old@, new: self.new@ }
    }
}

/// The views of a list of groups.
pub open spec fn group_views(groups: Seq<PackageVersions>) -> Seq<GroupView> {
    groups.map_values(|g: PackageVersions| g@)
}

/// Counts one package into the groups.
fn add_package_to(groups: &mut Vec<PackageVersions>, package: &Package, is_old: bool, Ghost(bo): Ghost<int>, Ghost(bn): Ghost<int>)
    requires
        0 <= bo < usize::MAX,
        0 <= bn < usize::MAX,
        groups_within(group_views(old(groups)@), bo, bn),
    ensures
        group_views(final(groups)@) == add_package(group_views(old(groups)@), package@, is_old),
{
    let ghost g = group_views(groups@);
    proof {
        lemma_scan_from(is_name_at(g, package@.0), 0, g.len() as int);
        lemma_scan_from(name_after_at(g, package@.0), 0, g.len() as int);
    }
    let mut k: usize = 0;
    while k < groups.len()
        invariant
            g == group_views(groups@),
            k <= g.len(),
            scan_from(is_name_at(g, package@.0), 0, g.len() as int) == scan_from(is_name_at(g, package@.0), k as int, g.len() as int),
        ensures
            k <= g.len(),
            scan_from(is_name_at(g, package@.0), 0, g.len() as int) == k,
        decreases g.len() - k,
    {
        if groups[k].name == package.name {
            break;
        }
        k = k + 1;
    }
    if k < groups.len() {
        let mut group = groups.remove(k);
        proof {
            assert(group@ == g[k as int]);
            assert(amounts_within(group@.old, bo) && amounts_within(group@.new, bn));
        }
        let version = copy_version(&package.version);
        if is_old {
            group.old.add(version);
        } else {
            group.new.add(version);
        }
        groups.insert(k, group);
        proof {
            assert(group_views(groups@) =~= g.update(k as int, count_into(g[k as int], package@.1, is_old)));
        }
    } else {
        let mut p: usize = 0;
        while p < groups.len()
            invariant
                g == group_views(groups@),
                p <= g.len(),
                scan_from(name_after_at(g, package@.0), 0, g.len() as int) == scan_from(name_after_at(g, package@.0), p as int, g.len() as int),
            ensures
                p <= g.len(),
                scan_from(name_after_at(g, package@.0), 0, g.len() as int) == p,
            decreases g.len() - p,
        {
            if text_after(groups[p].name.as_str(), package.name.as_str()) {
                break;
            }
            p = p + 1;
        }
        let mut group = PackageVersions { name: package.name.clone(), old: VersionAmounts::new(), new: VersionAmounts::new() };
        let version = copy_version(&package.version);
        if is_old {
            group.old.add(version);
        } else {
            group.new.add(version);
        }
        groups.insert(p, group);
        proof {
            let fresh = GroupView { name: package@.0, old: Seq::empty(), new: Seq::empty() };
            assert(group@ == count_into(fresh, package@.1, is_old));
            assert(group_views(groups@) =~= g.insert(p as int, count_into(fresh, package@.1, is_old)));
        }
    }
}

/// Groups the packages of two closures by name and counts the versions of
/// each side.
pub fn collect_package_versions(old: &[Package], new: &[Package]) -> (groups: Vec<PackageVersions>)
    requires
        old@.len() < usize::MAX,
        new@.len() < usize::MAX,
    ensures
        group_views(groups@) == group_packages(old@.map_values(|p: Package| p@), new@.map_values(|p: Package| p@)),
        groups_within(group_views(groups@), old@.len() as int, new@.len() as int),
{
    let ghost ov = old@.map_values(|p: Package| p@);
    let ghost nv = new@.map_values(|p: Package| p@);
    let mut groups: Vec<PackageVersions> = Vec::new();
    proof {
        assert(group_views(groups@) =~= Seq::<GroupView>::empty());
    }
    let mut i: usize = 0;
    while i < old.len()
        invariant
            ov == old@.map_values(|p: Package| p@),
            old@.len() < usize::MAX,
            i <= old@.len(),
            group_views(groups@) == add_packages(Seq::empty(), ov.take(i as int), true),
            groups_within(group_views(groups@), i as int, 0),
        decreases old@.len() - i,
    {
        proof {
            lemma_add_package_within(group_views(groups@), ov[i as int], true, i as int, 0);
            assert(ov.take(i + 1).drop_last() =~= ov.take(i as int));
        }
        add_package_to(&mut groups, &old[i], true, Ghost(i as int), Ghost(0));
        i = i + 1;
    }
    proof {
        assert(ov.take(i as int) =~= ov);
    }
    let ghost base = group_views(groups@);
    let mut j: usize = 0;
    while j < new.len()
        invariant
            nv == new@.map_values(|p: Package| p@),
            old@.len() < usize::MAX,
            new@.len() < usize::MAX,
            j <= new@.len(),
            base == add_packages(Seq::empty(), ov, true),
            group_views(groups@) == add_packages(base, nv.take(j as int), false),
            groups_within(group_views(groups@), old@.len() as int, j as int),
        decreases new@.len() - j,
    {
        proof {
            lemma_add_package_within(group_views(groups@), nv[j as int], false, old@.len() as int, j as int);
            assert(nv.take(j + 1).drop_last() =~= nv.take(j as int));
        }
        add_package_to(&mut groups, &new[j], false, Ghost(old@.len() as int), Ghost(j as int));
        j = j + 1;
    }
    proof {
        assert(nv.take(j as int) =~= nv);
    }
    groups
}

/// Whether version `v` occurs among `entries`.
pub open spec fn has_version(entries: Seq<(Seq<char>, nat)>, v: Seq<char>) -> bool {
    version_index(entries, v) < entries.len()
}

/// The amount of version `v` among `entries`.
pub open spec fn amount_of(entries: Seq<(Seq<char>, nat)>, v: Seq<char>) -> nat {
    entries[version_index(entries, v)].1
}

/// The entries of `a` whose version does not occur in `b`, in order.
pub open spec fn only_in(a: Seq<(Seq<char>, nat)>, b: Seq<(Seq<char>, nat)>) -> Seq<(Seq<char>, nat)>
    decreases a.len(),
{
    if a.len() == 0 {
        Seq::empty()
    } else if has_version(b, a.last().0) {
        only_in(a.drop_last(), b)
    } else {
        only_in(a.drop_last(), b).push(a.last())
    }
}

/// The versions of `old` that occur in `new` with another amount, in order.
pub open spec fn amount_changes(old: Seq<(Seq<char>, nat)>, new: Seq<(Seq<char>, nat)>) -> Seq<VersionDiffView>
    decreases old.len(),
{
    if old.len() == 0 {
        Seq::empty()
    } else {
        let rest = amount_changes(old.drop_last(), new);
        let (v, a) = old.last();
        if has_version(new, v) && amount_of(new, v) != a {
            rest.push(VersionDiffView::AmountChanged(v, a, amount_of(new, v)))
        } else {
            rest
        }
    }
}

/// Whether some version occurs on both sides with the same amount.
pub open spec fn has_omitted(old: Seq<(Seq<char>, nat)>, new: Seq<(Seq<char>, nat)>) -> bool {
    exists|k: int| 0 <= k < old.len() && has_version(new, (#[trigger] old[k]).0) && amount_of(new, old[k].0) == old[k].1
}

/// The version change a pairing stands for.
pub open spec fn pairing_diff(q: PairIndex, old: Seq<(Seq<char>, nat)>, new: Seq<(Seq<char>, nat)>) -> VersionDiffView {
    match q {
        PairIndex::Left(i) => VersionDiffView::Removed(old[i]),
        PairIndex::Right(j) => VersionDiffView::Added(new[j]),
        PairIndex::Both(i, j) => VersionDiffView::Changed(old[i], new[j]),
    }
}

/// The version changes between versions found on one side only: paired
/// versions changed, unpaired old ones were removed, unpaired new ones added.
pub open spec fn paired_diffs(old: Seq<(Seq<char>, nat)>, new: Seq<(Seq<char>, nat)>) -> Seq<VersionDiffView> {
    pair_indices(old, new).map_values(|q: PairIndex| pairing_diff(q, old, new))
}

/// All version changes of a package: the paired changes of versions found on
/// one side only, then the amount changes.
pub open spec fn version_changes(old: Seq<(Seq<char>, nat)>, new: Seq<(Seq<char>, nat)>) -> Seq<VersionDiffView> {
    paired_diffs(only_in(old, new), only_in(new, old)) + amount_changes(old, new)
}

/// A change to a newer version: an added version, or a version that orders
/// below its new counterpart.
pub open spec fn is_upgrade(d: VersionDiffView) -> bool {
    match d {
        VersionDiffView::Added(_) => true,
        VersionDiffView::Changed(a, b) => change_order(a.0, b.0) == -1,
        _ => false,
    }
}

/// A change to an older version: a removed version, or a version that
/// orders above its new counterpart.
pub open spec fn is_downgrade(d: VersionDiffView) -> bool {
    match d {
        VersionDiffView::Removed(_) => true,
        VersionDiffView::Changed(a, b) => change_order(a.0, b.0) == 1,
        _ => false,
    }
}

/// A change that is neither: equal-ordered or unordered versions, or a
/// changed amount.
pub open spec fn is_plain_change(d: VersionDiffView) -> bool {
    match d {
        VersionDiffView::Changed(a, b) => change_order(a.0, b.0) == 0 || change_order(a.0, b.0) == 2,
        VersionDiffView::AmountChanged(_, _, _) => true,
        _ => false,
    }
}

/// The status that a list of version changes amounts to.
pub open spec fn change_status(ds: Seq<VersionDiffView>) -> Option<DiffStatus> {
    let up = exists|k: int| 0 <= k < ds.len() && is_upgrade(#[trigger] ds[k]);
    let down = exists|k: int| 0 <= k < ds.len() && is_downgrade(#[trigger] ds[k]);
    let plain = exists|k: int| 0 <= k < ds.len() && is_plain_change(#[trigger] ds[k]);
    if up && down {
        Some(DiffStatus::Mixed)
    } else if up {
        Some(DiffStatus::Upgraded)
    } else if down {
        Some(DiffStatus::Downgraded)
    } else if plain {
        Some(DiffStatus::Changed)
    } else {
        None
    }
}

/// The change of one package group, or `None` where nothing changed.
pub open spec fn group_diff(g: GroupView) -> Option<DiffView> {
    let ds = version_changes(g.old, g.new);
    if ds.len() == 0 {
        None
    } else {
        let status = if g.old.len() == 0 {
            DiffStatus::Added
        } else if g.new.len() == 0 {
            DiffStatus::Removed
        } else {
            match change_status(ds) {
                Some(s) => s,
                None => DiffStatus::Changed,
            }
        };
        Some(DiffView { name: g.name, versions: ds, status, has_omitted_versions: has_omitted(g.old, g.new) })
    }
}

/// The changes of all groups that changed, in group order.
pub open spec fn group_diffs(groups: Seq<GroupView>) -> Seq<DiffView>
    decreases groups.len(),
{
    if groups.len() == 0 {
        Seq::empty()
    } else {
        match group_diff(groups.last()) {
            Some(d) => group_diffs(groups.drop_last()).push(d),
            None => group_diffs(groups.drop_last()),
        }
    }
}

/// The views of a list of version changes.
pub open spec fn diff_views(ds: Seq<VersionDiff>) -> Seq<VersionDiffView> {
    ds.map_values(|d: VersionDiff| d@)
}

/// The version changes of two lists of one-sided versions.
fn version_diffs(old_versions: &Vec<VersionAmount>, new_versions: &Vec<VersionAmount>) -> (r: Vec<VersionDiff>)
    requires
        old_versions@.len() < usize::MAX,
        new_versions@.len() < usize::MAX,
    ensures
        diff_views(r@) == paired_diffs(views(old_versions@), views(new_versions@)),
{
    let pairings = match_version_amounts(old_versions.as_slice(), new_versions.as_slice());
    let ghost q = pair_indices(views(old_versions@), views(new_versions@));
    let ghost ov = views(old_versions@);
    let ghost nv = views(new_versions@);
    let mut r: Vec<VersionDiff> = Vec::new();
    let mut k: usize = 0;
    while k < pairings.len()
        invariant
            q == pair_indices(ov, nv),
            ov == views(old_versions@),
            nv == views(new_versions@),
            pairings@.len() == q.len(),
            forall|t: int| 0 <= t < pairings@.len() ==> pairing_refers(#[trigger] pairings@[t], q[t], old_versions@, new_versions@),
            k <= pairings@.len(),
            r@.len() == k,
            forall|t: int| 0 <= t < k ==> (#[trigger] r@[t])@ == pairing_diff(q[t], ov, nv),
        decreases pairings@.len() - k,
    {
        proof {
            assert(pairing_refers(pairings@[k as int], q[k as int], old_versions@, new_versions@));
        }
        let d = match pairings[k] {
            Pairing::Left(old) => VersionDiff::Removed(old.copy()),
            Pairing::Right(new) => VersionDiff::Added(new.copy()),
            Pairing::Both(old, new) => VersionDiff::Changed { old: old.copy(), new: new.copy() },
        };
        r.push(d);
        k = k + 1;
    }
    proof {
        assert(diff_views(r@) =~= paired_diffs(ov, nv));
    }
    r
}

/// The version changes of a package and whether versions were left out
/// because they did not change.
fn collect_version_changes(old_versions: &VersionAmounts, new_versions: &VersionAmounts) -> (r: (Vec<VersionDiff>, bool))
    requires
        old_versions@.len() < usize::MAX,
        new_versions@.len() < usize::MAX,
    ensures
        diff_views(r.0@) == version_changes(old_versions@, new_versions@),
        r.1 == has_omitted(old_versions@, new_versions@),
{
    let ghost o = old_versions@;
    let ghost n = new_versions@;
    let mut old_only: Vec<VersionAmount> = Vec::new();
    let mut new_only: Vec<VersionAmount> = Vec::new();
    let mut amount_diffs: Vec<VersionDiff> = Vec::new();
    let mut has_omitted_versions = false;
    let mut k: usize = 0;
    while k < old_versions.len()
        invariant
            o == old_versions@,
            n == new_versions@,
            o.len() < usize::MAX,
            k <= o.len(),
            views(old_only@) == only_in(o.take(k as int), n),
            old_only@.len() <= k,
            diff_views(amount_diffs@) == amount_changes(o.take(k as int), n),
            has_omitted_versions == exists|t: int| 0 <= t < k && has_version(n, (#[trigger] o[t]).0) && amount_of(n, o[t].0) == o[t].1,
        decreases o.len() - k,
    {
        let entry = old_versions.entry(k);
        let found = new_versions.get(&entry.version);
        proof {
            assert(o.take(k + 1).drop_last() =~= o.take(k as int));
            assert(o.take(k + 1).last() == o[k as int]);
        }
        match found {
            Some(new_amount) => {
                if entry.amount == new_amount {
                    has_omitted_versions = true;
                } else {
                    let ghost before = diff_views(amount_diffs@);
                    amount_diffs.push(VersionDiff::AmountChanged {
                        version: copy_version(&entry.version),
                        old_amount: entry.amount,
                        new_amount,
                    });
                    proof {
                        assert(diff_views(amount_diffs@) =~= before.push(VersionDiffView::AmountChanged(o[k as int].0, o[k as int].1, amount_of(n, o[k as int].0))));
                    }
                }
            },
            None => {
                let ghost before = views(old_only@);
                old_only.push(entry.copy());
                proof {
                    assert(views(old_only@) =~= before.push(o[k as int]));
                }
            },
        }
        k = k + 1;
    }
    let mut j: usize = 0;
    while j < new_versions.len()
        invariant
            o == old_versions@,
            n == new_versions@,
            n.len() < usize::MAX,
            j <= n.len(),
            views(new_only@) == only_in(n.take(j as int), o),
            new_only@.len() <= j,
        decreases n.len() - j,
    {
        let entry = new_versions.entry(j);
        let k = old_versions.index_of(&entry.version);
        proof {
            lemma_scan_from(is_version_at(o, n[j as int].0), 0, o.len() as int);
            assert(n.take(j + 1).drop_last() =~= n.take(j as int));
            assert(n.take(j + 1).last() == n[j as int]);
        }
        if k == old_versions.len() {
            let ghost before = views(new_only@);
            new_only.push(entry.copy());
            proof {
                assert(views(new_only@) =~= before.push(n[j as int]));
            }
        }
        j = j + 1;
    }
    proof {
        assert(o.take(o.len() as int) =~= o);
        assert(n.take(n.len() as int) =~= n);
    }
    let mut diffs = version_diffs(&old_only, &new_only);
    let ghost first = diff_views(diffs@);
    let mut t: usize = 0;
    while t < amount_diffs.len()
        invariant
            diff_views(diffs@) == first + diff_views(amount_diffs@).take(t as int),
            t <= amount_diffs@.len(),
        decreases amount_diffs@.len() - t,
    {
        let d = match &amount_diffs[t] {
            VersionDiff::AmountChanged { version, old_amount, new_amount } => VersionDiff::AmountChanged {
                version: copy_version(version),
                old_amount: *old_amount,
                new_amount: *new_amount,
            },
            VersionDiff::Removed(a) => VersionDiff::Removed(a.copy()),
            VersionDiff::Added(a) => VersionDiff::Added(a.copy()),
            VersionDiff::Changed { old, new } => VersionDiff::Changed { old: old.copy(), new: new.copy() },
        };
        let ghost before = diff_views(diffs@);
        diffs.push(d);
        proof {
            let av = diff_views(amount_diffs@);
            assert(av.take(t + 1) =~= av.take(t as int).push(av[t as int]));
            assert(diff_views(diffs@) =~= before.push(av[t as int]));
        }
        t = t + 1;
    }
    proof {
        let av = diff_views(amount_diffs@);
        assert(av.take(av.len() as int) =~= av);
    }
    (diffs, has_omitted_versions)
}

/// Whether a version change is an upgrade, a downgrade or a plain change,
/// as three flags.
fn classify(d: &VersionDiff) -> (r: (bool, bool, bool))
    ensures
        r.0 == is_upgrade(d@),
        r.1 == is_downgrade(d@),
        r.2 == is_plain_change(d@),
{
    match d {
        VersionDiff::Removed(_) => (false, true, false),
        VersionDiff::Added(_) => (true, false, false),
        VersionDiff::Changed { old, new } => {
            match old.version.change_ordering(&new.version) {
                VersionChangeOrdering::Ordered(Order::Less) => (true, false, false),
                VersionChangeOrdering::Ordered(Order::Greater) => (false, true, false),
                VersionChangeOrdering::Ordered(Order::Equal) => (false, false, true),
                VersionChangeOrdering::Unordered => (false, false, true),
            }
        },
        VersionDiff::AmountChanged { .. } => (false, false, true),
    }
}

/// The status that a list of version changes amounts to: mixed where there
/// are upgrades and downgrades, upgraded or downgraded where there is only
/// one kind, changed where there are only plain changes.
pub fn determine_change_status(version_diffs: &Vec<VersionDiff>) -> (r: Option<DiffStatus>)
    ensures
        r == change_status(diff_views(version_diffs@)),
{
    let ghost ds = diff_views(version_diffs@);
    let mut saw_upgrade = false;
    let mut saw_downgrade = false;
    let mut saw_changed = false;
    let mut k: usize = 0;
    while k < version_diffs.len()
        invariant
            ds == diff_views(version_diffs@),
            k <= ds.len(),
            saw_upgrade == exists|t: int| 0 <= t < k && is_upgrade(#[trigger] ds[t]),
            saw_downgrade == exists|t: int| 0 <= t < k && is_downgrade(#[trigger] ds[t]),
            saw_changed == exists|t: int| 0 <= t < k && is_plain_change(#[trigger] ds[t]),
        ensures
            k <= ds.len(),
            saw_upgrade == exists|t: int| 0 <= t < k && is_upgrade(#[trigger] ds[t]),
            saw_downgrade == exists|t: int| 0 <= t < k && is_downgrade(#[trigger] ds[t]),
            saw_changed == exists|t: int| 0 <= t < k && is_plain_change(#[trigger] ds[t]),
            k < ds.len() ==> saw_upgrade && saw_downgrade,
        decreases ds.len() - k,
    {
        let (up, down, plain) = classify(&version_diffs[k]);
        proof {
            assert(ds[k as int] == version_diffs@[k as int]@);
        }
        saw_upgrade = saw_upgrade || up;
        saw_downgrade = saw_downgrade || down;
        saw_changed = saw_changed || plain;
        k = k + 1;
        if saw_upgrade && saw_downgrade {
            break;
        }
    }
    proof {
        if saw_upgrade {
            let t = choose|t: int| 0 <= t < k && is_upgrade(#[trigger] ds[t]);
            assert(0 <= t < ds.len() && is_upgrade(ds[t]));
        }
        if saw_downgrade {
            let t = choose|t: int| 0 <= t < k && is_downgrade(#[trigger] ds[t]);
            assert(0 <= t < ds.len() && is_downgrade(ds[t]));
        }
    }
    if saw_upgrade && saw_downgrade {
        Some(DiffStatus::Mixed)
    } else if saw_upgrade {
        Some(DiffStatus::Upgraded)
    } else if saw_downgrade {
        Some(DiffStatus::Downgraded)
    } else if saw_changed {
        Some(DiffStatus::Changed)
    } else {
        None
    }
}

/// The views of a list of package changes.
pub open spec fn diff_list_views(ds: Seq<Diff>) -> Seq<DiffView> {
    ds.map_values(|d: Diff| d@)
}

/// Every group has fewer than `usize::MAX` versions on each side.
pub open spec fn groups_fit(groups: Seq<GroupView>) -> bool {
    forall|k: int| 0 <= k < groups.len() ==> (#[trigger] groups[k]).old.len() < usize::MAX && groups[k].new.len() < usize::MAX
}

/// The change of one package group, or `None` where nothing changed.
fn package_diff(group: &PackageVersions) -> (r: Option<Diff>)
    requires
        group@.old.len() < usize::MAX,
        group@.new.len() < usize::MAX,
    ensures
        match r {
            Some(d) => group_diff(group@) == Some(d@),
            None => group_diff(group@).is_none(),
        },
{
    let (versions, has_omitted_versions) = collect_version_changes(&group.old, &group.new);
    if versions.len() == 0 {
        return None;
    }
    let status = if group.old.is_empty() {
        DiffStatus::Added
    } else if group.new.is_empty() {
        DiffStatus::Removed
    } else {
        match determine_change_status(&versions) {
            Some(s) => s,
            None => DiffStatus::Changed,
        }
    };
    let d = Diff { name: group.name.clone(), versions, status, has_omitted_versions };
    proof {
        assert(d@.versions == diff_views(versions@));
    }
    Some(d)
}

/// The changes of all package groups that changed, in group order.
pub fn generate_diffs_from_version_map(groups: &Vec<PackageVersions>) -> (r: Vec<Diff>)
    requires
        groups_fit(group_views(groups@)),
    ensures
        diff_list_views(r@) == group_diffs(group_views(groups@)),
{
    let ghost g = group_views(groups@);
    let mut r: Vec<Diff> = Vec::new();
    let mut k: usize = 0;
    while k < groups.len()
        invariant
            g == group_views(groups@),
            groups_fit(g),
            k <= g.len(),
            diff_list_views(r@) == group_diffs(g.take(k as int)),
        decreases g.len() - k,
    {
        proof {
            assert(g[k as int] == groups@[k as int]@);
            assert(g.take(k + 1).drop_last() =~= g.take(k as int));
            assert(g.take(k + 1).last() == g[k as int]);
        }
        let ghost before = diff_list_views(r@);
        match package_diff(&groups[k]) {
            Some(d) => {
                r.push(d);
                proof {
                    assert(diff_list_views(r@) =~= before.push(r@[r@.len() - 1]@));
                }
            },
            None => {},
        }
        k = k + 1;
    }
    proof {
        assert(g.take(k as int) =~= g);
    }
    r
}

/// The package changes between two package lists: packages are grouped by
/// name, and every name whose versions differ gives one change, in the
/// order of the names.
pub open spec fn package_changes(old: Seq<(Seq<char>, Seq<char>)>, new: Seq<(Seq<char>, Seq<char>)>) -> Seq<DiffView> {
    group_diffs(group_packages(old, new))
}

/// The package changes between two snapshots.
pub fn diff_snapshots(old: &PackageSnapshot, new: &PackageSnapshot) -> (r: Vec<Diff>)
    requires
        old.packages@.len() < usize::MAX,
        new.packages@.len() < usize::MAX,
    ensures
        diff_list_views(r@) == package_changes(
            old.packages@.map_values(|p: Package| p@),
            new.packages@.map_values(|p: Package| p@),
        ),
{
    let groups = collect_package_versions(old.packages.as_slice(), new.packages.as_slice());
    proof {
        let g = group_views(groups@);
        assert forall|k: int| 0 <= k < g.len() implies (#[trigger] g[k]).old.len() < usize::MAX && g[k].new.len() < usize::MAX by {
            assert(amounts_within(g[k].old, old.packages@.len() as int));
            assert(amounts_within(g[k].new, new.packages@.len() as int));
        }
    }
    generate_diffs_from_version_map(&groups)
}

/// The names of the groups strictly increase.
pub open spec fn names_increasing(groups: Seq<GroupView>) -> bool {
    forall|i: int, j: int| 0 <= i < j < groups.len() ==> str_order((#[trigger] groups[i]).name, (#[trigger] groups[j]).name) < 0
}

proof fn lemma_add_package_increasing(groups: Seq<GroupView>, p: (Seq<char>, Seq<char>), is_old: bool)
    requires
        names_increasing(groups),
    ensures
        names_increasing(add_package(groups, p, is_old)),
{
    lemma_scan_from(is_name_at(groups, p.0), 0, groups.len() as int);
    lemma_scan_from(name_after_at(groups, p.0), 0, groups.len() as int);
    let r = add_package(groups, p, is_old);
    let k = name_index(groups, p.0);
    if k < groups.len() {
        assert forall|i: int, j: int| 0 <= i < j < r.len() implies str_order((#[trigger] r[i]).name, (#[trigger] r[j]).name) < 0 by {
            assert(r[i].name == groups[i].name && r[j].name == groups[j].name);
        }
    } else {
        let q = name_position(groups, p.0);
        assert forall|i: int| 0 <= i < groups.len() implies (i < q ==> str_order(#[trigger] groups[i].name, p.0) < 0)
            && (i >= q ==> str_order(groups[i].name, p.0) > 0) by {
            lemma_str_order_zero_iff_equal(groups[i].name, p.0);
            assert(!is_name_at(groups, p.0)(i));
            if i < q {
                assert(!name_after_at(groups, p.0)(i));
            }
            if i >= q {
                assert(name_after_at(groups, p.0)(q));
                lemma_str_order_zero_iff_equal(groups[q].name, p.0);
                if i > q {
                    assert(str_order(groups[q].name, groups[i].name) < 0);
                    lemma_str_order_antisymmetric(groups[i].name, p.0);
                    lemma_str_order_antisymmetric(groups[q].name, p.0);
                    lemma_str_order_transitive(p.0, groups[q].name, groups[i].name);
                }
            }
        }
        assert forall|i: int, j: int| 0 <= i < j < r.len() implies str_order((#[trigger] r[i]).name, (#[trigger] r[j]).name) < 0 by {
            if j < q {
                assert(r[i] == groups[i] && r[j] == groups[j]);
            } else if j == q {
                assert(r[i] == groups[i]);
            } else if i < q {
                assert(r[i] == groups[i] && r[j] == groups[j - 1]);
                lemma_str_order_antisymmetric(groups[j - 1].name, p.0);
                lemma_str_order_transitive(groups[i].name, p.0, groups[j - 1].name);
            } else if i == q {
                assert(r[j] == groups[j - 1]);
                lemma_str_order_antisymmetric(groups[j - 1].name, p.0);
            } else {
                assert(r[i] == groups[i - 1] && r[j] == groups[j - 1]);
            }
        }
    }
}

proof fn lemma_add_packages_increasing(groups: Seq<GroupView>, pkgs: Seq<(Seq<char>, Seq<char>)>, is_old: bool)
    requires
        names_increasing(groups),
    ensures
        names_increasing(add_packages(groups, pkgs, is_old)),
    decreases pkgs.len(),
{
    if pkgs.len() > 0 {
        lemma_add_packages_increasing(groups, pkgs.drop_last(), is_old);
        lemma_add_package_increasing(add_packages(groups, pkgs.drop_last(), is_old), pkgs.last(), is_old);
    }
}

/// Every change carries the name of one of the groups.
proof fn lemma_group_diffs_names(groups: Seq<GroupView>)
    ensures
        forall|k: int| 0 <= k < group_diffs(groups).len() ==> exists|i: int| 0 <= i < groups.len()
            && (#[trigger] group_diffs(groups)[k]).name == groups[i].name,
    decreases groups.len(),
{
    if groups.len() > 0 {
        let init = groups.drop_last();
        lemma_group_diffs_names(init);
        let ds = group_diffs(groups);
        assert forall|k: int| 0 <= k < ds.len() implies exists|i: int| 0 <= i < groups.len()
            && (#[trigger] ds[k]).name == groups[i].name by {
            if k < group_diffs(init).len() {
                let i = choose|i: int| 0 <= i < init.len() && group_diffs(init)[k].name == init[i].name;
                assert(ds[k] == group_diffs(init)[k]);
                assert(groups[i] == init[i]);
            } else {
                assert(ds[k].name == groups[groups.len() - 1].name);
            }
        }
    }
}

/// The changes of groups with increasing names have increasing names.
proof fn lemma_group_diffs_increasing(groups: Seq<GroupView>)
    requires
        names_increasing(groups),
    ensures
        forall|i: int, j: int|
            0 <= i < j < group_diffs(groups).len() ==> str_order(
                (#[trigger] group_diffs(groups)[i]).name,
                (#[trigger] group_diffs(groups)[j]).name,
            ) < 0,
    decreases groups.len(),
{
    if groups.len() > 0 {
        let init = groups.drop_last();
        assert(names_increasing(init)) by {
            assert forall|i: int, j: int| 0 <= i < j < init.len() implies str_order((#[trigger] init[i]).name, (#[trigger] init[j]).name) < 0 by {
                assert(init[i] == groups[i] && init[j] == groups[j]);
            }
        }
        lemma_group_diffs_increasing(init);
        lemma_group_diffs_names(init);
        let ds = group_diffs(groups);
        let di = group_diffs(init);
        assert forall|i: int, j: int| 0 <= i < j < ds.len() implies str_order((#[trigger] ds[i]).name, (#[trigger] ds[j]).name) < 0 by {
            assert(ds[i] == di[i]);
            if j < di.len() {
                assert(ds[j] == di[j]);
            } else {
                let x = choose|x: int| 0 <= x < init.len() && (#[trigger] di[i]).name == init[x].name;
                assert(init[x] == groups[x]);
                assert(ds[j].name == groups[groups.len() - 1].name);
            }
        }
    }
}

/// The changes come in strictly increasing order of their package names,
/// so each name has at most one change.
pub proof fn lemma_package_changes_sorted(old: Seq<(Seq<char>, Seq<char>)>, new: Seq<(Seq<char>, Seq<char>)>)
    ensures
        forall|i: int, j: int|
            0 <= i < j < package_changes(old, new).len() ==> str_order(
                (#[trigger] package_changes(old, new)[i]).name,
                (#[trigger] package_changes(old, new)[j]).name,
            ) < 0,
{
    let e = Seq::<GroupView>::empty();
    lemma_add_packages_increasing(e, old, true);
    lemma_add_packages_increasing(add_packages(e, old, true), new, false);
    lemma_group_diffs_increasing(group_packages(old, new));
}

/// The versions of the packages named `name`, counted into `entries`
/// first to last.
pub open spec fn counted(entries: Seq<(Seq<char>, nat)>, pkgs: Seq<(Seq<char>, Seq<char>)>, name: Seq<char>) -> Seq<(Seq<char>, nat)>
    decreases pkgs.len(),
{
    if pkgs.len() == 0 {
        entries
    } else {
        let e = counted(entries, pkgs.drop_last(), name);
        if pkgs.last().0 == name {
            insert_version(e, pkgs.last().1)
        } else {
            e
        }
    }
}

/// The old or new side of the group of `name`, or none where it has no
/// group.
pub open spec fn group_side(groups: Seq<GroupView>, name: Seq<char>, is_old: bool) -> Seq<(Seq<char>, nat)> {
    let k = name_index(groups, name);
    if k < groups.len() {
        if is_old {
            groups[k].old
        } else {
            groups[k].new
        }
    } else {
        Seq::empty()
    }
}

/// Whether no two groups share a name.
pub open spec fn group_names_distinct(groups: Seq<GroupView>) -> bool {
    forall|i: int, j: int| 0 <= i < j < groups.len() ==> (#[trigger] groups[i]).name != (#[trigger] groups[j]).name
}

/// Whether no two entries share a version.
pub open spec fn versions_distinct(entries: Seq<(Seq<char>, nat)>) -> bool {
    forall|i: int, j: int| 0 <= i < j < entries.len() ==> (#[trigger] entries[i]).0 != (#[trigger] entries[j]).0
}

/// Where the names are distinct, the group of a name is the one group that
/// holds it.
proof fn lemma_group_index(groups: Seq<GroupView>, name: Seq<char>, k: int)
    requires
        group_names_distinct(groups),
        0 <= k < groups.len(),
        groups[k].name == name,
    ensures
        name_index(groups, name) == k,
{
    let n = groups.len() as int;
    lemma_scan_from(is_name_at(groups, name), 0, n);
    let f = name_index(groups, name);
    if f < k {
        assert(groups[f].name == name);
    }
    if f > k {
        assert(!is_name_at(groups, name)(k));
    }
}

/// A name that no group holds has no group.
proof fn lemma_group_absent(groups: Seq<GroupView>, name: Seq<char>)
    requires
        forall|j: int| 0 <= j < groups.len() ==> (#[trigger] groups[j]).name != name,
    ensures
        name_index(groups, name) == groups.len(),
{
    lemma_scan_from(is_name_at(groups, name), 0, groups.len() as int);
}

/// Counting a version keeps the versions distinct.
proof fn lemma_insert_version_distinct(entries: Seq<(Seq<char>, nat)>, v: Seq<char>)
    requires
        versions_distinct(entries),
    ensures
        versions_distinct(insert_version(entries, v)),
{
    let n = entries.len() as int;
    lemma_scan_from(is_version_at(entries, v), 0, n);
    lemma_scan_from(orders_after_at(entries, v), 0, n);
    let r = insert_version(entries, v);
    let k = version_index(entries, v);
    if k < n {
        assert forall|i: int, j: int| 0 <= i < j < r.len() implies (#[trigger] r[i]).0 != (#[trigger] r[j]).0 by {
            assert(r[i].0 == entries[i].0);
            assert(r[j].0 == entries[j].0);
        }
    } else {
        let p = version_position(entries, v);
        assert forall|i: int, j: int| 0 <= i < j < r.len() implies (#[trigger] r[i]).0 != (#[trigger] r[j]).0 by {
            if i < p {
                assert(r[i] == entries[i]);
            } else if i > p {
                assert(r[i] == entries[i - 1]);
            }
            if j < p {
                assert(r[j] == entries[j]);
            } else if j > p {
                assert(r[j] == entries[j - 1]);
            }
            if i == p {
                assert(!is_version_at(entries, v)(j - 1));
            }
            if j == p {
                assert(!is_version_at(entries, v)(i));
            }
        }
    }
}

/// Counting versions keeps them distinct.
proof fn lemma_counted_distinct(entries: Seq<(Seq<char>, nat)>, pkgs: Seq<(Seq<char>, Seq<char>)>, name: Seq<char>)
    requires
        versions_distinct(entries),
    ensures
        versions_distinct(counted(entries, pkgs, name)),
    decreases pkgs.len(),
{
    if pkgs.len() > 0 {
        lemma_counted_distinct(entries, pkgs.drop_last(), name);
        if pkgs.last().0 == name {
            lemma_insert_version_distinct(counted(entries, pkgs.drop_last(), name), pkgs.last().1);
        }
    }
}

/// Counting one package counts its version into its name's side and
/// leaves every other side as it was.
proof fn lemma_add_package_sides(groups: Seq<GroupView>, p: (Seq<char>, Seq<char>), is_old: bool, name: Seq<char>)
    requires
        group_names_distinct(groups),
    ensures
        group_names_distinct(add_package(groups, p, is_old)),
        group_side(add_package(groups, p, is_old), name, is_old) == (if p.0 == name {
            insert_version(group_side(groups, name, is_old), p.1)
        } else {
            group_side(groups, name, is_old)
        }),
        group_side(add_package(groups, p, is_old), name, !is_old) == group_side(groups, name, !is_old),
{
    let r = add_package(groups, p, is_old);
    let n = groups.len() as int;
    lemma_scan_from(is_name_at(groups, p.0), 0, n);
    lemma_scan_from(is_name_at(groups, name), 0, n);
    let k = name_index(groups, p.0);
    let f = name_index(groups, name);
    if k < n {
        assert(r.len() == n);
        assert forall|i: int, j: int| 0 <= i < j < r.len() implies (#[trigger] r[i]).name != (#[trigger] r[j]).name by {
            assert(r[i].name == groups[i].name);
            assert(r[j].name == groups[j].name);
        }
        if f < n {
            assert(r[f].name == name);
            lemma_group_index(r, name, f);
            if p.0 == name {
                lemma_group_index(groups, name, k);
            } else {
                assert(f != k);
                assert(r[f] == groups[f]);
            }
        } else {
            assert forall|j: int| 0 <= j < r.len() implies (#[trigger] r[j]).name != name by {
                assert(r[j].name == groups[j].name);
                assert(!is_name_at(groups, name)(j));
            }
            lemma_group_absent(r, name);
            assert(p.0 != name);
        }
    } else {
        let pos = name_position(groups, p.0);
        lemma_scan_from(name_after_at(groups, p.0), 0, n);
        let g = count_into(GroupView { name: p.0, old: Seq::empty(), new: Seq::empty() }, p.1, is_old);
        assert(r == groups.insert(pos, g));
        assert forall|j: int| 0 <= j < n implies (#[trigger] groups[j]).name != p.0 by {
            assert(!is_name_at(groups, p.0)(j));
        }
        assert forall|i: int, j: int| 0 <= i < j < r.len() implies (#[trigger] r[i]).name != (#[trigger] r[j]).name by {
            if i < pos {
                assert(r[i] == groups[i]);
            } else if i > pos {
                assert(r[i] == groups[i - 1]);
            }
            if j < pos {
                assert(r[j] == groups[j]);
            } else if j > pos {
                assert(r[j] == groups[j - 1]);
            }
        }
        if f < n {
            assert(p.0 != name);
            if f < pos {
                assert(r[f] == groups[f]);
                lemma_group_index(r, name, f);
            } else {
                assert(r[f + 1] == groups[f]);
                lemma_group_index(r, name, f + 1);
            }
        } else if p.0 == name {
            assert(r[pos] == g);
            lemma_group_index(r, name, pos);
            assert(group_side(groups, name, is_old) =~= Seq::<(Seq<char>, nat)>::empty());
        } else {
            assert forall|j: int| 0 <= j < r.len() implies (#[trigger] r[j]).name != name by {
                if j < pos {
                    assert(r[j] == groups[j]);
                    assert(!is_name_at(groups, name)(j));
                } else if j > pos {
                    assert(r[j] == groups[j - 1]);
                    assert(!is_name_at(groups, name)(j - 1));
                }
            }
            lemma_group_absent(r, name);
        }
    }
}

/// Counting a list of packages counts the versions of each name into its
/// side and leaves the other side as it was.
proof fn lemma_add_packages_sides(groups: Seq<GroupView>, pkgs: Seq<(Seq<char>, Seq<char>)>, is_old: bool, name: Seq<char>)
    requires
        group_names_distinct(groups),
    ensures
        group_names_distinct(add_packages(groups, pkgs, is_old)),
        group_side(add_packages(groups, pkgs, is_old), name, is_old) == counted(group_side(groups, name, is_old), pkgs, name),
        group_side(add_packages(groups, pkgs, is_old), name, !is_old) == group_side(groups, name, !is_old),
    decreases pkgs.len(),
{
    if pkgs.len() > 0 {
        lemma_add_packages_sides(groups, pkgs.drop_last(), is_old, name);
        lemma_add_package_sides(add_packages(groups, pkgs.drop_last(), is_old), pkgs.last(), is_old, name);
    }
}

/// Entries whose versions all occur in `b` have none found only in them.
proof fn lemma_only_in_covered(a: Seq<(Seq<char>, nat)>, b: Seq<(Seq<char>, nat)>)
    requires
        forall|k: int| 0 <= k < a.len() ==> has_version(b, (#[trigger] a[k]).0),
    ensures
        only_in(a, b) == Seq::<(Seq<char>, nat)>::empty(),
    decreases a.len(),
{
    if a.len() > 0 {
        let rest = a.drop_last();
        assert forall|k: int| 0 <= k < rest.len() implies has_version(b, (#[trigger] rest[k]).0) by {
            assert(rest[k] == a[k]);
        }
        lemma_only_in_covered(rest, b);
        assert(has_version(b, a[a.len() - 1].0));
    }
}

/// Each entry of a list has its version in the list.
proof fn lemma_has_own_versions(e: Seq<(Seq<char>, nat)>)
    ensures
        forall|k: int| 0 <= k < e.len() ==> has_version(e, (#[trigger] e[k]).0),
{
    assert forall|k: int| 0 <= k < e.len() implies has_version(e, (#[trigger] e[k]).0) by {
        lemma_scan_from(is_version_at(e, e[k].0), 0, e.len() as int);
        if version_index(e, e[k].0) >= e.len() {
            assert(!is_version_at(e, e[k].0)(k));
        }
    }
}

/// A prefix of distinct entries shows no amount change against the whole.
proof fn lemma_no_amount_changes(a: Seq<(Seq<char>, nat)>, e: Seq<(Seq<char>, nat)>)
    requires
        versions_distinct(e),
        a.len() <= e.len(),
        forall|k: int| 0 <= k < a.len() ==> (#[trigger] a[k]) == e[k],
    ensures
        amount_changes(a, e) == Seq::<VersionDiffView>::empty(),
    decreases a.len(),
{
    if a.len() > 0 {
        let rest = a.drop_last();
        assert forall|k: int| 0 <= k < rest.len() implies (#[trigger] rest[k]) == e[k] by {
            assert(rest[k] == a[k]);
        }
        lemma_no_amount_changes(rest, e);
        let j = a.len() - 1;
        let v = a[j].0;
        assert(a[j] == e[j]);
        lemma_scan_from(is_version_at(e, v), 0, e.len() as int);
        let f = version_index(e, v);
        if f < j {
            assert(e[f].0 == v);
        }
        if f > j {
            assert(!is_version_at(e, v)(j));
        }
        assert(f == j);
    }
}

/// A package whose old and new versions, distinct and counted, are the same
/// has no change.
pub proof fn lemma_same_amounts_unchanged(name: Seq<char>, versions: Seq<(Seq<char>, nat)>)
    requires
        versions_distinct(versions),
    ensures
        group_diff(GroupView { name, old: versions, new: versions }) is None,
{
    lemma_has_own_versions(versions);
    lemma_only_in_covered(versions, versions);
    lemma_no_amount_changes(versions, versions);
    let empty = Seq::<(Seq<char>, nat)>::empty();
    assert(pair_indices(empty, empty) =~= Seq::<PairIndex>::empty());
    assert(version_changes(versions, versions) =~= Seq::<VersionDiffView>::empty());
}

/// The changes of groups whose two sides agree, with distinct versions, are
/// none.
proof fn lemma_unchanged_groups(groups: Seq<GroupView>)
    requires
        forall|k: int| 0 <= k < groups.len() ==> (#[trigger] groups[k]).old == groups[k].new && versions_distinct(groups[k].old),
    ensures
        group_diffs(groups) == Seq::<DiffView>::empty(),
    decreases groups.len(),
{
    if groups.len() > 0 {
        let rest = groups.drop_last();
        assert forall|k: int| 0 <= k < rest.len() implies (#[trigger] rest[k]).old == rest[k].new && versions_distinct(rest[k].old) by {
            assert(rest[k] == groups[k]);
        }
        lemma_unchanged_groups(rest);
        let g = groups[groups.len() - 1];
        lemma_same_amounts_unchanged(g.name, g.old);
        assert(g == GroupView { name: g.name, old: g.old, new: g.old });
    }
}

/// A snapshot compared with itself has no package change: every package
/// has the same versions, with the same amounts, on both sides.
pub proof fn lemma_identical_snapshots_unchanged(packages: Seq<(Seq<char>, Seq<char>)>)
    ensures
        package_changes(packages, packages) == Seq::<DiffView>::empty(),
{
    let empty = Seq::<GroupView>::empty();
    let first = add_packages(empty, packages, true);
    let all = group_packages(packages, packages);
    let none = Seq::<(Seq<char>, nat)>::empty();
    assert forall|k: int| 0 <= k < all.len() implies (#[trigger] all[k]).old == all[k].new && versions_distinct(all[k].old) by {
        let name = all[k].name;
        lemma_add_packages_sides(empty, packages, true, name);
        lemma_add_packages_sides(first, packages, false, name);
        lemma_group_absent(empty, name);
        lemma_group_index(all, name, k);
        assert(group_side(empty, name, true) =~= none);
        assert(group_side(empty, name, false) =~= none);
        lemma_counted_distinct(none, packages, name);
    }
    lemma_unchanged_groups(all);
}

/// A package whose old and new sides are both non-empty is mixed whenever
/// its version changes hold a removed version together with an added
/// version or a change to a version that orders above the old one, and
/// likewise whenever they hold an added version together with a removed
/// version or a change to a version that orders below the old one.
pub proof fn lemma_removed_and_upgraded_is_mixed(g: GroupView)
    ensures
        ({
            let ds = version_changes(g.old, g.new);
            let removed = exists|i: int| 0 <= i < ds.len() && #[trigger] ds[i] is Removed;
            let added = exists|i: int| 0 <= i < ds.len() && #[trigger] ds[i] is Added;
            let raised = exists|i: int|
                0 <= i < ds.len() && (#[trigger] ds[i] matches VersionDiffView::Changed(a, b) && change_order(a.0, b.0) == -1);
            let lowered = exists|i: int|
                0 <= i < ds.len() && (#[trigger] ds[i] matches VersionDiffView::Changed(a, b) && change_order(a.0, b.0) == 1);
            g.old.len() > 0 && g.new.len() > 0 && ((removed && (added || raised)) || (added && (removed || lowered)))
                ==> (group_diff(g) matches Some(d) && d.status == DiffStatus::Mixed)
        }),
{
    let ds = version_changes(g.old, g.new);
    let removed = exists|i: int| 0 <= i < ds.len() && #[trigger] ds[i] is Removed;
    let added = exists|i: int| 0 <= i < ds.len() && #[trigger] ds[i] is Added;
    let raised = exists|i: int|
        0 <= i < ds.len() && (#[trigger] ds[i] matches VersionDiffView::Changed(a, b) && change_order(a.0, b.0) == -1);
    let lowered = exists|i: int|
        0 <= i < ds.len() && (#[trigger] ds[i] matches VersionDiffView::Changed(a, b) && change_order(a.0, b.0) == 1);
    if g.old.len() > 0 && g.new.len() > 0 && ((removed && (added || raised)) || (added && (removed || lowered))) {
        let up = exists|k: int| 0 <= k < ds.len() && is_upgrade(#[trigger] ds[k]);
        let down = exists|k: int| 0 <= k < ds.len() && is_downgrade(#[trigger] ds[k]);
        if removed {
            let i = choose|i: int| 0 <= i < ds.len() && #[trigger] ds[i] is Removed;
            assert(is_downgrade(ds[i]));
        }
        if added {
            let i = choose|i: int| 0 <= i < ds.len() && #[trigger] ds[i] is Added;
            assert(is_upgrade(ds[i]));
        }
        if raised {
            let i = choose|i: int|
                0 <= i < ds.len() && (#[trigger] ds[i] matches VersionDiffView::Changed(a, b) && change_order(a.0, b.0) == -1);
            assert(is_upgrade(ds[i]));
        }
        if lowered {
            let i = choose|i: int|
                0 <= i < ds.len() && (#[trigger] ds[i] matches VersionDiffView::Changed(a, b) && change_order(a.0, b.0) == 1);
            assert(is_downgrade(ds[i]));
        }
        assert(up && down);
        assert(ds.len() > 0);
    }
}

} // verus!
