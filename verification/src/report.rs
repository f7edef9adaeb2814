//! The diff report of two store snapshots: path statistics, package changes
//! with their selection status and size change.
use vstd::prelude::*;
use crate::store_path::{StorePath, StorePathError, parsed_name_version, opt_view};
use crate::engine::{scan_from, lemma_scan_from, diff_snapshots, diff_list_views, package_changes, lemma_package_changes_sorted};
use crate::model::{Diff, DiffView, DiffStatus, VersionDiff, VersionDiffView};
use crate::package::{Package, PackageSnapshot};
use crate::version::Version;
use crate::text::{str_order, chars_of, range_order, lemma_str_order_zero_iff_equal, lemma_str_order_antisymmetric, lemma_str_order_transitive};

verus! {

/// A store path of a closure with the size of its NAR in bytes.
#[derive(Debug, Clone, PartialEq, Eq)]
pub struct StorePathInfo {
    path: StorePath,
    nar_size: i64,
}

impl View for StorePathInfo {
    type V = (Seq<char>, int);

    closed spec fn view(&self) -> (Seq<char>, int) {
        (self.path@, self.nar_size as int)
    }
}

impl StorePathInfo {
    pub fn new(path: StorePath, nar_size: i64) -> (r: StorePathInfo)
        ensures
            r@ == (path@, nar_size as int),
    {
        StorePathInfo { path, nar_size }
    }

    pub fn path(&self) -> (p: &StorePath)
        ensures
            p@ == self@.0,
    {
        &self.path
    }

    /// The NAR size in bytes.
    pub fn nar_size(&self) -> (n: i64)
        ensures
            n == self@.1,
    {
        self.nar_size
    }
}

/// The closure of a store path and the paths its system selects.
#[derive(Debug, Clone, PartialEq, Eq)]
pub struct StoreSnapshot {
    pub closure: Vec<StorePathInfo>,
    pub selected: Vec<StorePath>,
}

/// The views of a list of texts.
pub open spec fn text_views(v: Seq<String>) -> Seq<Seq<char>> {
    v.map_values(|s: String| s@)
}

/// The views of a list of store paths.
pub open spec fn path_views(v: Seq<StorePath>) -> Seq<Seq<char>> {
    v.map_values(|p: StorePath| p@)
}

/// The paths of a list of path infos.
pub open spec fn info_paths(v: Seq<StorePathInfo>) -> Seq<Seq<char>> {
    v.map_values(|i: StorePathInfo| i@.0)
}

/// Whether `t` occurs among `items`.
fn contains_text(items: &Vec<String>, t: &String) -> (r: bool)
    ensures
        r == text_views(items@).contains(t@),
{
    let mut k: usize = 0;
    while k < items.len()
        invariant
            k <= items@.len(),
            forall|j: int| 0 <= j < k ==> items@[j]@ != t@,
        decreases items@.len() - k,
    {
        if items[k] == *t {
            proof {
                assert(text_views(items@)[k as int] == t@);
            }
            return true;
        }
        k = k + 1;
    }
    proof {
        if text_views(items@).contains(t@) {
            let j = choose|j: int| 0 <= j < text_views(items@).len() && text_views(items@)[j] == t@;
            assert(items@[j]@ == t@);
        }
    }
    false
}

/// The texts of a list, each once.
fn distinct_texts(items: &Vec<String>) -> (r: Vec<String>)
    ensures
        text_views(r@).no_duplicates(),
        text_views(r@).to_set() == text_views(items@).to_set(),
{
    let mut r: Vec<String> = Vec::new();
    let mut k: usize = 0;
    while k < items.len()
        invariant
            k <= items@.len(),
            text_views(r@).no_duplicates(),
            text_views(r@).to_set() == text_views(items@.take(k as int)).to_set(),
        decreases items@.len() - k,
    {
        let seen = contains_text(&r, &items[k]);
        let ghost before = text_views(r@);
        if !seen {
            r.push(items[k].clone());
            proof {
                assert(text_views(r@) =~= before.push(items@[k as int]@));
            }
        }
        proof {
            assert(text_views(items@.take(k + 1)) =~= text_views(items@.take(k as int)).push(items@[k as int]@));
            text_views(items@.take(k as int)).lemma_push_to_set_commute(items@[k as int]@);
            if !seen {
                before.lemma_push_to_set_commute(items@[k as int]@);
            } else {
                assert(text_views(r@).to_set().contains(items@[k as int]@));
                assert(text_views(r@).to_set().insert(items@[k as int]@) =~= text_views(r@).to_set());
            }
        }
        k = k + 1;
    }
    proof {
        assert(items@.take(k as int) =~= items@);
    }
    r
}

/// How many texts of `items` do not occur in `other`.
fn count_missing(items: &Vec<String>, other: &Vec<String>) -> (n: usize)
    requires
        text_views(items@).no_duplicates(),
    ensures
        n == text_views(items@).to_set().difference(text_views(other@).to_set()).len(),
{
    let ghost o = text_views(other@).to_set();
    let mut kept: Vec<String> = Vec::new();
    let mut k: usize = 0;
    while k < items.len()
        invariant
            o == text_views(other@).to_set(),
            text_views(items@).no_duplicates(),
            k <= items@.len(),
            kept@.len() <= k,
            text_views(kept@).no_duplicates(),
            text_views(kept@).to_set() == text_views(items@.take(k as int)).to_set().difference(o),
            forall|x: Seq<char>| text_views(kept@).to_set().contains(x) ==> text_views(items@.take(k as int)).contains(x),
        decreases items@.len() - k,
    {
        let found = contains_text(other, &items[k]);
        let ghost before = text_views(kept@);
        let ghost x = items@[k as int]@;
        proof {
            assert(text_views(items@.take(k + 1)) =~= text_views(items@.take(k as int)).push(x));
            text_views(items@.take(k as int)).lemma_push_to_set_commute(x);
            assert(!text_views(items@.take(k as int)).contains(x)) by {
                if text_views(items@.take(k as int)).contains(x) {
                    let j = choose|j: int| 0 <= j < k && text_views(items@.take(k as int))[j] == x;
                    assert(text_views(items@)[j] == text_views(items@)[k as int]);
                }
            }
        }
        if !found {
            kept.push(items[k].clone());
            proof {
                assert(text_views(kept@) =~= before.push(x));
                before.lemma_push_to_set_commute(x);
                assert(!before.contains(x)) by {
                    if before.contains(x) {
                        assert(before.to_set().contains(x));
                    }
                }
                assert(text_views(kept@).to_set() =~= text_views(items@.take(k + 1)).to_set().difference(o));
            }
        } else {
            proof {
                assert(text_views(kept@).to_set() =~= text_views(items@.take(k + 1)).to_set().difference(o));
            }
        }
        proof {
            assert forall|y: Seq<char>| text_views(kept@).to_set().contains(y) implies text_views(items@.take(k + 1)).contains(y) by {
                assert(text_views(items@.take(k + 1)).to_set().contains(y));
            }
        }
        k = k + 1;
    }
    proof {
        assert(items@.take(k as int) =~= items@);
        text_views(kept@).unique_seq_to_set();
    }
    kept.len()
}

/// Counts of the distinct paths of two closures.
#[derive(Debug, Clone, Copy, PartialEq, Eq)]
pub struct PathStats {
    old: usize,
    new: usize,
    added: usize,
    removed: usize,
}

/// The path counts of two lists of paths: distinct old and new paths, and
/// those found only in the new or only in the old list.
pub open spec fn path_stats_of(old: Seq<Seq<char>>, new: Seq<Seq<char>>) -> (nat, nat, nat, nat) {
    (
        old.to_set().len(),
        new.to_set().len(),
        new.to_set().difference(old.to_set()).len(),
        old.to_set().difference(new.to_set()).len(),
    )
}

impl PathStats {
    pub closed spec fn counts(&self) -> (nat, nat, nat, nat) {
        (self.old as nat, self.new as nat, self.added as nat, self.removed as nat)
    }

    pub fn old_count(self) -> (n: usize)
        ensures
            n == self.counts().0,
    {
        self.old
    }

    pub fn new_count(self) -> (n: usize)
        ensures
            n == self.counts().1,
    {
        self.new
    }

    pub fn added_count(self) -> (n: usize)
        ensures
            n == self.counts().2,
    {
        self.added
    }

    pub fn removed_count(self) -> (n: usize)
        ensures
            n == self.counts().3,
    {
        self.removed
    }

    pub fn new_for_test(old: usize, new: usize, added: usize, removed: usize) -> (s: PathStats)
        ensures
            s.counts() == (old as nat, new as nat, added as nat, removed as nat),
    {
        PathStats { old, new, added, removed }
    }

    fn of_texts(old: &Vec<String>, new: &Vec<String>) -> (s: PathStats)
        ensures
            s.counts() == path_stats_of(text_views(old@), text_views(new@)),
    {
        let old_paths = distinct_texts(old);
        let new_paths = distinct_texts(new);
        proof {
            text_views(old_paths@).unique_seq_to_set();
            text_views(new_paths@).unique_seq_to_set();
        }
        let added = count_missing(&new_paths, &old_paths);
        let removed = count_missing(&old_paths, &new_paths);
        PathStats { old: old_paths.len(), new: new_paths.len(), added, removed }
    }

    /// The path counts of two lists of store paths.
    pub fn between(old: &[StorePath], new: &[StorePath]) -> (s: PathStats)
        ensures
            s.counts() == path_stats_of(path_views(old@), path_views(new@)),
    {
        let a = path_texts(old);
        let b = path_texts(new);
        PathStats::of_texts(&a, &b)
    }

    /// The path counts of the closures of two lists of path infos.
    pub fn between_path_info(old: &[StorePathInfo], new: &[StorePathInfo]) -> (s: PathStats)
        ensures
            s.counts() == path_stats_of(info_paths(old@), info_paths(new@)),
    {
        let a = info_texts(old);
        let b = info_texts(new);
        PathStats::of_texts(&a, &b)
    }
}

/// The texts of a list of store paths.
fn path_texts(paths: &[StorePath]) -> (r: Vec<String>)
    ensures
        text_views(r@) == path_views(paths@),
{
    let mut r: Vec<String> = Vec::new();
    let mut k: usize = 0;
    while k < paths.len()
        invariant
            k <= paths@.len(),
            text_views(r@) == path_views(paths@.take(k as int)),
        decreases paths@.len() - k,
    {
        r.push(paths[k].to_text());
        proof {
            assert(path_views(paths@.take(k + 1)) =~= path_views(paths@.take(k as int)).push(paths@[k as int]@));
            assert(text_views(r@) =~= path_views(paths@.take(k + 1)));
        }
        k = k + 1;
    }
    proof {
        assert(paths@.take(k as int) =~= paths@);
    }
    r
}

/// The path texts of a list of path infos.
fn info_texts(infos: &[StorePathInfo]) -> (r: Vec<String>)
    ensures
        text_views(r@) == info_paths(infos@),
{
    let mut r: Vec<String> = Vec::new();
    let mut k: usize = 0;
    while k < infos.len()
        invariant
            k <= infos@.len(),
            text_views(r@) == info_paths(infos@.take(k as int)),
        decreases infos@.len() - k,
    {
        r.push(infos[k].path().to_text());
        proof {
            assert(info_paths(infos@.take(k + 1)) =~= info_paths(infos@.take(k as int)).push(infos@[k as int]@.0));
            assert(text_views(r@) =~= info_paths(infos@.take(k + 1)));
        }
        k = k + 1;
    }
    proof {
        assert(infos@.take(k as int) =~= infos@);
    }
    r
}

/// The size change of one package, in bytes.
#[derive(Debug, Clone, Copy, PartialEq, Eq)]
pub struct PackageSizeDelta {
    old: i64,
    new: i64,
}

/// Size changes of at most this many bytes are not significant.
pub const PACKAGE_SIZE_DELTA_SIGNIFICANCE_THRESHOLD_BYTES: i64 = 8192;

/// Whether a size change from `old` to `new` bytes is significant.
pub open spec fn is_significant_change(old: int, new: int) -> bool {
    new - old > 8192 || new - old < -8192
}

impl View for PackageSizeDelta {
    type V = (int, int);

    closed spec fn view(&self) -> (int, int) {
        (self.old as int, self.new as int)
    }
}

impl PackageSizeDelta {
    pub fn new(old: i64, new: i64) -> (r: PackageSizeDelta)
        ensures
            r@ == (old as int, new as int),
    {
        PackageSizeDelta { old, new }
    }

    pub fn old_size(self) -> (n: i64)
        ensures
            n == self@.0,
    {
        self.old
    }

    pub fn new_size(self) -> (n: i64)
        ensures
            n == self@.1,
    {
        self.new
    }

    /// The change in bytes, new minus old.
    pub fn delta(self) -> (d: i64)
        requires
            i64::MIN <= self@.1 - self@.0 <= i64::MAX,
        ensures
            d == self@.1 - self@.0,
    {
        self.new - self.old
    }

    /// Whether the change exceeds the significance threshold.
    pub fn is_significant(self) -> (r: bool)
        requires
            i64::MIN < self@.1 - self@.0 <= i64::MAX,
        ensures
            r == is_significant_change(self@.0, self@.1),
    {
        let d = self.delta();
        let magnitude = if d < 0 { -d } else { d };
        magnitude > PACKAGE_SIZE_DELTA_SIGNIFICANCE_THRESHOLD_BYTES
    }
}

/// Whether a derivation is selected by the system, before and after.
#[derive(Debug, Clone, Copy, PartialEq, Eq, Structural, PartialOrd, Ord)]
pub enum DerivationSelectionStatus {
    /// The derivation is a system package, status unchanged.
    Selected,
    /// The derivation was not a system package before but is now.
    NewlySelected,
    /// The derivation is and was a dependency.
    Unselected,
    /// The derivation was a system package before but is not anymore.
    NewlyUnselected,
}

/// The selection status of a name from whether the old and the new system
/// select it.
pub open spec fn selection_of(in_old: bool, in_new: bool) -> DerivationSelectionStatus {
    match (in_old, in_new) {
        (true, true) => DerivationSelectionStatus::Selected,
        (true, false) => DerivationSelectionStatus::NewlyUnselected,
        (false, true) => DerivationSelectionStatus::NewlySelected,
        (false, false) => DerivationSelectionStatus::Unselected,
    }
}

impl DerivationSelectionStatus {
    /// The selection status of `name` given the names the old and the new
    /// system select.
    pub fn from_names(name: &String, old: &Vec<String>, new: &Vec<String>) -> (r: DerivationSelectionStatus)
        ensures
            r == selection_of(text_views(old@).contains(name@), text_views(new@).contains(name@)),
    {
        let in_old = contains_text(old, name);
        let in_new = contains_text(new, name);
        match (in_old, in_new) {
            (true, true) => DerivationSelectionStatus::Selected,
            (true, false) => DerivationSelectionStatus::NewlyUnselected,
            (false, true) => DerivationSelectionStatus::NewlySelected,
            (false, false) => DerivationSelectionStatus::Unselected,
        }
    }
}

/// The change of one package with its selection status and size change.
#[derive(Debug)]
pub struct PackageDiff {
    pub name: String,
    pub versions: Vec<VersionDiff>,
    pub status: DiffStatus,
    pub selection: DerivationSelectionStatus,
    pub has_omitted_versions: bool,
    pub size: PackageSizeDelta,
}

/// The view of a package change with selection and size.
pub ghost struct PackageDiffView {
    pub name: Seq<char>,
    pub versions: Seq<VersionDiffView>,
    pub status: DiffStatus,
    pub selection: DerivationSelectionStatus,
    pub has_omitted_versions: bool,
    pub size: (int, int),
}

impl View for PackageDiff {
    type V = PackageDiffView;

    open spec fn view(&self) -> PackageDiffView {
        PackageDiffView {
            name: self.name@,
            versions: self.versions@.map_values(|d: VersionDiff| d@),
            status: self.status,
            selection: self.selection,
            has_omitted_versions: self.has_omitted_versions,
            size: self.size@,
        }
    }
}

/// Whether entry `k` of a size list has name `name`.
pub open spec fn is_size_name_at(sizes: Seq<(Seq<char>, int)>, name: Seq<char>) -> spec_fn(int) -> bool {
    |k: int| sizes[k].0 == name
}

/// Whether the name of entry `k` of a size list orders after `name`.
pub open spec fn size_name_after_at(sizes: Seq<(Seq<char>, int)>, name: Seq<char>) -> spec_fn(int) -> bool {
    |k: int| str_order(sizes[k].0, name) > 0
}

/// The size recorded for `name`, or zero.
pub open spec fn size_of(sizes: Seq<(Seq<char>, int)>, name: Seq<char>) -> int {
    let k = scan_from(is_size_name_at(sizes, name), 0, sizes.len() as int);
    if k < sizes.len() {
        sizes[k].1
    } else {
        0
    }
}

/// Adds `bytes` to the size of `name`, which is inserted in name order
/// where it is new.
pub open spec fn add_size(sizes: Seq<(Seq<char>, int)>, name: Seq<char>, bytes: int) -> Seq<(Seq<char>, int)> {
    let k = scan_from(is_size_name_at(sizes, name), 0, sizes.len() as int);
    if k < sizes.len() {
        sizes.update(k, (name, sizes[k].1 + bytes))
    } else {
        sizes.insert(scan_from(size_name_after_at(sizes, name), 0, sizes.len() as int), (name, bytes))
    }
}

/// The name and version of a parsed path, with `<none>` for no version.
pub open spec fn path_package(path: Seq<char>) -> Option<(Seq<char>, Seq<char>)> {
    match parsed_name_version(path) {
        Ok((name, version)) => Some((name, match version {
            Some(v) => v,
            None => seq!['<', 'n', 'o', 'n', 'e', '>'],
        })),
        Err(_) => None,
    }
}

/// The packages of the parsable paths of a closure, in order.
pub open spec fn closure_packages(infos: Seq<(Seq<char>, int)>) -> Seq<(Seq<char>, Seq<char>)>
    decreases infos.len(),
{
    if infos.len() == 0 {
        Seq::empty()
    } else {
        let rest = closure_packages(infos.drop_last());
        match path_package(infos.last().0) {
            Some(p) => rest.push(p),
            None => rest,
        }
    }
}

/// The total NAR size of the parsable paths of each package name, in name
/// order.
pub open spec fn closure_sizes(infos: Seq<(Seq<char>, int)>) -> Seq<(Seq<char>, int)>
    decreases infos.len(),
{
    if infos.len() == 0 {
        Seq::empty()
    } else {
        let rest = closure_sizes(infos.drop_last());
        match path_package(infos.last().0) {
            Some(p) => add_size(rest, p.0, infos.last().1),
            None => rest,
        }
    }
}

/// The names of the parsable selected paths.
pub open spec fn selected_names(paths: Seq<Seq<char>>) -> Set<Seq<char>> {
    Set::new(|n: Seq<char>| exists|k: int| 0 <= k < paths.len() && #[trigger] package_name(paths[k]) == Some(n))
}

/// The package name of a parsable path.
pub open spec fn package_name(path: Seq<char>) -> Option<Seq<char>> {
    match parsed_name_version(path) {
        Ok((name, _)) => Some(name),
        Err(_) => None,
    }
}

/// The sum of the magnitudes of the NAR sizes of a closure.
pub open spec fn magnitude_total(infos: Seq<(Seq<char>, int)>) -> int
    decreases infos.len(),
{
    if infos.len() == 0 {
        0
    } else {
        magnitude_total(infos.drop_last()) + (if infos.last().1 < 0 { -infos.last().1 } else { infos.last().1 })
    }
}

/// The sum of the NAR sizes of a closure.
pub open spec fn size_total(infos: Seq<(Seq<char>, int)>) -> int
    decreases infos.len(),
{
    if infos.len() == 0 {
        0
    } else {
        size_total(infos.drop_last()) + infos.last().1
    }
}

/// The views of a list of path infos.
pub open spec fn info_views(v: Seq<StorePathInfo>) -> Seq<(Seq<char>, int)> {
    v.map_values(|i: StorePathInfo| i@)
}

/// Every size of the list is at most `b` in magnitude.
pub open spec fn sizes_within(sizes: Seq<(Seq<char>, int)>, b: int) -> bool {
    forall|k: int| 0 <= k < sizes.len() ==> -b <= (#[trigger] sizes[k]).1 <= b
}

/// The views of a list of sizes by name.
pub open spec fn size_views(v: Seq<(String, i64)>) -> Seq<(Seq<char>, int)> {
    v.map_values(|e: (String, i64)| (e.0@, e.1 as int))
}

pub proof fn lemma_add_size_within(sizes: Seq<(Seq<char>, int)>, name: Seq<char>, bytes: int, b: int)
    requires
        b >= 0,
        sizes_within(sizes, b),
    ensures
        sizes_within(add_size(sizes, name, bytes), b + (if bytes < 0 { -bytes } else { bytes })),
{
    lemma_scan_from(is_size_name_at(sizes, name), 0, sizes.len() as int);
    lemma_scan_from(size_name_after_at(sizes, name), 0, sizes.len() as int);
    let r = add_size(sizes, name, bytes);
    let k = scan_from(is_size_name_at(sizes, name), 0, sizes.len() as int);
    let q = scan_from(size_name_after_at(sizes, name), 0, sizes.len() as int);
    let b2 = b + (if bytes < 0 { -bytes } else { bytes });
    assert forall|j: int| 0 <= j < r.len() implies -b2 <= (#[trigger] r[j]).1 <= b2 by {
        if k < sizes.len() {
            if j != k {
                assert(r[j] == sizes[j]);
            }
        } else if j < q {
            assert(r[j] == sizes[j]);
        } else if j > q {
            assert(r[j] == sizes[j - 1]);
        }
    }
}

/// Whether text `a` orders after text `b`.
fn text_after(a: &str, b: &str) -> (r: bool)
    ensures
        r == (str_order(a@, b@) > 0),
{
    let x = chars_of(a);
    let y = chars_of(b);
    assert(x@.subrange(0, x@.len() as int) =~= x@);
    assert(y@.subrange(0, y@.len() as int) =~= y@);
    range_order(&x, 0, x.len(), &y, 0, y.len()) > 0
}

/// The index of `name` in a size list, or its length.
fn size_index(sizes: &Vec<(String, i64)>, name: &String) -> (k: usize)
    ensures
        k == scan_from(is_size_name_at(size_views(sizes@), name@), 0, sizes@.len() as int),
{
    let ghost v = size_views(sizes@);
    let mut k: usize = 0;
    while k < sizes.len()
        invariant
            v == size_views(sizes@),
            k <= v.len(),
            scan_from(is_size_name_at(v, name@), 0, v.len() as int) == scan_from(is_size_name_at(v, name@), k as int, v.len() as int),
        ensures
            k <= v.len(),
            scan_from(is_size_name_at(v, name@), 0, v.len() as int) == k,
        decreases v.len() - k,
    {
        if sizes[k].0 == *name {
            break;
        }
        k = k + 1;
    }
    k
}

/// The size recorded for `name`, or zero.
fn size_for(sizes: &Vec<(String, i64)>, name: &String) -> (n: i64)
    ensures
        n == size_of(size_views(sizes@), name@),
{
    let k = size_index(sizes, name);
    if k < sizes.len() {
        sizes[k].1
    } else {
        0
    }
}

/// Adds `bytes` to the size of `name`.
fn add_package_size(sizes: &mut Vec<(String, i64)>, name: &String, bytes: i64, Ghost(b): Ghost<int>)
    requires
        b >= 0,
        sizes_within(size_views(old(sizes)@), b),
        b + (if bytes < 0 { -(bytes as int) } else { bytes as int }) <= i64::MAX,
    ensures
        size_views(final(sizes)@) == add_size(size_views(old(sizes)@), name@, bytes as int),
{
    let ghost v = size_views(sizes@);
    proof {
        lemma_scan_from(is_size_name_at(v, name@), 0, v.len() as int);
        lemma_scan_from(size_name_after_at(v, name@), 0, v.len() as int);
    }
    let k = size_index(sizes, name);
    if k < sizes.len() {
        let current = sizes[k].1;
        proof {
            assert(v[k as int].1 == current);
        }
        sizes.set(k, (name.clone(), current + bytes));
        proof {
            assert(size_views(sizes@) =~= v.update(k as int, (name@, v[k as int].1 + bytes)));
        }
    } else {
        let mut p: usize = 0;
        while p < sizes.len()
            invariant
                v == size_views(sizes@),
                p <= v.len(),
                scan_from(size_name_after_at(v, name@), 0, v.len() as int) == scan_from(size_name_after_at(v, name@), p as int, v.len() as int),
            ensures
                p <= v.len(),
                scan_from(size_name_after_at(v, name@), 0, v.len() as int) == p,
            decreases v.len() - p,
        {
            if text_after(sizes[p].0.as_str(), name.as_str()) {
                break;
            }
            p = p + 1;
        }
        sizes.insert(p, (name.clone(), bytes));
        proof {
            assert(size_views(sizes@) =~= v.insert(p as int, (name@, bytes as int)));
        }
    }
}

/// The name and version of a path, or `None` where it cannot be read.
fn parse_store_path_lossy(path: &StorePath) -> (r: Option<(String, Option<String>)>)
    ensures
        match r {
            Some((name, version)) => parsed_name_version(path@) == Ok::<(Seq<char>, Option<Seq<char>>), StorePathError>((name@, match version {
                Some(v) => Some(v@),
                None => None,
            })),
            None => parsed_name_version(path@) is Err,
        },
{
    match path.parse_name_and_version() {
        Ok((name, version)) => {
            let v = match version {
                Some(v) => Some(String::from_str(v)),
                None => None,
            };
            Some((String::from_str(name), v))
        },
        Err(_) => None,
    }
}

/// The package list, selected names and sizes by name of one snapshot.
pub struct SnapshotParts {
    pub snapshot: PackageSnapshot,
    pub selected: Vec<String>,
    pub package_sizes: Vec<(String, i64)>,
}

/// The text `<none>`, the version of a package path without one.
fn none_version() -> (v: Version)
    ensures
        v@ == seq!['<', 'n', 'o', 'n', 'e', '>'],
{
    let v = Version::new("<none>");
    proof {
        reveal_strlit("<none>");
    }
    v
}

/// Reads the packages, selected names and package sizes of a snapshot;
/// paths that cannot be read are left out.
pub fn snapshot_parts(snapshot: &StoreSnapshot) -> (r: SnapshotParts)
    requires
        magnitude_total(info_views(snapshot.closure@)) <= i64::MAX,
    ensures
        r.snapshot.packages@.map_values(|p: Package| p@) == closure_packages(info_views(snapshot.closure@)),
        size_views(r.package_sizes@) == closure_sizes(info_views(snapshot.closure@)),
        sizes_within(size_views(r.package_sizes@), magnitude_total(info_views(snapshot.closure@))),
        text_views(r.selected@).to_set() == selected_names(path_views(snapshot.selected@)),
        r.snapshot.packages@.len() <= snapshot.closure@.len(),
{
    let ghost infos = info_views(snapshot.closure@);
    let mut packages: Vec<Package> = Vec::new();
    let mut sizes: Vec<(String, i64)> = Vec::new();
    let mut k: usize = 0;
    proof {
        assert(size_views(sizes@) =~= Seq::<(Seq<char>, int)>::empty());
        assert(packages@.map_values(|p: Package| p@) =~= Seq::<(Seq<char>, Seq<char>)>::empty());
    }
    while k < snapshot.closure.len()
        invariant
            infos == info_views(snapshot.closure@),
            magnitude_total(infos) <= i64::MAX,
            k <= infos.len(),
            packages@.len() <= k,
            packages@.map_values(|p: Package| p@) == closure_packages(infos.take(k as int)),
            size_views(sizes@) == closure_sizes(infos.take(k as int)),
            sizes_within(size_views(sizes@), magnitude_total(infos.take(k as int))),
            magnitude_total(infos.take(k as int)) >= 0,
        decreases infos.len() - k,
    {
        let info = &snapshot.closure[k];
        let ghost pre = infos.take(k as int);
        proof {
            assert(infos.take(k + 1).drop_last() =~= pre);
            assert(infos.take(k + 1).last() == info@);
            lemma_magnitude_prefix(infos, k + 1);
        }
        match parse_store_path_lossy(info.path()) {
            Some((name, version)) => {
                proof {
                    lemma_add_size_within(size_views(sizes@), name@, info@.1, magnitude_total(pre));
                }
                add_package_size(&mut sizes, &name, info.nar_size(), Ghost(magnitude_total(pre)));
                let v = match version {
                    Some(v) => Version { name: v },
                    None => none_version(),
                };
                let ghost before = packages@.map_values(|p: Package| p@);
                packages.push(Package::new(name, v));
                proof {
                    assert(packages@.map_values(|p: Package| p@) =~= before.push(packages@.last()@));
                }
            },
            None => {},
        }
        k = k + 1;
    }
    proof {
        assert(infos.take(k as int) =~= infos);
    }
    let ghost paths = path_views(snapshot.selected@);
    let mut selected: Vec<String> = Vec::new();
    let mut j: usize = 0;
    proof {
        assert(text_views(selected@).to_set() =~= selected_names(paths.take(0)));
    }
    while j < snapshot.selected.len()
        invariant
            paths == path_views(snapshot.selected@),
            j <= paths.len(),
            text_views(selected@).to_set() == selected_names(paths.take(j as int)),
        decreases paths.len() - j,
    {
        let ghost before = text_views(selected@);
        let ghost p = paths[j as int];
        proof {
            assert(paths.take(j + 1) =~= paths.take(j as int).push(p));
            assert(snapshot.selected@[j as int]@ == p);
        }
        match parse_store_path_lossy(&snapshot.selected[j]) {
            Some((name, _)) => {
                selected.push(name);
                proof {
                    assert(text_views(selected@) =~= before.push(selected@.last()@));
                    before.lemma_push_to_set_commute(selected@.last()@);
                    assert(package_name(p) == Some(selected@.last()@));
                    assert(text_views(selected@).to_set() =~= selected_names(paths.take(j + 1))) by {
                        assert forall|n: Seq<char>| selected_names(paths.take(j + 1)).contains(n) implies text_views(selected@).to_set().contains(n) by {
                            let w = choose|w: int| 0 <= w < j + 1 && #[trigger] package_name(paths.take(j + 1)[w]) == Some(n);
                            if w < j {
                                assert(paths.take(j as int)[w] == paths.take(j + 1)[w]);
                                assert(selected_names(paths.take(j as int)).contains(n));
                            }
                        }
                        assert forall|n: Seq<char>| text_views(selected@).to_set().contains(n) implies selected_names(paths.take(j + 1)).contains(n) by {
                            if n != selected@.last()@ {
                                assert(before.to_set().contains(n));
                                assert(selected_names(paths.take(j as int)).contains(n));
                                let w = choose|w: int| 0 <= w < j && #[trigger] package_name(paths.take(j as int)[w]) == Some(n);
                                assert(paths.take(j + 1)[w] == paths.take(j as int)[w]);
                            } else {
                                assert(paths.take(j + 1)[j as int] == p);
                            }
                        }
                    }
                }
            },
            None => {
                proof {
                    assert(package_name(p).is_none());
                    assert(text_views(selected@).to_set() =~= selected_names(paths.take(j + 1))) by {
                        assert forall|n: Seq<char>| selected_names(paths.take(j + 1)).contains(n) implies selected_names(paths.take(j as int)).contains(n) by {
                            let w = choose|w: int| 0 <= w < j + 1 && #[trigger] package_name(paths.take(j + 1)[w]) == Some(n);
                            if w < j {
                                assert(paths.take(j as int)[w] == paths.take(j + 1)[w]);
                            } else {
                                assert(paths.take(j + 1)[w] == p);
                            }
                        }
                        assert forall|n: Seq<char>| selected_names(paths.take(j as int)).contains(n) implies selected_names(paths.take(j + 1)).contains(n) by {
                            let w = choose|w: int| 0 <= w < j && #[trigger] package_name(paths.take(j as int)[w]) == Some(n);
                            assert(paths.take(j + 1)[w] == paths.take(j as int)[w]);
                        }
                    }
                }
            },
        }
        j = j + 1;
    }
    proof {
        assert(paths.take(j as int) =~= paths);
    }
    SnapshotParts { snapshot: PackageSnapshot::new(packages), selected, package_sizes: sizes }
}

proof fn lemma_magnitude_prefix(infos: Seq<(Seq<char>, int)>, k: int)
    requires
        0 <= k <= infos.len(),
    ensures
        0 <= magnitude_total(infos.take(k)) <= magnitude_total(infos),
    decreases infos.len(),
{
    if infos.len() > 0 {
        if k < infos.len() {
            lemma_magnitude_prefix(infos.drop_last(), k);
            assert(infos.drop_last().take(k) =~= infos.take(k));
        } else {
            assert(infos.take(k) =~= infos);
            lemma_magnitude_prefix(infos.drop_last(), k - 1);
            assert(infos.drop_last().take(k - 1) =~= infos.drop_last());
        }
    } else {
        assert(infos.take(k) =~= infos);
    }
}

/// A package change of the engine with its selection status and sizes.
pub open spec fn with_selection_and_size(
    d: DiffView,
    sel_old: Set<Seq<char>>,
    sel_new: Set<Seq<char>>,
    sizes_old: Seq<(Seq<char>, int)>,
    sizes_new: Seq<(Seq<char>, int)>,
) -> PackageDiffView {
    PackageDiffView {
        name: d.name,
        versions: d.versions,
        status: d.status,
        selection: selection_of(sel_old.contains(d.name), sel_new.contains(d.name)),
        has_omitted_versions: d.has_omitted_versions,
        size: (size_of(sizes_old, d.name), size_of(sizes_new, d.name)),
    }
}

/// Whether change `k` is for package `name`.
pub open spec fn is_diff_name_at(acc: Seq<PackageDiffView>, name: Seq<char>) -> spec_fn(int) -> bool {
    |k: int| acc[k].name == name
}

/// Whether the name of change `k` orders after `name`.
pub open spec fn diff_name_after_at(acc: Seq<PackageDiffView>, name: Seq<char>) -> spec_fn(int) -> bool {
    |k: int| str_order(acc[k].name, name) > 0
}

/// Adds a size-only change for `name`, where no change for it is listed
/// and its size changed significantly, in name order.
pub open spec fn add_size_change(
    acc: Seq<PackageDiffView>,
    name: Seq<char>,
    sel_old: Set<Seq<char>>,
    sel_new: Set<Seq<char>>,
    sizes_old: Seq<(Seq<char>, int)>,
    sizes_new: Seq<(Seq<char>, int)>,
) -> Seq<PackageDiffView> {
    let k = scan_from(is_diff_name_at(acc, name), 0, acc.len() as int);
    let so = size_of(sizes_old, name);
    let sn = size_of(sizes_new, name);
    if k < acc.len() || !is_significant_change(so, sn) {
        acc
    } else {
        acc.insert(
            scan_from(diff_name_after_at(acc, name), 0, acc.len() as int),
            PackageDiffView {
                name,
                versions: Seq::empty(),
                status: DiffStatus::Changed,
                selection: selection_of(sel_old.contains(name), sel_new.contains(name)),
                has_omitted_versions: false,
                size: (so, sn),
            },
        )
    }
}

/// Adds the size-only changes of a list of names, first to last.
pub open spec fn add_size_changes(
    acc: Seq<PackageDiffView>,
    names: Seq<Seq<char>>,
    sel_old: Set<Seq<char>>,
    sel_new: Set<Seq<char>>,
    sizes_old: Seq<(Seq<char>, int)>,
    sizes_new: Seq<(Seq<char>, int)>,
) -> Seq<PackageDiffView>
    decreases names.len(),
{
    if names.len() == 0 {
        acc
    } else {
        add_size_change(
            add_size_changes(acc, names.drop_last(), sel_old, sel_new, sizes_old, sizes_new),
            names.last(),
            sel_old,
            sel_new,
            sizes_old,
            sizes_new,
        )
    }
}

/// The names of a size list.
pub open spec fn size_names(sizes: Seq<(Seq<char>, int)>) -> Seq<Seq<char>> {
    sizes.map_values(|e: (Seq<char>, int)| e.0)
}

/// The package changes of two snapshots: the engine's changes with
/// selection and sizes, then a change for every further package whose size
/// changed significantly, all in name order.
pub open spec fn sized_changes(
    packages_old: Seq<(Seq<char>, Seq<char>)>,
    packages_new: Seq<(Seq<char>, Seq<char>)>,
    sel_old: Set<Seq<char>>,
    sel_new: Set<Seq<char>>,
    sizes_old: Seq<(Seq<char>, int)>,
    sizes_new: Seq<(Seq<char>, int)>,
) -> Seq<PackageDiffView> {
    let engine = package_changes(packages_old, packages_new).map_values(
        |d: DiffView| with_selection_and_size(d, sel_old, sel_new, sizes_old, sizes_new),
    );
    let with_old = add_size_changes(engine, size_names(sizes_old), sel_old, sel_new, sizes_old, sizes_new);
    add_size_changes(with_old, size_names(sizes_new), sel_old, sel_new, sizes_old, sizes_new)
}

/// The views of a list of package changes with sizes.
pub open spec fn package_diff_views(v: Seq<PackageDiff>) -> Seq<PackageDiffView> {
    v.map_values(|d: PackageDiff| d@)
}

/// The package views of a snapshot's parts.
pub open spec fn parts_packages(p: SnapshotParts) -> Seq<(Seq<char>, Seq<char>)> {
    p.snapshot.packages@.map_values(|q: Package| q@)
}

/// Adds the size-only change of `name` to `acc`.
fn add_size_change_to(
    acc: &mut Vec<PackageDiff>,
    name: &String,
    old_parts: &SnapshotParts,
    new_parts: &SnapshotParts,
    Ghost(bo): Ghost<int>,
    Ghost(bn): Ghost<int>,
)
    requires
        bo >= 0,
        bn >= 0,
        bo + bn <= i64::MAX,
        sizes_within(size_views(old_parts.package_sizes@), bo),
        sizes_within(size_views(new_parts.package_sizes@), bn),
    ensures
        package_diff_views(final(acc)@) == add_size_change(
            package_diff_views(old(acc)@),
            name@,
            text_views(old_parts.selected@).to_set(),
            text_views(new_parts.selected@).to_set(),
            size_views(old_parts.package_sizes@),
            size_views(new_parts.package_sizes@),
        ),
{
    let ghost v = package_diff_views(acc@);
    let ghost so = size_views(old_parts.package_sizes@);
    let ghost sn = size_views(new_parts.package_sizes@);
    proof {
        lemma_scan_from(is_diff_name_at(v, name@), 0, v.len() as int);
        lemma_scan_from(diff_name_after_at(v, name@), 0, v.len() as int);
        lemma_scan_from(is_size_name_at(so, name@), 0, so.len() as int);
        lemma_scan_from(is_size_name_at(sn, name@), 0, sn.len() as int);
    }
    let mut k: usize = 0;
    while k < acc.len()
        invariant
            v == package_diff_views(acc@),
            k <= v.len(),
            scan_from(is_diff_name_at(v, name@), 0, v.len() as int) == scan_from(is_diff_name_at(v, name@), k as int, v.len() as int),
        ensures
            k <= v.len(),
            scan_from(is_diff_name_at(v, name@), 0, v.len() as int) == k,
        decreases v.len() - k,
    {
        if acc[k].name == *name {
            break;
        }
        k = k + 1;
    }
    if k < acc.len() {
        return;
    }
    let size = PackageSizeDelta::new(size_for(&old_parts.package_sizes, name), size_for(&new_parts.package_sizes, name));
    if !size.is_significant() {
        return;
    }
    let mut p: usize = 0;
    while p < acc.len()
        invariant
            v == package_diff_views(acc@),
            p <= v.len(),
            scan_from(diff_name_after_at(v, name@), 0, v.len() as int) == scan_from(diff_name_after_at(v, name@), p as int, v.len() as int),
        ensures
            p <= v.len(),
            scan_from(diff_name_after_at(v, name@), 0, v.len() as int) == p,
        decreases v.len() - p,
    {
        if text_after(acc[p].name.as_str(), name.as_str()) {
            break;
        }
        p = p + 1;
    }
    let selection = DerivationSelectionStatus::from_names(name, &old_parts.selected, &new_parts.selected);
    let d = PackageDiff {
        name: name.clone(),
        versions: Vec::new(),
        status: DiffStatus::Changed,
        selection,
        has_omitted_versions: false,
        size,
    };
    acc.insert(p, d);
    proof {
        assert(d@.versions =~= Seq::<VersionDiffView>::empty());
        assert(package_diff_views(acc@) =~= v.insert(p as int, d@));
    }
}

/// The package changes of two snapshots' parts, with selection status and
/// size, and with the packages whose size alone changed significantly.
pub fn package_diffs_with_sizes(old: &SnapshotParts, new: &SnapshotParts, Ghost(bo): Ghost<int>, Ghost(bn): Ghost<int>) -> (r: Vec<PackageDiff>)
    requires
        bo >= 0,
        bn >= 0,
        bo + bn <= i64::MAX,
        sizes_within(size_views(old.package_sizes@), bo),
        sizes_within(size_views(new.package_sizes@), bn),
        old.snapshot.packages@.len() < usize::MAX,
        new.snapshot.packages@.len() < usize::MAX,
    ensures
        package_diff_views(r@) == sized_changes(
            parts_packages(*old),
            parts_packages(*new),
            text_views(old.selected@).to_set(),
            text_views(new.selected@).to_set(),
            size_views(old.package_sizes@),
            size_views(new.package_sizes@),
        ),
{
    let ghost sel_old = text_views(old.selected@).to_set();
    let ghost sel_new = text_views(new.selected@).to_set();
    let ghost so = size_views(old.package_sizes@);
    let ghost sn = size_views(new.package_sizes@);
    let engine = diff_snapshots(&old.snapshot, &new.snapshot);
    let ghost ev = diff_list_views(engine@);
    let mut acc: Vec<PackageDiff> = Vec::new();
    let mut k: usize = 0;
    while k < engine.len()
        invariant
            ev == diff_list_views(engine@),
            k <= ev.len(),
            sel_old == text_views(old.selected@).to_set(),
            sel_new == text_views(new.selected@).to_set(),
            so == size_views(old.package_sizes@),
            sn == size_views(new.package_sizes@),
            package_diff_views(acc@) == ev.take(k as int).map_values(
                |d: DiffView| with_selection_and_size(d, sel_old, sel_new, so, sn),
            ),
        decreases ev.len() - k,
    {
        let d = &engine[k];
        let versions = copy_version_diffs(&d.versions);
        let pd = PackageDiff {
            name: d.name.clone(),
            versions,
            status: d.status,
            selection: DerivationSelectionStatus::from_names(&d.name, &old.selected, &new.selected),
            has_omitted_versions: d.has_omitted_versions,
            size: PackageSizeDelta::new(size_for(&old.package_sizes, &d.name), size_for(&new.package_sizes, &d.name)),
        };
        let ghost before = package_diff_views(acc@);
        acc.push(pd);
        proof {
            assert(ev[k as int] == d@);
            assert(ev.take(k + 1) =~= ev.take(k as int).push(d@));
            assert(package_diff_views(acc@) =~= before.push(pd@));
            assert(pd@ == with_selection_and_size(d@, sel_old, sel_new, so, sn));
        }
        k = k + 1;
    }
    proof {
        assert(ev.take(k as int) =~= ev);
    }
    let ghost engine_part = package_diff_views(acc@);
    let mut i: usize = 0;
    while i < old.package_sizes.len()
        invariant
            bo >= 0,
            bn >= 0,
            bo + bn <= i64::MAX,
            sizes_within(size_views(old.package_sizes@), bo),
            sizes_within(size_views(new.package_sizes@), bn),
            sel_old == text_views(old.selected@).to_set(),
            sel_new == text_views(new.selected@).to_set(),
            so == size_views(old.package_sizes@),
            sn == size_views(new.package_sizes@),
            i <= so.len(),
            package_diff_views(acc@) == add_size_changes(engine_part, size_names(so).take(i as int), sel_old, sel_new, so, sn),
        decreases so.len() - i,
    {
        proof {
            assert(size_names(so).take(i + 1).drop_last() =~= size_names(so).take(i as int));
            assert(size_names(so).take(i + 1).last() == old.package_sizes@[i as int].0@);
        }
        add_size_change_to(&mut acc, &old.package_sizes[i].0, old, new, Ghost(bo), Ghost(bn));
        i = i + 1;
    }
    proof {
        assert(size_names(so).take(i as int) =~= size_names(so));
    }
    let ghost with_old = package_diff_views(acc@);
    let mut j: usize = 0;
    while j < new.package_sizes.len()
        invariant
            bo >= 0,
            bn >= 0,
            bo + bn <= i64::MAX,
            sizes_within(size_views(old.package_sizes@), bo),
            sizes_within(size_views(new.package_sizes@), bn),
            sel_old == text_views(old.selected@).to_set(),
            sel_new == text_views(new.selected@).to_set(),
            so == size_views(old.package_sizes@),
            sn == size_views(new.package_sizes@),
            j <= sn.len(),
            package_diff_views(acc@) == add_size_changes(with_old, size_names(sn).take(j as int), sel_old, sel_new, so, sn),
        decreases sn.len() - j,
    {
        proof {
            assert(size_names(sn).take(j + 1).drop_last() =~= size_names(sn).take(j as int));
            assert(size_names(sn).take(j + 1).last() == new.package_sizes@[j as int].0@);
        }
        add_size_change_to(&mut acc, &new.package_sizes[j].0, old, new, Ghost(bo), Ghost(bn));
        j = j + 1;
    }
    proof {
        assert(size_names(sn).take(j as int) =~= size_names(sn));
    }
    acc
}

/// Copies of a list of version changes.
fn copy_version_diffs(ds: &Vec<VersionDiff>) -> (r: Vec<VersionDiff>)
    ensures
        r@.map_values(|d: VersionDiff| d@) == ds@.map_values(|d: VersionDiff| d@),
{
    let mut r: Vec<VersionDiff> = Vec::new();
    let mut k: usize = 0;
    while k < ds.len()
        invariant
            k <= ds@.len(),
            r@.map_values(|d: VersionDiff| d@) == ds@.take(k as int).map_values(|d: VersionDiff| d@),
        decreases ds@.len() - k,
    {
        let d = match &ds[k] {
            VersionDiff::Removed(a) => VersionDiff::Removed(a.copy()),
            VersionDiff::Added(a) => VersionDiff::Added(a.copy()),
            VersionDiff::Changed { old, new } => VersionDiff::Changed { old: old.copy(), new: new.copy() },
            VersionDiff::AmountChanged { version, old_amount, new_amount } => VersionDiff::AmountChanged {
                version: crate::model::copy_version(version),
                old_amount: *old_amount,
                new_amount: *new_amount,
            },
        };
        let ghost before = r@.map_values(|d: VersionDiff| d@);
        r.push(d);
        proof {
            assert(r@.map_values(|d: VersionDiff| d@) =~= before.push(ds@[k as int]@));
            assert(ds@.take(k + 1).map_values(|d: VersionDiff| d@) =~= ds@.take(k as int).map_values(|d: VersionDiff| d@).push(ds@[k as int]@));
        }
        k = k + 1;
    }
    proof {
        assert(ds@.take(k as int) =~= ds@);
    }
    r
}

/// The sum of the NAR sizes of a closure.
fn total_nar_size(paths: &Vec<StorePathInfo>) -> (n: i64)
    requires
        magnitude_total(info_views(paths@)) <= i64::MAX,
    ensures
        n == size_total(info_views(paths@)),
{
    let ghost infos = info_views(paths@);
    let mut total: i64 = 0;
    let mut k: usize = 0;
    while k < paths.len()
        invariant
            infos == info_views(paths@),
            magnitude_total(infos) <= i64::MAX,
            k <= infos.len(),
            total == size_total(infos.take(k as int)),
            -magnitude_total(infos.take(k as int)) <= total <= magnitude_total(infos.take(k as int)),
        decreases infos.len() - k,
    {
        proof {
            assert(infos.take(k + 1).drop_last() =~= infos.take(k as int));
            assert(infos.take(k + 1).last() == paths@[k as int]@);
            lemma_magnitude_prefix(infos, k + 1);
        }
        total = total + paths[k].nar_size();
        k = k + 1;
    }
    proof {
        assert(infos.take(k as int) =~= infos);
    }
    total
}

/// The report of the differences between two store snapshots.
#[derive(Debug)]
pub struct DiffReport {
    diffs: Vec<PackageDiff>,
    path_stats: PathStats,
    size_old: i64,
    size_new: i64,
}

impl DiffReport {
    pub closed spec fn diff_views(&self) -> Seq<PackageDiffView> {
        package_diff_views(self.diffs@)
    }

    pub closed spec fn stats(&self) -> PathStats {
        self.path_stats
    }

    pub closed spec fn sizes(&self) -> (int, int) {
        (self.size_old as int, self.size_new as int)
    }

    pub fn diffs(&self) -> (r: &Vec<PackageDiff>)
        ensures
            package_diff_views(r@) == self.diff_views(),
    {
        &self.diffs
    }

    pub fn path_stats(&self) -> (r: PathStats)
        ensures
            r == self.stats(),
    {
        self.path_stats
    }

    /// The total NAR size of the old closure in bytes.
    pub fn size_old(&self) -> (n: i64)
        ensures
            n == self.sizes().0,
    {
        self.size_old
    }

    /// The total NAR size of the new closure in bytes.
    pub fn size_new(&self) -> (n: i64)
        ensures
            n == self.sizes().1,
    {
        self.size_new
    }

    pub fn new_for_test(diffs: Vec<PackageDiff>, path_stats: PathStats, size_old: i64, size_new: i64) -> (r: DiffReport)
        ensures
            r.diff_views() == package_diff_views(diffs@),
            r.stats() == path_stats,
            r.sizes() == (size_old as int, size_new as int),
    {
        DiffReport { diffs, path_stats, size_old, size_new }
    }
}

/// The report of two store snapshots: path counts, total sizes, and the
/// package changes with selection status and size.
pub fn diff_store_snapshots(old: &StoreSnapshot, new: &StoreSnapshot) -> (r: DiffReport)
    requires
        magnitude_total(info_views(old.closure@)) + magnitude_total(info_views(new.closure@)) <= i64::MAX,
        old.closure@.len() < usize::MAX,
        new.closure@.len() < usize::MAX,
    ensures
        r.stats().counts() == path_stats_of(info_paths(old.closure@), info_paths(new.closure@)),
        r.sizes() == (size_total(info_views(old.closure@)), size_total(info_views(new.closure@))),
        r.diff_views() == sized_changes(
            closure_packages(info_views(old.closure@)),
            closure_packages(info_views(new.closure@)),
            selected_names(path_views(old.selected@)),
            selected_names(path_views(new.selected@)),
            closure_sizes(info_views(old.closure@)),
            closure_sizes(info_views(new.closure@)),
        ),
{
    proof {
        lemma_magnitude_prefix(info_views(old.closure@), 0);
        lemma_magnitude_prefix(info_views(new.closure@), 0);
    }
    let path_stats = PathStats::between_path_info(old.closure.as_slice(), new.closure.as_slice());
    let size_old = total_nar_size(&old.closure);
    let size_new = total_nar_size(&new.closure);
    let old_parts = snapshot_parts(old);
    let new_parts = snapshot_parts(new);
    let diffs = package_diffs_with_sizes(
        &old_parts,
        &new_parts,
        Ghost(magnitude_total(info_views(old.closure@))),
        Ghost(magnitude_total(info_views(new.closure@))),
    );
    DiffReport { diffs, path_stats, size_old, size_new }
}

/// Whether the sum of the NAR sizes' magnitudes is at most `i64::MAX`.
fn magnitudes_within(infos: &Vec<StorePathInfo>, start: i128) -> (r: Option<i128>)
    requires
        0 <= start <= i64::MAX,
    ensures
        match r {
            Some(t) => t == start + magnitude_total(info_views(infos@)) && t <= i64::MAX,
            None => start + magnitude_total(info_views(infos@)) > i64::MAX,
        },
{
    let ghost all = info_views(infos@);
    let mut total: i128 = start;
    let mut k: usize = 0;
    while k < infos.len()
        invariant
            all == info_views(infos@),
            k <= all.len(),
            total == start + magnitude_total(all.take(k as int)),
            0 <= total <= i64::MAX,
        decreases all.len() - k,
    {
        let size = infos[k].nar_size() as i128;
        let magnitude: i128 = if size < 0 { 0 - size } else { size };
        proof {
            assert(all.take(k + 1).drop_last() =~= all.take(k as int));
            assert(all.take(k + 1).last() == infos@[k as int]@);
        }
        total = total + magnitude;
        if total > 9223372036854775807 {
            proof {
                lemma_magnitude_prefix(all, k + 1);
            }
            return None;
        }
        k = k + 1;
    }
    proof {
        assert(all.take(k as int) =~= all);
    }
    Some(total)
}

/// Whether two store snapshots meet the bounds of `diff_store_snapshots`:
/// their NAR sizes' magnitudes sum to at most `i64::MAX`, and each closure
/// has fewer than `usize::MAX` paths.
pub fn snapshots_fit(old: &StoreSnapshot, new: &StoreSnapshot) -> (r: bool)
    ensures
        r == (magnitude_total(info_views(old.closure@)) + magnitude_total(info_views(new.closure@)) <= i64::MAX
            && old.closure@.len() < usize::MAX && new.closure@.len() < usize::MAX),
{
    proof {
        lemma_magnitude_prefix(info_views(old.closure@), 0);
        lemma_magnitude_prefix(info_views(new.closure@), 0);
    }
    if old.closure.len() == usize::MAX || new.closure.len() == usize::MAX {
        return false;
    }
    match magnitudes_within(&old.closure, 0) {
        None => false,
        Some(t) => match magnitudes_within(&new.closure, t) {
            None => false,
            Some(_) => true,
        },
    }
}

/// The total NAR size of a closure in bytes, or `None` where the sizes'
/// magnitudes sum past `i64::MAX`.
pub fn closure_size(infos: &Vec<StorePathInfo>) -> (r: Option<i64>)
    ensures
        r is Some <==> magnitude_total(info_views(infos@)) <= i64::MAX,
        r matches Some(n) ==> n == size_total(info_views(infos@)),
{
    match magnitudes_within(infos, 0) {
        None => None,
        Some(_) => Some(total_nar_size(infos)),
    }
}

/// With the same sizes on both sides, no size-only change is added.
proof fn lemma_no_size_changes(
    acc: Seq<PackageDiffView>,
    names: Seq<Seq<char>>,
    sel_old: Set<Seq<char>>,
    sel_new: Set<Seq<char>>,
    sizes: Seq<(Seq<char>, int)>,
)
    ensures
        add_size_changes(acc, names, sel_old, sel_new, sizes, sizes) == acc,
    decreases names.len(),
{
    if names.len() > 0 {
        lemma_no_size_changes(acc, names.drop_last(), sel_old, sel_new, sizes);
    }
}

/// A store snapshot compared with itself has no package change: the
/// engine finds none, and no package's size changed.
pub proof fn lemma_identical_store_snapshots_unchanged(closure: Seq<(Seq<char>, int)>, selected: Seq<Seq<char>>)
    ensures
        sized_changes(
            closure_packages(closure),
            closure_packages(closure),
            selected_names(selected),
            selected_names(selected),
            closure_sizes(closure),
            closure_sizes(closure),
        ) == Seq::<PackageDiffView>::empty(),
{
    let packages = closure_packages(closure);
    let names = selected_names(selected);
    let sizes = closure_sizes(closure);
    crate::engine::lemma_identical_snapshots_unchanged(packages);
    let engine = package_changes(packages, packages).map_values(
        |d: DiffView| with_selection_and_size(d, names, names, sizes, sizes),
    );
    assert(engine =~= Seq::<PackageDiffView>::empty());
    lemma_no_size_changes(engine, size_names(sizes), names, names, sizes);
}

/// The path counts balance: the old paths less the removed ones and the
/// new paths less the added ones are the same, the paths found on both
/// sides.
pub proof fn lemma_path_stats_balance(old: Seq<Seq<char>>, new: Seq<Seq<char>>)
    ensures
        ({
            let (o, n, a, r) = path_stats_of(old, new);
            &&& r <= o
            &&& a <= n
            &&& o - r == n - a
            &&& o - r == old.to_set().intersect(new.to_set()).len()
        }),
{
    let a = old.to_set();
    let b = new.to_set();
    vstd::seq_lib::seq_to_set_is_finite(old);
    vstd::seq_lib::seq_to_set_is_finite(new);
    vstd::set_lib::lemma_set_difference_len(a, b);
    vstd::set_lib::lemma_set_difference_len(b, a);
    assert(a.intersect(b) =~= b.intersect(a));
}

/// Whether the names of package changes strictly increase.
pub open spec fn diff_names_increasing(ds: Seq<PackageDiffView>) -> bool {
    forall|i: int, j: int| 0 <= i < j < ds.len() ==> str_order((#[trigger] ds[i]).name, (#[trigger] ds[j]).name) < 0
}

/// Adding a size-only change keeps the names increasing.
proof fn lemma_add_size_change_increasing(
    acc: Seq<PackageDiffView>,
    name: Seq<char>,
    sel_old: Set<Seq<char>>,
    sel_new: Set<Seq<char>>,
    sizes_old: Seq<(Seq<char>, int)>,
    sizes_new: Seq<(Seq<char>, int)>,
)
    requires
        diff_names_increasing(acc),
    ensures
        diff_names_increasing(add_size_change(acc, name, sel_old, sel_new, sizes_old, sizes_new)),
{
    let n = acc.len() as int;
    lemma_scan_from(is_diff_name_at(acc, name), 0, n);
    lemma_scan_from(diff_name_after_at(acc, name), 0, n);
    let k = scan_from(is_diff_name_at(acc, name), 0, n);
    let r = add_size_change(acc, name, sel_old, sel_new, sizes_old, sizes_new);
    if k >= n && is_significant_change(size_of(sizes_old, name), size_of(sizes_new, name)) {
        let q = scan_from(diff_name_after_at(acc, name), 0, n);
        assert forall|i: int| 0 <= i < n implies (i < q ==> str_order(#[trigger] acc[i].name, name) < 0)
            && (i >= q ==> str_order(acc[i].name, name) > 0) by {
            lemma_str_order_zero_iff_equal(acc[i].name, name);
            assert(!is_diff_name_at(acc, name)(i));
            if i < q {
                assert(!diff_name_after_at(acc, name)(i));
            }
            if i > q {
                assert(diff_name_after_at(acc, name)(q));
                assert(str_order(acc[q].name, acc[i].name) < 0);
                lemma_str_order_antisymmetric(acc[i].name, name);
                lemma_str_order_antisymmetric(acc[q].name, name);
                lemma_str_order_transitive(name, acc[q].name, acc[i].name);
            }
        }
        assert forall|i: int, j: int| 0 <= i < j < r.len() implies str_order((#[trigger] r[i]).name, (#[trigger] r[j]).name) < 0 by {
            if j < q {
                assert(r[i] == acc[i] && r[j] == acc[j]);
            } else if j == q {
                assert(r[i] == acc[i]);
            } else if i < q {
                assert(r[i] == acc[i] && r[j] == acc[j - 1]);
            } else if i == q {
                assert(r[j] == acc[j - 1]);
                lemma_str_order_antisymmetric(acc[j - 1].name, name);
            } else {
                assert(r[i] == acc[i - 1] && r[j] == acc[j - 1]);
            }
        }
    }
}

proof fn lemma_add_size_changes_increasing(
    acc: Seq<PackageDiffView>,
    names: Seq<Seq<char>>,
    sel_old: Set<Seq<char>>,
    sel_new: Set<Seq<char>>,
    sizes_old: Seq<(Seq<char>, int)>,
    sizes_new: Seq<(Seq<char>, int)>,
)
    requires
        diff_names_increasing(acc),
    ensures
        diff_names_increasing(add_size_changes(acc, names, sel_old, sel_new, sizes_old, sizes_new)),
    decreases names.len(),
{
    if names.len() > 0 {
        lemma_add_size_changes_increasing(acc, names.drop_last(), sel_old, sel_new, sizes_old, sizes_new);
        lemma_add_size_change_increasing(
            add_size_changes(acc, names.drop_last(), sel_old, sel_new, sizes_old, sizes_new),
            names.last(),
            sel_old,
            sel_new,
            sizes_old,
            sizes_new,
        );
    }
}

/// The package changes of a report are in strictly increasing name order,
/// size-only changes among them.
pub proof fn lemma_sized_changes_sorted(
    packages_old: Seq<(Seq<char>, Seq<char>)>,
    packages_new: Seq<(Seq<char>, Seq<char>)>,
    sel_old: Set<Seq<char>>,
    sel_new: Set<Seq<char>>,
    sizes_old: Seq<(Seq<char>, int)>,
    sizes_new: Seq<(Seq<char>, int)>,
)
    ensures
        diff_names_increasing(sized_changes(packages_old, packages_new, sel_old, sel_new, sizes_old, sizes_new)),
{
    lemma_package_changes_sorted(packages_old, packages_new);
    let changes = package_changes(packages_old, packages_new);
    let engine = changes.map_values(|d: DiffView| with_selection_and_size(d, sel_old, sel_new, sizes_old, sizes_new));
    assert forall|i: int, j: int| 0 <= i < j < engine.len() implies str_order((#[trigger] engine[i]).name, (#[trigger] engine[j]).name) < 0 by {
        assert(engine[i].name == changes[i].name);
        assert(engine[j].name == changes[j].name);
    }
    lemma_add_size_changes_increasing(engine, size_names(sizes_old), sel_old, sel_new, sizes_old, sizes_new);
    let with_old = add_size_changes(engine, size_names(sizes_old), sel_old, sel_new, sizes_old, sizes_new);
    lemma_add_size_changes_increasing(with_old, size_names(sizes_new), sel_old, sel_new, sizes_old, sizes_new);
}

} // verus!
