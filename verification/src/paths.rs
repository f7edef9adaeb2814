//! Package diffs computed from lists of store paths: store names, their
//! package names and versions, and the package changes between two
//! closures.
use vstd::prelude::*;
use crate::engine::{scan_from, lemma_scan_from};
use crate::store_path::{is_store_location, StorePathError, segment_ranges, path_segments};
use crate::text::{chars_of, is_digit, is_ascii_alphanumeric};
use crate::version::{Version, version_order, comp_views};
use crate::report::{DerivationSelectionStatus, selection_of, text_views};
use crate::matching::{Pairing, PairIndex, pairing_refers, pairings_refer, levenshtein, lemma_component_obeys_view_eq};
use crate::edit::{edit_distance, views, lemma_edit_distance_bounds};
use crate::assignment::{min_weight_assignment, is_assignment, weights_fit, kuhn_munkres_assignment};
use crate::engine::version_after;
use crate::model::copy_version;
use crate::text::str_order;

verus! {

/// Whether a store name starts with a store hash: 32 ASCII letters or
/// digits followed by a dash.
pub open spec fn has_hash_prefix(s: Seq<char>) -> bool {
    &&& s.len() >= 33
    &&& s[32] == '-'
    &&& forall|i: int| 0 <= i < 32 ==> is_ascii_alphanumeric(#[trigger] s[i])
}

/// Whether position `k` of `s` is a slash.
pub open spec fn slash_at(s: Seq<char>) -> spec_fn(int) -> bool {
    |k: int| s[k] == '/'
}

/// The first slash at or after `i`, or `s.len()`.
pub open spec fn next_slash(s: Seq<char>, i: int) -> int {
    scan_from(slash_at(s), i, s.len() as int)
}

/// The store name inside a path under `/tmp/`: the first text after a slash
/// (from position `from` on) that starts with a store hash.
pub open spec fn tmp_store_name_from(s: Seq<char>, from: int) -> Option<Seq<char>>
    decreases s.len() - from,
{
    if from < 0 || from >= s.len() {
        None
    } else {
        let k = next_slash(s, from);
        proof {
            lemma_scan_from(slash_at(s), from, s.len() as int);
        }
        if k >= s.len() {
            None
        } else if has_hash_prefix(s.skip(k + 1)) {
            Some(s.skip(k + 1))
        } else {
            tmp_store_name_from(s, k + 1)
        }
    }
}

/// The text `/nix/store/`.
pub open spec fn nix_store_prefix() -> Seq<char> {
    seq!['/', 'n', 'i', 'x', '/', 's', 't', 'o', 'r', 'e', '/']
}

/// The text `/tmp/`.
pub open spec fn tmp_prefix() -> Seq<char> {
    seq!['/', 't', 'm', 'p', '/']
}

/// Why a store name could not be read from a path.
#[derive(Debug, Clone, Copy, PartialEq, Eq, Structural)]
pub enum StoreNameError {
    /// The path is neither under `/nix/store/` nor under `/tmp/`.
    NotStoreFormat,
    /// A path under `/tmp/` holds no text that starts with a store hash.
    NoTemporaryStoreName,
    /// The store name has no dash.
    NoHashSeparator,
    /// The store name does not start with a valid store hash.
    InvalidHash,
    /// The store name has no package name.
    NoName,
}

/// The store name of a path, checked to start with a store hash, and the
/// name that follows the hash.
pub open spec fn store_name_of(path: Seq<char>) -> Result<Seq<char>, StoreNameError> {
    let store_name = if path.len() >= 11 && path.take(11) == nix_store_prefix() {
        Ok(path.skip(11))
    } else if path.len() >= 5 && path.take(5) == tmp_prefix() {
        match tmp_store_name_from(path, 5) {
            Some(n) => Ok(n),
            None => Err(StoreNameError::NoTemporaryStoreName),
        }
    } else {
        Err(StoreNameError::NotStoreFormat)
    };
    match store_name {
        Err(e) => Err(e),
        Ok(n) => {
            let d = scan_from(crate::store_path::is_dash_at(n), 0, n.len() as int);
            if d >= n.len() {
                Err(StoreNameError::NoHashSeparator)
            } else if d != 32 || !has_hash_prefix(n) {
                Err(StoreNameError::InvalidHash)
            } else {
                Ok(n.skip(d + 1))
            }
        },
    }
}

/// Whether a dash followed by a digit stands at position `k`.
pub open spec fn dash_digit_at(s: Seq<char>) -> spec_fn(int) -> bool {
    |k: int| k + 1 < s.len() && s[k] == '-' && is_digit(s[k + 1])
}

/// A name split before its version: at the first dash that a digit follows.
pub open spec fn split_at_version(name: Seq<char>) -> Result<(Seq<char>, Option<Seq<char>>), StoreNameError> {
    if name.len() == 0 {
        Err(StoreNameError::NoName)
    } else {
        let p = scan_from(dash_digit_at(name), 0, name.len() as int);
        if p >= name.len() {
            Ok((name, None))
        } else if p == 0 {
            Err(StoreNameError::NoName)
        } else {
            Ok((name.take(p), Some(name.skip(p + 1))))
        }
    }
}

/// The package name and version a store path holds.
pub open spec fn name_and_version_of(path: Seq<char>) -> Result<(Seq<char>, Option<Seq<char>>), StoreNameError> {
    match store_name_of(path) {
        Err(e) => Err(e),
        Ok(n) => split_at_version(n),
    }
}

/// Whether `s[start..]` starts with a store hash.
fn hash_prefix_at(s: &Vec<char>, start: usize) -> (r: bool)
    requires
        start <= s@.len(),
    ensures
        r == has_hash_prefix(s@.skip(start as int)),
{
    let ghost t = s@.skip(start as int);
    let total = s.len();
    if total - start < 33 {
        return false;
    }
    if s[start + 32] != '-' {
        assert(t[32] == s@[start + 32]);
        return false;
    }
    assert(t[32] == s@[start + 32]);
    let mut i: usize = 0;
    while i < 32
        invariant
            t == s@.skip(start as int),
            start + 33 <= s@.len(),
            s@.len() <= usize::MAX,
            i <= 32,
            forall|k: int| 0 <= k < i ==> is_ascii_alphanumeric(#[trigger] t[k]),
        decreases 32 - i,
    {
        let c = s[start + i];
        assert(t[i as int] == c);
        if !(('0' <= c && c <= '9') || ('a' <= c && c <= 'z') || ('A' <= c && c <= 'Z')) {
            return false;
        }
        i = i + 1;
    }
    true
}

/// The length of the store hash a store name starts with, if it starts with
/// one.
pub fn store_hash_prefix_len(store_name: &str) -> (r: Option<usize>)
    ensures
        r is Some <==> has_hash_prefix(store_name@),
        r matches Some(n) ==> n == 32,
{
    let chars = chars_of(store_name);
    assert(chars@.skip(0) =~= chars@);
    if hash_prefix_at(&chars, 0) {
        Some(32)
    } else {
        None
    }
}

/// The first slash at or after `i`.
fn next_slash_from(s: &Vec<char>, i: usize) -> (k: usize)
    requires
        i <= s@.len(),
    ensures
        k == next_slash(s@, i as int),
        i <= k <= s@.len(),
{
    proof {
        lemma_scan_from(slash_at(s@), i as int, s@.len() as int);
    }
    let mut k = i;
    while k < s.len()
        invariant
            i <= k <= s@.len(),
            next_slash(s@, i as int) == scan_from(slash_at(s@), k as int, s@.len() as int),
        ensures
            i <= k <= s@.len(),
            next_slash(s@, i as int) == k,
        decreases s@.len() - k,
    {
        if s[k] == '/' {
            break;
        }
        k = k + 1;
    }
    k
}

/// The store name inside a path under `/tmp/`.
pub fn tmp_store_name_from_path(path: &str) -> (r: Option<&str>)
    ensures
        opt_text(r) == tmp_store_name_from(path@, 5),
{
    let chars = chars_of(path);
    let n = chars.len();
    if n <= 5 {
        return None;
    }
    let mut from: usize = 5;
    while from < n
        invariant
            chars@ == path@,
            n == chars@.len(),
            5 <= from,
            tmp_store_name_from(path@, 5) == tmp_store_name_from(path@, from as int),
        decreases n - from,
    {
        let k = next_slash_from(&chars, from);
        if k >= n {
            return None;
        }
        if hash_prefix_at(&chars, k + 1) {
            let name = path.substring_char(k + 1, n);
            proof {
                assert(name@ =~= path@.skip(k + 1));
            }
            return Some(name);
        }
        from = k + 1;
    }
    None
}

/// The view of an optional text.
pub open spec fn opt_text(o: Option<&str>) -> Option<Seq<char>> {
    match o {
        Some(s) => Some(s@),
        None => None,
    }
}

/// Whether `t` starts with the text `p`.
fn starts_with_text(t: &Vec<char>, p: &str) -> (r: bool)
    ensures
        r == (t@.len() >= p@.len() && t@.take(p@.len() as int) == p@),
{
    let pc = chars_of(p);
    if t.len() < pc.len() {
        return false;
    }
    let mut i: usize = 0;
    while i < pc.len()
        invariant
            pc@ == p@,
            t@.len() >= pc@.len(),
            i <= pc@.len(),
            forall|k: int| 0 <= k < i ==> t@[k] == pc@[k],
        decreases pc@.len() - i,
    {
        if t[i] != pc[i] {
            proof {
                assert(t@.take(p@.len() as int)[i as int] != p@[i as int]);
            }
            return false;
        }
        i = i + 1;
    }
    proof {
        assert(t@.take(p@.len() as int) =~= p@);
    }
    true
}

/// The name after the store hash of a store path.
pub fn store_name_from_path(path: &str) -> (r: Result<&str, StoreNameError>)
    ensures
        match r {
            Ok(n) => store_name_of(path@) == Ok::<Seq<char>, StoreNameError>(n@),
            Err(e) => store_name_of(path@) == Err::<Seq<char>, StoreNameError>(e),
        },
{
    let chars = chars_of(path);
    let nix = starts_with_text(&chars, "/nix/store/");
    let tmp = starts_with_text(&chars, "/tmp/");
    proof {
        reveal_strlit("/nix/store/");
        reveal_strlit("/tmp/");
        assert("/nix/store/"@ =~= nix_store_prefix());
        assert("/tmp/"@ =~= tmp_prefix());
    }
    let store_name: &str = if nix {
        let rest = path.substring_char(11, chars.len());
        proof {
            assert(rest@ =~= path@.skip(11));
        }
        rest
    } else if tmp {
        match tmp_store_name_from_path(path) {
            Some(n) => n,
            None => {
                return Err(StoreNameError::NoTemporaryStoreName);
            },
        }
    } else {
        return Err(StoreNameError::NotStoreFormat);
    };
    validate_store_name(store_name)
}

/// The name after the store hash, where the store name starts with a valid
/// store hash and a dash.
pub fn validate_store_name(store_name: &str) -> (r: Result<&str, StoreNameError>)
    ensures
        match r {
            Ok(n) => {
                let d = scan_from(crate::store_path::is_dash_at(store_name@), 0, store_name@.len() as int);
                d < store_name@.len() && d == 32 && has_hash_prefix(store_name@) && n@ == store_name@.skip(d + 1)
            },
            Err(e) => {
                let d = scan_from(crate::store_path::is_dash_at(store_name@), 0, store_name@.len() as int);
                &&& (d >= store_name@.len() ==> e == StoreNameError::NoHashSeparator)
                &&& (d < store_name@.len() ==> e == StoreNameError::InvalidHash && (d != 32 || !has_hash_prefix(store_name@)))
            },
        },
{
    let chars = chars_of(store_name);
    let ghost n = store_name@;
    proof {
        lemma_scan_from(crate::store_path::is_dash_at(n), 0, n.len() as int);
    }
    let mut d: usize = 0;
    while d < chars.len()
        invariant
            chars@ == n,
            d <= n.len(),
            scan_from(crate::store_path::is_dash_at(n), 0, n.len() as int)
                == scan_from(crate::store_path::is_dash_at(n), d as int, n.len() as int),
        ensures
            d <= n.len(),
            scan_from(crate::store_path::is_dash_at(n), 0, n.len() as int) == d,
        decreases n.len() - d,
    {
        if chars[d] == '-' {
            break;
        }
        d = d + 1;
    }
    if d == chars.len() {
        return Err(StoreNameError::NoHashSeparator);
    }
    let prefix = store_hash_prefix_len(store_name);
    if d != 32 || prefix.is_none() {
        return Err(StoreNameError::InvalidHash);
    }
    let name = store_name.substring_char(d + 1, chars.len());
    proof {
        assert(name@ =~= n.skip(d + 1));
    }
    Ok(name)
}

/// A store name split into package name and version at the first dash that
/// a digit follows.
pub fn split_name_and_version(store_name: &str) -> (r: Result<(&str, Option<Version>), StoreNameError>)
    ensures
        match r {
            Ok((name, version)) => split_at_version(store_name@) == Ok::<(Seq<char>, Option<Seq<char>>), StoreNameError>((name@, match version {
                Some(v) => Some(v@),
                None => None,
            })),
            Err(e) => split_at_version(store_name@) == Err::<(Seq<char>, Option<Seq<char>>), StoreNameError>(e),
        },
{
    let chars = chars_of(store_name);
    let ghost n = store_name@;
    if chars.len() == 0 {
        return Err(StoreNameError::NoName);
    }
    proof {
        lemma_scan_from(dash_digit_at(n), 0, n.len() as int);
    }
    let mut p: usize = 0;
    while p < chars.len()
        invariant
            chars@ == n,
            p <= n.len(),
            scan_from(dash_digit_at(n), 0, n.len() as int) == scan_from(dash_digit_at(n), p as int, n.len() as int),
        ensures
            p <= n.len(),
            scan_from(dash_digit_at(n), 0, n.len() as int) == p,
        decreases n.len() - p,
    {
        if p + 1 < chars.len() && chars[p] == '-' && '0' <= chars[p + 1] && chars[p + 1] <= '9' {
            break;
        }
        p = p + 1;
    }
    if p == chars.len() {
        return Ok((store_name, None));
    }
    if p == 0 {
        return Err(StoreNameError::NoName);
    }
    let name = store_name.substring_char(0, p);
    let version = store_name.substring_char(p + 1, chars.len());
    proof {
        assert(name@ =~= n.take(p as int));
        assert(version@ =~= n.skip(p + 1));
    }
    Ok((name, Some(Version::new(version))))
}

/// A store path of a closure: absolute, and under `/nix/store` or `/tmp`.
#[derive(Debug, Clone, PartialEq, Eq, Hash, PartialOrd, Ord)]
pub struct StorePath {
    path: String,
}

impl View for StorePath {
    type V = Seq<char>;

    closed spec fn view(&self) -> Seq<char> {
        self.path@
    }
}

impl StorePath {
    /// A store path, where `path` lies under `/nix/store` or `/tmp`.
    pub fn try_from(path: String) -> (r: Result<StorePath, StorePathError>)
        ensures
            r is Ok <==> is_store_location(path@),
            r matches Ok(p) ==> p@ == path@,
            r matches Err(e) ==> e == StorePathError::OutsideStore,
    {
        match crate::store_path::StorePath::try_from(path) {
            Ok(p) => Ok(StorePath { path: p.to_text() }),
            Err(e) => Err(e),
        }
    }

    /// The path as text.
    pub fn as_str(&self) -> (s: &str)
        ensures
            s@ == self@,
    {
        self.path.as_str()
    }

    /// The package name and version the path holds: the name after the
    /// store hash, split before the first dash that a digit follows.
    pub fn parse_name_and_version(&self) -> (r: Result<(&str, Option<Version>), StoreNameError>)
        ensures
            match r {
                Ok((name, version)) => name_and_version_of(self@) == Ok::<(Seq<char>, Option<Seq<char>>), StoreNameError>((name@, match version {
                    Some(v) => Some(v@),
                    None => None,
                })),
                Err(e) => name_and_version_of(self@) == Err::<(Seq<char>, Option<Seq<char>>), StoreNameError>(e),
            },
    {
        let store_name = store_name_from_path(self.path.as_str())?;
        split_name_and_version(store_name)
    }
}

/// How the versions of a package that changed relate.
#[derive(Debug, Clone, Copy, PartialEq, Eq, Structural)]
pub enum Change {
    UpgradeDowngrade,
    Upgraded,
    Downgraded,
}

/// The kind of change of a package.
#[derive(Debug, Clone, Copy, PartialEq, Eq, Structural)]
pub enum DiffStatus {
    Changed(Change),
    Added,
    Removed,
}

impl DiffStatus {
    /// Changed packages come first, then added ones, then removed ones.
    pub open spec fn rank(self) -> int {
        match self {
            DiffStatus::Changed(_) => 0,
            DiffStatus::Added => 1,
            DiffStatus::Removed => 2,
        }
    }

    /// Whether this status sorts after `other`.
    pub fn sorts_after(&self, other: &Self) -> (r: bool)
        ensures
            r == (self.rank() > other.rank()),
    {
        match (self, other) {
            (DiffStatus::Changed(_), _) => false,
            (DiffStatus::Added, DiffStatus::Changed(_)) => true,
            (DiffStatus::Added, _) => false,
            (DiffStatus::Removed, DiffStatus::Removed) => false,
            (DiffStatus::Removed, _) => true,
        }
    }

    /// Whether this status sorts with `other`.
    pub fn sorts_with(&self, other: &Self) -> (r: bool)
        ensures
            r == (self.rank() == other.rank()),
    {
        match (self, other) {
            (DiffStatus::Changed(_), DiffStatus::Changed(_)) => true,
            (DiffStatus::Added, DiffStatus::Added) => true,
            (DiffStatus::Removed, DiffStatus::Removed) => true,
            _ => false,
        }
    }
}

/// The change of one package between two lists of store paths.
#[derive(Debug, PartialEq, Eq)]
pub struct Diff {
    pub name: String,
    pub old: Vec<Version>,
    pub new: Vec<Version>,
    pub status: DiffStatus,
    pub selection: DerivationSelectionStatus,
    pub has_common_versions: bool,
}

/// The view of a package change.
pub ghost struct PathDiffView {
    pub name: Seq<char>,
    pub old: Seq<Seq<char>>,
    pub new: Seq<Seq<char>>,
    pub status: DiffStatus,
    pub selection: DerivationSelectionStatus,
    pub has_common_versions: bool,
}

/// The views of a list of versions.
pub open spec fn version_views(v: Seq<Version>) -> Seq<Seq<char>> {
    v.map_values(|x: Version| x@)
}

impl View for Diff {
    type V = PathDiffView;

    open spec fn view(&self) -> PathDiffView {
        PathDiffView {
            name: self.name@,
            old: version_views(self.old@),
            new: version_views(self.new@),
            status: self.status,
            selection: self.selection,
            has_common_versions: self.has_common_versions,
        }
    }
}

impl Default for Diff {
    fn default() -> (d: Diff)
        ensures
            d@ == (PathDiffView {
                name: Seq::empty(),
                old: Seq::empty(),
                new: Seq::empty(),
                status: DiffStatus::Changed(Change::UpgradeDowngrade),
                selection: DerivationSelectionStatus::Unselected,
                has_common_versions: false,
            }),
    {
        let d = Diff {
            name: String::new(),
            old: Vec::new(),
            new: Vec::new(),
            status: DiffStatus::Changed(Change::UpgradeDowngrade),
            selection: DerivationSelectionStatus::Unselected,
            has_common_versions: false,
        };
        assert(d@.old =~= Seq::<Seq<char>>::empty());
        assert(d@.new =~= Seq::<Seq<char>>::empty());
        d
    }
}

/// An edit distance as an assignment weight, at most `i32::MAX`.
pub open spec fn distance_weight(d: int) -> i32 {
    if d <= i32::MAX {
        d as i32
    } else {
        i32::MAX
    }
}

/// The weights of pairing version `x` with each version of `b`.
pub open spec fn distance_row(x: Seq<char>, b: Seq<Seq<char>>) -> Seq<i32> {
    Seq::new(b.len(), |j: int| distance_weight(edit_distance(comp_views(x), comp_views(b[j]))))
}

/// The weights of pairing the versions of `a` with those of `b`, row by row.
pub open spec fn row_major_distances(a: Seq<Seq<char>>, b: Seq<Seq<char>>) -> Seq<i32>
    decreases a.len(),
{
    if a.len() == 0 {
        Seq::empty()
    } else {
        row_major_distances(a.drop_last(), b) + distance_row(a.last(), b)
    }
}

/// Whether some row is assigned column `j`.
pub open spec fn is_assigned(assign: Seq<usize>, j: int) -> bool {
    exists|i: int| 0 <= i < assign.len() && assign[i] == j
}

/// The columns below `m` that no row is assigned, in increasing order.
pub open spec fn unassigned_upto(assign: Seq<usize>, m: int) -> Seq<int>
    decreases m,
{
    if m <= 0 {
        Seq::empty()
    } else if is_assigned(assign, m - 1) {
        unassigned_upto(assign, m - 1)
    } else {
        unassigned_upto(assign, m - 1).push(m - 1)
    }
}

/// Whether the version at entry `k` of `list` orders after version `x`.
pub open spec fn orders_after_index(list: Seq<int>, b: Seq<Seq<char>>, x: int) -> spec_fn(int) -> bool {
    |k: int| version_order(b[list[k]], b[x]) > 0
}

/// Inserts index `x` before the first entry whose version orders after it.
pub open spec fn insert_by_version(list: Seq<int>, b: Seq<Seq<char>>, x: int) -> Seq<int> {
    list.insert(scan_from(orders_after_index(list, b, x), 0, list.len() as int), x)
}

/// Indexes sorted by the order of their versions, equal ones keeping their
/// order.
pub open spec fn sort_by_version(js: Seq<int>, b: Seq<Seq<char>>) -> Seq<int>
    decreases js.len(),
{
    if js.len() == 0 {
        Seq::empty()
    } else {
        insert_by_version(sort_by_version(js.drop_last(), b), b, js.last())
    }
}

/// How two version lists are paired: by a minimum-weight assignment of the
/// shorter list into the longer one, with edit distances of component lists
/// as weights; the versions left over follow, sorted.
pub open spec fn list_pairs(from: Seq<Seq<char>>, to: Seq<Seq<char>>) -> Seq<PairIndex> {
    if from.len() == 0 {
        Seq::new(to.len(), |j: int| PairIndex::Right(j))
    } else if to.len() == 0 {
        Seq::new(from.len(), |i: int| PairIndex::Left(i))
    } else if from.len() == 1 && to.len() == 1 && from[0] == to[0] {
        seq![PairIndex::Both(0, 0)]
    } else {
        let swapped = from.len() > to.len();
        let a = if swapped { to } else { from };
        let b = if swapped { from } else { to };
        let assign = min_weight_assignment(a.len(), b.len(), row_major_distances(a, b));
        let both = Seq::new(a.len(), |i: int| if swapped {
            PairIndex::Both(assign[i] as int, i)
        } else {
            PairIndex::Both(i, assign[i] as int)
        });
        let rest = sort_by_version(unassigned_upto(assign, b.len() as int), b);
        both + rest.map_values(|j: int| if swapped { PairIndex::Left(j) } else { PairIndex::Right(j) })
    }
}

/// Whether the component lists of the versions are short enough for the
/// assignment's weights.
pub open spec fn lists_fit(from: Seq<Seq<char>>, to: Seq<Seq<char>>) -> bool {
    let f = from.len() + to.len() + 2;
    &&& forall|i: int| 0 <= i < from.len() ==> comp_views(#[trigger] from[i]).len() * f <= i32::MAX
    &&& forall|j: int| 0 <= j < to.len() ==> comp_views(#[trigger] to[j]).len() * f <= i32::MAX
}

/// An edit distance as an assignment weight.
fn distance_weight_of(d: usize) -> (w: i32)
    ensures
        w == distance_weight(d as int),
{
    if d <= 2147483647usize {
        d as i32
    } else {
        i32::MAX
    }
}

proof fn lemma_row_major_len(a: Seq<Seq<char>>, b: Seq<Seq<char>>)
    ensures
        row_major_distances(a, b).len() == a.len() * b.len(),
    decreases a.len(),
{
    if a.len() > 0 {
        lemma_row_major_len(a.drop_last(), b);
        let n = a.len() as int;
        let m = b.len() as int;
        assert((n - 1) * m + m == n * m) by (nonlinear_arith);
    }
}

proof fn lemma_row_major_at(a: Seq<Seq<char>>, b: Seq<Seq<char>>, i: int, j: int)
    requires
        0 <= i < a.len(),
        0 <= j < b.len(),
    ensures
        i * b.len() + j < row_major_distances(a, b).len(),
        row_major_distances(a, b)[i * b.len() + j] == distance_row(a[i], b)[j],
    decreases a.len(),
{
    lemma_row_major_len(a, b);
    let n = a.len() as int;
    let m = b.len() as int;
    let init = a.drop_last();
    lemma_row_major_len(init, b);
    assert(i * m + j < n * m) by (nonlinear_arith)
        requires
            0 <= i < n,
            0 <= j < m,
    ;
    if i < n - 1 {
        lemma_row_major_at(init, b, i, j);
        assert(a[i] == init[i]);
    } else {
        assert((n - 1) * m + j == i * m + j);
    }
}

/// The pairing weights of two version lists, row by row.
fn distance_weights<'a>(a: &'a [Version], b: &'a [Version]) -> (w: Vec<i32>)
    requires
        lists_fit(version_views(a@), version_views(b@)),
    ensures
        w@ == row_major_distances(version_views(a@), version_views(b@)),
        weights_fit(a@.len() as nat, b@.len() as nat, w@),
{
    let ghost av = version_views(a@);
    let ghost bv = version_views(b@);
    let ghost f = av.len() + bv.len() + 2;
    let mut a_components: Vec<Vec<crate::version::VersionComponent<'a>>> = Vec::new();
    let mut i: usize = 0;
    while i < a.len()
        invariant
            i <= a@.len(),
            a_components@.len() == i,
            forall|k: int| 0 <= k < i ==> (#[trigger] a_components@[k])@.len() < usize::MAX
                && views(a_components@[k]@) == comp_views(a@[k]@),
        decreases a@.len() - i,
    {
        let c = a[i].components();
        proof {
            assert(views(c@) =~= c@.map_values(|x: crate::version::VersionComponent| x@));
        }
        a_components.push(c);
        i = i + 1;
    }
    let mut b_components: Vec<Vec<crate::version::VersionComponent<'a>>> = Vec::new();
    let mut j: usize = 0;
    while j < b.len()
        invariant
            j <= b@.len(),
            b_components@.len() == j,
            forall|k: int| 0 <= k < j ==> (#[trigger] b_components@[k])@.len() < usize::MAX
                && views(b_components@[k]@) == comp_views(b@[k]@),
        decreases b@.len() - j,
    {
        let c = b[j].components();
        proof {
            assert(views(c@) =~= c@.map_values(|x: crate::version::VersionComponent| x@));
        }
        b_components.push(c);
        j = j + 1;
    }
    proof {
        lemma_component_obeys_view_eq();
    }
    let mut w: Vec<i32> = Vec::new();
    let mut i: usize = 0;
    while i < a.len()
        invariant
            av == version_views(a@),
            bv == version_views(b@),
            f == av.len() + bv.len() + 2,
            lists_fit(av, bv),
            vstd::laws_eq::obeys_view_eq::<crate::version::VersionComponent>(),
            i <= a@.len(),
            a_components@.len() == a@.len(),
            b_components@.len() == b@.len(),
            forall|k: int| 0 <= k < a@.len() ==> (#[trigger] a_components@[k])@.len() < usize::MAX
                && views(a_components@[k]@) == comp_views(a@[k]@),
            forall|k: int| 0 <= k < b@.len() ==> (#[trigger] b_components@[k])@.len() < usize::MAX
                && views(b_components@[k]@) == comp_views(b@[k]@),
            w@ == row_major_distances(av.take(i as int), bv),
            forall|k: int| 0 <= k < w@.len() ==> 0 <= #[trigger] w@[k] && w@[k] * f <= i32::MAX,
        decreases a@.len() - i,
    {
        let ghost row = distance_row(av[i as int], bv);
        let ghost start = w@;
        let mut j: usize = 0;
        while j < b.len()
            invariant
                av == version_views(a@),
                bv == version_views(b@),
                f == av.len() + bv.len() + 2,
                lists_fit(av, bv),
                vstd::laws_eq::obeys_view_eq::<crate::version::VersionComponent>(),
                i < a@.len(),
                j <= b@.len(),
                row == distance_row(av[i as int], bv),
                a_components@.len() == a@.len(),
                b_components@.len() == b@.len(),
                forall|k: int| 0 <= k < a@.len() ==> (#[trigger] a_components@[k])@.len() < usize::MAX
                    && views(a_components@[k]@) == comp_views(a@[k]@),
                forall|k: int| 0 <= k < b@.len() ==> (#[trigger] b_components@[k])@.len() < usize::MAX
                    && views(b_components@[k]@) == comp_views(b@[k]@),
                w@ == start + row.take(j as int),
                forall|k: int| 0 <= k < w@.len() ==> 0 <= #[trigger] w@[k] && w@[k] * f <= i32::MAX,
            decreases b@.len() - j,
        {
            let d = levenshtein(a_components[i].as_slice(), b_components[j].as_slice());
            let x = distance_weight_of(d);
            proof {
                let ca = comp_views(av[i as int]);
                let cb = comp_views(bv[j as int]);
                assert(av[i as int] == a@[i as int]@);
                assert(bv[j as int] == b@[j as int]@);
                lemma_edit_distance_bounds(ca, cb);
                assert(ca.len() * f <= i32::MAX);
                assert(cb.len() * f <= i32::MAX);
                let e = edit_distance(ca, cb);
                assert(e * f <= i32::MAX) by (nonlinear_arith)
                    requires
                        0 <= e,
                        e <= ca.len() || e <= cb.len(),
                        ca.len() * f <= i32::MAX,
                        cb.len() * f <= i32::MAX,
                        f >= 2,
                ;
                assert(e <= i32::MAX) by (nonlinear_arith)
                    requires
                        0 <= e,
                        e * f <= i32::MAX,
                        f >= 2,
                ;
                assert(row[j as int] == x);
                assert(row.take(j + 1) =~= row.take(j as int).push(x));
            }
            let ghost before = w@;
            w.push(x);
            proof {
                assert(w@ =~= before.push(x));
            }
            j = j + 1;
        }
        proof {
            assert(row.take(j as int) =~= row);
            assert(av.take(i + 1).drop_last() =~= av.take(i as int));
            assert(av.take(i + 1).last() == av[i as int]);
        }
        i = i + 1;
    }
    proof {
        assert(av.take(i as int) =~= av);
    }
    w
}

/// Indexes as integers.
pub open spec fn index_views(v: Seq<usize>) -> Seq<int> {
    v.map_values(|j: usize| j as int)
}

/// Inserts index `x` before the first entry whose version orders after it.
fn insert_index_by_version(list: &mut Vec<usize>, b: &[Version], x: usize)
    requires
        x < b@.len(),
        forall|k: int| 0 <= k < old(list)@.len() ==> (#[trigger] old(list)@[k]) < b@.len(),
    ensures
        index_views(final(list)@) == insert_by_version(index_views(old(list)@), version_views(b@), x as int),
        forall|k: int| 0 <= k < final(list)@.len() ==> (#[trigger] final(list)@[k]) < b@.len(),
{
    let ghost v = index_views(list@);
    let ghost bv = version_views(b@);
    let mut p: usize = 0;
    while p < list.len()
        invariant
            v == index_views(list@),
            bv == version_views(b@),
            x < b@.len(),
            forall|k: int| 0 <= k < list@.len() ==> (#[trigger] list@[k]) < b@.len(),
            p <= v.len(),
            scan_from(orders_after_index(v, bv, x as int), 0, v.len() as int)
                == scan_from(orders_after_index(v, bv, x as int), p as int, v.len() as int),
        ensures
            p <= v.len(),
            scan_from(orders_after_index(v, bv, x as int), 0, v.len() as int) == p,
        decreases v.len() - p,
    {
        let y = list[p];
        if version_after(&b[y], &b[x]) {
            break;
        }
        p = p + 1;
    }
    list.insert(p, x);
    proof {
        assert(index_views(list@) =~= v.insert(p as int, x as int));
    }
}

/// Pairs the versions of two lists by a minimum-weight assignment of the
/// shorter list into the longer one, where the weight of a pair is the edit
/// distance of the two component lists; the versions left over follow,
/// sorted by version order.
pub fn match_version_lists<'a>(from: &'a [Version], to: &'a [Version]) -> (r: Vec<Pairing<'a, Version>>)
    requires
        lists_fit(version_views(from@), version_views(to@)),
    ensures
        pairings_refer(r@, list_pairs(version_views(from@), version_views(to@)), from@, to@),
{
    let ghost q = list_pairs(version_views(from@), version_views(to@));
    let mut r: Vec<Pairing<'a, Version>> = Vec::new();
    if from.len() == 0 {
        let mut j: usize = 0;
        while j < to.len()
            invariant
                q == list_pairs(version_views(from@), version_views(to@)),
                from@.len() == 0,
                j <= to@.len(),
                r@.len() == j,
                forall|k: int| 0 <= k < j ==> pairing_refers(#[trigger] r@[k], q[k], from@, to@),
            decreases to@.len() - j,
        {
            r.push(Pairing::Right(&to[j]));
            j = j + 1;
        }
        return r;
    }
    if to.len() == 0 {
        let mut i: usize = 0;
        while i < from.len()
            invariant
                q == list_pairs(version_views(from@), version_views(to@)),
                from@.len() > 0,
                to@.len() == 0,
                i <= from@.len(),
                r@.len() == i,
                forall|k: int| 0 <= k < i ==> pairing_refers(#[trigger] r@[k], q[k], from@, to@),
            decreases from@.len() - i,
        {
            r.push(Pairing::Left(&from[i]));
            i = i + 1;
        }
        return r;
    }
    if from.len() == 1 && to.len() == 1 && from[0] == to[0] {
        r.push(Pairing::Both(&from[0], &to[0]));
        proof {
            assert(version_views(from@)[0] == version_views(to@)[0]);
        }
        return r;
    }
    proof {
        if from@.len() == 1 && to@.len() == 1 {
            assert(version_views(from@)[0] == from@[0]@);
            assert(version_views(to@)[0] == to@[0]@);
        }
    }
    let swapped = from.len() > to.len();
    let a: &'a [Version] = if swapped { to } else { from };
    let b: &'a [Version] = if swapped { from } else { to };
    let ghost av = version_views(a@);
    let ghost bv = version_views(b@);
    proof {
        let f = av.len() + bv.len() + 2;
        assert forall|i: int| 0 <= i < av.len() implies comp_views(#[trigger] av[i]).len() * f <= i32::MAX by {
            if swapped {
                assert(av[i] == version_views(to@)[i]);
            } else {
                assert(av[i] == version_views(from@)[i]);
            }
        }
        assert forall|j: int| 0 <= j < bv.len() implies comp_views(#[trigger] bv[j]).len() * f <= i32::MAX by {
            if swapped {
                assert(bv[j] == version_views(from@)[j]);
            } else {
                assert(bv[j] == version_views(to@)[j]);
            }
        }
        lemma_row_major_len(av, bv);
    }
    let weights = distance_weights(a, b);
    let assign = kuhn_munkres_assignment(a.len(), b.len(), weights);
    let ghost both = Seq::new(av.len(), |i: int| if swapped {
        PairIndex::Both(assign@[i] as int, i)
    } else {
        PairIndex::Both(i, assign@[i] as int)
    });
    let ghost rest_spec = sort_by_version(unassigned_upto(assign@, bv.len() as int), bv);
    proof {
        assert(q == both + rest_spec.map_values(|j: int| if swapped { PairIndex::Left(j) } else { PairIndex::Right(j) }));
    }
    let mut i: usize = 0;
    while i < a.len()
        invariant
            q == both + rest_spec.map_values(|j: int| if swapped { PairIndex::Left(j) } else { PairIndex::Right(j) }),
            both == Seq::new(av.len(), |i: int| if swapped {
                PairIndex::Both(assign@[i] as int, i)
            } else {
                PairIndex::Both(i, assign@[i] as int)
            }),
            av == version_views(a@),
            bv == version_views(b@),
            a@ == (if swapped { to@ } else { from@ }),
            b@ == (if swapped { from@ } else { to@ }),
            is_assignment(a@.len() as nat, b@.len() as nat, assign@),
            i <= a@.len(),
            r@.len() == i,
            forall|k: int| 0 <= k < i ==> pairing_refers(#[trigger] r@[k], q[k], from@, to@),
        decreases a@.len() - i,
    {
        let j = assign[i];
        if swapped {
            r.push(Pairing::Both(&b[j], &a[i]));
        } else {
            r.push(Pairing::Both(&a[i], &b[j]));
        }
        proof {
            assert(q[i as int] == both[i as int]);
        }
        i = i + 1;
    }
    let mut matched: Vec<bool> = Vec::new();
    let mut j: usize = 0;
    while j < b.len()
        invariant
            j <= b@.len(),
            matched@.len() == j,
            forall|k: int| 0 <= k < j ==> !matched@[k],
        decreases b@.len() - j,
    {
        matched.push(false);
        j = j + 1;
    }
    let mut i: usize = 0;
    while i < assign.len()
        invariant
            is_assignment(a@.len() as nat, b@.len() as nat, assign@),
            i <= assign@.len(),
            matched@.len() == b@.len(),
            forall|y: int| 0 <= y < b@.len() ==> (#[trigger] matched@[y] <==> is_assigned(assign@.take(i as int), y)),
        decreases assign@.len() - i,
    {
        let y = assign[i];
        matched.set(y, true);
        proof {
            let t1 = assign@.take(i + 1);
            assert forall|z: int| 0 <= z < b@.len() implies (#[trigger] matched@[z] <==> is_assigned(t1, z)) by {
                if z == y {
                    assert(t1[i as int] == y);
                } else if is_assigned(t1, z) {
                    let w = choose|w: int| 0 <= w < t1.len() && t1[w] == z;
                    assert(assign@.take(i as int)[w] == z);
                } else if is_assigned(assign@.take(i as int), z) {
                    let w = choose|w: int| 0 <= w < i && assign@.take(i as int)[w] == z;
                    assert(t1[w] == z);
                }
            }
        }
        i = i + 1;
    }
    proof {
        assert(assign@.take(i as int) =~= assign@);
    }
    let mut rest: Vec<usize> = Vec::new();
    let mut y: usize = 0;
    proof {
        assert(index_views(rest@) =~= sort_by_version(unassigned_upto(assign@, 0), bv));
    }
    while y < b.len()
        invariant
            bv == version_views(b@),
            y <= b@.len(),
            matched@.len() == b@.len(),
            forall|z: int| 0 <= z < b@.len() ==> (#[trigger] matched@[z] <==> is_assigned(assign@, z)),
            index_views(rest@) == sort_by_version(unassigned_upto(assign@, y as int), bv),
            forall|k: int| 0 <= k < rest@.len() ==> (#[trigger] rest@[k]) < b@.len(),
        decreases b@.len() - y,
    {
        proof {
            let u = unassigned_upto(assign@, y as int);
            if !is_assigned(assign@, y as int) {
                assert(unassigned_upto(assign@, y + 1) == u.push(y as int));
                assert(u.push(y as int).drop_last() =~= u);
            }
        }
        if !matched[y] {
            insert_index_by_version(&mut rest, b, y);
        }
        y = y + 1;
    }
    let ghost base = r@.len();
    let mut k: usize = 0;
    while k < rest.len()
        invariant
            q == both + rest_spec.map_values(|j: int| if swapped { PairIndex::Left(j) } else { PairIndex::Right(j) }),
            base == both.len(),
            rest_spec == index_views(rest@),
            b@ == (if swapped { from@ } else { to@ }),
            forall|t: int| 0 <= t < rest@.len() ==> (#[trigger] rest@[t]) < b@.len(),
            k <= rest@.len(),
            r@.len() == base + k,
            forall|t: int| 0 <= t < r@.len() ==> pairing_refers(#[trigger] r@[t], q[t], from@, to@),
        decreases rest@.len() - k,
    {
        let x = rest[k];
        if swapped {
            r.push(Pairing::Left(&b[x]));
        } else {
            r.push(Pairing::Right(&b[x]));
        }
        proof {
            assert(q[base + k] == (if swapped { PairIndex::Left(x as int) } else { PairIndex::Right(x as int) }));
        }
        k = k + 1;
    }
    r
}

/// Whether a pairing is an upgrade (-1), a downgrade (1) or neither (0).
pub open spec fn pair_direction(q: PairIndex, old: Seq<Seq<char>>, new: Seq<Seq<char>>) -> int {
    match q {
        PairIndex::Left(_) => 1,
        PairIndex::Right(_) => -1,
        PairIndex::Both(i, j) => if version_order(old[i], new[j]) < 0 {
            -1
        } else if version_order(old[i], new[j]) > 0 {
            1
        } else {
            0
        },
    }
}

/// The status of a package from the pairing of its old-only and new-only
/// versions: an unpaired old version or a pair that orders down is a
/// downgrade, an unpaired new version or a pair that orders up an upgrade.
pub open spec fn list_change_status(old: Seq<Seq<char>>, new: Seq<Seq<char>>) -> Option<DiffStatus> {
    let ps = list_pairs(old, new);
    let up = exists|k: int| 0 <= k < ps.len() && pair_direction(#[trigger] ps[k], old, new) == -1;
    let down = exists|k: int| 0 <= k < ps.len() && pair_direction(#[trigger] ps[k], old, new) == 1;
    if up && down {
        Some(DiffStatus::Changed(Change::UpgradeDowngrade))
    } else if up {
        Some(DiffStatus::Changed(Change::Upgraded))
    } else if down {
        Some(DiffStatus::Changed(Change::Downgraded))
    } else {
        None
    }
}

/// Whether `a` orders below `b`.
fn version_before(a: &Version, b: &Version) -> (r: bool)
    ensures
        r == (version_order(a@, b@) < 0),
{
    let r = version_after(b, a);
    proof {
        crate::version::lemma_version_order_antisymmetric(a@, b@);
    }
    r
}

/// The status of a package from its old-only and new-only versions.
pub fn determine_change_status(old_versions: &[Version], new_versions: &[Version]) -> (r: Option<DiffStatus>)
    requires
        lists_fit(version_views(old_versions@), version_views(new_versions@)),
    ensures
        r == list_change_status(version_views(old_versions@), version_views(new_versions@)),
{
    let ghost ov = version_views(old_versions@);
    let ghost nv = version_views(new_versions@);
    let pairs = match_version_lists(old_versions, new_versions);
    let ghost ps = list_pairs(ov, nv);
    let mut saw_upgrade = false;
    let mut saw_downgrade = false;
    let mut k: usize = 0;
    while k < pairs.len()
        invariant
            ov == version_views(old_versions@),
            nv == version_views(new_versions@),
            ps == list_pairs(ov, nv),
            pairings_refer(pairs@, ps, old_versions@, new_versions@),
            k <= ps.len(),
            saw_upgrade == exists|t: int| 0 <= t < k && pair_direction(#[trigger] ps[t], ov, nv) == -1,
            saw_downgrade == exists|t: int| 0 <= t < k && pair_direction(#[trigger] ps[t], ov, nv) == 1,
        ensures
            k <= ps.len(),
            saw_upgrade == exists|t: int| 0 <= t < k && pair_direction(#[trigger] ps[t], ov, nv) == -1,
            saw_downgrade == exists|t: int| 0 <= t < k && pair_direction(#[trigger] ps[t], ov, nv) == 1,
            k < ps.len() ==> saw_upgrade && saw_downgrade,
        decreases ps.len() - k,
    {
        proof {
            assert(pairing_refers(pairs@[k as int], ps[k as int], old_versions@, new_versions@));
        }
        match pairs[k] {
            Pairing::Left(_) => {
                saw_downgrade = true;
            },
            Pairing::Right(_) => {
                saw_upgrade = true;
            },
            Pairing::Both(old, new) => {
                proof {
                    if let PairIndex::Both(i, j) = ps[k as int] {
                        assert(ov[i] == old@);
                        assert(nv[j] == new@);
                    }
                }
                if version_before(old, new) {
                    saw_upgrade = true;
                } else if version_after(old, new) {
                    saw_downgrade = true;
                }
            },
        }
        k = k + 1;
        if saw_upgrade && saw_downgrade {
            break;
        }
    }
    proof {
        if saw_upgrade {
            let t = choose|t: int| 0 <= t < k && pair_direction(#[trigger] ps[t], ov, nv) == -1;
            assert(0 <= t < ps.len());
        }
        if saw_downgrade {
            let t = choose|t: int| 0 <= t < k && pair_direction(#[trigger] ps[t], ov, nv) == 1;
            assert(0 <= t < ps.len());
        }
    }
    if saw_upgrade && saw_downgrade {
        Some(DiffStatus::Changed(Change::UpgradeDowngrade))
    } else if saw_upgrade {
        Some(DiffStatus::Changed(Change::Upgraded))
    } else if saw_downgrade {
        Some(DiffStatus::Changed(Change::Downgraded))
    } else {
        None
    }
}

/// The versions of a list, each at its first occurrence.
pub open spec fn distinct_in_order(vs: Seq<Seq<char>>) -> Seq<Seq<char>>
    decreases vs.len(),
{
    if vs.len() == 0 {
        Seq::empty()
    } else if distinct_in_order(vs.drop_last()).contains(vs.last()) {
        distinct_in_order(vs.drop_last())
    } else {
        distinct_in_order(vs.drop_last()).push(vs.last())
    }
}

/// The versions of `vs` that do not occur in `other`, in order.
pub open spec fn keep_absent(vs: Seq<Seq<char>>, other: Seq<Seq<char>>) -> Seq<Seq<char>>
    decreases vs.len(),
{
    if vs.len() == 0 {
        Seq::empty()
    } else if other.contains(vs.last()) {
        keep_absent(vs.drop_last(), other)
    } else {
        keep_absent(vs.drop_last(), other).push(vs.last())
    }
}

/// How many times `v` occurs in `vs`.
pub open spec fn occurrences(vs: Seq<Seq<char>>, v: Seq<char>) -> nat
    decreases vs.len(),
{
    if vs.len() == 0 {
        0
    } else {
        occurrences(vs.drop_last(), v) + if vs.last() == v { 1nat } else { 0nat }
    }
}

/// Whether some version occurs in both lists.
pub open spec fn shares_version(a: Seq<Seq<char>>, b: Seq<Seq<char>>) -> bool {
    exists|i: int| 0 <= i < a.len() && b.contains(#[trigger] a[i])
}

pub proof fn lemma_distinct_in_order(vs: Seq<Seq<char>>)
    ensures
        distinct_in_order(vs).len() <= vs.len(),
        forall|v: Seq<char>| distinct_in_order(vs).contains(v) <==> vs.contains(v),
        distinct_in_order(vs).no_duplicates(),
    decreases vs.len(),
{
    if vs.len() > 0 {
        let init = vs.drop_last();
        lemma_distinct_in_order(init);
        let d = distinct_in_order(vs);
        assert forall|v: Seq<char>| d.contains(v) <==> vs.contains(v) by {
            let di = distinct_in_order(init);
            if vs.contains(v) {
                let k = choose|k: int| 0 <= k < vs.len() && vs[k] == v;
                if k < vs.len() - 1 {
                    assert(init[k] == v);
                    assert(init.contains(v));
                    assert(di.contains(v));
                    let w = choose|w: int| 0 <= w < di.len() && di[w] == v;
                    if d != di {
                        assert(d[w] == di[w]);
                    }
                    assert(d.contains(v));
                } else {
                    assert(v == vs.last());
                    if d != di {
                        assert(d[di.len() as int] == vs.last());
                    }
                    assert(d.contains(v));
                }
            }
            if d.contains(v) && v == vs.last() {
                assert(vs[vs.len() - 1] == v);
            }
            if d.contains(v) && v != vs.last() {
                let k = choose|k: int| 0 <= k < d.len() && d[k] == v;
                if d != di {
                    assert(d == di.push(vs.last()));
                    assert(k < di.len());
                    assert(di[k] == v);
                }
                assert(di.contains(v));
                assert(init.contains(v));
                let k2 = choose|k2: int| 0 <= k2 < init.len() && init[k2] == v;
                assert(vs[k2] == init[k2]);
            }
        }
    }
}

pub proof fn lemma_keep_absent(vs: Seq<Seq<char>>, other: Seq<Seq<char>>)
    ensures
        keep_absent(vs, other).len() <= vs.len(),
        forall|v: Seq<char>| keep_absent(vs, other).contains(v) <==> vs.contains(v) && !other.contains(v),
        vs.no_duplicates() ==> keep_absent(vs, other).no_duplicates(),
    decreases vs.len(),
{
    if vs.len() > 0 {
        let init = vs.drop_last();
        lemma_keep_absent(init, other);
        let r = keep_absent(vs, other);
        assert forall|v: Seq<char>| r.contains(v) <==> vs.contains(v) && !other.contains(v) by {
            let ki = keep_absent(init, other);
            if vs.contains(v) && !other.contains(v) {
                let k = choose|k: int| 0 <= k < vs.len() && vs[k] == v;
                if k < vs.len() - 1 {
                    assert(init[k] == v);
                    assert(init.contains(v));
                    assert(ki.contains(v));
                    let w = choose|w: int| 0 <= w < ki.len() && ki[w] == v;
                    if r != ki {
                        assert(r[w] == ki[w]);
                    }
                    assert(r.contains(v));
                } else {
                    assert(v == vs.last());
                    assert(r[ki.len() as int] == vs.last());
                    assert(r.contains(v));
                }
            }
            if r.contains(v) && v == vs.last() {
                assert(vs[vs.len() - 1] == v);
                if other.contains(v) {
                    assert(r == ki);
                    assert(ki.contains(v));
                    assert(false);
                }
            }
            if r.contains(v) && v != vs.last() {
                let k = choose|k: int| 0 <= k < r.len() && r[k] == v;
                if r != ki {
                    assert(r == ki.push(vs.last()));
                    assert(k < ki.len());
                    assert(ki[k] == v);
                }
                assert(ki.contains(v));
                assert(init.contains(v) && !other.contains(v));
                let k2 = choose|k2: int| 0 <= k2 < init.len() && init[k2] == v;
                assert(vs[k2] == init[k2]);
            }
        }
        if vs.no_duplicates() {
            assert(init.no_duplicates());
            if !other.contains(vs.last()) {
                assert(!init.contains(vs.last())) by {
                    if init.contains(vs.last()) {
                        let k = choose|k: int| 0 <= k < init.len() && init[k] == vs.last();
                        assert(vs[k] == vs[vs.len() - 1]);
                    }
                }
            }
        }
    }
}

/// Whether `v` occurs among `list`.
fn contains_version(list: &Vec<Version>, v: &Version) -> (r: bool)
    ensures
        r == version_views(list@).contains(v@),
{
    let mut k: usize = 0;
    while k < list.len()
        invariant
            k <= list@.len(),
            forall|j: int| 0 <= j < k ==> list@[j]@ != v@,
        decreases list@.len() - k,
    {
        if list[k] == *v {
            proof {
                assert(version_views(list@)[k as int] == v@);
            }
            return true;
        }
        k = k + 1;
    }
    proof {
        if version_views(list@).contains(v@) {
            let j = choose|j: int| 0 <= j < list@.len() && version_views(list@)[j] == v@;
            assert(list@[j]@ == v@);
        }
    }
    false
}

/// Each version of a list with the number of times it occurs, in the order
/// of first occurrence.
pub fn count_versions(versions: &Vec<Version>) -> (r: Vec<(Version, usize)>)
    ensures
        r@.map_values(|e: (Version, usize)| e.0@) == distinct_in_order(version_views(versions@)),
        forall|k: int| 0 <= k < r@.len() ==> (#[trigger] r@[k]).1 == occurrences(version_views(versions@), r@[k].0@),
{
    let ghost vs = version_views(versions@);
    let mut r: Vec<(Version, usize)> = Vec::new();
    let mut i: usize = 0;
    while i < versions.len()
        invariant
            vs == version_views(versions@),
            i <= vs.len(),
            r@.map_values(|e: (Version, usize)| e.0@) == distinct_in_order(vs.take(i as int)),
            forall|k: int| 0 <= k < r@.len() ==> (#[trigger] r@[k]).1 == occurrences(vs.take(i as int), r@[k].0@),
            forall|k: int| 0 <= k < r@.len() ==> (#[trigger] r@[k]).1 <= i,
        decreases vs.len() - i,
    {
        let ghost keys = r@.map_values(|e: (Version, usize)| e.0@);
        let ghost pre = vs.take(i as int);
        let ghost v = vs[i as int];
        proof {
            assert(vs.take(i + 1) =~= pre.push(v));
            assert(pre.push(v).drop_last() =~= pre);
            lemma_distinct_in_order(pre);
        }
        let mut k: usize = 0;
        while k < r.len()
            invariant
                k <= r@.len(),
                keys == r@.map_values(|e: (Version, usize)| e.0@),
                forall|j: int| 0 <= j < k ==> r@[j].0@ != versions@[i as int]@,
                i < versions@.len(),
            ensures
                k <= r@.len(),
                forall|j: int| 0 <= j < k ==> r@[j].0@ != versions@[i as int]@,
                k < r@.len() ==> r@[k as int].0@ == versions@[i as int]@,
            decreases r@.len() - k,
        {
            if r[k].0 == versions[i] {
                break;
            }
            k = k + 1;
        }
        if k < r.len() {
            let count = r[k].1;
            let key = copy_version(&versions[i]);
            r.set(k, (key, count + 1));
            proof {
                assert(keys[k as int] == v);
                assert(keys.contains(v));
                assert(r@.map_values(|e: (Version, usize)| e.0@) =~= keys);
                assert forall|j: int| 0 <= j < r@.len() implies (#[trigger] r@[j]).1 == occurrences(vs.take(i + 1), r@[j].0@) by {
                    assert(occurrences(pre.push(v), r@[j].0@) == occurrences(pre, r@[j].0@) + if v == r@[j].0@ { 1nat } else { 0nat });
                    if j != k {
                        assert(r@[j].0@ == keys[j]);
                        assert(keys.no_duplicates());
                    }
                }
            }
        } else {
            let key = copy_version(&versions[i]);
            r.push((key, 1));
            proof {
                assert(!keys.contains(v)) by {
                    if keys.contains(v) {
                        let j = choose|j: int| 0 <= j < keys.len() && keys[j] == v;
                        assert(r@[j].0@ == versions@[i as int]@);
                    }
                }
                assert(r@.map_values(|e: (Version, usize)| e.0@) =~= keys.push(v));
                assert forall|j: int| 0 <= j < r@.len() implies (#[trigger] r@[j]).1 == occurrences(vs.take(i + 1), r@[j].0@) by {
                    assert(occurrences(pre.push(v), r@[j].0@) == occurrences(pre, r@[j].0@) + if v == r@[j].0@ { 1nat } else { 0nat });
                    if j < keys.len() {
                        assert(r@[j].0@ == keys[j]);
                    } else {
                        lemma_occurrences_absent(pre, v);
                    }
                }
            }
        }
        i = i + 1;
    }
    proof {
        assert(vs.take(i as int) =~= vs);
    }
    r
}

proof fn lemma_occurrences_absent(vs: Seq<Seq<char>>, v: Seq<char>)
    requires
        !distinct_in_order(vs).contains(v),
    ensures
        occurrences(vs, v) == 0,
    decreases vs.len(),
{
    lemma_distinct_in_order(vs);
    if vs.len() > 0 {
        let init = vs.drop_last();
        lemma_distinct_in_order(init);
        assert(!vs.contains(v));
        assert(!init.contains(v)) by {
            if init.contains(v) {
                let k = choose|k: int| 0 <= k < init.len() && init[k] == v;
                assert(vs[k] == v);
            }
        }
        assert(vs.last() != v) by {
            assert(vs[vs.len() - 1] == vs.last());
        }
        lemma_occurrences_absent(init, v);
    }
}

/// The change of one package from its old and new versions, or `None`
/// where no version is found on one side only.
pub open spec fn path_diff(name: Seq<char>, old: Seq<Seq<char>>, new: Seq<Seq<char>>) -> Option<PathDiffView> {
    let unique_old = keep_absent(distinct_in_order(old), new);
    let unique_new = keep_absent(distinct_in_order(new), old);
    let common = shares_version(old, new);
    if unique_old.len() == 0 && unique_new.len() == 0 {
        None
    } else {
        let status = if !common && unique_old.len() == 0 {
            DiffStatus::Added
        } else if !common && unique_new.len() == 0 {
            DiffStatus::Removed
        } else if unique_old.len() == 0 || unique_new.len() == 0 {
            DiffStatus::Changed(Change::UpgradeDowngrade)
        } else {
            match list_change_status(unique_old, unique_new) {
                Some(s) => s,
                None => DiffStatus::Changed(Change::UpgradeDowngrade),
            }
        };
        Some(PathDiffView {
            name,
            old: unique_old,
            new: unique_new,
            status,
            selection: DerivationSelectionStatus::Unselected,
            has_common_versions: common,
        })
    }
}

/// A package name with its old and new versions.
pub ghost struct PathEntryView {
    pub name: Seq<char>,
    pub old: Seq<Seq<char>>,
    pub new: Seq<Seq<char>>,
}

/// The views of package entries.
pub open spec fn entry_views(v: Seq<(String, Vec<Version>, Vec<Version>)>) -> Seq<PathEntryView> {
    v.map_values(|e: (String, Vec<Version>, Vec<Version>)| PathEntryView {
        name: e.0@,
        old: version_views(e.1@),
        new: version_views(e.2@),
    })
}

/// The changes of all entries that changed, in entry order.
pub open spec fn path_diffs(entries: Seq<PathEntryView>) -> Seq<PathDiffView>
    decreases entries.len(),
{
    if entries.len() == 0 {
        Seq::empty()
    } else {
        match path_diff(entries.last().name, entries.last().old, entries.last().new) {
            Some(d) => path_diffs(entries.drop_last()).push(d),
            None => path_diffs(entries.drop_last()),
        }
    }
}

/// The views of a list of changes.
pub open spec fn path_diff_views(v: Seq<Diff>) -> Seq<PathDiffView> {
    v.map_values(|d: Diff| d@)
}

/// The versions of `vs` (a list of distinct versions) that `other` lacks.
fn versions_absent_from(vs: &Vec<(Version, usize)>, other: &Vec<Version>) -> (r: Vec<Version>)
    ensures
        version_views(r@) == keep_absent(vs@.map_values(|e: (Version, usize)| e.0@), version_views(other@)),
{
    let ghost keys = vs@.map_values(|e: (Version, usize)| e.0@);
    let ghost o = version_views(other@);
    let mut r: Vec<Version> = Vec::new();
    let mut k: usize = 0;
    while k < vs.len()
        invariant
            keys == vs@.map_values(|e: (Version, usize)| e.0@),
            o == version_views(other@),
            k <= keys.len(),
            version_views(r@) == keep_absent(keys.take(k as int), o),
        decreases keys.len() - k,
    {
        proof {
            assert(keys.take(k + 1).drop_last() =~= keys.take(k as int));
            assert(keys.take(k + 1).last() == vs@[k as int].0@);
        }
        if !contains_version(other, &vs[k].0) {
            let ghost before = version_views(r@);
            r.push(copy_version(&vs[k].0));
            proof {
                assert(version_views(r@) =~= before.push(vs@[k as int].0@));
            }
        }
        k = k + 1;
    }
    proof {
        assert(keys.take(k as int) =~= keys);
    }
    r
}

/// Whether some version of `a` occurs in `b`.
fn shares_any(a: &Vec<Version>, b: &Vec<Version>) -> (r: bool)
    ensures
        r == shares_version(version_views(a@), version_views(b@)),
{
    let mut k: usize = 0;
    while k < a.len()
        invariant
            k <= a@.len(),
            forall|j: int| 0 <= j < k ==> !version_views(b@).contains(#[trigger] version_views(a@)[j]),
        decreases a@.len() - k,
    {
        if contains_version(b, &a[k]) {
            proof {
                assert(version_views(a@)[k as int] == a@[k as int]@);
            }
            return true;
        }
        proof {
            assert(version_views(a@)[k as int] == a@[k as int]@);
        }
        k = k + 1;
    }
    false
}

pub proof fn lemma_sub_lists_fit(old: Seq<Seq<char>>, new: Seq<Seq<char>>)
    requires
        lists_fit(old, new),
    ensures
        lists_fit(keep_absent(distinct_in_order(old), new), keep_absent(distinct_in_order(new), old)),
{
    let uo = keep_absent(distinct_in_order(old), new);
    let un = keep_absent(distinct_in_order(new), old);
    lemma_distinct_in_order(old);
    lemma_distinct_in_order(new);
    lemma_keep_absent(distinct_in_order(old), new);
    lemma_keep_absent(distinct_in_order(new), old);
    let f = old.len() + new.len() + 2;
    let g = uo.len() + un.len() + 2;
    assert(g <= f);
    assert forall|i: int| 0 <= i < uo.len() implies comp_views(#[trigger] uo[i]).len() * g <= i32::MAX by {
        assert(uo.contains(uo[i]));
        assert(old.contains(uo[i]));
        let k = choose|k: int| 0 <= k < old.len() && old[k] == uo[i];
        assert(comp_views(old[k]).len() * f <= i32::MAX);
        let c = comp_views(uo[i]).len() as int;
        assert(c * g <= c * f) by (nonlinear_arith)
            requires
                c >= 0,
                g <= f,
        ;
    }
    assert forall|j: int| 0 <= j < un.len() implies comp_views(#[trigger] un[j]).len() * g <= i32::MAX by {
        assert(un.contains(un[j]));
        assert(new.contains(un[j]));
        let k = choose|k: int| 0 <= k < new.len() && new[k] == un[j];
        assert(comp_views(new[k]).len() * f <= i32::MAX);
        let c = comp_views(un[j]).len() as int;
        assert(c * g <= c * f) by (nonlinear_arith)
            requires
                c >= 0,
                g <= f,
        ;
    }
}

/// The change of one package from its old and new versions.
fn path_diff_of(name: &String, old: &Vec<Version>, new: &Vec<Version>) -> (r: Option<Diff>)
    requires
        lists_fit(version_views(old@), version_views(new@)),
    ensures
        match r {
            Some(d) => path_diff(name@, version_views(old@), version_views(new@)) == Some(d@),
            None => path_diff(name@, version_views(old@), version_views(new@)).is_none(),
        },
{
    let old_counts = count_versions(old);
    let new_counts = count_versions(new);
    let unique_old = versions_absent_from(&old_counts, new);
    let unique_new = versions_absent_from(&new_counts, old);
    let common = shares_any(old, new);
    if unique_old.len() == 0 && unique_new.len() == 0 {
        return None;
    }
    proof {
        lemma_sub_lists_fit(version_views(old@), version_views(new@));
    }
    let status = if !common && unique_old.len() == 0 {
        DiffStatus::Added
    } else if !common && unique_new.len() == 0 {
        DiffStatus::Removed
    } else if unique_old.len() == 0 || unique_new.len() == 0 {
        DiffStatus::Changed(Change::UpgradeDowngrade)
    } else {
        match determine_change_status(unique_old.as_slice(), unique_new.as_slice()) {
            Some(s) => s,
            None => DiffStatus::Changed(Change::UpgradeDowngrade),
        }
    };
    Some(Diff {
        name: name.clone(),
        old: unique_old,
        new: unique_new,
        status,
        selection: DerivationSelectionStatus::Unselected,
        has_common_versions: common,
    })
}

/// The changes of all packages whose old and new versions differ, in the
/// order of the entries.
pub fn generate_diffs_from_paths(paths: Vec<(String, Vec<Version>, Vec<Version>)>) -> (r: Vec<Diff>)
    requires
        forall|k: int| 0 <= k < paths@.len() ==> lists_fit(
            #[trigger] entry_views(paths@)[k].old,
            entry_views(paths@)[k].new,
        ),
    ensures
        path_diff_views(r@) == path_diffs(entry_views(paths@)),
{
    let ghost es = entry_views(paths@);
    let mut r: Vec<Diff> = Vec::new();
    let mut k: usize = 0;
    while k < paths.len()
        invariant
            es == entry_views(paths@),
            forall|j: int| 0 <= j < es.len() ==> lists_fit(#[trigger] es[j].old, es[j].new),
            k <= es.len(),
            path_diff_views(r@) == path_diffs(es.take(k as int)),
        decreases es.len() - k,
    {
        let (name, old, new) = &paths[k];
        proof {
            assert(es[k as int].old == version_views(old@));
            assert(es.take(k + 1).drop_last() =~= es.take(k as int));
            assert(es.take(k + 1).last() == es[k as int]);
        }
        let ghost before = path_diff_views(r@);
        match path_diff_of(name, old, new) {
            Some(d) => {
                r.push(d);
                proof {
                    assert(path_diff_views(r@) =~= before.push(r@.last()@));
                }
            },
            None => {},
        }
        k = k + 1;
    }
    proof {
        assert(es.take(k as int) =~= es);
    }
    r
}

/// Sets the selection status of every change from whether the old and the
/// new system select its package.
pub fn add_selection_status(diffs: &mut Vec<Diff>, system_paths_old: &Vec<String>, system_paths_new: &Vec<String>)
    ensures
        final(diffs)@.len() == old(diffs)@.len(),
        forall|k: int| 0 <= k < final(diffs)@.len() ==> (#[trigger] final(diffs)@[k])@ == (PathDiffView {
            selection: selection_of(
                text_views(system_paths_old@).contains(old(diffs)@[k]@.name),
                text_views(system_paths_new@).contains(old(diffs)@[k]@.name),
            ),
            ..old(diffs)@[k]@
        }),
{
    let ghost start = diffs@;
    let mut k: usize = 0;
    while k < diffs.len()
        invariant
            diffs@.len() == start.len(),
            k <= start.len(),
            forall|j: int| k <= j < start.len() ==> (#[trigger] diffs@[j]) == start[j],
            forall|j: int| 0 <= j < k ==> (#[trigger] diffs@[j])@ == (PathDiffView {
                selection: selection_of(
                    text_views(system_paths_old@).contains(start[j]@.name),
                    text_views(system_paths_new@).contains(start[j]@.name),
                ),
                ..start[j]@
            }),
        decreases start.len() - k,
    {
        let mut d = diffs.remove(k);
        d.selection = DerivationSelectionStatus::from_names(&d.name, system_paths_old, system_paths_new);
        diffs.insert(k, d);
        k = k + 1;
    }
}

/// The version a parsed store path stands for: its version, or `<none>`.
pub open spec fn version_or_none(v: Option<Seq<char>>) -> Seq<char> {
    match v {
        Some(x) => x,
        None => seq!['<', 'n', 'o', 'n', 'e', '>'],
    }
}

/// Whether entry `k` is for package `name`.
pub open spec fn is_entry_at(entries: Seq<PathEntryView>, name: Seq<char>) -> spec_fn(int) -> bool {
    |k: int| entries[k].name == name
}

/// Adds the version of a store path to its package's entry, or to a new
/// entry at the end; paths that cannot be read are skipped.
pub open spec fn add_path(entries: Seq<PathEntryView>, path: Seq<char>, is_old: bool) -> Seq<PathEntryView> {
    match name_and_version_of(path) {
        Err(_) => entries,
        Ok((name, v)) => {
            let ver = version_or_none(v);
            let k = scan_from(is_entry_at(entries, name), 0, entries.len() as int);
            if k < entries.len() {
                let e = entries[k];
                entries.update(k, if is_old {
                    PathEntryView { name: e.name, old: e.old.push(ver), new: e.new }
                } else {
                    PathEntryView { name: e.name, old: e.old, new: e.new.push(ver) }
                })
            } else {
                entries.push(if is_old {
                    PathEntryView { name, old: seq![ver], new: Seq::empty() }
                } else {
                    PathEntryView { name, old: Seq::empty(), new: seq![ver] }
                })
            }
        },
    }
}

/// Adds the versions of a list of store paths, first to last.
pub open spec fn add_paths(entries: Seq<PathEntryView>, paths: Seq<Seq<char>>, is_old: bool) -> Seq<PathEntryView>
    decreases paths.len(),
{
    if paths.len() == 0 {
        entries
    } else {
        add_path(add_paths(entries, paths.drop_last(), is_old), paths.last(), is_old)
    }
}

/// The packages of two lists of store paths with their old and new
/// versions.
pub open spec fn path_entries(old: Seq<Seq<char>>, new: Seq<Seq<char>>) -> Seq<PathEntryView> {
    add_paths(add_paths(Seq::empty(), old, true), new, false)
}

/// The views of a list of store paths.
pub open spec fn store_path_views(v: Seq<StorePath>) -> Seq<Seq<char>> {
    v.map_values(|p: StorePath| p@)
}

/// The text `<none>` as a version.
fn none_version() -> (v: Version)
    ensures
        v@ == seq!['<', 'n', 'o', 'n', 'e', '>'],
{
    let v = Version::new("<none>");
    proof {
        reveal_strlit("<none>");
    }
    v
}

/// Adds the version of one store path to the entries.
fn add_path_to(entries: &mut Vec<(String, Vec<Version>, Vec<Version>)>, path: &StorePath, is_old: bool)
    ensures
        entry_views(final(entries)@) == add_path(entry_views(old(entries)@), path@, is_old),
{
    let ghost es = entry_views(entries@);
    match path.parse_name_and_version() {
        Err(_) => {},
        Ok((name, version)) => {
            let ver = match version {
                Some(v) => v,
                None => none_version(),
            };
            let ghost n = name@;
            let name_text = String::from_str(name);
            proof {
                lemma_scan_from(is_entry_at(es, n), 0, es.len() as int);
            }
            let mut k: usize = 0;
            while k < entries.len()
                invariant
                    es == entry_views(entries@),
                    n == name@,
                    name_text@ == n,
                    k <= es.len(),
                    scan_from(is_entry_at(es, n), 0, es.len() as int) == scan_from(is_entry_at(es, n), k as int, es.len() as int),
                ensures
                    k <= es.len(),
                    scan_from(is_entry_at(es, n), 0, es.len() as int) == k,
                decreases es.len() - k,
            {
                if entries[k].0 == name_text {
                    proof {
                        assert(es[k as int].name == entries@[k as int].0@);
                    }
                    break;
                }
                proof {
                    assert(es[k as int].name == entries@[k as int].0@);
                }
                k = k + 1;
            }
            if k < entries.len() {
                let (entry_name, mut old_versions, mut new_versions) = entries.remove(k);
                if is_old {
                    old_versions.push(ver);
                } else {
                    new_versions.push(ver);
                }
                entries.insert(k, (entry_name, old_versions, new_versions));
                proof {
                    assert(version_views(old_versions@) =~= if is_old { es[k as int].old.push(ver@) } else { es[k as int].old });
                    assert(version_views(new_versions@) =~= if is_old { es[k as int].new } else { es[k as int].new.push(ver@) });
                    assert(entry_views(entries@) =~= es.update(k as int, if is_old {
                        PathEntryView { name: es[k as int].name, old: es[k as int].old.push(ver@), new: es[k as int].new }
                    } else {
                        PathEntryView { name: es[k as int].name, old: es[k as int].old, new: es[k as int].new.push(ver@) }
                    }));
                }
            } else {
                let mut old_versions: Vec<Version> = Vec::new();
                let mut new_versions: Vec<Version> = Vec::new();
                if is_old {
                    old_versions.push(ver);
                } else {
                    new_versions.push(ver);
                }
                entries.push((name_text, old_versions, new_versions));
                proof {
                    assert(version_views(old_versions@) =~= if is_old { seq![ver@] } else { Seq::<Seq<char>>::empty() });
                    assert(version_views(new_versions@) =~= if is_old { Seq::<Seq<char>>::empty() } else { seq![ver@] });
                    assert(entry_views(entries@) =~= es.push(if is_old {
                        PathEntryView { name: n, old: seq![ver@], new: Seq::empty() }
                    } else {
                        PathEntryView { name: n, old: Seq::empty(), new: seq![ver@] }
                    }));
                }
            }
        },
    }
}

/// Groups the versions of two lists of store paths by package name, in the
/// order in which the names first occur; paths that cannot be read are
/// skipped and a path without a version counts as version `<none>`.
pub fn collect_path_versions(old: &[StorePath], new: &[StorePath]) -> (r: Vec<(String, Vec<Version>, Vec<Version>)>)
    ensures
        entry_views(r@) == path_entries(store_path_views(old@), store_path_views(new@)),
{
    let ghost ov = store_path_views(old@);
    let ghost nv = store_path_views(new@);
    let mut entries: Vec<(String, Vec<Version>, Vec<Version>)> = Vec::new();
    proof {
        assert(entry_views(entries@) =~= Seq::<PathEntryView>::empty());
    }
    let mut i: usize = 0;
    while i < old.len()
        invariant
            ov == store_path_views(old@),
            i <= ov.len(),
            entry_views(entries@) == add_paths(Seq::empty(), ov.take(i as int), true),
        decreases ov.len() - i,
    {
        proof {
            assert(ov.take(i + 1).drop_last() =~= ov.take(i as int));
            assert(ov.take(i + 1).last() == old@[i as int]@);
        }
        add_path_to(&mut entries, &old[i], true);
        i = i + 1;
    }
    proof {
        assert(ov.take(i as int) =~= ov);
    }
    let ghost base = entry_views(entries@);
    let mut j: usize = 0;
    while j < new.len()
        invariant
            nv == store_path_views(new@),
            j <= nv.len(),
            base == add_paths(Seq::empty(), ov, true),
            entry_views(entries@) == add_paths(base, nv.take(j as int), false),
        decreases nv.len() - j,
    {
        proof {
            assert(nv.take(j + 1).drop_last() =~= nv.take(j as int));
            assert(nv.take(j + 1).last() == new@[j as int]@);
        }
        add_path_to(&mut entries, &new[j], false);
        j = j + 1;
    }
    proof {
        assert(nv.take(j as int) =~= nv);
    }
    entries
}

/// The package names of the readable paths of a list.
pub open spec fn system_names(paths: Seq<Seq<char>>) -> Set<Seq<char>> {
    Set::new(|n: Seq<char>| exists|k: int| 0 <= k < paths.len() && #[trigger] name_and_version_of(paths[k]) is Ok
        && name_and_version_of(paths[k])->Ok_0.0 == n)
}

/// The package names of the readable paths of a list; paths that cannot be
/// read are skipped.
pub fn collect_system_names(paths: &[StorePath]) -> (r: Vec<String>)
    ensures
        text_views(r@).to_set() == system_names(store_path_views(paths@)),
{
    let ghost pv = store_path_views(paths@);
    let mut names: Vec<String> = Vec::new();
    let mut j: usize = 0;
    proof {
        assert(text_views(names@).to_set() =~= system_names(pv.take(0)));
    }
    while j < paths.len()
        invariant
            pv == store_path_views(paths@),
            j <= pv.len(),
            text_views(names@).to_set() == system_names(pv.take(j as int)),
        decreases pv.len() - j,
    {
        let ghost before = text_views(names@);
        let ghost p = pv[j as int];
        proof {
            assert(pv.take(j + 1) =~= pv.take(j as int).push(p));
            assert(paths@[j as int]@ == p);
        }
        match paths[j].parse_name_and_version() {
            Ok((name, _)) => {
                names.push(String::from_str(name));
                proof {
                    let x = names@.last()@;
                    assert(text_views(names@) =~= before.push(x));
                    before.lemma_push_to_set_commute(x);
                    assert(text_views(names@).to_set() =~= system_names(pv.take(j + 1))) by {
                        assert forall|n: Seq<char>| system_names(pv.take(j + 1)).contains(n) implies text_views(names@).to_set().contains(n) by {
                            let w = choose|w: int| 0 <= w < j + 1 && #[trigger] name_and_version_of(pv.take(j + 1)[w]) is Ok
                                && name_and_version_of(pv.take(j + 1)[w])->Ok_0.0 == n;
                            if w < j {
                                assert(pv.take(j as int)[w] == pv.take(j + 1)[w]);
                                assert(system_names(pv.take(j as int)).contains(n));
                            } else {
                                assert(pv.take(j + 1)[w] == p);
                            }
                        }
                        assert forall|n: Seq<char>| text_views(names@).to_set().contains(n) implies system_names(pv.take(j + 1)).contains(n) by {
                            if n != x {
                                assert(before.to_set().contains(n));
                                assert(system_names(pv.take(j as int)).contains(n));
                                let w = choose|w: int| 0 <= w < j && #[trigger] name_and_version_of(pv.take(j as int)[w]) is Ok
                                    && name_and_version_of(pv.take(j as int)[w])->Ok_0.0 == n;
                                assert(pv.take(j + 1)[w] == pv.take(j as int)[w]);
                            } else {
                                assert(pv.take(j + 1)[j as int] == p);
                            }
                        }
                    }
                }
            },
            Err(_) => {
                proof {
                    assert(text_views(names@).to_set() =~= system_names(pv.take(j + 1))) by {
                        assert forall|n: Seq<char>| system_names(pv.take(j + 1)).contains(n) implies system_names(pv.take(j as int)).contains(n) by {
                            let w = choose|w: int| 0 <= w < j + 1 && #[trigger] name_and_version_of(pv.take(j + 1)[w]) is Ok
                                && name_and_version_of(pv.take(j + 1)[w])->Ok_0.0 == n;
                            if w < j {
                                assert(pv.take(j as int)[w] == pv.take(j + 1)[w]);
                            } else {
                                assert(pv.take(j + 1)[w] == p);
                            }
                        }
                        assert forall|n: Seq<char>| system_names(pv.take(j as int)).contains(n) implies system_names(pv.take(j + 1)).contains(n) by {
                            let w = choose|w: int| 0 <= w < j && #[trigger] name_and_version_of(pv.take(j as int)[w]) is Ok
                                && name_and_version_of(pv.take(j as int)[w])->Ok_0.0 == n;
                            assert(pv.take(j + 1)[w] == pv.take(j as int)[w]);
                        }
                    }
                }
            },
        }
        j = j + 1;
    }
    proof {
        assert(pv.take(j as int) =~= pv);
    }
    names
}


/// The versions that the paths holding package `name` give, in order.
pub open spec fn versions_named(paths: Seq<Seq<char>>, name: Seq<char>) -> Seq<Seq<char>>
    decreases paths.len(),
{
    if paths.len() == 0 {
        Seq::empty()
    } else {
        let rest = versions_named(paths.drop_last(), name);
        match name_and_version_of(paths.last()) {
            Ok((n, v)) => if n == name {
                rest.push(version_or_none(v))
            } else {
                rest
            },
            Err(_) => rest,
        }
    }
}

/// The old or new versions of the entry of `name`, or none where it has
/// no entry.
pub open spec fn entry_side(entries: Seq<PathEntryView>, name: Seq<char>, is_old: bool) -> Seq<Seq<char>> {
    let k = scan_from(is_entry_at(entries, name), 0, entries.len() as int);
    if k < entries.len() {
        if is_old {
            entries[k].old
        } else {
            entries[k].new
        }
    } else {
        Seq::empty()
    }
}

/// Whether no two entries share a name.
pub open spec fn entry_names_distinct(entries: Seq<PathEntryView>) -> bool {
    forall|i: int, j: int| 0 <= i < j < entries.len() ==> (#[trigger] entries[i]).name != (#[trigger] entries[j]).name
}

/// Where the names are distinct, the entry of a name is the one entry
/// that holds it.
proof fn lemma_entry_index(entries: Seq<PathEntryView>, name: Seq<char>, k: int)
    requires
        entry_names_distinct(entries),
        0 <= k < entries.len(),
        entries[k].name == name,
    ensures
        scan_from(is_entry_at(entries, name), 0, entries.len() as int) == k,
{
    let n = entries.len() as int;
    lemma_scan_from(is_entry_at(entries, name), 0, n);
    let f = scan_from(is_entry_at(entries, name), 0, n);
    if f < k {
        assert(entries[f].name == name);
    }
    if f > k {
        assert(!is_entry_at(entries, name)(k));
    }
}

/// Adding one path appends its version to its package's side of the
/// entries and leaves every other side as it was.
proof fn lemma_add_path_sides(entries: Seq<PathEntryView>, path: Seq<char>, is_old: bool, name: Seq<char>)
    requires
        entry_names_distinct(entries),
    ensures
        entry_names_distinct(add_path(entries, path, is_old)),
        entry_side(add_path(entries, path, is_old), name, is_old) == entry_side(entries, name, is_old) + versions_named(seq![path], name),
        entry_side(add_path(entries, path, is_old), name, !is_old) == entry_side(entries, name, !is_old),
{
    let r = add_path(entries, path, is_old);
    let n = entries.len() as int;
    assert(seq![path].drop_last() =~= Seq::<Seq<char>>::empty());
    assert(versions_named(Seq::<Seq<char>>::empty(), name) =~= Seq::<Seq<char>>::empty());
    assert(seq![path].last() == path);
    lemma_scan_from(is_entry_at(entries, name), 0, n);
    let f = scan_from(is_entry_at(entries, name), 0, n);
    match name_and_version_of(path) {
        Err(_) => {
            assert(entry_side(entries, name, is_old) + Seq::<Seq<char>>::empty() =~= entry_side(entries, name, is_old));
        },
        Ok((pn, v)) => {
            let ver = version_or_none(v);
            lemma_scan_from(is_entry_at(entries, pn), 0, n);
            let k = scan_from(is_entry_at(entries, pn), 0, n);
            if k < n {
                assert(r.len() == n);
                assert forall|i: int, j: int| 0 <= i < j < r.len() implies (#[trigger] r[i]).name != (#[trigger] r[j]).name by {
                    assert(r[i].name == entries[i].name);
                    assert(r[j].name == entries[j].name);
                }
                if f < n {
                    lemma_entry_index(r, name, f);
                } else {
                    assert forall|j: int| 0 <= j < r.len() implies (#[trigger] r[j]).name != name by {
                        assert(r[j].name == entries[j].name);
                        assert(!is_entry_at(entries, name)(j));
                    }
                    lemma_scan_from(is_entry_at(r, name), 0, n);
                }
                if pn == name {
                    lemma_entry_index(entries, name, k);
                    assert(entry_side(entries, name, is_old) + seq![ver] =~= entry_side(r, name, is_old));
                } else {
                    if f < n {
                        assert(f != k);
                    }
                    assert(entry_side(entries, name, is_old) + Seq::<Seq<char>>::empty() =~= entry_side(entries, name, is_old));
                }
            } else {
                let e = if is_old {
                    PathEntryView { name: pn, old: seq![ver], new: Seq::empty() }
                } else {
                    PathEntryView { name: pn, old: Seq::empty(), new: seq![ver] }
                };
                assert(r == entries.push(e));
                assert forall|i: int, j: int| 0 <= i < j < r.len() implies (#[trigger] r[i]).name != (#[trigger] r[j]).name by {
                    if j == n {
                        assert(r[i] == entries[i]);
                        assert(!is_entry_at(entries, pn)(i));
                    } else {
                        assert(r[i] == entries[i]);
                        assert(r[j] == entries[j]);
                    }
                }
                if f < n {
                    assert(r[f] == entries[f]);
                    lemma_entry_index(r, name, f);
                    assert(pn != name);
                    assert(entry_side(entries, name, is_old) + Seq::<Seq<char>>::empty() =~= entry_side(entries, name, is_old));
                } else if pn == name {
                    lemma_entry_index(r, name, n);
                    assert(Seq::<Seq<char>>::empty() + seq![ver] =~= entry_side(r, name, is_old));
                } else {
                    assert forall|j: int| 0 <= j < r.len() implies (#[trigger] r[j]).name != name by {
                        if j < n {
                            assert(r[j] == entries[j]);
                            assert(!is_entry_at(entries, name)(j));
                        }
                    }
                    lemma_scan_from(is_entry_at(r, name), 0, n + 1);
                    assert(Seq::<Seq<char>>::empty() + Seq::<Seq<char>>::empty() =~= Seq::<Seq<char>>::empty());
                }
            }
        },
    }
}

/// Adding a list of paths appends to each package's side of the entries
/// the versions of its paths, in order, and leaves the other side as it was.
proof fn lemma_add_paths_sides(entries: Seq<PathEntryView>, paths: Seq<Seq<char>>, is_old: bool, name: Seq<char>)
    requires
        entry_names_distinct(entries),
    ensures
        entry_names_distinct(add_paths(entries, paths, is_old)),
        entry_side(add_paths(entries, paths, is_old), name, is_old) == entry_side(entries, name, is_old) + versions_named(paths, name),
        entry_side(add_paths(entries, paths, is_old), name, !is_old) == entry_side(entries, name, !is_old),
    decreases paths.len(),
{
    if paths.len() == 0 {
        assert(entry_side(entries, name, is_old) + Seq::<Seq<char>>::empty() =~= entry_side(entries, name, is_old));
    } else {
        let rest = paths.drop_last();
        lemma_add_paths_sides(entries, rest, is_old, name);
        let mid = add_paths(entries, rest, is_old);
        lemma_add_path_sides(mid, paths.last(), is_old, name);
        let one = seq![paths.last()];
        assert(one.drop_last() =~= Seq::<Seq<char>>::empty());
        assert(one.last() == paths.last());
        assert(versions_named(Seq::<Seq<char>>::empty(), name) =~= Seq::<Seq<char>>::empty());
        match name_and_version_of(paths.last()) {
            Ok((pn, v)) => {
                if pn == name {
                    assert(versions_named(one, name) =~= seq![version_or_none(v)]);
                } else {
                    assert(versions_named(one, name) =~= Seq::<Seq<char>>::empty());
                }
            },
            Err(_) => {
                assert(versions_named(one, name) =~= Seq::<Seq<char>>::empty());
            },
        }
        assert(versions_named(paths, name) =~= versions_named(rest, name) + versions_named(one, name));
        assert(entry_side(add_paths(entries, paths, is_old), name, is_old) =~= entry_side(entries, name, is_old)
            + versions_named(paths, name));
    }
}

/// The versions of a package that does not change: with the same list on
/// both sides, no version is found on one side only, so there is no change.
pub proof fn lemma_same_versions_unchanged(name: Seq<char>, versions: Seq<Seq<char>>)
    ensures
        path_diff(name, versions, versions) is None,
{
    lemma_distinct_in_order(versions);
    lemma_keep_absent(distinct_in_order(versions), versions);
    let u = keep_absent(distinct_in_order(versions), versions);
    if u.len() > 0 {
        assert(u.contains(u[0]));
        assert(distinct_in_order(versions).contains(u[0]) && !versions.contains(u[0]));
        assert(versions.contains(u[0]));
    }
}

/// The changes of entries whose old and new versions agree are none.
proof fn lemma_unchanged_entries(es: Seq<PathEntryView>)
    requires
        forall|k: int| 0 <= k < es.len() ==> (#[trigger] es[k]).old == es[k].new,
    ensures
        path_diffs(es) == Seq::<PathDiffView>::empty(),
    decreases es.len(),
{
    if es.len() > 0 {
        let rest = es.drop_last();
        assert forall|k: int| 0 <= k < rest.len() implies (#[trigger] rest[k]).old == rest[k].new by {
            assert(rest[k] == es[k]);
        }
        lemma_unchanged_entries(rest);
        assert(es[es.len() - 1].old == es[es.len() - 1].new);
        lemma_same_versions_unchanged(es.last().name, es.last().old);
    }
}

/// A list of store paths compared with itself has no package changes: each
/// package has the same versions on both sides.
pub proof fn lemma_identical_paths_unchanged(paths: Seq<Seq<char>>)
    ensures
        path_diffs(path_entries(paths, paths)) == Seq::<PathDiffView>::empty(),
{
    let empty = Seq::<PathEntryView>::empty();
    let first = add_paths(empty, paths, true);
    let all = path_entries(paths, paths);
    assert forall|k: int| 0 <= k < all.len() implies (#[trigger] all[k]).old == all[k].new by {
        let name = all[k].name;
        lemma_add_paths_sides(empty, paths, true, name);
        lemma_add_paths_sides(first, paths, false, name);
        lemma_scan_from(is_entry_at(empty, name), 0, 0);
        lemma_entry_index(all, name, k);
        assert(entry_side(empty, name, true) =~= Seq::<Seq<char>>::empty());
        assert(entry_side(empty, name, false) =~= Seq::<Seq<char>>::empty());
        assert(entry_side(all, name, true) == entry_side(first, name, true));
        assert(entry_side(first, name, true) =~= versions_named(paths, name));
        assert(entry_side(all, name, false) =~= versions_named(paths, name));
    }
    lemma_unchanged_entries(all);
}

} // verus!
