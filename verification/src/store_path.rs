//! Nix store paths: validation, and the package name and version that a
//! store path's file name holds.
use vstd::prelude::*;
use crate::engine::{scan_from, lemma_scan_from};
use crate::text::{chars_of, is_digit, is_ascii_alphanumeric};
use crate::version::{is_hex_hash, has_hex_letter, range_is_hex_hash, range_has_hex_letter};

verus! {

/// Whether position `k` of `s` holds a slash.
pub open spec fn is_slash_at(s: Seq<char>) -> spec_fn(int) -> bool {
    |k: int| s[k] == '/'
}

/// The position of the first slash in `s`, or `s.len()`.
pub open spec fn slash_index(s: Seq<char>) -> int {
    scan_from(is_slash_at(s), 0, s.len() as int)
}

/// The path components of `s` that name something: its slash-separated
/// segments without the empty ones and those that are a single `.`.
pub open spec fn path_segments(s: Seq<char>) -> Seq<Seq<char>>
    decreases s.len(),
{
    if s.len() == 0 {
        seq![]
    } else {
        let k = slash_index(s);
        proof {
            lemma_scan_from(is_slash_at(s), 0, s.len() as int);
        }
        let head = s.take(k);
        let rest = if k < s.len() {
            s.skip(k + 1)
        } else {
            seq![]
        };
        let named: Seq<Seq<char>> = if head.len() == 0 || head == seq!['.'] {
            seq![]
        } else {
            seq![head]
        };
        named + path_segments(rest)
    }
}

/// The file name of a path: its last named component, unless that is `..`.
pub open spec fn file_name(s: Seq<char>) -> Option<Seq<char>> {
    let segs = path_segments(s);
    if segs.len() == 0 || segs.last() == seq!['.', '.'] {
        None
    } else {
        Some(segs.last())
    }
}

/// Whether a path is absolute and its components start with the given ones.
pub open spec fn starts_with_components(s: Seq<char>, prefix: Seq<Seq<char>>) -> bool {
    &&& s.len() > 0
    &&& s[0] == '/'
    &&& path_segments(s).len() >= prefix.len()
    &&& path_segments(s).take(prefix.len() as int) == prefix
}

/// Whether a path lies under `/nix/store` or under `/tmp`.
pub open spec fn is_store_location(s: Seq<char>) -> bool {
    starts_with_components(s, seq![seq!['n', 'i', 'x'], seq!['s', 't', 'o', 'r', 'e']])
        || starts_with_components(s, seq![seq!['t', 'm', 'p']])
}

/// The ranges of the named components of `s`.
pub fn segment_ranges(s: &Vec<char>) -> (r: Vec<(usize, usize)>)
    ensures
        r@.len() == path_segments(s@).len(),
        forall|k: int| 0 <= k < r@.len() ==> (#[trigger] r@[k]).0 <= r@[k].1 <= s@.len()
            && s@.subrange(r@[k].0 as int, r@[k].1 as int) == path_segments(s@)[k],
{
    let mut r: Vec<(usize, usize)> = Vec::new();
    let ghost all = path_segments(s@);
    let mut i: usize = 0;
    proof {
        assert(s@.skip(0) =~= s@);
    }
    while i < s.len()
        invariant
            all == path_segments(s@),
            i <= s@.len(),
            forall|k: int| 0 <= k < r@.len() ==> (#[trigger] r@[k]).0 <= r@[k].1 <= s@.len()
                && s@.subrange(r@[k].0 as int, r@[k].1 as int) == all[k],
            r@.len() + path_segments(s@.skip(i as int)).len() == all.len(),
            forall|k: int| 0 <= k < path_segments(s@.skip(i as int)).len() ==>
                #[trigger] path_segments(s@.skip(i as int))[k] == all[r@.len() + k],
        decreases s@.len() - i,
    {
        let ghost rest = s@.skip(i as int);
        proof {
            lemma_scan_from(is_slash_at(rest), 0, rest.len() as int);
        }
        let mut j: usize = i;
        while j < s.len()
            invariant
                rest == s@.skip(i as int),
                i <= j <= s@.len(),
                scan_from(is_slash_at(rest), 0, rest.len() as int)
                    == scan_from(is_slash_at(rest), j - i, rest.len() as int),
            ensures
                i <= j <= s@.len(),
                scan_from(is_slash_at(rest), 0, rest.len() as int) == j - i,
            decreases s@.len() - j,
        {
            if s[j] == '/' {
                proof {
                    assert(rest[j - i] == s@[j as int]);
                }
                break;
            }
            proof {
                assert(rest[j - i] == s@[j as int]);
            }
            j = j + 1;
        }
        let ghost head = rest.take(j - i);
        let ghost after = if j < s.len() { rest.skip(j - i + 1) } else { seq![] };
        proof {
            assert(head =~= s@.subrange(i as int, j as int));
            if j < s.len() {
                assert(after =~= s@.skip(j + 1));
            } else {
                assert(s@.skip(j as int) =~= Seq::<char>::empty());
            }
        }
        let ghost named: Seq<Seq<char>> = if head.len() == 0 || head == seq!['.'] { seq![] } else { seq![head] };
        let ghost before_len = r@.len();
        proof {
            assert(path_segments(rest) == named + path_segments(after));
        }
        let skip = j == i || (j == i + 1 && s[i] == '.');
        proof {
            if j == i + 1 {
                assert(head.len() == 1 && head[0] == s@[i as int]);
                if s@[i as int] == '.' {
                    assert(head =~= seq!['.']);
                } else {
                    assert(head != seq!['.']);
                }
            } else if j > i + 1 {
                assert(head.len() != 1);
            }
            assert(skip == (head.len() == 0 || head == seq!['.']));
        }
        if !skip {
            r.push((i, j));
        }
        proof {
            assert forall|k: int| 0 <= k < path_segments(after).len() implies
                #[trigger] path_segments(after)[k] == all[r@.len() + k] by {
                assert(path_segments(rest)[named.len() + k] == path_segments(after)[k]);
            }
            if !skip {
                assert(path_segments(rest)[0] == head);
            }
        }
        if j < s.len() {
            i = j + 1;
        } else {
            i = j;
        }
        proof {
            if j >= s@.len() {
                assert(s@.skip(i as int) =~= after);
            }
        }
    }
    proof {
        assert(s@.skip(i as int) =~= Seq::<char>::empty());
    }
    r
}

/// Whether position `k` of `s` holds a dash.
pub open spec fn is_dash_at(s: Seq<char>) -> spec_fn(int) -> bool {
    |k: int| s[k] == '-'
}

/// The position of the first dash in `s`, or `s.len()`.
pub open spec fn dash_index(s: Seq<char>) -> int {
    scan_from(is_dash_at(s), 0, s.len() as int)
}

/// A Nix store hash: 32 ASCII letters or digits.
pub open spec fn is_store_hash(h: Seq<char>) -> bool {
    h.len() == 32 && forall|i: int| 0 <= i < h.len() ==> is_ascii_alphanumeric(#[trigger] h[i])
}

/// A component that looks like a Git hash: 7 to 40 hex digits, at least one
/// of them a letter.
pub open spec fn looks_like_git_hash(c: Seq<char>) -> bool {
    is_hex_hash(c) && has_hex_letter(c)
}

/// Text that starts a version: a leading digit, or a Git hash.
pub open spec fn is_version_suffix(s: Seq<char>) -> bool {
    (s.len() > 0 && is_digit(s[0])) || looks_like_git_hash(s)
}

/// Whether the dash at position `k` of a name starts its version.
pub open spec fn is_version_dash_at(name: Seq<char>) -> spec_fn(int) -> bool {
    |k: int| k > 0 && name[k] == '-' && is_version_suffix(name.skip(k + 1))
}

/// A store name split at the first dash (not the first character) that a
/// version follows.
pub open spec fn split_name_version(name: Seq<char>) -> (Seq<char>, Option<Seq<char>>) {
    let k = scan_from(is_version_dash_at(name), 0, name.len() as int);
    if k < name.len() {
        (name.take(k), Some(name.skip(k + 1)))
    } else {
        (name, None)
    }
}

/// Why a store path was refused or could not be read.
#[derive(Debug, Clone, Copy, PartialEq, Eq, Structural)]
pub enum StorePathError {
    /// The path lies neither under `/nix/store` nor under `/tmp`.
    OutsideStore,
    /// The path has no file name.
    NoFileName,
    /// The file name is not a store hash, a dash and a non-empty name.
    NotStoreFormat,
}

/// What reading the package name and version of a path gives.
pub open spec fn parsed_name_version(path: Seq<char>) -> Result<(Seq<char>, Option<Seq<char>>), StorePathError> {
    match file_name(path) {
        None => Err(StorePathError::NoFileName),
        Some(f) => {
            let d = dash_index(f);
            if d >= f.len() || !is_store_hash(f.take(d)) || f.skip(d + 1).len() == 0 {
                Err(StorePathError::NotStoreFormat)
            } else {
                Ok(split_name_version(f.skip(d + 1)))
            }
        },
    }
}

/// The view of an optional text.
pub open spec fn opt_view(o: Option<&str>) -> Option<Seq<char>> {
    match o {
        Some(s) => Some(s@),
        None => None,
    }
}

/// Whether `s[start..end]` starts a version.
fn range_is_version_suffix(s: &Vec<char>, start: usize, end: usize) -> (r: bool)
    requires
        start <= end <= s@.len(),
    ensures
        r == is_version_suffix(s@.subrange(start as int, end as int)),
{
    let ghost c = s@.subrange(start as int, end as int);
    if start < end && '0' <= s[start] && s[start] <= '9' {
        assert(c[0] == s@[start as int]);
        return true;
    }
    proof {
        if start < end {
            assert(c[0] == s@[start as int]);
        }
    }
    range_is_hex_hash(s, start, end) && range_has_hex_letter(s, start, end)
}

/// Where the version of the name `s[start..end]` starts, as the position of
/// its dash, or `end`.
fn version_dash(s: &Vec<char>, start: usize, end: usize) -> (k: usize)
    requires
        start <= end <= s@.len(),
    ensures
        start <= k <= end,
        k - start == scan_from(is_version_dash_at(s@.subrange(start as int, end as int)), 0, end - start),
{
    let ghost name = s@.subrange(start as int, end as int);
    let mut k: usize = start;
    while k < end
        invariant
            name == s@.subrange(start as int, end as int),
            start <= k <= end <= s@.len(),
            scan_from(is_version_dash_at(name), 0, name.len() as int)
                == scan_from(is_version_dash_at(name), k - start, name.len() as int),
        ensures
            start <= k <= end,
            scan_from(is_version_dash_at(name), 0, name.len() as int) == k - start,
        decreases end - k,
    {
        if k > start && s[k] == '-' {
            let v = range_is_version_suffix(s, k + 1, end);
            proof {
                assert(name[k - start] == s@[k as int]);
                assert(name.skip(k - start + 1) =~= s@.subrange(k + 1, end as int));
            }
            if v {
                break;
            }
        } else {
            proof {
                if k > start {
                    assert(name[k - start] == s@[k as int]);
                }
            }
        }
        k = k + 1;
    }
    k
}

/// A validated store path: absolute, and under `/nix/store` or `/tmp`.
#[derive(Debug, Clone, PartialEq, Eq, Hash, PartialOrd, Ord)]
pub struct StorePath {
    path: String,
}

impl View for StorePath {
    type V = Seq<char>;

    closed spec fn view(&self) -> Seq<char> {
        self.path@
    }
}

impl StorePath {
    /// A store path, where `path` lies under `/nix/store` or `/tmp`.
    pub fn try_from(path: String) -> (r: Result<StorePath, StorePathError>)
        ensures
            r is Ok <==> is_store_location(path@),
            r matches Ok(p) ==> p@ == path@,
            r matches Err(e) ==> e == StorePathError::OutsideStore,
    {
        let chars = chars_of(path.as_str());
        let ranges = segment_ranges(&chars);
        let ghost segs = path_segments(chars@);
        let nix = ranges.len() >= 2 && chars.len() > 0 && chars[0] == '/'
            && text_is(&chars, ranges[0].0, ranges[0].1, "nix")
            && text_is(&chars, ranges[1].0, ranges[1].1, "store");
        let tmp = ranges.len() >= 1 && chars.len() > 0 && chars[0] == '/'
            && text_is(&chars, ranges[0].0, ranges[0].1, "tmp");
        proof {
            reveal_strlit("nix");
            reveal_strlit("store");
            reveal_strlit("tmp");
            let p1 = seq![seq!['n', 'i', 'x'], seq!['s', 't', 'o', 'r', 'e']];
            let p2 = seq![seq!['t', 'm', 'p']];
            if ranges@.len() >= 1 {
                assert(chars@.subrange(ranges@[0].0 as int, ranges@[0].1 as int) == segs[0]);
            }
            if ranges@.len() >= 2 {
                assert(chars@.subrange(ranges@[1].0 as int, ranges@[1].1 as int) == segs[1]);
            }
            assert("nix"@ =~= p1[0]);
            assert("store"@ =~= p1[1]);
            assert("tmp"@ =~= p2[0]);
            if segs.len() >= 2 {
                if segs.take(2) == p1 {
                    assert(segs[0] == segs.take(2)[0] && segs[1] == segs.take(2)[1]);
                }
                if segs[0] == p1[0] && segs[1] == p1[1] {
                    assert(segs.take(2) =~= p1);
                }
            }
            if segs.len() >= 1 {
                if segs.take(1) == p2 {
                    assert(segs[0] == segs.take(1)[0]);
                }
                if segs[0] == p2[0] {
                    assert(segs.take(1) =~= p2);
                }
            }
        }
        if nix || tmp {
            Ok(StorePath { path })
        } else {
            Err(StorePathError::OutsideStore)
        }
    }

    /// The path as an owned text.
    pub fn to_text(&self) -> (s: String)
        ensures
            s@ == self@,
    {
        self.path.clone()
    }

    /// The path as text.
    pub fn as_str(&self) -> (s: &str)
        ensures
            s@ == self@,
    {
        self.path.as_str()
    }

    /// The package name and, where the file name holds one, the version.
    ///
    /// The file name must be a 32-character store hash, a dash and a
    /// non-empty name; the version starts after the first dash (not the
    /// name's first character) that a digit or a Git hash follows.
    pub fn parse_name_and_version(&self) -> (r: Result<(&str, Option<&str>), StorePathError>)
        ensures
            match r {
                Ok((name, version)) => parsed_name_version(self@) == Ok::<(Seq<char>, Option<Seq<char>>), StorePathError>((name@, opt_view(version))),
                Err(e) => parsed_name_version(self@) == Err::<(Seq<char>, Option<Seq<char>>), StorePathError>(e),
            },
    {
        let text = self.path.as_str();
        let chars = chars_of(text);
        let ranges = segment_ranges(&chars);
        let ghost segs = path_segments(chars@);
        if ranges.len() == 0 {
            return Err(StorePathError::NoFileName);
        }
        let (a, b) = ranges[ranges.len() - 1];
        let ghost f = chars@.subrange(a as int, b as int);
        proof {
            assert(segs.last() == f);
        }
        if b - a == 2 && chars[a] == '.' && chars[a + 1] == '.' {
            proof {
                assert(f =~= seq!['.', '.']);
            }
            return Err(StorePathError::NoFileName);
        }
        proof {
            if f == seq!['.', '.'] {
                assert(f[0] == chars@[a as int] && f[1] == chars@[a + 1]);
            }
        }
        let mut d: usize = a;
        while d < b
            invariant
                a <= d <= b <= chars@.len(),
                f == chars@.subrange(a as int, b as int),
                forall|k: int| 0 <= k < d - a ==> f[k] != '-',
            ensures
                a <= d <= b,
                forall|k: int| 0 <= k < d - a ==> f[k] != '-',
                d < b ==> chars@[d as int] == '-',
            decreases b - d,
        {
            if chars[d] == '-' {
                break;
            }
            proof {
                assert(f[d - a] == chars@[d as int]);
            }
            d = d + 1;
        }
        proof {
            if d < b {
                assert(f[d - a] == chars@[d as int]);
            }
        }
        proof {
            lemma_scan_from(is_dash_at(f), 0, f.len() as int);
            lemma_dash_index(f, d - a);
        }
        if d == b {
            return Err(StorePathError::NotStoreFormat);
        }
        let ghost hash = f.take(d - a);
        let mut h: usize = a;
        let mut alnum = true;
        while h < d
            invariant
                a <= h <= d < b <= chars@.len(),
                f == chars@.subrange(a as int, b as int),
                hash == f.take(d - a),
                alnum == forall|k: int| 0 <= k < h - a ==> is_ascii_alphanumeric(#[trigger] hash[k]),
            decreases d - h,
        {
            let c = chars[h];
            proof {
                assert(hash[h - a] == c);
            }
            if !(('0' <= c && c <= '9') || ('a' <= c && c <= 'z') || ('A' <= c && c <= 'Z')) {
                alnum = false;
            }
            h = h + 1;
            proof {
                if alnum {
                    assert forall|k: int| 0 <= k < h - a implies is_ascii_alphanumeric(#[trigger] hash[k]) by {
                        if k == h - 1 - a {
                            assert(hash[k] == c);
                        }
                    }
                }
            }
        }
        if d - a != 32 || !alnum || d + 1 == b {
            proof {
                assert(f.skip(d - a + 1).len() == b - d - 1);
            }
            return Err(StorePathError::NotStoreFormat);
        }
        let k = version_dash(&chars, d + 1, b);
        proof {
            assert(f.skip(d - a + 1) =~= chars@.subrange(d + 1, b as int));
        }
        if k < b {
            let name = text.substring_char(d + 1, k);
            let version = text.substring_char(k + 1, b);
            proof {
                let nm = chars@.subrange(d + 1, b as int);
                assert(nm.take(k - d - 1) =~= name@);
                assert(nm.skip(k - d - 1 + 1) =~= version@);
            }
            Ok((name, Some(version)))
        } else {
            let name = text.substring_char(d + 1, b);
            Ok((name, None))
        }
    }
}

proof fn lemma_dash_index(f: Seq<char>, d: int)
    requires
        0 <= d <= f.len(),
        forall|k: int| 0 <= k < d ==> f[k] != '-',
        d < f.len() ==> f[d] == '-',
    ensures
        dash_index(f) == d,
{
    lemma_scan_from(is_dash_at(f), 0, f.len() as int);
    let r = dash_index(f);
    if r < d {
        assert(is_dash_at(f)(r));
    } else if r > d {
        assert(!is_dash_at(f)(d));
    }
}

/// Whether `s[start..end]` is the text `t`.
fn text_is(s: &Vec<char>, start: usize, end: usize, t: &str) -> (r: bool)
    requires
        start <= end <= s@.len(),
    ensures
        r == (s@.subrange(start as int, end as int) == t@),
{
    let tc = chars_of(t);
    assert(tc@ == t@);
    if end - start != tc.len() {
        return false;
    }
    let mut i: usize = 0;
    while i < tc.len()
        invariant
            tc@ == t@,
            end - start == tc@.len(),
            start <= end <= s@.len(),
            i <= tc@.len(),
            forall|k: int| 0 <= k < i ==> s@[start + k] == tc@[k],
        decreases tc@.len() - i,
    {
        if s[start + i] != tc[i] {
            proof {
                assert(s@.subrange(start as int, end as int)[i as int] == s@[start + i]);
                assert(s@.subrange(start as int, end as int)[i as int] != t@[i as int]);
            }
            return false;
        }
        i = i + 1;
    }
    proof {
        assert(s@.subrange(start as int, end as int) =~= t@);
    }
    true
}

} // verus!
