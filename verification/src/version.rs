//! Version strings: splitting into components and separators, component
//! order and the order of whole versions.
use vstd::prelude::*;
use std::cmp::Ordering;
use crate::text::{str_order, is_digit, all_digits, decimal_value, is_hex_digit, is_hex_letter};

verus! {

/// Separators used to split version strings.
pub open spec fn is_separator(c: char) -> bool {
    c == '.' || c == '-' || c == '_' || c == '+' || c == '*' || c == '=' || c == '×' || c == ' '
}

pub fn char_is_separator(c: char) -> (r: bool)
    ensures
        r == is_separator(c),
{
    c == '.' || c == '-' || c == '_' || c == '+' || c == '*' || c == '=' || c == '×' || c == ' '
}

/// Length of the longest prefix of `s` that holds no separator.
pub open spec fn run_len(s: Seq<char>) -> nat
    decreases s.len(),
{
    if s.len() == 0 || is_separator(s[0]) {
        0
    } else {
        1 + run_len(s.drop_first())
    }
}

pub proof fn lemma_run_len(s: Seq<char>)
    ensures
        run_len(s) <= s.len(),
        forall|i: int| 0 <= i < run_len(s) ==> !is_separator(#[trigger] s[i]),
        run_len(s) < s.len() ==> is_separator(s[run_len(s) as int]),
        s.len() > 0 && !is_separator(s[0]) ==> run_len(s) >= 1,
    decreases s.len(),
{
    if s.len() > 0 && !is_separator(s[0]) {
        lemma_run_len(s.drop_first());
        assert forall|i: int| 0 <= i < run_len(s) implies !is_separator(#[trigger] s[i]) by {
            if i > 0 {
                assert(s[i] == s.drop_first()[i - 1]);
            }
        }
    }
}

/// A piece of a version string: a component or a single separator.
pub ghost enum PieceView {
    Component(Seq<char>),
    Separator(Seq<char>),
}

/// The pieces of a version string, from the left.
pub open spec fn piece_views(s: Seq<char>) -> Seq<PieceView>
    decreases s.len(),
{
    if s.len() == 0 {
        seq![]
    } else if is_separator(s[0]) {
        seq![PieceView::Separator(s.take(1))] + piece_views(s.skip(1))
    } else {
        let n = run_len(s);
        proof {
            lemma_run_len(s);
        }
        seq![PieceView::Component(s.take(n as int))] + piece_views(s.skip(n as int))
    }
}

/// The components of a version string: its maximal runs of non-separators.
pub open spec fn comp_views(s: Seq<char>) -> Seq<Seq<char>>
    decreases s.len(),
{
    if s.len() == 0 {
        seq![]
    } else if is_separator(s[0]) {
        comp_views(s.skip(1))
    } else {
        let n = run_len(s);
        proof {
            lemma_run_len(s);
        }
        seq![s.take(n as int)] + comp_views(s.skip(n as int))
    }
}

/// The text a piece stands for.
pub open spec fn piece_text(p: PieceView) -> Seq<char> {
    match p {
        PieceView::Component(c) => c,
        PieceView::Separator(c) => c,
    }
}

/// The texts of a sequence of pieces, joined.
pub open spec fn pieces_text(ps: Seq<PieceView>) -> Seq<char>
    decreases ps.len(),
{
    if ps.len() == 0 {
        seq![]
    } else {
        piece_text(ps[0]) + pieces_text(ps.drop_first())
    }
}

/// Joining the pieces of a version string gives the string back.
pub proof fn lemma_pieces_rejoin(s: Seq<char>)
    ensures
        pieces_text(piece_views(s)) == s,
    decreases s.len(),
{
    if s.len() > 0 {
        lemma_run_len(s);
        let ps = piece_views(s);
        if is_separator(s[0]) {
            lemma_pieces_rejoin(s.skip(1));
            assert(ps.drop_first() =~= piece_views(s.skip(1)));
            assert(s =~= s.take(1) + s.skip(1));
        } else {
            let n = run_len(s) as int;
            lemma_pieces_rejoin(s.skip(n));
            assert(ps.drop_first() =~= piece_views(s.skip(n)));
            assert(s =~= s.take(n) + s.skip(n));
        }
    }
}

/// A component: non-empty and free of separators.
pub open spec fn is_component(c: Seq<char>) -> bool {
    c.len() > 0 && forall|i: int| 0 <= i < c.len() ==> !is_separator(#[trigger] c[i])
}

/// Every component of a version string is a proper component.
pub proof fn lemma_comp_views_shape(s: Seq<char>)
    ensures
        forall|k: int| 0 <= k < comp_views(s).len() ==> is_component(#[trigger] comp_views(s)[k]),
    decreases s.len(),
{
    if s.len() > 0 {
        lemma_run_len(s);
        if is_separator(s[0]) {
            lemma_comp_views_shape(s.skip(1));
            assert(comp_views(s) == comp_views(s.skip(1)));
        } else {
            let n = run_len(s) as int;
            lemma_comp_views_shape(s.skip(n));
            let cs = comp_views(s);
            assert(cs == seq![s.take(n)] + comp_views(s.skip(n)));
            assert forall|k: int| 0 <= k < cs.len() implies is_component(#[trigger] cs[k]) by {
                if k > 0 {
                    assert(cs[k] == comp_views(s.skip(n))[k - 1]);
                } else {
                    assert(cs[0] == s.take(n));
                    assert forall|i: int| 0 <= i < cs[0].len() implies !is_separator(#[trigger] cs[0][i]) by {
                        assert(cs[0][i] == s[i]);
                    }
                }
            }
        }
    }
}

/// Components are separated, so a version of `n` characters has at most
/// `(n + 1) / 2` of them.
pub proof fn lemma_comp_views_count(s: Seq<char>)
    ensures
        comp_views(s).len() * 2 <= s.len() + 1,
        s.len() > 0 && is_separator(s[0]) ==> comp_views(s).len() * 2 <= s.len(),
    decreases s.len(),
{
    if s.len() > 0 {
        lemma_run_len(s);
        if is_separator(s[0]) {
            lemma_comp_views_count(s.skip(1));
        } else {
            let n = run_len(s) as int;
            lemma_comp_views_count(s.skip(n));
            if n < s.len() {
                assert(s.skip(n)[0] == s[n]);
            }
        }
    }
}

/// Scans `s[start..]` for the end of the component that starts there.
fn run_end(s: &Vec<char>, start: usize) -> (end: usize)
    requires
        start <= s.len(),
    ensures
        end == start + run_len(s@.skip(start as int)),
        end <= s.len(),
{
    proof {
        lemma_run_len(s@.skip(start as int));
    }
    let mut i = start;
    while i < s.len() && !char_is_separator(s[i])
        invariant
            start <= i <= s.len(),
            run_len(s@.skip(start as int)) == (i - start) + run_len(s@.skip(i as int)),
        decreases s.len() - i,
    {
        proof {
            assert(s@.skip(i as int).drop_first() =~= s@.skip(i + 1));
        }
        i = i + 1;
    }
    i
}

/// The components of `s` as index ranges into `s`.
pub fn component_ranges(s: &Vec<char>) -> (r: Vec<(usize, usize)>)
    ensures
        r@.len() == comp_views(s@).len(),
        forall|k: int|
            0 <= k < r@.len() ==> #[trigger] r@[k].0 <= r@[k].1 <= s.len() && s@.subrange(
                r@[k].0 as int,
                r@[k].1 as int,
            ) == comp_views(s@)[k],
{
    let mut r: Vec<(usize, usize)> = Vec::new();
    let mut i: usize = 0;
    assert(s@.skip(0) =~= s@);
    while i < s.len()
        invariant
            i <= s.len(),
            r@ .len() + comp_views(s@.skip(i as int)).len() == comp_views(s@).len(),
            forall|k: int|
                0 <= k < r@.len() ==> #[trigger] r@[k].0 <= r@[k].1 <= s.len() && s@.subrange(
                    r@[k].0 as int,
                    r@[k].1 as int,
                ) == comp_views(s@)[k],
            forall|k: int|
                0 <= k < comp_views(s@.skip(i as int)).len() ==> comp_views(s@)[r@.len() + k]
                    == #[trigger] comp_views(s@.skip(i as int))[k],
        decreases s.len() - i,
    {
        let ghost rest = s@.skip(i as int);
        proof {
            lemma_run_len(rest);
        }
        if char_is_separator(s[i]) {
            proof {
                assert(rest.skip(1) =~= s@.skip(i + 1));
            }
            i = i + 1;
        } else {
            let e = run_end(s, i);
            proof {
                let n = run_len(rest) as int;
                assert(rest.skip(n) =~= s@.skip(e as int));
                assert(rest.take(n) =~= s@.subrange(i as int, e as int));
                assert(comp_views(rest)[0] == rest.take(n));
                assert forall|k: int| 0 <= k < comp_views(s@.skip(e as int)).len() implies
                    comp_views(s@)[r@.len() + 1 + k] == #[trigger] comp_views(s@.skip(e as int))[k] by {
                    assert(comp_views(rest)[k + 1] == comp_views(s@.skip(e as int))[k]);
                }
            }
            r.push((i, e));
            i = e;
        }
    }
    proof {
        assert(s@.skip(i as int).len() == 0);
    }
    r
}

/// An all-digit, non-empty component.
pub open spec fn is_numeric(c: Seq<char>) -> bool {
    c.len() > 0 && all_digits(c)
}

/// The value of a numeric component, where it fits in `u64`.
pub open spec fn numeric_value(c: Seq<char>) -> Option<u64> {
    if is_numeric(c) && decimal_value(c) <= u64::MAX {
        Some(decimal_value(c) as u64)
    } else {
        None
    }
}

/// The text component that sorts below every other text component.
pub open spec fn pre_text() -> Seq<char> {
    seq!['p', 'r', 'e']
}

pub open spec fn sign(x: int) -> int {
    if x < 0 {
        -1
    } else if x > 0 {
        1
    } else {
        0
    }
}

/// Order of two components: numeric components by value (by text where a
/// value does not fit in `u64`), numeric below text, `pre` below every other
/// text, other texts lexicographically.
pub open spec fn component_order(a: Seq<char>, b: Seq<char>) -> int {
    if is_numeric(a) && is_numeric(b) {
        match (numeric_value(a), numeric_value(b)) {
            (Some(x), Some(y)) => sign(x - y),
            _ => str_order(a, b),
        }
    } else if !is_numeric(a) && !is_numeric(b) {
        if a == pre_text() {
            -1
        } else if b == pre_text() {
            1
        } else {
            str_order(a, b)
        }
    } else if is_numeric(a) {
        -1
    } else {
        1
    }
}

/// Seven to forty hexadecimal digits.
pub open spec fn is_hex_hash(c: Seq<char>) -> bool {
    7 <= c.len() <= 40 && forall|i: int| 0 <= i < c.len() ==> is_hex_digit(#[trigger] c[i])
}

pub open spec fn has_hex_letter(c: Seq<char>) -> bool {
    exists|i: int| 0 <= i < c.len() && is_hex_letter(#[trigger] c[i])
}

/// Two components that look like Git hashes, at least one with a letter.
pub open spec fn is_git_hash_pair(a: Seq<char>, b: Seq<char>) -> bool {
    is_hex_hash(a) && is_hex_hash(b) && (has_hex_letter(a) || has_hex_letter(b))
}

fn range_is_numeric(s: &Vec<char>, start: usize, end: usize) -> (r: bool)
    requires
        start <= end <= s.len(),
    ensures
        r == is_numeric(s@.subrange(start as int, end as int)),
{
    let ghost c = s@.subrange(start as int, end as int);
    if start == end {
        return false;
    }
    let mut i = start;
    while i < end
        invariant
            start <= i <= end <= s.len(),
            c == s@.subrange(start as int, end as int),
            forall|k: int| 0 <= k < i - start ==> is_digit(#[trigger] c[k]),
        decreases end - i,
    {
        if !(s[i] >= '0' && s[i] <= '9') {
            assert(c[i - start] == s@[i as int]);
            return false;
        }
        assert(c[i - start] == s@[i as int]);
        i = i + 1;
    }
    true
}

fn range_numeric_value(s: &Vec<char>, start: usize, end: usize) -> (r: Option<u64>)
    requires
        start <= end <= s.len(),
    ensures
        r == numeric_value(s@.subrange(start as int, end as int)),
{
    if range_is_numeric(s, start, end) {
        crate::text::parse_u64_range(s, start, end)
    } else {
        None
    }
}

fn range_is_pre(s: &Vec<char>, start: usize, end: usize) -> (r: bool)
    requires
        start <= end <= s.len(),
    ensures
        r == (s@.subrange(start as int, end as int) == pre_text()),
{
    let ghost c = s@.subrange(start as int, end as int);
    if end - start == 3 && s[start] == 'p' && s[start + 1] == 'r' && s[start + 2] == 'e' {
        assert(c =~= pre_text());
        true
    } else {
        proof {
            if c == pre_text() {
                assert(c.len() == 3);
                assert(end - start == 3);
                assert(c[0] == 'p' && c[1] == 'r' && c[2] == 'e');
                assert(c[0] == s@[start as int]);
                assert(c[1] == s@[start + 1]);
                assert(c[2] == s@[start + 2]);
            }
        }
        false
    }
}

/// The order of two components given as index ranges.
pub fn range_component_order(
    a: &Vec<char>,
    sa: usize,
    ea: usize,
    b: &Vec<char>,
    sb: usize,
    eb: usize,
) -> (r: i8)
    requires
        sa <= ea <= a.len(),
        sb <= eb <= b.len(),
    ensures
        r == component_order(
            a@.subrange(sa as int, ea as int),
            b@.subrange(sb as int, eb as int),
        ),
        -1 <= r <= 1,
{
    let na = range_is_numeric(a, sa, ea);
    let nb = range_is_numeric(b, sb, eb);
    if na && nb {
        match (range_numeric_value(a, sa, ea), range_numeric_value(b, sb, eb)) {
            (Some(x), Some(y)) => {
                if x < y {
                    -1
                } else if x > y {
                    1
                } else {
                    0
                }
            },
            _ => crate::text::range_order(a, sa, ea, b, sb, eb),
        }
    } else if !na && !nb {
        if range_is_pre(a, sa, ea) {
            -1
        } else if range_is_pre(b, sb, eb) {
            1
        } else {
            crate::text::range_order(a, sa, ea, b, sb, eb)
        }
    } else if na {
        -1
    } else {
        1
    }
}

pub fn range_is_hex_hash(s: &Vec<char>, start: usize, end: usize) -> (r: bool)
    requires
        start <= end <= s.len(),
    ensures
        r == is_hex_hash(s@.subrange(start as int, end as int)),
{
    let ghost c = s@.subrange(start as int, end as int);
    if end - start < 7 || end - start > 40 {
        return false;
    }
    let mut i = start;
    while i < end
        invariant
            start <= i <= end <= s.len(),
            c == s@.subrange(start as int, end as int),
            forall|k: int| 0 <= k < i - start ==> is_hex_digit(#[trigger] c[k]),
        decreases end - i,
    {
        let ch = s[i];
        assert(c[i - start] == s@[i as int]);
        if !(('0' <= ch && ch <= '9') || ('a' <= ch && ch <= 'f') || ('A' <= ch && ch <= 'F')) {
            return false;
        }
        i = i + 1;
    }
    true
}

pub fn range_has_hex_letter(s: &Vec<char>, start: usize, end: usize) -> (r: bool)
    requires
        start <= end <= s.len(),
    ensures
        r == has_hex_letter(s@.subrange(start as int, end as int)),
{
    let ghost c = s@.subrange(start as int, end as int);
    let mut i = start;
    while i < end
        invariant
            start <= i <= end <= s.len(),
            c == s@.subrange(start as int, end as int),
            forall|k: int| 0 <= k < i - start ==> !is_hex_letter(#[trigger] c[k]),
        decreases end - i,
    {
        let ch = s[i];
        assert(c[i - start] == s@[i as int]);
        if ('a' <= ch && ch <= 'f') || ('A' <= ch && ch <= 'F') {
            return true;
        }
        i = i + 1;
    }
    false
}

fn range_is_git_hash_pair(a: &Vec<char>, sa: usize, ea: usize, b: &Vec<char>, sb: usize, eb: usize) -> (r: bool)
    requires
        sa <= ea <= a.len(),
        sb <= eb <= b.len(),
    ensures
        r == is_git_hash_pair(
            a@.subrange(sa as int, ea as int),
            b@.subrange(sb as int, eb as int),
        ),
{
    range_is_hex_hash(a, sa, ea) && range_is_hex_hash(b, sb, eb) && (range_has_hex_letter(a, sa, ea)
        || range_has_hex_letter(b, sb, eb))
}

/// The component at `i`, if there is one.
pub open spec fn opt_at(xs: Seq<Seq<char>>, i: int) -> Option<Seq<char>> {
    if 0 <= i < xs.len() {
        Some(xs[i])
    } else {
        None
    }
}

/// The rank of the component at `index`: at the first position an empty
/// version sorts below numeric and text components; after a shared prefix a
/// text suffix sorts below the end of the version and a numeric suffix above.
pub open spec fn rank(index: int, c: Option<Seq<char>>) -> int {
    match c {
        None => 1,
        Some(t) => if index == 0 {
            if is_numeric(t) {
                2
            } else {
                3
            }
        } else {
            if is_numeric(t) {
                4
            } else {
                0
            }
        },
    }
}

/// Order of the components at one position of two versions.
pub open spec fn slot_order(index: int, x: Option<Seq<char>>, y: Option<Seq<char>>) -> int {
    if x == y {
        0
    } else {
        let r = sign(rank(index, x) - rank(index, y));
        match (x, y) {
            (Some(a), Some(b)) => {
                let c = component_order(a, b);
                if c == 0 {
                    0
                } else if r != 0 {
                    r
                } else {
                    c
                }
            },
            _ => r,
        }
    }
}

pub open spec fn max_len(xs: Seq<Seq<char>>, ys: Seq<Seq<char>>) -> int {
    if xs.len() >= ys.len() {
        xs.len() as int
    } else {
        ys.len() as int
    }
}

/// The first non-zero position order from `i` on, or 0.
pub open spec fn comps_order_from(xs: Seq<Seq<char>>, ys: Seq<Seq<char>>, i: int) -> int
    decreases max_len(xs, ys) - i,
{
    if i < 0 || i >= max_len(xs, ys) {
        0
    } else {
        let o = slot_order(i, opt_at(xs, i), opt_at(ys, i));
        if o != 0 {
            o
        } else {
            comps_order_from(xs, ys, i + 1)
        }
    }
}

/// The order of two version strings: by components, then by the raw text.
pub open spec fn version_order(a: Seq<char>, b: Seq<char>) -> int {
    let c = comps_order_from(comp_views(a), comp_views(b), 0);
    if c != 0 {
        c
    } else {
        str_order(a, b)
    }
}

/// The change order at one position: like `slot_order`, but 2 where two
/// differing components look like Git hashes.
pub open spec fn change_slot(index: int, x: Option<Seq<char>>, y: Option<Seq<char>>) -> int {
    if x == y {
        0
    } else {
        match (x, y) {
            (Some(a), Some(b)) => if is_git_hash_pair(a, b) {
                2
            } else {
                slot_order(index, x, y)
            },
            _ => slot_order(index, x, y),
        }
    }
}

/// The first ordered position from `i` on; otherwise 2 where some position
/// was unordered, else 0.
pub open spec fn change_scan(xs: Seq<Seq<char>>, ys: Seq<Seq<char>>, i: int, saw: bool) -> int
    decreases max_len(xs, ys) - i,
{
    if i < 0 || i >= max_len(xs, ys) {
        if saw {
            2
        } else {
            0
        }
    } else {
        let o = change_slot(i, opt_at(xs, i), opt_at(ys, i));
        if o == 2 {
            change_scan(xs, ys, i + 1, true)
        } else if o == 0 {
            change_scan(xs, ys, i + 1, saw)
        } else {
            o
        }
    }
}

/// How an old version relates to a new one: -1 older, 0 same place,
/// 1 newer, 2 no order (Git hashes).
pub open spec fn change_order(a: Seq<char>, b: Seq<char>) -> int {
    change_scan(comp_views(a), comp_views(b), 0, false)
}

/// The components of a version string as character vector and ranges.
struct Split {
    chars: Vec<char>,
    ranges: Vec<(usize, usize)>,
}

impl Split {
    spec fn wf(self) -> bool {
        forall|k: int|
            0 <= k < self.ranges@.len() ==> #[trigger] self.ranges@[k].0 <= self.ranges@[k].1
                <= self.chars.len()
    }

    spec fn comps(self) -> Seq<Seq<char>> {
        Seq::new(
            self.ranges@.len(),
            |k: int| self.chars@.subrange(self.ranges@[k].0 as int, self.ranges@[k].1 as int),
        )
    }

    fn of(s: &str) -> (r: Split)
        ensures
            r.wf(),
            r.chars@ == s@,
            r.comps() == comp_views(s@),
    {
        let chars = crate::text::chars_of(s);
        let ranges = component_ranges(&chars);
        let r = Split { chars, ranges };
        assert(r.comps() =~= comp_views(s@));
        r
    }

    fn len(&self) -> (n: usize)
        ensures
            n == self.comps().len(),
    {
        self.ranges.len()
    }
}

/// Position order, computed on split versions.
fn split_slot_order(index: usize, a: &Split, b: &Split, git_hashes: bool) -> (r: i8)
    requires
        a.wf(),
        b.wf(),
    ensures
        -1 <= r <= 2,
        git_hashes ==> r == change_slot(index as int, opt_at(a.comps(), index as int), opt_at(b.comps(), index as int)),
        !git_hashes ==> r == slot_order(index as int, opt_at(a.comps(), index as int), opt_at(b.comps(), index as int)),
{
    let ghost x = opt_at(a.comps(), index as int);
    let ghost y = opt_at(b.comps(), index as int);
    let has_a = index < a.len();
    let has_b = index < b.len();
    let rank_a: i8 = if !has_a {
        1
    } else {
        let (s, e) = a.ranges[index];
        let numeric = range_is_numeric(&a.chars, s, e);
        if index == 0 {
            if numeric { 2 } else { 3 }
        } else {
            if numeric { 4 } else { 0 }
        }
    };
    let rank_b: i8 = if !has_b {
        1
    } else {
        let (s, e) = b.ranges[index];
        let numeric = range_is_numeric(&b.chars, s, e);
        if index == 0 {
            if numeric { 2 } else { 3 }
        } else {
            if numeric { 4 } else { 0 }
        }
    };
    assert(rank_a == rank(index as int, x));
    assert(rank_b == rank(index as int, y));
    let r: i8 = if rank_a < rank_b {
        -1
    } else if rank_a > rank_b {
        1
    } else {
        0
    };
    if !has_a && !has_b {
        return 0;
    }
    if !has_a || !has_b {
        assert(x != y);
        return r;
    }
    let (sa, ea) = a.ranges[index];
    let (sb, eb) = b.ranges[index];
    let same = crate::text::range_order(&a.chars, sa, ea, &b.chars, sb, eb) == 0;
    proof {
        crate::text::lemma_str_order_zero_iff_equal(
            a.chars@.subrange(sa as int, ea as int),
            b.chars@.subrange(sb as int, eb as int),
        );
    }
    if same {
        return 0;
    }
    if git_hashes && range_is_git_hash_pair(&a.chars, sa, ea, &b.chars, sb, eb) {
        return 2;
    }
    let c = range_component_order(&a.chars, sa, ea, &b.chars, sb, eb);
    if c == 0 {
        0
    } else if r != 0 {
        r
    } else {
        c
    }
}

/// The order of two split versions by their components.
fn split_order(a: &Split, b: &Split) -> (r: i8)
    requires
        a.wf(),
        b.wf(),
    ensures
        r == comps_order_from(a.comps(), b.comps(), 0),
{
    let n = if a.len() >= b.len() { a.len() } else { b.len() };
    let mut i: usize = 0;
    while i < n
        invariant
            a.wf(),
            b.wf(),
            n == max_len(a.comps(), b.comps()),
            i <= n,
            comps_order_from(a.comps(), b.comps(), 0) == comps_order_from(a.comps(), b.comps(), i as int),
        decreases n - i,
    {
        let o = split_slot_order(i, a, b, false);
        if o != 0 {
            return o;
        }
        i = i + 1;
    }
    0
}

/// The order of the raw texts of two split versions.
fn split_text_order(a: &Split, b: &Split) -> (r: i8)
    ensures
        r == str_order(a.chars@, b.chars@),
{
    assert(a.chars@.subrange(0, a.chars@.len() as int) =~= a.chars@);
    assert(b.chars@.subrange(0, b.chars@.len() as int) =~= b.chars@);
    crate::text::range_order(&a.chars, 0, a.chars.len(), &b.chars, 0, b.chars.len())
}

/// The change order of two split versions.
fn split_change_order(a: &Split, b: &Split) -> (r: i8)
    requires
        a.wf(),
        b.wf(),
    ensures
        r == change_scan(a.comps(), b.comps(), 0, false),
        -1 <= r <= 2,
{
    let n = if a.len() >= b.len() { a.len() } else { b.len() };
    let mut i: usize = 0;
    let mut saw = false;
    while i < n
        invariant
            a.wf(),
            b.wf(),
            n == max_len(a.comps(), b.comps()),
            i <= n,
            change_scan(a.comps(), b.comps(), 0, false) == change_scan(a.comps(), b.comps(), i as int, saw),
        decreases n - i,
    {
        let o = split_slot_order(i, a, b, true);
        if o == 2 {
            saw = true;
        } else if o != 0 {
            return o;
        }
        i = i + 1;
    }
    if saw {
        2
    } else {
        0
    }
}

/// The `Ordering` that a sign stands for.
pub open spec fn ordering_of(x: int) -> Ordering {
    if x < 0 {
        Ordering::Less
    } else if x > 0 {
        Ordering::Greater
    } else {
        Ordering::Equal
    }
}

/// The direction of an ordered change.
#[derive(Clone, Copy, Debug, PartialEq, Eq, Structural)]
pub enum Order {
    Less,
    Equal,
    Greater,
}

impl Order {
    pub open spec fn sign(self) -> int {
        match self {
            Order::Less => -1,
            Order::Equal => 0,
            Order::Greater => 1,
        }
    }

    /// The standard `Ordering` this stands for.
    pub fn to_ordering(self) -> (r: Ordering)
        ensures
            r == ordering_of(self.sign()),
    {
        match self {
            Order::Less => Ordering::Less,
            Order::Equal => Ordering::Equal,
            Order::Greater => Ordering::Greater,
        }
    }
}

/// How one version relates to another when a package changes.
#[derive(Clone, Copy, Debug, PartialEq, Eq, Structural)]
pub enum VersionChangeOrdering {
    Ordered(Order),
    Unordered,
}

impl VersionChangeOrdering {
    /// -1, 0 or 1 for an ordered change, 2 for an unordered one.
    pub open spec fn code(self) -> int {
        match self {
            VersionChangeOrdering::Ordered(o) => o.sign(),
            VersionChangeOrdering::Unordered => 2,
        }
    }
}

/// A version string with semantic comparison support.
///
/// Ordering compares separator-delimited components. Empty versions sort
/// before non-empty versions; after a shared prefix, text suffixes sort below
/// the base version and numeric suffixes sort above it. The raw version
/// string is the final tie-breaker, so distinct strings never compare equal.
#[derive(Debug, Clone, Hash)]
pub struct Version {
    pub name: String,
}

impl View for Version {
    type V = Seq<char>;

    open spec fn view(&self) -> Seq<char> {
        self.name@
    }
}

/// A single version component (numeric or text).
#[derive(Debug, Clone, Copy)]
pub struct VersionComponent<'a>(pub &'a str);

impl<'a> View for VersionComponent<'a> {
    type V = Seq<char>;

    open spec fn view(&self) -> Seq<char> {
        self.0@
    }
}

/// Either a component or a separator of a version string.
#[derive(Debug, Clone, Copy)]
pub enum VersionPiece<'a> {
    Component(VersionComponent<'a>),
    Separator(&'a str),
}

impl<'a> View for VersionPiece<'a> {
    type V = PieceView;

    open spec fn view(&self) -> PieceView {
        match self {
            VersionPiece::Component(c) => PieceView::Component(c@),
            VersionPiece::Separator(s) => PieceView::Separator(s@),
        }
    }
}

/// The pieces (components and separators) of a version, in order.
#[derive(Debug, Clone)]
pub struct Pieces<'a> {
    pieces: Vec<VersionPiece<'a>>,
}

impl<'a> View for Pieces<'a> {
    type V = Seq<PieceView>;

    closed spec fn view(&self) -> Seq<PieceView> {
        self.pieces@.map_values(|p: VersionPiece<'a>| p@)
    }
}

impl<'a> Pieces<'a> {
    pub fn len(&self) -> (n: usize)
        ensures
            n == self@.len(),
    {
        self.pieces.len()
    }

    pub fn get(&self, i: usize) -> (p: VersionPiece<'a>)
        requires
            i < self@.len(),
        ensures
            p@ == self@[i as int],
    {
        self.pieces[i]
    }

    /// The pieces as a vector.
    pub fn into_vec(self) -> (v: Vec<VersionPiece<'a>>)
        ensures
            v@.map_values(|p: VersionPiece<'a>| p@) == self@,
    {
        self.pieces
    }
}

impl<'a> VersionPiece<'a> {
    pub fn component(self) -> (r: Option<VersionComponent<'a>>)
        ensures
            match self {
                VersionPiece::Component(c) => r == Some(c),
                VersionPiece::Separator(_) => r.is_none(),
            },
    {
        match self {
            VersionPiece::Component(c) => Some(c),
            VersionPiece::Separator(_) => None,
        }
    }

    pub fn separator(self) -> (r: Option<&'a str>)
        ensures
            match self {
                VersionPiece::Component(_) => r.is_none(),
                VersionPiece::Separator(s) => r == Some(s),
            },
    {
        match self {
            VersionPiece::Component(_) => None,
            VersionPiece::Separator(s) => Some(s),
        }
    }
}

impl<'a> VersionComponent<'a> {
    /// The component's text.
    pub fn as_str(&self) -> (s: &'a str)
        ensures
            s@ == self@,
    {
        self.0
    }

    /// Whether the component is non-empty and all ASCII digits.
    pub fn is_numeric(&self) -> (r: bool)
        ensures
            r == is_numeric(self@),
    {
        let chars = crate::text::chars_of(self.0);
        assert(chars@.subrange(0, chars@.len() as int) =~= chars@);
        range_is_numeric(&chars, 0, chars.len())
    }

    /// The numeric value, where the component is numeric and fits in `u64`.
    pub fn as_u64(&self) -> (r: Option<u64>)
        ensures
            r == numeric_value(self@),
    {
        let chars = crate::text::chars_of(self.0);
        assert(chars@.subrange(0, chars@.len() as int) =~= chars@);
        range_numeric_value(&chars, 0, chars.len())
    }

    /// Whether both components look like Git hashes, one with a hex letter.
    pub fn is_git_hash_pair(&self, other: Self) -> (r: bool)
        ensures
            r == is_git_hash_pair(self@, other@),
    {
        let a = crate::text::chars_of(self.0);
        let b = crate::text::chars_of(other.0);
        assert(a@.subrange(0, a@.len() as int) =~= a@);
        assert(b@.subrange(0, b@.len() as int) =~= b@);
        range_is_git_hash_pair(&a, 0, a.len(), &b, 0, b.len())
    }

    /// The component order, as -1, 0 or 1.
    pub fn order(&self, other: &Self) -> (r: i8)
        ensures
            r == component_order(self@, other@),
    {
        let a = crate::text::chars_of(self.0);
        let b = crate::text::chars_of(other.0);
        assert(a@.subrange(0, a@.len() as int) =~= a@);
        assert(b@.subrange(0, b@.len() as int) =~= b@);
        range_component_order(&a, 0, a.len(), &b, 0, b.len())
    }

    /// Whether the two components have the same text.
    pub fn same_text(&self, other: &Self) -> (r: bool)
        ensures
            r == (self@ == other@),
    {
        let a = crate::text::chars_of(self.0);
        let b = crate::text::chars_of(other.0);
        assert(a@.subrange(0, a@.len() as int) =~= a@);
        assert(b@.subrange(0, b@.len() as int) =~= b@);
        let o = crate::text::range_order(&a, 0, a.len(), &b, 0, b.len());
        proof {
            crate::text::lemma_str_order_zero_iff_equal(a@, b@);
        }
        o == 0
    }
}

impl<'a> PartialEq for VersionComponent<'a> {
    fn eq(&self, other: &Self) -> (r: bool) {
        self.same_text(other)
    }
}

impl<'a> vstd::std_specs::cmp::PartialEqSpecImpl for VersionComponent<'a> {
    open spec fn obeys_eq_spec() -> bool {
        true
    }

    open spec fn eq_spec(&self, other: &Self) -> bool {
        self@ == other@
    }
}

impl<'a> PartialOrd for VersionComponent<'a> {
    fn partial_cmp(&self, other: &Self) -> (r: Option<Ordering>) {
        let o = self.order(other);
        if o < 0 {
            Some(Ordering::Less)
        } else if o > 0 {
            Some(Ordering::Greater)
        } else {
            Some(Ordering::Equal)
        }
    }
}

impl<'a> vstd::std_specs::cmp::PartialOrdSpecImpl for VersionComponent<'a> {
    open spec fn obeys_partial_cmp_spec() -> bool {
        true
    }

    open spec fn partial_cmp_spec(&self, other: &Self) -> Option<Ordering> {
        Some(ordering_of(component_order(self@, other@)))
    }
}

impl Version {
    pub fn new(version: &str) -> (v: Version)
        ensures
            v@ == version@,
    {
        Version { name: String::from_str(version) }
    }

    /// The version's text.
    pub fn to_string(&self) -> (s: String)
        ensures
            s@ == self@,
    {
        self.name.clone()
    }

    /// Appends text to the version.
    pub fn write_str(&mut self, s: &str)
        ensures
            final(self)@ == old(self)@ + s@,
    {
        self.name.append(s);
    }

    /// The components of the version.
    pub fn components(&self) -> (r: Vec<VersionComponent<'_>>)
        ensures
            r@.map_values(|c: VersionComponent| c@) == comp_views(self@),
            r@.len() < usize::MAX,
    {
        let s = self.name.as_str();
        let chars = crate::text::chars_of(s);
        let ranges = component_ranges(&chars);
        let mut r: Vec<VersionComponent<'_>> = Vec::new();
        let mut k: usize = 0;
        while k < ranges.len()
            invariant
                chars@ == s@,
                s@ == self@,
                k <= ranges@.len(),
                ranges@.len() == comp_views(chars@).len(),
                forall|j: int|
                    0 <= j < ranges@.len() ==> #[trigger] ranges@[j].0 <= ranges@[j].1 <= chars.len()
                        && chars@.subrange(ranges@[j].0 as int, ranges@[j].1 as int) == comp_views(chars@)[j],
                r@.len() == k,
                forall|j: int| 0 <= j < k ==> #[trigger] r@[j]@ == comp_views(chars@)[j],
            decreases ranges@.len() - k,
        {
            let (st, en) = ranges[k];
            let piece = s.substring_char(st, en);
            r.push(VersionComponent(piece));
            k = k + 1;
        }
        assert(r@.map_values(|c: VersionComponent| c@) =~= comp_views(self@));
        let total = chars.len();
        proof {
            lemma_comp_views_count(self@);
            assert(r@.len() == comp_views(self@).len());
            assert(total == self@.len());
        }
        r
    }

    /// All pieces (components and separators) of the version.
    pub fn iter(&self) -> (r: Pieces<'_>)
        ensures
            r@ == piece_views(self@),
    {
        let s = self.name.as_str();
        let chars = crate::text::chars_of(s);
        let mut pieces: Vec<VersionPiece<'_>> = Vec::new();
        let mut i: usize = 0;
        assert(chars@.skip(0) =~= chars@);
        while i < chars.len()
            invariant
                chars@ == s@,
                s@ == self@,
                i <= chars.len(),
                pieces@.map_values(|p: VersionPiece| p@) + piece_views(chars@.skip(i as int))
                    == piece_views(chars@),
            decreases chars.len() - i,
        {
            let ghost rest = chars@.skip(i as int);
            let ghost before = pieces@.map_values(|p: VersionPiece| p@);
            proof {
                lemma_run_len(rest);
            }
            if char_is_separator(chars[i]) {
                let sep = s.substring_char(i, i + 1);
                pieces.push(VersionPiece::Separator(sep));
                proof {
                    assert(rest.skip(1) =~= chars@.skip(i + 1));
                    assert(rest.take(1) =~= sep@);
                    assert(pieces@.map_values(|p: VersionPiece| p@) =~= before.push(PieceView::Separator(sep@)));
                    assert(piece_views(rest) == seq![PieceView::Separator(rest.take(1))] + piece_views(rest.skip(1)));
                    assert(before + piece_views(rest) =~= before.push(PieceView::Separator(sep@)) + piece_views(rest.skip(1)));
                }
                i = i + 1;
            } else {
                let e = run_end(&chars, i);
                let comp = s.substring_char(i, e);
                pieces.push(VersionPiece::Component(VersionComponent(comp)));
                proof {
                    let n = run_len(rest) as int;
                    assert(rest.skip(n) =~= chars@.skip(e as int));
                    assert(rest.take(n) =~= comp@);
                    assert(pieces@.map_values(|p: VersionPiece| p@) =~= before.push(PieceView::Component(comp@)));
                    assert(piece_views(rest) == seq![PieceView::Component(rest.take(n))] + piece_views(rest.skip(n)));
                    assert(before + piece_views(rest) =~= before.push(PieceView::Component(comp@)) + piece_views(rest.skip(n)));
                }
                i = e;
            }
        }
        proof {
            assert(chars@.skip(i as int) =~= Seq::<char>::empty());
            assert(piece_views(chars@.skip(i as int)) =~= Seq::<PieceView>::empty());
            assert(pieces@.map_values(|p: VersionPiece| p@) =~= pieces@.map_values(|p: VersionPiece| p@) + piece_views(chars@.skip(i as int)));
        }
        Pieces { pieces }
    }

    /// The order of two versions.
    pub fn cmp(&self, other: &Self) -> (r: Ordering)
        ensures
            r == ordering_of(version_order(self@, other@)),
    {
        let a = Split::of(self.name.as_str());
        let b = Split::of(other.name.as_str());
        let c = split_order(&a, &b);
        if c < 0 {
            Ordering::Less
        } else if c > 0 {
            Ordering::Greater
        } else {
            let t = split_text_order(&a, &b);
            if t < 0 {
                Ordering::Less
            } else if t > 0 {
                Ordering::Greater
            } else {
                Ordering::Equal
            }
        }
    }

    /// How this (old) version relates to `other` (new): ordered, or
    /// unordered where differing components look like Git hashes.
    pub fn change_ordering(&self, other: &Self) -> (r: VersionChangeOrdering)
        ensures
            r.code() == change_order(self@, other@),
    {
        let a = Split::of(self.name.as_str());
        let b = Split::of(other.name.as_str());
        let c = split_change_order(&a, &b);
        if c == 2 {
            VersionChangeOrdering::Unordered
        } else if c < 0 {
            VersionChangeOrdering::Ordered(Order::Less)
        } else if c > 0 {
            VersionChangeOrdering::Ordered(Order::Greater)
        } else {
            VersionChangeOrdering::Ordered(Order::Equal)
        }
    }
}

impl PartialEq for Version {
    fn eq(&self, other: &Self) -> (r: bool) {
        self.name == other.name
    }
}

impl vstd::std_specs::cmp::PartialEqSpecImpl for Version {
    open spec fn obeys_eq_spec() -> bool {
        true
    }

    open spec fn eq_spec(&self, other: &Self) -> bool {
        self@ == other@
    }
}

impl Eq for Version {
}

impl PartialOrd for Version {
    fn partial_cmp(&self, other: &Self) -> (r: Option<Ordering>) {
        Some(self.cmp(other))
    }
}

impl vstd::std_specs::cmp::PartialOrdSpecImpl for Version {
    open spec fn obeys_partial_cmp_spec() -> bool {
        true
    }

    open spec fn partial_cmp_spec(&self, other: &Self) -> Option<Ordering> {
        Some(ordering_of(version_order(self@, other@)))
    }
}

impl From<String> for Version {
    fn from(name: String) -> (v: Version) {
        Version { name }
    }
}

impl vstd::std_specs::convert::FromSpecImpl<String> for Version {
    open spec fn obeys_from_spec() -> bool {
        true
    }

    open spec fn from_spec(name: String) -> Version {
        Version { name }
    }
}

/// Every numeric component of `s` fits in `u64`.
pub open spec fn numbers_fit(s: Seq<char>) -> bool {
    forall|k: int|
        0 <= k < comp_views(s).len() && is_numeric(#[trigger] comp_views(s)[k])
            ==> decimal_value(comp_views(s)[k]) <= u64::MAX
}

/// The component order with equal texts treated as equal.
pub open spec fn text_aware_order(a: Seq<char>, b: Seq<char>) -> int {
    if a == b {
        0
    } else {
        component_order(a, b)
    }
}

proof fn lemma_component_order_antisymmetric(a: Seq<char>, b: Seq<char>)
    requires
        a != b,
    ensures
        component_order(a, b) == -component_order(b, a),
        -1 <= component_order(a, b) <= 1,
{
    crate::text::lemma_str_order_antisymmetric(a, b);
    crate::text::lemma_str_order_zero_iff_equal(a, b);
}

/// The three transitivity facts of a comparison result triple.
pub open spec fn transitive_triple(o1: int, o2: int, o3: int) -> bool {
    &&& (o1 < 0 && o2 <= 0 ==> o3 < 0)
    &&& (o1 <= 0 && o2 < 0 ==> o3 < 0)
    &&& (o1 == 0 && o2 == 0 ==> o3 == 0)
}

proof fn lemma_text_order_transitive(a: Seq<char>, b: Seq<char>, c: Seq<char>)
    requires
        !is_numeric(a),
        !is_numeric(b),
        !is_numeric(c),
    ensures
        transitive_triple(text_aware_order(a, b), text_aware_order(b, c), text_aware_order(a, c)),
{
    crate::text::lemma_str_order_zero_iff_equal(a, b);
    crate::text::lemma_str_order_zero_iff_equal(b, c);
    crate::text::lemma_str_order_zero_iff_equal(a, c);
    if str_order(a, b) < 0 && str_order(b, c) < 0 {
        crate::text::lemma_str_order_transitive(a, b, c);
    }
}

proof fn lemma_numeric_order_transitive(a: Seq<char>, b: Seq<char>, c: Seq<char>)
    requires
        is_numeric(a),
        is_numeric(b),
        is_numeric(c),
        decimal_value(a) <= u64::MAX,
        decimal_value(b) <= u64::MAX,
        decimal_value(c) <= u64::MAX,
    ensures
        transitive_triple(text_aware_order(a, b), text_aware_order(b, c), text_aware_order(a, c)),
{
}

/// The order at one position is a total preorder where numbers fit.
proof fn lemma_slot_transitive(i: int, x: Option<Seq<char>>, y: Option<Seq<char>>, z: Option<Seq<char>>)
    requires
        i >= 0,
        x matches Some(a) ==> (is_numeric(a) ==> decimal_value(a) <= u64::MAX),
        y matches Some(b) ==> (is_numeric(b) ==> decimal_value(b) <= u64::MAX),
        z matches Some(c) ==> (is_numeric(c) ==> decimal_value(c) <= u64::MAX),
    ensures
        transitive_triple(slot_order(i, x, y), slot_order(i, y, z), slot_order(i, x, z)),
{
    match (x, y, z) {
        (Some(a), Some(b), Some(c)) => {
            if is_numeric(a) && is_numeric(b) && is_numeric(c) {
                lemma_numeric_order_transitive(a, b, c);
            } else if !is_numeric(a) && !is_numeric(b) && !is_numeric(c) {
                lemma_text_order_transitive(a, b, c);
            }
            if a != b {
                lemma_component_order_antisymmetric(a, b);
            }
            if b != c {
                lemma_component_order_antisymmetric(b, c);
            }
            if a != c {
                lemma_component_order_antisymmetric(a, c);
            }
        },
        _ => {
            match (x, y) {
                (Some(a), Some(b)) => if a != b {
                    lemma_component_order_antisymmetric(a, b);
                },
                _ => {},
            }
            match (y, z) {
                (Some(b), Some(c)) => if b != c {
                    lemma_component_order_antisymmetric(b, c);
                },
                _ => {},
            }
            match (x, z) {
                (Some(a), Some(c)) => if a != c {
                    lemma_component_order_antisymmetric(a, c);
                },
                _ => {},
            }
        },
    }
}

proof fn lemma_comps_order_unfold(xs: Seq<Seq<char>>, ys: Seq<Seq<char>>, i: int)
    requires
        i >= 0,
    ensures
        comps_order_from(xs, ys, i) == (if slot_order(i, opt_at(xs, i), opt_at(ys, i)) != 0 {
            slot_order(i, opt_at(xs, i), opt_at(ys, i))
        } else {
            comps_order_from(xs, ys, i + 1)
        }),
{
}

/// Every numeric component among `xs` fits in `u64`.
pub open spec fn all_fit(xs: Seq<Seq<char>>) -> bool {
    forall|k: int|
        0 <= k < xs.len() && is_numeric(#[trigger] xs[k]) ==> decimal_value(xs[k]) <= u64::MAX
}

proof fn lemma_comps_order_transitive(xs: Seq<Seq<char>>, ys: Seq<Seq<char>>, zs: Seq<Seq<char>>, i: int)
    requires
        i >= 0,
        all_fit(xs),
        all_fit(ys),
        all_fit(zs),
    ensures
        transitive_triple(
            comps_order_from(xs, ys, i),
            comps_order_from(ys, zs, i),
            comps_order_from(xs, zs, i),
        ),
    decreases xs.len() + ys.len() + zs.len() - i,
{
    if i < xs.len() || i < ys.len() || i < zs.len() {
        let x = opt_at(xs, i);
        let y = opt_at(ys, i);
        let z = opt_at(zs, i);
        lemma_slot_transitive(i, x, y, z);
        lemma_comps_order_unfold(xs, ys, i);
        lemma_comps_order_unfold(ys, zs, i);
        lemma_comps_order_unfold(xs, zs, i);
        lemma_comps_order_transitive(xs, ys, zs, i + 1);
    }
}

proof fn lemma_comps_order_antisymmetric(xs: Seq<Seq<char>>, ys: Seq<Seq<char>>, i: int)
    requires
        i >= 0,
    ensures
        comps_order_from(xs, ys, i) == -comps_order_from(ys, xs, i),
        -1 <= comps_order_from(xs, ys, i) <= 1,
    decreases xs.len() + ys.len() - i,
{
    if i < xs.len() || i < ys.len() {
        let x = opt_at(xs, i);
        let y = opt_at(ys, i);
        match (x, y) {
            (Some(a), Some(b)) => if a != b {
                lemma_component_order_antisymmetric(a, b);
            },
            _ => {},
        }
        lemma_comps_order_antisymmetric(xs, ys, i + 1);
    }
}

proof fn lemma_comps_order_reflexive(xs: Seq<Seq<char>>, i: int)
    requires
        i >= 0,
    ensures
        comps_order_from(xs, xs, i) == 0,
    decreases xs.len() - i,
{
    if i < xs.len() {
        lemma_comps_order_reflexive(xs, i + 1);
    }
}

proof fn lemma_all_fit(s: Seq<char>)
    requires
        numbers_fit(s),
    ensures
        all_fit(comp_views(s)),
{
}

/// Version order is a total order: reflexive, antisymmetric, equal only on
/// equal strings, and transitive where every numeric component fits in
/// `u64`.
pub proof fn lemma_version_order_total(a: Seq<char>, b: Seq<char>, c: Seq<char>)
    requires
        numbers_fit(a),
        numbers_fit(b),
        numbers_fit(c),
    ensures
        version_order(a, a) == 0,
        version_order(a, b) == -version_order(b, a),
        -1 <= version_order(a, b) <= 1,
        version_order(a, b) == 0 <==> a == b,
        version_order(a, b) < 0 && version_order(b, c) < 0 ==> version_order(a, c) < 0,
{
    lemma_version_order_antisymmetric(a, b);
    lemma_version_order_antisymmetric(a, a);
    lemma_all_fit(a);
    lemma_all_fit(b);
    lemma_all_fit(c);
    lemma_comps_order_transitive(comp_views(a), comp_views(b), comp_views(c), 0);
    if str_order(a, b) < 0 && str_order(b, c) < 0 {
        crate::text::lemma_str_order_transitive(a, b, c);
    }
    crate::text::lemma_str_order_zero_iff_equal(a, c);
}

/// Version order is antisymmetric and equal only on equal strings, for all
/// strings.
pub proof fn lemma_version_order_antisymmetric(a: Seq<char>, b: Seq<char>)
    ensures
        version_order(a, a) == 0,
        version_order(a, b) == -version_order(b, a),
        -1 <= version_order(a, b) <= 1,
        version_order(a, b) == 0 <==> a == b,
{
    lemma_comps_order_reflexive(comp_views(a), 0);
    lemma_comps_order_antisymmetric(comp_views(a), comp_views(b), 0);
    crate::text::lemma_str_order_antisymmetric(a, b);
    crate::text::lemma_str_order_zero_iff_equal(a, b);
    crate::text::lemma_str_order_zero_iff_equal(a, a);
    if a == b {
        lemma_comps_order_reflexive(comp_views(a), 0);
    }
}

/// An empty version sorts before every non-empty version.
pub proof fn lemma_empty_version_first(b: Seq<char>)
    requires
        b.len() > 0,
    ensures
        version_order(Seq::<char>::empty(), b) < 0,
{
    let e = Seq::<char>::empty();
    assert(comp_views(e) =~= Seq::<Seq<char>>::empty());
    if comp_views(b).len() > 0 {
        lemma_comps_order_unfold(comp_views(e), comp_views(b), 0);
    } else {
        lemma_comps_order_reflexive(comp_views(b), 0);
        assert(comp_views(e) == comp_views(b));
    }
}

proof fn lemma_comps_order_shared_prefix(xs: Seq<Seq<char>>, ys: Seq<Seq<char>>, i: int)
    requires
        0 <= i <= xs.len(),
        xs.len() < ys.len(),
        forall|k: int| 0 <= k < xs.len() ==> xs[k] == ys[k],
    ensures
        comps_order_from(xs, ys, i) == comps_order_from(xs, ys, xs.len() as int),
    decreases xs.len() - i,
{
    if i < xs.len() {
        lemma_comps_order_unfold(xs, ys, i);
        lemma_comps_order_shared_prefix(xs, ys, i + 1);
    }
}

/// After a shared non-empty prefix of components, a text suffix sorts below
/// the prefix alone and a numeric suffix above it.
pub proof fn lemma_version_suffix_order(a: Seq<char>, b: Seq<char>, t: Seq<char>)
    requires
        comp_views(a).len() > 0,
        comp_views(b) == comp_views(a).push(t),
    ensures
        is_numeric(t) ==> version_order(a, b) < 0,
        !is_numeric(t) ==> version_order(a, b) > 0,
{
    let xs = comp_views(a);
    let ys = comp_views(b);
    lemma_comps_order_shared_prefix(xs, ys, 0);
    lemma_comps_order_unfold(xs, ys, xs.len() as int);
    assert(opt_at(ys, xs.len() as int) == Some(t));
}

/// The change order flips with its arguments (an unordered change stays
/// unordered).
pub open spec fn flip_change(c: int) -> int {
    if c == 2 {
        2
    } else {
        -c
    }
}

proof fn lemma_change_scan_flip(xs: Seq<Seq<char>>, ys: Seq<Seq<char>>, i: int, saw: bool)
    requires
        i >= 0,
    ensures
        change_scan(xs, ys, i, saw) == flip_change(change_scan(ys, xs, i, saw)),
        -1 <= change_scan(xs, ys, i, saw) <= 2,
    decreases xs.len() + ys.len() - i,
{
    if i < xs.len() || i < ys.len() {
        let x = opt_at(xs, i);
        let y = opt_at(ys, i);
        match (x, y) {
            (Some(a), Some(b)) => if a != b {
                lemma_component_order_antisymmetric(a, b);
            },
            _ => {},
        }
        lemma_change_scan_flip(xs, ys, i + 1, true);
        lemma_change_scan_flip(xs, ys, i + 1, saw);
    }
}

/// Swapping old and new reverses an ordered change and keeps an unordered
/// one.
pub proof fn lemma_change_order_flip(a: Seq<char>, b: Seq<char>)
    ensures
        change_order(a, b) == flip_change(change_order(b, a)),
        -1 <= change_order(a, b) <= 2,
{
    lemma_change_scan_flip(comp_views(a), comp_views(b), 0, false);
}

} // verus!
