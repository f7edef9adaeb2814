//! Rendering of version changes as styled text segments: what is common to
//! two versions, what was removed and what was added.
use vstd::prelude::*;
use crate::text::chars_of;
use crate::engine::{scan_from, lemma_scan_from};
use crate::version::{Version, VersionPiece, PieceView, piece_views};
use crate::model::{VersionDiff, VersionDiffView, DiffStatus};
use crate::report::{PackageDiff, PackageDiffView, DerivationSelectionStatus, package_diff_views, DiffReport};
use crate::text::str_order;

verus! {

/// The look of a piece of rendered text.
#[derive(Debug, Clone, Copy, PartialEq, Eq, Structural)]
pub enum Style {
    Plain,
    Bold,
    Red,
    Green,
    Yellow,
    BlueItalic,
    YellowBold,
    BrightCyanBold,
    MagentaBold,
    GreenBold,
    RedBold,
}

/// A piece of rendered text with its style.
#[derive(Debug, Clone, PartialEq, Eq)]
pub struct Segment {
    pub text: Vec<char>,
    pub style: Style,
}

impl View for Segment {
    type V = (Seq<char>, Style);

    open spec fn view(&self) -> (Seq<char>, Style) {
        (self.text@, self.style)
    }
}

/// The views of a list of segments.
pub open spec fn seg_views(v: Seq<Segment>) -> Seq<(Seq<char>, Style)> {
    v.map_values(|s: Segment| s@)
}

/// The text of a list of segments, joined.
pub open spec fn seg_text(v: Seq<(Seq<char>, Style)>) -> Seq<char>
    decreases v.len(),
{
    if v.len() == 0 {
        Seq::empty()
    } else {
        seg_text(v.drop_last()) + v.last().0
    }
}

/// Appends a segment.
pub fn push_text(acc: &mut Vec<Segment>, text: &str, style: Style)
    ensures
        seg_views(final(acc)@) == seg_views(old(acc)@).push((text@, style)),
{
    let ghost before = seg_views(acc@);
    acc.push(Segment { text: chars_of(text), style });
    proof {
        assert(seg_views(acc@) =~= before.push((text@, style)));
    }
}

/// Appends a segment of one character.
pub(crate) fn push_char(acc: &mut Vec<Segment>, c: char, style: Style)
    ensures
        seg_views(final(acc)@) == seg_views(old(acc)@).push((seq![c], style)),
{
    let ghost before = seg_views(acc@);
    let mut text: Vec<char> = Vec::new();
    text.push(c);
    acc.push(Segment { text, style });
    proof {
        assert(text@ =~= seq![c]);
        assert(seg_views(acc@) =~= before.push((seq![c], style)));
    }
}

/// The joined text of segments.
pub fn plain_text(segs: &Vec<Segment>) -> (r: Vec<char>)
    ensures
        r@ == seg_text(seg_views(segs@)),
{
    let mut r: Vec<char> = Vec::new();
    let mut k: usize = 0;
    while k < segs.len()
        invariant
            k <= segs@.len(),
            r@ == seg_text(seg_views(segs@).take(k as int)),
        decreases segs@.len() - k,
    {
        let ghost before = r@;
        let mut i: usize = 0;
        while i < segs[k].text.len()
            invariant
                k < segs@.len(),
                i <= segs@[k as int].text@.len(),
                r@ == before + segs@[k as int].text@.take(i as int),
            decreases segs@[k as int].text@.len() - i,
        {
            r.push(segs[k].text[i]);
            proof {
                assert(segs@[k as int].text@.take(i + 1) =~= segs@[k as int].text@.take(i as int).push(segs@[k as int].text@[i as int]));
            }
            i = i + 1;
        }
        proof {
            assert(segs@[k as int].text@.take(i as int) =~= segs@[k as int].text@);
            let v = seg_views(segs@);
            assert(v.take(k + 1).drop_last() =~= v.take(k as int));
            assert(v.take(k + 1).last() == v[k as int]);
        }
        k = k + 1;
    }
    proof {
        assert(seg_views(segs@).take(k as int) =~= seg_views(segs@));
    }
    r
}

/// The segments of a version piece: a component in `style`, a separator
/// plain.
pub open spec fn piece_segs(p: PieceView, style: Style) -> Seq<(Seq<char>, Style)> {
    match p {
        PieceView::Component(c) => seq![(c, style)],
        PieceView::Separator(s) => seq![(s, Style::Plain)],
    }
}

/// The segments of a list of version pieces.
pub open spec fn pieces_segs(ps: Seq<PieceView>, style: Style) -> Seq<(Seq<char>, Style)>
    decreases ps.len(),
{
    if ps.len() == 0 {
        Seq::empty()
    } else {
        pieces_segs(ps.drop_last(), style) + piece_segs(ps.last(), style)
    }
}

/// Appends the segments of a version piece.
fn write_version_piece(acc: &mut Vec<Segment>, piece: &VersionPiece, style: Style)
    ensures
        seg_views(final(acc)@) == seg_views(old(acc)@) + piece_segs(piece@, style),
{
    let ghost before = seg_views(acc@);
    match piece {
        VersionPiece::Component(c) => push_text(acc, c.as_str(), style),
        VersionPiece::Separator(s) => push_text(acc, s, Style::Plain),
    }
    proof {
        assert(seg_views(acc@) =~= before + piece_segs(piece@, style));
    }
}

/// Appends the segments of pieces `from..to` of a list of pieces.
fn write_pieces(acc: &mut Vec<Segment>, pieces: &Vec<VersionPiece>, from: usize, to: usize, style: Style)
    requires
        from <= to <= pieces@.len(),
    ensures
        seg_views(final(acc)@) == seg_views(old(acc)@) + pieces_segs(
            pieces@.map_values(|p: VersionPiece| p@).subrange(from as int, to as int),
            style,
        ),
{
    let ghost pv = pieces@.map_values(|p: VersionPiece| p@);
    let ghost before = seg_views(acc@);
    let mut k = from;
    proof {
        assert(pv.subrange(from as int, from as int) =~= Seq::<PieceView>::empty());
    }
    while k < to
        invariant
            pv == pieces@.map_values(|p: VersionPiece| p@),
            from <= k <= to <= pieces@.len(),
            seg_views(acc@) == before + pieces_segs(pv.subrange(from as int, k as int), style),
        decreases to - k,
    {
        write_version_piece(acc, &pieces[k], style);
        proof {
            let sub = pv.subrange(from as int, k + 1);
            assert(sub.drop_last() =~= pv.subrange(from as int, k as int));
            assert(sub.last() == pieces@[k as int]@);
            assert(seg_views(acc@) =~= before + pieces_segs(sub, style));
        }
        k = k + 1;
    }
}

/// The segments of a version with its components in `style`.
pub open spec fn version_segs(v: Seq<char>, style: Style) -> Seq<(Seq<char>, Style)> {
    pieces_segs(piece_views(v), style)
}

/// Appends the segments of a version.
pub fn write_version(acc: &mut Vec<Segment>, version: &Version, style: Style)
    ensures
        seg_views(final(acc)@) == seg_views(old(acc)@) + version_segs(version@, style),
{
    let pieces = version.iter().into_vec();
    proof {
        assert(pieces@.map_values(|p: VersionPiece| p@).subrange(0, pieces@.len() as int)
            =~= pieces@.map_values(|p: VersionPiece| p@));
    }
    write_pieces(acc, &pieces, 0, pieces.len(), style);
}

/// The decimal digits of `n`.
pub open spec fn decimal(n: nat) -> Seq<char>
    decreases n,
{
    if n < 10 {
        seq![digit_char(n)]
    } else {
        decimal(n / 10).push(digit_char(n % 10))
    }
}

/// The character of a decimal digit.
pub open spec fn digit_char(d: nat) -> char {
    if d == 0 {
        '0'
    } else if d == 1 {
        '1'
    } else if d == 2 {
        '2'
    } else if d == 3 {
        '3'
    } else if d == 4 {
        '4'
    } else if d == 5 {
        '5'
    } else if d == 6 {
        '6'
    } else if d == 7 {
        '7'
    } else if d == 8 {
        '8'
    } else {
        '9'
    }
}

fn digit_of(d: usize) -> (c: char)
    requires
        d < 10,
    ensures
        c == digit_char(d as nat),
{
    if d == 0 {
        '0'
    } else if d == 1 {
        '1'
    } else if d == 2 {
        '2'
    } else if d == 3 {
        '3'
    } else if d == 4 {
        '4'
    } else if d == 5 {
        '5'
    } else if d == 6 {
        '6'
    } else if d == 7 {
        '7'
    } else if d == 8 {
        '8'
    } else {
        '9'
    }
}

/// The decimal digits of `n`.
pub fn decimal_text(n: usize) -> (r: Vec<char>)
    ensures
        r@ == decimal(n as nat),
    decreases n,
{
    if n < 10 {
        let mut r: Vec<char> = Vec::new();
        r.push(digit_of(n));
        proof {
            assert(r@ =~= seq![digit_char(n as nat)]);
        }
        r
    } else {
        let mut r = decimal_text(n / 10);
        r.push(digit_of(n % 10));
        r
    }
}

/// The amount suffix ` ×n`, where the amount is above one, with the number
/// in `style`.
pub open spec fn amount_segs(n: nat, style: Style) -> Seq<(Seq<char>, Style)> {
    if n > 1 {
        seq![(seq![' ', '×'], Style::Plain), (decimal(n), style)]
    } else {
        Seq::empty()
    }
}

/// Appends the amount suffix.
pub fn write_amount_suffix(acc: &mut Vec<Segment>, amount: usize, style: Style)
    ensures
        seg_views(final(acc)@) == seg_views(old(acc)@) + amount_segs(amount as nat, style),
{
    let ghost before = seg_views(acc@);
    if amount > 1 {
        push_text(acc, " ×", Style::Plain);
        let ghost mid = seg_views(acc@);
        let digits = decimal_text(amount);
        let ghost dv = digits@;
        acc.push(Segment { text: digits, style });
        proof {
            assert(seg_views(acc@) =~= mid.push((dv, style)));
            reveal_strlit(" ×");
            assert(" ×"@ =~= seq![' ', '×']);
            assert(seg_views(acc@) =~= before + amount_segs(amount as nat, style));
        }
    } else {
        proof {
            assert(seg_views(acc@) =~= before + amount_segs(amount as nat, style));
        }
    }
}

/// The amount suffixes of a changed version: yellow where the amounts are
/// equal, else red for the old and green for the new.
pub open spec fn changed_amount_segs(old: nat, new: nat) -> (Seq<(Seq<char>, Style)>, Seq<(Seq<char>, Style)>) {
    if old == new {
        (amount_segs(old, Style::Yellow), amount_segs(new, Style::Yellow))
    } else {
        (amount_segs(old, Style::Red), amount_segs(new, Style::Green))
    }
}

/// Appends the amount suffixes of a changed version.
pub fn write_changed_amounts(old_acc: &mut Vec<Segment>, new_acc: &mut Vec<Segment>, old_amount: usize, new_amount: usize)
    ensures
        seg_views(final(old_acc)@) == seg_views(old(old_acc)@) + changed_amount_segs(old_amount as nat, new_amount as nat).0,
        seg_views(final(new_acc)@) == seg_views(old(new_acc)@) + changed_amount_segs(old_amount as nat, new_amount as nat).1,
{
    if old_amount == new_amount {
        write_amount_suffix(old_acc, old_amount, Style::Yellow);
        write_amount_suffix(new_acc, new_amount, Style::Yellow);
    } else {
        write_amount_suffix(old_acc, old_amount, Style::Red);
        write_amount_suffix(new_acc, new_amount, Style::Green);
    }
}

/// A character of a character-level diff: only in the left text, in both,
/// or only in the right text.
#[derive(Debug, Clone, Copy, PartialEq, Eq, Structural)]
pub enum CharDiff {
    Left(char),
    Both(char, char),
    Right(char),
}

/// The character-level diff that the `diff` crate computes for two texts.
pub uninterp spec fn char_diff(left: Seq<char>, right: Seq<char>) -> Seq<CharDiff>;

/// The characters of the left text in a diff.
pub open spec fn left_chars(ds: Seq<CharDiff>) -> Seq<char>
    decreases ds.len(),
{
    if ds.len() == 0 {
        Seq::empty()
    } else {
        match ds.last() {
            CharDiff::Left(c) => left_chars(ds.drop_last()).push(c),
            CharDiff::Both(c, _) => left_chars(ds.drop_last()).push(c),
            CharDiff::Right(_) => left_chars(ds.drop_last()),
        }
    }
}

/// The characters of the right text in a diff.
pub open spec fn right_chars(ds: Seq<CharDiff>) -> Seq<char>
    decreases ds.len(),
{
    if ds.len() == 0 {
        Seq::empty()
    } else {
        match ds.last() {
            CharDiff::Right(c) => right_chars(ds.drop_last()).push(c),
            CharDiff::Both(_, c) => right_chars(ds.drop_last()).push(c),
            CharDiff::Left(_) => right_chars(ds.drop_last()),
        }
    }
}

/// Calls `diff::chars(left, right)` and converts each `diff::Result` to a
/// `CharDiff`.
///
/// Trusted: the result is the named diff of the two texts; as the crate's
/// source shows, its left and both characters spell the left text, its
/// right and both characters spell the right text, and each pair of both
/// holds equal characters.
#[verifier::external_body]
fn chars_diff(left: &str, right: &str) -> (r: Vec<CharDiff>)
    ensures
        r@ == char_diff(left@, right@),
        left_chars(r@) == left@,
        right_chars(r@) == right@,
        forall|k: int| 0 <= k < r@.len() ==> (#[trigger] r@[k] matches CharDiff::Both(a, b) ==> a == b),
{
    diff::chars(left, right).into_iter().map(|res| match res {
        diff::Result::Left(c) => CharDiff::Left(c),
        diff::Result::Both(l, r) => CharDiff::Both(l, r),
        diff::Result::Right(c) => CharDiff::Right(c),
    }).collect()
}

/// Whether some character of the diff is only on one side.
pub open spec fn has_change(ds: Seq<CharDiff>) -> bool {
    exists|k: int| 0 <= k < ds.len() && !(#[trigger] ds[k] is Both)
}

/// The segments of a character diff: before the first change, shared
/// characters are yellow; removed characters are red, added ones green, and
/// after the first change shared characters are red and green too.
pub open spec fn char_diff_segs(ds: Seq<CharDiff>) -> (Seq<(Seq<char>, Style)>, Seq<(Seq<char>, Style)>)
    decreases ds.len(),
{
    if ds.len() == 0 {
        (Seq::empty(), Seq::empty())
    } else {
        let (o, n) = char_diff_segs(ds.drop_last());
        let active = has_change(ds.drop_last());
        match ds.last() {
            CharDiff::Both(l, r) => if active {
                (o.push((seq![l], Style::Red)), n.push((seq![r], Style::Green)))
            } else {
                (o.push((seq![l], Style::Yellow)), n.push((seq![r], Style::Yellow)))
            },
            CharDiff::Left(l) => (o.push((seq![l], Style::Red)), n),
            CharDiff::Right(r) => (o, n.push((seq![r], Style::Green))),
        }
    }
}

/// The length of a text in UTF-8 bytes.
pub open spec fn utf8_len(s: Seq<char>) -> nat
    decreases s.len(),
{
    if s.len() == 0 {
        0
    } else {
        utf8_len(s.drop_last()) + char_utf8_len(s.last())
    }
}

/// The number of UTF-8 bytes of a character.
pub open spec fn char_utf8_len(c: char) -> nat {
    if (c as u32) < 128u32 {
        1
    } else if (c as u32) < 2048u32 {
        2
    } else if (c as u32) < 65536u32 {
        3
    } else {
        4
    }
}

/// Whether the text is longer than `limit` UTF-8 bytes.
fn longer_than(s: &Vec<char>, limit: usize) -> (r: bool)
    ensures
        r == (utf8_len(s@) > limit),
{
    let mut total: usize = 0;
    let mut k: usize = 0;
    while k < s.len()
        invariant
            k <= s@.len(),
            total == utf8_len(s@.take(k as int)),
            total <= limit,
        decreases s@.len() - k,
    {
        let c = s[k];
        let w: usize = if (c as u32) < 128u32 {
            1
        } else if (c as u32) < 2048u32 {
            2
        } else if (c as u32) < 65536u32 {
            3
        } else {
            4
        };
        proof {
            assert(s@.take(k + 1).drop_last() =~= s@.take(k as int));
            assert(s@.take(k + 1).last() == c);
        }
        if w > limit - total {
            proof {
                lemma_utf8_len_prefix(s@, k + 1);
            }
            return true;
        }
        total = total + w;
        k = k + 1;
    }
    proof {
        assert(s@.take(k as int) =~= s@);
    }
    false
}

proof fn lemma_utf8_len_prefix(s: Seq<char>, k: int)
    requires
        0 <= k <= s.len(),
    ensures
        utf8_len(s.take(k)) <= utf8_len(s),
    decreases s.len(),
{
    if k < s.len() {
        lemma_utf8_len_prefix(s.drop_last(), k);
        assert(s.drop_last().take(k) =~= s.take(k));
    } else {
        assert(s.take(k) =~= s);
    }
}

/// Whether the characters of two texts differ at every position both have.
pub open spec fn all_positions_differ(a: Seq<char>, b: Seq<char>) -> bool {
    forall|i: int| 0 <= i < a.len() && i < b.len() ==> a[i] != b[i]
}

/// The segments of two differing pieces at the same place of two versions.
pub open spec fn piece_pair_segs(a: PieceView, b: PieceView) -> (Seq<(Seq<char>, Style)>, Seq<(Seq<char>, Style)>) {
    if a == b {
        (piece_segs(a, Style::Yellow), piece_segs(b, Style::Yellow))
    } else {
        match (a, b) {
            (PieceView::Component(x), PieceView::Component(y)) => {
                if utf8_len(x) > 20 && utf8_len(y) > 20 && all_positions_differ(x, y) {
                    (seq![(x, Style::Red)], seq![(y, Style::Green)])
                } else {
                    char_diff_segs(char_diff(x, y))
                }
            },
            _ => (piece_segs(a, Style::Red), piece_segs(b, Style::Green)),
        }
    }
}

/// Whether two pieces are equal.
fn same_piece(a: &VersionPiece, b: &VersionPiece) -> (r: bool)
    ensures
        r == (a@ == b@),
{
    match (a, b) {
        (VersionPiece::Component(x), VersionPiece::Component(y)) => x.same_text(y),
        (VersionPiece::Separator(x), VersionPiece::Separator(y)) => {
            let cx = chars_of(x);
            let cy = chars_of(y);
            assert(cx@.subrange(0, cx@.len() as int) =~= cx@);
            assert(cy@.subrange(0, cy@.len() as int) =~= cy@);
            let o = crate::text::range_order(&cx, 0, cx.len(), &cy, 0, cy.len());
            proof {
                crate::text::lemma_str_order_zero_iff_equal(x@, y@);
            }
            o == 0
        },
        _ => false,
    }
}

/// Whether two texts differ at every position both have.
fn differ_everywhere(a: &Vec<char>, b: &Vec<char>) -> (r: bool)
    ensures
        r == all_positions_differ(a@, b@),
{
    let mut i: usize = 0;
    while i < a.len() && i < b.len()
        invariant
            i <= a@.len(),
            forall|k: int| 0 <= k < i && k < a@.len() && k < b@.len() ==> a@[k] != b@[k],
        decreases a@.len() - i,
    {
        if a[i] == b[i] {
            return false;
        }
        i = i + 1;
    }
    true
}

/// Appends the segments of a character diff.
fn write_char_diff(old_acc: &mut Vec<Segment>, new_acc: &mut Vec<Segment>, ds: &Vec<CharDiff>)
    ensures
        seg_views(final(old_acc)@) == seg_views(old(old_acc)@) + char_diff_segs(ds@).0,
        seg_views(final(new_acc)@) == seg_views(old(new_acc)@) + char_diff_segs(ds@).1,
{
    let ghost o0 = seg_views(old_acc@);
    let ghost n0 = seg_views(new_acc@);
    let mut active = false;
    let mut k: usize = 0;
    proof {
        assert(ds@.take(0) =~= Seq::<CharDiff>::empty());
        assert(seg_views(old_acc@) =~= o0 + Seq::<(Seq<char>, Style)>::empty());
        assert(seg_views(new_acc@) =~= n0 + Seq::<(Seq<char>, Style)>::empty());
    }
    while k < ds.len()
        invariant
            k <= ds@.len(),
            active == has_change(ds@.take(k as int)),
            seg_views(old_acc@) == o0 + char_diff_segs(ds@.take(k as int)).0,
            seg_views(new_acc@) == n0 + char_diff_segs(ds@.take(k as int)).1,
        decreases ds@.len() - k,
    {
        let ghost pre = ds@.take(k as int);
        let ghost segs = char_diff_segs(pre);
        proof {
            assert(ds@.take(k + 1).drop_last() =~= pre);
            assert(ds@.take(k + 1).last() == ds@[k as int]);
        }
        match ds[k] {
            CharDiff::Both(l, r) => {
                if active {
                    push_char(old_acc, l, Style::Red);
                    push_char(new_acc, r, Style::Green);
                } else {
                    push_char(old_acc, l, Style::Yellow);
                    push_char(new_acc, r, Style::Yellow);
                }
            },
            CharDiff::Left(l) => {
                active = true;
                push_char(old_acc, l, Style::Red);
            },
            CharDiff::Right(r) => {
                active = true;
                push_char(new_acc, r, Style::Green);
            },
        }
        proof {
            let next = ds@.take(k + 1);
            assert(seg_views(old_acc@) =~= o0 + char_diff_segs(next).0);
            assert(seg_views(new_acc@) =~= n0 + char_diff_segs(next).1);
            assert(has_change(next) == (has_change(pre) || !(ds@[k as int] is Both))) by {
                if has_change(next) {
                    let t = choose|t: int| 0 <= t < next.len() && !(#[trigger] next[t] is Both);
                    if t < k {
                        assert(pre[t] == next[t]);
                    }
                }
                if has_change(pre) {
                    let t = choose|t: int| 0 <= t < pre.len() && !(#[trigger] pre[t] is Both);
                    assert(next[t] == pre[t]);
                }
                if !(ds@[k as int] is Both) {
                    assert(next[k as int] == ds@[k as int]);
                }
            }
        }
        k = k + 1;
    }
    proof {
        assert(ds@.take(k as int) =~= ds@);
    }
}

/// Appends the segments of two pieces at the same place of two versions:
/// equal pieces yellow; two components character by character (or whole,
/// red and green, where both are long and differ at every position); other
/// pieces red and green.
pub fn fmt_version_piece_pair(old_acc: &mut Vec<Segment>, new_acc: &mut Vec<Segment>, old_piece: &VersionPiece, new_piece: &VersionPiece)
    ensures
        seg_views(final(old_acc)@) == seg_views(old(old_acc)@) + piece_pair_segs(old_piece@, new_piece@).0,
        seg_views(final(new_acc)@) == seg_views(old(new_acc)@) + piece_pair_segs(old_piece@, new_piece@).1,
{
    if same_piece(old_piece, new_piece) {
        write_version_piece(old_acc, old_piece, Style::Yellow);
        write_version_piece(new_acc, new_piece, Style::Yellow);
        return;
    }
    match (old_piece, new_piece) {
        (VersionPiece::Component(x), VersionPiece::Component(y)) => {
            let xs = x.as_str();
            let ys = y.as_str();
            let xc = chars_of(xs);
            let yc = chars_of(ys);
            if longer_than(&xc, 20) && longer_than(&yc, 20) && differ_everywhere(&xc, &yc) {
                push_text(old_acc, xs, Style::Red);
                push_text(new_acc, ys, Style::Green);
                proof {
                    assert(seq![(xs@, Style::Red)] =~= Seq::<(Seq<char>, Style)>::empty().push((xs@, Style::Red)));
                }
                return;
            }
            let ds = chars_diff(xs, ys);
            write_char_diff(old_acc, new_acc, &ds);
        },
        _ => {
            write_version_piece(old_acc, old_piece, Style::Red);
            write_version_piece(new_acc, new_piece, Style::Green);
        },
    }
}

/// Whether pieces `k` of two lists differ.
pub open spec fn pieces_differ_at(pa: Seq<PieceView>, pb: Seq<PieceView>) -> spec_fn(int) -> bool {
    |k: int| pa[k] != pb[k]
}

/// Whether pieces `k` from the ends of two lists differ.
pub open spec fn pieces_differ_from_end_at(pa: Seq<PieceView>, pb: Seq<PieceView>) -> spec_fn(int) -> bool {
    |k: int| pa[pa.len() - 1 - k] != pb[pb.len() - 1 - k]
}

/// The shorter of two lengths.
pub open spec fn min_len(a: int, b: int) -> int {
    if a <= b {
        a
    } else {
        b
    }
}

/// The segments of the differing middle pieces of two versions, position
/// by position: pairs of pieces as pairs, extra old pieces red, extra new
/// ones green.
pub open spec fn middle_segs(ma: Seq<PieceView>, mb: Seq<PieceView>, n: int) -> (Seq<(Seq<char>, Style)>, Seq<(Seq<char>, Style)>)
    decreases n,
{
    if n <= 0 {
        (Seq::empty(), Seq::empty())
    } else {
        let (o, w) = middle_segs(ma, mb, n - 1);
        let i = n - 1;
        if i < ma.len() && i < mb.len() {
            (o + piece_pair_segs(ma[i], mb[i]).0, w + piece_pair_segs(ma[i], mb[i]).1)
        } else if i < ma.len() {
            (o + piece_segs(ma[i], Style::Red), w)
        } else {
            (o, w + piece_segs(mb[i], Style::Green))
        }
    }
}

/// The segments of a changed version: the common leading and trailing
/// pieces yellow, the pieces between compared piece by piece.
pub open spec fn single_version_segs(a: Seq<char>, b: Seq<char>) -> (Seq<(Seq<char>, Style)>, Seq<(Seq<char>, Style)>) {
    let pa = piece_views(a);
    let pb = piece_views(b);
    if (pa.len() == 0 && pb.len() == 0) || a == b {
        (Seq::empty(), Seq::empty())
    } else {
        let p = scan_from(pieces_differ_at(pa, pb), 0, min_len(pa.len() as int, pb.len() as int));
        let ra = pa.skip(p);
        let rb = pb.skip(p);
        let s = if ra.len() > 0 && rb.len() > 0 {
            scan_from(pieces_differ_from_end_at(ra, rb), 0, min_len(ra.len() as int, rb.len() as int))
        } else {
            0
        };
        let ma = pa.subrange(p, pa.len() - s);
        let mb = pb.subrange(p, pb.len() - s);
        let pre = pieces_segs(pa.take(p), Style::Yellow);
        let suf = pieces_segs(pa.skip(pa.len() - s), Style::Yellow);
        let mid = middle_segs(ma, mb, if ma.len() >= mb.len() { ma.len() as int } else { mb.len() as int });
        (pre + mid.0 + suf, pre + mid.1 + suf)
    }
}

/// The views of a list of pieces.
pub open spec fn piece_list_views(v: Seq<VersionPiece>) -> Seq<PieceView> {
    v.map_values(|p: VersionPiece| p@)
}

/// The number of equal leading pieces of two lists.
fn common_prefix_pieces(a: &Vec<VersionPiece>, b: &Vec<VersionPiece>) -> (k: usize)
    ensures
        k == scan_from(
            pieces_differ_at(piece_list_views(a@), piece_list_views(b@)),
            0,
            min_len(a@.len() as int, b@.len() as int),
        ),
        k <= a@.len(),
        k <= b@.len(),
{
    let ghost pa = piece_list_views(a@);
    let ghost pb = piece_list_views(b@);
    let shortest = if a.len() <= b.len() { a.len() } else { b.len() };
    proof {
        lemma_scan_from(pieces_differ_at(pa, pb), 0, shortest as int);
    }
    let mut k: usize = 0;
    while k < shortest
        invariant
            pa == piece_list_views(a@),
            pb == piece_list_views(b@),
            shortest == min_len(pa.len() as int, pb.len() as int),
            k <= shortest,
            scan_from(pieces_differ_at(pa, pb), 0, shortest as int) == scan_from(pieces_differ_at(pa, pb), k as int, shortest as int),
        ensures
            k <= shortest,
            scan_from(pieces_differ_at(pa, pb), 0, shortest as int) == k,
        decreases shortest - k,
    {
        if !same_piece(&a[k], &b[k]) {
            break;
        }
        k = k + 1;
    }
    k
}

/// The number of equal trailing pieces of `a[start..]` and `b[start..]`.
fn common_suffix_pieces(a: &Vec<VersionPiece>, b: &Vec<VersionPiece>, start: usize) -> (k: usize)
    requires
        start < a@.len(),
        start < b@.len(),
    ensures
        k == scan_from(
            pieces_differ_from_end_at(piece_list_views(a@).skip(start as int), piece_list_views(b@).skip(start as int)),
            0,
            min_len(a@.len() - start, b@.len() - start),
        ),
        k <= a@.len() - start,
        k <= b@.len() - start,
{
    let ghost ra = piece_list_views(a@).skip(start as int);
    let ghost rb = piece_list_views(b@).skip(start as int);
    let old_rest = a.len() - start;
    let new_rest = b.len() - start;
    let limit = if old_rest <= new_rest { old_rest } else { new_rest };
    proof {
        lemma_scan_from(pieces_differ_from_end_at(ra, rb), 0, limit as int);
    }
    let mut k: usize = 0;
    while k < limit
        invariant
            ra == piece_list_views(a@).skip(start as int),
            rb == piece_list_views(b@).skip(start as int),
            start < a@.len(),
            start < b@.len(),
            ra.len() == a@.len() - start,
            rb.len() == b@.len() - start,
            limit == min_len(ra.len() as int, rb.len() as int),
            k <= limit,
            scan_from(pieces_differ_from_end_at(ra, rb), 0, limit as int)
                == scan_from(pieces_differ_from_end_at(ra, rb), k as int, limit as int),
        ensures
            k <= limit,
            scan_from(pieces_differ_from_end_at(ra, rb), 0, limit as int) == k,
        decreases limit - k,
    {
        let i = a.len() - 1 - k;
        let j = b.len() - 1 - k;
        proof {
            assert(ra[ra.len() - 1 - k] == a@[i as int]@);
            assert(rb[rb.len() - 1 - k] == b@[j as int]@);
        }
        if !same_piece(&a[i], &b[j]) {
            break;
        }
        k = k + 1;
    }
    k
}

/// Appends the segments of the middle pieces `a[start..a_end]` and
/// `b[start..b_end]`.
fn write_middle(
    old_acc: &mut Vec<Segment>,
    new_acc: &mut Vec<Segment>,
    a: &Vec<VersionPiece>,
    b: &Vec<VersionPiece>,
    start: usize,
    a_end: usize,
    b_end: usize,
)
    requires
        start <= a_end <= a@.len(),
        start <= b_end <= b@.len(),
    ensures
        ({
            let ma = piece_list_views(a@).subrange(start as int, a_end as int);
            let mb = piece_list_views(b@).subrange(start as int, b_end as int);
            let mid = middle_segs(ma, mb, if ma.len() >= mb.len() { ma.len() as int } else { mb.len() as int });
            &&& seg_views(final(old_acc)@) == seg_views(old(old_acc)@) + mid.0
            &&& seg_views(final(new_acc)@) == seg_views(old(new_acc)@) + mid.1
        }),
{
    let ghost ma = piece_list_views(a@).subrange(start as int, a_end as int);
    let ghost mb = piece_list_views(b@).subrange(start as int, b_end as int);
    let ghost o1 = seg_views(old_acc@);
    let ghost n1 = seg_views(new_acc@);
    let a_mid = a_end - start;
    let b_mid = b_end - start;
    let longest = if a_mid >= b_mid { a_mid } else { b_mid };
    let mut k: usize = 0;
    proof {
        assert(seg_views(old_acc@) =~= o1 + middle_segs(ma, mb, 0).0);
        assert(seg_views(new_acc@) =~= n1 + middle_segs(ma, mb, 0).1);
    }
    while k < longest
        invariant
            start <= a_end <= a@.len(),
            start <= b_end <= b@.len(),
            a_mid == a_end - start,
            b_mid == b_end - start,
            ma == piece_list_views(a@).subrange(start as int, a_end as int),
            mb == piece_list_views(b@).subrange(start as int, b_end as int),
            longest == (if a_mid >= b_mid { a_mid } else { b_mid }),
            k <= longest,
            seg_views(old_acc@) == o1 + middle_segs(ma, mb, k as int).0,
            seg_views(new_acc@) == n1 + middle_segs(ma, mb, k as int).1,
        decreases longest - k,
    {
        if k < a_mid && k < b_mid {
            fmt_version_piece_pair(old_acc, new_acc, &a[start + k], &b[start + k]);
            proof {
                assert(ma[k as int] == a@[start + k]@);
                assert(mb[k as int] == b@[start + k]@);
            }
        } else if k < a_mid {
            write_version_piece(old_acc, &a[start + k], Style::Red);
            proof {
                assert(ma[k as int] == a@[start + k]@);
            }
        } else {
            write_version_piece(new_acc, &b[start + k], Style::Green);
            proof {
                assert(mb[k as int] == b@[start + k]@);
            }
        }
        proof {
            assert(seg_views(old_acc@) =~= o1 + middle_segs(ma, mb, k + 1).0);
            assert(seg_views(new_acc@) =~= n1 + middle_segs(ma, mb, k + 1).1);
        }
        k = k + 1;
    }
}

/// Appends the segments of a changed version.
pub fn fmt_single_version_diff(old_acc: &mut Vec<Segment>, new_acc: &mut Vec<Segment>, old_ver: &Version, new_ver: &Version)
    ensures
        seg_views(final(old_acc)@) == seg_views(old(old_acc)@) + single_version_segs(old_ver@, new_ver@).0,
        seg_views(final(new_acc)@) == seg_views(old(new_acc)@) + single_version_segs(old_ver@, new_ver@).1,
{
    let old_parts = old_ver.iter().into_vec();
    let new_parts = new_ver.iter().into_vec();
    let ghost pa = piece_list_views(old_parts@);
    let ghost pb = piece_list_views(new_parts@);
    let ghost o0 = seg_views(old_acc@);
    let ghost n0 = seg_views(new_acc@);
    if (old_parts.len() == 0 && new_parts.len() == 0) || old_ver.name == new_ver.name {
        proof {
            assert(seg_views(old_acc@) =~= o0 + Seq::<(Seq<char>, Style)>::empty());
            assert(seg_views(new_acc@) =~= n0 + Seq::<(Seq<char>, Style)>::empty());
        }
        return;
    }
    let prefix_len = common_prefix_pieces(&old_parts, &new_parts);
    let suffix_len = if prefix_len < old_parts.len() && prefix_len < new_parts.len() {
        common_suffix_pieces(&old_parts, &new_parts, prefix_len)
    } else {
        0
    };
    let old_end = old_parts.len() - suffix_len;
    let new_end = new_parts.len() - suffix_len;
    write_pieces(old_acc, &old_parts, 0, prefix_len, Style::Yellow);
    write_pieces(new_acc, &old_parts, 0, prefix_len, Style::Yellow);
    write_middle(old_acc, new_acc, &old_parts, &new_parts, prefix_len, old_end, new_end);
    write_pieces(old_acc, &old_parts, old_end, old_parts.len(), Style::Yellow);
    write_pieces(new_acc, &old_parts, old_end, old_parts.len(), Style::Yellow);
    proof {
        assert(pa == piece_views(old_ver@));
        assert(pb == piece_views(new_ver@));
        assert(pa.subrange(0, prefix_len as int) =~= pa.take(prefix_len as int));
        assert(pa.subrange(old_end as int, pa.len() as int) =~= pa.skip(pa.len() - suffix_len));
        let ma = pa.subrange(prefix_len as int, old_end as int);
        let mb = pb.subrange(prefix_len as int, new_end as int);
        let mid = middle_segs(ma, mb, if ma.len() >= mb.len() { ma.len() as int } else { mb.len() as int });
        let pre = pieces_segs(pa.take(prefix_len as int), Style::Yellow);
        let suf = pieces_segs(pa.skip(pa.len() - suffix_len), Style::Yellow);
        assert(seg_views(old_acc@) =~= o0 + (pre + mid.0 + suf));
        assert(seg_views(new_acc@) =~= n0 + (pre + mid.1 + suf));
    }
}

/// The text `, ` between versions.
pub open spec fn sep_text() -> Seq<char> {
    seq![',', ' ']
}

/// The text `<others>`.
pub open spec fn others_text() -> Seq<char> {
    seq!['<', 'o', 't', 'h', 'e', 'r', 's', '>']
}

/// A separator before the next version, where one was written already.
pub open spec fn with_sep(acc: Seq<(Seq<char>, Style)>, wrote: bool) -> Seq<(Seq<char>, Style)> {
    if wrote {
        acc.push((sep_text(), Style::Plain))
    } else {
        acc
    }
}

/// The old and new segments written so far, and whether each side has a
/// version yet.
pub ghost struct RenderState {
    pub old: Seq<(Seq<char>, Style)>,
    pub new: Seq<(Seq<char>, Style)>,
    pub old_wrote: bool,
    pub new_wrote: bool,
}

/// Writes one version change: removed versions red on the old side, added
/// ones green on the new side, changed versions on both sides, amount
/// changes yellow with the amounts red and green.
pub open spec fn render_step(st: RenderState, d: VersionDiffView) -> RenderState {
    match d {
        VersionDiffView::Removed(a) => RenderState {
            old: with_sep(st.old, st.old_wrote) + version_segs(a.0, Style::Red) + amount_segs(a.1, Style::Red),
            old_wrote: true,
            ..st
        },
        VersionDiffView::Added(a) => RenderState {
            new: with_sep(st.new, st.new_wrote) + version_segs(a.0, Style::Green) + amount_segs(a.1, Style::Green),
            new_wrote: true,
            ..st
        },
        VersionDiffView::Changed(a, b) => if a == b {
            st
        } else {
            RenderState {
                old: with_sep(st.old, st.old_wrote) + single_version_segs(a.0, b.0).0 + changed_amount_segs(a.1, b.1).0,
                new: with_sep(st.new, st.new_wrote) + single_version_segs(a.0, b.0).1 + changed_amount_segs(a.1, b.1).1,
                old_wrote: true,
                new_wrote: true,
            }
        },
        VersionDiffView::AmountChanged(v, x, y) => RenderState {
            old: with_sep(st.old, st.old_wrote) + version_segs(v, Style::Yellow) + amount_segs(x, Style::Red),
            new: with_sep(st.new, st.new_wrote) + version_segs(v, Style::Yellow) + amount_segs(y, Style::Green),
            old_wrote: true,
            new_wrote: true,
        },
    }
}

/// Writes a list of version changes, first to last.
pub open spec fn render_steps(ds: Seq<VersionDiffView>) -> RenderState
    decreases ds.len(),
{
    if ds.len() == 0 {
        RenderState { old: Seq::empty(), new: Seq::empty(), old_wrote: false, new_wrote: false }
    } else {
        render_step(render_steps(ds.drop_last()), ds.last())
    }
}

/// The old and new segments of a package's version changes, with
/// `<others>` on both sides where unchanged versions were left out.
pub open spec fn version_diff_segs(ds: Seq<VersionDiffView>, omitted: bool) -> (Seq<(Seq<char>, Style)>, Seq<(Seq<char>, Style)>) {
    let st = render_steps(ds);
    if omitted {
        (
            with_sep(st.old, st.old_wrote).push((others_text(), Style::BlueItalic)),
            with_sep(st.new, st.new_wrote).push((others_text(), Style::BlueItalic)),
        )
    } else {
        (st.old, st.new)
    }
}

/// Appends a separator where a version was written already, and notes that
/// one is written now.
fn append_sep(acc: &mut Vec<Segment>, wrote: &mut bool)
    ensures
        seg_views(final(acc)@) == with_sep(seg_views(old(acc)@), *old(wrote)),
        *final(wrote),
{
    if *wrote {
        push_text(acc, ", ", Style::Plain);
        proof {
            reveal_strlit(", ");
            assert(", "@ =~= sep_text());
        }
    } else {
        *wrote = true;
    }
}

/// Appends a version with its amount suffix.
fn write_version_amount(acc: &mut Vec<Segment>, version: &crate::model::VersionAmount, style: Style)
    ensures
        seg_views(final(acc)@) == seg_views(old(acc)@) + version_segs(version@.0, style) + amount_segs(version@.1, style),
{
    write_version(acc, &version.version, style);
    write_amount_suffix(acc, version.amount, style);
}

/// The old and new segments of a package's version changes.
pub fn fmt_version_diffs(version_diffs: &Vec<VersionDiff>, has_omitted_versions: bool) -> (r: (Vec<Segment>, Vec<Segment>))
    ensures
        seg_views(r.0@) == version_diff_segs(version_diffs@.map_values(|d: VersionDiff| d@), has_omitted_versions).0,
        seg_views(r.1@) == version_diff_segs(version_diffs@.map_values(|d: VersionDiff| d@), has_omitted_versions).1,
{
    let ghost ds = version_diffs@.map_values(|d: VersionDiff| d@);
    let mut old_acc: Vec<Segment> = Vec::new();
    let mut new_acc: Vec<Segment> = Vec::new();
    let mut old_wrote = false;
    let mut new_wrote = false;
    let mut k: usize = 0;
    proof {
        assert(seg_views(old_acc@) =~= Seq::<(Seq<char>, Style)>::empty());
        assert(seg_views(new_acc@) =~= Seq::<(Seq<char>, Style)>::empty());
        assert(ds.take(0) =~= Seq::<VersionDiffView>::empty());
    }
    while k < version_diffs.len()
        invariant
            ds == version_diffs@.map_values(|d: VersionDiff| d@),
            k <= ds.len(),
            render_steps(ds.take(k as int)) == (RenderState {
                old: seg_views(old_acc@),
                new: seg_views(new_acc@),
                old_wrote,
                new_wrote,
            }),
        decreases ds.len() - k,
    {
        proof {
            assert(ds.take(k + 1).drop_last() =~= ds.take(k as int));
            assert(ds.take(k + 1).last() == version_diffs@[k as int]@);
        }
        match &version_diffs[k] {
            VersionDiff::Removed(old) => {
                append_sep(&mut old_acc, &mut old_wrote);
                write_version_amount(&mut old_acc, old, Style::Red);
            },
            VersionDiff::Added(new) => {
                append_sep(&mut new_acc, &mut new_wrote);
                write_version_amount(&mut new_acc, new, Style::Green);
            },
            VersionDiff::Changed { old, new } => {
                if old.version.name == new.version.name && old.amount == new.amount {
                } else {
                    append_sep(&mut old_acc, &mut old_wrote);
                    append_sep(&mut new_acc, &mut new_wrote);
                    fmt_single_version_diff(&mut old_acc, &mut new_acc, &old.version, &new.version);
                    write_changed_amounts(&mut old_acc, &mut new_acc, old.amount, new.amount);
                }
            },
            VersionDiff::AmountChanged { version, old_amount, new_amount } => {
                append_sep(&mut old_acc, &mut old_wrote);
                append_sep(&mut new_acc, &mut new_wrote);
                write_version(&mut old_acc, version, Style::Yellow);
                write_version(&mut new_acc, version, Style::Yellow);
                write_amount_suffix(&mut old_acc, *old_amount, Style::Red);
                write_amount_suffix(&mut new_acc, *new_amount, Style::Green);
            },
        }
        proof {
            let st = render_steps(ds.take(k + 1));
            assert(st.old =~= seg_views(old_acc@));
            assert(st.new =~= seg_views(new_acc@));
        }
        k = k + 1;
    }
    proof {
        assert(ds.take(k as int) =~= ds);
    }
    if has_omitted_versions {
        append_sep(&mut old_acc, &mut old_wrote);
        append_sep(&mut new_acc, &mut new_wrote);
        push_text(&mut old_acc, "<others>", Style::BlueItalic);
        push_text(&mut new_acc, "<others>", Style::BlueItalic);
        proof {
            reveal_strlit("<others>");
            assert("<others>"@ =~= others_text());
        }
    }
    (old_acc, new_acc)
}

/// The display width in columns that the `unicode-width` crate gives a
/// text.
pub uninterp spec fn display_width(s: Seq<char>) -> nat;

/// Calls `unicode_width::UnicodeWidthStr::width(s)`.
///
/// Trusted: the result is the named display width of the text.
#[verifier::external_body]
pub(crate) fn text_width(s: &str) -> (w: usize)
    ensures
        w == display_width(s@),
{
    unicode_width::UnicodeWidthStr::width(s)
}

/// The text that the `size` crate displays for a size of `bytes` bytes.
pub uninterp spec fn size_display(bytes: int) -> Seq<char>;

/// Formats `size::Size::from_bytes(bytes)` with its `Display` impl.
///
/// Trusted: the result is the named display text of the size. As the
/// crate's formatter shows, it writes a `-` first for a negative size and
/// then the magnitude's digits, so the text is never empty and starts with
/// `-` exactly where the size is negative.
#[verifier::external_body]
fn size_text(bytes: i64) -> (r: Vec<char>)
    ensures
        r@ == size_display(bytes as int),
        r@.len() > 0,
        (r@[0] == '-') == (bytes < 0),
{
    size::Size::from_bytes(bytes).to_string().chars().collect()
}

/// The section a status is listed under.
#[derive(Debug, Clone, Copy, PartialEq, Eq, Structural)]
pub enum StatusGroup {
    Changed,
    Added,
    Removed,
}

/// The section of a status: every kind of change lists under changed.
pub open spec fn group_of(status: DiffStatus) -> StatusGroup {
    match status {
        DiffStatus::Added => StatusGroup::Added,
        DiffStatus::Removed => StatusGroup::Removed,
        _ => StatusGroup::Changed,
    }
}

pub fn status_group(status: DiffStatus) -> (g: StatusGroup)
    ensures
        g == group_of(status),
{
    match status {
        DiffStatus::Changed | DiffStatus::Mixed | DiffStatus::Upgraded | DiffStatus::Downgraded => StatusGroup::Changed,
        DiffStatus::Added => StatusGroup::Added,
        DiffStatus::Removed => StatusGroup::Removed,
    }
}

/// The order of sections.
pub open spec fn group_rank(g: StatusGroup) -> int {
    match g {
        StatusGroup::Changed => 0,
        StatusGroup::Added => 1,
        StatusGroup::Removed => 2,
    }
}

/// The order of statuses.
pub open spec fn status_rank(s: DiffStatus) -> int {
    match s {
        DiffStatus::Changed => 0,
        DiffStatus::Mixed => 1,
        DiffStatus::Upgraded => 2,
        DiffStatus::Downgraded => 3,
        DiffStatus::Added => 4,
        DiffStatus::Removed => 5,
    }
}

fn group_rank_of(g: StatusGroup) -> (r: u8)
    ensures
        r == group_rank(g),
{
    match g {
        StatusGroup::Changed => 0,
        StatusGroup::Added => 1,
        StatusGroup::Removed => 2,
    }
}

fn status_rank_of(s: DiffStatus) -> (r: u8)
    ensures
        r == status_rank(s),
{
    match s {
        DiffStatus::Changed => 0,
        DiffStatus::Mixed => 1,
        DiffStatus::Upgraded => 2,
        DiffStatus::Downgraded => 3,
        DiffStatus::Added => 4,
        DiffStatus::Removed => 5,
    }
}

/// The character and style that mark a status.
pub open spec fn status_mark(status: DiffStatus) -> (char, Style) {
    match status {
        DiffStatus::Changed | DiffStatus::Mixed => ('C', Style::YellowBold),
        DiffStatus::Upgraded => ('U', Style::BrightCyanBold),
        DiffStatus::Downgraded => ('D', Style::MagentaBold),
        DiffStatus::Added => ('A', Style::GreenBold),
        DiffStatus::Removed => ('R', Style::RedBold),
    }
}

pub fn status_char(status: DiffStatus) -> (r: (char, Style))
    ensures
        r == status_mark(status),
        status == DiffStatus::Upgraded ==> r == ('U', Style::BrightCyanBold),
        status == DiffStatus::Downgraded ==> r == ('D', Style::MagentaBold),
        status == DiffStatus::Added ==> r == ('A', Style::GreenBold),
        status == DiffStatus::Removed ==> r == ('R', Style::RedBold),
        status == DiffStatus::Changed || status == DiffStatus::Mixed ==> r == ('C', Style::YellowBold),
{
    match status {
        DiffStatus::Changed | DiffStatus::Mixed => ('C', Style::YellowBold),
        DiffStatus::Upgraded => ('U', Style::BrightCyanBold),
        DiffStatus::Downgraded => ('D', Style::MagentaBold),
        DiffStatus::Added => ('A', Style::GreenBold),
        DiffStatus::Removed => ('R', Style::RedBold),
    }
}

/// The character and style that mark a selection status.
pub open spec fn selection_mark(status: DerivationSelectionStatus) -> (char, Style) {
    match status {
        DerivationSelectionStatus::Selected => ('*', Style::Bold),
        DerivationSelectionStatus::NewlySelected => ('+', Style::Bold),
        DerivationSelectionStatus::Unselected => ('.', Style::Plain),
        DerivationSelectionStatus::NewlyUnselected => ('-', Style::Plain),
    }
}

pub fn selection_char(status: DerivationSelectionStatus) -> (r: (char, Style))
    ensures
        r == selection_mark(status),
{
    match status {
        DerivationSelectionStatus::Selected => ('*', Style::Bold),
        DerivationSelectionStatus::NewlySelected => ('+', Style::Bold),
        DerivationSelectionStatus::Unselected => ('.', Style::Plain),
        DerivationSelectionStatus::NewlyUnselected => ('-', Style::Plain),
    }
}

/// Whether change `a` is listed after change `b`: by section, status and
/// name.
pub open spec fn listed_after(a: PackageDiffView, b: PackageDiffView) -> bool {
    let ga = group_rank(group_of(a.status));
    let gb = group_rank(group_of(b.status));
    ga > gb || (ga == gb && (status_rank(a.status) > status_rank(b.status) || (status_rank(a.status) == status_rank(b.status)
        && str_order(a.name, b.name) > 0)))
}

/// Whether the change at entry `k` of `order` is listed after change `x`.
pub open spec fn listed_after_at(ds: Seq<PackageDiffView>, order: Seq<int>, x: int) -> spec_fn(int) -> bool {
    |k: int| listed_after(ds[order[k]], ds[x])
}

/// The listing order of the first `n` changes: each inserted before the
/// first change listed after it.
pub open spec fn listing_order(ds: Seq<PackageDiffView>, n: int) -> Seq<int>
    decreases n,
{
    if n <= 0 {
        Seq::empty()
    } else {
        let prev = listing_order(ds, n - 1);
        prev.insert(scan_from(listed_after_at(ds, prev, n - 1), 0, prev.len() as int), n - 1)
    }
}

/// Whether text `a` orders after text `b`.
fn text_after(a: &str, b: &str) -> (r: bool)
    ensures
        r == (str_order(a@, b@) > 0),
{
    let x = chars_of(a);
    let y = chars_of(b);
    assert(x@.subrange(0, x@.len() as int) =~= x@);
    assert(y@.subrange(0, y@.len() as int) =~= y@);
    crate::text::range_order(&x, 0, x.len(), &y, 0, y.len()) > 0
}

fn is_listed_after(a: &PackageDiff, b: &PackageDiff) -> (r: bool)
    ensures
        r == listed_after(a@, b@),
{
    let ga = group_rank_of(status_group(a.status));
    let gb = group_rank_of(status_group(b.status));
    if ga != gb {
        return ga > gb;
    }
    let sa = status_rank_of(a.status);
    let sb = status_rank_of(b.status);
    if sa != sb {
        return sa > sb;
    }
    text_after(a.name.as_str(), b.name.as_str())
}

/// The order in which changes are listed: by section, status and name.
pub fn listing_order_of(diffs: &Vec<PackageDiff>) -> (r: Vec<usize>)
    ensures
        r@.map_values(|i: usize| i as int) == listing_order(package_diff_views(diffs@), diffs@.len() as int),
        forall|k: int| 0 <= k < r@.len() ==> (#[trigger] r@[k]) < diffs@.len(),
{
    let ghost ds = package_diff_views(diffs@);
    let mut order: Vec<usize> = Vec::new();
    let mut n: usize = 0;
    proof {
        assert(order@.map_values(|i: usize| i as int) =~= listing_order(ds, 0));
    }
    while n < diffs.len()
        invariant
            ds == package_diff_views(diffs@),
            n <= ds.len(),
            order@.map_values(|i: usize| i as int) == listing_order(ds, n as int),
            forall|k: int| 0 <= k < order@.len() ==> (#[trigger] order@[k]) < n,
        decreases ds.len() - n,
    {
        let ghost prev = order@.map_values(|i: usize| i as int);
        let mut p: usize = 0;
        while p < order.len()
            invariant
                ds == package_diff_views(diffs@),
                n < ds.len(),
                prev == order@.map_values(|i: usize| i as int),
                forall|k: int| 0 <= k < order@.len() ==> (#[trigger] order@[k]) < n,
                p <= prev.len(),
                scan_from(listed_after_at(ds, prev, n as int), 0, prev.len() as int)
                    == scan_from(listed_after_at(ds, prev, n as int), p as int, prev.len() as int),
            ensures
                p <= prev.len(),
                scan_from(listed_after_at(ds, prev, n as int), 0, prev.len() as int) == p,
            decreases prev.len() - p,
        {
            let j = order[p];
            proof {
                assert(ds[prev[p as int]] == diffs@[j as int]@);
                assert(ds[n as int] == diffs@[n as int]@);
            }
            if is_listed_after(&diffs[j], &diffs[n]) {
                break;
            }
            p = p + 1;
        }
        order.insert(p, n);
        proof {
            assert(order@.map_values(|i: usize| i as int) =~= prev.insert(p as int, n as int));
        }
        n = n + 1;
    }
    order
}

/// The heading of a section.
pub open spec fn header_text(g: StatusGroup) -> Seq<char> {
    match g {
        StatusGroup::Changed => seq!['C', 'H', 'A', 'N', 'G', 'E', 'D'],
        StatusGroup::Added => seq!['A', 'D', 'D', 'E', 'D'],
        StatusGroup::Removed => seq!['R', 'E', 'M', 'O', 'V', 'E', 'D'],
    }
}

/// A name padded with spaces to `width` characters.
pub open spec fn padded_name(name: Seq<char>, width: int) -> Seq<char> {
    name + Seq::new(if width > name.len() { (width - name.len()) as nat } else { 0 }, |i: int| ' ')
}

/// The line of one package change: status and selection marks, the padded
/// name, and the old and new versions with an arrow between where both are
/// present.
pub open spec fn diff_line(d: PackageDiffView, width: int) -> Seq<(Seq<char>, Style)> {
    let (sc, ss) = status_mark(d.status);
    let (lc, ls) = selection_mark(d.selection);
    let (o, n) = version_diff_segs(d.versions, d.has_omitted_versions);
    line_head((sc, ss), (lc, ls), d.name, width) + line_tail(o, n)
}

/// The lines of a list of changes, with a heading before each section and
/// an empty line between sections.
pub open spec fn render_listing(ds: Seq<PackageDiffView>, width: int) -> Seq<(Seq<char>, Style)>
    decreases ds.len(),
{
    if ds.len() == 0 {
        Seq::empty()
    } else {
        let d = ds.last();
        let first = ds.len() == 1;
        let new_section = first || group_of(ds[ds.len() - 2].status) != group_of(d.status);
        let heading = if new_section {
            (if first { Seq::empty() } else { seq![(seq!['\n'], Style::Plain)] })
                + seq![(header_text(group_of(d.status)), Style::Bold), (seq!['\n'], Style::Plain)]
        } else {
            Seq::empty()
        };
        render_listing(ds.drop_last(), width) + heading + diff_line(d, width)
    }
}

/// The widest display width of the names, plus one.
pub open spec fn name_column(ds: Seq<PackageDiffView>) -> int
    decreases ds.len(),
{
    if ds.len() == 0 {
        1
    } else {
        let rest = name_column(ds.drop_last());
        let w: int = display_width(ds.last().name) as int + 1;
        if w > rest {
            w
        } else {
            rest
        }
    }
}

/// The changes in listing order.
pub open spec fn listed(ds: Seq<PackageDiffView>) -> Seq<PackageDiffView> {
    listing_order(ds, ds.len() as int).map_values(|i: int| ds[i])
}

pub(crate) fn push_segments(acc: &mut Vec<Segment>, more: Vec<Segment>)
    ensures
        seg_views(final(acc)@) == seg_views(old(acc)@) + seg_views(more@),
{
    let ghost before = seg_views(acc@);
    let mut more = more;
    let mut k: usize = 0;
    let total = more.len();
    let ghost all = seg_views(more@);
    while more.len() > 0
        invariant
            all.len() == total,
            k + more@.len() == total,
            seg_views(more@) == all.skip(k as int),
            seg_views(acc@) == before + all.take(k as int),
        decreases more@.len(),
    {
        let ghost m = more@;
        let s = more.remove(0);
        proof {
            assert(seg_views(m)[0] == all[k as int]);
            assert(seg_views(more@) =~= seg_views(m).drop_first());
            assert(seg_views(more@) =~= all.skip(k + 1));
        }
        let ghost sv = s@;
        let ghost prev = seg_views(acc@);
        acc.push(s);
        proof {
            assert(seg_views(acc@) =~= prev.push(sv));
            assert(all.take(k + 1) =~= all.take(k as int).push(sv));
            assert(seg_views(acc@) =~= before + all.take(k + 1));
        }
        k = k + 1;
    }
    proof {
        assert(all.take(k as int) =~= all);
    }
}

/// The segments that open a listing line: the bracketed status and
/// selection marks, then the name padded to `width` in the selection's style.
pub open spec fn line_head(status: (char, Style), selection: (char, Style), name: Seq<char>, width: int) -> Seq<(Seq<char>, Style)> {
    seq![(seq!['['], Style::Plain), (seq![status.0], status.1), (seq![selection.0], selection.1), (seq![']', ' '], Style::Plain), (padded_name(name, width), selection.1)]
}

/// The segments that close a listing line: the old versions, an arrow where
/// both sides have segments, the new versions and a line break.
pub open spec fn line_tail(o: Seq<(Seq<char>, Style)>, n: Seq<(Seq<char>, Style)>) -> Seq<(Seq<char>, Style)> {
    o + (if o.len() > 0 && n.len() > 0 {
        seq![(seq![' ', '-', '>', ' '], Style::Plain)]
    } else {
        Seq::empty()
    }) + n + seq![(seq!['\n'], Style::Plain)]
}

/// The characters of `name` followed by spaces up to `width` characters.
fn padded_chars(name: &str, width: usize) -> (r: Vec<char>)
    ensures
        r@ == padded_name(name@, width as int),
{
    let mut r = chars_of(name);
    let len = r.len();
    if width > len {
        let mut i: usize = 0;
        let pad = width - len;
        while i < pad
            invariant
                i <= pad,
                r@ == name@ + Seq::new(i as nat, |j: int| ' '),
            decreases pad - i,
        {
            r.push(' ');
            proof {
                assert(name@ + Seq::new((i + 1) as nat, |j: int| ' ') =~= (name@ + Seq::new(i as nat, |j: int| ' ')).push(' '));
            }
            i = i + 1;
        }
    } else {
        proof {
            assert(r@ =~= name@ + Seq::new(0nat, |j: int| ' '));
        }
    }
    r
}

/// Appends the opening segments of a listing line.
pub(crate) fn write_line_head(acc: &mut Vec<Segment>, status: (char, Style), selection: (char, Style), name: &str, width: usize)
    ensures
        seg_views(final(acc)@) == seg_views(old(acc)@) + line_head(status, selection, name@, width as int),
{
    let ghost before = seg_views(acc@);
    push_text(acc, "[", Style::Plain);
    push_char(acc, status.0, status.1);
    push_char(acc, selection.0, selection.1);
    push_text(acc, "] ", Style::Plain);
    let text = padded_chars(name, width);
    let ghost nv = text@;
    let ghost mid = seg_views(acc@);
    acc.push(Segment { text, style: selection.1 });
    proof {
        reveal_strlit("[");
        reveal_strlit("] ");
        assert("["@ =~= seq!['[']);
        assert("] "@ =~= seq![']', ' ']);
        assert(seg_views(acc@) =~= mid.push((nv, selection.1)));
        assert(seg_views(acc@) =~= before + line_head(status, selection, name@, width as int));
    }
}

/// Appends the closing segments of a listing line.
pub(crate) fn write_line_tail(acc: &mut Vec<Segment>, old_segs: Vec<Segment>, new_segs: Vec<Segment>)
    ensures
        seg_views(final(acc)@) == seg_views(old(acc)@) + line_tail(seg_views(old_segs@), seg_views(new_segs@)),
{
    let ghost before = seg_views(acc@);
    let ghost o = seg_views(old_segs@);
    let ghost n = seg_views(new_segs@);
    let both = old_segs.len() > 0 && new_segs.len() > 0;
    push_segments(acc, old_segs);
    if both {
        push_text(acc, " -> ", Style::Plain);
    }
    push_segments(acc, new_segs);
    push_text(acc, "\n", Style::Plain);
    proof {
        reveal_strlit(" -> ");
        reveal_strlit("\n");
        assert(" -> "@ =~= seq![' ', '-', '>', ' ']);
        assert("\n"@ =~= seq!['\n']);
        assert(seg_views(acc@) =~= before + line_tail(o, n));
    }
}

/// Appends the line of one package change.
fn write_diff_line(acc: &mut Vec<Segment>, d: &PackageDiff, width: usize)
    ensures
        seg_views(final(acc)@) == seg_views(old(acc)@) + diff_line(d@, width as int),
{
    let ghost before = seg_views(acc@);
    let status = status_char(d.status);
    let selection = selection_char(d.selection);
    write_line_head(acc, status, selection, d.name.as_str(), width);
    let (old_segs, new_segs) = fmt_version_diffs(&d.versions, d.has_omitted_versions);
    write_line_tail(acc, old_segs, new_segs);
    proof {
        assert(seg_views(acc@) =~= before + diff_line(d@, width as int));
    }
}

/// Whether every name's display width is below `usize::MAX`.
pub open spec fn widths_fit(ds: Seq<PackageDiffView>) -> bool {
    forall|k: int| 0 <= k < ds.len() ==> display_width(#[trigger] ds[k].name) < usize::MAX
}

/// The name column width of a list of changes.
fn name_column_of(diffs: &Vec<PackageDiff>) -> (w: Option<usize>)
    ensures
        w is Some <==> widths_fit(package_diff_views(diffs@)),
        w matches Some(x) ==> x == name_column(package_diff_views(diffs@)),
{
    let ghost ds = package_diff_views(diffs@);
    let mut best: usize = 1;
    let mut k: usize = 0;
    while k < diffs.len()
        invariant
            ds == package_diff_views(diffs@),
            k <= ds.len(),
            widths_fit(ds.take(k as int)),
            best == name_column(ds.take(k as int)),
        decreases ds.len() - k,
    {
        let w = text_width(diffs[k].name.as_str());
        proof {
            assert(ds.take(k + 1).drop_last() =~= ds.take(k as int));
            assert(ds.take(k + 1).last() == diffs@[k as int]@);
        }
        if w == usize::MAX {
            proof {
                assert(ds[k as int] == diffs@[k as int]@);
                assert(display_width(ds[k as int].name) == usize::MAX);
                assert(!widths_fit(ds));
            }
            return None;
        }
        if w + 1 > best {
            best = w + 1;
        }
        proof {
            assert forall|j: int| 0 <= j < k + 1 implies display_width(#[trigger] ds.take(k + 1)[j].name) < usize::MAX by {
                if j < k {
                    assert(ds.take(k + 1)[j] == ds.take(k as int)[j]);
                }
            }
        }
        k = k + 1;
    }
    proof {
        assert(ds.take(k as int) =~= ds);
    }
    Some(best)
}

/// The lines of the changes `diffs[order[..]]`.
fn render_diffs(diffs: &Vec<PackageDiff>, order: &Vec<usize>, width: usize) -> (r: Vec<Segment>)
    requires
        forall|k: int| 0 <= k < order@.len() ==> (#[trigger] order@[k]) < diffs@.len(),
    ensures
        seg_views(r@) == render_listing(
            order@.map_values(|i: usize| package_diff_views(diffs@)[i as int]),
            width as int,
        ),
{
    let ghost ds = package_diff_views(diffs@);
    let ghost ls = order@.map_values(|i: usize| ds[i as int]);
    let mut out: Vec<Segment> = Vec::new();
    let mut last: Option<StatusGroup> = None;
    let mut k: usize = 0;
    proof {
        assert(seg_views(out@) =~= render_listing(ls.take(0), width as int));
    }
    while k < order.len()
        invariant
            ds == package_diff_views(diffs@),
            ls == order@.map_values(|i: usize| ds[i as int]),
            forall|t: int| 0 <= t < order@.len() ==> (#[trigger] order@[t]) < diffs@.len(),
            k <= order@.len(),
            seg_views(out@) == render_listing(ls.take(k as int), width as int),
            k == 0 <==> last is None,
            k > 0 ==> last == Some(group_of(ls[k - 1].status)),
        decreases order@.len() - k,
    {
        let d = &diffs[order[k]];
        let group = status_group(d.status);
        let ghost before = seg_views(out@);
        proof {
            assert(ls[k as int] == d@);
            let t = ls.take(k + 1);
            assert(t.drop_last() =~= ls.take(k as int));
            assert(t.last() == d@);
            if k > 0 {
                assert(t[t.len() - 2] == ls[k - 1]);
            }
        }
        let new_section = match last {
            None => true,
            Some(g) => g != group,
        };
        if new_section {
            if last.is_some() {
                push_text(&mut out, "\n", Style::Plain);
            }
            let header = match group {
                StatusGroup::Changed => "CHANGED",
                StatusGroup::Added => "ADDED",
                StatusGroup::Removed => "REMOVED",
            };
            push_text(&mut out, header, Style::Bold);
            push_text(&mut out, "\n", Style::Plain);
            proof {
                reveal_strlit("\n");
                reveal_strlit("CHANGED");
                reveal_strlit("ADDED");
                reveal_strlit("REMOVED");
                assert("\n"@ =~= seq!['\n']);
                assert(header@ =~= header_text(group));
            }
            last = Some(group);
        }
        let ghost mid = seg_views(out@);
        write_diff_line(&mut out, d, width);
        proof {
            let t = ls.take(k + 1);
            let first = t.len() == 1;
            let heading = if new_section {
                (if first { Seq::empty() } else { seq![(seq!['\n'], Style::Plain)] })
                    + seq![(header_text(group_of(d@.status)), Style::Bold), (seq!['\n'], Style::Plain)]
            } else {
                Seq::empty()
            };
            assert(mid =~= before + heading);
            assert(seg_views(out@) =~= render_listing(t, width as int));
        }
        k = k + 1;
    }
    proof {
        assert(ls.take(k as int) =~= ls);
    }
    out
}

/// The lines of a list of package changes, listed by section, status and
/// name; `None` where a name's display width is `usize::MAX`.
pub fn render_package_diffs(diffs: &Vec<PackageDiff>) -> (r: Option<Vec<Segment>>)
    ensures
        r is Some <==> widths_fit(package_diff_views(diffs@)),
        r matches Some(segs) ==> seg_views(segs@) == render_listing(
            listed(package_diff_views(diffs@)),
            name_column(package_diff_views(diffs@)),
        ),
{
    let width = name_column_of(diffs)?;
    let order = listing_order_of(diffs);
    let segs = render_diffs(diffs, &order, width);
    proof {
        let ds = package_diff_views(diffs@);
        assert(order@.map_values(|i: usize| ds[i as int]) =~= listed(ds));
    }
    Some(segs)
}

/// The size lines of a report: old and new total size, and their
/// difference, green where it grew and red otherwise.
pub open spec fn size_segs(old: int, new: int) -> Seq<(Seq<char>, Style)> {
    seq![
        (seq!['S', 'I', 'Z', 'E'], Style::Bold),
        (seq![':', ' '], Style::Plain),
        (size_display(old), Style::Red),
        (seq![' ', '-', '>', ' '], Style::Plain),
        (size_display(new), Style::Green),
        (seq!['\n'], Style::Plain),
        (seq!['D', 'I', 'F', 'F'], Style::Bold),
        (seq![':', ' '], Style::Plain),
        (size_display(new - old), if new - old > 0 { Style::Green } else { Style::Red }),
        (seq!['\n'], Style::Plain),
    ]
}

/// Appends the size lines of a report.
pub fn write_size_diff(acc: &mut Vec<Segment>, size_old: i64, size_new: i64)
    requires
        i64::MIN <= size_new - size_old <= i64::MAX,
    ensures
        seg_views(final(acc)@) == seg_views(old(acc)@) + size_segs(size_old as int, size_new as int),
        ({
            let out = seg_views(final(acc)@);
            let k = seg_views(old(acc)@).len() as int;
            &&& out[k + 2].0.len() > 0 && (out[k + 2].0[0] == '-' <==> size_old < 0)
            &&& out[k + 4].0.len() > 0 && (out[k + 4].0[0] == '-' <==> size_new < 0)
            &&& out[k + 8].0.len() > 0 && (out[k + 8].0[0] == '-' <==> size_new < size_old)
            &&& (out[k + 8].1 == Style::Green <==> size_new > size_old)
        }),
{
    let ghost before = seg_views(acc@);
    let diff = size_new - size_old;
    push_text(acc, "SIZE", Style::Bold);
    push_text(acc, ": ", Style::Plain);
    let ghost a = seg_views(acc@);
    acc.push(Segment { text: size_text(size_old), style: Style::Red });
    let ghost b = seg_views(acc@);
    push_text(acc, " -> ", Style::Plain);
    let ghost c = seg_views(acc@);
    acc.push(Segment { text: size_text(size_new), style: Style::Green });
    let ghost d = seg_views(acc@);
    push_text(acc, "\n", Style::Plain);
    push_text(acc, "DIFF", Style::Bold);
    push_text(acc, ": ", Style::Plain);
    let ghost e = seg_views(acc@);
    let style = if diff > 0 { Style::Green } else { Style::Red };
    acc.push(Segment { text: size_text(diff), style });
    let ghost f = seg_views(acc@);
    push_text(acc, "\n", Style::Plain);
    proof {
        reveal_strlit("SIZE");
        reveal_strlit(": ");
        reveal_strlit(" -> ");
        reveal_strlit("\n");
        reveal_strlit("DIFF");
        assert("SIZE"@ =~= seq!['S', 'I', 'Z', 'E']);
        assert(": "@ =~= seq![':', ' ']);
        assert(" -> "@ =~= seq![' ', '-', '>', ' ']);
        assert("\n"@ =~= seq!['\n']);
        assert("DIFF"@ =~= seq!['D', 'I', 'F', 'F']);
        assert(b =~= a.push((size_display(size_old as int), Style::Red)));
        assert(d =~= c.push((size_display(size_new as int), Style::Green)));
        assert(f =~= e.push((size_display(diff as int), style)));
        assert(seg_views(acc@) =~= before + size_segs(size_old as int, size_new as int));
    }
}

/// The segments of a whole report: an empty line, the package changes (and
/// an empty line after them where there are any) and the size lines,
/// with the number of changes written; `None` where a name's display width
/// is `usize::MAX`.
pub fn write_diff_report(report: &DiffReport) -> (r: Option<(usize, Vec<Segment>)>)
    requires
        i64::MIN <= report.sizes().1 - report.sizes().0 <= i64::MAX,
    ensures
        r is Some <==> widths_fit(report.diff_views()),
        r matches Some((n, segs)) ==> {
            let body = render_listing(listed(report.diff_views()), name_column(report.diff_views()));
            &&& n == report.diff_views().len()
            &&& seg_views(segs@) == seq![(seq!['\n'], Style::Plain)] + body
                + (if n > 0 { seq![(seq!['\n'], Style::Plain)] } else { Seq::empty() })
                + size_segs(report.sizes().0, report.sizes().1)
        },
{
    let diffs = report.diffs();
    let body = render_package_diffs(diffs)?;
    let mut out: Vec<Segment> = Vec::new();
    push_text(&mut out, "\n", Style::Plain);
    let ghost a = seg_views(out@);
    push_segments(&mut out, body);
    let wrote = diffs.len();
    if wrote > 0 {
        push_text(&mut out, "\n", Style::Plain);
    }
    let ghost b = seg_views(out@);
    write_size_diff(&mut out, report.size_old(), report.size_new());
    proof {
        reveal_strlit("\n");
        assert("\n"@ =~= seq!['\n']);
        assert(a =~= seq![(seq!['\n'], Style::Plain)]);
    }
    Some((wrote, out))
}

/// Every listed line carries its change's status mark second, after the
/// opening bracket: `U` in bright cyan for an upgrade, `D` in magenta for a
/// downgrade, `A` in green for an addition, `R` in red for a removal, and
/// `C` in yellow for any other change; and the marks of different kinds of
/// change differ.
pub proof fn lemma_status_marks(d: PackageDiffView, width: int)
    ensures
        diff_line(d, width)[0] == (seq!['['], Style::Plain),
        d.status == DiffStatus::Upgraded ==> diff_line(d, width)[1] == (seq!['U'], Style::BrightCyanBold),
        d.status == DiffStatus::Downgraded ==> diff_line(d, width)[1] == (seq!['D'], Style::MagentaBold),
        d.status == DiffStatus::Added ==> diff_line(d, width)[1] == (seq!['A'], Style::GreenBold),
        d.status == DiffStatus::Removed ==> diff_line(d, width)[1] == (seq!['R'], Style::RedBold),
        d.status == DiffStatus::Changed || d.status == DiffStatus::Mixed ==> diff_line(d, width)[1] == (
            seq!['C'],
            Style::YellowBold,
        ),
        forall|e: PackageDiffView, w: int|
            #![trigger diff_line(e, w)]
            group_of(d.status) != group_of(e.status) || (d.status == DiffStatus::Upgraded && e.status == DiffStatus::Downgraded)
                ==> diff_line(d, width)[1] != diff_line(e, w)[1],
{
    assert forall|e: PackageDiffView, w: int|
        #![trigger diff_line(e, w)]
        group_of(d.status) != group_of(e.status) || (d.status == DiffStatus::Upgraded && e.status == DiffStatus::Downgraded)
            implies diff_line(d, width)[1] != diff_line(e, w)[1] by {
        assert(diff_line(e, w)[1].0 == seq![status_mark(e.status).0]);
        assert(diff_line(d, width)[1].0 == seq![status_mark(d.status).0]);
        assert(seq![status_mark(e.status).0][0] == status_mark(e.status).0);
        assert(seq![status_mark(d.status).0][0] == status_mark(d.status).0);
    }
}

/// A change that is listed after `x` is still listed after `x` when it is
/// followed by a change that is not listed before it.
proof fn lemma_listed_after_chain(x: PackageDiffView, y: PackageDiffView, z: PackageDiffView)
    requires
        listed_after(y, x),
        !listed_after(y, z),
    ensures
        listed_after(z, x),
{
    let gx = group_rank(group_of(x.status));
    let gy = group_rank(group_of(y.status));
    let gz = group_rank(group_of(z.status));
    if gx == gy && gy == gz && status_rank(x.status) == status_rank(y.status) && status_rank(y.status) == status_rank(z.status) {
        crate::text::lemma_str_order_antisymmetric(y.name, x.name);
        crate::text::lemma_str_order_antisymmetric(z.name, x.name);
        crate::text::lemma_str_order_zero_iff_equal(y.name, z.name);
        if str_order(y.name, z.name) < 0 {
            crate::text::lemma_str_order_transitive(x.name, y.name, z.name);
        }
    }
}

/// Whether the listing order lists no change before one that it is listed
/// after.
pub open spec fn order_listed_sorted(ds: Seq<PackageDiffView>, order: Seq<int>) -> bool {
    forall|i: int, j: int| 0 <= i < j < order.len() ==> !listed_after(ds[#[trigger] order[i]], ds[#[trigger] order[j]])
}

proof fn lemma_listing_order_sorted(ds: Seq<PackageDiffView>, n: int)
    ensures
        order_listed_sorted(ds, listing_order(ds, n)),
        listing_order(ds, n).len() == if n <= 0 { 0 } else { n },
    decreases n,
{
    if n > 0 {
        lemma_listing_order_sorted(ds, n - 1);
        let prev = listing_order(ds, n - 1);
        let x = n - 1;
        let m = prev.len() as int;
        let pos = scan_from(listed_after_at(ds, prev, x), 0, m);
        lemma_scan_from(listed_after_at(ds, prev, x), 0, m);
        let r = prev.insert(pos, x);
        assert(listing_order(ds, n) == r);
        assert forall|j: int| pos <= j < m implies listed_after(ds[#[trigger] prev[j]], ds[x]) by {
            assert(listed_after_at(ds, prev, x)(pos));
            if j > pos {
                assert(!listed_after(ds[prev[pos]], ds[prev[j]]));
                lemma_listed_after_chain(ds[x], ds[prev[pos]], ds[prev[j]]);
            }
        }
        assert forall|i: int, j: int| 0 <= i < j < r.len() implies !listed_after(ds[#[trigger] r[i]], ds[#[trigger] r[j]]) by {
            if j < pos {
                assert(r[i] == prev[i] && r[j] == prev[j]);
            } else if j == pos {
                assert(r[i] == prev[i]);
                assert(!listed_after_at(ds, prev, x)(i));
            } else if i == pos {
                assert(r[j] == prev[j - 1]);
                assert(listed_after(ds[prev[j - 1]], ds[x]));
                crate::text::lemma_str_order_antisymmetric(ds[prev[j - 1]].name, ds[x].name);
            } else if i < pos {
                assert(r[i] == prev[i] && r[j] == prev[j - 1]);
            } else {
                assert(r[i] == prev[i - 1] && r[j] == prev[j - 1]);
            }
        }
    }
}

/// The listing shows every section (changed, then added, then removed) in
/// turn, and within a section the changes of one status together, in
/// ascending name order.
pub proof fn lemma_listing_name_order(ds: Seq<PackageDiffView>)
    ensures
        listed(ds).len() == ds.len(),
        forall|i: int, j: int|
            0 <= i < j < listed(ds).len() ==> {
                let a = #[trigger] listed(ds)[i];
                let b = #[trigger] listed(ds)[j];
                &&& group_rank(group_of(a.status)) <= group_rank(group_of(b.status))
                &&& a.status == b.status ==> str_order(a.name, b.name) <= 0
            },
{
    lemma_listing_order_sorted(ds, ds.len() as int);
    let order = listing_order(ds, ds.len() as int);
    assert forall|i: int, j: int|
        0 <= i < j < listed(ds).len() implies {
            let a = #[trigger] listed(ds)[i];
            let b = #[trigger] listed(ds)[j];
            &&& group_rank(group_of(a.status)) <= group_rank(group_of(b.status))
            &&& a.status == b.status ==> str_order(a.name, b.name) <= 0
        } by {
        assert(listed(ds)[i] == ds[order[i]]);
        assert(listed(ds)[j] == ds[order[j]]);
        assert(!listed_after(ds[order[i]], ds[order[j]]));
    }
}

} // verus!
