//! Decisions of the command line front end: whether to style the output,
//! and the lines that name the two compared paths.
use vstd::prelude::*;
use crate::render::{Segment, Style, push_text, seg_views};

verus! {

/// Whether to style output, from the `NO_COLOR`, `CLICOLOR` and
/// `CLICOLOR_FORCE` settings and whether the output is a terminal: a
/// non-empty `NO_COLOR` turns styling off, as does a `CLICOLOR` of `0`; a
/// `CLICOLOR_FORCE` other than `0` turns it on; otherwise a terminal is
/// styled.
pub open spec fn style_decision(
    no_color: Option<Seq<char>>,
    clicolor: Option<Seq<char>>,
    clicolor_force: Option<Seq<char>>,
    is_terminal: bool,
) -> bool {
    if no_color matches Some(v) && v.len() > 0 {
        false
    } else if clicolor == Some(seq!['0']) {
        false
    } else if clicolor_force matches Some(v) && v != seq!['0'] {
        true
    } else {
        is_terminal
    }
}

/// The view of an optional text.
pub open spec fn opt_text(v: Option<&str>) -> Option<Seq<char>> {
    match v {
        Some(s) => Some(s@),
        None => None,
    }
}

fn is_zero(s: &str) -> (r: bool)
    ensures
        r == (s@ == seq!['0']),
{
    let n = s.unicode_len();
    if n != 1 {
        proof {
            assert(s@.len() != 1);
            assert(s@ != seq!['0']);
        }
        return false;
    }
    let c = s.get_char(0);
    proof {
        if c == '0' {
            assert(s@ =~= seq!['0']);
        } else {
            assert(s@[0] != seq!['0'][0]);
        }
    }
    c == '0'
}

/// Whether to style output.
pub fn should_style(no_color: Option<&str>, clicolor: Option<&str>, clicolor_force: Option<&str>, is_terminal: bool) -> (r: bool)
    ensures
        r == style_decision(opt_text(no_color), opt_text(clicolor), opt_text(clicolor_force), is_terminal),
{
    if let Some(value) = no_color {
        if value.unicode_len() > 0 {
            return false;
        }
    }
    if let Some(value) = clicolor {
        if is_zero(value) {
            return false;
        }
    }
    if let Some(value) = clicolor_force {
        if !is_zero(value) {
            return true;
        }
    }
    is_terminal
}

/// The lines that name the old and the new path.
pub open spec fn header_segs(old: Seq<char>, new: Seq<char>) -> Seq<(Seq<char>, Style)> {
    seq![
        (seq!['<', '<', '<'], Style::Bold),
        (seq![' '] + old + seq!['\n'], Style::Plain),
        (seq!['>', '>', '>'], Style::Bold),
        (seq![' '] + new + seq!['\n'], Style::Plain),
    ]
}

fn line_text(s: &str) -> (r: String)
    ensures
        r@ == seq![' '] + s@ + seq!['\n'],
{
    let mut t = String::from_str(" ");
    t.append(s);
    t.append("\n");
    proof {
        reveal_strlit(" ");
        reveal_strlit("\n");
        assert(" "@ =~= seq![' ']);
        assert("\n"@ =~= seq!['\n']);
    }
    t
}

/// The lines that name the old and the new path.
pub fn display_header(old: &str, new: &str) -> (r: Vec<Segment>)
    ensures
        seg_views(r@) == header_segs(old@, new@),
{
    let mut out: Vec<Segment> = Vec::new();
    push_text(&mut out, "<<<", Style::Bold);
    let old_line = line_text(old);
    push_text(&mut out, old_line.as_str(), Style::Plain);
    push_text(&mut out, ">>>", Style::Bold);
    let new_line = line_text(new);
    push_text(&mut out, new_line.as_str(), Style::Plain);
    proof {
        reveal_strlit("<<<");
        reveal_strlit(">>>");
        assert("<<<"@ =~= seq!['<', '<', '<']);
        assert(">>>"@ =~= seq!['>', '>', '>']);
        assert(seg_views(out@) =~= header_segs(old@, new@));
    }
    out
}

} // verus!
