//! Splitting command output into lines and whitespace-separated columns,
//! and reading signed decimal numbers, as `str::lines`,
//! `str::split_whitespace` and `i64::from_str` do.
use vstd::prelude::*;
use crate::engine::{scan_from, lemma_scan_from};
use crate::text::{all_digits, decimal_value, is_digit, parse_u64_range};

verus! {

/// Whether `c` has the Unicode `White_Space` property, which
/// `char::is_whitespace` tests.
pub open spec fn is_white_space(c: char) -> bool {
    ||| '\t' <= c && c <= '\r'
    ||| c == ' '
    ||| c == '\u{85}'
    ||| c == '\u{a0}'
    ||| c == '\u{1680}'
    ||| '\u{2000}' <= c && c <= '\u{200a}'
    ||| c == '\u{2028}'
    ||| c == '\u{2029}'
    ||| c == '\u{202f}'
    ||| c == '\u{205f}'
    ||| c == '\u{3000}'
}

/// Whether `c` has the Unicode `White_Space` property.
pub fn white_space(c: char) -> (r: bool)
    ensures
        r == is_white_space(c),
{
    ('\t' <= c && c <= '\r') || c == ' ' || c == '\u{85}' || c == '\u{a0}' || c == '\u{1680}'
        || ('\u{2000}' <= c && c <= '\u{200a}') || c == '\u{2028}' || c == '\u{2029}' || c == '\u{202f}'
        || c == '\u{205f}' || c == '\u{3000}'
}

/// Whether the character at `i` is a line feed.
pub open spec fn newline_at(s: Seq<char>) -> spec_fn(int) -> bool {
    |i: int| s[i] == '\n'
}

/// A line without the carriage return that ends it, if any.
pub open spec fn strip_cr(line: Seq<char>) -> Seq<char> {
    if line.len() > 0 && line.last() == '\r' {
        line.drop_last()
    } else {
        line
    }
}

/// The lines of `s` from index `start` on: each ends at a line feed, or a
/// carriage return and a line feed, which are not part of it; the last may
/// end at the end of the text, and an empty text after the last line feed
/// is no line.
pub open spec fn lines_from(s: Seq<char>, start: int) -> Seq<Seq<char>>
    decreases s.len() - start,
{
    if start < 0 || start >= s.len() {
        Seq::empty()
    } else {
        let k = scan_from(newline_at(s), start, s.len() as int);
        proof {
            lemma_scan_from(newline_at(s), start, s.len() as int);
        }
        if k >= s.len() {
            seq![s.subrange(start, k)]
        } else {
            seq![strip_cr(s.subrange(start, k))] + lines_from(s, k + 1)
        }
    }
}

/// The lines of a text.
pub open spec fn text_lines(s: Seq<char>) -> Seq<Seq<char>> {
    lines_from(s, 0)
}

/// The pieces of `s` that a list of ranges picks out.
pub open spec fn range_views(s: Seq<char>, r: Seq<(usize, usize)>) -> Seq<Seq<char>> {
    r.map_values(|p: (usize, usize)| s.subrange(p.0 as int, p.1 as int))
}

/// Whether every range lies within `s`.
pub open spec fn ranges_within(s: Seq<char>, r: Seq<(usize, usize)>) -> bool {
    forall|k: int| 0 <= k < r.len() ==> (#[trigger] r[k]).0 <= r[k].1 <= s.len()
}

/// The ranges of the lines of a text.
pub fn split_lines(s: &Vec<char>) -> (r: Vec<(usize, usize)>)
    ensures
        ranges_within(s@, r@),
        range_views(s@, r@) == text_lines(s@),
{
    let n = s.len();
    let mut r: Vec<(usize, usize)> = Vec::new();
    let mut start: usize = 0;
    proof {
        assert(range_views(s@, r@) + lines_from(s@, 0) =~= text_lines(s@));
    }
    while start < n
        invariant
            n == s@.len(),
            start <= n,
            ranges_within(s@, r@),
            range_views(s@, r@) + lines_from(s@, start as int) == text_lines(s@),
        decreases n - start,
    {
        let mut k = start;
        proof {
            lemma_scan_from(newline_at(s@), start as int, n as int);
        }
        while k < n && s[k] != '\n'
            invariant
                start <= k <= n,
                n == s@.len(),
                scan_from(newline_at(s@), start as int, n as int) == scan_from(newline_at(s@), k as int, n as int),
            decreases n - k,
        {
            k = k + 1;
        }
        let ghost before = range_views(s@, r@);
        if k >= n {
            r.push((start, k));
            proof {
                assert(range_views(s@, r@) =~= before.push(s@.subrange(start as int, k as int)));
                assert(lines_from(s@, n as int) =~= Seq::<Seq<char>>::empty());
                assert(range_views(s@, r@) + lines_from(s@, n as int) =~= before + lines_from(s@, start as int));
            }
            start = n;
        } else {
            let end = if k > start && s[k - 1] == '\r' { k - 1 } else { k };
            r.push((start, end));
            proof {
                assert(s@.subrange(start as int, end as int) == strip_cr(s@.subrange(start as int, k as int))) by {
                    if k > start && s@[k - 1] == '\r' {
                        assert(s@.subrange(start as int, k as int).drop_last() =~= s@.subrange(start as int, end as int));
                    }
                }
                assert(range_views(s@, r@) =~= before.push(strip_cr(s@.subrange(start as int, k as int))));
                assert(range_views(s@, r@) + lines_from(s@, k + 1) =~= before + lines_from(s@, start as int));
            }
            start = k + 1;
        }
    }
    proof {
        assert(lines_from(s@, start as int) =~= Seq::<Seq<char>>::empty());
        assert(range_views(s@, r@) + lines_from(s@, start as int) =~= range_views(s@, r@));
    }
    r
}

/// Whether the character at `i` is no whitespace.
pub open spec fn word_char_at(s: Seq<char>) -> spec_fn(int) -> bool {
    |i: int| !is_white_space(s[i])
}

/// Whether the character at `i` is whitespace.
pub open spec fn white_at(s: Seq<char>) -> spec_fn(int) -> bool {
    |i: int| is_white_space(s[i])
}

/// The whitespace-separated words of `s` from index `start` on.
pub open spec fn words_from(s: Seq<char>, start: int) -> Seq<Seq<char>>
    decreases s.len() - start,
{
    if start < 0 || start >= s.len() {
        Seq::empty()
    } else {
        let a = scan_from(word_char_at(s), start, s.len() as int);
        proof {
            lemma_scan_from(word_char_at(s), start, s.len() as int);
        }
        if a >= s.len() {
            Seq::empty()
        } else {
            let b = scan_from(white_at(s), a, s.len() as int);
            proof {
                lemma_scan_from(white_at(s), a, s.len() as int);
            }
            seq![s.subrange(a, b)] + words_from(s, b)
        }
    }
}

/// The whitespace-separated words of a text.
pub open spec fn text_words(s: Seq<char>) -> Seq<Seq<char>> {
    words_from(s, 0)
}

/// The ranges of the whitespace-separated words of a text.
pub fn split_words(s: &Vec<char>) -> (r: Vec<(usize, usize)>)
    ensures
        ranges_within(s@, r@),
        range_views(s@, r@) == text_words(s@),
{
    let n = s.len();
    let mut r: Vec<(usize, usize)> = Vec::new();
    let mut start: usize = 0;
    proof {
        assert(range_views(s@, r@) + words_from(s@, 0) =~= text_words(s@));
    }
    while start < n
        invariant
            n == s@.len(),
            start <= n,
            ranges_within(s@, r@),
            range_views(s@, r@) + words_from(s@, start as int) == text_words(s@),
        decreases n - start,
    {
        let mut a = start;
        proof {
            lemma_scan_from(word_char_at(s@), start as int, n as int);
        }
        while a < n && white_space(s[a])
            invariant
                start <= a <= n,
                n == s@.len(),
                scan_from(word_char_at(s@), start as int, n as int) == scan_from(word_char_at(s@), a as int, n as int),
            decreases n - a,
        {
            a = a + 1;
        }
        if a >= n {
            proof {
                assert(words_from(s@, start as int) =~= Seq::<Seq<char>>::empty());
                assert(words_from(s@, n as int) =~= Seq::<Seq<char>>::empty());
            }
            start = n;
        } else {
            let mut b = a;
            proof {
                lemma_scan_from(white_at(s@), a as int, n as int);
            }
            while b < n && !white_space(s[b])
                invariant
                    a <= b <= n,
                    n == s@.len(),
                    scan_from(white_at(s@), a as int, n as int) == scan_from(white_at(s@), b as int, n as int),
                decreases n - b,
            {
                b = b + 1;
            }
            let ghost before = range_views(s@, r@);
            r.push((a, b));
            proof {
                assert(range_views(s@, r@) =~= before.push(s@.subrange(a as int, b as int)));
                assert(range_views(s@, r@) + words_from(s@, b as int) =~= before + words_from(s@, start as int));
            }
            start = b;
        }
    }
    proof {
        assert(words_from(s@, start as int) =~= Seq::<Seq<char>>::empty());
        assert(range_views(s@, r@) + words_from(s@, start as int) =~= range_views(s@, r@));
    }
    r
}

/// The value of a text read as `i64::from_str` reads it: an optional `+`
/// or `-`, then one or more decimal digits; `None` where the text has
/// another form or the value lies outside `i64`.
pub open spec fn parsed_i64(s: Seq<char>) -> Option<i64> {
    let signed = s.len() > 0 && (s[0] == '-' || s[0] == '+');
    let digits = if signed { s.drop_first() } else { s };
    let value: int = if signed && s[0] == '-' { -decimal_value(digits) } else { decimal_value(digits) as int };
    if digits.len() == 0 || !all_digits(digits) || value < i64::MIN || value > i64::MAX {
        None
    } else {
        Some(value as i64)
    }
}

/// Reads a text as `i64::from_str` reads it.
pub fn parse_i64(s: &Vec<char>) -> (r: Option<i64>)
    ensures
        r == parsed_i64(s@),
{
    let n = s.len();
    let signed = n > 0 && (s[0] == '-' || s[0] == '+');
    let negative = n > 0 && s[0] == '-';
    let start: usize = if signed { 1 } else { 0 };
    let ghost digits = if signed { s@.drop_first() } else { s@ };
    proof {
        assert(s@.subrange(start as int, n as int) =~= digits);
    }
    if start == n {
        return None;
    }
    let mut i = start;
    while i < n
        invariant
            start <= i <= n,
            n == s@.len(),
            digits == s@.subrange(start as int, n as int),
            digits == (if s@.len() > 0 && (s@[0] == '-' || s@[0] == '+') { s@.drop_first() } else { s@ }),
            forall|j: int| 0 <= j < i - start ==> is_digit(#[trigger] digits[j]),
        decreases n - i,
    {
        let c = s[i];
        if !('0' <= c && c <= '9') {
            proof {
                assert(digits[i - start] == c);
                assert(!all_digits(digits));
                assert(parsed_i64(s@) == None::<i64>);
            }
            return None;
        }
        i = i + 1;
    }
    assert(all_digits(digits));
    match parse_u64_range(s, start, n) {
        None => None,
        Some(v) => {
            if negative {
                if v <= 9223372036854775807 {
                    Some(0 - (v as i64))
                } else if v == 9223372036854775808 {
                    Some(i64::MIN)
                } else {
                    None
                }
            } else {
                if v <= 9223372036854775807 {
                    Some(v as i64)
                } else {
                    None
                }
            }
        },
    }
}

} // verus!
