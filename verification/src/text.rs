//! Character-level helpers shared by the version and store-path logic:
//! lexicographic order of strings, ASCII classes and decimal values.
use vstd::prelude::*;

verus! {

/// Lexicographic order of two character sequences by code point: -1, 0 or 1.
///
/// UTF-8 preserves code-point order, so this is also the byte order that
/// `str::cmp` uses.
pub open spec fn str_order(a: Seq<char>, b: Seq<char>) -> int
    decreases a.len(),
{
    if a.len() == 0 {
        if b.len() == 0 {
            0
        } else {
            -1
        }
    } else if b.len() == 0 {
        1
    } else if a[0] < b[0] {
        -1
    } else if a[0] > b[0] {
        1
    } else {
        str_order(a.drop_first(), b.drop_first())
    }
}

pub proof fn lemma_str_order_zero_iff_equal(a: Seq<char>, b: Seq<char>)
    ensures
        (str_order(a, b) == 0) <==> (a == b),
        -1 <= str_order(a, b) <= 1,
    decreases a.len(),
{
    if a.len() > 0 && b.len() > 0 && a[0] == b[0] {
        lemma_str_order_zero_iff_equal(a.drop_first(), b.drop_first());
        assert(a[0] == b[0]);
        if a.drop_first() == b.drop_first() {
            assert(a =~= seq![a[0]] + a.drop_first());
            assert(b =~= seq![b[0]] + b.drop_first());
        }
        if a == b {
            assert(a.drop_first() =~= b.drop_first());
        }
    } else if a.len() > 0 && b.len() > 0 {
        if a == b {
            assert(a[0] == b[0]);
        }
    } else if a.len() == 0 && b.len() == 0 {
        assert(a =~= b);
    }
}

pub proof fn lemma_str_order_antisymmetric(a: Seq<char>, b: Seq<char>)
    ensures
        str_order(a, b) == -str_order(b, a),
    decreases a.len(),
{
    if a.len() > 0 && b.len() > 0 && a[0] == b[0] {
        lemma_str_order_antisymmetric(a.drop_first(), b.drop_first());
    }
}

pub proof fn lemma_str_order_transitive(a: Seq<char>, b: Seq<char>, c: Seq<char>)
    requires
        str_order(a, b) < 0,
        str_order(b, c) < 0,
    ensures
        str_order(a, c) < 0,
    decreases a.len(),
{
    if a.len() > 0 && b.len() > 0 && c.len() > 0 {
        if a[0] == b[0] && b[0] == c[0] {
            lemma_str_order_transitive(a.drop_first(), b.drop_first(), c.drop_first());
        }
    }
}

/// Copies the characters of a string into a vector.
pub fn chars_of(s: &str) -> (v: Vec<char>)
    ensures
        v@ == s@,
{
    let n = s.unicode_len();
    let mut v: Vec<char> = Vec::new();
    let mut i: usize = 0;
    while i < n
        invariant
            n == s@.len(),
            i <= n,
            v@ == s@.take(i as int),
        decreases n - i,
    {
        let c = s.get_char(i);
        v.push(c);
        i = i + 1;
        assert(v@ =~= s@.take(i as int));
    }
    assert(v@ =~= s@);
    v
}

/// Lexicographic order of `a[sa..ea]` and `b[sb..eb]`.
pub fn range_order(a: &Vec<char>, sa: usize, ea: usize, b: &Vec<char>, sb: usize, eb: usize) -> (r: i8)
    requires
        sa <= ea <= a.len(),
        sb <= eb <= b.len(),
    ensures
        r == str_order(a@.subrange(sa as int, ea as int), b@.subrange(sb as int, eb as int)),
        -1 <= r <= 1,
{
    let mut i = sa;
    let mut j = sb;
    while i < ea && j < eb
        invariant
            sa <= i <= ea <= a.len(),
            sb <= j <= eb <= b.len(),
            i - sa == j - sb,
            str_order(a@.subrange(sa as int, ea as int), b@.subrange(sb as int, eb as int))
                == str_order(a@.subrange(i as int, ea as int), b@.subrange(j as int, eb as int)),
        decreases ea - i,
    {
        let x = a[i];
        let y = b[j];
        proof {
            let sx = a@.subrange(i as int, ea as int);
            let sy = b@.subrange(j as int, eb as int);
            assert(sx.drop_first() =~= a@.subrange(i + 1, ea as int));
            assert(sy.drop_first() =~= b@.subrange(j + 1, eb as int));
        }
        if x < y {
            return -1;
        }
        if x > y {
            return 1;
        }
        i = i + 1;
        j = j + 1;
    }
    if i < ea {
        1
    } else if j < eb {
        -1
    } else {
        0
    }
}

pub open spec fn is_digit(c: char) -> bool {
    '0' <= c && c <= '9'
}

pub open spec fn is_hex_digit(c: char) -> bool {
    ('0' <= c && c <= '9') || ('a' <= c && c <= 'f') || ('A' <= c && c <= 'F')
}

pub open spec fn is_hex_letter(c: char) -> bool {
    ('a' <= c && c <= 'f') || ('A' <= c && c <= 'F')
}

pub open spec fn is_ascii_alphanumeric(c: char) -> bool {
    ('0' <= c && c <= '9') || ('a' <= c && c <= 'z') || ('A' <= c && c <= 'Z')
}

pub open spec fn digit_value(c: char) -> nat {
    ((c as u32) - ('0' as u32)) as nat
}

/// The value of a string of decimal digits (most significant first).
pub open spec fn decimal_value(s: Seq<char>) -> nat
    decreases s.len(),
{
    if s.len() == 0 {
        0
    } else {
        decimal_value(s.drop_last()) * 10 + digit_value(s.last())
    }
}

pub open spec fn all_digits(s: Seq<char>) -> bool {
    forall|i: int| 0 <= i < s.len() ==> is_digit(#[trigger] s[i])
}

pub proof fn lemma_decimal_value_prefix(s: Seq<char>, k: int)
    requires
        0 <= k <= s.len(),
        all_digits(s),
    ensures
        decimal_value(s.take(k)) <= decimal_value(s),
    decreases s.len(),
{
    if k < s.len() {
        lemma_decimal_value_prefix(s.drop_last(), k);
        assert(s.drop_last().take(k) =~= s.take(k));
    } else {
        assert(s.take(k) =~= s);
    }
}

/// Parses `s[start..end]` as an unsigned decimal number that fits in `u64`.
pub fn parse_u64_range(s: &Vec<char>, start: usize, end: usize) -> (r: Option<u64>)
    requires
        start <= end <= s.len(),
        all_digits(s@.subrange(start as int, end as int)),
    ensures
        match r {
            Some(v) => v == decimal_value(s@.subrange(start as int, end as int)),
            None => decimal_value(s@.subrange(start as int, end as int)) > u64::MAX,
        },
{
    let ghost full = s@.subrange(start as int, end as int);
    let mut value: u64 = 0;
    let mut i = start;
    while i < end
        invariant
            start <= i <= end <= s.len(),
            full == s@.subrange(start as int, end as int),
            all_digits(full),
            value == decimal_value(full.take(i - start)),
        decreases end - i,
    {
        let c = s[i];
        proof {
            assert(full[i - start] == c);
            assert(is_digit(full[i - start]));
            let t = full.take(i - start + 1);
            assert(t.drop_last() =~= full.take(i - start));
            assert(t.last() == c);
        }
        let d = (c as u32 - '0' as u32) as u64;
        match value.checked_mul(10) {
            Some(m) => match m.checked_add(d) {
                Some(n) => {
                    value = n;
                },
                None => {
                    proof {
                        lemma_decimal_value_prefix(full, i - start + 1);
                    }
                    return None;
                },
            },
            None => {
                proof {
                    lemma_decimal_value_prefix(full, i - start + 1);
                }
                return None;
            },
        }
        i = i + 1;
    }
    assert(full.take(end - start) =~= full);
    Some(value)
}

} // verus!
