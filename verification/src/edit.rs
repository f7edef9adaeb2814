//! Edit (Levenshtein) distance between sequences, and the facts about it
//! that the distance computations rely on.
use vstd::prelude::*;
use vstd::laws_eq::obeys_view_eq;

verus! {

pub open spec fn min2(a: int, b: int) -> int {
    if a <= b {
        a
    } else {
        b
    }
}

/// The least number of insertions, deletions and substitutions that turn
/// `a` into `b`.
pub open spec fn edit_distance<V>(a: Seq<V>, b: Seq<V>) -> int
    decreases a.len() + b.len(),
{
    if a.len() == 0 {
        b.len() as int
    } else if b.len() == 0 {
        a.len() as int
    } else {
        min2(
            min2(edit_distance(a.drop_last(), b) + 1, edit_distance(a, b.drop_last()) + 1),
            edit_distance(a.drop_last(), b.drop_last()) + (if a.last() == b.last() {
                0int
            } else {
                1int
            }),
        )
    }
}

/// The views of a sequence's elements.
pub open spec fn views<T: View>(s: Seq<T>) -> Seq<T::V> {
    s.map_values(|t: T| t@)
}

pub proof fn lemma_edit_distance_bounds<V>(a: Seq<V>, b: Seq<V>)
    ensures
        0 <= edit_distance(a, b),
        edit_distance(a, b) <= if a.len() >= b.len() {
            a.len() as int
        } else {
            b.len() as int
        },
    decreases a.len() + b.len(),
{
    if a.len() > 0 && b.len() > 0 {
        lemma_edit_distance_bounds(a.drop_last(), b);
        lemma_edit_distance_bounds(a, b.drop_last());
        lemma_edit_distance_bounds(a.drop_last(), b.drop_last());
    }
}

/// Edit distance is symmetric.
pub proof fn lemma_edit_distance_symmetric<V>(a: Seq<V>, b: Seq<V>)
    ensures
        edit_distance(a, b) == edit_distance(b, a),
    decreases a.len() + b.len(),
{
    if a.len() > 0 && b.len() > 0 {
        lemma_edit_distance_symmetric(a.drop_last(), b);
        lemma_edit_distance_symmetric(a, b.drop_last());
        lemma_edit_distance_symmetric(a.drop_last(), b.drop_last());
    }
}

proof fn lemma_delete_bound<V>(a: Seq<V>, x: V, b: Seq<V>)
    ensures
        edit_distance(a.push(x), b) <= edit_distance(a, b) + 1,
{
    if b.len() > 0 {
        assert(a.push(x).drop_last() =~= a);
    }
}

/// Appending an element to the target changes the distance by at most one.
proof fn lemma_append_target_bound<V>(a: Seq<V>, b: Seq<V>, y: V)
    ensures
        edit_distance(a, b) <= edit_distance(a, b.push(y)) + 1,
    decreases a.len(),
{
    let by = b.push(y);
    assert(by.drop_last() =~= b);
    if a.len() > 0 {
        let a2 = a.drop_last();
        let x = a.last();
        assert(a =~= a2.push(x));
        lemma_append_target_bound(a2, b, y);
        lemma_delete_bound(a2, x, b);
        lemma_delete_bound(a2, x, by);
    }
}

proof fn lemma_append_source_bound<V>(a: Seq<V>, b: Seq<V>, x: V)
    ensures
        edit_distance(a, b) <= edit_distance(a.push(x), b) + 1,
{
    lemma_append_target_bound(b, a, x);
    lemma_edit_distance_symmetric(a, b);
    lemma_edit_distance_symmetric(a.push(x), b);
}

/// A shared suffix does not change the distance.
pub proof fn lemma_common_suffix<V>(a: Seq<V>, b: Seq<V>, s: Seq<V>)
    ensures
        edit_distance(a + s, b + s) == edit_distance(a, b),
    decreases s.len(),
{
    if s.len() > 0 {
        let s2 = s.drop_last();
        let c = s.last();
        lemma_common_suffix(a, b, s2);
        let a2 = a + s2;
        let b2 = b + s2;
        assert(a + s =~= a2.push(c));
        assert(b + s =~= b2.push(c));
        assert(a2.push(c).drop_last() =~= a2);
        assert(b2.push(c).drop_last() =~= b2);
        lemma_append_target_bound(a2, b2, c);
        lemma_append_source_bound(a2, b2, c);
    } else {
        assert(a + s =~= a);
        assert(b + s =~= b);
    }
}

proof fn lemma_empty_distance<V>(b: Seq<V>)
    ensures
        edit_distance(Seq::<V>::empty(), b) == b.len(),
{
}

/// A single shared first element before the whole target.
proof fn lemma_single_prefix_whole<V>(c: V, b: Seq<V>)
    ensures
        edit_distance(seq![c], seq![c] + b) == b.len(),
    decreases b.len(),
{
    let cb = seq![c] + b;
    let e = Seq::<V>::empty();
    assert(seq![c].drop_last() =~= e);
    assert(seq![c].last() == c);
    if b.len() == 0 {
        assert(cb =~= seq![c]);
        assert(edit_distance(e, seq![c]) == 1);
        assert(edit_distance(seq![c], e) == 1);
        assert(edit_distance(e, e) == 0);
        assert(edit_distance(seq![c], seq![c]) == 0);
    } else {
        let b2 = b.drop_last();
        lemma_single_prefix_whole(c, b2);
        assert(cb.drop_last() =~= seq![c] + b2);
        lemma_empty_distance(cb.drop_last());
        lemma_empty_distance(cb);
        assert(edit_distance(seq![c], cb) == min2(
            min2(edit_distance(e, cb) + 1, edit_distance(seq![c], cb.drop_last()) + 1),
            edit_distance(e, cb.drop_last()) + (if c == cb.last() { 0int } else { 1int }),
        ));
    }
}

/// A single shared first element does not change the distance.
proof fn lemma_single_common_prefix<V>(c: V, a: Seq<V>, b: Seq<V>)
    ensures
        edit_distance(seq![c] + a, seq![c] + b) == edit_distance(a, b),
    decreases a.len() + b.len(),
{
    let ca = seq![c] + a;
    let cb = seq![c] + b;
    if a.len() == 0 {
        assert(ca =~= seq![c]);
        lemma_single_prefix_whole(c, b);
    } else if b.len() == 0 {
        assert(cb =~= seq![c]);
        lemma_single_prefix_whole(c, a);
        lemma_edit_distance_symmetric(ca, cb);
    } else {
        assert(ca.drop_last() =~= seq![c] + a.drop_last());
        assert(cb.drop_last() =~= seq![c] + b.drop_last());
        lemma_single_common_prefix(c, a.drop_last(), b);
        lemma_single_common_prefix(c, a, b.drop_last());
        lemma_single_common_prefix(c, a.drop_last(), b.drop_last());
    }
}

/// A shared prefix does not change the distance.
pub proof fn lemma_common_prefix<V>(p: Seq<V>, a: Seq<V>, b: Seq<V>)
    ensures
        edit_distance(p + a, p + b) == edit_distance(a, b),
    decreases p.len(),
{
    if p.len() > 0 {
        let p2 = p.drop_first();
        lemma_common_prefix(p2, a, b);
        assert(p + a =~= seq![p[0]] + (p2 + a));
        assert(p + b =~= seq![p[0]] + (p2 + b));
        lemma_single_common_prefix(p[0], p2 + a, p2 + b);
    } else {
        assert(p + a =~= a);
        assert(p + b =~= b);
    }
}

/// Whether two elements are equal, by their views.
pub fn same_element<T: PartialEq + View>(x: &T, y: &T) -> (r: bool)
    requires
        obeys_view_eq::<T>(),
    ensures
        r == (x@ == y@),
{
    proof {
        reveal(obeys_view_eq);
    }
    x == y
}

/// The edit distance between `rows[rs..re]` and `cols[cs..ce]`, computed
/// row by row with two rows of the table.
pub fn table_distance<T: PartialEq + View>(
    rows: &[T],
    rs: usize,
    re: usize,
    cols: &[T],
    cs: usize,
    ce: usize,
) -> (d: usize)
    requires
        rs <= re <= rows@.len(),
        cs <= ce <= cols@.len(),
        re - rs < usize::MAX,
        ce - cs < usize::MAX,
        obeys_view_eq::<T>(),
    ensures
        d == edit_distance(
            views(rows@.subrange(rs as int, re as int)),
            views(cols@.subrange(cs as int, ce as int)),
        ),
{
    let ghost r = views(rows@.subrange(rs as int, re as int));
    let ghost c = views(cols@.subrange(cs as int, ce as int));
    let m = re - rs;
    let n = ce - cs;
    let mut previous: Vec<usize> = Vec::new();
    let mut j: usize = 0;
    while j <= n
        invariant
            j <= n + 1,
            n == c.len(),
            n < usize::MAX,
            previous@.len() == j,
            forall|k: int| 0 <= k < j ==> previous@[k] == k,
        decreases n + 1 - j,
    {
        previous.push(j);
        j = j + 1;
    }
    let mut current: Vec<usize> = Vec::new();
    let mut j: usize = 0;
    while j <= n
        invariant
            j <= n + 1,
            n < usize::MAX,
            current@.len() == j,
        decreases n + 1 - j,
    {
        current.push(0);
        j = j + 1;
    }
    proof {
        assert forall|k: int| 0 <= k <= n implies previous@[k] == edit_distance(r.take(0), c.take(k)) by {
            assert(r.take(0) =~= Seq::<T::V>::empty());
        }
    }
    let mut i: usize = 0;
    while i < m
        invariant
            rs <= re <= rows@.len(),
            cs <= ce <= cols@.len(),
            m == re - rs,
            n == ce - cs,
            m < usize::MAX,
            n < usize::MAX,
            r == views(rows@.subrange(rs as int, re as int)),
            c == views(cols@.subrange(cs as int, ce as int)),
            r.len() == m,
            c.len() == n,
            obeys_view_eq::<T>(),
            i <= m,
            previous@.len() == n + 1,
            current@.len() == n + 1,
            forall|k: int| 0 <= k <= n ==> previous@[k] == edit_distance(r.take(i as int), #[trigger] c.take(k)),
        decreases m - i,
    {
        let ghost a = r.take(i + 1);
        proof {
            assert(a.drop_last() =~= r.take(i as int));
            assert(a.last() == r[i as int]);
            assert(r[i as int] == rows@[rs + i]@);
            assert(c.take(0) =~= Seq::<T::V>::empty());
        }
        current.set(0, i + 1);
        let mut j: usize = 0;
        while j < n
            invariant
                rs <= re <= rows@.len(),
                cs <= ce <= cols@.len(),
                m == re - rs,
                n == ce - cs,
                m < usize::MAX,
                n < usize::MAX,
                r == views(rows@.subrange(rs as int, re as int)),
                c == views(cols@.subrange(cs as int, ce as int)),
                r.len() == m,
                c.len() == n,
                obeys_view_eq::<T>(),
                i < m,
                j <= n,
                a == r.take(i + 1),
                a.drop_last() == r.take(i as int),
                a.last() == rows@[rs + i]@,
                previous@.len() == n + 1,
                current@.len() == n + 1,
                forall|k: int| 0 <= k <= n ==> previous@[k] == edit_distance(r.take(i as int), #[trigger] c.take(k)),
                forall|k: int| 0 <= k <= j ==> current@[k] == edit_distance(a, #[trigger] c.take(k)),
            decreases n - j,
        {
            let ghost b = c.take(j + 1);
            proof {
                assert(b.drop_last() =~= c.take(j as int));
                assert(b.last() == c[j as int]);
                assert(c[j as int] == cols@[cs + j]@);
                lemma_edit_distance_bounds(a, c.take(j as int));
                lemma_edit_distance_bounds(r.take(i as int), b);
                lemma_edit_distance_bounds(r.take(i as int), c.take(j as int));
            }
            let same = same_element(&rows[rs + i], &cols[cs + j]);
            let cost: usize = if same { 0 } else { 1 };
            let left = current[j] + 1;
            let up = previous[j + 1] + 1;
            let diagonal = previous[j] + cost;
            let best_side = if left <= up { left } else { up };
            let best = if best_side <= diagonal { best_side } else { diagonal };
            current.set(j + 1, best);
            j = j + 1;
        }
        std::mem::swap(&mut previous, &mut current);
        i = i + 1;
    }
    proof {
        assert(r.take(m as int) =~= r);
        assert(c.take(n as int) =~= c);
    }
    previous[n]
}

} // verus!
