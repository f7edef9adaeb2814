//! Edit distance between component lists, and the order-preserving
//! minimum-cost matching used to pair old and new versions of a package.
use vstd::prelude::*;
use vstd::laws_eq::obeys_view_eq;
use crate::edit::{
    edit_distance,
    views,
    same_element,
    table_distance,
    lemma_common_prefix,
    lemma_common_suffix,
    lemma_edit_distance_symmetric,
};
use crate::model::VersionAmount;
use crate::version::{VersionComponent, comp_views};

verus! {

/// The length of the longest common prefix of two slices, by element views.
fn common_prefix_len<T: PartialEq + View>(a: &[T], b: &[T]) -> (k: usize)
    requires
        obeys_view_eq::<T>(),
    ensures
        k <= a@.len(),
        k <= b@.len(),
        forall|i: int| 0 <= i < k ==> a@[i]@ == b@[i]@,
        k < a@.len() && k < b@.len() ==> a@[k as int]@ != b@[k as int]@,
{
    let mut k: usize = 0;
    loop
        invariant
            obeys_view_eq::<T>(),
            k <= a@.len(),
            k <= b@.len(),
            forall|i: int| 0 <= i < k ==> a@[i]@ == b@[i]@,
        ensures
            k <= a@.len(),
            k <= b@.len(),
            forall|i: int| 0 <= i < k ==> a@[i]@ == b@[i]@,
            k < a@.len() && k < b@.len() ==> a@[k as int]@ != b@[k as int]@,
        decreases a@.len() - k,
    {
        if k >= a.len() || k >= b.len() {
            break;
        }
        if !same_element(&a[k], &b[k]) {
            break;
        }
        k = k + 1;
    }
    k
}

/// The `i`-th element counted from the end.
pub open spec fn from_end<T>(s: Seq<T>, i: int) -> T {
    s[s.len() - 1 - i]
}

/// The length of the longest common suffix of `a[start..]` and `b[start..]`.
fn common_suffix_len<T: PartialEq + View>(a: &[T], b: &[T], start: usize) -> (k: usize)
    requires
        obeys_view_eq::<T>(),
        start <= a@.len(),
        start <= b@.len(),
    ensures
        k <= a@.len() - start,
        k <= b@.len() - start,
        forall|i: int| 0 <= i < k ==> (#[trigger] from_end(a@, i))@ == from_end(b@, i)@,
        k < a@.len() - start && k < b@.len() - start ==> from_end(a@, k as int)@ != from_end(b@, k as int)@,
{
    let mut k: usize = 0;
    loop
        invariant
            obeys_view_eq::<T>(),
            start <= a@.len(),
            start <= b@.len(),
            k <= a@.len() - start,
            k <= b@.len() - start,
            forall|i: int| 0 <= i < k ==> (#[trigger] from_end(a@, i))@ == from_end(b@, i)@,
        ensures
            k <= a@.len() - start,
            k <= b@.len() - start,
            forall|i: int| 0 <= i < k ==> (#[trigger] from_end(a@, i))@ == from_end(b@, i)@,
            k < a@.len() - start && k < b@.len() - start ==> from_end(a@, k as int)@ != from_end(b@, k as int)@,
        decreases a@.len() - k,
    {
        if k >= a.len() - start || k >= b.len() - start {
            break;
        }
        if !same_element(&a[a.len() - 1 - k], &b[b.len() - 1 - k]) {
            break;
        }
        k = k + 1;
    }
    k
}

proof fn lemma_views_split<T: View>(s: Seq<T>, i: int, j: int)
    requires
        0 <= i <= j <= s.len(),
    ensures
        views(s) == views(s.subrange(0, i)) + views(s.subrange(i, j)) + views(s.subrange(j, s.len() as int)),
{
    assert(views(s) =~= views(s.subrange(0, i)) + views(s.subrange(i, j)) + views(s.subrange(j, s.len() as int)));
}

/// The Levenshtein distance between two slices, by element views.
///
/// Equal prefixes and suffixes never contribute to the distance, so they are
/// trimmed before the table is filled; the table is as wide as the shorter
/// remaining slice.
pub fn levenshtein<T: PartialEq + View>(from: &[T], to: &[T]) -> (d: usize)
    requires
        obeys_view_eq::<T>(),
        from@.len() < usize::MAX,
        to@.len() < usize::MAX,
    ensures
        d == edit_distance(views(from@), views(to@)),
{
    let p = common_prefix_len(from, to);
    let s = common_suffix_len(from, to, p);
    let fe = from.len() - s;
    let te = to.len() - s;
    let ghost x = views(from@.subrange(p as int, fe as int));
    let ghost y = views(to@.subrange(p as int, te as int));
    proof {
        let pf = views(from@.subrange(0, p as int));
        let pt = views(to@.subrange(0, p as int));
        let sf = views(from@.subrange(fe as int, from@.len() as int));
        let st = views(to@.subrange(te as int, to@.len() as int));
        lemma_views_split(from@, p as int, fe as int);
        lemma_views_split(to@, p as int, te as int);
        assert(pf =~= pt);
        assert forall|i: int| 0 <= i < sf.len() implies sf[i] == st[i] by {
            let k = s - 1 - i;
            assert(from_end(from@, k)@ == from_end(to@, k)@);
        }
        assert(sf =~= st);
        lemma_common_prefix(pf, x + sf, y + sf);
        lemma_common_suffix(x, y, sf);
        assert(pf + x + sf =~= pf + (x + sf));
        assert(pt + y + st =~= pf + (y + sf));
    }
    if fe == p {
        return te - p;
    }
    if te == p {
        return fe - p;
    }
    if fe - p >= te - p {
        table_distance(from, p, fe, to, p, te)
    } else {
        let d = table_distance(to, p, te, from, p, fe);
        proof {
            lemma_edit_distance_symmetric(x, y);
        }
        d
    }
}

/// The rows of a cost matrix as sequences.
pub open spec fn cost_rows(costs: Seq<Vec<usize>>) -> Seq<Seq<usize>> {
    costs.map_values(|r: Vec<usize>| r@)
}

/// Whether `costs` has `n` rows of `m` entries each.
pub open spec fn is_matrix(costs: Seq<Seq<usize>>, n: int, m: int) -> bool {
    &&& costs.len() == n
    &&& forall|i: int| 0 <= i < n ==> (#[trigger] costs[i]).len() == m
}

/// Addition that stops at `usize::MAX`.
pub open spec fn sat_add(a: int, b: int) -> int {
    if a + b > usize::MAX {
        usize::MAX as int
    } else {
        a + b
    }
}

/// The cost of pairing item `s` of the shorter side with item `l` of the
/// longer side.
pub open spec fn oriented_cost(costs: Seq<Seq<usize>>, transposed: bool, s: int, l: int) -> int {
    if transposed {
        costs[l][s] as int
    } else {
        costs[s][l] as int
    }
}

/// The `(left, right)` pair for item `s` of the shorter side and item `l`
/// of the longer side.
pub open spec fn oriented_pair(transposed: bool, s: int, l: int) -> (int, int) {
    if transposed {
        (l, s)
    } else {
        (s, l)
    }
}

/// The least cost, stopping at `usize::MAX`, of matching the first `i`
/// items of the shorter side in order into the first `j` items of the
/// longer side (`usize::MAX` where `j < i`).
pub open spec fn best_cost(costs: Seq<Seq<usize>>, transposed: bool, i: int, j: int) -> int
    decreases i + j, j,
{
    if i <= 0 {
        0
    } else if j < i {
        usize::MAX as int
    } else {
        let skip = best_cost(costs, transposed, i, j - 1);
        let pair = sat_add(best_cost(costs, transposed, i - 1, j - 1), oriented_cost(costs, transposed, i - 1, j - 1));
        if skip <= pair {
            skip
        } else {
            pair
        }
    }
}

/// The pairs chosen by walking the cost table back from `(i, j)`: a later
/// item of the longer side is skipped whenever skipping costs no more.
pub open spec fn walk_back(costs: Seq<Seq<usize>>, transposed: bool, i: int, j: int) -> Seq<(int, int)>
    decreases i + j,
{
    if i <= 0 || j <= 0 {
        Seq::empty()
    } else if j > i && best_cost(costs, transposed, i, j) == best_cost(costs, transposed, i, j - 1) {
        walk_back(costs, transposed, i, j - 1)
    } else {
        walk_back(costs, transposed, i - 1, j - 1).push(oriented_pair(transposed, i - 1, j - 1))
    }
}

/// The minimum-cost order-preserving matching of `n` left items with `m`
/// right items, as `(left, right)` index pairs in increasing order.
pub open spec fn ordered_matching(costs: Seq<Seq<usize>>, n: int, m: int) -> Seq<(int, int)> {
    if n <= 0 || m <= 0 {
        Seq::empty()
    } else if n > m {
        walk_back(costs, true, m, n)
    } else {
        walk_back(costs, false, n, m)
    }
}

/// Index pairs as integer pairs.
pub open spec fn int_pairs(v: Seq<(usize, usize)>) -> Seq<(int, int)> {
    v.map_values(|p: (usize, usize)| (p.0 as int, p.1 as int))
}

/// One row of the cost table: entry `j` is `best_cost(.., i, j)`.
fn table_row(
    costs: &Vec<Vec<usize>>,
    transposed: bool,
    previous: &Vec<usize>,
    i: usize,
    longer_len: usize,
) -> (row: Vec<usize>)
    requires
        1 <= i,
        longer_len < usize::MAX,
        previous@.len() == longer_len + 1,
        forall|j: int| 0 <= j <= longer_len ==> previous@[j] == best_cost(cost_rows(costs@), transposed, i - 1, j),
        transposed ==> costs@.len() >= longer_len && forall|l: int| 0 <= l < longer_len ==> costs@[l]@.len() >= i,
        !transposed ==> costs@.len() >= i && costs@[i - 1]@.len() >= longer_len,
    ensures
        row@.len() == longer_len + 1,
        forall|j: int| 0 <= j <= longer_len ==> row@[j] == best_cost(cost_rows(costs@), transposed, i as int, j),
{
    let ghost c = cost_rows(costs@);
    let mut row: Vec<usize> = Vec::new();
    let mut j: usize = 0;
    while j <= longer_len
        invariant
            c == cost_rows(costs@),
            1 <= i,
            longer_len < usize::MAX,
            j <= longer_len + 1,
            previous@.len() == longer_len + 1,
            forall|k: int| 0 <= k <= longer_len ==> previous@[k] == best_cost(c, transposed, i - 1, k),
            transposed ==> costs@.len() >= longer_len && forall|l: int| 0 <= l < longer_len ==> costs@[l]@.len() >= i,
            !transposed ==> costs@.len() >= i && costs@[i - 1]@.len() >= longer_len,
            row@.len() == j,
            forall|k: int| 0 <= k < j ==> row@[k] == best_cost(c, transposed, i as int, k),
        decreases longer_len + 1 - j,
    {
        if j < i {
            row.push(usize::MAX);
        } else {
            let skip = row[j - 1];
            let pair_cost = if transposed {
                costs[j - 1][i - 1]
            } else {
                costs[i - 1][j - 1]
            };
            let pair = previous[j - 1].saturating_add(pair_cost);
            proof {
                assert(oriented_cost(c, transposed, i - 1, j - 1) == pair_cost);
            }
            let v = if skip <= pair {
                skip
            } else {
                pair
            };
            row.push(v);
        }
        j = j + 1;
    }
    row
}

/// Finds a minimum-cost, order-preserving matching between two sequences of
/// `left_len` and `right_len` items, where `costs[left][right]` is the cost
/// of pairing two items.
///
/// The result holds `min(left_len, right_len)` `(left, right)` index pairs;
/// every index occurs at most once and both indexes increase.
pub fn minimum_cost_ordered_matching(
    left_len: usize,
    right_len: usize,
    costs: &Vec<Vec<usize>>,
) -> (matching: Vec<(usize, usize)>)
    requires
        is_matrix(cost_rows(costs@), left_len as int, right_len as int),
        left_len < usize::MAX,
        right_len < usize::MAX,
    ensures
        int_pairs(matching@) == ordered_matching(cost_rows(costs@), left_len as int, right_len as int),
{
    let ghost c = cost_rows(costs@);
    if left_len == 0 || right_len == 0 {
        assert(int_pairs(Seq::<(usize, usize)>::empty()) =~= Seq::<(int, int)>::empty());
        return Vec::new();
    }
    let was_transposed = left_len > right_len;
    let shorter_len = if was_transposed {
        right_len
    } else {
        left_len
    };
    let longer_len = if was_transposed {
        left_len
    } else {
        right_len
    };
    let mut best: Vec<Vec<usize>> = Vec::new();
    let mut first: Vec<usize> = Vec::new();
    let mut j: usize = 0;
    while j <= longer_len
        invariant
            j <= longer_len + 1,
            longer_len < usize::MAX,
            first@.len() == j,
            forall|k: int| 0 <= k < j ==> first@[k] == 0,
        decreases longer_len + 1 - j,
    {
        first.push(0);
        j = j + 1;
    }
    best.push(first);
    let mut i: usize = 1;
    while i <= shorter_len
        invariant
            c == cost_rows(costs@),
            is_matrix(c, left_len as int, right_len as int),
            left_len < usize::MAX,
            right_len < usize::MAX,
            was_transposed == (left_len > right_len),
            shorter_len == (if was_transposed { right_len } else { left_len }),
            longer_len == (if was_transposed { left_len } else { right_len }),
            1 <= i <= shorter_len + 1,
            best@.len() == i,
            forall|r: int| 0 <= r < i ==> (#[trigger] best@[r])@.len() == longer_len + 1,
            forall|r: int, k: int| 0 <= r < i && 0 <= k <= longer_len ==> #[trigger] best@[r]@[k] == best_cost(c, was_transposed, r, k),
        decreases shorter_len + 1 - i,
    {
        proof {
            if was_transposed {
                assert forall|l: int| 0 <= l < longer_len implies costs@[l]@.len() >= i by {
                    assert(c[l] == costs@[l]@);
                }
            } else {
                assert(c[i - 1] == costs@[i - 1]@);
            }
        }
        let row = table_row(costs, was_transposed, &best[i - 1], i, longer_len);
        best.push(row);
        i = i + 1;
    }
    let mut shorter = shorter_len;
    let mut longer = longer_len;
    let mut reversed: Vec<(usize, usize)> = Vec::new();
    let ghost total = walk_back(c, was_transposed, shorter_len as int, longer_len as int);
    while shorter > 0
        invariant
            c == cost_rows(costs@),
            was_transposed == (left_len > right_len),
            best@.len() == shorter_len + 1,
            forall|r: int| 0 <= r <= shorter_len ==> (#[trigger] best@[r])@.len() == longer_len + 1,
            forall|r: int, k: int| 0 <= r <= shorter_len && 0 <= k <= longer_len ==> #[trigger] best@[r]@[k] == best_cost(c, was_transposed, r, k),
            shorter <= longer <= longer_len,
            shorter <= shorter_len,
            total == walk_back(c, was_transposed, shorter_len as int, longer_len as int),
            total == walk_back(c, was_transposed, shorter as int, longer as int) + int_pairs(reversed@).reverse(),
        decreases shorter + longer,
    {
        let ghost before = int_pairs(reversed@);
        if longer > shorter && best[shorter][longer] == best[shorter][longer - 1] {
            longer = longer - 1;
        } else {
            let pair = if was_transposed {
                (longer - 1, shorter - 1)
            } else {
                (shorter - 1, longer - 1)
            };
            reversed.push(pair);
            proof {
                let p = oriented_pair(was_transposed, shorter - 1, longer - 1);
                assert(int_pairs(reversed@) =~= before.push(p));
                assert(before.push(p).reverse() =~= seq![p] + before.reverse());
                let w = walk_back(c, was_transposed, shorter - 1, longer - 1);
                assert(w.push(p) + before.reverse() =~= w + (seq![p] + before.reverse()));
            }
            shorter = shorter - 1;
            longer = longer - 1;
        }
    }
    let mut matching: Vec<(usize, usize)> = Vec::new();
    let mut k: usize = reversed.len();
    proof {
        assert(walk_back(c, was_transposed, 0, longer as int) =~= Seq::<(int, int)>::empty());
        assert(total =~= int_pairs(reversed@).reverse());
    }
    while k > 0
        invariant
            k <= reversed@.len(),
            int_pairs(matching@) == int_pairs(reversed@).reverse().take(reversed@.len() - k),
        decreases k,
    {
        k = k - 1;
        let ghost before = int_pairs(matching@);
        matching.push(reversed[k]);
        proof {
            let rv = int_pairs(reversed@).reverse();
            assert(int_pairs(matching@) =~= before.push((reversed@[k as int].0 as int, reversed@[k as int].1 as int)));
            assert(rv.take(reversed@.len() - k) =~= rv.take(reversed@.len() - k - 1).push(rv[reversed@.len() - k - 1]));
        }
    }
    proof {
        let rv = int_pairs(reversed@).reverse();
        assert(rv.take(reversed@.len() as int) =~= rv);
    }
    matching
}

/// Whether `pairs` is an order-preserving matching of `n` left items with
/// `m` right items that pairs every item of the shorter side.
pub open spec fn is_ordered_matching(pairs: Seq<(int, int)>, n: int, m: int) -> bool {
    &&& pairs.len() == (if n <= m { n } else { m })
    &&& forall|k: int| 0 <= k < pairs.len() ==> 0 <= (#[trigger] pairs[k]).0 < n && 0 <= pairs[k].1 < m
    &&& forall|k1: int, k2: int|
        0 <= k1 < k2 < pairs.len() ==> (#[trigger] pairs[k1]).0 < (#[trigger] pairs[k2]).0 && pairs[k1].1 < pairs[k2].1
}

proof fn lemma_walk_back_shape(c: Seq<Seq<usize>>, t: bool, i: int, j: int)
    requires
        0 <= i <= j,
    ensures
        walk_back(c, t, i, j).len() == i,
        forall|k: int| 0 <= k < i ==> {
            let p = #[trigger] walk_back(c, t, i, j)[k];
            if t {
                p.1 == k && 0 <= p.0 < j
            } else {
                p.0 == k && 0 <= p.1 < j
            }
        },
        forall|k1: int, k2: int|
            0 <= k1 < k2 < i ==> (#[trigger] walk_back(c, t, i, j)[k1]).0 < (#[trigger] walk_back(c, t, i, j)[k2]).0
                && walk_back(c, t, i, j)[k1].1 < walk_back(c, t, i, j)[k2].1,
    decreases i + j,
{
    if i <= 0 || j <= 0 {
    } else if j > i && best_cost(c, t, i, j) == best_cost(c, t, i, j - 1) {
        lemma_walk_back_shape(c, t, i, j - 1);
    } else {
        lemma_walk_back_shape(c, t, i - 1, j - 1);
        let w = walk_back(c, t, i - 1, j - 1);
        assert(walk_back(c, t, i, j) == w.push(oriented_pair(t, i - 1, j - 1)));
    }
}

/// The chosen matching pairs every item of the shorter side, uses each index
/// at most once and keeps both sides in order.
pub proof fn lemma_ordered_matching_shape(c: Seq<Seq<usize>>, n: int, m: int)
    requires
        n >= 0,
        m >= 0,
    ensures
        is_ordered_matching(ordered_matching(c, n, m), n, m),
{
    if n > 0 && m > 0 {
        if n > m {
            lemma_walk_back_shape(c, true, m, n);
        } else {
            lemma_walk_back_shape(c, false, n, m);
        }
    }
}

/// The total cost of a list of `(left, right)` pairs.
pub open spec fn matching_cost(c: Seq<Seq<usize>>, pairs: Seq<(int, int)>) -> int
    decreases pairs.len(),
{
    if pairs.len() == 0 {
        0
    } else {
        matching_cost(c, pairs.drop_last()) + c[pairs.last().0][pairs.last().1] as int
    }
}

/// The pairs match items `0..pairs.len()` of the shorter side in order with
/// increasing items below `j` of the longer side.
pub open spec fn oriented_shape(pairs: Seq<(int, int)>, t: bool, j: int) -> bool {
    &&& forall|k: int| 0 <= k < pairs.len() ==> {
        let p = #[trigger] pairs[k];
        if t {
            p.1 == k && 0 <= p.0 < j
        } else {
            p.0 == k && 0 <= p.1 < j
        }
    }
    &&& forall|k1: int, k2: int|
        0 <= k1 < k2 < pairs.len() ==> (#[trigger] pairs[k1]).0 < (#[trigger] pairs[k2]).0 && pairs[k1].1 < pairs[k2].1
}

/// No matching of the first `i` shorter-side items into the first `j`
/// longer-side items costs less than the table entry.
proof fn lemma_best_cost_lower_bound(c: Seq<Seq<usize>>, t: bool, o: Seq<(int, int)>, j: int)
    requires
        oriented_shape(o, t, j),
    ensures
        best_cost(c, t, o.len() as int, j) <= matching_cost(c, o),
    decreases o.len() + j,
{
    let i = o.len() as int;
    if i > 0 {
        let last = o[i - 1];
        let l = if t { last.0 } else { last.1 };
        let o2 = o.drop_last();
        assert(o2.len() == i - 1);
        assert forall|k: int| 0 <= k < i - 1 implies (if t { o[k].0 } else { o[k].1 }) < l by {
            assert(o[k].0 < o[i - 1].0 && o[k].1 < o[i - 1].1);
        }
        if l < j - 1 {
            assert(oriented_shape(o, t, j - 1));
            lemma_best_cost_lower_bound(c, t, o, j - 1);
        } else {
            assert forall|k: int| 0 <= k < o2.len() implies {
                let p = #[trigger] o2[k];
                if t {
                    p.1 == k && 0 <= p.0 < j - 1
                } else {
                    p.0 == k && 0 <= p.1 < j - 1
                }
            } by {
                assert(o2[k] == o[k]);
            }
            assert forall|k1: int, k2: int| 0 <= k1 < k2 < o2.len() implies (#[trigger] o2[k1]).0 < (#[trigger] o2[k2]).0
                && o2[k1].1 < o2[k2].1 by {
                assert(o2[k1] == o[k1] && o2[k2] == o[k2]);
            }
            lemma_best_cost_lower_bound(c, t, o2, j - 1);
            assert(c[last.0][last.1] as int == oriented_cost(c, t, i - 1, j - 1));
        }
    }
}

/// Walking back from a finite table entry gives a matching of that cost.
proof fn lemma_walk_back_cost(c: Seq<Seq<usize>>, t: bool, i: int, j: int)
    requires
        0 <= i <= j,
        best_cost(c, t, i, j) < usize::MAX,
    ensures
        matching_cost(c, walk_back(c, t, i, j)) == best_cost(c, t, i, j),
    decreases i + j,
{
    if i > 0 {
        if j > i && best_cost(c, t, i, j) == best_cost(c, t, i, j - 1) {
            lemma_walk_back_cost(c, t, i, j - 1);
        } else {
            let w = walk_back(c, t, i - 1, j - 1);
            let p = oriented_pair(t, i - 1, j - 1);
            let skip = best_cost(c, t, i, j - 1);
            let a = best_cost(c, t, i - 1, j - 1);
            let oc = oriented_cost(c, t, i - 1, j - 1);
            let pair = sat_add(a, oc);
            assert(best_cost(c, t, i, j) == if skip <= pair { skip } else { pair });
            if j == i {
                assert(skip == usize::MAX);
            }
            assert(best_cost(c, t, i, j) == pair);
            assert(oc >= 0);
            assert(a < usize::MAX);
            assert(walk_back(c, t, i, j) == w.push(p));
            assert(w.push(p).drop_last() =~= w);
            assert(c[p.0][p.1] as int == oc);
            lemma_walk_back_cost(c, t, i - 1, j - 1);
        }
    }
}

/// A strictly increasing list of `len` indexes below `len` is `0..len`.
proof fn lemma_tight_indexes(pairs: Seq<(int, int)>, first: bool)
    requires
        forall|k: int| 0 <= k < pairs.len() ==> 0 <= (if first { (#[trigger] pairs[k]).0 } else { pairs[k].1 }) < pairs.len(),
        forall|k1: int, k2: int|
            0 <= k1 < k2 < pairs.len() ==> (#[trigger] pairs[k1]).0 < (#[trigger] pairs[k2]).0 && pairs[k1].1 < pairs[k2].1,
    ensures
        forall|k: int| 0 <= k < pairs.len() ==> (if first { (#[trigger] pairs[k]).0 } else { pairs[k].1 }) == k,
    decreases pairs.len(),
{
    let n = pairs.len() as int;
    if n > 0 {
        let q = pairs.drop_last();
        let top = if first { pairs[n - 1].0 } else { pairs[n - 1].1 };
        assert forall|k: int| 0 <= k < n - 1 implies 0 <= (if first { (#[trigger] q[k]).0 } else { q[k].1 }) < n - 1 by {
            assert(q[k] == pairs[k]);
            assert(pairs[k].0 < pairs[n - 1].0 && pairs[k].1 < pairs[n - 1].1);
        }
        assert forall|k1: int, k2: int| 0 <= k1 < k2 < q.len() implies (#[trigger] q[k1]).0 < (#[trigger] q[k2]).0
            && q[k1].1 < q[k2].1 by {
            assert(q[k1] == pairs[k1] && q[k2] == pairs[k2]);
        }
        lemma_tight_indexes(q, first);
        assert forall|k: int| 0 <= k < n implies (if first { (#[trigger] pairs[k]).0 } else { pairs[k].1 }) == k by {
            if k < n - 1 {
                assert(q[k] == pairs[k]);
            } else if n >= 2 {
                assert(q[n - 2] == pairs[n - 2]);
                assert(pairs[n - 2].0 < pairs[n - 1].0 && pairs[n - 2].1 < pairs[n - 1].1);
            }
        }
    }
}

/// The chosen matching costs no more than any other order-preserving
/// matching that pairs every item of the shorter side (of those whose cost
/// stays below `usize::MAX`, where the table's additions stop).
pub proof fn lemma_ordered_matching_minimal(c: Seq<Seq<usize>>, n: int, m: int, other: Seq<(int, int)>)
    requires
        is_ordered_matching(other, n, m),
        matching_cost(c, other) < usize::MAX,
    ensures
        matching_cost(c, ordered_matching(c, n, m)) <= matching_cost(c, other),
{
    if n > 0 && m > 0 {
        let t = n > m;
        let (short, long) = if t { (m, n) } else { (n, m) };
        lemma_tight_indexes(other, !t);
        assert(oriented_shape(other, t, long));
        lemma_best_cost_lower_bound(c, t, other, long);
        lemma_walk_back_cost(c, t, short, long);
    } else {
        assert(ordered_matching(c, n, m).len() == 0);
    }
}

/// Component equality is equality of the components' texts.
pub proof fn lemma_component_obeys_view_eq<'a>()
    ensures
        obeys_view_eq::<VersionComponent<'a>>(),
{
    reveal(obeys_view_eq);
}

/// An item of the left list, of the right list, or one of each, paired.
#[derive(Debug, Clone, Copy)]
pub enum Pairing<'a, T> {
    Left(&'a T),
    Right(&'a T),
    Both(&'a T, &'a T),
}

impl<'a, T> Pairing<'a, T> {
    /// Whether the pairing holds a left version.
    pub fn has_left(&self) -> (r: bool)
        ensures
            r == !(self is Right),
    {
        match self {
            Pairing::Right(_) => false,
            _ => true,
        }
    }

    /// Whether the pairing holds a right version.
    pub fn has_right(&self) -> (r: bool)
        ensures
            r == !(self is Left),
    {
        match self {
            Pairing::Left(_) => false,
            _ => true,
        }
    }
}

/// A pairing by the indexes of the versions in their lists.
pub ghost enum PairIndex {
    Left(int),
    Right(int),
    Both(int, int),
}

/// The cost of pairing two versions: the edit distance of their component
/// lists.
pub open spec fn amount_cost(a: (Seq<char>, nat), b: (Seq<char>, nat)) -> int {
    edit_distance(comp_views(a.0), comp_views(b.0))
}

/// The matrix of pairing costs of two version lists.
pub open spec fn amount_costs(from: Seq<(Seq<char>, nat)>, to: Seq<(Seq<char>, nat)>) -> Seq<Seq<usize>> {
    Seq::new(from.len(), |i: int| Seq::new(to.len(), |j: int| amount_cost(from[i], to[j]) as usize))
}

/// Whether left index `i` occurs in `pairs`.
pub open spec fn paired_left(pairs: Seq<(int, int)>, i: int) -> bool {
    exists|k: int| 0 <= k < pairs.len() && (#[trigger] pairs[k]).0 == i
}

/// Whether right index `j` occurs in `pairs`.
pub open spec fn paired_right(pairs: Seq<(int, int)>, j: int) -> bool {
    exists|k: int| 0 <= k < pairs.len() && (#[trigger] pairs[k]).1 == j
}

/// The left indexes below `n` that `pairs` leaves out, in increasing order.
pub open spec fn unpaired_lefts(pairs: Seq<(int, int)>, n: int) -> Seq<PairIndex>
    decreases n,
{
    if n <= 0 {
        Seq::empty()
    } else if paired_left(pairs, n - 1) {
        unpaired_lefts(pairs, n - 1)
    } else {
        unpaired_lefts(pairs, n - 1).push(PairIndex::Left(n - 1))
    }
}

/// The right indexes below `m` that `pairs` leaves out, in increasing order.
pub open spec fn unpaired_rights(pairs: Seq<(int, int)>, m: int) -> Seq<PairIndex>
    decreases m,
{
    if m <= 0 {
        Seq::empty()
    } else if paired_right(pairs, m - 1) {
        unpaired_rights(pairs, m - 1)
    } else {
        unpaired_rights(pairs, m - 1).push(PairIndex::Right(m - 1))
    }
}

/// How two version lists are paired: lists of equal length pair item by
/// item; otherwise the minimum-cost order-preserving matching comes first,
/// then the unpaired left versions, then the unpaired right versions.
pub open spec fn pair_indices(from: Seq<(Seq<char>, nat)>, to: Seq<(Seq<char>, nat)>) -> Seq<PairIndex> {
    let n = from.len() as int;
    let m = to.len() as int;
    if n == 0 {
        Seq::new(m as nat, |j: int| PairIndex::Right(j))
    } else if m == 0 {
        Seq::new(n as nat, |i: int| PairIndex::Left(i))
    } else if n == m {
        Seq::new(n as nat, |i: int| PairIndex::Both(i, i))
    } else {
        let pairs = ordered_matching(amount_costs(from, to), n, m);
        pairs.map_values(|p: (int, int)| PairIndex::Both(p.0, p.1)) + unpaired_lefts(pairs, n) + unpaired_rights(pairs, m)
    }
}

/// Whether a pairing of references stands for a pairing of indexes.
pub open spec fn pairing_refers<T>(p: Pairing<T>, q: PairIndex, from: Seq<T>, to: Seq<T>) -> bool {
    match q {
        PairIndex::Left(i) => p matches Pairing::Left(a) && 0 <= i < from.len() && *a == from[i],
        PairIndex::Right(j) => p matches Pairing::Right(b) && 0 <= j < to.len() && *b == to[j],
        PairIndex::Both(i, j) => p matches Pairing::Both(a, b) && 0 <= i < from.len() && 0 <= j < to.len()
            && *a == from[i] && *b == to[j],
    }
}

/// Whether `r` holds exactly the pairings `q`.
pub open spec fn pairings_refer<T>(r: Seq<Pairing<T>>, q: Seq<PairIndex>, from: Seq<T>, to: Seq<T>) -> bool {
    &&& r.len() == q.len()
    &&& forall|k: int| 0 <= k < r.len() ==> pairing_refers(#[trigger] r[k], q[k], from, to)
}

/// The component lists of a list of versions.
fn component_lists<'a>(items: &'a [VersionAmount]) -> (r: Vec<Vec<VersionComponent<'a>>>)
    ensures
        r@.len() == items@.len(),
        forall|i: int| 0 <= i < r@.len() ==> (#[trigger] r@[i])@.len() < usize::MAX
            && views(r@[i]@) == comp_views(items@[i].version@),
{
    let mut r: Vec<Vec<VersionComponent<'a>>> = Vec::new();
    let mut i: usize = 0;
    while i < items.len()
        invariant
            i <= items@.len(),
            r@.len() == i,
            forall|k: int| 0 <= k < i ==> (#[trigger] r@[k])@.len() < usize::MAX
                && views(r@[k]@) == comp_views(items@[k].version@),
        decreases items@.len() - i,
    {
        let comps = items[i].version.components();
        proof {
            assert(views(comps@) =~= comps@.map_values(|c: VersionComponent| c@));
        }
        r.push(comps);
        i = i + 1;
    }
    r
}

/// The pairing costs of two version lists.
fn cost_matrix(from: &[VersionAmount], to: &[VersionAmount]) -> (costs: Vec<Vec<usize>>)
    ensures
        cost_rows(costs@) == amount_costs(views(from@), views(to@)),
        is_matrix(cost_rows(costs@), from@.len() as int, to@.len() as int),
{
    let from_components = component_lists(from);
    let to_components = component_lists(to);
    proof {
        lemma_component_obeys_view_eq();
    }
    let mut costs: Vec<Vec<usize>> = Vec::new();
    let mut i: usize = 0;
    while i < from.len()
        invariant
            obeys_view_eq::<VersionComponent>(),
            i <= from@.len(),
            from_components@.len() == from@.len(),
            to_components@.len() == to@.len(),
            forall|k: int| 0 <= k < from_components@.len() ==> (#[trigger] from_components@[k])@.len() < usize::MAX
                && views(from_components@[k]@) == comp_views(from@[k].version@),
            forall|k: int| 0 <= k < to_components@.len() ==> (#[trigger] to_components@[k])@.len() < usize::MAX
                && views(to_components@[k]@) == comp_views(to@[k].version@),
            costs@.len() == i,
            forall|k: int| 0 <= k < i ==> (#[trigger] costs@[k])@ == amount_costs(views(from@), views(to@))[k],
        decreases from@.len() - i,
    {
        let mut row: Vec<usize> = Vec::new();
        let mut j: usize = 0;
        while j < to.len()
            invariant
                obeys_view_eq::<VersionComponent>(),
                i < from@.len(),
                j <= to@.len(),
                from_components@.len() == from@.len(),
                to_components@.len() == to@.len(),
                forall|k: int| 0 <= k < from_components@.len() ==> (#[trigger] from_components@[k])@.len() < usize::MAX
                    && views(from_components@[k]@) == comp_views(from@[k].version@),
                forall|k: int| 0 <= k < to_components@.len() ==> (#[trigger] to_components@[k])@.len() < usize::MAX
                    && views(to_components@[k]@) == comp_views(to@[k].version@),
                row@.len() == j,
                forall|k: int| 0 <= k < j ==> row@[k] == amount_cost(from@[i as int]@, to@[k]@),
            decreases to@.len() - j,
        {
            let d = levenshtein(from_components[i].as_slice(), to_components[j].as_slice());
            row.push(d);
            j = j + 1;
        }
        proof {
            assert(row@ =~= amount_costs(views(from@), views(to@))[i as int]);
        }
        costs.push(row);
        i = i + 1;
    }
    proof {
        assert(cost_rows(costs@) =~= amount_costs(views(from@), views(to@)));
    }
    costs
}

/// Pairs the versions of two ordered lists while keeping their order:
/// every version of the shorter list is paired, the total edit distance
/// between paired component lists is as small as possible, and no two pairs
/// cross. Unpaired versions follow, left ones first.
pub fn match_version_amounts<'a>(from: &'a [VersionAmount], to: &'a [VersionAmount]) -> (r: Vec<Pairing<'a, VersionAmount>>)
    requires
        from@.len() < usize::MAX,
        to@.len() < usize::MAX,
    ensures
        pairings_refer(r@, pair_indices(views(from@), views(to@)), from@, to@),
{
    let ghost q = pair_indices(views(from@), views(to@));
    let mut r: Vec<Pairing<'a, VersionAmount>> = Vec::new();
    if from.len() == 0 {
        let mut j: usize = 0;
        while j < to.len()
            invariant
                q == pair_indices(views(from@), views(to@)),
                from@.len() == 0,
                j <= to@.len(),
                r@.len() == j,
                forall|k: int| 0 <= k < j ==> pairing_refers(#[trigger] r@[k], q[k], from@, to@),
            decreases to@.len() - j,
        {
            r.push(Pairing::Right(&to[j]));
            j = j + 1;
        }
        return r;
    }
    if to.len() == 0 {
        let mut i: usize = 0;
        while i < from.len()
            invariant
                q == pair_indices(views(from@), views(to@)),
                from@.len() > 0,
                to@.len() == 0,
                i <= from@.len(),
                r@.len() == i,
                forall|k: int| 0 <= k < i ==> pairing_refers(#[trigger] r@[k], q[k], from@, to@),
            decreases from@.len() - i,
        {
            r.push(Pairing::Left(&from[i]));
            i = i + 1;
        }
        return r;
    }
    if from.len() == to.len() {
        let mut i: usize = 0;
        while i < from.len()
            invariant
                q == pair_indices(views(from@), views(to@)),
                from@.len() > 0,
                from@.len() == to@.len(),
                i <= from@.len(),
                r@.len() == i,
                forall|k: int| 0 <= k < i ==> pairing_refers(#[trigger] r@[k], q[k], from@, to@),
            decreases from@.len() - i,
        {
            r.push(Pairing::Both(&from[i], &to[i]));
            i = i + 1;
        }
        return r;
    }
    let costs = cost_matrix(from, to);
    let ghost c = amount_costs(views(from@), views(to@));
    let matching = minimum_cost_ordered_matching(from.len(), to.len(), &costs);
    let ghost ms = int_pairs(matching@);
    proof {
        lemma_ordered_matching_shape(c, from@.len() as int, to@.len() as int);
    }
    let ghost both = ms.map_values(|p: (int, int)| PairIndex::Both(p.0, p.1));
    let mut matched_from: Vec<bool> = Vec::new();
    let mut i: usize = 0;
    while i < from.len()
        invariant
            i <= from@.len(),
            matched_from@.len() == i,
            forall|k: int| 0 <= k < i ==> !matched_from@[k],
        decreases from@.len() - i,
    {
        matched_from.push(false);
        i = i + 1;
    }
    let mut matched_to: Vec<bool> = Vec::new();
    let mut j: usize = 0;
    while j < to.len()
        invariant
            j <= to@.len(),
            matched_to@.len() == j,
            forall|k: int| 0 <= k < j ==> !matched_to@[k],
        decreases to@.len() - j,
    {
        matched_to.push(false);
        j = j + 1;
    }
    let mut k: usize = 0;
    while k < matching.len()
        invariant
            q == pair_indices(views(from@), views(to@)),
            from@.len() > 0,
            to@.len() > 0,
            from@.len() != to@.len(),
            c == amount_costs(views(from@), views(to@)),
            ms == int_pairs(matching@),
            ms == ordered_matching(c, from@.len() as int, to@.len() as int),
            is_ordered_matching(ms, from@.len() as int, to@.len() as int),
            both == ms.map_values(|p: (int, int)| PairIndex::Both(p.0, p.1)),
            q == both + unpaired_lefts(ms, from@.len() as int) + unpaired_rights(ms, to@.len() as int),
            k <= matching@.len(),
            matched_from@.len() == from@.len(),
            matched_to@.len() == to@.len(),
            forall|x: int| 0 <= x < from@.len() ==> (#[trigger] matched_from@[x] <==> paired_left(ms.take(k as int), x)),
            forall|y: int| 0 <= y < to@.len() ==> (#[trigger] matched_to@[y] <==> paired_right(ms.take(k as int), y)),
            r@.len() == k,
            forall|t: int| 0 <= t < k ==> pairing_refers(#[trigger] r@[t], q[t], from@, to@),
        decreases matching@.len() - k,
    {
        let (a, b) = matching[k];
        proof {
            assert(ms[k as int] == (a as int, b as int));
            assert(q[k as int] == both[k as int]);
        }
        r.push(Pairing::Both(&from[a], &to[b]));
        matched_from.set(a, true);
        matched_to.set(b, true);
        proof {
            let ms1 = ms.take(k + 1);
            assert(ms1 =~= ms.take(k as int).push(ms[k as int]));
            assert forall|x: int| 0 <= x < from@.len() implies (#[trigger] matched_from@[x] <==> paired_left(ms1, x)) by {
                if x == a {
                    assert(ms1[k as int].0 == x);
                } else if paired_left(ms1, x) {
                    let w = choose|w: int| 0 <= w < ms1.len() && (#[trigger] ms1[w]).0 == x;
                    assert(ms.take(k as int)[w].0 == x);
                } else if paired_left(ms.take(k as int), x) {
                    let w = choose|w: int| 0 <= w < k && (#[trigger] ms.take(k as int)[w]).0 == x;
                    assert(ms1[w].0 == x);
                }
            }
            assert forall|y: int| 0 <= y < to@.len() implies (#[trigger] matched_to@[y] <==> paired_right(ms1, y)) by {
                if y == b {
                    assert(ms1[k as int].1 == y);
                } else if paired_right(ms1, y) {
                    let w = choose|w: int| 0 <= w < ms1.len() && (#[trigger] ms1[w]).1 == y;
                    assert(ms.take(k as int)[w].1 == y);
                } else if paired_right(ms.take(k as int), y) {
                    let w = choose|w: int| 0 <= w < k && (#[trigger] ms.take(k as int)[w]).1 == y;
                    assert(ms1[w].1 == y);
                }
            }
        }
        k = k + 1;
    }
    proof {
        assert(ms.take(k as int) =~= ms);
    }
    let ghost lefts = unpaired_lefts(ms, from@.len() as int);
    let ghost base = both.len();
    let mut i: usize = 0;
    while i < from.len()
        invariant
            q == both + unpaired_lefts(ms, from@.len() as int) + unpaired_rights(ms, to@.len() as int),
            base == both.len(),
            base == ms.len(),
            lefts == unpaired_lefts(ms, from@.len() as int),
            i <= from@.len(),
            matched_from@.len() == from@.len(),
            forall|x: int| 0 <= x < from@.len() ==> (#[trigger] matched_from@[x] <==> paired_left(ms, x)),
            r@.len() == base + unpaired_lefts(ms, i as int).len(),
            forall|t: int| 0 <= t < base ==> pairing_refers(#[trigger] r@[t], q[t], from@, to@),
            forall|t: int| 0 <= t < unpaired_lefts(ms, i as int).len() ==> pairing_refers(#[trigger] r@[base + t], unpaired_lefts(ms, i as int)[t], from@, to@),
        decreases from@.len() - i,
    {
        if !matched_from[i] {
            r.push(Pairing::Left(&from[i]));
        }
        proof {
            assert(unpaired_lefts(ms, i + 1) == if paired_left(ms, i as int) {
                unpaired_lefts(ms, i as int)
            } else {
                unpaired_lefts(ms, i as int).push(PairIndex::Left(i as int))
            });
        }
        i = i + 1;
    }
    proof {
        assert forall|t: int| 0 <= t < r@.len() implies pairing_refers(#[trigger] r@[t], q[t], from@, to@) by {
            if t >= base {
                let t2 = t - base;
                assert(q[t] == lefts[t2]);
                assert(pairing_refers(r@[base + t2], lefts[t2], from@, to@));
            }
        }
    }
    let ghost rights = unpaired_rights(ms, to@.len() as int);
    let ghost base2 = base + lefts.len();
    let mut j: usize = 0;
    while j < to.len()
        invariant
            q == both + lefts + rights,
            base2 == both.len() + lefts.len(),
            rights == unpaired_rights(ms, to@.len() as int),
            j <= to@.len(),
            matched_to@.len() == to@.len(),
            forall|y: int| 0 <= y < to@.len() ==> (#[trigger] matched_to@[y] <==> paired_right(ms, y)),
            r@.len() == base2 + unpaired_rights(ms, j as int).len(),
            forall|t: int| 0 <= t < base2 ==> pairing_refers(#[trigger] r@[t], q[t], from@, to@),
            forall|t: int| 0 <= t < unpaired_rights(ms, j as int).len() ==> pairing_refers(#[trigger] r@[base2 + t], unpaired_rights(ms, j as int)[t], from@, to@),
        decreases to@.len() - j,
    {
        if !matched_to[j] {
            r.push(Pairing::Right(&to[j]));
        }
        proof {
            assert(unpaired_rights(ms, j + 1) == if paired_right(ms, j as int) {
                unpaired_rights(ms, j as int)
            } else {
                unpaired_rights(ms, j as int).push(PairIndex::Right(j as int))
            });
        }
        j = j + 1;
    }
    proof {
        assert forall|t: int| 0 <= t < r@.len() implies pairing_refers(#[trigger] r@[t], q[t], from@, to@) by {
            if t >= base2 {
                let t2 = t - base2;
                assert(q[t] == rights[t2]);
                assert(pairing_refers(r@[base2 + t2], rights[t2], from@, to@));
            }
        }
    }
    r
}

} // verus!
