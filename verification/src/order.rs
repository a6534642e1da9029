use vstd::prelude::*;
use crate::data::{eq_spec, le_spec, lt_spec, MatrixData};

verus! {

/// `a` does not come after `b` when numbers stand in ascending order and
/// values that are not numbers stand behind them all.
pub open spec fn total_le<T: MatrixData>(a: T, b: T) -> bool {
    b.is_nan_spec() || (!a.is_nan_spec() && a.rank() <= b.rank())
}

/// Position `i` of `keys` goes before position `j`: the smaller key first,
/// and of two keys that compare equal the one that stands first in `keys`.
pub open spec fn goes_before<T: MatrixData>(keys: Seq<T>, i: int, j: int) -> bool {
    if total_le(keys[j], keys[i]) {
        total_le(keys[i], keys[j]) && i < j
    } else {
        true
    }
}

/// `order` lists the positions from `lo` up to `hi`, each once, so that
/// every one goes before all that follow it.
pub open spec fn is_stable_order<T: MatrixData>(
    keys: Seq<T>,
    lo: int,
    hi: int,
    order: Seq<usize>,
) -> bool {
    &&& order.len() == hi - lo
    &&& forall|k: int| 0 <= k < order.len() ==> lo <= #[trigger] order[k] < hi
    &&& forall|k: int, l: int|
        0 <= k < l < order.len() ==> #[trigger] goes_before(
            keys,
            order[k] as int,
            order[l] as int,
        )
    &&& forall|x: usize| lo <= x < hi ==> #[trigger] order.contains(x)
}

/// The positions of `keys` in ascending order of their keys, ties in the
/// order in which they stand in `keys`.
pub open spec fn sorted_order<T: MatrixData>(keys: Seq<T>) -> Seq<usize> {
    choose|order: Seq<usize>| is_stable_order(keys, 0, keys.len() as int, order)
}

/// Two orders of the same positions agree up to `k`.
proof fn lemma_orders_agree<T: MatrixData>(
    keys: Seq<T>,
    lo: int,
    hi: int,
    a: Seq<usize>,
    b: Seq<usize>,
    k: int,
)
    requires
        is_stable_order(keys, lo, hi, a),
        is_stable_order(keys, lo, hi, b),
        0 <= k <= hi - lo,
    ensures
        forall|l: int| 0 <= l < k ==> a[l] == b[l],
    decreases k,
{
    if k > 0 {
        lemma_orders_agree(keys, lo, hi, a, b, k - 1);
        let x = a[k - 1];
        let y = b[k - 1];
        if x != y {
            if goes_before(keys, x as int, y as int) {
                assert(b.contains(x));
                let l = choose|l: int| 0 <= l < b.len() && b[l] == x;
                if l < k - 1 {
                    assert(goes_before(keys, a[l] as int, a[k - 1] as int));
                } else {
                    assert(goes_before(keys, b[k - 1] as int, b[l] as int));
                }
            } else {
                assert(a.contains(y));
                let l = choose|l: int| 0 <= l < a.len() && a[l] == y;
                if l < k - 1 {
                    assert(goes_before(keys, b[l] as int, b[k - 1] as int));
                } else {
                    assert(goes_before(keys, a[k - 1] as int, a[l] as int));
                }
            }
        }
    }
}

/// There is only one stable order.
pub proof fn lemma_stable_order_unique<T: MatrixData>(keys: Seq<T>, order: Seq<usize>)
    requires
        is_stable_order(keys, 0, keys.len() as int, order),
    ensures
        order == sorted_order(keys),
{
    let other = sorted_order(keys);
    lemma_orders_agree(keys, 0, keys.len() as int, order, other, keys.len() as int);
    assert(order =~= other);
}

/// The first place from `k` on in `order` whose key comes after that of
/// position `x`; the length of `order` where there is none.
pub open spec fn place_after<T: MatrixData>(keys: Seq<T>, order: Seq<usize>, x: int, k: int) -> int
    decreases order.len() - k,
{
    if k >= order.len() {
        order.len() as int
    } else if !total_le(keys[order[k] as int], keys[x]) {
        k
    } else {
        place_after(keys, order, x, k + 1)
    }
}

/// `place_after` is a place behind the keys that do not come after that of
/// `x`, and in front of one that does.
proof fn lemma_place_after<T: MatrixData>(keys: Seq<T>, order: Seq<usize>, x: int, k: int)
    requires
        0 <= k <= order.len(),
    ensures
        k <= place_after(keys, order, x, k) <= order.len(),
        forall|i: int|
            k <= i < place_after(keys, order, x, k) ==> total_le(
                keys[#[trigger] order[i] as int],
                keys[x],
            ),
        place_after(keys, order, x, k) < order.len() ==> !total_le(
            keys[order[place_after(keys, order, x, k)] as int],
            keys[x],
        ),
    decreases order.len() - k,
{
    if k < order.len() && total_le(keys[order[k] as int], keys[x]) {
        lemma_place_after(keys, order, x, k + 1);
    }
}

/// The stable order of the first `n` positions of `keys`, built by putting
/// each position behind the keys that do not come after its own.
pub open spec fn order_of_first<T: MatrixData>(keys: Seq<T>, n: int) -> Seq<usize>
    decreases n,
{
    if n <= 0 {
        Seq::empty()
    } else {
        let rest = order_of_first(keys, n - 1);
        rest.insert(place_after(keys, rest, n - 1, 0), (n - 1) as usize)
    }
}

/// `order_of_first` is a stable order.
proof fn lemma_order_of_first<T: MatrixData>(keys: Seq<T>, n: int)
    requires
        0 <= n <= keys.len(),
        n <= usize::MAX,
    ensures
        is_stable_order(keys, 0, n, order_of_first(keys, n)),
    decreases n,
{
    if n > 0 {
        let rest = order_of_first(keys, n - 1);
        lemma_order_of_first(keys, n - 1);
        let x = n - 1;
        let p = place_after(keys, rest, x, 0);
        lemma_place_after(keys, rest, x, 0);
        let order = rest.insert(p, x as usize);
        assert(order == order_of_first(keys, n));
        assert forall|k: int| 0 <= k < order.len() implies 0 <= #[trigger] order[k] < n by {
            if k < p {
                assert(order[k] == rest[k]);
            } else if k > p {
                assert(order[k] == rest[k - 1]);
            }
        }
        assert forall|k: int, l: int| 0 <= k < l < order.len() implies #[trigger] goes_before(
            keys,
            order[k] as int,
            order[l] as int,
        ) by {
            if l < p {
                assert(goes_before(keys, rest[k] as int, rest[l] as int));
            } else if l == p {
                assert(order[k] == rest[k]);
            } else if k < p {
                assert(order[l] == rest[l - 1]);
                assert(goes_before(keys, rest[k] as int, rest[l - 1] as int));
            } else if k == p {
                assert(order[l] == rest[l - 1]);
                if l - 1 > p {
                    assert(goes_before(keys, rest[p] as int, rest[l - 1] as int));
                }
            } else {
                assert(goes_before(keys, rest[k - 1] as int, rest[l - 1] as int));
            }
        }
        assert forall|y: usize| 0 <= y < n implies #[trigger] order.contains(y) by {
            if y == x {
                assert(order[p] == y);
            } else {
                assert(rest.contains(y));
                let k = choose|k: int| 0 <= k < rest.len() && rest[k] == y;
                if k < p {
                    assert(order[k] == y);
                } else {
                    assert(order[k + 1] == y);
                }
            }
        }
    }
}

/// Every column has a stable order, and `sorted_order` is it.
pub proof fn lemma_sorted_order<T: MatrixData>(keys: Seq<T>)
    requires
        keys.len() <= usize::MAX,
    ensures
        is_stable_order(keys, 0, keys.len() as int, sorted_order(keys)),
{
    lemma_order_of_first(keys, keys.len() as int);
}

/// Whether `a` does not come after `b` in the order of `total_le`.
pub fn total_le_exec<T: MatrixData>(a: T, b: T) -> (r: bool)
    ensures
        r == total_le(a, b),
{
    if b.is_nan() {
        true
    } else if a.is_nan() {
        false
    } else {
        a.le(b)
    }
}

/// Merges the orders of two adjoining ranges of positions.
fn merge_orders<T: MatrixData>(
    keys: &[T],
    left: &Vec<usize>,
    right: &Vec<usize>,
    Ghost(lo): Ghost<int>,
    Ghost(mid): Ghost<int>,
    Ghost(hi): Ghost<int>,
) -> (out: Vec<usize>)
    requires
        0 <= lo <= mid <= hi <= keys@.len(),
        is_stable_order(keys@, lo, mid, left@),
        is_stable_order(keys@, mid, hi, right@),
    ensures
        is_stable_order(keys@, lo, hi, out@),
{
    let mut out: Vec<usize> = Vec::new();
    let mut i: usize = 0;
    let mut j: usize = 0;
    while i < left.len() || j < right.len()
        invariant
            0 <= lo <= mid <= hi <= keys@.len(),
            is_stable_order(keys@, lo, mid, left@),
            is_stable_order(keys@, mid, hi, right@),
            i <= left.len(),
            j <= right.len(),
            out.len() == i + j,
            forall|k: int| 0 <= k < out.len() ==> lo <= #[trigger] out@[k] < hi,
            forall|k: int, l: int|
                0 <= k < l < out.len() ==> #[trigger] goes_before(
                    keys@,
                    out@[k] as int,
                    out@[l] as int,
                ),
            forall|k: int, a: int|
                0 <= k < out.len() && i <= a < left.len() ==> #[trigger] goes_before(
                    keys@,
                    out@[k] as int,
                    left@[a] as int,
                ),
            forall|k: int, b: int|
                0 <= k < out.len() && j <= b < right.len() ==> #[trigger] goes_before(
                    keys@,
                    out@[k] as int,
                    right@[b] as int,
                ),
            forall|a: int| 0 <= a < i ==> out@.contains(#[trigger] left@[a]),
            forall|b: int| 0 <= b < j ==> out@.contains(#[trigger] right@[b]),
        decreases left.len() - i + right.len() - j,
    {
        let take_left: bool = if i >= left.len() {
            false
        } else if j >= right.len() {
            true
        } else {
            total_le_exec(keys[left[i]], keys[right[j]])
        };
        let ghost before = out@;
        if take_left {
            let e: usize = left[i];
            proof {
                assert forall|a: int| i + 1 <= a < left.len() implies #[trigger] goes_before(
                    keys@,
                    e as int,
                    left@[a] as int,
                ) by {
                    assert(goes_before(keys@, left@[i as int] as int, left@[a] as int));
                }
                assert forall|b: int| j <= b < right.len() implies #[trigger] goes_before(
                    keys@,
                    e as int,
                    right@[b] as int,
                ) by {
                    assert(mid <= right@[b]);
                    assert(e < mid);
                    if b > j {
                        assert(goes_before(keys@, right@[j as int] as int, right@[b] as int));
                    }
                }
            }
            out.push(e);
            i = i + 1;
        } else {
            let e: usize = right[j];
            proof {
                assert forall|b: int| j + 1 <= b < right.len() implies #[trigger] goes_before(
                    keys@,
                    e as int,
                    right@[b] as int,
                ) by {
                    assert(goes_before(keys@, right@[j as int] as int, right@[b] as int));
                }
                assert forall|a: int| i <= a < left.len() implies #[trigger] goes_before(
                    keys@,
                    e as int,
                    left@[a] as int,
                ) by {
                    assert(left@[a] < mid);
                    assert(mid <= e);
                    if a > i {
                        assert(goes_before(keys@, left@[i as int] as int, left@[a] as int));
                    }
                }
            }
            out.push(e);
            j = j + 1;
        }
        proof {
            let added = out@[out.len() - 1];
            assert(out@ == before.push(added));
            assert forall|a: int| 0 <= a < i implies out@.contains(#[trigger] left@[a]) by {
                if before.contains(left@[a]) {
                    let k = choose|k: int| 0 <= k < before.len() && before[k] == left@[a];
                    assert(out@[k] == left@[a]);
                } else {
                    assert(out@[out.len() - 1] == left@[a]);
                }
            }
            assert forall|b: int| 0 <= b < j implies out@.contains(#[trigger] right@[b]) by {
                if before.contains(right@[b]) {
                    let k = choose|k: int| 0 <= k < before.len() && before[k] == right@[b];
                    assert(out@[k] == right@[b]);
                } else {
                    assert(out@[out.len() - 1] == right@[b]);
                }
            }
        }
    }
    proof {
        assert forall|x: usize| lo <= x < hi implies #[trigger] out@.contains(x) by {
            if x < mid {
                assert(left@.contains(x));
                let a = choose|a: int| 0 <= a < left@.len() && left@[a] == x;
                assert(out@.contains(left@[a]));
            } else {
                assert(right@.contains(x));
                let b = choose|b: int| 0 <= b < right@.len() && right@[b] == x;
                assert(out@.contains(right@[b]));
            }
        }
    }
    out
}

/// The stable order of the positions from `lo` up to `hi`, by merge sort.
fn sort_range<T: MatrixData>(keys: &[T], lo: usize, hi: usize) -> (order: Vec<usize>)
    requires
        lo <= hi <= keys@.len(),
    ensures
        is_stable_order(keys@, lo as int, hi as int, order@),
    decreases hi - lo,
{
    let mut order: Vec<usize> = Vec::new();
    if hi - lo == 0 {
        return order;
    }
    if hi - lo == 1 {
        order.push(lo);
        proof {
            assert(order@[0] == lo);
            assert forall|x: usize| lo <= x < hi implies #[trigger] order@.contains(x) by {
                assert(order@[0] == x);
            }
        }
        return order;
    }
    let mid: usize = lo + (hi - lo) / 2;
    let left = sort_range(keys, lo, mid);
    let right = sort_range(keys, mid, hi);
    merge_orders(keys, &left, &right, Ghost(lo as int), Ghost(mid as int), Ghost(hi as int))
}

/// The positions of `keys` in ascending order of their keys. Values that are
/// not numbers come last, and ties keep the order in which they stand.
pub fn sort_indices<T: MatrixData>(keys: &[T]) -> (order: Vec<usize>)
    ensures
        order@ == sorted_order(keys@),
        is_stable_order(keys@, 0, keys@.len() as int, order@),
{
    let order = sort_range(keys, 0, keys.len());
    proof {
        lemma_stable_order_unique(keys@, order@);
    }
    order
}

/// No item is greater than one behind it.
pub open spec fn is_ascending<T: MatrixData>(s: Seq<T>) -> bool {
    forall|i: int, j: int| 0 <= i < j < s.len() ==> le_spec(#[trigger] s[i], #[trigger] s[j])
}

/// Every item is smaller than all behind it.
pub open spec fn is_strictly_ascending<T: MatrixData>(s: Seq<T>) -> bool {
    forall|i: int, j: int| 0 <= i < j < s.len() ==> lt_spec(#[trigger] s[i], #[trigger] s[j])
}

/// The values of `v` in ascending order.
pub open spec fn sorted_values<T: MatrixData>(v: Seq<T>) -> Seq<T> {
    Seq::new(v.len(), |k: int| v[sorted_order(v)[k] as int])
}

/// `s` without the items that equal the last one kept before them.
pub open spec fn dedup<T: MatrixData>(s: Seq<T>) -> Seq<T>
    decreases s.len(),
{
    if s.len() == 0 {
        Seq::empty()
    } else {
        let kept = dedup(s.drop_last());
        if kept.len() > 0 && eq_spec(kept.last(), s.last()) {
            kept
        } else {
            kept.push(s.last())
        }
    }
}

/// The distinct values of `v` in ascending order: of each run of equal
/// values in the sorted column, the first.
pub open spec fn distinct_values<T: MatrixData>(v: Seq<T>) -> Seq<T> {
    dedup(sorted_values(v))
}

/// No item of `s` is not a number.
pub open spec fn all_numbers<T: MatrixData>(s: Seq<T>) -> bool {
    forall|i: int| 0 <= i < s.len() ==> !(#[trigger] s[i]).is_nan_spec()
}

/// Some item of `s` equals `x`.
pub open spec fn has_equal<T: MatrixData>(s: Seq<T>, x: T) -> bool {
    exists|k: int| 0 <= k < s.len() && eq_spec(#[trigger] s[k], x)
}

/// The sorted values are the values, each row once, and where all are
/// numbers they ascend.
pub proof fn lemma_sorted_values<T: MatrixData>(v: Seq<T>)
    requires
        v.len() <= usize::MAX,
    ensures
        sorted_values(v).len() == v.len(),
        forall|k: int| 0 <= k < v.len() ==> v.contains(#[trigger] sorted_values(v)[k]),
        forall|i: int| 0 <= i < v.len() ==> sorted_values(v).contains(#[trigger] v[i]),
        all_numbers(v) ==> all_numbers(sorted_values(v)) && is_ascending(sorted_values(v)),
{
    let order = sorted_order(v);
    let s = sorted_values(v);
    lemma_sorted_order(v);
    assert forall|k: int| 0 <= k < v.len() implies v.contains(#[trigger] s[k]) by {
        assert(v[order[k] as int] == s[k]);
    }
    assert forall|i: int| 0 <= i < v.len() implies s.contains(#[trigger] v[i]) by {
        assert(order.contains(i as usize));
        let k = choose|k: int| 0 <= k < order.len() && order[k] == i as usize;
        assert(s[k] == v[i]);
    }
    if all_numbers(v) {
        assert forall|k: int, l: int| 0 <= k < l < s.len() implies le_spec(
            #[trigger] s[k],
            #[trigger] s[l],
        ) by {
            assert(goes_before(v, order[k] as int, order[l] as int));
        }
    }
}

/// What removing repeated values keeps, of any sequence.
pub proof fn lemma_dedup_keeps<T: MatrixData>(s: Seq<T>)
    ensures
        dedup(s).len() <= s.len(),
        s.len() > 0 ==> dedup(s).len() > 0,
        s.len() > 0 ==> dedup(s).last() == s.last() || eq_spec(dedup(s).last(), s.last()),
        forall|k: int| 0 <= k < dedup(s).len() ==> s.contains(#[trigger] dedup(s)[k]),
    decreases s.len(),
{
    if s.len() > 0 {
        let rest = s.drop_last();
        lemma_dedup_keeps(rest);
        let kept = dedup(rest);
        assert forall|k: int| 0 <= k < dedup(s).len() implies s.contains(#[trigger] dedup(s)[k]) by {
            if k < kept.len() {
                assert(rest.contains(kept[k]));
                let i = choose|i: int| 0 <= i < rest.len() && rest[i] == kept[k];
                assert(s[i] == kept[k]);
            } else {
                assert(s[s.len() - 1] == dedup(s)[k]);
            }
        }
    }
}

/// Ascending numbers without their last are ascending numbers.
proof fn lemma_drop_last_ascending<T: MatrixData>(s: Seq<T>)
    requires
        s.len() > 0,
        all_numbers(s),
        is_ascending(s),
    ensures
        all_numbers(s.drop_last()),
        is_ascending(s.drop_last()),
        s.len() > 1 ==> le_spec(s.drop_last().last(), s.last()),
{
    let rest = s.drop_last();
    assert forall|i: int| 0 <= i < rest.len() implies !(#[trigger] rest[i]).is_nan_spec() by {
        assert(rest[i] == s[i]);
    }
    assert forall|i: int, j: int| 0 <= i < j < rest.len() implies le_spec(
        #[trigger] rest[i],
        #[trigger] rest[j],
    ) by {
        assert(le_spec(s[i], s[j]));
    }
    if s.len() > 1 {
        assert(le_spec(s[s.len() - 2], s[s.len() - 1]));
    }
}

/// A strictly ascending sequence with a greater value behind it is strictly
/// ascending.
proof fn lemma_push_greater<T: MatrixData>(d: Seq<T>, x: T)
    requires
        is_strictly_ascending(d),
        d.len() > 0 ==> lt_spec(d.last(), x),
    ensures
        is_strictly_ascending(d.push(x)),
{
    let e = d.push(x);
    assert forall|i: int, j: int| 0 <= i < j < e.len() implies lt_spec(
        #[trigger] e[i],
        #[trigger] e[j],
    ) by {
        if j < d.len() {
            assert(lt_spec(d[i], d[j]));
        } else if i < d.len() - 1 {
            assert(lt_spec(d[i], d[d.len() - 1]));
        }
    }
}

/// Of ascending numbers, removing repeated values leaves one of each value,
/// strictly ascending.
pub proof fn lemma_dedup_ascending<T: MatrixData>(s: Seq<T>)
    requires
        all_numbers(s),
        is_ascending(s),
    ensures
        all_numbers(dedup(s)),
        is_strictly_ascending(dedup(s)),
        s.len() > 0 ==> dedup(s).len() > 0 && eq_spec(dedup(s).last(), s.last()),
        forall|i: int| 0 <= i < s.len() ==> has_equal(dedup(s), #[trigger] s[i]),
    decreases s.len(),
{
    if s.len() > 0 {
        let rest = s.drop_last();
        let kept = dedup(rest);
        let d = dedup(s);
        lemma_drop_last_ascending(s);
        lemma_dedup_ascending(rest);
        assert(!s.last().is_nan_spec());
        if kept.len() > 0 && eq_spec(kept.last(), s.last()) {
            assert(d == kept);
        } else {
            assert(d == kept.push(s.last()));
            if kept.len() > 0 {
                assert(eq_spec(kept.last(), rest.last()));
                assert(lt_spec(kept.last(), s.last()));
            }
            lemma_push_greater(kept, s.last());
        }
        assert(eq_spec(d.last(), s.last()));
        assert forall|i: int| 0 <= i < s.len() implies has_equal(d, #[trigger] s[i]) by {
            if i < rest.len() {
                assert(has_equal(kept, rest[i]));
                let k = choose|k: int| 0 <= k < kept.len() && eq_spec(kept[k], rest[i]);
                assert(eq_spec(d[k], s[i]));
            } else {
                assert(eq_spec(d[d.len() - 1], s[i]));
            }
        }
    }
}

/// Removing repeated values changes nothing where every value is smaller
/// than all behind it.
pub proof fn lemma_dedup_of_distinct<T: MatrixData>(s: Seq<T>)
    requires
        is_strictly_ascending(s),
    ensures
        dedup(s) == s,
    decreases s.len(),
{
    if s.len() > 0 {
        let rest = s.drop_last();
        assert forall|i: int, j: int| 0 <= i < j < rest.len() implies lt_spec(
            #[trigger] rest[i],
            #[trigger] rest[j],
        ) by {
            assert(lt_spec(s[i], s[j]));
        }
        lemma_dedup_of_distinct(rest);
        if rest.len() > 0 {
            assert(lt_spec(s[rest.len() - 1], s[s.len() - 1]));
        }
        assert(rest.push(s.last()) == s);
    } else {
        assert(s == Seq::<T>::empty());
    }
}

/// Where all values are equal, one is kept.
pub proof fn lemma_dedup_of_equal<T: MatrixData>(s: Seq<T>)
    requires
        forall|i: int, j: int| 0 <= i < s.len() && 0 <= j < s.len() ==> eq_spec(s[i], s[j]),
    ensures
        dedup(s).len() <= 1,
    decreases s.len(),
{
    if s.len() > 0 {
        let rest = s.drop_last();
        assert forall|i: int, j: int| 0 <= i < rest.len() && 0 <= j < rest.len() implies eq_spec(
            rest[i],
            rest[j],
        ) by {
            assert(eq_spec(s[i], s[j]));
        }
        lemma_dedup_of_equal(rest);
        lemma_dedup_keeps(rest);
        let kept = dedup(rest);
        if kept.len() > 0 {
            assert(rest.contains(kept[kept.len() - 1]));
            let i = choose|i: int| 0 <= i < rest.len() && rest[i] == kept[kept.len() - 1];
            assert(eq_spec(s[i], s[s.len() - 1]));
        }
    }
}

/// The values of `v` in ascending order.
pub fn sorted_copy<T: MatrixData>(v: &[T]) -> (s: Vec<T>)
    ensures
        s@ == sorted_values(v@),
{
    let order = sort_indices(v);
    let n: usize = v.len();
    let mut s: Vec<T> = Vec::new();
    let mut k: usize = 0;
    while k < n
        invariant
            n == v@.len(),
            order@ == sorted_order(v@),
            is_stable_order(v@, 0, n as int, order@),
            k <= n,
            s@.len() == k,
            forall|i: int| 0 <= i < k ==> #[trigger] s@[i] == sorted_values(v@)[i],
        decreases n - k,
    {
        s.push(v[order[k]]);
        k = k + 1;
    }
    proof {
        assert(s@ =~= sorted_values(v@));
    }
    s
}

/// `s` without the items that equal the last one kept before them.
pub fn dedup_values<T: MatrixData>(s: &Vec<T>) -> (d: Vec<T>)
    ensures
        d@ == dedup(s@),
{
    let n: usize = s.len();
    let mut d: Vec<T> = Vec::new();
    let mut i: usize = 0;
    proof {
        assert(s@.take(0) =~= Seq::<T>::empty());
    }
    while i < n
        invariant
            n == s@.len(),
            i <= n,
            d@ == dedup(s@.take(i as int)),
        decreases n - i,
    {
        proof {
            assert(s@.take(i + 1).drop_last() == s@.take(i as int));
        }
        let m: usize = d.len();
        if m == 0 || !d[m - 1].eq(s[i]) {
            d.push(s[i]);
        }
        i = i + 1;
    }
    proof {
        assert(s@.take(n as int) == s@);
    }
    d
}

} // verus!
