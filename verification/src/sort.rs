//! Stable ordering of items by a text key.
//!
//! An ordering is a sequence of positions: the item to place first, the item
//! to place second, and so on. Keys ascend along it, and items with equal
//! keys keep the order in which they were given.

use vstd::prelude::*;
use crate::text::{
    lemma_text_lt_asymmetric, lemma_text_lt_transitive, lemma_text_total, sorts_before, text_le,
    text_lt,
};

verus! {

/// The key texts held by a vector of keys.
pub open spec fn texts(keys: Seq<Vec<char>>) -> Seq<Seq<char>> {
    Seq::new(keys.len(), |i: int| keys[i]@)
}

/// The item at position `i` is placed before the item at position `j`: its
/// key is smaller, or the keys are equal and it was given first.
pub open spec fn comes_before(keys: Seq<Seq<char>>, i: int, j: int) -> bool {
    text_lt(keys[i], keys[j]) || (keys[i] == keys[j] && i < j)
}

/// `order` arranges the positions from `lo` up to `hi`: each of them occurs
/// in it, and each entry is placed before all that follow it.
pub open spec fn orders_range(order: Seq<usize>, keys: Seq<Seq<char>>, lo: int, hi: int) -> bool {
    &&& 0 <= lo <= hi <= keys.len()
    &&& keys.len() <= usize::MAX
    &&& order.len() == hi - lo
    &&& forall|k: int| 0 <= k < order.len() ==> lo <= (#[trigger] order[k] as int) < hi
    &&& forall|j: int| lo <= j < hi ==> #[trigger] order.contains(j as usize)
    &&& forall|a: int, b: int|
        0 <= a < b < order.len() ==> comes_before(
            keys,
            #[trigger] order[a] as int,
            #[trigger] order[b] as int,
        )
}

/// `order` is the stable ascending arrangement of all positions of `keys`.
pub open spec fn is_stable_order(order: Seq<usize>, keys: Seq<Seq<char>>) -> bool {
    orders_range(order, keys, 0, keys.len() as int)
}

/// The items of `items` in the arrangement `order`.
pub open spec fn arranged<T>(items: Seq<T>, order: Seq<usize>) -> Seq<T> {
    Seq::new(order.len(), |k: int| items[order[k] as int])
}

/// Placing position `n` at index `p` of an arrangement of the first `n`
/// positions arranges the first `n + 1`, if every entry from `p` on has a
/// larger key than `n` and the entry before `p` has not.
proof fn lemma_insert_keeps_order(order: Seq<usize>, keys: Seq<Seq<char>>, n: usize, p: int)
    requires
        orders_range(order, keys, 0, n as int),
        n < keys.len() <= usize::MAX,
        0 <= p <= order.len(),
        forall|k: int| p <= k < order.len() ==> text_lt(keys[n as int], keys[#[trigger] order[k] as int]),
        p > 0 ==> !text_lt(keys[n as int], keys[order[p - 1] as int]),
    ensures
        orders_range(order.insert(p, n), keys, 0, n + 1),
{
    let next = order.insert(p, n);
    assert forall|k: int| 0 <= k < p implies !text_lt(
        keys[n as int],
        keys[#[trigger] order[k] as int],
    ) by {
        let last = order[p - 1] as int;
        let here = order[k] as int;
        if text_lt(keys[n as int], keys[here]) && k < p - 1 {
            assert(comes_before(keys, here, last));
            if keys[here] != keys[last] {
                lemma_text_lt_transitive(keys[n as int], keys[here], keys[last]);
            }
        }
    }
    assert forall|j: int| 0 <= j < n + 1 implies #[trigger] next.contains(j as usize) by {
        if j == n {
            assert(next[p] == n);
        } else {
            assert(order.contains(j as usize));
            let k = choose|k: int| 0 <= k < order.len() && order[k] == j as usize;
            if k < p {
                assert(next[k] == j as usize);
            } else {
                assert(next[k + 1] == j as usize);
            }
        }
    }
    assert forall|a: int, b: int| 0 <= a < b < next.len() implies comes_before(
        keys,
        #[trigger] next[a] as int,
        #[trigger] next[b] as int,
    ) by {
        if a == p {
            assert(next[b] == order[b - 1]);
        } else if b == p {
            assert(next[a] == order[a]);
            lemma_text_total(keys[n as int], keys[order[a] as int]);
        } else {
            let oa = if a < p { a } else { a - 1 };
            let ob = if b < p { b } else { b - 1 };
            assert(next[a] == order[oa]);
            assert(next[b] == order[ob]);
        }
    }
}

/// Of two distinct positions, exactly one comes before the other; no
/// position comes before itself.
pub proof fn lemma_comes_before_strict(keys: Seq<Seq<char>>, i: int, j: int)
    ensures
        !comes_before(keys, i, i),
        comes_before(keys, i, j) ==> !comes_before(keys, j, i),
        i != j ==> comes_before(keys, i, j) || comes_before(keys, j, i),
{
    lemma_text_total(keys[i], keys[j]);
    if text_lt(keys[i], keys[j]) {
        lemma_text_lt_asymmetric(keys[i], keys[j]);
    }
    if text_lt(keys[j], keys[i]) {
        lemma_text_lt_asymmetric(keys[j], keys[i]);
    }
    if text_lt(keys[i], keys[i]) {
        lemma_text_lt_asymmetric(keys[i], keys[i]);
    }
}

/// Taking the position `n - 1` out of an arrangement of the first `n`
/// positions leaves an arrangement of the first `n - 1`.
proof fn lemma_remove_keeps_order(order: Seq<usize>, keys: Seq<Seq<char>>, n: int, p: int)
    requires
        orders_range(order, keys, 0, n),
        0 <= p < order.len(),
        order[p] as int == n - 1,
    ensures
        orders_range(order.remove(p), keys, 0, n - 1),
{
    let rest = order.remove(p);
    assert forall|k: int| 0 <= k < rest.len() implies (#[trigger] rest[k] as int) < n - 1 by {
        let ok = if k < p { k } else { k + 1 };
        assert(rest[k] == order[ok]);
        lemma_comes_before_strict(keys, order[ok] as int, order[p] as int);
        if ok < p {
            assert(comes_before(keys, order[ok] as int, order[p] as int));
        } else {
            assert(comes_before(keys, order[p] as int, order[ok] as int));
        }
    }
    assert forall|j: int| 0 <= j < n - 1 implies #[trigger] rest.contains(j as usize) by {
        assert(order.contains(j as usize));
        let k = choose|k: int| 0 <= k < order.len() && order[k] == j as usize;
        if k < p {
            assert(rest[k] == j as usize);
        } else {
            assert(rest[k - 1] == j as usize);
        }
    }
    assert forall|a: int, b: int| 0 <= a < b < rest.len() implies comes_before(
        keys,
        #[trigger] rest[a] as int,
        #[trigger] rest[b] as int,
    ) by {
        let oa = if a < p { a } else { a + 1 };
        let ob = if b < p { b } else { b + 1 };
        assert(rest[a] == order[oa]);
        assert(rest[b] == order[ob]);
    }
}

/// The first `n` positions have one arrangement only.
pub proof fn lemma_arrangement_unique(
    first: Seq<usize>,
    second: Seq<usize>,
    keys: Seq<Seq<char>>,
    n: int,
)
    requires
        orders_range(first, keys, 0, n),
        orders_range(second, keys, 0, n),
    ensures
        first == second,
    decreases n,
{
    if n <= 0 {
        assert(first =~= second);
    } else {
        let top = (n - 1) as usize;
        assert(first.contains(top));
        assert(second.contains(top));
        let p = choose|k: int| 0 <= k < first.len() && first[k] == top;
        let q = choose|k: int| 0 <= k < second.len() && second[k] == top;
        let rest = first.remove(p);
        lemma_remove_keeps_order(first, keys, n, p);
        lemma_remove_keeps_order(second, keys, n, q);
        lemma_arrangement_unique(rest, second.remove(q), keys, n - 1);
        if p < q {
            assert(rest[p] == first[p + 1]);
            assert(second.remove(q)[p] == second[p]);
            assert(comes_before(keys, first[p] as int, first[p + 1] as int));
            assert(comes_before(keys, second[p] as int, second[q] as int));
            lemma_comes_before_strict(keys, top as int, second[p] as int);
        } else if q < p {
            assert(rest[q] == first[q]);
            assert(second.remove(q)[q] == second[q + 1]);
            assert(comes_before(keys, first[q] as int, first[p] as int));
            assert(comes_before(keys, second[q] as int, second[q + 1] as int));
            lemma_comes_before_strict(keys, top as int, first[q] as int);
        }
        assert(first =~= rest.insert(p, top));
        assert(second =~= second.remove(q).insert(q, top));
    }
}

/// A sequence of keys has exactly one stable ascending arrangement.
pub proof fn lemma_stable_order_unique(first: Seq<usize>, second: Seq<usize>, keys: Seq<Seq<char>>)
    requires
        is_stable_order(first, keys),
        is_stable_order(second, keys),
    ensures
        first == second,
{
    lemma_arrangement_unique(first, second, keys, keys.len() as int);
}

/// Where a new key goes into an arrangement: behind the last entry whose key
/// is not larger.
spec fn insertion_point(order: Seq<usize>, keys: Seq<Seq<char>>, key: Seq<char>) -> int
    decreases order.len(),
{
    if order.len() == 0 {
        0
    } else if text_lt(key, keys[order.last() as int]) {
        insertion_point(order.drop_last(), keys, key)
    } else {
        order.len() as int
    }
}

/// Every entry from the insertion point on has a larger key than `key`, and
/// the entry before it has not.
proof fn lemma_insertion_point(order: Seq<usize>, keys: Seq<Seq<char>>, key: Seq<char>)
    ensures
        0 <= insertion_point(order, keys, key) <= order.len(),
        forall|k: int|
            insertion_point(order, keys, key) <= k < order.len() ==> text_lt(
                key,
                keys[#[trigger] order[k] as int],
            ),
        insertion_point(order, keys, key) > 0 ==> !text_lt(
            key,
            keys[order[insertion_point(order, keys, key) - 1] as int],
        ),
    decreases order.len(),
{
    if order.len() > 0 && text_lt(key, keys[order.last() as int]) {
        let front = order.drop_last();
        lemma_insertion_point(front, keys, key);
        let p = insertion_point(front, keys, key);
        assert forall|k: int| p <= k < order.len() implies text_lt(
            key,
            keys[#[trigger] order[k] as int],
        ) by {
            if k < front.len() {
                assert(front[k] == order[k]);
            }
        }
        if p > 0 {
            assert(front[p - 1] == order[p - 1]);
        }
    }
}

/// The first `n` positions of any keys have an arrangement.
pub proof fn lemma_arrangement_exists(keys: Seq<Seq<char>>, n: int)
    requires
        0 <= n <= keys.len() <= usize::MAX,
    ensures
        exists|order: Seq<usize>| orders_range(order, keys, 0, n),
    decreases n,
{
    if n == 0 {
        assert(orders_range(Seq::<usize>::empty(), keys, 0, 0));
    } else {
        let m = n - 1;
        lemma_arrangement_exists(keys, m);
        let order = choose|order: Seq<usize>| orders_range(order, keys, 0, m);
        let p = insertion_point(order, keys, keys[m]);
        lemma_insertion_point(order, keys, keys[m]);
        lemma_insert_keeps_order(order, keys, m as usize, p);
        assert(orders_range(order.insert(p, m as usize), keys, 0, n));
    }
}

/// The stable ascending arrangement of the positions of `keys`.
pub open spec fn sorted_positions(keys: Seq<Seq<char>>) -> Seq<usize> {
    choose|order: Seq<usize>| is_stable_order(order, keys)
}

/// `items` in the stable ascending order of their `keys`.
pub open spec fn stable_sorted<T>(items: Seq<T>, keys: Seq<Seq<char>>) -> Seq<T> {
    arranged(items, sorted_positions(keys))
}

/// `sorted_positions` is a stable ascending arrangement, and the only one.
pub proof fn lemma_sorted_positions(keys: Seq<Seq<char>>)
    requires
        keys.len() <= usize::MAX,
    ensures
        is_stable_order(sorted_positions(keys), keys),
        forall|order: Seq<usize>| is_stable_order(order, keys) ==> order == sorted_positions(keys),
{
    let n = keys.len() as int;
    lemma_arrangement_exists(keys, n);
    let witness = choose|order: Seq<usize>| orders_range(order, keys, 0, n);
    assert(is_stable_order(witness, keys));
    assert forall|order: Seq<usize>| is_stable_order(order, keys) implies order
        == sorted_positions(keys) by {
        lemma_stable_order_unique(order, sorted_positions(keys), keys);
    }
}

/// What sorting gives: every item exactly once, keys ascending, and items
/// with equal keys in the order in which they were given.
pub proof fn lemma_stable_sorted<T>(items: Seq<T>, keys: Seq<Seq<char>>)
    requires
        items.len() == keys.len() <= usize::MAX,
    ensures
        stable_sorted(items, keys).len() == items.len(),
        forall|k: int| 0 <= k < items.len() ==> (#[trigger] sorted_positions(keys)[k] as int)
            < items.len() && stable_sorted(items, keys)[k] == items[sorted_positions(keys)[k] as int],
        forall|j: int| 0 <= j < items.len() ==> #[trigger] sorted_positions(keys).contains(j as usize),
        forall|a: int, b: int| 0 <= a < b < items.len() ==> (#[trigger] sorted_positions(keys)[a])
            != (#[trigger] sorted_positions(keys)[b]),
        forall|a: int, b: int| 0 <= a < b < items.len() ==> text_le(
            keys[#[trigger] sorted_positions(keys)[a] as int],
            keys[#[trigger] sorted_positions(keys)[b] as int],
        ),
        forall|a: int, b: int| 0 <= a < b < items.len() && keys[#[trigger] sorted_positions(keys)[a] as int]
            == keys[#[trigger] sorted_positions(keys)[b] as int] ==> sorted_positions(keys)[a]
            < sorted_positions(keys)[b],
{
    let order = sorted_positions(keys);
    lemma_sorted_positions(keys);
    assert forall|a: int, b: int| 0 <= a < b < items.len() implies (#[trigger] order[a])
        != (#[trigger] order[b]) && text_le(keys[order[a] as int], keys[order[b] as int]) && (keys[order[a] as int]
        == keys[order[b] as int] ==> order[a] < order[b]) by {
        assert(comes_before(keys, order[a] as int, order[b] as int));
        lemma_comes_before_strict(keys, order[a] as int, order[b] as int);
        if text_lt(keys[order[a] as int], keys[order[b] as int]) {
            lemma_text_lt_asymmetric(keys[order[a] as int], keys[order[b] as int]);
        }
    }
}

/// Placement is transitive.
pub proof fn lemma_comes_before_transitive(keys: Seq<Seq<char>>, i: int, j: int, k: int)
    requires
        comes_before(keys, i, j),
        comes_before(keys, j, k),
    ensures
        comes_before(keys, i, k),
{
    if text_lt(keys[i], keys[j]) && text_lt(keys[j], keys[k]) {
        lemma_text_lt_transitive(keys[i], keys[j], keys[k]);
    }
}

/// What a merge has put out so far: `i` entries of `left` and `j` of
/// `right`, in order, each placed before every entry still to come.
spec fn merged_so_far(
    out: Seq<usize>,
    left: Seq<usize>,
    right: Seq<usize>,
    keys: Seq<Seq<char>>,
    i: int,
    j: int,
) -> bool {
    &&& 0 <= i <= left.len()
    &&& 0 <= j <= right.len()
    &&& out.len() == i + j
    &&& forall|k: int| 0 <= k < out.len() ==> left.contains(#[trigger] out[k]) || right.contains(out[k])
    &&& forall|x: int| 0 <= x < i ==> out.contains(#[trigger] left[x])
    &&& forall|y: int| 0 <= y < j ==> out.contains(#[trigger] right[y])
    &&& forall|a: int, b: int|
        0 <= a < b < out.len() ==> comes_before(
            keys,
            #[trigger] out[a] as int,
            #[trigger] out[b] as int,
        )
    &&& forall|k: int, x: int|
        0 <= k < out.len() && i <= x < left.len() ==> comes_before(
            keys,
            #[trigger] out[k] as int,
            #[trigger] left[x] as int,
        )
    &&& forall|k: int, y: int|
        0 <= k < out.len() && j <= y < right.len() ==> comes_before(
            keys,
            #[trigger] out[k] as int,
            #[trigger] right[y] as int,
        )
}

/// Putting out the next entry of `left` keeps a merge in order, if the next
/// entry of `right`, where there is one, has no smaller key.
proof fn lemma_take_left(
    out: Seq<usize>,
    left: Seq<usize>,
    right: Seq<usize>,
    keys: Seq<Seq<char>>,
    lo: int,
    mid: int,
    hi: int,
    i: int,
    j: int,
)
    requires
        orders_range(left, keys, lo, mid),
        orders_range(right, keys, mid, hi),
        merged_so_far(out, left, right, keys, i, j),
        i < left.len(),
        j < right.len() ==> !text_lt(keys[right[j] as int], keys[left[i] as int]),
    ensures
        merged_so_far(out.push(left[i]), left, right, keys, i + 1, j),
{
    let e = left[i];
    let next = out.push(e);
    assert forall|k: int| 0 <= k < next.len() implies left.contains(#[trigger] next[k])
        || right.contains(next[k]) by {
        if k < out.len() {
            assert(next[k] == out[k]);
        }
    }
    assert forall|x: int| 0 <= x < i + 1 implies next.contains(#[trigger] left[x]) by {
        if x < i {
            let k = choose|k: int| 0 <= k < out.len() && out[k] == left[x];
            assert(next[k] == left[x]);
        } else {
            assert(next[out.len() as int] == left[x]);
        }
    }
    assert forall|y: int| 0 <= y < j implies next.contains(#[trigger] right[y]) by {
        let k = choose|k: int| 0 <= k < out.len() && out[k] == right[y];
        assert(next[k] == right[y]);
    }
    assert forall|a: int, b: int| 0 <= a < b < next.len() implies comes_before(
        keys,
        #[trigger] next[a] as int,
        #[trigger] next[b] as int,
    ) by {
        assert(next[a] == out[a]);
        if b < out.len() {
            assert(next[b] == out[b]);
        }
    }
    assert forall|k: int, x: int| 0 <= k < next.len() && i + 1 <= x < left.len() implies comes_before(
        keys,
        #[trigger] next[k] as int,
        #[trigger] left[x] as int,
    ) by {
        if k < out.len() {
            assert(next[k] == out[k]);
        } else {
            assert(comes_before(keys, left[i] as int, left[x] as int));
        }
    }
    assert forall|k: int, y: int| 0 <= k < next.len() && j <= y < right.len() implies comes_before(
        keys,
        #[trigger] next[k] as int,
        #[trigger] right[y] as int,
    ) by {
        if k < out.len() {
            assert(next[k] == out[k]);
        } else {
            lemma_text_total(keys[right[j] as int], keys[e as int]);
            assert(lo <= (left[i] as int) < mid);
            assert(mid <= (right[j] as int) < hi);
            assert(comes_before(keys, e as int, right[j] as int));
            if j < y {
                assert(comes_before(keys, right[j] as int, right[y] as int));
                lemma_comes_before_transitive(keys, e as int, right[j] as int, right[y] as int);
            }
        }
    }
}

/// Putting out the next entry of `right` keeps a merge in order, if the next
/// entry of `left`, where there is one, has a larger key.
proof fn lemma_take_right(
    out: Seq<usize>,
    left: Seq<usize>,
    right: Seq<usize>,
    keys: Seq<Seq<char>>,
    lo: int,
    mid: int,
    hi: int,
    i: int,
    j: int,
)
    requires
        orders_range(left, keys, lo, mid),
        orders_range(right, keys, mid, hi),
        merged_so_far(out, left, right, keys, i, j),
        j < right.len(),
        i < left.len() ==> text_lt(keys[right[j] as int], keys[left[i] as int]),
    ensures
        merged_so_far(out.push(right[j]), left, right, keys, i, j + 1),
{
    let e = right[j];
    let next = out.push(e);
    assert forall|k: int| 0 <= k < next.len() implies left.contains(#[trigger] next[k])
        || right.contains(next[k]) by {
        if k < out.len() {
            assert(next[k] == out[k]);
        }
    }
    assert forall|x: int| 0 <= x < i implies next.contains(#[trigger] left[x]) by {
        let k = choose|k: int| 0 <= k < out.len() && out[k] == left[x];
        assert(next[k] == left[x]);
    }
    assert forall|y: int| 0 <= y < j + 1 implies next.contains(#[trigger] right[y]) by {
        if y < j {
            let k = choose|k: int| 0 <= k < out.len() && out[k] == right[y];
            assert(next[k] == right[y]);
        } else {
            assert(next[out.len() as int] == right[y]);
        }
    }
    assert forall|a: int, b: int| 0 <= a < b < next.len() implies comes_before(
        keys,
        #[trigger] next[a] as int,
        #[trigger] next[b] as int,
    ) by {
        assert(next[a] == out[a]);
        if b < out.len() {
            assert(next[b] == out[b]);
        }
    }
    assert forall|k: int, x: int| 0 <= k < next.len() && i <= x < left.len() implies comes_before(
        keys,
        #[trigger] next[k] as int,
        #[trigger] left[x] as int,
    ) by {
        if k < out.len() {
            assert(next[k] == out[k]);
        } else {
            assert(comes_before(keys, e as int, left[i] as int));
            if i < x {
                assert(comes_before(keys, left[i] as int, left[x] as int));
                lemma_comes_before_transitive(keys, e as int, left[i] as int, left[x] as int);
            }
        }
    }
    assert forall|k: int, y: int| 0 <= k < next.len() && j + 1 <= y < right.len() implies comes_before(
        keys,
        #[trigger] next[k] as int,
        #[trigger] right[y] as int,
    ) by {
        if k < out.len() {
            assert(next[k] == out[k]);
        } else {
            assert(comes_before(keys, right[j] as int, right[y] as int));
        }
    }
}

/// A finished merge of the arrangements of two adjoining ranges arranges
/// the whole range.
proof fn lemma_merge_done(
    out: Seq<usize>,
    left: Seq<usize>,
    right: Seq<usize>,
    keys: Seq<Seq<char>>,
    lo: int,
    mid: int,
    hi: int,
)
    requires
        orders_range(left, keys, lo, mid),
        orders_range(right, keys, mid, hi),
        merged_so_far(out, left, right, keys, left.len() as int, right.len() as int),
    ensures
        orders_range(out, keys, lo, hi),
{
    assert forall|k: int| 0 <= k < out.len() implies lo <= (#[trigger] out[k] as int) < hi by {
        if left.contains(out[k]) {
            let x = choose|x: int| 0 <= x < left.len() && left[x] == out[k];
            assert(lo <= (left[x] as int) < mid);
        } else {
            let y = choose|y: int| 0 <= y < right.len() && right[y] == out[k];
            assert(mid <= (right[y] as int) < hi);
        }
    }
    assert forall|p: int| lo <= p < hi implies #[trigger] out.contains(p as usize) by {
        if p < mid {
            assert(left.contains(p as usize));
            let x = choose|x: int| 0 <= x < left.len() && left[x] == p as usize;
            assert(out.contains(left[x]));
        } else {
            assert(right.contains(p as usize));
            let y = choose|y: int| 0 <= y < right.len() && right[y] == p as usize;
            assert(out.contains(right[y]));
        }
    }
}

/// Merges the arrangements of two adjoining ranges of positions.
fn merge(
    keys: &Vec<Vec<char>>,
    left: &Vec<usize>,
    right: &Vec<usize>,
    Ghost(lo): Ghost<int>,
    Ghost(mid): Ghost<int>,
    Ghost(hi): Ghost<int>,
) -> (out: Vec<usize>)
    requires
        orders_range(left@, texts(keys@), lo, mid),
        orders_range(right@, texts(keys@), mid, hi),
    ensures
        orders_range(out@, texts(keys@), lo, hi),
{
    let ghost kt = texts(keys@);
    let mut out: Vec<usize> = Vec::new();
    let mut i: usize = 0;
    let mut j: usize = 0;
    while i < left.len() || j < right.len()
        invariant
            kt == texts(keys@),
            orders_range(left@, kt, lo, mid),
            orders_range(right@, kt, mid, hi),
            merged_so_far(out@, left@, right@, kt, i as int, j as int),
        decreases left.len() - i + right.len() - j,
    {
        let from_right = if j == right.len() {
            false
        } else if i == left.len() {
            true
        } else {
            sorts_before(&keys[right[j]], &keys[left[i]])
        };
        if from_right {
            proof {
                lemma_take_right(out@, left@, right@, kt, lo, mid, hi, i as int, j as int);
            }
            out.push(right[j]);
            j += 1;
        } else {
            proof {
                lemma_take_left(out@, left@, right@, kt, lo, mid, hi, i as int, j as int);
            }
            out.push(left[i]);
            i += 1;
        }
    }
    proof {
        lemma_merge_done(out@, left@, right@, kt, lo, mid, hi);
    }
    out
}

/// The stable ascending arrangement of the positions from `lo` up to `hi`.
fn order_range(keys: &Vec<Vec<char>>, lo: usize, hi: usize) -> (order: Vec<usize>)
    requires
        lo <= hi <= keys.len(),
    ensures
        orders_range(order@, texts(keys@), lo as int, hi as int),
    decreases hi - lo,
{
    if hi - lo <= 1 {
        let mut order: Vec<usize> = Vec::new();
        if hi - lo == 1 {
            order.push(lo);
            assert(order@[0] == lo);
        }
        order
    } else {
        let mid = lo + (hi - lo) / 2;
        let left = order_range(keys, lo, mid);
        let right = order_range(keys, mid, hi);
        merge(keys, &left, &right, Ghost(lo as int), Ghost(mid as int), Ghost(hi as int))
    }
}

/// The stable ascending arrangement of the positions of `keys`.
pub fn stable_order(keys: &Vec<Vec<char>>) -> (order: Vec<usize>)
    ensures
        is_stable_order(order@, texts(keys@)),
        order@ == sorted_positions(texts(keys@)),
{
    let order = order_range(keys, 0, keys.len());
    proof {
        lemma_sorted_positions(texts(keys@));
        assert(is_stable_order(order@, texts(keys@)));
    }
    order
}

} // verus!
