//! Ordering rows by integer keys.
//!
//! Every list the library ranks (edges by similarity, cards by payoff, photos by
//! date) is ordered by a key of three integers: the first descending, the other two
//! ascending, and the original position last, so that the order is always total.

use vstd::prelude::*;

use crate::rows::views;

verus! {

/// Row `i` comes before row `j`: larger first key, then smaller second and third
/// keys, then the earlier position.
pub open spec fn before(keys: Seq<(i128, i128, i128)>, i: int, j: int) -> bool {
    let a = keys[i];
    let b = keys[j];
    a.0 > b.0 || (a.0 == b.0 && (a.1 < b.1 || (a.1 == b.1 && (a.2 < b.2 || (a.2 == b.2 && i
        < j)))))
}

/// `order` lists the positions `lo..hi` of `keys`, each once, in order.
pub open spec fn orders_range(
    keys: Seq<(i128, i128, i128)>,
    lo: int,
    hi: int,
    order: Seq<usize>,
) -> bool {
    &&& order.len() == hi - lo
    &&& forall|p: int| 0 <= p < order.len() ==> lo <= #[trigger] order[p] < hi
    &&& forall|p: int, q: int|
        0 <= p < q < order.len() ==> before(keys, #[trigger] order[p] as int, #[trigger] order[q] as int)
    &&& forall|i: usize| lo <= i < hi ==> #[trigger] order.contains(i)
}

/// `order` lists every position of `keys` once, in order.
pub open spec fn is_order(keys: Seq<(i128, i128, i128)>, order: Seq<usize>) -> bool {
    orders_range(keys, 0, keys.len() as int, order)
}

/// The one order of `keys` (see [`lemma_order_unique`]).
pub open spec fn order_of(keys: Seq<(i128, i128, i128)>) -> Seq<usize> {
    choose|order: Seq<usize>| is_order(keys, order)
}

fn comes_before(keys: &Vec<(i128, i128, i128)>, i: usize, j: usize) -> (r: bool)
    requires
        i < keys.len(),
        j < keys.len(),
    ensures
        r == before(keys@, i as int, j as int),
{
    let a = keys[i];
    let b = keys[j];
    a.0 > b.0 || (a.0 == b.0 && (a.1 < b.1 || (a.1 == b.1 && (a.2 < b.2 || (a.2 == b.2 && i < j)))))
}

fn merge(
    keys: &Vec<(i128, i128, i128)>,
    left: Vec<usize>,
    right: Vec<usize>,
    Ghost(lo): Ghost<int>,
    Ghost(mid): Ghost<int>,
    Ghost(hi): Ghost<int>,
) -> (out: Vec<usize>)
    requires
        0 <= lo <= mid <= hi <= keys.len(),
        orders_range(keys@, lo, mid, left@),
        orders_range(keys@, mid, hi, right@),
    ensures
        orders_range(keys@, lo, hi, out@),
{
    let mut out: Vec<usize> = Vec::with_capacity(left.len());
    let mut i: usize = 0;
    let mut j: usize = 0;
    while i < left.len() || j < right.len()
        invariant
            0 <= lo <= mid <= hi <= keys.len(),
            orders_range(keys@, lo, mid, left@),
            orders_range(keys@, mid, hi, right@),
            i <= left.len(),
            j <= right.len(),
            out.len() == i + j,
            forall|p: int| 0 <= p < out.len() ==> lo <= #[trigger] out@[p] < hi,
            forall|p: int, q: int|
                0 <= p < q < out.len() ==> before(
                    keys@,
                    #[trigger] out@[p] as int,
                    #[trigger] out@[q] as int,
                ),
            forall|p: int, q: int|
                0 <= p < out.len() && i <= q < left.len() ==> before(
                    keys@,
                    #[trigger] out@[p] as int,
                    #[trigger] left@[q] as int,
                ),
            forall|p: int, q: int|
                0 <= p < out.len() && j <= q < right.len() ==> before(
                    keys@,
                    #[trigger] out@[p] as int,
                    #[trigger] right@[q] as int,
                ),
            forall|p: int| 0 <= p < i ==> out@.contains(#[trigger] left@[p]),
            forall|p: int| 0 <= p < j ==> out@.contains(#[trigger] right@[p]),
        decreases left.len() - i + right.len() - j,
    {
        let ghost prev = out@;
        let take_left = if i < left.len() {
            if j < right.len() {
                comes_before(keys, left[i], right[j])
            } else {
                true
            }
        } else {
            false
        };
        if take_left {
            let x = left[i];
            out.push(x);
            i = i + 1;
            assert(out@.last() == x);
        } else {
            let x = right[j];
            out.push(x);
            j = j + 1;
            assert(out@.last() == x);
        }
        assert forall|v: usize| prev.contains(v) implies #[trigger] out@.contains(v) by {
            let p = choose|p: int| 0 <= p < prev.len() && prev[p] == v;
            assert(out@[p] == v);
        }
    }
    assert forall|v: usize| lo <= v < hi implies #[trigger] out@.contains(v) by {
        if v < mid {
            assert(left@.contains(v));
        } else {
            assert(right@.contains(v));
        }
    }
    out
}

fn sort_range(keys: &Vec<(i128, i128, i128)>, lo: usize, hi: usize) -> (out: Vec<usize>)
    requires
        lo <= hi <= keys.len(),
    ensures
        orders_range(keys@, lo as int, hi as int, out@),
    decreases hi - lo,
{
    if hi - lo == 0 {
        return Vec::new();
    }
    if hi - lo == 1 {
        let mut one: Vec<usize> = Vec::new();
        one.push(lo);
        assert(one@[0] == lo);
        return one;
    }
    let mid: usize = lo + (hi - lo) / 2;
    let left = sort_range(keys, lo, mid);
    let right = sort_range(keys, mid, hi);
    merge(keys, left, right, Ghost(lo as int), Ghost(mid as int), Ghost(hi as int))
}

/// The positions of `keys` in order (merge sort).
pub fn sort_order(keys: &Vec<(i128, i128, i128)>) -> (order: Vec<usize>)
    ensures
        is_order(keys@, order@),
        order@ == order_of(keys@),
{
    let order = sort_range(keys, 0, keys.len());
    assert(is_order(keys@, order@));
    proof {
        lemma_order_unique(keys@, order@, order_of(keys@));
    }
    order
}

/// There is only one order of a list of keys.
pub proof fn lemma_order_unique(keys: Seq<(i128, i128, i128)>, a: Seq<usize>, b: Seq<usize>)
    requires
        is_order(keys, a),
        is_order(keys, b),
        keys.len() <= usize::MAX,
    ensures
        a == b,
{
    lemma_order_unique_upto(keys, a, b, keys.len());
    assert(a =~= b);
}

proof fn lemma_order_unique_upto(keys: Seq<(i128, i128, i128)>, a: Seq<usize>, b: Seq<usize>, n: nat)
    requires
        is_order(keys, a),
        is_order(keys, b),
        keys.len() <= usize::MAX,
        n <= keys.len(),
    ensures
        forall|p: int| 0 <= p < n ==> a[p] == b[p],
    decreases n,
{
    if n > 0 {
        let m = (n - 1) as nat;
        lemma_order_unique_upto(keys, a, b, m);
        let x = a[m as int];
        let y = b[m as int];
        if x != y {
            assert(b.contains(x));
            let p = choose|p: int| 0 <= p < b.len() && b[p] == x;
            assert(a.contains(y));
            let q = choose|q: int| 0 <= q < a.len() && a[q] == y;
            // x cannot sit among the shared prefix, nor can y.
            if p < m {
                assert(a[p] == x);
                assert(before(keys, a[p] as int, a[m as int] as int));
                assert(false);
            }
            if q < m {
                assert(b[q] == y);
                assert(before(keys, b[q] as int, b[m as int] as int));
                assert(false);
            }
            assert(before(keys, b[m as int] as int, b[p] as int));
            assert(before(keys, a[m as int] as int, a[q] as int));
            assert(false);
        }
    }
}

/// Where position `x` belongs among the first `len` positions of an ordered list.
proof fn split_at(keys: Seq<(i128, i128, i128)>, order: Seq<usize>, x: usize, len: nat) -> (p: int)
    requires
        len <= order.len(),
        forall|q: int| 0 <= q < order.len() ==> #[trigger] order[q] != x,
        forall|q: int, r: int|
            0 <= q < r < order.len() ==> before(
                keys,
                #[trigger] order[q] as int,
                #[trigger] order[r] as int,
            ),
    ensures
        0 <= p <= len,
        forall|q: int| 0 <= q < p ==> before(keys, #[trigger] order[q] as int, x as int),
        forall|q: int| p <= q < len ==> before(keys, x as int, #[trigger] order[q] as int),
    decreases len,
{
    if len == 0 {
        0
    } else {
        let last = order[len - 1] as int;
        if before(keys, last, x as int) {
            assert forall|q: int| 0 <= q < len implies before(
                keys,
                #[trigger] order[q] as int,
                x as int,
            ) by {
                if q < len - 1 {
                    assert(before(keys, order[q] as int, order[len - 1] as int));
                }
            }
            len as int
        } else {
            let p = split_at(keys, order, x, (len - 1) as nat);
            assert(before(keys, x as int, last));
            p
        }
    }
}

proof fn order_upto(keys: Seq<(i128, i128, i128)>, n: nat) -> (order: Seq<usize>)
    requires
        n <= keys.len(),
        n <= usize::MAX,
    ensures
        orders_range(keys, 0, n as int, order),
    decreases n,
{
    if n == 0 {
        Seq::empty()
    } else {
        let m = (n - 1) as nat;
        let earlier = order_upto(keys, m);
        let x = m as usize;
        let p = split_at(keys, earlier, x, earlier.len());
        let order = earlier.insert(p, x);
        assert forall|q: int| 0 <= q < order.len() implies 0 <= #[trigger] order[q] < n by {
            if q < p {
                assert(order[q] == earlier[q]);
            } else if q > p {
                assert(order[q] == earlier[q - 1]);
            }
        }
        assert forall|q: int, r: int| 0 <= q < r < order.len() implies before(
            keys,
            #[trigger] order[q] as int,
            #[trigger] order[r] as int,
        ) by {
            if q < p {
                assert(order[q] == earlier[q]);
            } else if q > p {
                assert(order[q] == earlier[q - 1]);
            }
            if r < p {
                assert(order[r] == earlier[r]);
            } else if r > p {
                assert(order[r] == earlier[r - 1]);
            }
        }
        assert forall|i: usize| 0 <= i < n implies #[trigger] order.contains(i) by {
            if i < m {
                assert(earlier.contains(i));
                let q = choose|q: int| 0 <= q < earlier.len() && earlier[q] == i;
                if q < p {
                    assert(order[q] == i);
                } else {
                    assert(order[q + 1] == i);
                }
            } else {
                assert(order[p] == i);
            }
        }
        order
    }
}

/// Every list of keys has an order.
pub proof fn lemma_order_of(keys: Seq<(i128, i128, i128)>)
    requires
        keys.len() <= usize::MAX,
    ensures
        is_order(keys, order_of(keys)),
{
    let order = order_upto(keys, keys.len());
    assert(is_order(keys, order));
}

/// The items in the order of their keys.
pub open spec fn arranged<T>(items: Seq<T>, keys: Seq<(i128, i128, i128)>) -> Seq<T> {
    order_of(keys).map_values(|i: usize| items[i as int])
}

/// At most `limit` items from the front; all of them for a negative limit.
pub open spec fn limited<T>(items: Seq<T>, limit: int) -> Seq<T> {
    if 0 <= limit < items.len() {
        items.take(limit)
    } else {
        items
    }
}

/// The items in the order of their keys.
pub fn arrange<T: Copy>(items: &Vec<T>, keys: &Vec<(i128, i128, i128)>) -> (out: Vec<T>)
    requires
        items@.len() == keys@.len(),
    ensures
        out@ == arranged(items@, keys@),
        out@.len() == items@.len(),
{
    let order = sort_order(keys);
    let mut out: Vec<T> = Vec::with_capacity(order.len());
    for k in 0..order.len()
        invariant
            is_order(keys@, order@),
            order@ == order_of(keys@),
            items@.len() == keys@.len(),
            out@ == arranged(items@, keys@).take(k as int),
    {
        assert(order@[k as int] < keys@.len());
        out.push(items[order[k]]);
        assert(out@ =~= arranged(items@, keys@).take(k + 1));
    }
    assert(out@ =~= arranged(items@, keys@));
    out
}

/// At most `limit` items from the front; all of them for a negative limit.
pub fn limit_to<T>(items: &mut Vec<T>, limit: i64)
    ensures
        final(items)@ == limited(old(items)@, limit as int),
{
    if limit >= 0 && (limit as u64) < (items.len() as u64) {
        items.truncate(limit as usize);
    }
}

/// The items in the order of their keys, each moved to its place.
pub fn arrange_owned<T>(items: Vec<T>, keys: &Vec<(i128, i128, i128)>) -> (out: Vec<T>)
    requires
        items@.len() == keys@.len(),
    ensures
        out@ == arranged(items@, keys@),
        out@.len() == items@.len(),
{
    let ghost given = items@;
    let order = sort_order(keys);
    let mut slots = to_slots(items);
    let mut out: Vec<T> = Vec::with_capacity(order.len());
    let ghost goal = arranged(given, keys@);
    for k in 0..order.len()
        invariant
            is_order(keys@, order@),
            order@ == order_of(keys@),
            keys@.len() == given.len(),
            goal == arranged(given, keys@),
            slots@.len() == given.len(),
            forall|j: int|
                k <= j < order@.len() ==> #[trigger] slots@[order@[j] as int] == Some(
                    given[order@[j] as int],
                ),
            out@ == goal.take(k as int),
    {
        assert(order@[k as int] < keys@.len());
        let at: usize = order[k];
        let ghost was = slots@;
        let mut item: Option<T> = None;
        std::mem::swap(&mut item, &mut slots[at]);
        proof {
            assert(was[order@[k as int] as int] == Some(given[at as int]));
            assert forall|j: int| k + 1 <= j < order@.len() implies
            #[trigger] slots@[order@[j] as int] == Some(given[order@[j] as int]) by {
                assert(before(keys@, order@[k as int] as int, order@[j] as int));
                assert(was[order@[j] as int] is Some);
            }
        }
        if let Some(t) = item {
            out.push(t);
            assert(out@ =~= goal.take(k + 1));
        }
    }
    assert(out@ =~= goal);
    out
}

/// The items, each in a slot of its own.
fn to_slots<T>(items: Vec<T>) -> (slots: Vec<Option<T>>)
    ensures
        slots@.len() == items@.len(),
        forall|k: int| 0 <= k < items@.len() ==> #[trigger] slots@[k] == Some(items@[k]),
{
    let ghost given = items@;
    let mut left = items;
    let mut slots: Vec<Option<T>> = Vec::with_capacity(left.len());
    for i in 0..left.len()
        invariant
            slots@.len() == i,
            forall|k: int| 0 <= k < i ==> #[trigger] slots@[k] is None,
    {
        slots.push(None);
    }
    while left.len() > 0
        invariant
            slots@.len() == given.len(),
            left@ == given.take(left@.len() as int),
            left@.len() <= given.len(),
            forall|k: int| left@.len() <= k < given.len() ==> #[trigger] slots@[k] == Some(given[k]),
        decreases left@.len(),
    {
        if let Some(item) = left.pop() {
            let at: usize = left.len();
            slots.set(at, Some(item));
        }
    }
    slots
}

/// Arranging items and taking their views is arranging their views.
pub proof fn lemma_arranged_views<T: View>(items: Seq<T>, keys: Seq<(i128, i128, i128)>)
    requires
        items.len() == keys.len(),
        keys.len() <= usize::MAX,
    ensures
        views(arranged(items, keys)) == arranged(views(items), keys),
{
    lemma_order_of(keys);
    let order = order_of(keys);
    assert forall|k: int| 0 <= k < order.len() implies views(arranged(items, keys))[k] == arranged(
        views(items),
        keys,
    )[k] by {
        assert(order[k] < keys.len());
    }
    assert(views(arranged(items, keys)) =~= arranged(views(items), keys));
}

} // verus!
