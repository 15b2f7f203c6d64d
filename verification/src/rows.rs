//! Queries over lists of rows.

use vstd::prelude::*;

verus! {

/// What `pick` makes of each row it picks, in row order.
pub open spec fn select<A, B>(s: Seq<A>, pick: spec_fn(A) -> Option<B>) -> Seq<B>
    decreases s.len(),
{
    if s.len() == 0 {
        Seq::empty()
    } else {
        let rest = select(s.drop_last(), pick);
        match pick(s.last()) {
            Some(b) => rest.push(b),
            None => rest,
        }
    }
}

/// The values of a list without repetitions, in the order of their first appearance.
pub open spec fn distinct<A>(s: Seq<A>) -> Seq<A>
    decreases s.len(),
{
    if s.len() == 0 {
        Seq::empty()
    } else {
        let rest = distinct(s.drop_last());
        if rest.contains(s.last()) {
            rest
        } else {
            rest.push(s.last())
        }
    }
}

/// How many rows satisfy `test`.
pub open spec fn tally<A>(s: Seq<A>, test: spec_fn(A) -> bool) -> nat
    decreases s.len(),
{
    if s.len() == 0 {
        0
    } else {
        tally(s.drop_last(), test) + if test(s.last()) {
            1nat
        } else {
            0
        }
    }
}

pub proof fn lemma_tally_bound<A>(s: Seq<A>, test: spec_fn(A) -> bool)
    ensures
        tally(s, test) <= s.len(),
    decreases s.len(),
{
    if s.len() > 0 {
        lemma_tally_bound(s.drop_last(), test);
    }
}

pub proof fn lemma_select_len<A, B>(s: Seq<A>, pick: spec_fn(A) -> Option<B>)
    ensures
        select(s, pick).len() <= s.len(),
    decreases s.len(),
{
    if s.len() > 0 {
        lemma_select_len(s.drop_last(), pick);
    }
}

/// A picked row comes from some row.
pub proof fn lemma_select_from<A, B>(s: Seq<A>, pick: spec_fn(A) -> Option<B>, p: int)
    requires
        0 <= p < select(s, pick).len(),
    ensures
        exists|i: int| 0 <= i < s.len() && pick(#[trigger] s[i]) == Some(select(s, pick)[p]),
    decreases s.len(),
{
    let rest = select(s.drop_last(), pick);
    if p < rest.len() {
        lemma_select_from(s.drop_last(), pick, p);
        let i = choose|i: int|
            0 <= i < s.drop_last().len() && pick(#[trigger] s.drop_last()[i]) == Some(rest[p]);
        assert(s[i] == s.drop_last()[i]);
    } else {
        assert(s[s.len() - 1] == s.last());
    }
}

/// Every row that is picked is in the result.
pub proof fn lemma_select_contains<A, B>(s: Seq<A>, pick: spec_fn(A) -> Option<B>, i: int)
    requires
        0 <= i < s.len(),
        pick(s[i]) is Some,
    ensures
        select(s, pick).contains(pick(s[i])->0),
    decreases s.len(),
{
    let rest = select(s.drop_last(), pick);
    let all = select(s, pick);
    if i < s.len() - 1 {
        lemma_select_contains(s.drop_last(), pick, i);
        assert(s.drop_last()[i] == s[i]);
        let p = choose|p: int| 0 <= p < rest.len() && rest[p] == pick(s[i])->0;
        assert(all[p] == rest[p]);
    } else {
        assert(all.last() == pick(s[i])->0);
    }
}

/// Removing repetitions keeps the values and leaves none twice.
pub proof fn lemma_distinct<A>(s: Seq<A>)
    ensures
        distinct(s).len() <= s.len(),
        forall|p: int, q: int|
            0 <= p < q < distinct(s).len() ==> #[trigger] distinct(s)[p] != #[trigger] distinct(s)[q],
        forall|a: A| #[trigger] distinct(s).contains(a) <==> s.contains(a),
    decreases s.len(),
{
    if s.len() > 0 {
        let front = s.drop_last();
        lemma_distinct(front);
        let rest = distinct(front);
        let all = distinct(s);
        assert forall|a: A| #[trigger] all.contains(a) <==> s.contains(a) by {
            if all.contains(a) {
                let p = choose|p: int| 0 <= p < all.len() && all[p] == a;
                if p < rest.len() {
                    assert(rest[p] == a);
                    assert(rest.contains(a));
                    let i = choose|i: int| 0 <= i < front.len() && front[i] == a;
                    assert(s[i] == a);
                } else {
                    assert(s[s.len() - 1] == a);
                }
            }
            if s.contains(a) {
                let i = choose|i: int| 0 <= i < s.len() && s[i] == a;
                if i < front.len() {
                    assert(front[i] == a);
                    assert(front.contains(a));
                    assert(rest.contains(a));
                    let p = choose|p: int| 0 <= p < rest.len() && rest[p] == a;
                    assert(all[p] == a);
                } else if rest.contains(a) {
                    assert(all == rest);
                } else {
                    assert(all[rest.len() as int] == a);
                }
            }
        }
    }
}

/// Appending one value, for a value already seen.
pub proof fn lemma_distinct_push<A>(s: Seq<A>, a: A)
    ensures
        s.contains(a) ==> distinct(s.push(a)) == distinct(s),
        !s.contains(a) ==> distinct(s.push(a)) == distinct(s).push(a),
{
    assert(s.push(a).drop_last() == s);
    lemma_distinct(s);
    assert(distinct(s).contains(a) <==> s.contains(a));
}

/// Rows by their views.
pub open spec fn views<T: View>(s: Seq<T>) -> Seq<T::V> {
    s.map_values(|t: T| t@)
}

/// The rows that satisfy `test`, in order.
pub open spec fn kept<V>(s: Seq<V>, test: spec_fn(V) -> bool) -> Seq<V>
    decreases s.len(),
{
    if s.len() == 0 {
        Seq::empty()
    } else {
        let rest = kept(s.drop_last(), test);
        if test(s.last()) {
            rest.push(s.last())
        } else {
            rest
        }
    }
}

/// Keep only the rows that satisfy a test, in order.
pub fn retain_rows<T: View, F: Fn(&T) -> bool>(
    rows: &mut Vec<T>,
    test: F,
    Ghost(g): Ghost<spec_fn(T::V) -> bool>,
)
    requires
        forall|t: &T| call_requires(test, (t,)),
        forall|t: &T, b: bool| call_ensures(test, (t,), b) ==> b == g(t@),
    ensures
        views(final(rows)@) == kept(views(old(rows)@), g),
{
    let ghost given = views(rows@);
    let mut back: Vec<T> = Vec::new();
    assert(views(back@).reverse() =~= Seq::<T::V>::empty());
    while rows.len() > 0
        invariant
            forall|t: &T| call_requires(test, (t,)),
            forall|t: &T, b: bool| call_ensures(test, (t,), b) ==> b == g(t@),
            kept(given, g) =~= kept(views(rows@), g) + views(back@).reverse(),
        decreases rows@.len(),
    {
        let ghost was = views(rows@);
        let ghost behind = views(back@);
        if let Some(t) = rows.pop() {
            assert(was.drop_last() =~= views(rows@));
            assert(was.last() == t@);
            if test(&t) {
                back.push(t);
                assert(views(back@) =~= behind.push(t@));
                assert(views(back@).reverse() =~= seq![t@] + behind.reverse());
            }
        }
    }
    let ghost rest = views(back@);
    while back.len() > 0
        invariant
            views(rows@) =~= rest.skip(back@.len() as int).reverse(),
            back@.len() <= rest.len(),
            views(back@) =~= rest.take(back@.len() as int),
        decreases back@.len(),
    {
        let ghost was = back@;
        let ghost got = views(rows@);
        if let Some(t) = back.pop() {
            assert(views(was).last() == t@);
            assert(rest[back@.len() as int] == t@);
            rows.push(t);
            assert(views(rows@) =~= got.push(t@));
            let ghost later = rest.skip(back@.len() as int + 1);
            assert(rest.skip(back@.len() as int) =~= seq![t@] + later);
            assert((seq![t@] + later).reverse() =~= later.reverse().push(t@));
        }
    }
}

/// One more row of a list that is built up to `goal`.
pub proof fn lemma_next_row<T: View>(before: Seq<T>, after: Seq<T>, goal: Seq<T::V>, k: int)
    requires
        0 <= k < goal.len(),
        views(before) == goal.take(k),
        after.len() == before.len() + 1,
        after.drop_last() == before,
        after.last()@ == goal[k],
    ensures
        views(after) == goal.take(k + 1),
{
    assert(before.len() == k) by {
        assert(views(before).len() == k);
    }
    assert forall|i: int| 0 <= i < after.len() implies views(after)[i] == goal.take(k + 1)[i] by {
        if i < k {
            assert(after[i] == before[i]);
            assert(views(before)[i] == goal.take(k)[i]);
        }
    }
    assert(views(after) =~= goal.take(k + 1));
}

/// Insert a row at a position.
pub proof fn lemma_views_insert<T: View>(s: Seq<T>, at: int, t: T)
    requires
        0 <= at <= s.len(),
    ensures
        views(s.insert(at, t)) == views(s).insert(at, t@),
{
    assert(views(s.insert(at, t)) =~= views(s).insert(at, t@));
}

/// Kept rows come from the list, in order.
pub proof fn lemma_kept_from<V>(s: Seq<V>, test: spec_fn(V) -> bool, p: int)
    requires
        0 <= p < kept(s, test).len(),
    ensures
        test(kept(s, test)[p]),
        exists|i: int| p <= i < s.len() && #[trigger] s[i] == kept(s, test)[p],
    decreases s.len(),
{
    let rest = kept(s.drop_last(), test);
    lemma_kept_len(s.drop_last(), test);
    if p < rest.len() {
        lemma_kept_from(s.drop_last(), test, p);
        let i = choose|i: int| p <= i < s.drop_last().len() && #[trigger] s.drop_last()[i] == rest[p];
        assert(s[i] == rest[p]);
    } else {
        assert(s[s.len() - 1] == s.last());
    }
}

pub proof fn lemma_kept_len<V>(s: Seq<V>, test: spec_fn(V) -> bool)
    ensures
        kept(s, test).len() <= s.len(),
    decreases s.len(),
{
    if s.len() > 0 {
        lemma_kept_len(s.drop_last(), test);
    }
}

/// Every row that satisfies the test is kept.
pub proof fn lemma_kept_contains<V>(s: Seq<V>, test: spec_fn(V) -> bool, i: int)
    requires
        0 <= i < s.len(),
        test(s[i]),
    ensures
        kept(s, test).contains(s[i]),
    decreases s.len(),
{
    let rest = kept(s.drop_last(), test);
    let all = kept(s, test);
    if i < s.len() - 1 {
        lemma_kept_contains(s.drop_last(), test, i);
        let p = choose|p: int| 0 <= p < rest.len() && rest[p] == s.drop_last()[i];
        assert(all[p] == s[i]);
    } else {
        assert(all.last() == s[i]);
    }
}

/// Keeping rows of a list without repetitions leaves none twice, and just those that
/// satisfy the test.
pub proof fn lemma_kept_distinct<V>(s: Seq<V>, test: spec_fn(V) -> bool)
    requires
        forall|i: int, j: int| 0 <= i < j < s.len() ==> #[trigger] s[i] != #[trigger] s[j],
    ensures
        forall|i: int, j: int|
            0 <= i < j < kept(s, test).len() ==> #[trigger] kept(s, test)[i] != #[trigger] kept(
                s,
                test,
            )[j],
        forall|v: V| #[trigger] kept(s, test).contains(v) <==> s.contains(v) && test(v),
    decreases s.len(),
{
    assert forall|v: V| #[trigger] kept(s, test).contains(v) <==> s.contains(v) && test(v) by {
        if kept(s, test).contains(v) {
            let p = choose|p: int| 0 <= p < kept(s, test).len() && kept(s, test)[p] == v;
            lemma_kept_from(s, test, p);
        }
        if s.contains(v) && test(v) {
            let i = choose|i: int| 0 <= i < s.len() && s[i] == v;
            lemma_kept_contains(s, test, i);
        }
    }
    if s.len() > 0 {
        let front = s.drop_last();
        assert forall|i: int, j: int| 0 <= i < j < front.len() implies #[trigger] front[i]
            != #[trigger] front[j] by {
            assert(front[i] == s[i] && front[j] == s[j]);
        }
        lemma_kept_distinct(front, test);
        let rest = kept(front, test);
        let all = kept(s, test);
        assert forall|i: int, j: int| 0 <= i < j < all.len() implies #[trigger] all[i]
            != #[trigger] all[j] by {
            assert(all[i] == rest[i]);
            if j < rest.len() {
                assert(all[j] == rest[j]);
            } else {
                assert(rest.contains(rest[i]));
                let k = choose|k: int| 0 <= k < front.len() && front[k] == rest[i];
                assert(s[k] != s[s.len() - 1]);
            }
        }
    }
}

/// Whether a list holds a value.
pub fn holds(list: &Vec<i64>, x: i64) -> (found: bool)
    ensures
        found == list@.contains(x),
{
    for i in 0..list.len()
        invariant
            forall|k: int| 0 <= k < i ==> list@[k] != x,
    {
        if list[i] == x {
            return true;
        }
    }
    false
}

/// A list without repetitions, in the order of first appearance.
pub fn without_repeats(list: &Vec<i64>) -> (out: Vec<i64>)
    ensures
        out@ == distinct(list@),
{
    let mut out: Vec<i64> = Vec::new();
    for i in 0..list.len()
        invariant
            out@ == distinct(list@.take(i as int)),
    {
        assert(list@.take(i + 1).drop_last() == list@.take(i as int));
        if !holds(&out, list[i]) {
            out.push(list[i]);
        }
    }
    assert(list@.take(list@.len() as int) == list@);
    out
}

/// Tests for a value.
pub open spec fn equals<A>(x: A) -> spec_fn(A) -> bool {
    |a: A| a == x
}

/// How often a list holds a value.
pub fn occurrences(list: &Vec<i64>, x: i64) -> (n: usize)
    ensures
        n == tally(list@, equals(x)),
        n <= list@.len(),
{
    let mut n: usize = 0;
    for i in 0..list.len()
        invariant
            n == tally(list@.take(i as int), equals(x)),
            n <= i,
    {
        assert(list@.take(i + 1).drop_last() == list@.take(i as int));
        if list[i] == x {
            n = n + 1;
        }
    }
    assert(list@.take(list@.len() as int) == list@);
    n
}

/// A list back to front.
pub fn reversed<T>(list: Vec<T>) -> (out: Vec<T>)
    ensures
        out@ == list@.reverse(),
{
    let ghost given = list@;
    let mut left = list;
    let mut out: Vec<T> = Vec::with_capacity(left.len());
    while left.len() > 0
        invariant
            left@ == given.take(left@.len() as int),
            left@.len() + out@.len() == given.len(),
            forall|k: int| 0 <= k < out@.len() ==> #[trigger] out@[k] == given[given.len() - 1 - k],
        decreases left@.len(),
    {
        if let Some(t) = left.pop() {
            out.push(t);
        }
    }
    assert(out@ =~= given.reverse());
    out
}

} // verus!
