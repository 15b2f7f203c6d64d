//! What picking, counting and ranking rows promise, whatever the rows are.

use vstd::prelude::*;

use crate::order::{arranged, before, lemma_order_of, limited, order_of};
use crate::rows::{distinct, kept, lemma_distinct, select, tally};

verus! {

/// Places in a list, in ascending order.
pub open spec fn ascending_places(at: Seq<int>, n: nat) -> bool {
    &&& forall|p: int| 0 <= p < at.len() ==> 0 <= #[trigger] at[p] < n
    &&& forall|p: int, q: int| 0 <= p < q < at.len() ==> #[trigger] at[p] < #[trigger] at[q]
}

/// **Picking keeps the order.** What is picked comes from ever later rows, and no row that
/// is picked is left out.
pub proof fn law_picking_keeps_the_order<A, B>(s: Seq<A>, pick: spec_fn(A) -> Option<B>) -> (at: Seq<
    int,
>)
    ensures
        at.len() == select(s, pick).len(),
        ascending_places(at, s.len()),
        forall|p: int|
            0 <= p < at.len() ==> pick(s[#[trigger] at[p]]) == Some(select(s, pick)[p]),
        forall|i: int|
            0 <= i < s.len() && pick(#[trigger] s[i]) is Some ==> at.contains(i),
    decreases s.len(),
{
    if s.len() == 0 {
        Seq::empty()
    } else {
        let front = s.drop_last();
        let n = s.len() - 1;
        let rest = law_picking_keeps_the_order(front, pick);
        assert forall|p: int| 0 <= p < rest.len() implies pick(s[#[trigger] rest[p]]) == Some(
            select(front, pick)[p],
        ) by {
            assert(front[rest[p]] == s[rest[p]]);
        }
        let at = if pick(s.last()) is Some {
            rest.push(n)
        } else {
            rest
        };
        assert forall|i: int| 0 <= i < s.len() && pick(#[trigger] s[i]) is Some implies at.contains(
            i,
        ) by {
            if i < n {
                assert(front[i] == s[i]);
                assert(rest.contains(i));
                let p = choose|p: int| 0 <= p < rest.len() && rest[p] == i;
                assert(at[p] == i);
            } else {
                assert(at[at.len() - 1] == i);
            }
        }
        at
    }
}

/// **Keeping keeps the order.** What is kept are the rows themselves, in order, and no row
/// that satisfies the test is left out.
pub proof fn law_keeping_keeps_the_order<A>(s: Seq<A>, test: spec_fn(A) -> bool) -> (at: Seq<int>)
    ensures
        at.len() == kept(s, test).len(),
        ascending_places(at, s.len()),
        forall|p: int|
            0 <= p < at.len() ==> test(s[#[trigger] at[p]]) && s[at[p]] == kept(s, test)[p],
        forall|i: int| 0 <= i < s.len() && test(#[trigger] s[i]) ==> at.contains(i),
    decreases s.len(),
{
    if s.len() == 0 {
        Seq::empty()
    } else {
        let front = s.drop_last();
        let n = s.len() - 1;
        let rest = law_keeping_keeps_the_order(front, test);
        assert forall|p: int| 0 <= p < rest.len() implies test(s[#[trigger] rest[p]])
            && s[rest[p]] == kept(front, test)[p] by {
            assert(front[rest[p]] == s[rest[p]]);
        }
        let at = if test(s.last()) {
            rest.push(n)
        } else {
            rest
        };
        assert forall|i: int| 0 <= i < s.len() && test(#[trigger] s[i]) implies at.contains(i) by {
            if i < n {
                assert(front[i] == s[i]);
                assert(rest.contains(i));
                let p = choose|p: int| 0 <= p < rest.len() && rest[p] == i;
                assert(at[p] == i);
            } else {
                assert(at[at.len() - 1] == i);
            }
        }
        at
    }
}

/// **Counting counts.** The count of the rows that satisfy a test is the length of the list
/// of them.
pub proof fn law_counting_counts<A>(s: Seq<A>, test: spec_fn(A) -> bool)
    ensures
        tally(s, test) == s.filter(test).len(),
        kept(s, test) == s.filter(test),
    decreases s.len(),
{
    reveal(Seq::filter);
    if s.len() > 0 {
        law_counting_counts(s.drop_last(), test);
    }
}

/// Tests that agree on the rows count the same.
pub proof fn lemma_tally_same<A>(s: Seq<A>, f: spec_fn(A) -> bool, g: spec_fn(A) -> bool)
    requires
        forall|i: int| 0 <= i < s.len() ==> f(#[trigger] s[i]) == g(s[i]),
    ensures
        tally(s, f) == tally(s, g),
        kept(s, f) == kept(s, g),
    decreases s.len(),
{
    if s.len() > 0 {
        let front = s.drop_last();
        assert forall|i: int| 0 <= i < front.len() implies f(#[trigger] front[i]) == g(
            front[i],
        ) by {
            assert(front[i] == s[i]);
        }
        lemma_tally_same(front, f, g);
        assert(s[s.len() - 1] == s.last());
    }
}

/// The rows that satisfy a test, counted.
pub proof fn lemma_tally_filter<A>(s: Seq<A>, f: spec_fn(A) -> bool, g: spec_fn(A) -> bool)
    requires
        forall|i: int| 0 <= i < s.len() ==> f(#[trigger] s[i]) == g(s[i]),
    ensures
        tally(s, f) == s.filter(g).len(),
        kept(s, f) == s.filter(g),
{
    lemma_tally_same(s, f, g);
    law_counting_counts(s, g);
}

/// As many rows are picked as can be.
pub proof fn lemma_select_tally<A, B>(
    s: Seq<A>,
    pick: spec_fn(A) -> Option<B>,
    test: spec_fn(A) -> bool,
)
    requires
        forall|i: int| 0 <= i < s.len() ==> (pick(#[trigger] s[i]) is Some <==> test(s[i])),
    ensures
        select(s, pick).len() == tally(s, test),
    decreases s.len(),
{
    if s.len() > 0 {
        let front = s.drop_last();
        assert forall|i: int| 0 <= i < front.len() implies (pick(#[trigger] front[i]) is Some
            <==> test(front[i])) by {
            assert(front[i] == s[i]);
        }
        lemma_select_tally(front, pick, test);
        assert(s[s.len() - 1] == s.last());
    }
}

/// **Ranking loses nothing.** A ranked list holds every item, each as often as it was given:
/// place `p` holds the item that stood at `from[p]`, and no two places hold the same one.
pub proof fn law_ranking_loses_nothing<T>(items: Seq<T>, keys: Seq<(i128, i128, i128)>) -> (from: Seq<
    int,
>)
    requires
        items.len() == keys.len(),
        keys.len() <= usize::MAX,
    ensures
        arranged(items, keys).len() == items.len(),
        from.len() == items.len(),
        forall|p: int| 0 <= p < from.len() ==> 0 <= #[trigger] from[p] < items.len(),
        forall|p: int, q: int| 0 <= p < q < from.len() ==> #[trigger] from[p] != #[trigger] from[q],
        forall|i: int| 0 <= i < items.len() ==> #[trigger] from.contains(i),
        forall|p: int| 0 <= p < from.len() ==> arranged(items, keys)[p] == items[#[trigger] from[p]],
        forall|p: int, q: int|
            0 <= p < q < from.len() ==> {
                let (a, b) = (keys[#[trigger] from[p]], keys[#[trigger] from[q]]);
                &&& a.0 >= b.0
                &&& a.0 == b.0 ==> a.1 <= b.1
                &&& a.0 == b.0 && a.1 == b.1 ==> a.2 <= b.2
                &&& a == b ==> from[p] < from[q]
            },
{
    lemma_order_of(keys);
    let order = order_of(keys);
    let from = Seq::new(order.len(), |p: int| order[p] as int);
    assert forall|p: int| 0 <= p < from.len() implies 0 <= #[trigger] from[p] < items.len() by {
        assert(order[p] < keys.len());
    }
    assert forall|p: int, q: int| 0 <= p < q < from.len() implies {
        let (a, b) = (keys[#[trigger] from[p]], keys[#[trigger] from[q]]);
        &&& from[p] != from[q]
        &&& a.0 >= b.0
        &&& a.0 == b.0 ==> a.1 <= b.1
        &&& a.0 == b.0 && a.1 == b.1 ==> a.2 <= b.2
        &&& a == b ==> from[p] < from[q]
    } by {
        assert(before(keys, order[p] as int, order[q] as int));
    }
    assert forall|i: int| 0 <= i < items.len() implies #[trigger] from.contains(i) by {
        assert(order.contains(i as usize));
        let p = choose|p: int| 0 <= p < order.len() && order[p] == i as usize;
        assert(from[p] == i);
    }
    from
}

/// The front of a list: no more than the limit, and from the front.
pub proof fn lemma_limited<T>(s: Seq<T>, limit: int)
    ensures
        limited(s, limit).len() <= s.len(),
        limit >= 0 ==> limited(s, limit).len() <= limit,
        limit < 0 || limit >= s.len() ==> limited(s, limit) == s,
        0 <= limit < s.len() ==> limited(s, limit).len() == limit,
        forall|p: int| 0 <= p < limited(s, limit).len() ==> #[trigger] limited(s, limit)[p] == s[p],
{
}

/// **Nothing is listed twice.** A list without repetitions holds each value of the list
/// once, those first met first.
pub proof fn law_nothing_is_listed_twice<A>(s: Seq<A>)
    ensures
        distinct(s).no_duplicates(),
        forall|a: A| #[trigger] distinct(s).contains(a) <==> s.contains(a),
{
    lemma_distinct(s);
}

} // verus!
