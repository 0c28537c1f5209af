//! What filtering does to a list.

use vstd::prelude::*;

verus! {

/// Where the items that a filter keeps stand in the list: in order, and all
/// of them.
pub proof fn lemma_filter_places<A>(list: Seq<A>, pred: spec_fn(A) -> bool) -> (places: Seq<int>)
    ensures
        places.len() == list.filter(pred).len(),
        forall|i: int|
            0 <= i < places.len() ==> 0 <= #[trigger] places[i] < list.len() && list.filter(pred)[i]
                == list[places[i]] && pred(list[places[i]]),
        forall|i: int, j: int| 0 <= i < j < places.len() ==> places[i] < places[j],
        forall|k: int| 0 <= k < list.len() && pred(#[trigger] list[k]) ==> places.contains(k),
    decreases list.len(),
{
    if list.len() == 0 {
        reveal_with_fuel(Seq::filter, 1);
        Seq::empty()
    } else {
        let front = list.drop_last();
        let earlier = lemma_filter_places(front, pred);
        front.lemma_filter_push(list.last(), pred);
        assert(front.push(list.last()) =~= list);
        let places = if pred(list.last()) {
            earlier.push(list.len() - 1)
        } else {
            earlier
        };
        assert forall|k: int| 0 <= k < list.len() && pred(
            #[trigger] list[k],
        ) implies places.contains(k) by {
            if k < front.len() {
                assert(front[k] == list[k]);
                assert(earlier.contains(k));
                let i = choose|i: int| 0 <= i < earlier.len() && earlier[i] == k;
                assert(places[i] == k);
            } else {
                assert(places[places.len() - 1] == k);
            }
        }
        places
    }
}

/// A filter keeps or drops each item.
pub proof fn lemma_filter_parts<A>(list: Seq<A>, pred: spec_fn(A) -> bool)
    ensures
        list.filter(pred).len() + list.filter(|a: A| !pred(a)).len() == list.len(),
    decreases list.len(),
{
    let other = |a: A| !pred(a);
    if list.len() == 0 {
        reveal_with_fuel(Seq::filter, 1);
    } else {
        let front = list.drop_last();
        lemma_filter_parts(front, pred);
        front.lemma_filter_push(list.last(), pred);
        front.lemma_filter_push(list.last(), other);
        assert(front.push(list.last()) =~= list);
    }
}

/// Two filters that agree on the items of a list keep the same items.
pub proof fn lemma_filter_agrees<A>(
    list: Seq<A>,
    pred: spec_fn(A) -> bool,
    other: spec_fn(A) -> bool,
)
    requires
        forall|i: int| 0 <= i < list.len() ==> pred(#[trigger] list[i]) == other(list[i]),
    ensures
        list.filter(pred) == list.filter(other),
    decreases list.len(),
{
    if list.len() == 0 {
        reveal_with_fuel(Seq::filter, 1);
        assert(list.filter(pred) =~= list.filter(other));
    } else {
        let front = list.drop_last();
        assert forall|i: int| 0 <= i < front.len() implies pred(#[trigger] front[i]) == other(
            front[i],
        ) by {
            assert(pred(list[i]) == other(list[i]));
        }
        lemma_filter_agrees(front, pred, other);
        front.lemma_filter_push(list.last(), pred);
        front.lemma_filter_push(list.last(), other);
        assert(front.push(list.last()) =~= list);
        assert(list[list.len() - 1] == list.last());
    }
}

/// A filter that keeps every item of a list keeps the list.
pub proof fn lemma_filter_all<A>(list: Seq<A>, pred: spec_fn(A) -> bool)
    requires
        forall|i: int| 0 <= i < list.len() ==> pred(#[trigger] list[i]),
    ensures
        list.filter(pred) == list,
    decreases list.len(),
{
    if list.len() == 0 {
        reveal_with_fuel(Seq::filter, 1);
        assert(list.filter(pred) =~= list);
    } else {
        let front = list.drop_last();
        assert forall|i: int| 0 <= i < front.len() implies pred(#[trigger] front[i]) by {
            assert(pred(list[i]));
        }
        lemma_filter_all(front, pred);
        front.lemma_filter_push(list.last(), pred);
        assert(front.push(list.last()) =~= list);
        assert(list[list.len() - 1] == list.last());
    }
}

/// A filter that keeps no item of a list leaves nothing.
pub proof fn lemma_filter_none<A>(list: Seq<A>, pred: spec_fn(A) -> bool)
    requires
        forall|i: int| 0 <= i < list.len() ==> !pred(#[trigger] list[i]),
    ensures
        list.filter(pred) == Seq::<A>::empty(),
{
    let places = lemma_filter_places(list, pred);
    assert(list.filter(pred) =~= Seq::<A>::empty()) by {
        if places.len() > 0 {
            assert(pred(list[places[0]]));
        }
    }
}

} // verus!
