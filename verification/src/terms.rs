//! The words in which the laws on steps are put: which items of a list stay,
//! and what an event or an object has in common with one that it was before.

use vstd::prelude::*;

use crate::convert;
use crate::lists;
use crate::model::AttributeView;
use crate::model::EventView;
use crate::model::LogView;
use crate::model::RelationView;
use crate::model::TypeView;
use crate::model::ValueView;

verus! {

/// Whether `places` are `count` places in a list of `length` items, in order.
pub open spec fn ordered_places(places: Seq<int>, length: int, count: int) -> bool {
    &&& places.len() == count
    &&& forall|i: int| 0 <= i < places.len() ==> 0 <= #[trigger] places[i] < length
    &&& forall|i: int, j: int|
        0 <= i < j < places.len() ==> #[trigger] places[i] < #[trigger] places[j]
}

/// Whether exactly those items of `before` that stay are left in `after`, in
/// their order, each as what it becomes.
pub open spec fn thinned<A>(
    before: Seq<A>,
    after: Seq<A>,
    stays: spec_fn(A) -> bool,
    becomes: spec_fn(A, A) -> bool,
) -> bool {
    exists|places: Seq<int>|
        {
            &&& #[trigger] ordered_places(places, before.len() as int, after.len() as int)
            &&& forall|k: int|
                0 <= k < before.len() ==> (stays(#[trigger] before[k]) <==> places.contains(k))
            &&& forall|i: int|
                0 <= i < after.len() ==> becomes(before[places[i]], #[trigger] after[i])
        }
}

/// What becomes of the items that a condition picks is the list thinned by it.
pub proof fn lemma_filter_thinned<A>(
    before: Seq<A>,
    after: Seq<A>,
    pred: spec_fn(A) -> bool,
    stays: spec_fn(A) -> bool,
    becomes: spec_fn(A, A) -> bool,
)
    requires
        forall|k: int| 0 <= k < before.len() ==> pred(#[trigger] before[k]) == stays(before[k]),
        after.len() == before.filter(pred).len(),
        forall|i: int|
            0 <= i < after.len() ==> becomes(before.filter(pred)[i], #[trigger] after[i]),
    ensures
        thinned(before, after, stays, becomes),
{
    let places = lists::lemma_filter_places(before, pred);
    assert(ordered_places(places, before.len() as int, after.len() as int));
    assert forall|k: int| 0 <= k < before.len() implies (stays(#[trigger] before[k])
        <==> places.contains(k)) by {
        assert(pred(before[k]) == stays(before[k]));
        if places.contains(k) {
            let i = choose|i: int| 0 <= i < places.len() && places[i] == k;
            assert(pred(before[places[i]]));
        }
    }
    assert forall|i: int| 0 <= i < after.len() implies becomes(
        before[places[i]],
        #[trigger] after[i],
    ) by {
        assert(before.filter(pred)[i] == before[places[i]]);
    }
}

/// Whether `after` is the attribute `before`: its name with its value, or with
/// the text of that value where the values of the attribute are `mixed`.
pub open spec fn attribute_stays(before: AttributeView, after: AttributeView, mixed: bool) -> bool {
    &&& after.name == before.name
    &&& after.value == (if mixed {
        ValueView::String(convert::value_text(before.value))
    } else {
        before.value
    })
}

/// Whether `after` is the attribute `before`: its name, with its value or the
/// text of that value.
pub open spec fn attribute_told(before: AttributeView, after: AttributeView) -> bool {
    after.name == before.name && (after.value == before.value || after.value == ValueView::String(
        convert::value_text(before.value),
    ))
}

/// Whether two events that are among those to look at, and that are both called
/// by this type, give an attribute values of different types.
pub open spec fn mixed(
    events: Seq<EventView>,
    among: spec_fn(EventView) -> bool,
    called: spec_fn(EventView) -> Seq<char>,
    event_type: Seq<char>,
    attribute: Seq<char>,
) -> bool {
    exists|i: int, k: int, j: int, m: int|
        0 <= i < events.len() && 0 <= k < events[i].attributes.len() && 0 <= j < events.len() && 0
            <= m < events[j].attributes.len() && among(events[i]) && among(events[j]) && called(
            events[i],
        ) == event_type && called(events[j]) == event_type && events[i].attributes[k].name
            == attribute && events[j].attributes[m].name == attribute && (
        #[trigger] events[i].attributes[k]).value.kind() != (
        #[trigger] events[j].attributes[m]).value.kind()
}

/// Whether `after` is the event `before`: with its id, its time, its relations
/// in their order and its attributes in theirs, and called by its type. Values
/// become texts exactly where the attribute has values of different types among
/// the events of the type that stay.
pub open spec fn event_stays(
    events: Seq<EventView>,
    stays: spec_fn(EventView) -> bool,
    called: spec_fn(EventView) -> Seq<char>,
    before: EventView,
    after: EventView,
) -> bool {
    &&& after.id == before.id
    &&& after.event_type == called(before)
    &&& after.time == before.time
    &&& after.relationships == before.relationships
    &&& after.attributes.len() == before.attributes.len()
    &&& forall|k: int|
        0 <= k < before.attributes.len() ==> attribute_stays(
            before.attributes[k],
            #[trigger] after.attributes[k],
            mixed(events, stays, called, called(before), before.attributes[k].name),
        )
}

/// Whether a type of this name is declared.
pub open spec fn declared(types: Seq<TypeView>, name: Seq<char>) -> bool {
    exists|i: int| 0 <= i < types.len() && (#[trigger] types[i]).name == name
}

/// Whether an event of this type is there.
pub open spec fn occurring(events: Seq<EventView>, event_type: Seq<char>) -> bool {
    exists|i: int| 0 <= i < events.len() && (#[trigger] events[i]).event_type == event_type
}

/// Whether an event relates to an object of this id.
pub open spec fn relates(event: EventView, id: Seq<char>) -> bool {
    exists|k: int|
        0 <= k < event.relationships.len() && (#[trigger] event.relationships[k]).object_id == id
}

/// Whether an object of this id and type is in the log.
pub open spec fn is_of(log: LogView, id: Seq<char>, object_type: Seq<char>) -> bool {
    exists|i: int|
        0 <= i < log.objects.len() && (#[trigger] log.objects[i]).id == id
            && log.objects[i].object_type == object_type
}

/// Whether an object of this id is in the log.
pub open spec fn present(log: LogView, id: Seq<char>) -> bool {
    exists|i: int| 0 <= i < log.objects.len() && (#[trigger] log.objects[i]).id == id
}

/// Whether an object of the id `a` has a relation to the id `b`.
pub open spec fn points(log: LogView, a: Seq<char>, b: Seq<char>) -> bool {
    exists|i: int, k: int|
        0 <= i < log.objects.len() && 0 <= k < log.objects[i].relationships.len()
            && log.objects[i].id == a && (#[trigger] log.objects[i].relationships[k]).object_id == b
}

/// Whether the relations left are exactly those whose targets stay, in their
/// order.
pub open spec fn relations_thinned(
    before: Seq<RelationView>,
    after: Seq<RelationView>,
    stays: spec_fn(Seq<char>) -> bool,
) -> bool {
    thinned(
        before,
        after,
        |r: RelationView| stays(r.object_id),
        |r: RelationView, left: RelationView| left == r,
    )
}

} // verus!
