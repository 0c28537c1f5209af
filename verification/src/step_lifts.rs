//! What lifting events does, told of the events and of the objects' types and
//! relations.

use vstd::prelude::*;

use crate::error::ErrorView;
use crate::lift;
use crate::lists;
use crate::merge::InputView;
use crate::model::EventView;
use crate::model::LogView;
use crate::recipe::LiftView;
use crate::recipe::StepView;
use crate::step_objects;
use crate::terms;
use crate::text;

verus! {

/// Whether an event lifts to this id: that of an object of the type to lift to,
/// where the event relates to an object of the type to lift from and one of the
/// two objects has a relation to the other.
pub open spec fn lifts_to(log: LogView, lift: LiftView, event: EventView, id: Seq<char>) -> bool {
    terms::is_of(log, id, lift.to) && exists|k: int|
        {
            let from = (#[trigger] event.relationships[k]).object_id;
            &&& 0 <= k < event.relationships.len()
            &&& terms::is_of(log, from, lift.from)
            &&& terms::points(log, from, id) || terms::points(log, id, from)
        }
}

/// Whether `new` is the event `old` lifted: it has all that `old` has, and
/// behind its relations new ones with the qualifier of the lift, in the order of
/// their targets. They go to exactly the ids that the event lifts to and did not
/// relate to, where its type is listed; where it is not there are none.
pub open spec fn lifted(log: LogView, lift: LiftView, old: EventView, new: EventView) -> bool {
    &&& new.id == old.id
    &&& new.event_type == old.event_type
    &&& new.time == old.time
    &&& new.attributes == old.attributes
    &&& new.relationships.len() >= old.relationships.len()
    &&& forall|k: int|
        0 <= k < old.relationships.len() ==> #[trigger] new.relationships[k]
            == old.relationships[k]
    &&& forall|k: int|
        old.relationships.len() <= k < new.relationships.len() ==> {
            let added = #[trigger] new.relationships[k];
            &&& added.qualifier == lift.qualifier
            &&& !terms::relates(old, added.object_id)
            &&& lifts_to(log, lift, old, added.object_id)
            &&& exists|j: int|
                0 <= j < lift.event_types.len() && #[trigger] lift.event_types[j] == old.event_type
        }
    &&& forall|k: int, m: int|
        old.relationships.len() <= k < m < new.relationships.len() ==> text::precedes(
            (#[trigger] new.relationships[k]).object_id,
            (#[trigger] new.relationships[m]).object_id,
        )
    &&& forall|id: Seq<char>|
        #![trigger lifts_to(log, lift, old, id)]
        (exists|j: int|
            0 <= j < lift.event_types.len() && #[trigger] lift.event_types[j] == old.event_type)
            && lifts_to(log, lift, old, id) ==> terms::relates(new, id)
}

proof fn lemma_relates(event: EventView, id: Seq<char>)
    ensures
        terms::relates(event, id) <==> event.relates_to(id),
{
    if terms::relates(event, id) {
        let k = choose|k: int|
            0 <= k < event.relationships.len() && (#[trigger] event.relationships[k]).object_id
                == id;
        assert(event.relationships[k].object_id == id);
    }
    if event.relates_to(id) {
        let k = choose|k: int|
            0 <= k < event.relationships.len() && #[trigger] event.relationships[k].object_id == id;
        assert(event.relationships[k].object_id == id);
    }
}

proof fn lemma_lifts_to(log: LogView, lift: LiftView, event: EventView, id: Seq<char>)
    ensures
        lifts_to(log, lift, event, id) <==> exists|f: Seq<char>| #[trigger]
            event.relates_to(f) && log.linked(lift, f, id),
{
    step_objects::lemma_is_of(log, id, lift.to);
    if lifts_to(log, lift, event, id) {
        let k = choose|k: int|
            {
                let from = (#[trigger] event.relationships[k]).object_id;
                &&& 0 <= k < event.relationships.len()
                &&& terms::is_of(log, from, lift.from)
                &&& terms::points(log, from, id) || terms::points(log, id, from)
            };
        let f = event.relationships[k].object_id;
        step_objects::lemma_is_of(log, f, lift.from);
        step_objects::lemma_points(log, f, id);
        step_objects::lemma_points(log, id, f);
        assert(event.relates_to(f) && log.linked(lift, f, id));
    }
    if exists|f: Seq<char>| #[trigger] event.relates_to(f) && log.linked(lift, f, id) {
        let f = choose|f: Seq<char>| #[trigger] event.relates_to(f) && log.linked(lift, f, id);
        step_objects::lemma_is_of(log, f, lift.from);
        step_objects::lemma_points(log, f, id);
        step_objects::lemma_points(log, id, f);
        let k = choose|k: int|
            0 <= k < event.relationships.len() && #[trigger] event.relationships[k].object_id == f;
        assert(event.relationships[k].object_id == f);
    }
}

proof fn lemma_lifted(log: LogView, lift: LiftView, old: EventView)
    ensures
        lifted(log, lift, old, log.lifted_event(lift, old)),
        log.gains(lift, old) <==> log.lifted_event(lift, old).relationships.len()
            > old.relationships.len(),
{
    let new = log.lifted_event(lift, old);
    let n = old.relationships.len() as int;
    let additions = log.additions(lift, old);
    let order = text::in_order(additions);
    lift::lemma_additions(log, lift, old);
    if log.gains(lift, old) {
        let t = choose|t: Seq<char>| #[trigger] additions.contains(t);
        assert(order.to_set().contains(t));
    }
    assert forall|k: int| n <= k < new.relationships.len() implies {
        let added = #[trigger] new.relationships[k];
        &&& added.qualifier == lift.qualifier
        &&& !terms::relates(old, added.object_id)
        &&& lifts_to(log, lift, old, added.object_id)
        &&& exists|j: int|
            0 <= j < lift.event_types.len() && #[trigger] lift.event_types[j] == old.event_type
    } by {
        let t = new.relationships[k].object_id;
        assert(t == order[k - n]);
        assert(order.to_set().contains(t));
        lemma_relates(old, t);
        lemma_lifts_to(log, lift, old, t);
        let j = choose|j: int|
            0 <= j < lift.event_types.len() && lift.event_types[j] == old.event_type;
        assert(lift.event_types[j] == old.event_type);
    }
    assert forall|k: int, m: int| n <= k < m < new.relationships.len() implies text::precedes(
        (#[trigger] new.relationships[k]).object_id,
        (#[trigger] new.relationships[m]).object_id,
    ) by {
        assert(text::precedes(order[k - n], order[m - n]));
    }
    assert forall|id: Seq<char>|
        #![trigger lifts_to(log, lift, old, id)]
        (exists|j: int|
            0 <= j < lift.event_types.len() && #[trigger] lift.event_types[j] == old.event_type)
            && lifts_to(log, lift, old, id) implies terms::relates(new, id) by {
        lemma_lifts_to(log, lift, old, id);
        let f = choose|f: Seq<char>| #[trigger] old.relates_to(f) && log.linked(lift, f, id);
        let j = choose|j: int|
            0 <= j < lift.event_types.len() && #[trigger] lift.event_types[j] == old.event_type;
        assert(lift.event_types.contains(old.event_type));
        lift::law_lifts_reach_every_link(log, lift, old, f, id);
        lemma_relates(new, id);
    }
}

/// Whether `count` is the number of events that have gained a relation.
pub open spec fn gaining(before: LogView, after: LogView, count: nat) -> bool {
    exists|places: Seq<int>| #[trigger]
        terms::ordered_places(places, before.events.len() as int, count as int) && forall|k: int|
            0 <= k < before.events.len() ==> (places.contains(k) <==> (
            #[trigger] after.events[k]).relationships.len() > before.events[k].relationships.len())
}

/// Lifting fails exactly where no event type is listed. It leaves every event
/// at its place, lifted, and the objects and all that is declared; and it tells
/// how many events have gained a relation.
pub proof fn law_lift_events(lift: LiftView, index: int, log: LogView, input: InputView)
    ensures
        match StepView::LiftEvents(lift).outcome(index, log, input) {
            Ok((after, notes)) => {
                &&& lift.event_types.len() > 0
                &&& after.objects == log.objects
                &&& after.event_types == log.event_types
                &&& after.object_types == log.object_types
                &&& after.events.len() == log.events.len()
                &&& forall|i: int|
                    0 <= i < log.events.len() ==> lifted(
                        log,
                        lift,
                        log.events[i],
                        #[trigger] after.events[i],
                    )
                &&& notes.duplicates_skipped is None
                &&& notes.events_lifted matches Some(count) && gaining(log, after, count)
            },
            Err(error) => lift.event_types.len() == 0 && error == (ErrorView::EmptyLiftEventTypes {
                step: index,
            }),
        },
{
    if lift.event_types.len() > 0 {
        let after = log.lifting(lift);
        let pred = |e: EventView| log.gains(lift, e);
        let places = lists::lemma_filter_places(log.events, pred);
        let count = log.lift_count(lift);
        assert forall|i: int| 0 <= i < log.events.len() implies lifted(
            log,
            lift,
            log.events[i],
            #[trigger] after.events[i],
        ) by {
            lemma_lifted(log, lift, log.events[i]);
        }
        assert(terms::ordered_places(places, log.events.len() as int, count as int));
        assert forall|k: int| 0 <= k < log.events.len() implies (places.contains(k) <==> (
        #[trigger] after.events[k]).relationships.len() > log.events[k].relationships.len()) by {
            lemma_lifted(log, lift, log.events[k]);
            assert(after.events[k] == log.lifted_event(lift, log.events[k]));
            if places.contains(k) {
                let i = choose|i: int| 0 <= i < places.len() && places[i] == k;
                assert(pred(log.events[places[i]]));
            }
            if log.gains(lift, log.events[k]) {
                assert(pred(log.events[k]));
            }
        }
        assert(gaining(log, after, count));
    }
}

} // verus!
