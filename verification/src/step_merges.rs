//! What merging another log does, told of the events and objects of both logs.

use vstd::prelude::*;

use crate::apply::NotesView;
use crate::double;
use crate::error::ErrorView;
use crate::integrity;
use crate::lists;
use crate::merge;
use crate::merge::InputView;
use crate::merging;
use crate::model::AttributeView;
use crate::model::EventView;
use crate::model::LogView;
use crate::model::ObjectView;
use crate::model::ObservationView;
use crate::model::RelationView;
use crate::model::ValueView;
use crate::recipe::StepView;
use crate::restaging;
use crate::sealing;
use crate::settling;
use crate::staging;
use crate::staging::StagingView;
use crate::step_objects;
use crate::terms;
use crate::typing;

verus! {

/// Whether two attributes are the same: of one name, with values that are the
/// same or two floats that are equal as numbers.
pub open spec fn attributes_equal(a: AttributeView, b: AttributeView) -> bool {
    a.name == b.name && match a.value {
        ValueView::Float(x) => b.value matches ValueView::Float(y) && double::equal(x, y),
        _ => a.value == b.value,
    }
}

/// Whether two events are the same: in id, type and time, in their attributes
/// and in their relations, each in order.
pub open spec fn events_equal(a: EventView, b: EventView) -> bool {
    &&& a.id == b.id
    &&& a.event_type == b.event_type
    &&& a.time == b.time
    &&& a.attributes.len() == b.attributes.len()
    &&& forall|k: int|
        0 <= k < a.attributes.len() ==> attributes_equal(
            #[trigger] a.attributes[k],
            b.attributes[k],
        )
    &&& a.relationships.len() == b.relationships.len()
    &&& forall|k: int|
        0 <= k < a.relationships.len() ==> {
            let (r, s) = (#[trigger] a.relationships[k], b.relationships[k]);
            r.object_id == s.object_id && r.qualifier == s.qualifier
        }
}

/// Whether an event of the log has the id of this one.
pub open spec fn known(log: LogView, event: EventView) -> bool {
    exists|i: int| 0 <= i < log.events.len() && (#[trigger] log.events[i]).id == event.id
}

/// Whether the event of the log that has the id of this one is the same; of
/// several that have it the last counts.
pub open spec fn repeated(log: LogView, event: EventView) -> bool {
    exists|i: int|
        {
            &&& 0 <= i < log.events.len()
            &&& events_equal(#[trigger] log.events[i], event)
            &&& forall|j: int|
                i < j < log.events.len() ==> (#[trigger] log.events[j]).id != event.id
        }
}

/// Whether `count` is the number of items that meet a condition.
pub open spec fn counts<A>(list: Seq<A>, cond: spec_fn(A) -> bool, count: int) -> bool {
    exists|places: Seq<int>| #[trigger]
        terms::ordered_places(places, list.len() as int, count) && forall|k: int|
            0 <= k < list.len() ==> (cond(#[trigger] list[k]) <==> places.contains(k))
}

proof fn lemma_counts<A>(list: Seq<A>, pred: spec_fn(A) -> bool, cond: spec_fn(A) -> bool)
    requires
        forall|k: int| 0 <= k < list.len() ==> pred(#[trigger] list[k]) == cond(list[k]),
    ensures
        counts(list, cond, list.filter(pred).len() as int),
{
    let places = lists::lemma_filter_places(list, pred);
    assert(terms::ordered_places(places, list.len() as int, list.filter(pred).len() as int));
    assert forall|k: int| 0 <= k < list.len() implies (cond(#[trigger] list[k])
        <==> places.contains(k)) by {
        assert(pred(list[k]) == cond(list[k]));
        if places.contains(k) {
            let i = choose|i: int| 0 <= i < places.len() && places[i] == k;
            assert(pred(list[places[i]]));
        }
    }
}

proof fn lemma_events_equal(a: EventView, b: EventView)
    ensures
        events_equal(a, b) <==> merge::same_event(a, b),
{
    if events_equal(a, b) {
        assert forall|i: int| 0 <= i < a.attributes.len() implies (#[trigger] a.attributes[i]).name
            == b.attributes[i].name && merge::same_value(
            a.attributes[i].value,
            b.attributes[i].value,
        ) by {
            assert(attributes_equal(a.attributes[i], b.attributes[i]));
        }
        assert(a.relationships =~= b.relationships) by {
            assert forall|k: int| 0 <= k < a.relationships.len() implies #[trigger] a.relationships[
            k] == b.relationships[k] by {}
        }
    }
    if merge::same_event(a, b) {
        assert forall|k: int| 0 <= k < a.attributes.len() implies attributes_equal(
            #[trigger] a.attributes[k],
            b.attributes[k],
        ) by {}
    }
}

/// The event that is found by an id is the last one that has it.
proof fn lemma_last_found(events: Seq<EventView>, id: Seq<char>)
    ensures
        merge::event_of(events, id) matches Some(event) ==> exists|i: int|
            {
                &&& 0 <= i < events.len()
                &&& #[trigger] events[i] == event
                &&& event.id == id
                &&& forall|j: int| i < j < events.len() ==> (#[trigger] events[j]).id != id
            },
        merge::event_of(events, id) is None ==> forall|j: int|
            0 <= j < events.len() ==> (#[trigger] events[j]).id != id,
    decreases events.len(),
{
    if events.len() > 0 {
        let front = events.drop_last();
        let n = events.len() - 1;
        lemma_last_found(front, id);
        assert(events[n] == events.last());
        if events.last().id != id {
            match merge::event_of(front, id) {
                Some(event) => {
                    let i = choose|i: int|
                        {
                            &&& 0 <= i < front.len()
                            &&& #[trigger] front[i] == event
                            &&& event.id == id
                            &&& forall|j: int|
                                i < j < front.len() ==> (#[trigger] front[j]).id != id
                        };
                    assert forall|j: int| i < j < events.len() implies (#[trigger] events[j]).id
                        != id by {
                        if j < n {
                            assert(front[j].id != id);
                        }
                    }
                    assert(events[i] == event);
                },
                None => {
                    assert forall|j: int| 0 <= j < events.len() implies (#[trigger] events[j]).id
                        != id by {
                        if j < n {
                            assert(front[j].id != id);
                        }
                    }
                },
            }
        }
    }
}

proof fn lemma_found(log: LogView, event: EventView)
    ensures
        (merge::event_of(log.events, event.id) is Some) == known(log, event),
        log.repeats(event) == repeated(log, event),
        log.contradicts(event) == (known(log, event) && !repeated(log, event)),
{
    let events = log.events;
    lemma_last_found(events, event.id);
    match merge::event_of(events, event.id) {
        Some(ours) => {
            let k = choose|k: int|
                {
                    &&& 0 <= k < events.len()
                    &&& #[trigger] events[k] == ours
                    &&& ours.id == event.id
                    &&& forall|j: int|
                        k < j < events.len() ==> (#[trigger] events[j]).id != event.id
                };
            assert(log.events[k].id == event.id);
            lemma_events_equal(ours, event);
            if merge::same_event(ours, event) {
                assert(events_equal(log.events[k], event));
            }
            if repeated(log, event) {
                let i = choose|i: int|
                    {
                        &&& 0 <= i < log.events.len()
                        &&& events_equal(#[trigger] log.events[i], event)
                        &&& forall|j: int|
                            i < j < log.events.len() ==> (#[trigger] log.events[j]).id != event.id
                    };
                if i < k {
                    assert(log.events[k].id != event.id);
                } else if k < i {
                    assert(events[i].id != event.id);
                }
            }
        },
        None => {
            if repeated(log, event) {
                let i = choose|i: int|
                    {
                        &&& 0 <= i < log.events.len()
                        &&& events_equal(#[trigger] log.events[i], event)
                        &&& forall|j: int|
                            i < j < log.events.len() ==> (#[trigger] log.events[j]).id != event.id
                    };
                assert(log.events[i].id != event.id);
            }
        },
    }
}

/// Whether `after` holds the events of the log at their places, and behind them
/// exactly those of the other log whose ids the log does not know, in their
/// order; each with its id, type, time and relations, and with its attributes
/// and their values.
pub open spec fn events_joined(log: LogView, other: LogView, after: LogView) -> bool {
    exists|fresh: Seq<EventView>|
        #![trigger log.events + fresh]
        {
            let all = log.events + fresh;
            &&& terms::thinned(
                other.events,
                fresh,
                |e: EventView| !known(log, e),
                |old: EventView, new: EventView| new == old,
            )
            &&& after.events.len() == all.len()
            &&& forall|i: int|
                0 <= i < all.len() ==> {
                    let (old, new) = (all[i], #[trigger] after.events[i]);
                    &&& new.id == old.id
                    &&& new.event_type == old.event_type
                    &&& new.time == old.time
                    &&& new.relationships == old.relationships
                    &&& step_objects::values_sealed(log, all, old, new)
                }
        }
}

proof fn lemma_events_joined(log: LogView, other: LogView)
    ensures
        events_joined(log, other, log.united(other)),
{
    let after = log.united(other);
    let fresh = log.fresh_events(other);
    let all = log.events + fresh;
    let pred = |e: EventView| merge::event_of(log.events, e.id) is None;
    let stays = |e: EventView| !known(log, e);
    let same = |old: EventView, new: EventView| new == old;
    let s = staging::restaged(log);
    let joined = s.with_log_objects(other.objects);
    let filled = joined.with_events(fresh);
    assert forall|k: int| 0 <= k < other.events.len() implies pred(#[trigger] other.events[k])
        == stays(other.events[k]) by {
        lemma_found(log, other.events[k]);
    }
    terms::lemma_filter_thinned(other.events, fresh, pred, stays, same);
    restaging::lemma_restaged_ids(log);
    restaging::lemma_staged_ids(s, other.objects);
    restaging::lemma_with_events(joined, fresh);
    step_objects::lemma_restaged_schema(log);
    typing::lemma_noted_all(joined, fresh);
    typing::lemma_noted_parts(staging::seeded(log.event_types), log.events, fresh);
    assert(filled.events =~= all);
    assert forall|i: int| 0 <= i < all.len() implies {
        let (old, new) = (all[i], #[trigger] after.events[i]);
        &&& new.id == old.id
        &&& new.event_type == old.event_type
        &&& new.time == old.time
        &&& new.relationships == old.relationships
        &&& step_objects::values_sealed(log, all, old, new)
    } by {
        assert(after.events[i] == staging::conformed_event(filled.event_schema, all[i]));
        step_objects::lemma_values_sealed(log, all, i, after.events[i]);
    }
    assert(log.events + fresh == all);
}

/// Whether `after` holds one object for each id of an object of either log. It
/// has the first named type among them, exactly their relations and their
/// observations; these as they are where every attribute has values of one
/// type, which is the one that the log declares.
pub open spec fn objects_joined(log: LogView, other: LogView, after: LogView) -> bool {
    let all = log.objects + other.objects;
    let none = Map::<Seq<char>, Seq<char>>::empty();
    &&& step_objects::apart(after)
    &&& forall|id: Seq<char>| #[trigger]
        terms::present(after, id) <==> terms::present(log, id) || terms::present(other, id)
    &&& forall|p: int|
        0 <= p < after.objects.len() ==> {
            let object = #[trigger] after.objects[p];
            &&& step_objects::first_type(none, all, object.id, object.object_type)
            &&& forall|r: RelationView| #[trigger]
                object.relationships.contains(r) <==> step_objects::becomes_related(
                    none,
                    all,
                    object.id,
                    r,
                )
            &&& sealing::carried(
                step_objects::observations_into(none, all, object.id),
                object.attributes.to_set(),
                sealing::named(log.objects) && sealing::named(other.objects),
            )
            &&& step_objects::one_kind(all, log.object_types)
                ==> object.attributes.to_set().subset_of(
                step_objects::observations_into(none, all, object.id),
            )
        }
}

proof fn lemma_type_in_first(objects: Seq<ObjectView>, id: Seq<char>)
    ensures
        step_objects::first_type(
            Map::<Seq<char>, Seq<char>>::empty(),
            objects,
            id,
            merging::type_in(objects, id),
        ),
    decreases objects.len(),
{
    let none = Map::<Seq<char>, Seq<char>>::empty();
    if objects.len() > 0 {
        let front = objects.drop_last();
        let n = objects.len() - 1;
        let earlier = merging::type_in(front, id);
        lemma_type_in_first(front, id);
        assert(objects[n] == objects.last());
        if earlier.len() > 0 {
            let i = choose|i: int|
                {
                    &&& 0 <= i < front.len()
                    &&& step_objects::target(none, (#[trigger] front[i]).id) == id
                    &&& front[i].object_type.len() > 0
                    &&& front[i].object_type == earlier
                    &&& forall|j: int|
                        0 <= j < i && step_objects::target(none, (#[trigger] front[j]).id) == id
                            ==> front[j].object_type.len() == 0
                };
            assert(objects[i] == front[i]);
            assert forall|j: int|
                0 <= j < i && step_objects::target(none, (#[trigger] objects[j]).id)
                    == id implies objects[j].object_type.len() == 0 by {
                assert(front[j] == objects[j]);
            }
        } else {
            assert forall|j: int|
                0 <= j < n && step_objects::target(none, (#[trigger] objects[j]).id)
                    == id implies objects[j].object_type.len() == 0 by {
                assert(front[j] == objects[j]);
            }
        }
    }
}

proof fn lemma_type_in_both(a: Seq<ObjectView>, b: Seq<ObjectView>, id: Seq<char>)
    ensures
        merging::type_in(a + b, id) == merging::first_named(
            merging::type_in(a, id),
            merging::type_in(b, id),
        ),
    decreases b.len(),
{
    let both = a + b;
    if b.len() == 0 {
        assert(both =~= a);
    } else {
        lemma_type_in_both(a, b.drop_last(), id);
        assert(both.drop_last() =~= a + b.drop_last());
        assert(both.last() == b.last());
    }
}

proof fn lemma_relates_in_both(
    a: Seq<ObjectView>,
    b: Seq<ObjectView>,
    id: Seq<char>,
    r: RelationView,
)
    ensures
        step_objects::becomes_related(Map::<Seq<char>, Seq<char>>::empty(), a + b, id, r)
            <==> merging::relates_in(a, id, r) || merging::relates_in(b, id, r),
{
    let none = Map::<Seq<char>, Seq<char>>::empty();
    let both = a + b;
    if merging::relates_in(a, id, r) {
        let i = choose|i: int|
            0 <= i < a.len() && #[trigger] a[i].id == id && a[i].relationships.contains(r);
        let k = choose|k: int| 0 <= k < a[i].relationships.len() && a[i].relationships[k] == r;
        assert(both[i].relationships[k] == r);
    }
    if merging::relates_in(b, id, r) {
        let i = choose|i: int|
            0 <= i < b.len() && #[trigger] b[i].id == id && b[i].relationships.contains(r);
        let k = choose|k: int| 0 <= k < b[i].relationships.len() && b[i].relationships[k] == r;
        assert(both[a.len() + i].relationships[k] == r);
    }
    if step_objects::becomes_related(none, both, id, r) {
        let (i, k) = choose|i: int, k: int|
            0 <= i < both.len() && 0 <= k < both[i].relationships.len() && step_objects::target(
                none,
                both[i].id,
            ) == id && step_objects::target(
                none,
                (#[trigger] both[i].relationships[k]).object_id,
            ) == r.object_id && both[i].relationships[k].qualifier == r.qualifier;
        assert(both[i].relationships[k] =~= r);
        assert(both[i].relationships.contains(r));
        if i < a.len() {
            assert(a[i].id == id);
        } else {
            assert(b[i - a.len()].id == id);
        }
    }
}

proof fn lemma_observations_of_both(a: Seq<ObjectView>, b: Seq<ObjectView>, id: Seq<char>)
    ensures
        step_objects::observations_into(Map::<Seq<char>, Seq<char>>::empty(), a + b, id)
            == merging::observations_of(a, id).union(merging::observations_of(b, id)),
{
    let none = Map::<Seq<char>, Seq<char>>::empty();
    let both = a + b;
    let mine = step_objects::observations_into(none, both, id);
    let theirs = merging::observations_of(a, id).union(merging::observations_of(b, id));
    assert forall|seen: ObservationView| mine.contains(seen) == theirs.contains(seen) by {
        if mine.contains(seen) {
            let i = choose|i: int|
                0 <= i < both.len() && step_objects::target(none, (#[trigger] both[i]).id) == id
                    && both[i].attributes.contains(seen);
            if i < a.len() {
                assert(a[i].id == id);
            } else {
                assert(b[i - a.len()].id == id);
            }
        }
        if merging::observes_in(a, id, seen) {
            let i = choose|i: int|
                0 <= i < a.len() && #[trigger] a[i].id == id && a[i].attributes.contains(seen);
            assert(both[i].id == id);
        }
        if merging::observes_in(b, id, seen) {
            let i = choose|i: int|
                0 <= i < b.len() && #[trigger] b[i].id == id && b[i].attributes.contains(seen);
            assert(both[a.len() + i].id == id);
        }
    }
    assert(mine =~= theirs);
}

/// Where every attribute has values of one type, merged observations stay as
/// they are.
proof fn lemma_joined_as_they_are(log: LogView, other: LogView, p: int)
    requires
        0 <= p < log.united(other).objects.len(),
        step_objects::one_kind(log.objects + other.objects, log.object_types),
    ensures
        ({
            let object = log.united(other).objects[p];
            object.attributes.to_set().subset_of(
                merging::observations_of(log.objects, object.id).union(
                    merging::observations_of(other.objects, object.id),
                ),
            )
        }),
{
    let all = log.objects + other.objects;
    let types = log.object_types;
    let start = StagingView {
        events: Seq::<EventView>::empty(),
        objects: Seq::<ObjectView>::empty(),
        event_schema: staging::seeded(log.event_types),
        object_schema: staging::seeded(log.object_types),
    };
    let ours = start.with_log_objects(log.objects);
    let staged = staging::restaged(log);
    let both = staged.with_log_objects(other.objects);
    let filled = both.with_events(log.fresh_events(other));
    let object = log.united(other).objects[p];
    let id = object.id;
    step_objects::lemma_seeded_told(all, types);
    assert forall|i: int, k: int|
        0 <= i < log.objects.len() && 0 <= k
            < log.objects[i].attributes.len() implies step_objects::seen_in(
        all,
        #[trigger] log.objects[i].attributes[k],
    ) by {
        assert(all[i].attributes.contains(log.objects[i].attributes[k]));
    }
    assert forall|i: int, k: int|
        0 <= i < other.objects.len() && 0 <= k
            < other.objects[i].attributes.len() implies step_objects::seen_in(
        all,
        #[trigger] other.objects[i].attributes[k],
    ) by {
        assert(all[log.objects.len() + i].attributes.contains(other.objects[i].attributes[k]));
    }
    step_objects::lemma_objects_told(start, log.objects, all, types);
    restaging::lemma_with_events(ours, log.events);
    step_objects::lemma_objects_told(staged, other.objects, all, types);
    restaging::lemma_with_events(both, log.fresh_events(other));
    merging::lemma_staged_observations(log, other, p);
    let slot = both.objects[p];
    assert(object == staging::sealed_object(filled.object_schema, slot));
    assert forall|k: int| 0 <= k < slot.attributes.len() implies step_objects::seen_in(
        all,
        #[trigger] slot.attributes[k],
    ) by {
        let seen = slot.attributes[k];
        assert(slot.attributes.contains(seen));
        if merging::observes_in(log.objects, id, seen) {
            let i = choose|i: int|
                0 <= i < log.objects.len() && #[trigger] log.objects[i].id == id
                    && log.objects[i].attributes.contains(seen);
            assert(all[i].attributes.contains(seen));
        } else {
            let i = choose|i: int|
                0 <= i < other.objects.len() && #[trigger] other.objects[i].id == id
                    && other.objects[i].attributes.contains(seen);
            assert(all[log.objects.len() + i].attributes.contains(seen));
        }
    }
    step_objects::lemma_sealed_as_they_are(filled.object_schema, slot, all, types);
    assert forall|held: ObservationView| #[trigger]
        object.attributes.to_set().contains(held) implies merging::observations_of(
        log.objects,
        id,
    ).union(merging::observations_of(other.objects, id)).contains(held) by {
        assert(slot.attributes.contains(held));
    }
}

proof fn lemma_objects_joined(log: LogView, other: LogView)
    ensures
        objects_joined(log, other, log.united(other)),
{
    let after = log.united(other);
    let all = log.objects + other.objects;
    let none = Map::<Seq<char>, Seq<char>>::empty();
    merging::law_merge_joins_objects(log, other);
    assert forall|id: Seq<char>| #[trigger] terms::present(after, id) <==> terms::present(log, id)
        || terms::present(other, id) by {
        step_objects::lemma_present(after, id);
        step_objects::lemma_present(log, id);
        step_objects::lemma_present(other, id);
    }
    assert forall|p: int| 0 <= p < after.objects.len() implies {
        let object = #[trigger] after.objects[p];
        &&& step_objects::first_type(none, all, object.id, object.object_type)
        &&& forall|r: RelationView| #[trigger]
            object.relationships.contains(r) <==> step_objects::becomes_related(
                none,
                all,
                object.id,
                r,
            )
        &&& sealing::carried(
            step_objects::observations_into(none, all, object.id),
            object.attributes.to_set(),
            sealing::named(log.objects) && sealing::named(other.objects),
        )
        &&& step_objects::one_kind(all, log.object_types) ==> object.attributes.to_set().subset_of(
            step_objects::observations_into(none, all, object.id),
        )
    } by {
        let object = after.objects[p];
        lemma_type_in_both(log.objects, other.objects, object.id);
        lemma_type_in_first(all, object.id);
        lemma_observations_of_both(log.objects, other.objects, object.id);
        assert forall|r: RelationView| #[trigger] object.relationships.contains(r)
            <==> step_objects::becomes_related(none, all, object.id, r) by {
            lemma_relates_in_both(log.objects, other.objects, object.id, r);
        }
        if step_objects::one_kind(all, log.object_types) {
            lemma_joined_as_they_are(log, other, p);
        }
    }
}

/// Whether the error tells the conflicts of a merge: how many events of the
/// other log share their id with an event of the log and differ from it, and the
/// ids of the first of them, five at most, in their order.
pub open spec fn conflicts_told(
    log: LogView,
    other: LogView,
    total: int,
    ids: Seq<Seq<char>>,
) -> bool {
    &&& ids.len() == (if total < 5 {
        total
    } else {
        5
    })
    &&& exists|places: Seq<int>|
        {
            &&& #[trigger] terms::ordered_places(places, other.events.len() as int, total)
            &&& forall|k: int|
                0 <= k < other.events.len() ==> (known(log, #[trigger] other.events[k])
                    && !repeated(log, other.events[k]) <==> places.contains(k))
            &&& forall|i: int|
                0 <= i < ids.len() ==> #[trigger] ids[i] == other.events[places[i]].id
        }
}

/// A union fails where its file cannot be read, with its path and the reason;
/// else where an event of the other log shares its id with one of the log and
/// differs from it, with how many do and the first of them. Else it joins the
/// events and the objects of both logs and tells how many events of the other
/// are the same as one of the log, unless the result is not valid.
pub proof fn law_union(file: Seq<char>, index: int, log: LogView, input: InputView)
    ensures
        match input.outcome {
            Err(message) => StepView::Union(file).outcome(index, log, input) == Err::<
                (LogView, NotesView),
                ErrorView,
            >(ErrorView::UnionRead { step: index, path: input.path, message }),
            Ok(other) => {
                let differs = exists|k: int|
                    0 <= k < other.events.len() && known(log, #[trigger] other.events[k])
                        && !repeated(log, other.events[k]);
                match StepView::Union(file).outcome(index, log, input) {
                    Ok((after, notes)) => {
                        &&& !differs
                        &&& events_joined(log, other, after)
                        &&& objects_joined(log, other, after)
                        &&& notes.events_lifted is None
                        &&& notes.duplicates_skipped matches Some(count) && counts(
                            other.events,
                            |e: EventView| repeated(log, e),
                            count as int,
                        )
                    },
                    Err(ErrorView::UnionConflict { step, total, ids }) => {
                        &&& differs
                        &&& step == index
                        &&& conflicts_told(log, other, total, ids)
                    },
                    Err(error) => !differs && error is Invalid,
                }
            },
        },
{
    if let Ok(other) = input.outcome {
        let clashing = |e: EventView| log.contradicts(e);
        let differing = |e: EventView| known(log, e) && !repeated(log, e);
        let conflicts = log.conflicts(other);
        assert forall|k: int| 0 <= k < other.events.len() implies clashing(
            #[trigger] other.events[k],
        ) == differing(other.events[k]) by {
            lemma_found(log, other.events[k]);
        }
        let places = lists::lemma_filter_places(other.events, clashing);
        assert(conflicts.len() == places.len());
        if conflicts.len() > 0 {
            let total = conflicts.len() as int;
            let ids = if conflicts.len() > 5 {
                conflicts.take(5)
            } else {
                conflicts
            };
            assert(clashing(other.events[places[0]]));
            assert(differing(other.events[places[0]]));
            assert(terms::ordered_places(places, other.events.len() as int, total));
            assert forall|k: int| 0 <= k < other.events.len() implies (known(
                log,
                #[trigger] other.events[k],
            ) && !repeated(log, other.events[k]) <==> places.contains(k)) by {
                assert(clashing(other.events[k]) == differing(other.events[k]));
                if places.contains(k) {
                    let i = choose|i: int| 0 <= i < places.len() && places[i] == k;
                    assert(clashing(other.events[places[i]]));
                }
            }
            assert forall|i: int| 0 <= i < ids.len() implies #[trigger] ids[i]
                == other.events[places[i]].id by {
                assert(conflicts[i] == other.events.filter(clashing)[i].id);
            }
            assert(conflicts_told(log, other, total, ids));
        } else {
            assert forall|k: int| 0 <= k < other.events.len() implies !(known(
                log,
                #[trigger] other.events[k],
            ) && !repeated(log, other.events[k])) by {
                assert(clashing(other.events[k]) == differing(other.events[k]));
                if clashing(other.events[k]) {
                    assert(places.contains(k));
                }
            }
            lemma_events_joined(log, other);
            lemma_objects_joined(log, other);
            let same = |e: EventView| log.repeats(e);
            let repeating = |e: EventView| repeated(log, e);
            assert forall|k: int| 0 <= k < other.events.len() implies same(
                #[trigger] other.events[k],
            ) == repeating(other.events[k]) by {
                lemma_found(log, other.events[k]);
            }
            lemma_counts(other.events, same, repeating);
        }
    }
}

proof fn lemma_observations_finite(
    s: StagingView,
    id: Seq<char>,
    observations: Seq<ObservationView>,
)
    requires
        sealing::finite_schema(s.object_schema),
    ensures
        sealing::finite_schema(s.with_observations(id, observations).object_schema),
    decreases observations.len(),
{
    if observations.len() > 0 {
        lemma_observations_finite(s, id, observations.drop_last());
    }
}

pub proof fn lemma_objects_finite(s: StagingView, objects: Seq<ObjectView>)
    requires
        sealing::finite_schema(s.object_schema),
    ensures
        sealing::finite_schema(s.with_log_objects(objects).object_schema),
    decreases objects.len(),
{
    if objects.len() > 0 {
        let last = objects.last();
        let before = s.with_log_objects(objects.drop_last());
        lemma_objects_finite(s, objects.drop_last());
        let typed = before.with_object(last.id, last.object_type);
        lemma_observations_finite(typed, last.id, last.attributes);
        step_objects::lemma_relations_told(
            typed.with_observations(last.id, last.attributes),
            last.id,
            last.relationships,
        );
    }
}

/// Two valid logs whose object types have names merge into a valid one: such a
/// union fails only on what cannot be read and on conflicts.
pub proof fn law_valid_logs_merge(file: Seq<char>, index: int, log: LogView, input: InputView)
    requires
        log.valid(),
        input.outcome matches Ok(other) && other.valid() && sealing::named(other.objects),
        sealing::named(log.objects),
    ensures
        match StepView::Union(file).outcome(index, log, input) {
            Ok((after, _)) => after.valid(),
            Err(error) => error is UnionConflict,
        },
{
    let other = input.outcome->Ok_0;
    let fresh = log.fresh_events(other);
    let s = staging::restaged(log);
    let both = s.with_log_objects(other.objects);
    let filled = both.with_events(fresh);
    integrity::lemma_valid_parts(log);
    integrity::lemma_valid_parts(other);
    restaging::lemma_restaged(log);
    restaging::lemma_staged_ids(s, other.objects);
    restaging::lemma_with_events(both, fresh);
    settling::lemma_restaged_fits(log);
    settling::lemma_objects_fit(s, other.objects);
    lemma_objects_finite(s, other.objects);
    let pred = |e: EventView| merge::event_of(log.events, e.id) is None;
    let places = lists::lemma_filter_places(other.events, pred);
    let n = log.events.len() as int;
    assert(filled.events =~= log.events + fresh);
    assert(integrity::distinct_events(filled.events)) by {
        assert forall|i: int, j: int| 0 <= i < j < filled.events.len() implies (
        #[trigger] filled.events[i]).id != (#[trigger] filled.events[j]).id by {
            if j < n {
                assert(log.events[i].id != log.events[j].id);
            } else if i < n {
                assert(pred(other.events[places[j - n]]));
                lemma_found(log, other.events[places[j - n]]);
                assert(log.events[i].id == log.events[i].id);
            } else {
                assert(other.events[places[i - n]].id != other.events[places[j - n]].id);
            }
        }
    }
    assert(sealing::covers_events(filled.event_schema, filled.events)) by {
        assert forall|i: int| 0 <= i < filled.events.len() implies filled.event_schema.contains_key(
            (#[trigger] filled.events[i]).event_type,
        ) by {
            if i < n {
                assert(restaging::occurs(log.events, log.events[i].event_type));
            } else {
                assert(fresh[i - n].event_type == filled.events[i].event_type);
                assert(restaging::occurs(fresh, filled.events[i].event_type));
            }
        }
        assert forall|i: int, k: int|
            0 <= i < filled.events.len() && 0 <= k
                < filled.events[i].attributes.len() implies sealing::knows(
            filled.event_schema,
            filled.events[i].event_type,
            (#[trigger] filled.events[i].attributes[k]).name,
        ) by {
            let name = filled.events[i].attributes[k].name;
            if i < n {
                assert(log.events[i].attributes[k].name == name);
                assert(restaging::occurs_with(log.events, log.events[i].event_type, name));
            } else {
                assert(fresh[i - n].attributes[k].name == name);
                assert(restaging::occurs_with(fresh, fresh[i - n].event_type, name));
            }
        }
    }
    assert(sealing::covers_objects(filled.object_schema, filled.objects)) by {
        assert forall|p: int, k: int|
            0 <= p < both.objects.len() && 0 <= k
                < both.objects[p].attributes.len() implies sealing::knows(
            both.object_schema,
            both.objects[p].object_type,
            (#[trigger] both.objects[p].attributes[k]).name,
        ) by {
            assert(sealing::fits(
                both.object_schema,
                both.objects[p].object_type,
                both.objects[p].attributes,
            ));
        }
    }
    assert(filled.event_references_held()) by {
        assert forall|i: int, k: int|
            0 <= i < filled.events.len() && 0 <= k
                < filled.events[i].relationships.len() implies staging::staged(
            filled.objects,
            (#[trigger] filled.events[i].relationships[k]).object_id,
        ) by {
            let id = filled.events[i].relationships[k].object_id;
            if i < n {
                assert(log.has_object(log.events[i].relationships[k].object_id));
                assert(staging::staged(s.objects, id));
            } else {
                assert(other.has_object(other.events[places[i - n]].relationships[k].object_id));
                assert(staging::staged(other.objects, id));
            }
            assert(staging::staged(both.objects, id));
        }
    }
    assert(filled.object_references_held()) by {
        assert forall|p: int, k: int|
            0 <= p < filled.objects.len() && 0 <= k
                < filled.objects[p].relationships.len() implies staging::staged(
            filled.objects,
            (#[trigger] filled.objects[p].relationships[k]).object_id,
        ) by {
            lemma_target_staged(log, other, p, k);
        }
    }
    sealing::lemma_seal(filled);
}

proof fn lemma_target_staged(log: LogView, other: LogView, p: int, k: int)
    requires
        log.valid(),
        other.valid(),
        0 <= p < staging::restaged(log).with_log_objects(other.objects).objects.len(),
        0 <= k < staging::restaged(log).with_log_objects(
            other.objects,
        ).objects[p].relationships.len(),
    ensures
        ({
            let both = staging::restaged(log).with_log_objects(other.objects);
            staging::staged(both.objects, both.objects[p].relationships[k].object_id)
        }),
{
    let s = staging::restaged(log);
    let both = s.with_log_objects(other.objects);
    let object = both.objects[p];
    let r = object.relationships[k];
    integrity::lemma_valid_parts(log);
    integrity::lemma_valid_parts(other);
    restaging::lemma_restaged(log);
    restaging::lemma_staged_ids(s, other.objects);
    merging::lemma_staged_relations(log, other, p);
    assert(object.relationships.contains(r));
    if merging::relates_in(log.objects, object.id, r) {
        let i = choose|i: int|
            0 <= i < log.objects.len() && #[trigger] log.objects[i].id == object.id
                && log.objects[i].relationships.contains(r);
        let m = choose|m: int|
            0 <= m < log.objects[i].relationships.len() && log.objects[i].relationships[m] == r;
        assert(log.has_object(log.objects[i].relationships[m].object_id));
        assert(staging::staged(s.objects, r.object_id));
    } else {
        let i = choose|i: int|
            0 <= i < other.objects.len() && #[trigger] other.objects[i].id == object.id
                && other.objects[i].relationships.contains(r);
        let m = choose|m: int|
            0 <= m < other.objects[i].relationships.len() && other.objects[i].relationships[m] == r;
        assert(other.has_object(other.objects[i].relationships[m].object_id));
        assert(staging::staged(other.objects, r.object_id));
    }
    assert(staging::staged(both.objects, r.object_id));
}

/// The ids of objects.
spec fn ids(objects: Seq<ObjectView>) -> Seq<Seq<char>> {
    objects.map_values(|o: ObjectView| o.id)
}

/// Adding to the object of an id leaves the ids, but for that one where it is
/// new.
proof fn lemma_slot_ids(objects: Seq<ObjectView>, id: Seq<char>)
    ensures
        ids(staging::with_slot(objects, id)) == if staging::staged(objects, id) {
            ids(objects)
        } else {
            ids(objects).push(id)
        },
        staging::staged(staging::with_slot(objects, id), id),
{
    let after = staging::with_slot(objects, id);
    if staging::staged(objects, id) {
    } else {
        assert(ids(after) =~= ids(objects).push(id));
        assert(after[objects.len() as int].id == id);
    }
}

proof fn lemma_extended_ids(
    objects: Seq<ObjectView>,
    id: Seq<char>,
    attributes: Seq<ObservationView>,
    relationships: Seq<RelationView>,
)
    requires
        staging::staged(objects, id),
    ensures
        ids(staging::extended_slot(objects, id, attributes, relationships)) == ids(objects),
        staging::staged(staging::extended_slot(objects, id, attributes, relationships), id),
{
    let after = staging::extended_slot(objects, id, attributes, relationships);
    assert(ids(after) =~= ids(objects));
    let i = choose|i: int| 0 <= i < objects.len() && #[trigger] objects[i].id == id;
    assert(ids(objects)[i] == id);
    assert(after[i].id == id);
}

proof fn lemma_observations_ids(
    s: StagingView,
    id: Seq<char>,
    observations: Seq<ObservationView>,
)
    requires
        staging::staged(s.objects, id),
    ensures
        ids(s.with_observations(id, observations).objects) == ids(s.objects),
        staging::staged(s.with_observations(id, observations).objects, id),
    decreases observations.len(),
{
    if observations.len() > 0 {
        let before = s.with_observations(id, observations.drop_last());
        lemma_observations_ids(s, id, observations.drop_last());
        lemma_extended_ids(before.objects, id, seq![observations.last()], seq![]);
    }
}

proof fn lemma_relations_ids(s: StagingView, id: Seq<char>, relations: Seq<RelationView>)
    requires
        staging::staged(s.objects, id),
    ensures
        ids(s.with_o2os(id, relations).objects) == ids(s.objects),
        staging::staged(s.with_o2os(id, relations).objects, id),
    decreases relations.len(),
{
    if relations.len() > 0 {
        let before = s.with_o2os(id, relations.drop_last());
        lemma_relations_ids(s, id, relations.drop_last());
        lemma_extended_ids(before.objects, id, seq![], seq![relations.last()]);
    }
}

proof fn lemma_object_ids(s: StagingView, object: ObjectView)
    ensures
        ids(s.with_log_object(object).objects) == if staging::staged(s.objects, object.id) {
            ids(s.objects)
        } else {
            ids(s.objects).push(object.id)
        },
{
    let typed = s.with_object(object.id, object.object_type);
    let slots = staging::with_slot(s.objects, object.id);
    lemma_slot_ids(s.objects, object.id);
    assert(ids(typed.objects) =~= ids(slots)) by {
        assert forall|i: int| 0 <= i < slots.len() implies #[trigger] ids(typed.objects)[i] == ids(
            slots,
        )[i] by {}
    }
    let i = choose|i: int| 0 <= i < slots.len() && #[trigger] slots[i].id == object.id;
    assert(ids(slots)[i] == object.id);
    assert(typed.objects[i].id == object.id);
    lemma_observations_ids(typed, object.id, object.attributes);
    lemma_relations_ids(
        typed.with_observations(object.id, object.attributes),
        object.id,
        object.relationships,
    );
}

proof fn lemma_objects_ids(s: StagingView, objects: Seq<ObjectView>)
    requires
        integrity::distinct_objects(objects),
    ensures
        ids(s.with_log_objects(objects).objects) == ids(s.objects) + ids(
            objects.filter(|o: ObjectView| !staging::staged(s.objects, o.id)),
        ),
    decreases objects.len(),
{
    let fresh = |o: ObjectView| !staging::staged(s.objects, o.id);
    if objects.len() == 0 {
        reveal_with_fuel(Seq::filter, 1);
        assert(ids(objects.filter(fresh)) =~= Seq::<Seq<char>>::empty());
        assert(ids(s.objects) + ids(objects.filter(fresh)) =~= ids(s.objects));
    } else {
        let front = objects.drop_last();
        let last = objects.last();
        let n = objects.len() - 1;
        assert(integrity::distinct_objects(front)) by {
            assert forall|i: int, j: int| 0 <= i < j < front.len() implies (
            #[trigger] front[i]).id != (#[trigger] front[j]).id by {
                assert(objects[i].id != objects[j].id);
            }
        }
        lemma_objects_ids(s, front);
        let before = s.with_log_objects(front);
        restaging::lemma_staged_ids(s, front);
        lemma_object_ids(before, last);
        assert(!staging::staged(front, last.id)) by {
            if staging::staged(front, last.id) {
                let i = choose|i: int| 0 <= i < front.len() && #[trigger] front[i].id == last.id;
                assert(objects[i].id != objects[n].id);
            }
        }
        assert(staging::staged(before.objects, last.id) <==> staging::staged(s.objects, last.id));
        assert(front.push(last) =~= objects);
        front.lemma_filter_push(last, fresh);
        if fresh(last) {
            assert(ids(front.filter(fresh).push(last)) =~= ids(front.filter(fresh)).push(last.id));
            assert(ids(s.objects) + ids(objects.filter(fresh)) =~= (ids(s.objects) + ids(
                front.filter(fresh),
            )).push(last.id));
        }
    }
}

/// A union leaves the objects of the log at their places, and behind them come
/// those of the other log whose ids the log has not, in their order.
pub proof fn law_union_keeps_the_order_of_objects(
    file: Seq<char>,
    index: int,
    log: LogView,
    input: InputView,
)
    requires
        step_objects::apart(log),
        input.outcome matches Ok(other) ==> step_objects::apart(other),
    ensures
        StepView::Union(file).outcome(index, log, input) matches Ok((after, _)) ==> {
            let other = input.outcome->Ok_0;
            let n = log.objects.len() as int;
            &&& after.objects.len() >= n
            &&& forall|i: int|
                0 <= i < n ==> (#[trigger] after.objects[i]).id == log.objects[i].id
            &&& terms::thinned(
                other.objects,
                after.objects.skip(n),
                |o: ObjectView| !terms::present(log, o.id),
                |old: ObjectView, new: ObjectView| new.id == old.id,
            )
        },
{
    if let Ok((after, _)) = StepView::Union(file).outcome(index, log, input) {
        let other = input.outcome->Ok_0;
        let n = log.objects.len() as int;
        let s = staging::restaged(log);
        let both = s.with_log_objects(other.objects);
        let pred = |o: ObjectView| !staging::staged(s.objects, o.id);
        let stays = |o: ObjectView| !terms::present(log, o.id);
        let fresh = other.objects.filter(pred);
        restaging::lemma_restaged(log);
        lemma_objects_ids(s, other.objects);
        restaging::lemma_with_events(both, log.fresh_events(other));
        assert forall|i: int| 0 <= i < after.objects.len() implies (
        #[trigger] after.objects[i]).id == (ids(log.objects) + ids(fresh))[i] by {
            assert(ids(both.objects)[i] == both.objects[i].id);
        }
        assert(ids(both.objects).len() == n + fresh.len());
        assert forall|i: int| 0 <= i < n implies (#[trigger] after.objects[i]).id
            == log.objects[i].id by {
            assert((ids(log.objects) + ids(fresh))[i] == ids(log.objects)[i]);
        }
        let tail = after.objects.skip(n);
        let becomes = |old: ObjectView, new: ObjectView| new.id == old.id;
        assert forall|k: int| 0 <= k < other.objects.len() implies pred(#[trigger] other.objects[k])
            == stays(other.objects[k]) by {
            step_objects::lemma_present(log, other.objects[k].id);
        }
        assert forall|i: int| 0 <= i < tail.len() implies becomes(fresh[i], #[trigger] tail[i]) by {
            assert(tail[i] == after.objects[n + i]);
            assert((ids(log.objects) + ids(fresh))[n + i] == ids(fresh)[i]);
        }
        terms::lemma_filter_thinned(other.objects, tail, pred, stays, becomes);
    }
}

} // verus!
