//! What merging another log does.

use vstd::prelude::*;

use crate::aliasing;
use crate::apply::NotesView;
use crate::apply::StageView;
use crate::double;
use crate::error::ErrorView;
use crate::sealing;
use crate::integrity;
use crate::lists;
use crate::merge;
use crate::merge::InputView;
use crate::model::EventView;
use crate::model::LogView;
use crate::model::ObjectView;
use crate::model::ObservationView;
use crate::model::RelationView;
use crate::model::ValueView;
use crate::restaging;
use crate::settling;
use crate::staging;
use crate::staging::StagingView;

verus! {

/// Whether the log has an event of an id is whether one is found by it.
pub proof fn lemma_event_of(events: Seq<EventView>, id: Seq<char>)
    ensures
        merge::event_of(events, id) is Some <==> exists|i: int|
            0 <= i < events.len() && #[trigger] events[i].id == id,
        merge::event_of(events, id) matches Some(event) ==> event.id == id && events.contains(
            event,
        ),
    decreases events.len(),
{
    if events.len() > 0 {
        let front = events.drop_last();
        let n = events.len() - 1;
        lemma_event_of(front, id);
        assert(events[n] == events.last());
        if merge::event_of(front, id) is Some {
            let i = choose|i: int| 0 <= i < front.len() && #[trigger] front[i].id == id;
            assert(events[i].id == id);
            let event = merge::event_of(front, id)->0;
            let k = choose|k: int| 0 <= k < front.len() && front[k] == event;
            assert(events[k] == event);
        }
        if (exists|i: int| 0 <= i < events.len() && #[trigger] events[i].id == id)
            && events.last().id != id {
            let i = choose|i: int| 0 <= i < events.len() && #[trigger] events[i].id == id;
            assert(front[i].id == id);
        }
    }
}

/// Every incoming event is skipped as a duplicate, reported as a conflict, or
/// added.
pub proof fn law_incoming_events_are_counted(log: LogView, other: LogView)
    ensures
        log.duplicates(other) + log.conflicts(other).len() + log.fresh_events(other).len()
            == other.events.len(),
{
    let fresh = |e: EventView| merge::event_of(log.events, e.id) is None;
    let known = |e: EventView| !fresh(e);
    lists::lemma_filter_parts(other.events, fresh);
    lemma_known_parts(log, other.events);
    assert(other.events.filter(known).len() == other.events.filter(
        |e: EventView| log.repeats(e),
    ).len() + other.events.filter(|e: EventView| log.contradicts(e)).len());
}

proof fn lemma_known_parts(log: LogView, events: Seq<EventView>)
    ensures
        ({
            let fresh = |e: EventView| merge::event_of(log.events, e.id) is None;
            events.filter(|e: EventView| !fresh(e)).len() == events.filter(
                |e: EventView| log.repeats(e),
            ).len() + events.filter(|e: EventView| log.contradicts(e)).len()
        }),
    decreases events.len(),
{
    let fresh = |e: EventView| merge::event_of(log.events, e.id) is None;
    let known = |e: EventView| !fresh(e);
    let repeated = |e: EventView| log.repeats(e);
    let contradicted = |e: EventView| log.contradicts(e);
    if events.len() == 0 {
        reveal_with_fuel(Seq::filter, 1);
    } else {
        let front = events.drop_last();
        lemma_known_parts(log, front);
        assert(front.push(events.last()) =~= events);
        front.lemma_filter_push(events.last(), known);
        front.lemma_filter_push(events.last(), repeated);
        front.lemma_filter_push(events.last(), contradicted);
    }
}

/// A merge never drops: the merged log holds the events of the log, at their
/// places, and behind them the fresh events of the other.
pub proof fn law_merge_appends_events(log: LogView, other: LogView)
    ensures
        ({
            let after = log.united(other);
            let fresh = log.fresh_events(other);
            &&& after.events.len() == log.events.len() + fresh.len()
            &&& forall|i: int|
                0 <= i < log.events.len() ==> (#[trigger] after.events[i]).id == log.events[i].id
            &&& forall|i: int|
                0 <= i < fresh.len() ==> #[trigger] after.events[log.events.len() + i].id
                    == fresh[i].id
        }),
{
    let s = staging::restaged(log).with_log_objects(other.objects);
    restaging::lemma_restaged_ids(log);
    restaging::lemma_staged_ids(staging::restaged(log), other.objects);
    restaging::lemma_with_events(s, log.fresh_events(other));
}

/// The merged log has the events and the objects of both logs, and no others.
pub proof fn law_merge_joins_both(log: LogView, other: LogView, id: Seq<char>)
    ensures
        log.united(other).has_event(id) <==> log.has_event(id) || other.has_event(id),
        log.united(other).has_object(id) <==> log.has_object(id) || other.has_object(id),
{
    let after = log.united(other);
    let fresh = log.fresh_events(other);
    let pred = |e: EventView| merge::event_of(log.events, e.id) is None;
    law_merge_appends_events(log, other);
    lemma_event_of(log.events, id);
    let places = lists::lemma_filter_places(other.events, pred);
    let n = log.events.len() as int;
    if after.has_event(id) {
        let i = choose|i: int| 0 <= i < after.events.len() && #[trigger] after.events[i].id == id;
        if i < n {
            assert(log.events[i].id == id);
        } else {
            assert(after.events[n + (i - n)].id == fresh[i - n].id);
            assert(other.events[places[i - n]].id == id);
        }
    }
    if log.has_event(id) {
        let i = choose|i: int| 0 <= i < log.events.len() && #[trigger] log.events[i].id == id;
        assert(after.events[i].id == id);
    } else if other.has_event(id) {
        let k = choose|k: int| 0 <= k < other.events.len() && #[trigger] other.events[k].id == id;
        assert(pred(other.events[k]));
        assert(places.contains(k));
        let i = choose|i: int| 0 <= i < places.len() && places[i] == k;
        assert(after.events[n + i].id == id);
    }
    let s = staging::restaged(log).with_log_objects(other.objects);
    let t = s.with_events(fresh);
    restaging::lemma_restaged_ids(log);
    restaging::lemma_staged_ids(staging::restaged(log), other.objects);
    restaging::lemma_with_events(s, fresh);
    assert(staging::staged(s.objects, id) <==> staging::staged(staging::restaged(log).objects, id)
        || staging::staged(other.objects, id));
    if after.has_object(id) {
        let i = choose|i: int| 0 <= i < after.objects.len() && #[trigger] after.objects[i].id == id;
        assert(t.objects[i].id == id);
    }
    if staging::staged(t.objects, id) {
        let i = choose|i: int| 0 <= i < t.objects.len() && #[trigger] t.objects[i].id == id;
        assert(after.objects[i].id == id);
    }
}

/// A union never drops an event.
pub proof fn law_union_drops_nothing(stage: StageView, index: int, input: InputView)
    requires
        stage.step is Union,
        stage.step.outcome(index, stage.before, input) == Ok::<(LogView, NotesView), ErrorView>(
            (stage.after, stage.notes),
        ),
    ensures
        stage.dropped().len() == 0,
        stage.before.events.len() <= stage.after.events.len(),
{
    let log = stage.before;
    let other = input.outcome->Ok_0;
    assert(stage.after == log.united(other));
    law_merge_appends_events(log, other);
    let gone = |e: EventView| !stage.after.has_event(e.id);
    assert forall|i: int| 0 <= i < log.events.len() implies !gone(#[trigger] log.events[i]) by {
        assert(stage.after.events[i].id == log.events[i].id);
    }
    lists::lemma_filter_none(log.events, gone);
    assert(stage.dropped() == log.events.filter(gone));
}

/// Whether no value of the event is a NaN.
pub open spec fn without_nan(event: EventView) -> bool {
    forall|k: int|
        0 <= k < event.attributes.len() ==> ((#[trigger] event.attributes[k]).value matches
            ValueView::Float(bits) ==> !double::is_nan(bits))
}

/// An event is identical to itself, unless it holds a NaN.
pub proof fn law_events_repeat_themselves(event: EventView)
    requires
        without_nan(event),
    ensures
        merge::same_event(event, event),
{
    assert forall|i: int| 0 <= i < event.attributes.len() implies (
    #[trigger] event.attributes[i]).name == event.attributes[i].name && merge::same_value(
        event.attributes[i].value,
        event.attributes[i].value,
    ) by {}
}

/// A log merged with itself gains no event and has no conflict: every event is
/// a duplicate.
pub proof fn law_merging_itself(log: LogView)
    requires
        integrity::distinct_events(log.events),
        forall|i: int| 0 <= i < log.events.len() ==> without_nan(#[trigger] log.events[i]),
    ensures
        log.duplicates(log) == log.events.len(),
        log.conflicts(log).len() == 0,
        log.fresh_events(log).len() == 0,
{
    let repeated = |e: EventView| log.repeats(e);
    assert forall|i: int| 0 <= i < log.events.len() implies repeated(#[trigger] log.events[i]) by {
        let event = log.events[i];
        lemma_event_of(log.events, event.id);
        assert(log.events[i].id == event.id);
        let found = merge::event_of(log.events, event.id)->0;
        let k = choose|k: int| 0 <= k < log.events.len() && log.events[k] == found;
        if k < i {
            assert(log.events[k].id != log.events[i].id);
        } else if i < k {
            assert(log.events[i].id != log.events[k].id);
        }
        law_events_repeat_themselves(event);
    }
    lists::lemma_filter_all(log.events, repeated);
    law_incoming_events_are_counted(log, log);
}

/// Whether an object of this id has this relation.
pub open spec fn relates_in(
    objects: Seq<ObjectView>,
    id: Seq<char>,
    relation: RelationView,
) -> bool {
    exists|i: int|
        0 <= i < objects.len() && #[trigger] objects[i].id == id
            && objects[i].relationships.contains(relation)
}

/// Whether an object of this id has this observation.
pub open spec fn observes_in(
    objects: Seq<ObjectView>,
    id: Seq<char>,
    seen: ObservationView,
) -> bool {
    exists|i: int|
        0 <= i < objects.len() && #[trigger] objects[i].id == id
            && objects[i].attributes.contains(seen)
}

/// The type of the objects of this id: the first among them that has a name.
pub open spec fn type_in(objects: Seq<ObjectView>, id: Seq<char>) -> Seq<char>
    decreases objects.len(),
{
    if objects.len() == 0 {
        Seq::empty()
    } else {
        let earlier = type_in(objects.drop_last(), id);
        if earlier.len() == 0 && objects.last().id == id {
            objects.last().object_type
        } else {
            earlier
        }
    }
}

/// The first of two type names that is not empty.
pub open spec fn first_named(a: Seq<char>, b: Seq<char>) -> Seq<char> {
    if a.len() == 0 {
        b
    } else {
        a
    }
}

/// Where no object has this id, there is no type of it.
proof fn lemma_type_in_none(objects: Seq<ObjectView>, id: Seq<char>)
    requires
        !staging::staged(objects, id),
    ensures
        type_in(objects, id) == Seq::<char>::empty(),
    decreases objects.len(),
{
    if objects.len() > 0 {
        let front = objects.drop_last();
        assert(objects[objects.len() - 1].id != id);
        if staging::staged(front, id) {
            let i = choose|i: int| 0 <= i < front.len() && #[trigger] front[i].id == id;
            assert(objects[i].id == id);
        }
        lemma_type_in_none(front, id);
    }
}

/// In a list without repeats the type of an id is that of its object.
proof fn lemma_type_in_one(objects: Seq<ObjectView>, p: int)
    requires
        integrity::distinct_objects(objects),
        0 <= p < objects.len(),
    ensures
        type_in(objects, objects[p].id) == objects[p].object_type,
    decreases objects.len(),
{
    let front = objects.drop_last();
    let n = objects.len() - 1;
    assert(integrity::distinct_objects(front)) by {
        assert forall|i: int, j: int| 0 <= i < j < front.len() implies (#[trigger] front[i]).id != (
        #[trigger] front[j]).id by {
            assert(objects[i].id != objects[j].id);
        }
    }
    if p < n {
        assert(front[p] == objects[p]);
        lemma_type_in_one(front, p);
        assert(objects[p].id != objects[n].id);
    } else {
        if staging::staged(front, objects[n].id) {
            let i = choose|i: int| 0 <= i < front.len() && #[trigger] front[i].id == objects[n].id;
            assert(objects[i].id != objects[n].id);
        }
        lemma_type_in_none(front, objects[n].id);
    }
}

/// Whether the schema knows the type of every staged object, and no two of
/// them have the same id.
spec fn in_shape(s: StagingView) -> bool {
    integrity::distinct_objects(s.objects) && forall|i: int|
        0 <= i < s.objects.len() ==> s.object_schema.contains_key(
            (#[trigger] s.objects[i]).object_type,
        )
}

/// Of the objects of one id in a list without repeats, one alone counts.
proof fn lemma_in_one(objects: Seq<ObjectView>, p: int)
    requires
        integrity::distinct_objects(objects),
        0 <= p < objects.len(),
    ensures
        forall|relation: RelationView| #[trigger]
            relates_in(objects, objects[p].id, relation)
                <==> objects[p].relationships.contains(relation),
        forall|seen: ObservationView| #[trigger]
            observes_in(objects, objects[p].id, seen) <==> objects[p].attributes.contains(seen),
{
    let id = objects[p].id;
    restaging::lemma_slot(objects, id, p);
    assert forall|relation: RelationView| #[trigger] relates_in(objects, id, relation)
        <==> objects[p].relationships.contains(relation) by {
        assert(objects[p].id == id);
    }
    assert forall|seen: ObservationView| #[trigger]
        observes_in(objects, id, seen) <==> objects[p].attributes.contains(seen) by {
        assert(objects[p].id == id);
    }
}

/// Changing the object at one place, and nothing of its id, changes what
/// holds of that id alone.
proof fn lemma_in_others(a: Seq<ObjectView>, b: Seq<ObjectView>, p: int, id: Seq<char>)
    requires
        0 <= p < b.len(),
        p <= a.len(),
        b.len() == a.len() || (p == a.len() && b.len() == a.len() + 1),
        forall|i: int| 0 <= i < a.len() && i != p ==> #[trigger] b[i] == a[i],
        b[p].id != id,
        p < a.len() ==> a[p].id != id,
    ensures
        forall|relation: RelationView| #[trigger]
            relates_in(b, id, relation) <==> relates_in(a, id, relation),
        forall|seen: ObservationView| #[trigger]
            observes_in(b, id, seen) <==> observes_in(a, id, seen),
{
    assert forall|relation: RelationView| #[trigger] relates_in(b, id, relation) <==> relates_in(
        a,
        id,
        relation,
    ) by {
        if relates_in(b, id, relation) {
            let i = choose|i: int|
                0 <= i < b.len() && #[trigger] b[i].id == id && b[i].relationships.contains(
                    relation,
                );
            assert(a[i].id == id);
        }
        if relates_in(a, id, relation) {
            let i = choose|i: int|
                0 <= i < a.len() && #[trigger] a[i].id == id && a[i].relationships.contains(
                    relation,
                );
            assert(b[i].id == id);
        }
    }
    assert forall|seen: ObservationView| #[trigger]
        observes_in(b, id, seen) <==> observes_in(a, id, seen) by {
        if observes_in(b, id, seen) {
            let i = choose|i: int|
                0 <= i < b.len() && #[trigger] b[i].id == id && b[i].attributes.contains(seen);
            assert(a[i].id == id);
        }
        if observes_in(a, id, seen) {
            let i = choose|i: int|
                0 <= i < a.len() && #[trigger] a[i].id == id && a[i].attributes.contains(seen);
            assert(b[i].id == id);
        }
    }
}

/// An object of a log merges into the staged one of its id: its relations and
/// its attributes join those that are there.
proof fn lemma_object_merges(s: StagingView, object: ObjectView)
    requires
        in_shape(s),
    ensures
        in_shape(s.with_log_object(object)),
        forall|id: Seq<char>, relation: RelationView| #[trigger]
            relates_in(s.with_log_object(object).objects, id, relation) <==> relates_in(
                s.objects,
                id,
                relation,
            ) || (id == object.id && object.relationships.contains(relation)),
        forall|id: Seq<char>, seen: ObservationView| #[trigger]
            observes_in(s.with_log_object(object).objects, id, seen) <==> observes_in(
                s.objects,
                id,
                seen,
            ) || (id == object.id && object.attributes.contains(seen)),
        forall|id: Seq<char>| #[trigger]
            type_in(s.with_log_object(object).objects, id) == if id == object.id {
                first_named(type_in(s.objects, id), object.object_type)
            } else {
                type_in(s.objects, id)
            },
{
    let after = s.with_log_object(object);
    let typed = s.with_object(object.id, object.object_type);
    let found = staging::staged(s.objects, object.id);
    let p = if found {
        choose|p: int| 0 <= p < s.objects.len() && #[trigger] s.objects[p].id == object.id
    } else {
        s.objects.len() as int
    };
    let had = if found {
        s.objects[p]
    } else {
        ObjectView {
            id: object.id,
            object_type: Seq::empty(),
            attributes: Seq::empty(),
            relationships: Seq::empty(),
        }
    };
    if found {
        restaging::lemma_slot(s.objects, object.id, p);
        assert(typed.objects =~= s.objects.update(p, staging::typed(had, object.object_type)));
    } else {
        restaging::lemma_new_slot(s.objects, object.id, object.object_type);
        assert(typed.objects =~= s.objects.push(staging::typed(had, object.object_type)));
    }
    assert(integrity::distinct_objects(typed.objects)) by {
        assert forall|i: int, j: int| 0 <= i < j < typed.objects.len() implies (
        #[trigger] typed.objects[i]).id != (#[trigger] typed.objects[j]).id by {
            if j < s.objects.len() {
                assert(s.objects[i].id != s.objects[j].id);
            } else {
                assert(s.objects[i].id != object.id);
            }
        }
    }
    assert forall|i: int| 0 <= i < typed.objects.len() implies typed.object_schema.contains_key(
        (#[trigger] typed.objects[i]).object_type,
    ) by {
        if i < s.objects.len() {
            assert(s.object_schema.contains_key(s.objects[i].object_type));
        }
    }
    assert(typed.objects[p].id == object.id);
    restaging::lemma_with_observations(typed, object.id, p, object.attributes);
    let observed = typed.with_observations(object.id, object.attributes);
    assert(integrity::distinct_objects(observed.objects)) by {
        assert forall|i: int, j: int| 0 <= i < j < observed.objects.len() implies (
        #[trigger] observed.objects[i]).id != (#[trigger] observed.objects[j]).id by {
            assert(typed.objects[i].id != typed.objects[j].id);
        }
    }
    restaging::lemma_with_o2os(observed, object.id, p, object.relationships);
    assert(after.objects[p].attributes == had.attributes + object.attributes);
    assert(after.objects[p].relationships == had.relationships + object.relationships);
    assert(integrity::distinct_objects(after.objects)) by {
        assert forall|i: int, j: int| 0 <= i < j < after.objects.len() implies (
        #[trigger] after.objects[i]).id != (#[trigger] after.objects[j]).id by {
            assert(typed.objects[i].id != typed.objects[j].id);
        }
    }
    assert(in_shape(after)) by {
        assert forall|i: int| 0 <= i < after.objects.len() implies after.object_schema.contains_key(
            (#[trigger] after.objects[i]).object_type,
        ) by {
            assert(typed.object_schema.contains_key(typed.objects[i].object_type));
        }
    }
    assert forall|i: int| 0 <= i < s.objects.len() && i != p implies #[trigger] after.objects[i]
        == s.objects[i] by {
        assert(typed.objects[i] == s.objects[i]);
    }
    assert(after.objects[p].id == object.id);
    lemma_in_one(after.objects, p);
    if found {
        lemma_in_one(s.objects, p);
    }
    assert forall|id: Seq<char>| #[trigger] type_in(after.objects, id) == if id == object.id {
        first_named(type_in(s.objects, id), object.object_type)
    } else {
        type_in(s.objects, id)
    } by {
        if id == object.id {
            lemma_type_in_one(after.objects, p);
            if found {
                lemma_type_in_one(s.objects, p);
            } else {
                lemma_type_in_none(s.objects, id);
            }
        } else if staging::staged(s.objects, id) {
            let q = choose|q: int| 0 <= q < s.objects.len() && #[trigger] s.objects[q].id == id;
            assert(after.objects[q] == s.objects[q]);
            lemma_type_in_one(s.objects, q);
            lemma_type_in_one(after.objects, q);
        } else {
            if staging::staged(after.objects, id) {
                let q = choose|q: int|
                    0 <= q < after.objects.len() && #[trigger] after.objects[q].id == id;
                assert(s.objects[q].id == id);
            }
            lemma_type_in_none(s.objects, id);
            lemma_type_in_none(after.objects, id);
        }
    }
    assert forall|id: Seq<char>, relation: RelationView| #[trigger]
        relates_in(after.objects, id, relation) <==> relates_in(s.objects, id, relation) || (id
            == object.id && object.relationships.contains(relation)) by {
        if id == object.id {
            aliasing::lemma_add_contains(had.relationships, object.relationships, relation);
            assert(relates_in(after.objects, after.objects[p].id, relation)
                <==> after.objects[p].relationships.contains(relation));
            if found {
                assert(relates_in(s.objects, s.objects[p].id, relation)
                    <==> had.relationships.contains(relation));
            }
            assert(relates_in(s.objects, id, relation) <==> had.relationships.contains(relation));
        } else {
            lemma_in_others(s.objects, after.objects, p, id);
        }
    }
    assert forall|id: Seq<char>, seen: ObservationView| #[trigger]
        observes_in(after.objects, id, seen) <==> observes_in(s.objects, id, seen) || (id
            == object.id && object.attributes.contains(seen)) by {
        if id == object.id {
            aliasing::lemma_add_contains(had.attributes, object.attributes, seen);
            assert(observes_in(after.objects, after.objects[p].id, seen)
                <==> after.objects[p].attributes.contains(seen));
            if found {
                assert(observes_in(s.objects, s.objects[p].id, seen)
                    <==> had.attributes.contains(seen));
            }
            assert(observes_in(s.objects, id, seen) <==> had.attributes.contains(seen));
        } else {
            lemma_in_others(s.objects, after.objects, p, id);
        }
    }
}

/// The objects of a log merge into those staged.
proof fn lemma_objects_merge(s: StagingView, objects: Seq<ObjectView>)
    requires
        in_shape(s),
    ensures
        in_shape(s.with_log_objects(objects)),
        forall|id: Seq<char>, relation: RelationView| #[trigger]
            relates_in(s.with_log_objects(objects).objects, id, relation) <==> relates_in(
                s.objects,
                id,
                relation,
            ) || relates_in(objects, id, relation),
        forall|id: Seq<char>, seen: ObservationView| #[trigger]
            observes_in(s.with_log_objects(objects).objects, id, seen) <==> observes_in(
                s.objects,
                id,
                seen,
            ) || observes_in(objects, id, seen),
        forall|id: Seq<char>| #[trigger]
            type_in(s.with_log_objects(objects).objects, id) == first_named(
                type_in(s.objects, id),
                type_in(objects, id),
            ),
    decreases objects.len(),
{
    if objects.len() > 0 {
        let front = objects.drop_last();
        let last = objects.last();
        let n = objects.len() - 1;
        let before = s.with_log_objects(front);
        let after = s.with_log_objects(objects);
        lemma_objects_merge(s, front);
        lemma_object_merges(before, last);
        assert(objects[n] == last);
        assert forall|id: Seq<char>| #[trigger] type_in(after.objects, id) == first_named(
            type_in(s.objects, id),
            type_in(objects, id),
        ) by {
            assert(type_in(before.objects, id) == first_named(
                type_in(s.objects, id),
                type_in(front, id),
            ));
        }
        assert forall|id: Seq<char>, relation: RelationView| #[trigger]
            relates_in(after.objects, id, relation) <==> relates_in(s.objects, id, relation)
                || relates_in(objects, id, relation) by {
            assert(relates_in(before.objects, id, relation) <==> relates_in(
                s.objects,
                id,
                relation,
            ) || relates_in(front, id, relation));
            if relates_in(front, id, relation) {
                let i = choose|i: int|
                    0 <= i < front.len() && #[trigger] front[i].id == id
                        && front[i].relationships.contains(relation);
                assert(objects[i].id == id);
            }
            if relates_in(objects, id, relation) {
                let i = choose|i: int|
                    0 <= i < objects.len() && #[trigger] objects[i].id == id
                        && objects[i].relationships.contains(relation);
                if i < n {
                    assert(front[i].id == id);
                }
            }
            if id == last.id && last.relationships.contains(relation) {
                assert(objects[n].id == id);
            }
        }
        assert forall|id: Seq<char>, seen: ObservationView| #[trigger]
            observes_in(after.objects, id, seen) <==> observes_in(s.objects, id, seen)
                || observes_in(objects, id, seen) by {
            assert(observes_in(before.objects, id, seen) <==> observes_in(s.objects, id, seen)
                || observes_in(front, id, seen));
            if observes_in(front, id, seen) {
                let i = choose|i: int|
                    0 <= i < front.len() && #[trigger] front[i].id == id
                        && front[i].attributes.contains(seen);
                assert(objects[i].id == id);
            }
            if observes_in(objects, id, seen) {
                let i = choose|i: int|
                    0 <= i < objects.len() && #[trigger] objects[i].id == id
                        && objects[i].attributes.contains(seen);
                if i < n {
                    assert(front[i].id == id);
                }
            }
            if id == last.id && last.attributes.contains(seen) {
                assert(objects[n].id == id);
            }
        }
    }
}

/// The observations of the objects of this id.
pub open spec fn observations_of(objects: Seq<ObjectView>, id: Seq<char>) -> Set<ObservationView> {
    Set::new(|seen: ObservationView| observes_in(objects, id, seen))
}

/// The observations that are staged for an object of the merged log are those
/// of the objects of its id.
pub proof fn lemma_staged_observations(log: LogView, other: LogView, p: int)
    requires
        0 <= p < log.united(other).objects.len(),
    ensures
        ({
            let both = staging::restaged(log).with_log_objects(other.objects);
            let object = both.objects[p];
            &&& 0 <= p < both.objects.len()
            &&& object.id == log.united(other).objects[p].id
            &&& forall|seen: ObservationView| #[trigger]
                object.attributes.contains(seen) <==> observes_in(log.objects, object.id, seen)
                    || observes_in(other.objects, object.id, seen)
        }),
{
    let start = StagingView {
        events: Seq::<EventView>::empty(),
        objects: Seq::<ObjectView>::empty(),
        event_schema: staging::seeded(log.event_types),
        object_schema: staging::seeded(log.object_types),
    };
    let ours = start.with_log_objects(log.objects);
    let staged = staging::restaged(log);
    let both = staged.with_log_objects(other.objects);
    lemma_objects_merge(start, log.objects);
    restaging::lemma_with_events(ours, log.events);
    lemma_objects_merge(staged, other.objects);
    restaging::lemma_with_events(both, log.fresh_events(other));
    let object = both.objects[p];
    let id = object.id;
    lemma_in_one(both.objects, p);
    assert forall|seen: ObservationView| #[trigger] object.attributes.contains(seen)
        <==> observes_in(log.objects, id, seen) || observes_in(other.objects, id, seen) by {
        assert(observes_in(both.objects, id, seen) <==> observes_in(staged.objects, id, seen)
            || observes_in(other.objects, id, seen));
        assert(observes_in(ours.objects, id, seen) <==> observes_in(start.objects, id, seen)
            || observes_in(log.objects, id, seen));
    }
}

/// The relations that are staged for an object of the merged log are those
/// of the objects of its id.
pub proof fn lemma_staged_relations(log: LogView, other: LogView, p: int)
    requires
        0 <= p < staging::restaged(log).with_log_objects(other.objects).objects.len(),
    ensures
        ({
            let both = staging::restaged(log).with_log_objects(other.objects);
            let object = both.objects[p];
            forall|relation: RelationView| #[trigger]
                object.relationships.contains(relation) <==> relates_in(log.objects, object.id, relation)
                    || relates_in(other.objects, object.id, relation)
        }),
{
    let start = StagingView {
        events: Seq::<EventView>::empty(),
        objects: Seq::<ObjectView>::empty(),
        event_schema: staging::seeded(log.event_types),
        object_schema: staging::seeded(log.object_types),
    };
    let ours = start.with_log_objects(log.objects);
    let staged = staging::restaged(log);
    let both = staged.with_log_objects(other.objects);
    lemma_objects_merge(start, log.objects);
    restaging::lemma_with_events(ours, log.events);
    lemma_objects_merge(staged, other.objects);
    let object = both.objects[p];
    let id = object.id;
    lemma_in_one(both.objects, p);
    assert forall|relation: RelationView| #[trigger] object.relationships.contains(relation)
        <==> relates_in(log.objects, id, relation) || relates_in(other.objects, id, relation) by {
        assert(relates_in(both.objects, id, relation) <==> relates_in(staged.objects, id, relation)
            || relates_in(other.objects, id, relation));
        assert(relates_in(ours.objects, id, relation) <==> relates_in(start.objects, id, relation)
            || relates_in(log.objects, id, relation));
    }
}

/// Objects of one id merge: the merged log has one object for each id of an
/// object of either log, with the first named type among them, their relations
/// and their observations.
pub proof fn law_merge_joins_objects(log: LogView, other: LogView)
    ensures
        integrity::distinct_objects(log.united(other).objects),
        forall|id: Seq<char>| #[trigger]
            log.united(other).has_object(id) <==> log.has_object(id) || other.has_object(id),
        forall|p: int|
            0 <= p < log.united(other).objects.len() ==> {
                let object = #[trigger] log.united(other).objects[p];
                &&& object.object_type == first_named(
                    type_in(log.objects, object.id),
                    type_in(other.objects, object.id),
                )
                &&& forall|relation: RelationView| #[trigger]
                    object.relationships.contains(relation) <==> relates_in(
                        log.objects,
                        object.id,
                        relation,
                    ) || relates_in(other.objects, object.id, relation)
                &&& sealing::carried(
                    observations_of(log.objects, object.id).union(
                        observations_of(other.objects, object.id),
                    ),
                    object.attributes.to_set(),
                    sealing::named(log.objects) && sealing::named(other.objects),
                )
            },
{
    let start = StagingView {
        events: Seq::<EventView>::empty(),
        objects: Seq::<ObjectView>::empty(),
        event_schema: staging::seeded(log.event_types),
        object_schema: staging::seeded(log.object_types),
    };
    let ours = start.with_log_objects(log.objects);
    let staged = staging::restaged(log);
    let both = staged.with_log_objects(other.objects);
    let filled = both.with_events(log.fresh_events(other));
    let after = log.united(other);
    let agree = sealing::named(log.objects) && sealing::named(other.objects);
    lemma_objects_merge(start, log.objects);
    restaging::lemma_with_events(ours, log.events);
    lemma_objects_merge(staged, other.objects);
    restaging::lemma_with_events(both, log.fresh_events(other));
    if agree {
        settling::lemma_restaged_fits(log);
        settling::lemma_objects_fit(staged, other.objects);
    }
    assert forall|i: int, j: int| 0 <= i < j < after.objects.len() implies (
    #[trigger] after.objects[i]).id != (#[trigger] after.objects[j]).id by {
        assert(both.objects[i].id != both.objects[j].id);
    }
    assert forall|id: Seq<char>| #[trigger] after.has_object(id) <==> log.has_object(id)
        || other.has_object(id) by {
        restaging::lemma_restaged_ids(log);
        restaging::lemma_staged_ids(staged, other.objects);
        assert(staging::staged(staged.objects, id) <==> log.has_object(id));
        assert(staging::staged(both.objects, id) <==> staging::staged(staged.objects, id)
            || staging::staged(other.objects, id));
        if after.has_object(id) {
            let i = choose|i: int|
                0 <= i < after.objects.len() && #[trigger] after.objects[i].id == id;
            assert(both.objects[i].id == id);
        }
        if staging::staged(both.objects, id) {
            let i = choose|i: int|
                0 <= i < both.objects.len() && #[trigger] both.objects[i].id == id;
            assert(after.objects[i].id == id);
        }
    }
    assert forall|p: int| 0 <= p < after.objects.len() implies {
        let object = #[trigger] after.objects[p];
        &&& object.object_type == first_named(
            type_in(log.objects, object.id),
            type_in(other.objects, object.id),
        )
        &&& forall|relation: RelationView| #[trigger]
            object.relationships.contains(relation) <==> relates_in(
                log.objects,
                object.id,
                relation,
            ) || relates_in(other.objects, object.id, relation)
        &&& sealing::carried(
            observations_of(log.objects, object.id).union(
                observations_of(other.objects, object.id),
            ),
            object.attributes.to_set(),
            agree,
        )
    } by {
        let object = both.objects[p];
        let id = object.id;
        assert(after.objects[p] == staging::sealed_object(filled.object_schema, object));
        sealing::lemma_sealed_object(filled.object_schema, object);
        lemma_in_one(both.objects, p);
        lemma_type_in_one(both.objects, p);
        assert(type_in(ours.objects, id) == first_named(
            type_in(start.objects, id),
            type_in(log.objects, id),
        ));
        assert(type_in(both.objects, id) == first_named(
            type_in(staged.objects, id),
            type_in(other.objects, id),
        ));
        assert forall|relation: RelationView| #[trigger]
            object.relationships.contains(relation) <==> relates_in(log.objects, id, relation)
                || relates_in(other.objects, id, relation) by {
            assert(relates_in(both.objects, id, relation) <==> relates_in(
                staged.objects,
                id,
                relation,
            ) || relates_in(other.objects, id, relation));
            assert(relates_in(ours.objects, id, relation) <==> relates_in(
                start.objects,
                id,
                relation,
            ) || relates_in(log.objects, id, relation));
        }
        let joined = observations_of(log.objects, id).union(observations_of(other.objects, id));
        assert forall|seen: ObservationView|
            object.attributes.contains(seen) <==> #[trigger] joined.contains(seen) by {
            assert(observes_in(both.objects, id, seen) <==> observes_in(staged.objects, id, seen)
                || observes_in(other.objects, id, seen));
            assert(observes_in(ours.objects, id, seen) <==> observes_in(start.objects, id, seen)
                || observes_in(log.objects, id, seen));
        }
        assert(joined =~= object.attributes.to_set());
        sealing::lemma_sealed_observations(filled.object_schema, object, agree);
    }
}

} // verus!
