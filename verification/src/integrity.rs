//! Every step keeps a valid log valid.

use vstd::prelude::*;

use crate::lift;
use crate::lists;
use crate::model::EventView;
use crate::model::LogView;
use crate::model::ObjectView;
use crate::model::RelationView;
use crate::recipe::LiftView;
use crate::sublog;
use crate::text;
use crate::validity;
use crate::validity::BreachView;

verus! {

/// No two events have the same id.
pub open spec fn distinct_events(events: Seq<EventView>) -> bool {
    forall|i: int, j: int|
        0 <= i < j < events.len() ==> (#[trigger] events[i]).id != (#[trigger] events[j]).id
}

/// No two objects have the same id.
pub open spec fn distinct_objects(objects: Seq<ObjectView>) -> bool {
    forall|i: int, j: int|
        0 <= i < j < objects.len() ==> (#[trigger] objects[i]).id != (#[trigger] objects[j]).id
}

impl LogView {
    /// Every event is of a declared type.
    pub open spec fn events_typed(self) -> bool {
        forall|i: int|
            0 <= i < self.events.len() ==> validity::declares(
                self.event_types,
                (#[trigger] self.events[i]).event_type,
            )
    }

    /// Every object is of a declared type.
    pub open spec fn objects_typed(self) -> bool {
        forall|i: int|
            0 <= i < self.objects.len() ==> validity::declares(
                self.object_types,
                (#[trigger] self.objects[i]).object_type,
            )
    }

    /// Every attribute of an event is declared of its type.
    pub open spec fn event_attributes_declared(self) -> bool {
        forall|i: int, k: int|
            0 <= i < self.events.len() && 0 <= k < self.events[i].attributes.len()
                ==> validity::declares_attribute(
                self.event_types,
                self.events[i].event_type,
                (#[trigger] self.events[i].attributes[k]).name,
            )
    }

    /// Every attribute of an object is declared of its type.
    pub open spec fn object_attributes_declared(self) -> bool {
        forall|i: int, k: int|
            0 <= i < self.objects.len() && 0 <= k < self.objects[i].attributes.len()
                ==> validity::declares_attribute(
                self.object_types,
                self.objects[i].object_type,
                (#[trigger] self.objects[i].attributes[k]).name,
            )
    }

    /// Every relationship of an event goes to an object of the log.
    pub open spec fn event_references_held(self) -> bool {
        forall|i: int, k: int|
            0 <= i < self.events.len() && 0 <= k < self.events[i].relationships.len()
                ==> self.has_object((#[trigger] self.events[i].relationships[k]).object_id)
    }

    /// Every relationship of an object goes to an object of the log.
    pub open spec fn object_references_held(self) -> bool {
        forall|i: int, k: int|
            0 <= i < self.objects.len() && 0 <= k < self.objects[i].relationships.len()
                ==> self.has_object((#[trigger] self.objects[i].relationships[k]).object_id)
    }
}

/// What makes a log valid.
pub proof fn lemma_valid_parts(log: LogView)
    ensures
        log.valid() <==> {
            &&& distinct_events(log.events)
            &&& distinct_objects(log.objects)
            &&& log.events_typed()
            &&& log.objects_typed()
            &&& log.event_attributes_declared()
            &&& log.object_attributes_declared()
            &&& log.event_references_held()
            &&& log.object_references_held()
        },
{
    if log.valid() {
        assert forall|i: int, j: int| 0 <= i < j < log.events.len() implies (
        #[trigger] log.events[i]).id != (#[trigger] log.events[j]).id by {
            assert(!log.commits(BreachView::DuplicateEventId(log.events[i].id)));
        }
        assert forall|i: int, j: int| 0 <= i < j < log.objects.len() implies (
        #[trigger] log.objects[i]).id != (#[trigger] log.objects[j]).id by {
            assert(!log.commits(BreachView::DuplicateObjectId(log.objects[i].id)));
        }
        assert forall|i: int| 0 <= i < log.events.len() implies validity::declares(
            log.event_types,
            (#[trigger] log.events[i]).event_type,
        ) by {
            let e = log.events[i];
            assert(!log.commits(
                BreachView::UndeclaredEventType { event: e.id, event_type: e.event_type },
            ));
        }
        assert forall|i: int| 0 <= i < log.objects.len() implies validity::declares(
            log.object_types,
            (#[trigger] log.objects[i]).object_type,
        ) by {
            let o = log.objects[i];
            assert(!log.commits(
                BreachView::UndeclaredObjectType { object: o.id, object_type: o.object_type },
            ));
        }
        assert forall|i: int, k: int|
            0 <= i < log.events.len() && 0 <= k
                < log.events[i].attributes.len() implies validity::declares_attribute(
            log.event_types,
            log.events[i].event_type,
            (#[trigger] log.events[i].attributes[k]).name,
        ) by {
            let e = log.events[i];
            assert(!log.commits(
                BreachView::UndeclaredEventAttribute {
                    event: e.id,
                    attribute: e.attributes[k].name,
                },
            ));
            assert(log.events[i].attributes[k].name == e.attributes[k].name);
        }
        assert forall|i: int, k: int|
            0 <= i < log.objects.len() && 0 <= k
                < log.objects[i].attributes.len() implies validity::declares_attribute(
            log.object_types,
            log.objects[i].object_type,
            (#[trigger] log.objects[i].attributes[k]).name,
        ) by {
            let o = log.objects[i];
            assert(!log.commits(
                BreachView::UndeclaredObjectAttribute {
                    object: o.id,
                    attribute: o.attributes[k].name,
                },
            ));
            assert(log.objects[i].attributes[k].name == o.attributes[k].name);
        }
        assert forall|i: int, k: int|
            0 <= i < log.events.len() && 0 <= k
                < log.events[i].relationships.len() implies log.has_object(
            (#[trigger] log.events[i].relationships[k]).object_id,
        ) by {
            let target = log.events[i].relationships[k].object_id;
            assert(!log.commits(
                BreachView::DanglingE2O { event: log.events[i].id, object: target },
            ));
        }
        assert forall|i: int, k: int|
            0 <= i < log.objects.len() && 0 <= k
                < log.objects[i].relationships.len() implies log.has_object(
            (#[trigger] log.objects[i].relationships[k]).object_id,
        ) by {
            let target = log.objects[i].relationships[k].object_id;
            assert(log.has_o2o(log.objects[i].id, target));
            assert(!log.commits(
                BreachView::DanglingO2O { source_id: log.objects[i].id, target_id: target },
            ));
        }
    }
}

/// The relationships that are left go to kept objects, and were there before.
proof fn lemma_restricted_relations(relationships: Seq<RelationView>, kept: Set<Seq<char>>, k: int)
    requires
        0 <= k < sublog::restricted_relations(relationships, kept).len(),
    ensures
        kept.contains(sublog::restricted_relations(relationships, kept)[k].object_id),
        relationships.contains(sublog::restricted_relations(relationships, kept)[k]),
{
    let places = lists::lemma_filter_places(
        relationships,
        |r: RelationView| kept.contains(r.object_id),
    );
    assert(relationships[places[k]] == sublog::restricted_relations(relationships, kept)[k]);
}

/// The objects that are left are the kept ones, each where it stood among
/// them.
proof fn lemma_restricted_objects(objects: Seq<ObjectView>, kept: Set<Seq<char>>) -> (places: Seq<
    int,
>)
    ensures
        ({
            let left = sublog::restricted_objects(objects, kept);
            &&& places.len() == left.len()
            &&& forall|i: int|
                0 <= i < places.len() ==> 0 <= #[trigger] places[i] < objects.len() && left[i]
                    == sublog::restricted_object(objects[places[i]], kept) && kept.contains(
                    objects[places[i]].id,
                )
            &&& forall|i: int, j: int| 0 <= i < j < places.len() ==> places[i] < places[j]
            &&& forall|k: int|
                0 <= k < objects.len() && kept.contains((#[trigger] objects[k]).id)
                    ==> places.contains(k)
        }),
{
    lists::lemma_filter_places(objects, |o: ObjectView| kept.contains(o.id))
}

/// The ids of the objects that are left are the kept ones.
pub proof fn lemma_restricted_ids(log: LogView, kept: Set<Seq<char>>, id: Seq<char>)
    ensures
        log.restricted(kept).has_object(id) <==> log.has_object(id) && kept.contains(id),
{
    let left = log.restricted(kept).objects;
    let places = lemma_restricted_objects(log.objects, kept);
    if log.restricted(kept).has_object(id) {
        let i = choose|i: int| 0 <= i < left.len() && #[trigger] left[i].id == id;
        assert(log.objects[places[i]].id == id);
    }
    if log.has_object(id) && kept.contains(id) {
        let k = choose|k: int| 0 <= k < log.objects.len() && #[trigger] log.objects[k].id == id;
        assert(places.contains(k));
        let i = choose|i: int| 0 <= i < places.len() && places[i] == k;
        assert(left[i].id == id);
    }
}

/// The objects that are left of a valid log keep its rules.
proof fn lemma_restricted_objects_sound(log: LogView, kept: Set<Seq<char>>, after: LogView)
    requires
        log.valid(),
        after.object_types == log.object_types,
        after.objects == sublog::restricted_objects(log.objects, kept),
    ensures
        distinct_objects(after.objects),
        after.objects_typed(),
        after.object_attributes_declared(),
        after.object_references_held(),
        forall|id: Seq<char>| log.has_object(id) && kept.contains(id) ==> after.has_object(id),
{
    lemma_valid_parts(log);
    let places = lemma_restricted_objects(log.objects, kept);
    assert forall|id: Seq<char>| log.has_object(id) && kept.contains(id) implies after.has_object(
        id,
    ) by {
        lemma_restricted_ids(log, kept, id);
        let i = choose|i: int|
            0 <= i < log.restricted(kept).objects.len() && #[trigger] log.restricted(
                kept,
            ).objects[i].id == id;
        assert(after.objects[i].id == id);
    }
    assert forall|i: int, j: int| 0 <= i < j < after.objects.len() implies (
    #[trigger] after.objects[i]).id != (#[trigger] after.objects[j]).id by {
        assert(places[i] < places[j]);
        assert(log.objects[places[i]].id != log.objects[places[j]].id);
    }
    assert forall|i: int| 0 <= i < after.objects.len() implies validity::declares(
        after.object_types,
        (#[trigger] after.objects[i]).object_type,
    ) by {
        assert(validity::declares(log.object_types, log.objects[places[i]].object_type));
    }
    assert forall|i: int, k: int|
        0 <= i < after.objects.len() && 0 <= k
            < after.objects[i].attributes.len() implies validity::declares_attribute(
        after.object_types,
        after.objects[i].object_type,
        (#[trigger] after.objects[i].attributes[k]).name,
    ) by {
        assert(after.objects[i].attributes[k] == log.objects[places[i]].attributes[k]);
    }
    assert forall|i: int, k: int|
        0 <= i < after.objects.len() && 0 <= k
            < after.objects[i].relationships.len() implies after.has_object(
        (#[trigger] after.objects[i].relationships[k]).object_id,
    ) by {
        let old = log.objects[places[i]];
        let relation = after.objects[i].relationships[k];
        lemma_restricted_relations(old.relationships, kept, k);
        let m = choose|m: int| 0 <= m < old.relationships.len() && old.relationships[m] == relation;
        assert(log.has_object(log.objects[places[i]].relationships[m].object_id));
    }
}

/// Keeping a part of the objects keeps a valid log valid.
pub proof fn lemma_restricted_valid(log: LogView, kept: Set<Seq<char>>)
    requires
        log.valid(),
    ensures
        log.restricted(kept).valid(),
{
    let after = log.restricted(kept);
    lemma_valid_parts(log);
    lemma_valid_parts(after);
    lemma_restricted_objects_sound(log, kept, after);
    let strip = |e: EventView| sublog::restricted_event(e, kept);
    let stripped = log.events.map_values(strip);
    let places = lists::lemma_filter_places(stripped, |e: EventView| e.relationships.len() > 0);
    assert forall|i: int| 0 <= i < after.events.len() implies #[trigger] after.events[i] == strip(
        log.events[places[i]],
    ) by {
        assert(stripped[places[i]] == strip(log.events[places[i]]));
    }
    assert forall|i: int, j: int| 0 <= i < j < after.events.len() implies (
    #[trigger] after.events[i]).id != (#[trigger] after.events[j]).id by {
        assert(places[i] < places[j]);
        assert(log.events[places[i]].id != log.events[places[j]].id);
    }
    assert forall|i: int| 0 <= i < after.events.len() implies validity::declares(
        after.event_types,
        (#[trigger] after.events[i]).event_type,
    ) by {
        assert(validity::declares(log.event_types, log.events[places[i]].event_type));
    }
    assert forall|i: int, k: int|
        0 <= i < after.events.len() && 0 <= k
            < after.events[i].attributes.len() implies validity::declares_attribute(
        after.event_types,
        after.events[i].event_type,
        (#[trigger] after.events[i].attributes[k]).name,
    ) by {
        assert(after.events[i].attributes[k] == log.events[places[i]].attributes[k]);
    }
    assert forall|i: int, k: int|
        0 <= i < after.events.len() && 0 <= k
            < after.events[i].relationships.len() implies after.has_object(
        (#[trigger] after.events[i].relationships[k]).object_id,
    ) by {
        let old = log.events[places[i]];
        let relation = after.events[i].relationships[k];
        lemma_restricted_relations(old.relationships, kept, k);
        let m = choose|m: int| 0 <= m < old.relationships.len() && old.relationships[m] == relation;
        assert(log.has_object(log.events[places[i]].relationships[m].object_id));
    }
}

/// Dropping the objects that no event refers to keeps a valid log valid.
pub proof fn lemma_without_orphans_valid(log: LogView)
    requires
        log.valid(),
    ensures
        log.without_orphans().valid(),
{
    let after = log.without_orphans();
    lemma_valid_parts(log);
    lemma_valid_parts(after);
    lemma_restricted_objects_sound(log, log.referenced(), after);
    assert forall|i: int, k: int|
        0 <= i < after.events.len() && 0 <= k
            < after.events[i].relationships.len() implies after.has_object(
        (#[trigger] after.events[i].relationships[k]).object_id,
    ) by {
        let id = log.events[i].relationships[k].object_id;
        assert(log.refers_to(id));
        assert(log.has_object(id));
    }
    assert forall|i: int, k: int|
        0 <= i < after.events.len() && 0 <= k
            < after.events[i].attributes.len() implies validity::declares_attribute(
        after.event_types,
        after.events[i].event_type,
        (#[trigger] after.events[i].attributes[k]).name,
    ) by {
        assert(after.events[i].attributes[k] == log.events[i].attributes[k]);
    }
}

/// Lifting events keeps a valid log valid.
pub proof fn lemma_lifting_valid(log: LogView, lift: LiftView)
    requires
        log.valid(),
    ensures
        log.lifting(lift).valid(),
{
    let after = log.lifting(lift);
    lemma_valid_parts(log);
    lemma_valid_parts(after);
    assert forall|i: int| 0 <= i < after.events.len() implies #[trigger] after.events[i]
        == log.lifted_event(lift, log.events[i]) by {}
    assert forall|i: int, k: int|
        0 <= i < after.events.len() && 0 <= k
            < after.events[i].relationships.len() implies after.has_object(
        (#[trigger] after.events[i].relationships[k]).object_id,
    ) by {
        let old = log.events[i];
        let id = after.events[i].relationships[k].object_id;
        if k < old.relationships.len() {
            assert(after.events[i].relationships[k] == old.relationships[k]);
            assert(log.has_object(log.events[i].relationships[k].object_id));
        } else {
            let additions = log.additions(lift, old);
            lift::lemma_additions(log, lift, old);
            let order = text::in_order(additions);
            assert(id == order[k - old.relationships.len()]);
            assert(order.to_set().contains(id));
            let f = choose|f: Seq<char>| #[trigger]
                old.relates_to(f) && log.linked(lift, f, id);
            assert(log.has_typed_object(id, lift.to));
            let m = choose|m: int|
                0 <= m < log.objects.len() && #[trigger] log.objects[m].id == id
                    && log.objects[m].object_type == lift.to;
            assert(log.objects[m].id == id);
        }
        let m = choose|m: int| 0 <= m < log.objects.len() && #[trigger] log.objects[m].id == id;
        assert(after.objects[m].id == id);
    }
    assert forall|i: int, k: int|
        0 <= i < after.objects.len() && 0 <= k
            < after.objects[i].relationships.len() implies after.has_object(
        (#[trigger] after.objects[i].relationships[k]).object_id,
    ) by {
        let id = log.objects[i].relationships[k].object_id;
        assert(log.has_object(id));
        let m = choose|m: int| 0 <= m < log.objects.len() && #[trigger] log.objects[m].id == id;
        assert(after.objects[m].id == id);
    }
    assert forall|i: int, k: int|
        0 <= i < after.events.len() && 0 <= k
            < after.events[i].attributes.len() implies validity::declares_attribute(
        after.event_types,
        after.events[i].event_type,
        (#[trigger] after.events[i].attributes[k]).name,
    ) by {
        assert(after.events[i].attributes[k] == log.events[i].attributes[k]);
    }
    assert forall|i: int, j: int| 0 <= i < j < after.events.len() implies (
    #[trigger] after.events[i]).id != (#[trigger] after.events[j]).id by {
        assert(log.events[i].id != log.events[j].id);
    }
    assert forall|i: int| 0 <= i < after.events.len() implies validity::declares(
        after.event_types,
        (#[trigger] after.events[i]).event_type,
    ) by {
        assert(validity::declares(log.event_types, log.events[i].event_type));
    }
}

} // verus!
