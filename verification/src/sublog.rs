//! Consistent sub-logs: what is left of a log when objects go.

use vstd::hash_set::StringHashSet;
use vstd::prelude::*;

use crate::convert;
use crate::model::EventView;
use crate::model::Log;
use crate::model::LogView;
use crate::model::Object;
use crate::model::ObjectView;
use crate::model::RelationView;
use crate::model::Relationship;

verus! {

/// The relationships to kept objects.
pub open spec fn restricted_relations(
    relationships: Seq<RelationView>,
    kept: Set<Seq<char>>,
) -> Seq<RelationView> {
    relationships.filter(|r: RelationView| kept.contains(r.object_id))
}

/// The event with its relationships to kept objects alone.
pub open spec fn restricted_event(event: EventView, kept: Set<Seq<char>>) -> EventView {
    EventView { relationships: restricted_relations(event.relationships, kept), ..event }
}

/// The object with its relationships to kept objects alone.
pub open spec fn restricted_object(object: ObjectView, kept: Set<Seq<char>>) -> ObjectView {
    ObjectView { relationships: restricted_relations(object.relationships, kept), ..object }
}

/// The kept objects, with their relationships to kept objects alone.
pub open spec fn restricted_objects(objects: Seq<ObjectView>, kept: Set<Seq<char>>) -> Seq<
    ObjectView,
> {
    objects.filter(|o: ObjectView| kept.contains(o.id)).map_values(
        |o: ObjectView| restricted_object(o, kept),
    )
}

/// The events that still relate to a kept object, with their relationships to
/// kept objects alone.
pub open spec fn restricted_events(events: Seq<EventView>, kept: Set<Seq<char>>) -> Seq<EventView> {
    events.map_values(|e: EventView| restricted_event(e, kept)).filter(
        |e: EventView| e.relationships.len() > 0,
    )
}

impl LogView {
    /// The log without the objects that are not kept, and without the events
    /// that no kept object is left to.
    pub open spec fn restricted(self, kept: Set<Seq<char>>) -> LogView {
        LogView {
            events: restricted_events(self.events, kept),
            objects: restricted_objects(self.objects, kept),
            ..self
        }
    }

    /// The ids of the objects of these types.
    pub open spec fn ids_of_types(self, names: Seq<Seq<char>>) -> Set<Seq<char>> {
        Set::new(
            |id: Seq<char>|
                exists|i: int|
                    0 <= i < self.objects.len() && #[trigger] self.objects[i].id == id
                        && names.contains(self.objects[i].object_type),
        )
    }

    /// Whether some event refers to an object of this id.
    pub open spec fn refers_to(self, id: Seq<char>) -> bool {
        exists|i: int, k: int|
            0 <= i < self.events.len() && 0 <= k < self.events[i].relationships.len()
                && #[trigger] self.events[i].relationships[k].object_id == id
    }

    /// The ids that events refer to.
    pub open spec fn referenced(self) -> Set<Seq<char>> {
        Set::new(|id: Seq<char>| self.refers_to(id))
    }

    /// The log without the objects that no event refers to.
    pub open spec fn without_orphans(self) -> LogView {
        LogView { objects: restricted_objects(self.objects, self.referenced()), ..self }
    }
}

/// Keep the objects of these types.
///
/// Trusted: `ocel::Ocel::filter_object_types` keeps the objects of the types
/// and the events that still relate to one of them, and strips the
/// relationships to other objects; the declarations stay.
#[verifier::external_body]
fn filter_object_types(log: &ocel::Ocel, names: &Vec<String>) -> (kept: ocel::Ocel)
    ensures
        convert::log_contents(kept) == convert::log_contents(*log).restricted(
            convert::log_contents(*log).ids_of_types(names.deep_view()),
        ),
{
    let names: Vec<&str> = names.iter().map(String::as_str).collect();
    log.filter_object_types(&names)
}

/// The log with the objects of these types alone.
pub fn keep_object_types(log: &Log, names: &Vec<String>) -> (kept: Log)
    ensures
        kept@ == log@.restricted(log@.ids_of_types(names.deep_view())),
{
    Log::from_ocel(&filter_object_types(&log.to_ocel(), names))
}

/// The relationships to kept objects.
pub(crate) fn restrict_relations(relationships: &Vec<Relationship>, kept: &StringHashSet) -> (left:
    Vec<Relationship>)
    ensures
        left.deep_view() == restricted_relations(relationships.deep_view(), kept@),
{
    let ghost all = relationships.deep_view();
    let ghost pred = |r: RelationView| kept@.contains(r.object_id);
    let mut left: Vec<Relationship> = Vec::new();
    let mut i: usize = 0;
    assert(left.deep_view() =~= all.take(0).filter(pred)) by {
        assert(all.take(0) =~= Seq::<RelationView>::empty());
        reveal_with_fuel(Seq::filter, 1);
    }
    while i < relationships.len()
        invariant
            i <= relationships.len(),
            all == relationships.deep_view(),
            pred == (|r: RelationView| kept@.contains(r.object_id)),
            left.deep_view() == all.take(i as int).filter(pred),
        decreases relationships.len() - i,
    {
        let ghost before = left.deep_view();
        proof {
            assert(all.take(i + 1) =~= all.take(i as int).push(all[i as int]));
            all.take(i as int).lemma_filter_push(all[i as int], pred);
        }
        if kept.contains(relationships[i].object_id.as_str()) {
            left.push(relationships[i].clone());
            assert(left.deep_view() =~= before.push(all[i as int]));
        }
        i += 1;
    }
    assert(all.take(i as int) =~= all);
    left
}

/// The kept objects, with their relationships to kept objects alone.
pub(crate) fn restrict_objects(objects: &Vec<Object>, kept: &StringHashSet) -> (left: Vec<Object>)
    ensures
        left.deep_view() == restricted_objects(objects.deep_view(), kept@),
{
    let ghost all = objects.deep_view();
    let ghost pred = |o: ObjectView| kept@.contains(o.id);
    let ghost strip = |o: ObjectView| restricted_object(o, kept@);
    let mut left: Vec<Object> = Vec::new();
    let mut i: usize = 0;
    assert(left.deep_view() =~= all.take(0).filter(pred).map_values(strip)) by {
        assert(all.take(0) =~= Seq::<ObjectView>::empty());
        reveal_with_fuel(Seq::filter, 1);
    }
    while i < objects.len()
        invariant
            i <= objects.len(),
            all == objects.deep_view(),
            pred == (|o: ObjectView| kept@.contains(o.id)),
            strip == (|o: ObjectView| restricted_object(o, kept@)),
            left.deep_view() == all.take(i as int).filter(pred).map_values(strip),
        decreases objects.len() - i,
    {
        let ghost before = left.deep_view();
        proof {
            assert(all.take(i + 1) =~= all.take(i as int).push(all[i as int]));
            all.take(i as int).lemma_filter_push(all[i as int], pred);
            all.take(i as int).filter(pred).lemma_push_map_commute(strip, all[i as int]);
        }
        let object = &objects[i];
        if kept.contains(object.id.as_str()) {
            let copy = object.clone();
            let restricted = Object {
                id: copy.id,
                object_type: copy.object_type,
                attributes: copy.attributes,
                relationships: restrict_relations(&object.relationships, kept),
            };
            assert(restricted@ == strip(all[i as int]));
            left.push(restricted);
            assert(left.deep_view() =~= before.push(strip(all[i as int])));
        }
        i += 1;
    }
    assert(all.take(i as int) =~= all);
    left
}

/// The ids that events refer to.
fn referenced_ids(log: &Log) -> (ids: StringHashSet)
    ensures
        ids@ == log@.referenced(),
{
    let mut ids = StringHashSet::new();
    let mut i: usize = 0;
    while i < log.events.len()
        invariant
            i <= log.events.len(),
            forall|id: Seq<char>| #[trigger]
                ids@.contains(id) <==> exists|j: int, k: int|
                    0 <= j < i && 0 <= k < log@.events[j].relationships.len()
                        && #[trigger] log@.events[j].relationships[k].object_id == id,
        decreases log.events.len() - i,
    {
        let relationships = &log.events[i].relationships;
        let mut k: usize = 0;
        while k < relationships.len()
            invariant
                i < log.events.len(),
                relationships == log.events[i as int].relationships,
                k <= relationships.len(),
                forall|id: Seq<char>| #[trigger]
                    ids@.contains(id) <==> exists|j: int, m: int|
                        (0 <= j < i || (j == i && m < k)) && 0 <= m
                            < log@.events[j].relationships.len()
                            && #[trigger] log@.events[j].relationships[m].object_id == id,
            decreases relationships.len() - k,
        {
            let ghost before = ids@;
            ids.insert(relationships[k].object_id.clone());
            proof {
                let fresh = relationships[k as int].object_id@;
                assert(log@.events[i as int].relationships[k as int].object_id == fresh);
                assert forall|id: Seq<char>| #[trigger] ids@.contains(id) implies exists|
                    j: int,
                    m: int,
                |
                    (0 <= j < i || (j == i && m < k + 1)) && 0 <= m
                        < log@.events[j].relationships.len()
                        && #[trigger] log@.events[j].relationships[m].object_id == id by {
                    if id != fresh {
                        assert(before.contains(id));
                        let (j, m) = choose|j: int, m: int|
                            (0 <= j < i || (j == i && m < k)) && 0 <= m
                                < log@.events[j].relationships.len()
                                && #[trigger] log@.events[j].relationships[m].object_id == id;
                        assert(log@.events[j].relationships[m].object_id == id);
                    }
                }
            }
            k += 1;
        }
        i += 1;
    }
    assert(ids@ =~= log@.referenced());
    ids
}

/// The log without the objects that no event refers to; O2O links to them are
/// stripped from the others.
pub fn drop_objects_without_events(log: Log) -> (kept: Log)
    ensures
        kept@ == log@.without_orphans(),
{
    let referenced = referenced_ids(&log);
    let objects = restrict_objects(&log.objects, &referenced);
    Log { event_types: log.event_types, object_types: log.object_types, events: log.events, objects }
}

} // verus!
