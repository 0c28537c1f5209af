//! What keeping a part of the objects leaves when it is done again, and what
//! more types to walk through leave.

use vstd::prelude::*;

use crate::graph;
use crate::graph::ExpansionView;
use crate::integrity;
use crate::lists;
use crate::model::EventView;
use crate::model::LogView;
use crate::model::ObjectView;
use crate::model::RelationView;
use crate::object_effects;
use crate::sublog;

verus! {

/// Whether the set holds every object of the log and every target of a
/// relation, and every event has a relation.
spec fn all_held(log: LogView, kept: Set<Seq<char>>) -> bool {
    &&& forall|i: int| 0 <= i < log.objects.len() ==> kept.contains((#[trigger] log.objects[i]).id)
    &&& forall|i: int, k: int|
        0 <= i < log.objects.len() && 0 <= k < log.objects[i].relationships.len() ==> kept.contains(
            (#[trigger] log.objects[i].relationships[k]).object_id,
        )
    &&& forall|i: int| 0 <= i < log.events.len() ==> (#[trigger] log.events[i]).relationships.len()
        > 0
    &&& forall|i: int, k: int|
        0 <= i < log.events.len() && 0 <= k < log.events[i].relationships.len() ==> kept.contains(
            (#[trigger] log.events[i].relationships[k]).object_id,
        )
}

/// Relations whose targets are all kept stay.
proof fn lemma_relations_held(relations: Seq<RelationView>, kept: Set<Seq<char>>)
    requires
        forall|k: int|
            0 <= k < relations.len() ==> kept.contains((#[trigger] relations[k]).object_id),
    ensures
        sublog::restricted_relations(relations, kept) == relations,
{
    lists::lemma_filter_all(relations, |r: RelationView| kept.contains(r.object_id));
}

/// Restricting to a set that holds all changes nothing.
proof fn lemma_all_held(log: LogView, kept: Set<Seq<char>>)
    requires
        all_held(log, kept),
    ensures
        log.restricted(kept) == log,
{
    let after = log.restricted(kept);
    let strip = |e: EventView| sublog::restricted_event(e, kept);
    let stripped = log.events.map_values(strip);
    assert(stripped =~= log.events) by {
        assert forall|i: int| 0 <= i < log.events.len() implies #[trigger] stripped[i]
            == log.events[i] by {
            lemma_relations_held(log.events[i].relationships, kept);
        }
    }
    lists::lemma_filter_all(log.events, |e: EventView| e.relationships.len() > 0);
    lists::lemma_filter_all(log.objects, |o: ObjectView| kept.contains(o.id));
    assert(after.objects =~= log.objects) by {
        assert forall|i: int| 0 <= i < log.objects.len() implies #[trigger] after.objects[i]
            == log.objects[i] by {
            lemma_relations_held(log.objects[i].relationships, kept);
        }
    }
}

/// The relations of a restricted log go to kept objects, so they are held by a
/// set that holds those.
proof fn lemma_restricted_held(log: LogView, kept: Set<Seq<char>>, again: Set<Seq<char>>)
    requires
        forall|id: Seq<char>| #[trigger] kept.contains(id) ==> again.contains(id),
    ensures
        all_held(log.restricted(kept), again),
{
    let after = log.restricted(kept);
    object_effects::law_restriction_holds(log, kept);
    let places = lists::lemma_filter_places(log.objects, |o: ObjectView| kept.contains(o.id));
    assert forall|i: int| 0 <= i < after.objects.len() implies again.contains(
        (#[trigger] after.objects[i]).id,
    ) by {
        assert(kept.contains(log.objects[places[i]].id));
    }
    assert forall|i: int, k: int|
        0 <= i < after.objects.len() && 0 <= k
            < after.objects[i].relationships.len() implies again.contains(
        (#[trigger] after.objects[i].relationships[k]).object_id,
    ) by {
        assert(kept.contains(after.objects[i].relationships[k].object_id));
    }
    assert forall|i: int, k: int|
        0 <= i < after.events.len() && 0 <= k
            < after.events[i].relationships.len() implies again.contains(
        (#[trigger] after.events[i].relationships[k]).object_id,
    ) by {
        assert(kept.contains(after.events[i].relationships[k].object_id));
    }
}

/// A relation to a kept object stays.
proof fn lemma_relation_stays(relations: Seq<RelationView>, kept: Set<Seq<char>>, k: int) -> (m:
    int)
    requires
        0 <= k < relations.len(),
        kept.contains(relations[k].object_id),
    ensures
        0 <= m < sublog::restricted_relations(relations, kept).len(),
        sublog::restricted_relations(relations, kept)[m] == relations[k],
{
    let held = |r: RelationView| kept.contains(r.object_id);
    let places = lists::lemma_filter_places(relations, held);
    assert(held(relations[k]));
    assert(places.contains(k));
    choose|m: int| 0 <= m < places.len() && places[m] == k
}

/// Objects that share an event and are kept still share it.
proof fn lemma_events_shared(log: LogView, kept: Set<Seq<char>>, a: Seq<char>, b: Seq<char>)
    requires
        log.share_event(a, b),
        kept.contains(a),
        kept.contains(b),
    ensures
        log.restricted(kept).share_event(a, b),
{
    let after = log.restricted(kept);
    let (i, j, k) = choose|i: int, j: int, k: int|
        0 <= i < log.events.len() && 0 <= j < log.events[i].relationships.len() && 0 <= k
            < log.events[i].relationships.len()
            && #[trigger] log.events[i].relationships[j].object_id == a
            && #[trigger] log.events[i].relationships[k].object_id == b;
    let strip = |e: EventView| sublog::restricted_event(e, kept);
    let stripped = log.events.map_values(strip);
    let left = |e: EventView| e.relationships.len() > 0;
    let places = lists::lemma_filter_places(stripped, left);
    let m = lemma_relation_stays(log.events[i].relationships, kept, j);
    let n = lemma_relation_stays(log.events[i].relationships, kept, k);
    assert(left(stripped[i]));
    assert(places.contains(i));
    let p = choose|p: int| 0 <= p < places.len() && places[p] == i;
    assert(after.events[p] == strip(log.events[i]));
    assert(after.events[p].relationships[m].object_id == a);
    assert(after.events[p].relationships[n].object_id == b);
}

/// Objects that an O2O relation links and that are kept are still linked.
proof fn lemma_links_stay(log: LogView, kept: Set<Seq<char>>, a: Seq<char>, b: Seq<char>)
    requires
        log.has_o2o(a, b),
        kept.contains(a),
        kept.contains(b),
    ensures
        log.restricted(kept).has_o2o(a, b),
{
    let after = log.restricted(kept);
    let (i, k) = choose|i: int, k: int|
        0 <= i < log.objects.len() && 0 <= k < log.objects[i].relationships.len()
            && log.objects[i].id == a && #[trigger] log.objects[i].relationships[k].object_id == b;
    let pred = |o: ObjectView| kept.contains(o.id);
    let places = lists::lemma_filter_places(log.objects, pred);
    let m = lemma_relation_stays(log.objects[i].relationships, kept, k);
    assert(pred(log.objects[i]));
    assert(places.contains(i));
    let p = choose|p: int| 0 <= p < places.len() && places[p] == i;
    assert(after.objects[p] == sublog::restricted_object(log.objects[i], kept));
    assert(after.objects[p].relationships[m].object_id == b);
}

/// Kept objects that interact still do.
proof fn lemma_interaction_stays(log: LogView, kept: Set<Seq<char>>, a: Seq<char>, b: Seq<char>)
    requires
        log.interact(a, b),
        kept.contains(a),
        kept.contains(b),
    ensures
        log.restricted(kept).interact(a, b),
{
    reveal(LogView::interact);
    integrity::lemma_restricted_ids(log, kept, a);
    integrity::lemma_restricted_ids(log, kept, b);
    if log.share_event(a, b) {
        lemma_events_shared(log, kept, a, b);
    }
    if log.has_o2o(a, b) {
        lemma_links_stay(log, kept, a, b);
    }
    if log.has_o2o(b, a) {
        lemma_links_stay(log, kept, b, a);
    }
}

/// A kept object has the type that it had.
proof fn lemma_type_stays(objects: Seq<ObjectView>, kept: Set<Seq<char>>, id: Seq<char>)
    requires
        kept.contains(id),
    ensures
        graph::type_of(sublog::restricted_objects(objects, kept), id) == graph::type_of(
            objects,
            id,
        ),
    decreases objects.len(),
{
    let pred = |o: ObjectView| kept.contains(o.id);
    let strip = |o: ObjectView| sublog::restricted_object(o, kept);
    let after = sublog::restricted_objects(objects, kept);
    if objects.len() == 0 {
        reveal_with_fuel(Seq::filter, 1);
        assert(after =~= Seq::<ObjectView>::empty());
    } else {
        let front = objects.drop_last();
        let last = objects.last();
        lemma_type_stays(front, kept, id);
        assert(front.push(last) =~= objects);
        front.lemma_filter_push(last, pred);
        front.filter(pred).lemma_push_map_commute(strip, last);
        if pred(last) {
            assert(after.drop_last() =~= sublog::restricted_objects(front, kept));
            assert(after.last() == strip(last));
        }
    }
}

/// A kept object of a type is still one of it.
proof fn lemma_typed_stays(log: LogView, kept: Set<Seq<char>>, id: Seq<char>, of: Seq<char>)
    requires
        log.has_typed_object(id, of),
        kept.contains(id),
    ensures
        log.restricted(kept).has_typed_object(id, of),
{
    let after = log.restricted(kept);
    let pred = |o: ObjectView| kept.contains(o.id);
    let places = lists::lemma_filter_places(log.objects, pred);
    let k = choose|k: int|
        0 <= k < log.objects.len() && #[trigger] log.objects[k].id == id
            && log.objects[k].object_type == of;
    assert(pred(log.objects[k]));
    assert(places.contains(k));
    let p = choose|p: int| 0 <= p < places.len() && places[p] == k;
    assert(after.objects[p].id == id);
}

/// What is related is related in what is kept.
proof fn lemma_reached_again(
    log: LogView,
    seed_type: Seq<char>,
    expansion: ExpansionView,
    id: Seq<char>,
)
    requires
        log.reached(seed_type, expansion).contains(id),
    ensures
        log.restricted(log.reached(seed_type, expansion)).reached(seed_type, expansion).contains(
            id,
        ),
{
    let kept = log.reached(seed_type, expansion);
    let after = log.restricted(kept);
    let again = after.reached(seed_type, expansion);
    assert forall|seed: Seq<char>| #[trigger]
        log.has_typed_object(seed, seed_type) implies again.contains(seed) by {
        graph::law_seeds_are_reached(log, seed_type, expansion, seed);
        lemma_typed_stays(log, kept, seed, seed_type);
        graph::law_seeds_are_reached(after, seed_type, expansion, seed);
    }
    assert forall|from: Seq<char>, next: Seq<char>|
        again.contains(from) && graph::expands(log, seed_type, expansion, from)
            && #[trigger] log.interact(from, next) implies again.contains(next) by {
        graph::law_reached_are_objects(after, seed_type, expansion, from);
        integrity::lemma_restricted_ids(log, kept, from);
        graph::law_walk_continues(log, seed_type, expansion, from, next);
        lemma_interaction_stays(log, kept, from, next);
        if log.has_typed_object(from, seed_type) {
            lemma_typed_stays(log, kept, from, seed_type);
        } else {
            reveal(LogView::walkable);
            lemma_type_stays(log.objects, kept, from);
        }
        graph::law_walk_continues(after, seed_type, expansion, from, next);
    }
    graph::law_nothing_else_is_reached(log, seed_type, expansion, again, id);
}

/// Keeping what is related done twice is done once.
pub proof fn law_related_once_is_enough(
    log: LogView,
    seed_type: Seq<char>,
    expansion: ExpansionView,
)
    ensures
        ({
            let once = log.restricted(log.reached(seed_type, expansion));
            once.restricted(once.reached(seed_type, expansion)) == once
        }),
{
    let kept = log.reached(seed_type, expansion);
    let once = log.restricted(kept);
    let again = once.reached(seed_type, expansion);
    assert forall|id: Seq<char>| #[trigger] kept.contains(id) implies again.contains(id) by {
        lemma_reached_again(log, seed_type, expansion, id);
    }
    lemma_restricted_held(log, kept, again);
    lemma_all_held(once, again);
}

/// The more types a walk may continue through, the more is kept.
pub proof fn law_more_types_reach_more(
    log: LogView,
    seed_type: Seq<char>,
    expansion: ExpansionView,
    wider: ExpansionView,
    id: Seq<char>,
)
    requires
        forall|of: Seq<char>| #[trigger] expansion.allows(of) ==> wider.allows(of),
        log.reached(seed_type, expansion).contains(id),
    ensures
        log.reached(seed_type, wider).contains(id),
{
    let kept = log.reached(seed_type, wider);
    assert forall|seed: Seq<char>| #[trigger]
        log.has_typed_object(seed, seed_type) implies kept.contains(seed) by {
        graph::law_seeds_are_reached(log, seed_type, wider, seed);
    }
    assert forall|from: Seq<char>, next: Seq<char>|
        kept.contains(from) && graph::expands(log, seed_type, expansion, from)
            && #[trigger] log.interact(from, next) implies kept.contains(next) by {
        reveal(LogView::walkable);
        graph::law_walk_continues(log, seed_type, wider, from, next);
    }
    graph::law_nothing_else_is_reached(log, seed_type, expansion, kept, id);
}

/// Keeping object types done twice is done once.
pub proof fn law_kept_types_once_is_enough(log: LogView, names: Seq<Seq<char>>)
    ensures
        ({
            let once = log.restricted(log.ids_of_types(names));
            once.restricted(once.ids_of_types(names)) == once
        }),
{
    let kept = log.ids_of_types(names);
    let once = log.restricted(kept);
    let again = once.ids_of_types(names);
    assert forall|id: Seq<char>| #[trigger] kept.contains(id) implies again.contains(id) by {
        let k = choose|k: int|
            0 <= k < log.objects.len() && #[trigger] log.objects[k].id == id && names.contains(
                log.objects[k].object_type,
            );
        let of = log.objects[k].object_type;
        assert(log.has_typed_object(id, of));
        lemma_typed_stays(log, kept, id, of);
    }
    lemma_restricted_held(log, kept, again);
    lemma_all_held(once, again);
}

} // verus!
