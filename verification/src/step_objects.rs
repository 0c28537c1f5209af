//! What the steps on objects do, told of the objects, their relations and the
//! events that refer to them.

use vstd::prelude::*;

use crate::aliasing;
use crate::error::ErrorView;
use crate::graph;
use crate::graph::ExpansionView;
use crate::lists;
use crate::merge::InputView;
use crate::model::DefinitionView;
use crate::model::EventView;
use crate::model::LogView;
use crate::model::ObjectView;
use crate::model::ObservationView;
use crate::model::RelationView;
use crate::model::TypeView;
use crate::model::ValueView;
use crate::names;
use crate::recipe::RelatedView;
use crate::recipe::StepView;
use crate::restaging;
use crate::sealing;
use crate::staging;
use crate::staging::Schema;
use crate::staging::StagingView;
use crate::sublog;
use crate::terms;
use crate::typing;

verus! {

/// Whether no two objects of the log have the same id.
pub open spec fn apart(log: LogView) -> bool {
    forall|i: int, j: int|
        0 <= i < j < log.objects.len() ==> (#[trigger] log.objects[i]).id != (
        #[trigger] log.objects[j]).id
}

/// Whether exactly the objects of `before` whose ids stay are left in `after`,
/// in their order, each with its type and observations and with exactly its
/// relations to ids that stay, in their order.
pub open spec fn objects_cut(
    before: LogView,
    after: LogView,
    stays: spec_fn(Seq<char>) -> bool,
) -> bool {
    terms::thinned(
        before.objects,
        after.objects,
        |o: ObjectView| stays(o.id),
        |old: ObjectView, new: ObjectView|
            {
                &&& new.id == old.id
                &&& new.object_type == old.object_type
                &&& new.attributes == old.attributes
                &&& terms::relations_thinned(old.relationships, new.relationships, stays)
            },
    )
}

/// Whether exactly the events of `before` that relate to an id that stays are
/// left in `after`, in their order, each as it was, with exactly its relations
/// to ids that stay, in their order.
pub open spec fn events_cut(
    before: LogView,
    after: LogView,
    stays: spec_fn(Seq<char>) -> bool,
) -> bool {
    terms::thinned(
        before.events,
        after.events,
        |e: EventView|
            exists|k: int|
                0 <= k < e.relationships.len() && stays((#[trigger] e.relationships[k]).object_id),
        |old: EventView, new: EventView|
            {
                &&& new.id == old.id
                &&& new.event_type == old.event_type
                &&& new.time == old.time
                &&& new.attributes == old.attributes
                &&& terms::relations_thinned(old.relationships, new.relationships, stays)
            },
    )
}

proof fn lemma_relations_cut(
    relations: Seq<RelationView>,
    kept: Set<Seq<char>>,
    stays: spec_fn(Seq<char>) -> bool,
)
    requires
        forall|id: Seq<char>| #[trigger] stays(id) == kept.contains(id),
    ensures
        terms::relations_thinned(
            relations,
            sublog::restricted_relations(relations, kept),
            stays,
        ),
{
    let pred = |r: RelationView| kept.contains(r.object_id);
    let wanted = |r: RelationView| stays(r.object_id);
    assert forall|k: int| 0 <= k < relations.len() implies pred(#[trigger] relations[k]) == wanted(
        relations[k],
    ) by {
        assert(stays(relations[k].object_id) == kept.contains(relations[k].object_id));
    }
    terms::lemma_filter_thinned(
        relations,
        sublog::restricted_relations(relations, kept),
        pred,
        wanted,
        |r: RelationView, left: RelationView| left == r,
    );
}

proof fn lemma_objects_cut(
    log: LogView,
    after: LogView,
    kept: Set<Seq<char>>,
    stays: spec_fn(Seq<char>) -> bool,
)
    requires
        forall|id: Seq<char>| #[trigger] stays(id) == kept.contains(id),
        after.objects == sublog::restricted_objects(log.objects, kept),
    ensures
        objects_cut(log, after, stays),
{
    let pred = |o: ObjectView| kept.contains(o.id);
    let wanted = |o: ObjectView| stays(o.id);
    let becomes = |old: ObjectView, new: ObjectView|
        {
            &&& new.id == old.id
            &&& new.object_type == old.object_type
            &&& new.attributes == old.attributes
            &&& terms::relations_thinned(old.relationships, new.relationships, stays)
        };
    assert forall|k: int| 0 <= k < log.objects.len() implies pred(#[trigger] log.objects[k])
        == wanted(log.objects[k]) by {
        assert(stays(log.objects[k].id) == kept.contains(log.objects[k].id));
    }
    assert forall|i: int| 0 <= i < after.objects.len() implies becomes(
        log.objects.filter(pred)[i],
        #[trigger] after.objects[i],
    ) by {
        let old = log.objects.filter(pred)[i];
        assert(after.objects[i] == sublog::restricted_object(old, kept));
        lemma_relations_cut(old.relationships, kept, stays);
    }
    terms::lemma_filter_thinned(log.objects, after.objects, pred, wanted, becomes);
}

proof fn lemma_events_cut(
    log: LogView,
    after: LogView,
    kept: Set<Seq<char>>,
    stays: spec_fn(Seq<char>) -> bool,
)
    requires
        forall|id: Seq<char>| #[trigger] stays(id) == kept.contains(id),
        after.events == sublog::restricted_events(log.events, kept),
    ensures
        events_cut(log, after, stays),
{
    let strip = |e: EventView| sublog::restricted_event(e, kept);
    let left = |e: EventView| e.relationships.len() > 0;
    let wanted = |e: EventView|
        exists|k: int|
            0 <= k < e.relationships.len() && stays((#[trigger] e.relationships[k]).object_id);
    let becomes = |old: EventView, new: EventView|
        {
            &&& new.id == old.id
            &&& new.event_type == old.event_type
            &&& new.time == old.time
            &&& new.attributes == old.attributes
            &&& terms::relations_thinned(old.relationships, new.relationships, stays)
        };
    let stripped = log.events.map_values(strip);
    let places = lists::lemma_filter_places(stripped, left);
    assert(terms::ordered_places(places, log.events.len() as int, after.events.len() as int));
    assert forall|k: int| 0 <= k < log.events.len() implies (wanted(#[trigger] log.events[k])
        <==> places.contains(k)) by {
        let relations = log.events[k].relationships;
        let held = |r: RelationView| kept.contains(r.object_id);
        let spots = lists::lemma_filter_places(relations, held);
        assert(stripped[k] == strip(log.events[k]));
        if wanted(log.events[k]) {
            let m = choose|m: int|
                0 <= m < relations.len() && stays((#[trigger] relations[m]).object_id);
            assert(held(relations[m]));
            assert(spots.contains(m));
            assert(left(stripped[k]));
        }
        if places.contains(k) {
            let i = choose|i: int| 0 <= i < places.len() && places[i] == k;
            assert(left(stripped[k]));
            assert(held(relations[spots[0]]));
            assert(stays(relations[spots[0]].object_id));
        }
    }
    assert forall|i: int| 0 <= i < after.events.len() implies becomes(
        log.events[places[i]],
        #[trigger] after.events[i],
    ) by {
        let old = log.events[places[i]];
        assert(after.events[i] == strip(old));
        lemma_relations_cut(old.relationships, kept, stays);
    }
}

/// Keeping object types always succeeds. It leaves exactly the objects of these
/// types, and exactly the events that relate to one of them; relations to other
/// objects go, and what is declared stays.
pub proof fn law_keep_object_types(
    names: Seq<Seq<char>>,
    index: int,
    log: LogView,
    input: InputView,
)
    ensures
        ({
            let stays = |id: Seq<char>|
                exists|i: int, j: int|
                    0 <= i < log.objects.len() && 0 <= j < names.len() && (
                    #[trigger] log.objects[i]).id == id && log.objects[i].object_type
                        == #[trigger] names[j];
            StepView::KeepObjectTypes(names).outcome(index, log, input) matches Ok((after, notes))
                && notes.duplicates_skipped is None && notes.events_lifted is None && objects_cut(
                log,
                after,
                stays,
            ) && events_cut(log, after, stays) && after.event_types == log.event_types
                && after.object_types == log.object_types
        }),
{
    let stays = |id: Seq<char>|
        exists|i: int, j: int|
            0 <= i < log.objects.len() && 0 <= j < names.len() && (#[trigger] log.objects[i]).id
                == id && log.objects[i].object_type == #[trigger] names[j];
    let kept = log.ids_of_types(names);
    let after = log.restricted(kept);
    assert forall|id: Seq<char>| #[trigger] stays(id) == kept.contains(id) by {
        if kept.contains(id) {
            let i = choose|i: int|
                0 <= i < log.objects.len() && #[trigger] log.objects[i].id == id && names.contains(
                    log.objects[i].object_type,
                );
            let j = choose|j: int| 0 <= j < names.len() && names[j] == log.objects[i].object_type;
            assert(log.objects[i].object_type == names[j]);
        }
        if stays(id) {
            let (i, j) = choose|i: int, j: int|
                0 <= i < log.objects.len() && 0 <= j < names.len() && (
                #[trigger] log.objects[i]).id == id && log.objects[i].object_type
                    == #[trigger] names[j];
            assert(names.contains(log.objects[i].object_type));
            assert(log.objects[i].id == id);
        }
    }
    lemma_objects_cut(log, after, kept, stays);
    lemma_events_cut(log, after, kept, stays);
}

/// The cleanup always succeeds. It leaves exactly the objects that some event
/// relates to, with exactly their relations to such objects, and every event
/// and all that is declared.
pub proof fn law_drop_objects_without_events(index: int, log: LogView, input: InputView)
    ensures
        StepView::DropObjectsWithoutEvents.outcome(index, log, input) matches Ok((after, notes))
            && notes.duplicates_skipped is None && notes.events_lifted is None && objects_cut(
            log,
            after,
            |id: Seq<char>|
                exists|i: int|
                    0 <= i < log.events.len() && terms::relates(#[trigger] log.events[i], id),
        ) && after.events == log.events && after.event_types == log.event_types
            && after.object_types == log.object_types,
{
    let stays = |id: Seq<char>|
        exists|i: int| 0 <= i < log.events.len() && terms::relates(#[trigger] log.events[i], id);
    let kept = log.referenced();
    assert forall|id: Seq<char>| #[trigger] stays(id) == kept.contains(id) by {
        if kept.contains(id) {
            let (i, k) = choose|i: int, k: int|
                0 <= i < log.events.len() && 0 <= k < log.events[i].relationships.len()
                    && #[trigger] log.events[i].relationships[k].object_id == id;
            assert(terms::relates(log.events[i], id));
        }
        if stays(id) {
            let i = choose|i: int|
                0 <= i < log.events.len() && terms::relates(#[trigger] log.events[i], id);
            let k = choose|k: int|
                0 <= k < log.events[i].relationships.len() && (
                #[trigger] log.events[i].relationships[k]).object_id == id;
            assert(log.events[i].relationships[k].object_id == id);
            assert(log.refers_to(id));
        }
    }
    lemma_objects_cut(log, log.without_orphans(), kept, stays);
}

/// Whether two different objects of the log touch: an event relates to both, or
/// one has a relation to the other.
pub open spec fn touch(log: LogView, a: Seq<char>, b: Seq<char>) -> bool {
    &&& a != b
    &&& terms::present(log, a)
    &&& terms::present(log, b)
    &&& terms::points(log, a, b) || terms::points(log, b, a) || exists|i: int|
        0 <= i < log.events.len() && terms::relates(#[trigger] log.events[i], a) && terms::relates(
            log.events[i],
            b,
        )
}

/// Whether a walk goes on from this object: it is of the type where walks
/// begin, or of a type on the list to walk through, or not on the list to stop
/// at. Of several objects of one id the last counts for the lists.
pub open spec fn goes_on(log: LogView, related: RelatedView, id: Seq<char>) -> bool {
    terms::is_of(log, id, related.object_type) || exists|i: int|
        {
            let of = (#[trigger] log.objects[i]).object_type;
            &&& 0 <= i < log.objects.len()
            &&& log.objects[i].id == id
            &&& forall|j: int| i < j < log.objects.len() ==> (#[trigger] log.objects[j]).id != id
            &&& listed_to_pass(related, of)
        }
}

/// Whether a type is on the list to walk through, or not on the list to stop
/// at.
pub open spec fn listed_to_pass(related: RelatedView, of: Seq<char>) -> bool {
    ||| related.via matches Some(via) && (exists|j: int|
        0 <= j < via.len() && #[trigger] via[j] == of)
    ||| related.not_via matches Some(stops) && (forall|j: int|
        0 <= j < stops.len() ==> #[trigger] stops[j] != of)
}

/// Whether a set holds every object where walks begin and, with each object
/// that a walk goes on from, every object that touches it.
pub open spec fn walked(log: LogView, related: RelatedView, set: Set<Seq<char>>) -> bool {
    &&& forall|i: int|
        0 <= i < log.objects.len() && (#[trigger] log.objects[i]).object_type
            == related.object_type ==> set.contains(log.objects[i].id)
    &&& forall|a: Seq<char>, b: Seq<char>|
        set.contains(a) && goes_on(log, related, a) && #[trigger] touch(log, a, b) ==> set.contains(
            b,
        )
}

proof fn lemma_touch(log: LogView, a: Seq<char>, b: Seq<char>)
    ensures
        touch(log, a, b) <==> log.interact(a, b),
{
    reveal(LogView::interact);
    lemma_present(log, a);
    lemma_present(log, b);
    lemma_points(log, a, b);
    lemma_points(log, b, a);
    if log.share_event(a, b) {
        let (i, j, k) = choose|i: int, j: int, k: int|
            0 <= i < log.events.len() && 0 <= j < log.events[i].relationships.len() && 0 <= k
                < log.events[i].relationships.len()
                && #[trigger] log.events[i].relationships[j].object_id == a
                && #[trigger] log.events[i].relationships[k].object_id == b;
        assert(terms::relates(log.events[i], a) && terms::relates(log.events[i], b));
    }
    if exists|i: int|
        0 <= i < log.events.len() && terms::relates(#[trigger] log.events[i], a) && terms::relates(
            log.events[i],
            b,
        ) {
        let i = choose|i: int|
            0 <= i < log.events.len() && terms::relates(#[trigger] log.events[i], a)
                && terms::relates(log.events[i], b);
        let relations = log.events[i].relationships;
        let j = choose|j: int| 0 <= j < relations.len() && (#[trigger] relations[j]).object_id == a;
        let k = choose|k: int| 0 <= k < relations.len() && (#[trigger] relations[k]).object_id == b;
        assert(log.events[i].relationships[j].object_id == a);
        assert(log.events[i].relationships[k].object_id == b);
    }
}

pub proof fn lemma_present(log: LogView, id: Seq<char>)
    ensures
        terms::present(log, id) <==> log.has_object(id),
{
    if terms::present(log, id) {
        let i = choose|i: int| 0 <= i < log.objects.len() && (#[trigger] log.objects[i]).id == id;
        assert(log.objects[i].id == id);
    }
    if log.has_object(id) {
        let i = choose|i: int| 0 <= i < log.objects.len() && #[trigger] log.objects[i].id == id;
        assert(log.objects[i].id == id);
    }
}

pub proof fn lemma_points(log: LogView, a: Seq<char>, b: Seq<char>)
    ensures
        terms::points(log, a, b) <==> log.has_o2o(a, b),
{
    if terms::points(log, a, b) {
        let (i, k) = choose|i: int, k: int|
            0 <= i < log.objects.len() && 0 <= k < log.objects[i].relationships.len()
                && log.objects[i].id == a && (
            #[trigger] log.objects[i].relationships[k]).object_id == b;
        assert(log.objects[i].relationships[k].object_id == b);
    }
    if log.has_o2o(a, b) {
        let (i, k) = choose|i: int, k: int|
            0 <= i < log.objects.len() && 0 <= k < log.objects[i].relationships.len()
                && log.objects[i].id == a && #[trigger] log.objects[i].relationships[k].object_id
                == b;
        assert(log.objects[i].relationships[k].object_id == b);
    }
}

pub proof fn lemma_is_of(log: LogView, id: Seq<char>, of: Seq<char>)
    ensures
        terms::is_of(log, id, of) <==> log.has_typed_object(id, of),
{
    if terms::is_of(log, id, of) {
        let i = choose|i: int|
            0 <= i < log.objects.len() && (#[trigger] log.objects[i]).id == id
                && log.objects[i].object_type == of;
        assert(log.objects[i].id == id);
    }
    if log.has_typed_object(id, of) {
        let i = choose|i: int|
            0 <= i < log.objects.len() && #[trigger] log.objects[i].id == id
                && log.objects[i].object_type == of;
        assert(log.objects[i].id == id);
    }
}

proof fn lemma_type_of_last(objects: Seq<ObjectView>, id: Seq<char>)
    ensures
        match graph::type_of(objects, id) {
            Some(of) => exists|i: int|
                {
                    &&& 0 <= i < objects.len()
                    &&& (#[trigger] objects[i]).object_type == of
                    &&& objects[i].id == id
                    &&& forall|j: int| i < j < objects.len() ==> (#[trigger] objects[j]).id != id
                },
            None => forall|j: int| 0 <= j < objects.len() ==> (#[trigger] objects[j]).id != id,
        },
    decreases objects.len(),
{
    if objects.len() > 0 {
        let front = objects.drop_last();
        let n = objects.len() - 1;
        lemma_type_of_last(front, id);
        assert(objects[n] == objects.last());
        if objects.last().id != id {
            match graph::type_of(front, id) {
                Some(of) => {
                    let i = choose|i: int|
                        {
                            &&& 0 <= i < front.len()
                            &&& (#[trigger] front[i]).object_type == of
                            &&& front[i].id == id
                            &&& forall|j: int|
                                i < j < front.len() ==> (#[trigger] front[j]).id != id
                        };
                    assert forall|j: int| i < j < objects.len() implies (#[trigger] objects[j]).id
                        != id by {
                        if j < n {
                            assert(front[j].id != id);
                        }
                    }
                    assert(objects[i].object_type == of);
                },
                None => {
                    assert forall|j: int| 0 <= j < objects.len() implies (#[trigger] objects[j]).id
                        != id by {
                        if j < n {
                            assert(front[j].id != id);
                        }
                    }
                },
            }
        } else {
            assert(objects[n].object_type == objects.last().object_type);
        }
    }
}

proof fn lemma_allowed(related: RelatedView, index: int, of: Seq<char>)
    requires
        related.expansion(index) is Ok,
    ensures
        listed_to_pass(related, of) <==> related.expansion(index)->Ok_0.allows(of),
{
    match related.expansion(index)->Ok_0 {
        ExpansionView::Via(types) => {
            if types.contains(of) {
                let j = choose|j: int| 0 <= j < types.len() && types[j] == of;
                assert(types[j] == of);
            }
        },
        ExpansionView::NotVia(types) => {
            if !types.contains(of) {
                assert forall|j: int| 0 <= j < types.len() implies #[trigger] types[j] != of by {}
            }
        },
    }
}

proof fn lemma_goes_on(log: LogView, related: RelatedView, index: int, id: Seq<char>)
    requires
        related.expansion(index) is Ok,
    ensures
        goes_on(log, related, id) <==> graph::expands(
            log,
            related.object_type,
            related.expansion(index)->Ok_0,
            id,
        ),
{
    reveal(LogView::walkable);
    lemma_is_of(log, id, related.object_type);
    lemma_type_of_last(log.objects, id);
    let objects = log.objects;
    match graph::type_of(objects, id) {
        Some(of) => {
            let i = choose|i: int|
                {
                    &&& 0 <= i < objects.len()
                    &&& (#[trigger] objects[i]).object_type == of
                    &&& objects[i].id == id
                    &&& forall|j: int| i < j < objects.len() ==> (#[trigger] objects[j]).id != id
                };
            lemma_allowed(related, index, of);
            assert forall|k: int|
                0 <= k < objects.len() && (#[trigger] objects[k]).id == id && (forall|j: int|
                    k < j < objects.len() ==> (#[trigger] objects[j]).id != id) implies k == i by {
                if k < i {
                    assert(objects[i].id != id);
                } else if i < k {
                    assert(objects[k].id != id);
                }
            }
            assert(log.objects[i].object_type == of);
        },
        None => {},
    }
}

/// Keeping what is related succeeds exactly where one of the two lists is
/// given. It then leaves a set of objects, and exactly the events that relate
/// to one of them. The set holds every object of the type where walks begin
/// and, with each object that a walk goes on from, every object that touches
/// it; and it lies in every set that does. What is declared stays.
pub proof fn law_keep_related_to(
    related: RelatedView,
    index: int,
    log: LogView,
    input: InputView,
)
    ensures
        match StepView::KeepRelatedTo(related).outcome(index, log, input) {
            Ok((after, notes)) => {
                &&& (related.via is Some) != (related.not_via is Some)
                &&& notes.duplicates_skipped is None && notes.events_lifted is None
                &&& exists|kept: Set<Seq<char>>| #[trigger]
                    walked(log, related, kept) && (forall|set: Set<Seq<char>>|
                        walked(log, related, set) ==> #[trigger] kept.subset_of(set))
                        && objects_cut(log, after, |id: Seq<char>| kept.contains(id)) && events_cut(
                        log,
                        after,
                        |id: Seq<char>| kept.contains(id),
                    )
                &&& after.event_types == log.event_types
                &&& after.object_types == log.object_types
            },
            Err(error) => (related.via is Some) == (related.not_via is Some) && error == (
            ErrorView::ViaXorNotVia { step: index }),
        },
{
    if let Ok(expansion) = related.expansion(index) {
        let seed = related.object_type;
        let kept = log.reached(seed, expansion);
        let after = log.restricted(kept);
        let stays = |id: Seq<char>| kept.contains(id);
        assert(walked(log, related, kept)) by {
            assert forall|i: int|
                0 <= i < log.objects.len() && (#[trigger] log.objects[i]).object_type
                    == seed implies kept.contains(log.objects[i].id) by {
                assert(log.objects[i].id == log.objects[i].id);
                graph::law_seeds_are_reached(log, seed, expansion, log.objects[i].id);
            }
            assert forall|a: Seq<char>, b: Seq<char>|
                kept.contains(a) && goes_on(log, related, a) && #[trigger] touch(
                    log,
                    a,
                    b,
                ) implies kept.contains(b) by {
                lemma_touch(log, a, b);
                lemma_goes_on(log, related, index, a);
                graph::law_walk_continues(log, seed, expansion, a, b);
            }
        }
        assert forall|set: Set<Seq<char>>|
            walked(log, related, set) implies #[trigger] kept.subset_of(set) by {
            assert forall|id: Seq<char>| kept.contains(id) implies set.contains(id) by {
                assert forall|s: Seq<char>| #[trigger]
                    log.has_typed_object(s, seed) implies set.contains(s) by {
                    let i = choose|i: int|
                        0 <= i < log.objects.len() && #[trigger] log.objects[i].id == s
                            && log.objects[i].object_type == seed;
                    assert(log.objects[i].object_type == seed);
                }
                assert forall|from: Seq<char>, next: Seq<char>|
                    set.contains(from) && graph::expands(log, seed, expansion, from)
                        && #[trigger] log.interact(from, next) implies set.contains(next) by {
                    lemma_touch(log, from, next);
                    lemma_goes_on(log, related, index, from);
                    assert(touch(log, from, next));
                }
                graph::law_nothing_else_is_reached(log, seed, expansion, set, id);
            }
        }
        lemma_objects_cut(log, after, kept, stays);
        lemma_events_cut(log, after, kept, stays);
    }
}

/// Resolving ids always succeeds where it can be sealed. Every event stays at
/// its place with its id, type and time and with its relations in their order,
/// each to what its target is an alias of; its attributes stay in their order,
/// and their values become texts where they clash within the event type and
/// stay where neither they nor the declarations do.
pub proof fn law_map_object_ids(
    aliases: Map<Seq<char>, Seq<char>>,
    index: int,
    log: LogView,
    input: InputView,
)
    ensures
        ({
            let target = |id: Seq<char>|
                if aliases.contains_key(id) {
                    aliases[id]
                } else {
                    id
                };
            StepView::MapObjectIds(aliases).outcome(index, log, input) matches Ok((after, notes))
                && notes.duplicates_skipped is None && notes.events_lifted is None
                && after.events.len() == log.events.len() && forall|i: int|
                0 <= i < log.events.len() ==> {
                    let (old, new) = (log.events[i], #[trigger] after.events[i]);
                    &&& new.id == old.id
                    &&& new.event_type == old.event_type
                    &&& new.time == old.time
                    &&& new.relationships.len() == old.relationships.len()
                    &&& forall|k: int|
                        0 <= k < old.relationships.len() ==> (
                        #[trigger] new.relationships[k]).object_id == target(
                            old.relationships[k].object_id,
                        ) && new.relationships[k].qualifier == old.relationships[k].qualifier
                    &&& values_sealed(log, log.events, old, new)
                }
        }),
{
    let s = staging::restaged(log);
    let t = s.rekeyed(aliases);
    let after = log.resolving(aliases);
    restaging::lemma_restaged_ids(log);
    assert forall|i: int| 0 <= i < log.events.len() implies values_sealed(
        log,
        log.events,
        log.events[i],
        #[trigger] after.events[i],
    ) by {
        assert(after.events[i] == staging::conformed_event(s.event_schema, t.events[i]));
        lemma_restaged_schema(log);
        lemma_values_sealed(log, log.events, i, after.events[i]);
    }
}

/// Whether a declaration of this event type lists this attribute with another
/// type than `kind`.
pub open spec fn declared_otherwise(
    log: LogView,
    event_type: Seq<char>,
    attribute: Seq<char>,
    value: ValueView,
) -> bool {
    exists|i: int, k: int|
        0 <= i < log.event_types.len() && 0 <= k < log.event_types[i].attributes.len()
            && log.event_types[i].name == event_type && (
        #[trigger] log.event_types[i].attributes[k]).name == attribute
            && log.event_types[i].attributes[k].value_type != value.kind()
}

/// Whether the attributes of an event stay in their order. Their values become
/// texts where they clash with values of the attribute in other events of the
/// type, and stay where they clash neither with those nor with the declaration.
pub open spec fn values_sealed(
    log: LogView,
    events: Seq<EventView>,
    old: EventView,
    new: EventView,
) -> bool {
    &&& new.attributes.len() == old.attributes.len()
    &&& forall|k: int|
        0 <= k < old.attributes.len() ==> {
            let (before, after) = (old.attributes[k], #[trigger] new.attributes[k]);
            let clashes = terms::mixed(
                events,
                |e: EventView| true,
                |e: EventView| e.event_type,
                old.event_type,
                before.name,
            );
            &&& terms::attribute_told(before, after)
            &&& clashes ==> terms::attribute_stays(before, after, true)
            &&& !clashes && !declared_otherwise(log, old.event_type, before.name, before.value)
                ==> terms::attribute_stays(before, after, false)
        }
}

pub proof fn lemma_restaged_schema(log: LogView)
    ensures
        staging::restaged(log).event_schema == typing::noted_all(
            staging::seeded(log.event_types),
            log.events,
        ),
{
    let start = StagingView {
        events: Seq::<EventView>::empty(),
        objects: Seq::<ObjectView>::empty(),
        event_schema: staging::seeded(log.event_types),
        object_schema: staging::seeded(log.object_types),
    };
    restaging::lemma_staged_ids(start, log.objects);
    typing::lemma_noted_all(start.with_log_objects(log.objects), log.events);
}

/// What declarations give is one of what they list.
proof fn lemma_seeded_listed(
    types: Seq<TypeView>,
    of: Seq<char>,
    name: Seq<char>,
) -> (at: (int, int))
    requires
        staging::entry(staging::seeded(types), of).contains_key(name),
    ensures
        0 <= at.0 < types.len(),
        0 <= at.1 < types[at.0].attributes.len(),
        types[at.0].name == of,
        types[at.0].attributes[at.1].name == name,
        types[at.0].attributes[at.1].value_type == staging::entry(
            staging::seeded(types),
            of,
        )[name],
    decreases types.len(),
{
    let front = types.drop_last();
    let n = types.len() - 1;
    assert(types[n] == types.last());
    if types.last().name == of {
        let k = lemma_seeded_attribute_listed(types.last().attributes, name);
        (n, k)
    } else {
        let (i, k) = lemma_seeded_listed(front, of, name);
        assert(front[i] == types[i]);
        (i, k)
    }
}

proof fn lemma_seeded_attribute_listed(
    definitions: Seq<DefinitionView>,
    name: Seq<char>,
) -> (k: int)
    requires
        staging::seeded_attributes(definitions).contains_key(name),
    ensures
        0 <= k < definitions.len(),
        definitions[k].name == name,
        definitions[k].value_type == staging::seeded_attributes(definitions)[name],
    decreases definitions.len(),
{
    let front = definitions.drop_last();
    let n = definitions.len() - 1;
    assert(definitions[n] == definitions.last());
    if definitions.last().name == name {
        n
    } else {
        let k = lemma_seeded_attribute_listed(front, name);
        assert(front[k] == definitions[k]);
        k
    }
}

pub proof fn lemma_values_sealed(log: LogView, events: Seq<EventView>, i: int, new: EventView)
    requires
        0 <= i < events.len(),
        new.attributes == staging::conformed_event(
            typing::noted_all(staging::seeded(log.event_types), events),
            events[i],
        ).attributes,
    ensures
        values_sealed(log, events, events[i], new),
{
    let start = staging::seeded(log.event_types);
    let old = events[i];
    assert forall|k: int| 0 <= k < old.attributes.len() implies {
        let (before, after) = (old.attributes[k], #[trigger] new.attributes[k]);
        let clashes = terms::mixed(
            events,
            |e: EventView| true,
            |e: EventView| e.event_type,
            old.event_type,
            before.name,
        );
        &&& terms::attribute_told(before, after)
        &&& clashes ==> terms::attribute_stays(before, after, true)
        &&& !clashes && !declared_otherwise(log, old.event_type, before.name, before.value)
            ==> terms::attribute_stays(before, after, false)
    } by {
        let before = old.attributes[k];
        typing::lemma_value_sealed(start, events, i, k);
        if staging::entry(start, old.event_type).contains_key(before.name) {
            let (p, q) = lemma_seeded_listed(log.event_types, old.event_type, before.name);
            assert(log.event_types[p].attributes[q].name == before.name);
        }
    }
}

/// Whether the types of the values of every attribute of these objects are one,
/// which is also the one that it is declared with.
pub open spec fn one_kind(objects: Seq<ObjectView>, types: Seq<TypeView>) -> bool {
    &&& forall|i: int, k: int, j: int, m: int|
        0 <= i < objects.len() && 0 <= k < objects[i].attributes.len() && 0 <= j < objects.len()
            && 0 <= m < objects[j].attributes.len() && (#[trigger] objects[i].attributes[k]).name
            == (#[trigger] objects[j].attributes[m]).name ==> objects[i].attributes[k].value.kind()
            == objects[j].attributes[m].value.kind()
    &&& forall|i: int, k: int, j: int, m: int|
        0 <= i < objects.len() && 0 <= k < objects[i].attributes.len() && 0 <= j < types.len() && 0
            <= m < types[j].attributes.len() && (#[trigger] objects[i].attributes[k]).name == (
        #[trigger] types[j].attributes[m]).name ==> objects[i].attributes[k].value.kind()
            == types[j].attributes[m].value_type
}

/// Whether this is an observation of one of the objects.
pub open spec fn seen_in(objects: Seq<ObjectView>, seen: ObservationView) -> bool {
    exists|i: int|
        0 <= i < objects.len() && (#[trigger] objects[i]).attributes.contains(seen)
}

/// Whether the schema gives each attribute that the objects have the type of
/// their values.
pub open spec fn told_by(schema: Schema, objects: Seq<ObjectView>) -> bool {
    forall|of: Seq<char>, seen: ObservationView|
        #![trigger schema[of].contains_key(seen.name), seen_in(objects, seen)]
        seen_in(objects, seen) && schema.contains_key(of) && schema[of].contains_key(seen.name)
            ==> schema[of][seen.name] == seen.value.kind()
}

proof fn lemma_seen_alike(
    objects: Seq<ObjectView>,
    types: Seq<TypeView>,
    a: ObservationView,
    b: ObservationView,
)
    requires
        one_kind(objects, types),
        seen_in(objects, a),
        seen_in(objects, b),
        a.name == b.name,
    ensures
        a.value.kind() == b.value.kind(),
{
    let i = choose|i: int| 0 <= i < objects.len() && (#[trigger] objects[i]).attributes.contains(a);
    let j = choose|j: int| 0 <= j < objects.len() && (#[trigger] objects[j]).attributes.contains(b);
    let k = choose|k: int| 0 <= k < objects[i].attributes.len() && objects[i].attributes[k] == a;
    let m = choose|m: int| 0 <= m < objects[j].attributes.len() && objects[j].attributes[m] == b;
    assert(objects[i].attributes[k].name == objects[j].attributes[m].name);
}

proof fn lemma_observations_told(
    s: StagingView,
    id: Seq<char>,
    observations: Seq<ObservationView>,
    all: Seq<ObjectView>,
    types: Seq<TypeView>,
)
    requires
        one_kind(all, types),
        told_by(s.object_schema, all),
        forall|k: int| 0 <= k < observations.len() ==> seen_in(all, #[trigger] observations[k]),
    ensures
        told_by(s.with_observations(id, observations).object_schema, all),
    decreases observations.len(),
{
    if observations.len() > 0 {
        let front = observations.drop_last();
        let last = observations.last();
        assert forall|k: int| 0 <= k < front.len() implies seen_in(all, #[trigger] front[k]) by {
            assert(front[k] == observations[k]);
        }
        lemma_observations_told(s, id, front, all, types);
        assert(observations[observations.len() - 1] == last);
        let before = s.with_observations(id, front).object_schema;
        let after = s.with_observations(id, observations).object_schema;
        assert forall|of: Seq<char>, seen: ObservationView|
            #![trigger after[of].contains_key(seen.name), seen_in(all, seen)]
            seen_in(all, seen) && after.contains_key(of) && after[of].contains_key(
                seen.name,
            ) implies after[of][seen.name] == seen.value.kind() by {
            if seen.name == last.name {
                lemma_seen_alike(all, types, seen, last);
            }
            if before.contains_key(of) && before[of].contains_key(last.name) {
                assert(before[of][last.name] == last.value.kind());
            }
            if before.contains_key(of) && before[of].contains_key(seen.name) {
                assert(before[of][seen.name] == seen.value.kind());
            }
        }
    }
}

pub proof fn lemma_relations_told(s: StagingView, id: Seq<char>, relations: Seq<RelationView>)
    ensures
        s.with_o2os(id, relations).object_schema == s.object_schema,
    decreases relations.len(),
{
    if relations.len() > 0 {
        lemma_relations_told(s, id, relations.drop_last());
    }
}

/// Staging objects whose attributes have values of one type declares no other.
pub proof fn lemma_objects_told(
    s: StagingView,
    objects: Seq<ObjectView>,
    all: Seq<ObjectView>,
    types: Seq<TypeView>,
)
    requires
        one_kind(all, types),
        told_by(s.object_schema, all),
        forall|i: int, k: int|
            0 <= i < objects.len() && 0 <= k < objects[i].attributes.len() ==> seen_in(
                all,
                #[trigger] objects[i].attributes[k],
            ),
    ensures
        told_by(s.with_log_objects(objects).object_schema, all),
    decreases objects.len(),
{
    if objects.len() > 0 {
        let front = objects.drop_last();
        let last = objects.last();
        let n = objects.len() - 1;
        assert forall|i: int, k: int|
            0 <= i < front.len() && 0 <= k < front[i].attributes.len() implies seen_in(
            all,
            #[trigger] front[i].attributes[k],
        ) by {
            assert(seen_in(all, objects[i].attributes[k]));
        }
        lemma_objects_told(s, front, all, types);
        let before = s.with_log_objects(front);
        let typed = before.with_object(last.id, last.object_type);
        assert(told_by(typed.object_schema, all)) by {
            let (old, new) = (before.object_schema, typed.object_schema);
            assert forall|of: Seq<char>, seen: ObservationView|
                #![trigger new[of].contains_key(seen.name), seen_in(all, seen)]
                seen_in(all, seen) && new.contains_key(of) && new[of].contains_key(
                    seen.name,
                ) implies new[of][seen.name] == seen.value.kind() by {
                assert(old.contains_key(of) && old[of].contains_key(seen.name));
            }
        }
        assert forall|k: int| 0 <= k < last.attributes.len() implies seen_in(
            all,
            #[trigger] last.attributes[k],
        ) by {
            assert(seen_in(all, objects[n].attributes[k]));
        }
        lemma_observations_told(typed, last.id, last.attributes, all, types);
        lemma_relations_told(
            typed.with_observations(last.id, last.attributes),
            last.id,
            last.relationships,
        );
    }
}

/// What the declarations say of the attributes that the objects have.
pub proof fn lemma_seeded_told(all: Seq<ObjectView>, types: Seq<TypeView>)
    requires
        one_kind(all, types),
    ensures
        told_by(staging::seeded(types), all),
{
    let schema = staging::seeded(types);
    assert forall|of: Seq<char>, seen: ObservationView|
        #![trigger schema[of].contains_key(seen.name), seen_in(all, seen)]
        seen_in(all, seen) && schema.contains_key(of) && schema[of].contains_key(
            seen.name,
        ) implies schema[of][seen.name] == seen.value.kind() by {
        let (j, m) = lemma_seeded_listed(types, of, seen.name);
        let i = choose|i: int|
            0 <= i < all.len() && (#[trigger] all[i]).attributes.contains(seen);
        let k = choose|k: int| 0 <= k < all[i].attributes.len() && all[i].attributes[k] == seen;
        assert(all[i].attributes[k].name == types[j].attributes[m].name);
    }
}

/// Observations that have the types declared are sealed as they are.
pub proof fn lemma_sealed_as_they_are(
    schema: Schema,
    object: ObjectView,
    all: Seq<ObjectView>,
    types: Seq<TypeView>,
)
    requires
        one_kind(all, types),
        told_by(schema, all),
        forall|k: int|
            0 <= k < object.attributes.len() ==> seen_in(all, #[trigger] object.attributes[k]),
    ensures
        forall|held: ObservationView| #[trigger]
            staging::sealed_object(schema, object).attributes.contains(held)
                ==> object.attributes.contains(held),
{
    let conformed = staging::conformed_observations(schema, object);
    let distinct = staging::distinct_observations(conformed);
    assert(conformed =~= object.attributes) by {
        assert forall|k: int| 0 <= k < object.attributes.len() implies #[trigger] conformed[k]
            == object.attributes[k] by {
            let a = object.attributes[k];
            assert(seen_in(all, a));
            if schema.contains_key(object.object_type)
                && schema[object.object_type].contains_key(a.name) {
                assert(schema[object.object_type][a.name] == a.value.kind());
            }
        }
    }
    sealing::lemma_distinct_observations(conformed);
    assert forall|held: ObservationView| #[trigger]
        staging::sealed_object(schema, object).attributes.contains(
            held,
        ) implies object.attributes.contains(held) by {
        sealing::lemma_sorted_observations(distinct, held);
    }
}

/// What an id is an alias of: itself, where the table has no entry for it.
pub open spec fn target(aliases: Map<Seq<char>, Seq<char>>, id: Seq<char>) -> Seq<char> {
    if aliases.contains_key(id) {
        aliases[id]
    } else {
        id
    }
}

/// Whether `of` is the type of the first of the objects that become this id
/// whose type has a name, and has no name itself where there is none.
pub open spec fn first_type(
    aliases: Map<Seq<char>, Seq<char>>,
    objects: Seq<ObjectView>,
    id: Seq<char>,
    of: Seq<char>,
) -> bool {
    ||| exists|i: int|
        {
            &&& 0 <= i < objects.len()
            &&& target(aliases, (#[trigger] objects[i]).id) == id
            &&& objects[i].object_type.len() > 0
            &&& objects[i].object_type == of
            &&& forall|j: int|
                0 <= j < i && target(aliases, (#[trigger] objects[j]).id) == id
                    ==> objects[j].object_type.len() == 0
        }
    ||| of.len() == 0 && forall|j: int|
        0 <= j < objects.len() && target(aliases, (#[trigger] objects[j]).id) == id
            ==> objects[j].object_type.len() == 0
}

/// Whether one of the objects that become this id has a relation that becomes
/// this one.
pub open spec fn becomes_related(
    aliases: Map<Seq<char>, Seq<char>>,
    objects: Seq<ObjectView>,
    id: Seq<char>,
    r: RelationView,
) -> bool {
    exists|i: int, k: int|
        0 <= i < objects.len() && 0 <= k < objects[i].relationships.len() && target(
            aliases,
            objects[i].id,
        ) == id && target(aliases, (#[trigger] objects[i].relationships[k]).object_id)
            == r.object_id && objects[i].relationships[k].qualifier == r.qualifier
}

/// The observations of the objects that become this id.
pub open spec fn observations_into(
    aliases: Map<Seq<char>, Seq<char>>,
    objects: Seq<ObjectView>,
    id: Seq<char>,
) -> Set<ObservationView> {
    Set::new(
        |seen: ObservationView|
            exists|i: int|
                0 <= i < objects.len() && target(aliases, (#[trigger] objects[i]).id) == id
                    && objects[i].attributes.contains(seen),
    )
}

proof fn lemma_first_type(
    aliases: Map<Seq<char>, Seq<char>>,
    objects: Seq<ObjectView>,
    id: Seq<char>,
)
    ensures
        first_type(aliases, objects, id, aliasing::merged_type(aliases, objects, id)),
    decreases objects.len(),
{
    if objects.len() > 0 {
        let front = objects.drop_last();
        let n = objects.len() - 1;
        let earlier = aliasing::merged_type(aliases, front, id);
        lemma_first_type(aliases, front, id);
        assert(objects[n] == objects.last());
        assert(names::resolved(aliases, objects[n].id) == target(aliases, objects[n].id));
        if earlier.len() > 0 {
            let i = choose|i: int|
                {
                    &&& 0 <= i < front.len()
                    &&& target(aliases, (#[trigger] front[i]).id) == id
                    &&& front[i].object_type.len() > 0
                    &&& front[i].object_type == earlier
                    &&& forall|j: int|
                        0 <= j < i && target(aliases, (#[trigger] front[j]).id) == id
                            ==> front[j].object_type.len() == 0
                };
            assert(objects[i] == front[i]);
            assert forall|j: int|
                0 <= j < i && target(aliases, (#[trigger] objects[j]).id)
                    == id implies objects[j].object_type.len() == 0 by {
                assert(front[j] == objects[j]);
            }
        } else {
            assert forall|j: int|
                0 <= j < n && target(aliases, (#[trigger] objects[j]).id)
                    == id implies objects[j].object_type.len() == 0 by {
                assert(front[j] == objects[j]);
            }
        }
    }
}

proof fn lemma_becomes_related(
    aliases: Map<Seq<char>, Seq<char>>,
    objects: Seq<ObjectView>,
    id: Seq<char>,
    r: RelationView,
)
    ensures
        aliasing::merged_relates(aliases, objects, id, r) <==> becomes_related(
            aliases,
            objects,
            id,
            r,
        ),
{
    if aliasing::merged_relates(aliases, objects, id, r) {
        let i = choose|i: int|
            0 <= i < objects.len() && names::resolved(aliases, #[trigger] objects[i].id) == id
                && staging::resolved_relations(aliases, objects[i].relationships).contains(r);
        let list = staging::resolved_relations(aliases, objects[i].relationships);
        let k = choose|k: int| 0 <= k < list.len() && list[k] == r;
        assert(target(aliases, objects[i].relationships[k].object_id) == r.object_id);
    }
    if becomes_related(aliases, objects, id, r) {
        let (i, k) = choose|i: int, k: int|
            0 <= i < objects.len() && 0 <= k < objects[i].relationships.len() && target(
                aliases,
                objects[i].id,
            ) == id && target(aliases, (#[trigger] objects[i].relationships[k]).object_id)
                == r.object_id && objects[i].relationships[k].qualifier == r.qualifier;
        let list = staging::resolved_relations(aliases, objects[i].relationships);
        assert(list[k] == r);
        assert(list.contains(r));
        assert(names::resolved(aliases, objects[i].id) == id);
    }
}

proof fn lemma_observations_into(
    aliases: Map<Seq<char>, Seq<char>>,
    objects: Seq<ObjectView>,
    id: Seq<char>,
)
    ensures
        observations_into(aliases, objects, id) == aliasing::merged_observations(
            aliases,
            objects,
            id,
        ),
{
    let mine = observations_into(aliases, objects, id);
    let theirs = aliasing::merged_observations(aliases, objects, id);
    assert forall|seen: ObservationView| mine.contains(seen) == theirs.contains(seen) by {
        if theirs.contains(seen) {
            let i = choose|i: int|
                0 <= i < objects.len() && names::resolved(aliases, #[trigger] objects[i].id) == id
                    && objects[i].attributes.contains(seen);
            assert(target(aliases, objects[i].id) == id);
        }
        if mine.contains(seen) {
            let i = choose|i: int|
                0 <= i < objects.len() && target(aliases, (#[trigger] objects[i]).id) == id
                    && objects[i].attributes.contains(seen);
            assert(names::resolved(aliases, objects[i].id) == id);
        }
    }
    assert(mine =~= theirs);
}

/// Resolving ids merges objects: there is one object for each id that an object
/// has or is an alias of. It has the type of the first of these that has a named
/// one, exactly their relations, each to what its target is an alias of, and
/// their observations; these as they are where every attribute has values of
/// one type, which is the one declared.
pub proof fn law_map_object_ids_merges(
    aliases: Map<Seq<char>, Seq<char>>,
    index: int,
    log: LogView,
    input: InputView,
)
    requires
        apart(log),
    ensures
        StepView::MapObjectIds(aliases).outcome(index, log, input) matches Ok((after, _)) && {
            &&& apart(after)
            &&& forall|id: Seq<char>| #[trigger]
                terms::present(after, id) <==> exists|i: int|
                    0 <= i < log.objects.len() && target(aliases, (#[trigger] log.objects[i]).id)
                        == id
            &&& forall|p: int|
                0 <= p < after.objects.len() ==> {
                    let object = #[trigger] after.objects[p];
                    &&& first_type(aliases, log.objects, object.id, object.object_type)
                    &&& forall|r: RelationView| #[trigger]
                        object.relationships.contains(r) <==> becomes_related(
                            aliases,
                            log.objects,
                            object.id,
                            r,
                        )
                    &&& sealing::carried(
                        observations_into(aliases, log.objects, object.id),
                        object.attributes.to_set(),
                        false,
                    )
                    &&& one_kind(log.objects, log.object_types) ==> object.attributes.to_set()
                        .subset_of(observations_into(aliases, log.objects, object.id))
                }
        },
{
    let after = log.resolving(aliases);
    aliasing::law_aliases_merge_objects(log, aliases);
    assert forall|id: Seq<char>| #[trigger] terms::present(after, id) <==> exists|i: int|
        0 <= i < log.objects.len() && target(aliases, (#[trigger] log.objects[i]).id) == id by {
        lemma_present(after, id);
        assert(after.has_object(id) <==> aliasing::resolves_to(aliases, log.objects, id));
        if aliasing::resolves_to(aliases, log.objects, id) {
            let i = choose|i: int|
                0 <= i < log.objects.len() && names::resolved(aliases, #[trigger] log.objects[i].id)
                    == id;
            assert(target(aliases, log.objects[i].id) == id);
        }
        if exists|i: int|
            0 <= i < log.objects.len() && target(aliases, (#[trigger] log.objects[i]).id) == id {
            let i = choose|i: int|
                0 <= i < log.objects.len() && target(aliases, (#[trigger] log.objects[i]).id) == id;
            assert(names::resolved(aliases, log.objects[i].id) == id);
        }
    }
    assert forall|p: int| 0 <= p < after.objects.len() implies {
        let object = #[trigger] after.objects[p];
        &&& first_type(aliases, log.objects, object.id, object.object_type)
        &&& forall|r: RelationView| #[trigger]
            object.relationships.contains(r) <==> becomes_related(
                aliases,
                log.objects,
                object.id,
                r,
            )
        &&& sealing::carried(
            observations_into(aliases, log.objects, object.id),
            object.attributes.to_set(),
            false,
        )
        &&& one_kind(log.objects, log.object_types) ==> object.attributes.to_set().subset_of(
            observations_into(aliases, log.objects, object.id),
        )
    } by {
        lemma_merged_object(aliases, log, p);
    }
}

proof fn lemma_merged_object(aliases: Map<Seq<char>, Seq<char>>, log: LogView, p: int)
    requires
        apart(log),
        0 <= p < log.resolving(aliases).objects.len(),
    ensures
        ({
            let object = log.resolving(aliases).objects[p];
            &&& first_type(aliases, log.objects, object.id, object.object_type)
            &&& forall|r: RelationView| #[trigger]
                object.relationships.contains(r) <==> becomes_related(
                    aliases,
                    log.objects,
                    object.id,
                    r,
                )
            &&& sealing::carried(
                observations_into(aliases, log.objects, object.id),
                object.attributes.to_set(),
                false,
            )
            &&& one_kind(log.objects, log.object_types) ==> object.attributes.to_set().subset_of(
                observations_into(aliases, log.objects, object.id),
            )
        }),
{
    let after = log.resolving(aliases);
    let object = after.objects[p];
    aliasing::law_aliases_merge_objects(log, aliases);
    lemma_first_type(aliases, log.objects, object.id);
    lemma_observations_into(aliases, log.objects, object.id);
    lemma_carried_less(
        observations_into(aliases, log.objects, object.id),
        object.attributes.to_set(),
        sealing::named(log.objects) && aliasing::one_type(aliases, log.objects, object.id),
    );
    assert forall|r: RelationView| #[trigger] object.relationships.contains(r)
        <==> becomes_related(aliases, log.objects, object.id, r) by {
        lemma_becomes_related(aliases, log.objects, object.id, r);
    }
    if one_kind(log.objects, log.object_types) {
        lemma_merged_as_they_are(aliases, log, p);
    }
}

proof fn lemma_merged_as_they_are(aliases: Map<Seq<char>, Seq<char>>, log: LogView, p: int)
    requires
        apart(log),
        0 <= p < log.resolving(aliases).objects.len(),
        one_kind(log.objects, log.object_types),
    ensures
        ({
            let object = log.resolving(aliases).objects[p];
            object.attributes.to_set().subset_of(
                aliasing::merged_observations(aliases, log.objects, object.id),
            )
        }),
{
    let t = staging::restaged(log).rekeyed(aliases);
    let object = log.resolving(aliases).objects[p];
    let staged = t.objects[p];
    restaging::lemma_restaged(log);
    aliasing::lemma_rekeyed(aliases, log.objects);
    lemma_restaged_told(log);
    assert(object == staging::sealed_object(t.object_schema, staged));
    assert forall|k: int| 0 <= k < staged.attributes.len() implies seen_in(
        log.objects,
        #[trigger] staged.attributes[k],
    ) by {
        let seen = staged.attributes[k];
        assert(t.objects[p].attributes.contains(seen));
        lemma_merged_seen(aliases, log.objects, staged.id, seen);
    }
    lemma_sealed_as_they_are(t.object_schema, staged, log.objects, log.object_types);
    assert forall|held: ObservationView| #[trigger]
        object.attributes.to_set().contains(held) implies aliasing::merged_observations(
        aliases,
        log.objects,
        object.id,
    ).contains(held) by {
        assert(t.objects[p].attributes.contains(held));
    }
}

proof fn lemma_restaged_told(log: LogView)
    requires
        one_kind(log.objects, log.object_types),
    ensures
        told_by(staging::restaged(log).object_schema, log.objects),
{
    let start = StagingView {
        events: Seq::<EventView>::empty(),
        objects: Seq::<ObjectView>::empty(),
        event_schema: staging::seeded(log.event_types),
        object_schema: staging::seeded(log.object_types),
    };
    lemma_seeded_told(log.objects, log.object_types);
    assert forall|i: int, k: int|
        0 <= i < log.objects.len() && 0 <= k < log.objects[i].attributes.len() implies seen_in(
        log.objects,
        #[trigger] log.objects[i].attributes[k],
    ) by {
        assert(log.objects[i].attributes.contains(log.objects[i].attributes[k]));
    }
    lemma_objects_told(start, log.objects, log.objects, log.object_types);
    restaging::lemma_with_events(start.with_log_objects(log.objects), log.events);
}

proof fn lemma_merged_seen(
    table: Map<Seq<char>, Seq<char>>,
    objects: Seq<ObjectView>,
    id: Seq<char>,
    seen: ObservationView,
)
    requires
        aliasing::merged_observes(table, objects, id, seen),
    ensures
        seen_in(objects, seen),
{
    let i = choose|i: int|
        0 <= i < objects.len() && names::resolved(table, #[trigger] objects[i].id) == id
            && objects[i].attributes.contains(seen);
    assert(objects[i].attributes.contains(seen));
}

/// Observations that are carried are carried however closely they are looked
/// at.
pub proof fn lemma_carried_less(
    before: Set<ObservationView>,
    after: Set<ObservationView>,
    agree: bool,
)
    requires
        sealing::carried(before, after, agree),
    ensures
        sealing::carried(before, after, false),
{
    assert forall|a: ObservationView| #[trigger]
        before.contains(a) && sealing::stands_out(before, a, false) implies sealing::holds(
        after,
        a,
    ) by {
        assert(sealing::stands_out(before, a, agree));
    }
}

/// The steps that drop, keep or rename events leave the observations of objects
/// as they are, where every attribute has values of one type, which is the one
/// declared.
pub proof fn law_event_steps_keep_values(
    step: StepView,
    index: int,
    log: LogView,
    input: InputView,
)
    requires
        step is DropEventTypes || step is KeepEventTypes || step is DropEventsWhere
            || step is TimeWindow || step is RenameEventTypes,
        apart(log),
        one_kind(log.objects, log.object_types),
    ensures
        step.outcome(index, log, input) matches Ok((after, _)) ==> after.objects.len()
            == log.objects.len() && forall|i: int|
            0 <= i < log.objects.len() ==> (
            #[trigger] after.objects[i]).attributes.to_set().subset_of(
                log.objects[i].attributes.to_set(),
            ),
{
    if let Ok((after, _)) = step.outcome(index, log, input) {
        let schema = staging::restaged(log).object_schema;
        restaging::lemma_restaged(log);
        lemma_restaged_told(log);
        assert forall|i: int| 0 <= i < log.objects.len() implies (
        #[trigger] after.objects[i]).attributes.to_set().subset_of(
            log.objects[i].attributes.to_set(),
        ) by {
            let object = log.objects[i];
            assert(after.objects[i] == staging::sealed_object(schema, object));
            assert forall|k: int| 0 <= k < object.attributes.len() implies seen_in(
                log.objects,
                #[trigger] object.attributes[k],
            ) by {
                assert(log.objects[i].attributes.contains(object.attributes[k]));
            }
            lemma_sealed_as_they_are(schema, object, log.objects, log.object_types);
        }
    }
}

} // verus!
