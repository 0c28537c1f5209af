//! What the steps do to the objects of a log.

use vstd::prelude::*;

use crate::filter::FilterView;
use crate::sealing;
use crate::integrity;
use crate::lists;
use crate::merge::InputView;
use crate::model::EventView;
use crate::model::LogView;
use crate::model::ObjectView;
use crate::model::ObservationView;
use crate::model::RelationView;
use crate::recipe::StepView;
use crate::restaging;
use crate::settling;
use crate::staging;
use crate::staging::Schema;
use crate::staging::StagingView;
use crate::sublog;

verus! {

/// A sealed log has the objects that are staged.
proof fn lemma_sealed_ids(s: StagingView, id: Seq<char>)
    ensures
        s.sealed().has_object(id) <==> staging::staged(s.objects, id),
{
    let log = s.sealed();
    if log.has_object(id) {
        let i = choose|i: int| 0 <= i < log.objects.len() && #[trigger] log.objects[i].id == id;
        assert(s.objects[i].id == id);
    }
    if staging::staged(s.objects, id) {
        let i = choose|i: int| 0 <= i < s.objects.len() && #[trigger] s.objects[i].id == id;
        assert(log.objects[i].id == id);
    }
}

/// Dropping or keeping events by a condition, and renaming them, leave every
/// object in the log.
pub proof fn law_event_steps_keep_objects(
    log: LogView,
    filter: FilterView,
    renames: Map<Seq<char>, Seq<char>>,
    id: Seq<char>,
)
    ensures
        log.retaining(filter).has_object(id) <==> log.has_object(id),
        log.renaming(renames).has_object(id) <==> log.has_object(id),
{
    restaging::lemma_restaged_ids(log);
    lemma_sealed_ids(staging::restaged(log).retained(filter), id);
    lemma_sealed_ids(staging::restaged(log).renamed(renames), id);
    assert(staging::staged(staging::restaged(log).objects, id) <==> log.has_object(id));
}

/// Whether the object `after` is the object `before`: it has the same id and
/// type, the same relationships, and the observations of `before`.
pub open spec fn same_object(before: ObjectView, after: ObjectView, agree: bool) -> bool {
    &&& after.id == before.id
    &&& after.object_type == before.object_type
    &&& forall|r: RelationView| #[trigger]
        after.relationships.contains(r) <==> before.relationships.contains(r)
    &&& sealing::carried(before.attributes.to_set(), after.attributes.to_set(), agree)
}

/// Dropping or keeping events by a condition, and renaming them, leave every
/// object at its place, with its type and its relationships; no observation of
/// it is trimmed.
pub proof fn law_event_steps_leave_objects(
    log: LogView,
    filter: FilterView,
    renames: Map<Seq<char>, Seq<char>>,
)
    requires
        integrity::distinct_objects(log.objects),
    ensures
        log.retaining(filter).objects.len() == log.objects.len(),
        log.renaming(renames).objects.len() == log.objects.len(),
        forall|i: int|
            0 <= i < log.objects.len() ==> same_object(
                log.objects[i],
                #[trigger] log.retaining(filter).objects[i],
                sealing::named(log.objects),
            ),
        forall|i: int|
            0 <= i < log.objects.len() ==> same_object(
                log.objects[i],
                #[trigger] log.renaming(renames).objects[i],
                sealing::named(log.objects),
            ),
{
    restaging::lemma_restaged(log);
    let schema = staging::restaged(log).object_schema;
    let agree = sealing::named(log.objects);
    if agree {
        settling::lemma_restaged_fits(log);
    }
    assert forall|i: int| 0 <= i < log.objects.len() implies same_object(
        log.objects[i],
        #[trigger] log.retaining(filter).objects[i],
        agree,
    ) by {
        sealing::lemma_sealed_object(schema, log.objects[i]);
        sealing::lemma_sealed_observations(schema, log.objects[i], agree);
    }
    assert forall|i: int| 0 <= i < log.objects.len() implies same_object(
        log.objects[i],
        #[trigger] log.renaming(renames).objects[i],
        agree,
    ) by {
        sealing::lemma_sealed_object(schema, log.objects[i]);
        sealing::lemma_sealed_observations(schema, log.objects[i], agree);
    }
}

/// Whether an object is as sealing leaves it: its values are of their
/// declared types, its observations stand in order without repeats, and so do
/// its relationships.
pub open spec fn settled_object(schema: Schema, object: ObjectView) -> bool {
    &&& schema.contains_key(object.object_type)
    &&& forall|k: int|
        0 <= k < object.attributes.len() ==> schema[object.object_type].contains_key(
            (#[trigger] object.attributes[k]).name,
        ) && schema[object.object_type][object.attributes[k].name]
            == object.attributes[k].value.kind()
    &&& forall|i: int, j: int|
        0 <= i < j < object.attributes.len() ==> !staging::same_observation(
            #[trigger] object.attributes[i],
            #[trigger] object.attributes[j],
        ) && !staging::observation_precedes(object.attributes[j], object.attributes[i])
    &&& forall|i: int, j: int|
        0 <= i < j < object.relationships.len() ==> #[trigger] staging::relation_precedes(
            object.relationships[i],
            object.relationships[j],
        )
}

impl LogView {
    /// Whether every object is as sealing leaves it.
    pub open spec fn settled(self) -> bool {
        forall|i: int|
            0 <= i < self.objects.len() ==> settled_object(
                staging::seeded(self.object_types),
                #[trigger] self.objects[i],
            )
    }
}

proof fn lemma_sorted_stays(list: Seq<ObservationView>)
    requires
        forall|i: int, j: int|
            0 <= i < j < list.len() ==> !staging::same_observation(
                #[trigger] list[i],
                #[trigger] list[j],
            ) && !staging::observation_precedes(list[j], list[i]),
    ensures
        staging::distinct_observations(list) == list,
        staging::sorted_observations(list) == list,
    decreases list.len(),
{
    if list.len() == 0 {
        assert(staging::distinct_observations(list) =~= list);
        assert(staging::sorted_observations(list) =~= list);
    } else {
        let front = list.drop_last();
        let last = list.last();
        let n = list.len() - 1;
        assert(list[n] == last);
        assert forall|i: int, j: int| 0 <= i < j < front.len() implies !staging::same_observation(
            #[trigger] front[i],
            #[trigger] front[j],
        ) && !staging::observation_precedes(front[j], front[i]) by {
            assert(!staging::same_observation(list[i], list[j]));
        }
        lemma_sorted_stays(front);
        assert(front.push(last) =~= list);
        if exists|i: int|
            0 <= i < list.len() - 1 && staging::same_observation(#[trigger] list[i], last) {
            let i = choose|i: int|
                0 <= i < list.len() - 1 && staging::same_observation(#[trigger] list[i], last);
            assert(!staging::same_observation(list[i], list[n]));
        }
        if front.len() > 0 {
            assert(front.last() == list[n - 1]);
            assert(!staging::observation_precedes(list[n], list[n - 1]));
        }
    }
}

proof fn lemma_sorted_relations_stay(list: Seq<RelationView>)
    requires
        forall|i: int, j: int|
            0 <= i < j < list.len() ==> #[trigger] staging::relation_precedes(list[i], list[j]),
    ensures
        staging::sorted_relations(list) == list,
    decreases list.len(),
{
    if list.len() == 0 {
        assert(staging::sorted_relations(list) =~= list);
    } else {
        let front = list.drop_last();
        let n = list.len() - 1;
        assert forall|i: int, j: int|
            0 <= i < j < front.len() implies #[trigger] staging::relation_precedes(
            front[i],
            front[j],
        ) by {
            assert(staging::relation_precedes(list[i], list[j]));
        }
        lemma_sorted_relations_stay(front);
        assert(front.push(list.last()) =~= list);
        if front.len() > 0 {
            assert(staging::relation_precedes(list[n - 1], list[n]));
        }
    }
}

/// Sealing leaves a settled object as it is.
proof fn lemma_settled_object(schema: Schema, object: ObjectView)
    requires
        settled_object(schema, object),
    ensures
        staging::sealed_object(schema, object) == object,
{
    let conformed = staging::conformed_observations(schema, object);
    assert(conformed =~= object.attributes) by {
        assert forall|k: int| 0 <= k < object.attributes.len() implies #[trigger] conformed[k]
            == object.attributes[k] by {
            assert(schema[object.object_type].contains_key(object.attributes[k].name));
        }
    }
    lemma_sorted_stays(object.attributes);
    lemma_sorted_relations_stay(object.relationships);
}

/// Settled objects teach the schema nothing new.
proof fn lemma_settled_schema(s: StagingView, objects: Seq<ObjectView>)
    requires
        integrity::distinct_objects(s.objects + objects),
        forall|i: int|
            0 <= i < objects.len() ==> settled_object(s.object_schema, #[trigger] objects[i]),
    ensures
        s.with_log_objects(objects).object_schema == s.object_schema,
    decreases objects.len(),
{
    if objects.len() > 0 {
        let front = objects.drop_last();
        let last = objects.last();
        let all = s.objects + objects;
        let part = s.objects + front;
        assert(integrity::distinct_objects(part)) by {
            assert forall|i: int, j: int| 0 <= i < j < part.len() implies (#[trigger] part[i]).id
                != (#[trigger] part[j]).id by {
                assert(all[i].id != all[j].id);
            }
        }
        assert forall|i: int| 0 <= i < front.len() implies settled_object(
            s.object_schema,
            #[trigger] front[i],
        ) by {
            assert(settled_object(s.object_schema, objects[i]));
        }
        lemma_settled_schema(s, front);
        restaging::lemma_with_log_objects(s, front);
        let before = s.with_log_objects(front);
        assert(settled_object(s.object_schema, objects[objects.len() - 1]));
        assert(!staging::staged(before.objects, last.id)) by {
            if staging::staged(before.objects, last.id) {
                let i = choose|i: int|
                    0 <= i < before.objects.len() && #[trigger] before.objects[i].id == last.id;
                assert(all[i].id != all[all.len() - 1].id);
            }
        }
        let typed = before.with_object(last.id, last.object_type);
        let p = before.objects.len() as int;
        restaging::lemma_new_slot(before.objects, last.id, last.object_type);
        assert(typed.object_schema =~= s.object_schema);
        assert(integrity::distinct_objects(typed.objects)) by {
            assert forall|i: int, j: int| 0 <= i < j < typed.objects.len() implies (
            #[trigger] typed.objects[i]).id != (#[trigger] typed.objects[j]).id by {
                if j < p {
                    assert(before.objects[i].id != before.objects[j].id);
                } else {
                    assert(before.objects[i].id != last.id);
                }
            }
        }
        lemma_settled_observations(typed, last.id, p, last.object_type, last.attributes);
        let observed = typed.with_observations(last.id, last.attributes);
        restaging::lemma_with_observations(typed, last.id, p, last.attributes);
        assert(integrity::distinct_objects(observed.objects)) by {
            assert forall|i: int, j: int| 0 <= i < j < observed.objects.len() implies (
            #[trigger] observed.objects[i]).id != (#[trigger] observed.objects[j]).id by {
                assert(typed.objects[i].id != typed.objects[j].id);
            }
        }
        restaging::lemma_with_o2os(observed, last.id, p, last.relationships);
    }
}

proof fn lemma_settled_observations(
    s: StagingView,
    id: Seq<char>,
    p: int,
    of: Seq<char>,
    observations: Seq<ObservationView>,
)
    requires
        integrity::distinct_objects(s.objects),
        0 <= p < s.objects.len(),
        s.objects[p].id == id,
        s.objects[p].object_type == of,
        s.object_schema.contains_key(of),
        forall|k: int|
            0 <= k < observations.len() ==> s.object_schema[of].contains_key(
                (#[trigger] observations[k]).name,
            ) && s.object_schema[of][observations[k].name] == observations[k].value.kind(),
    ensures
        s.with_observations(id, observations).object_schema == s.object_schema,
    decreases observations.len(),
{
    if observations.len() > 0 {
        let front = observations.drop_last();
        let before = s.with_observations(id, front);
        assert forall|k: int| 0 <= k < front.len() implies s.object_schema[of].contains_key(
            (#[trigger] front[k]).name,
        ) && s.object_schema[of][front[k].name] == front[k].value.kind() by {
            assert(s.object_schema[of].contains_key(observations[k].name));
        }
        lemma_settled_observations(s, id, p, of, front);
        restaging::lemma_with_observations(s, id, p, front);
        assert(integrity::distinct_objects(before.objects)) by {
            assert forall|i: int, j: int| 0 <= i < j < before.objects.len() implies (
            #[trigger] before.objects[i]).id != (#[trigger] before.objects[j]).id by {
                assert(s.objects[i].id != s.objects[j].id);
            }
        }
        restaging::lemma_slot(before.objects, id, p);
        assert(s.object_schema[of].contains_key(observations[observations.len() - 1].name));
        assert(s.with_observations(id, observations).object_schema =~= s.object_schema);
    }
}

/// Dropping or keeping events by a condition, and renaming them, leave the
/// objects of a settled log exactly as they are.
pub proof fn law_event_steps_leave_settled_objects(
    log: LogView,
    filter: FilterView,
    renames: Map<Seq<char>, Seq<char>>,
)
    requires
        integrity::distinct_objects(log.objects),
        log.settled(),
    ensures
        log.retaining(filter).objects == log.objects,
        log.renaming(renames).objects == log.objects,
{
    let start = StagingView {
        events: Seq::<EventView>::empty(),
        objects: Seq::<ObjectView>::empty(),
        event_schema: staging::seeded(log.event_types),
        object_schema: staging::seeded(log.object_types),
    };
    assert(start.objects + log.objects =~= log.objects);
    lemma_settled_schema(start, log.objects);
    let filled = start.with_log_objects(log.objects);
    restaging::lemma_with_events(filled, log.events);
    restaging::lemma_restaged(log);
    let schema = staging::restaged(log).object_schema;
    assert(schema == start.object_schema);
    let sealed = log.objects.map_values(|o: ObjectView| staging::sealed_object(schema, o));
    assert(sealed =~= log.objects) by {
        assert forall|i: int| 0 <= i < log.objects.len() implies #[trigger] sealed[i]
            == log.objects[i] by {
            lemma_settled_object(schema, log.objects[i]);
        }
    }
    assert(log.retaining(filter).objects =~= sealed);
    assert(log.renaming(renames).objects =~= sealed);
}

/// No step but a union or an alias step adds objects.
pub proof fn law_steps_invent_no_objects(
    step: StepView,
    index: int,
    log: LogView,
    input: InputView,
    id: Seq<char>,
)
    requires
        step !is Union,
        step !is MapObjectIds,
    ensures
        step.outcome(index, log, input) matches Ok((after, _)) ==> (after.has_object(id)
            ==> log.has_object(id)),
{
    match step.filter(index) {
        Some(Ok(filter)) => {
            law_event_steps_keep_objects(log, filter, Map::empty(), id);
        },
        Some(Err(_)) => {},
        None => match step {
            StepView::RenameEventTypes(renames) => {
                law_event_steps_keep_objects(log, FilterView::OfTypes(seq![]), renames, id);
            },
            StepView::KeepObjectTypes(names) => {
                integrity::lemma_restricted_ids(log, log.ids_of_types(names), id);
            },
            StepView::DropObjectsWithoutEvents => {
                law_orphans_go(log, id);
            },
            StepView::KeepRelatedTo(related) => {
                if let Ok(expansion) = related.expansion(index) {
                    integrity::lemma_restricted_ids(
                        log,
                        log.reached(related.object_type, expansion),
                        id,
                    );
                }
            },
            StepView::LiftEvents(lift) => {
                let after = log.lifting(lift);
                if after.has_object(id) {
                    let i = choose|i: int|
                        0 <= i < after.objects.len() && #[trigger] after.objects[i].id == id;
                    assert(log.objects[i].id == id);
                }
            },
            _ => {},
        },
    }
}

/// Whether `after` is an object of the log, with some of its relations and
/// with its observations, whose values are the same or their texts.
pub open spec fn stems(log: LogView, after: ObjectView) -> bool {
    exists|k: int|
        {
            let before = #[trigger] log.objects[k];
            &&& 0 <= k < log.objects.len()
            &&& after.id == before.id
            &&& after.object_type == before.object_type
            &&& forall|r: RelationView| #[trigger]
                after.relationships.contains(r) ==> before.relationships.contains(r)
            &&& sealing::carried(
                before.attributes.to_set(),
                after.attributes.to_set(),
                sealing::named(log.objects),
            )
        }
}

/// Observations that do not change are carried.
proof fn lemma_carried_unchanged(list: Set<ObservationView>, agree: bool)
    ensures
        sealing::carried(list, list, agree),
{
    assert forall|a: ObservationView| #[trigger] list.contains(a) implies sealing::repeats(list, a)
        && sealing::holds(list, a) by {
        assert(staging::same_observation(a, a));
        assert(sealing::becomes(a, a));
    }
    assert forall|held: ObservationView| #[trigger] list.contains(held) implies exists|
        a: ObservationView,
    | #[trigger]
        list.contains(a) && sealing::becomes(a, held) by {
        assert(sealing::becomes(held, held));
    }
}

proof fn lemma_restricted_stem(log: LogView, kept: Set<Seq<char>>)
    ensures
        forall|i: int|
            0 <= i < sublog::restricted_objects(log.objects, kept).len() ==> stems(
                log,
                #[trigger] sublog::restricted_objects(log.objects, kept)[i],
            ),
{
    let after = sublog::restricted_objects(log.objects, kept);
    let pred = |o: ObjectView| kept.contains(o.id);
    let places = lists::lemma_filter_places(log.objects, pred);
    assert forall|i: int| 0 <= i < after.len() implies stems(log, #[trigger] after[i]) by {
        let before = log.objects[places[i]];
        let held = |r: RelationView| kept.contains(r.object_id);
        assert(after[i] == sublog::restricted_object(before, kept));
        assert forall|r: RelationView| #[trigger]
            after[i].relationships.contains(r) implies before.relationships.contains(r) by {
            before.relationships.lemma_filter_contains_rev(held, r);
        }
        lemma_carried_unchanged(before.attributes.to_set(), sealing::named(log.objects));
    }
}

/// No step but a union or an alias step adds anything to an object: every
/// object after it is one that was there before, with some of its relations
/// and with its observations.
pub proof fn law_steps_add_nothing_to_objects(
    step: StepView,
    index: int,
    log: LogView,
    input: InputView,
)
    requires
        step !is Union,
        step !is MapObjectIds,
        integrity::distinct_objects(log.objects),
    ensures
        step.outcome(index, log, input) matches Ok((after, _)) ==> forall|i: int|
            0 <= i < after.objects.len() ==> stems(log, #[trigger] after.objects[i]),
{
    if let Ok((after, _)) = step.outcome(index, log, input) {
        match step.filter(index) {
            Some(Ok(filter)) => {
                law_event_steps_leave_objects(log, filter, Map::empty());
                assert forall|i: int| 0 <= i < after.objects.len() implies stems(
                    log,
                    #[trigger] after.objects[i],
                ) by {
                    assert(same_object(
                        log.objects[i],
                        after.objects[i],
                        sealing::named(log.objects),
                    ));
                }
            },
            Some(Err(_)) => {},
            None => match step {
                StepView::RenameEventTypes(renames) => {
                    law_event_steps_leave_objects(log, FilterView::OfTypes(seq![]), renames);
                    assert forall|i: int| 0 <= i < after.objects.len() implies stems(
                        log,
                        #[trigger] after.objects[i],
                    ) by {
                        assert(same_object(
                            log.objects[i],
                            after.objects[i],
                            sealing::named(log.objects),
                        ));
                    }
                },
                StepView::KeepObjectTypes(names) => {
                    lemma_restricted_stem(log, log.ids_of_types(names));
                },
                StepView::DropObjectsWithoutEvents => {
                    lemma_restricted_stem(log, log.referenced());
                },
                StepView::KeepRelatedTo(related) => {
                    if let Ok(expansion) = related.expansion(index) {
                        lemma_restricted_stem(log, log.reached(related.object_type, expansion));
                    }
                },
                _ => {
                    assert forall|i: int| 0 <= i < after.objects.len() implies stems(
                        log,
                        #[trigger] after.objects[i],
                    ) by {
                        lemma_carried_unchanged(
                            log.objects[i].attributes.to_set(),
                            sealing::named(log.objects),
                        );
                    }
                },
            },
        }
    }
}

/// The cleanup leaves exactly the objects that events refer to, and every
/// event as it is.
pub proof fn law_orphans_go(log: LogView, id: Seq<char>)
    ensures
        log.without_orphans().has_object(id) <==> log.has_object(id) && log.refers_to(id),
        log.without_orphans().events == log.events,
{
    let kept = log.referenced();
    integrity::lemma_restricted_ids(log, kept, id);
    let after = log.without_orphans();
    let restricted = log.restricted(kept);
    if after.has_object(id) {
        let i = choose|i: int| 0 <= i < after.objects.len() && #[trigger] after.objects[i].id == id;
        assert(restricted.objects[i].id == id);
    }
    if restricted.has_object(id) {
        let i = choose|i: int|
            0 <= i < restricted.objects.len() && #[trigger] restricted.objects[i].id == id;
        assert(after.objects[i].id == id);
    }
}

/// Restricting to a set that holds every object and every target changes no
/// object.
proof fn lemma_restricted_again(objects: Seq<ObjectView>, kept: Set<Seq<char>>)
    ensures
        sublog::restricted_objects(sublog::restricted_objects(objects, kept), kept)
            == sublog::restricted_objects(objects, kept),
{
    let once = sublog::restricted_objects(objects, kept);
    let pred = |o: ObjectView| kept.contains(o.id);
    let places = lists::lemma_filter_places(objects, pred);
    assert forall|i: int| 0 <= i < once.len() implies pred(#[trigger] once[i]) by {
        assert(pred(objects[places[i]]));
    }
    lists::lemma_filter_all(once, pred);
    let twice = sublog::restricted_objects(once, kept);
    assert(twice =~= once) by {
        assert forall|i: int| 0 <= i < once.len() implies #[trigger] twice[i] == once[i] by {
            let o = objects[places[i]];
            assert(once[i] == sublog::restricted_object(o, kept));
            let held = |r: RelationView| kept.contains(r.object_id);
            let spots = lists::lemma_filter_places(o.relationships, held);
            assert forall|k: int| 0 <= k < once[i].relationships.len() implies held(
                #[trigger] once[i].relationships[k],
            ) by {
                assert(held(o.relationships[spots[k]]));
            }
            lists::lemma_filter_all(once[i].relationships, held);
        }
    }
}

/// The cleanup done twice is the cleanup done once.
pub proof fn law_cleanup_once_is_enough(log: LogView)
    ensures
        log.without_orphans().without_orphans() == log.without_orphans(),
{
    let once = log.without_orphans();
    assert(once.events == log.events);
    assert forall|id: Seq<char>| once.refers_to(id) == log.refers_to(id) by {
        if once.refers_to(id) {
            let (i, k) = choose|i: int, k: int|
                0 <= i < once.events.len() && 0 <= k < once.events[i].relationships.len()
                    && #[trigger] once.events[i].relationships[k].object_id == id;
            assert(log.events[i].relationships[k].object_id == id);
        }
        if log.refers_to(id) {
            let (i, k) = choose|i: int, k: int|
                0 <= i < log.events.len() && 0 <= k < log.events[i].relationships.len()
                    && #[trigger] log.events[i].relationships[k].object_id == id;
            assert(once.events[i].relationships[k].object_id == id);
        }
    }
    assert(once.referenced() =~= log.referenced());
    lemma_restricted_again(log.objects, log.referenced());
}

/// Keeping object types leaves the objects of these types alone. Every event
/// that is left relates to one of them, and relates to no other.
pub proof fn law_kept_types(log: LogView, names: Seq<Seq<char>>)
    requires
        integrity::distinct_objects(log.objects),
    ensures
        ({
            let after = log.restricted(log.ids_of_types(names));
            &&& forall|i: int|
                0 <= i < after.objects.len() ==> names.contains(
                    (#[trigger] after.objects[i]).object_type,
                )
            &&& forall|i: int|
                0 <= i < log.objects.len() && names.contains(
                    (#[trigger] log.objects[i]).object_type,
                ) ==> after.has_object(log.objects[i].id)
            &&& forall|i: int|
                0 <= i < after.events.len() ==> (#[trigger] after.events[i]).relationships.len() > 0
            &&& forall|i: int, k: int|
                0 <= i < after.events.len() && 0 <= k < after.events[i].relationships.len()
                    ==> log.ids_of_types(names).contains(
                    (#[trigger] after.events[i].relationships[k]).object_id,
                )
        }),
{
    let kept = log.ids_of_types(names);
    let after = log.restricted(kept);
    let places = lists::lemma_filter_places(log.objects, |o: ObjectView| kept.contains(o.id));
    assert forall|i: int| 0 <= i < after.objects.len() implies names.contains(
        (#[trigger] after.objects[i]).object_type,
    ) by {
        let m = places[i];
        let id = log.objects[m].id;
        assert(kept.contains(id));
        let j = choose|j: int|
            0 <= j < log.objects.len() && #[trigger] log.objects[j].id == id && names.contains(
                log.objects[j].object_type,
            );
        restaging::lemma_slot(log.objects, id, m);
        assert(j == m);
    }
    assert forall|i: int|
        0 <= i < log.objects.len() && names.contains(
            (#[trigger] log.objects[i]).object_type,
        ) implies after.has_object(log.objects[i].id) by {
        let id = log.objects[i].id;
        assert(log.objects[i].id == id);
        assert(kept.contains(id));
        assert(log.has_object(id));
        integrity::lemma_restricted_ids(log, kept, id);
    }
    law_restriction_holds(log, kept);
}

/// Every event that is left of a restricted log relates to a kept object, and
/// relates to no other; and so do the relationships of the objects.
pub proof fn law_restriction_holds(log: LogView, kept: Set<Seq<char>>)
    ensures
        ({
            let after = log.restricted(kept);
            &&& forall|i: int|
                0 <= i < after.events.len() ==> (#[trigger] after.events[i]).relationships.len() > 0
            &&& forall|i: int, k: int|
                0 <= i < after.events.len() && 0 <= k < after.events[i].relationships.len()
                    ==> kept.contains((#[trigger] after.events[i].relationships[k]).object_id)
            &&& forall|i: int, k: int|
                0 <= i < after.objects.len() && 0 <= k < after.objects[i].relationships.len()
                    ==> kept.contains((#[trigger] after.objects[i].relationships[k]).object_id)
        }),
{
    let after = log.restricted(kept);
    let held = |r: RelationView| kept.contains(r.object_id);
    let strip = |e: EventView| sublog::restricted_event(e, kept);
    let stripped = log.events.map_values(strip);
    let places = lists::lemma_filter_places(stripped, |e: EventView| e.relationships.len() > 0);
    assert forall|i: int, k: int|
        0 <= i < after.events.len() && 0 <= k
            < after.events[i].relationships.len() implies kept.contains(
        (#[trigger] after.events[i].relationships[k]).object_id,
    ) by {
        let old = log.events[places[i]];
        assert(after.events[i] == strip(old));
        let spots = lists::lemma_filter_places(old.relationships, held);
        assert(held(old.relationships[spots[k]]));
    }
    let spaces = lists::lemma_filter_places(log.objects, |o: ObjectView| kept.contains(o.id));
    assert forall|i: int, k: int|
        0 <= i < after.objects.len() && 0 <= k
            < after.objects[i].relationships.len() implies kept.contains(
        (#[trigger] after.objects[i].relationships[k]).object_id,
    ) by {
        let old = log.objects[spaces[i]];
        assert(after.objects[i] == sublog::restricted_object(old, kept));
        let spots = lists::lemma_filter_places(old.relationships, held);
        assert(held(old.relationships[spots[k]]));
    }
}

} // verus!
