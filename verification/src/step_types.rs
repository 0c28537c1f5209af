//! Which types are declared after a step.

use vstd::prelude::*;

use crate::integrity;
use crate::merge::InputView;
use crate::model::EventView;
use crate::model::LogView;
use crate::model::ObjectView;
use crate::model::TypeView;
use crate::recipe::StepView;
use crate::restaging;
use crate::sealing;
use crate::settling;
use crate::staging;
use crate::staging::StagingView;
use crate::step_merges;
use crate::step_objects;
use crate::terms;
use crate::validity;

verus! {

/// Whether an object of this type is there.
pub open spec fn has_type(objects: Seq<ObjectView>, object_type: Seq<char>) -> bool {
    exists|i: int| 0 <= i < objects.len() && (#[trigger] objects[i]).object_type == object_type
}

proof fn lemma_declared(types: Seq<TypeView>, name: Seq<char>)
    ensures
        terms::declared(types, name) <==> validity::declares(types, name),
{
    if terms::declared(types, name) {
        let i = choose|i: int| 0 <= i < types.len() && (#[trigger] types[i]).name == name;
        assert(types[i].name == name);
    }
    if validity::declares(types, name) {
        let i = choose|i: int| 0 <= i < types.len() && #[trigger] types[i].name == name;
        assert(types[i].name == name);
    }
}

proof fn lemma_has_type(objects: Seq<ObjectView>, name: Seq<char>)
    ensures
        has_type(objects, name) <==> restaging::object_occurs(objects, name),
{
    if has_type(objects, name) {
        let i = choose|i: int|
            0 <= i < objects.len() && (#[trigger] objects[i]).object_type == name;
        assert(objects[i].object_type == name);
    }
    if restaging::object_occurs(objects, name) {
        let i = choose|i: int| 0 <= i < objects.len() && #[trigger] objects[i].object_type == name;
        assert(objects[i].object_type == name);
    }
}

proof fn lemma_occurring(events: Seq<EventView>, name: Seq<char>)
    ensures
        terms::occurring(events, name) <==> restaging::occurs(events, name),
{
    if terms::occurring(events, name) {
        let i = choose|i: int| 0 <= i < events.len() && (#[trigger] events[i]).event_type == name;
        assert(events[i].event_type == name);
    }
    if restaging::occurs(events, name) {
        let i = choose|i: int| 0 <= i < events.len() && #[trigger] events[i].event_type == name;
        assert(events[i].event_type == name);
    }
}

/// After a step that drops, keeps or renames events, and after one that maps
/// object ids, the object types declared are those that were and those of the
/// objects. After one that maps object ids, the event types are those that were
/// and those of the events.
pub proof fn law_types_stay_declared(step: StepView, index: int, log: LogView, input: InputView)
    requires
        step_objects::apart(log),
        step is DropEventTypes || step is KeepEventTypes || step is DropEventsWhere
            || step is TimeWindow || step is RenameEventTypes || step is MapObjectIds,
    ensures
        step.outcome(index, log, input) matches Ok((after, _)) ==> {
            &&& forall|name: Seq<char>| #[trigger]
                terms::declared(after.object_types, name) <==> terms::declared(
                    log.object_types,
                    name,
                ) || has_type(log.objects, name)
            &&& step is MapObjectIds ==> forall|name: Seq<char>| #[trigger]
                terms::declared(after.event_types, name) <==> terms::declared(
                    log.event_types,
                    name,
                ) || terms::occurring(log.events, name)
        },
{
    let s = staging::restaged(log);
    restaging::lemma_restaged(log);
    sealing::lemma_declarations(s.object_schema);
    sealing::lemma_declarations(s.event_schema);
    if let Ok((after, _)) = step.outcome(index, log, input) {
        assert(after.object_types == staging::declarations(s.object_schema));
        assert forall|name: Seq<char>| #[trigger] terms::declared(after.object_types, name)
            <==> terms::declared(log.object_types, name) || has_type(log.objects, name) by {
            lemma_declared(after.object_types, name);
            lemma_declared(log.object_types, name);
            lemma_has_type(log.objects, name);
        }
        if step is MapObjectIds {
            assert(after.event_types == staging::declarations(s.event_schema));
            assert forall|name: Seq<char>| #[trigger] terms::declared(after.event_types, name)
                <==> terms::declared(log.event_types, name) || terms::occurring(
                log.events,
                name,
            ) by {
                lemma_declared(after.event_types, name);
                lemma_declared(log.event_types, name);
                lemma_occurring(log.events, name);
            }
        }
    }
}

/// Staging objects adds their types and no others.
proof fn lemma_types_known(s: StagingView, objects: Seq<ObjectView>)
    requires
        settling::all_fit(s),
        sealing::named(objects),
    ensures
        forall|name: Seq<char>| #[trigger]
            s.with_log_objects(objects).object_schema.contains_key(name)
                <==> s.object_schema.contains_key(name) || has_type(objects, name),
    decreases objects.len(),
{
    if objects.len() > 0 {
        let front = objects.drop_last();
        let last = objects.last();
        let n = objects.len() - 1;
        assert(objects[n] == last);
        assert(sealing::named(front)) by {
            assert forall|i: int| 0 <= i < front.len() implies (
            #[trigger] front[i]).object_type.len() > 0 by {
                assert(objects[i].object_type.len() > 0);
            }
        }
        lemma_types_known(s, front);
        settling::lemma_objects_fit(s, front);
        let before = s.with_log_objects(front);
        let after = s.with_log_objects(objects);
        let typed = before.with_object(last.id, last.object_type);
        let found = staging::staged(before.objects, last.id);
        let p = if found {
            choose|p: int| 0 <= p < before.objects.len() && #[trigger] before.objects[p].id
                == last.id
        } else {
            before.objects.len() as int
        };
        if found {
            restaging::lemma_slot(before.objects, last.id, p);
            assert(before.objects[p].object_type.len() > 0);
            assert(typed.objects =~= before.objects);
            assert(before.object_schema.contains_key(before.objects[p].object_type));
        } else {
            restaging::lemma_new_slot(before.objects, last.id, last.object_type);
        }
        assert(integrity::distinct_objects(typed.objects)) by {
            assert forall|i: int, j: int| 0 <= i < j < typed.objects.len() implies (
            #[trigger] typed.objects[i]).id != (#[trigger] typed.objects[j]).id by {
                if j < before.objects.len() {
                    assert(before.objects[i].id != before.objects[j].id);
                } else {
                    assert(before.objects[i].id != last.id);
                }
            }
        }
        assert(typed.objects[p].id == last.id);
        restaging::lemma_with_observations(typed, last.id, p, last.attributes);
        step_objects::lemma_relations_told(
            typed.with_observations(last.id, last.attributes),
            last.id,
            last.relationships,
        );
        assert forall|name: Seq<char>| #[trigger] after.object_schema.contains_key(name)
            <==> s.object_schema.contains_key(name) || has_type(objects, name) by {
            assert(before.object_schema.contains_key(name) <==> s.object_schema.contains_key(name)
                || has_type(front, name));
            assert(after.object_schema.contains_key(name) <==> typed.object_schema.contains_key(
                name,
            ));
            if has_type(front, name) {
                let i = choose|i: int|
                    0 <= i < front.len() && (#[trigger] front[i]).object_type == name;
                assert(objects[i].object_type == name);
            }
            if has_type(objects, name) && name != last.object_type {
                let i = choose|i: int|
                    0 <= i < objects.len() && (#[trigger] objects[i]).object_type == name;
                assert(front[i].object_type == name);
            }
            if name == last.object_type {
                assert(objects[n].object_type == name);
            }
        }
    }
}

/// After a union the types declared are those that the log declares and those
/// of the events and objects of both logs.
pub proof fn law_union_declares(file: Seq<char>, index: int, log: LogView, input: InputView)
    requires
        step_objects::apart(log),
        sealing::named(log.objects),
        input.outcome matches Ok(other) ==> sealing::named(other.objects),
    ensures
        StepView::Union(file).outcome(index, log, input) matches Ok((after, _)) ==> {
            let other = input.outcome->Ok_0;
            &&& forall|name: Seq<char>| #[trigger]
                terms::declared(after.object_types, name) <==> terms::declared(
                    log.object_types,
                    name,
                ) || has_type(log.objects, name) || has_type(other.objects, name)
            &&& forall|name: Seq<char>| #[trigger]
                terms::declared(after.event_types, name) <==> terms::declared(
                    log.event_types,
                    name,
                ) || terms::occurring(after.events, name)
        },
{
    if let Ok((after, _)) = StepView::Union(file).outcome(index, log, input) {
        let other = input.outcome->Ok_0;
        let fresh = log.fresh_events(other);
        let s = staging::restaged(log);
        let both = s.with_log_objects(other.objects);
        let filled = both.with_events(fresh);
        restaging::lemma_restaged(log);
        settling::lemma_restaged_fits(log);
        lemma_types_known(s, other.objects);
        step_merges::lemma_objects_finite(s, other.objects);
        restaging::lemma_staged_ids(s, other.objects);
        restaging::lemma_with_events(both, fresh);
        sealing::lemma_declarations(filled.object_schema);
        sealing::lemma_declarations(filled.event_schema);
        assert(after.object_types == staging::declarations(filled.object_schema));
        assert forall|name: Seq<char>| #[trigger] terms::declared(after.object_types, name)
            <==> terms::declared(log.object_types, name) || has_type(log.objects, name) || has_type(
            other.objects,
            name,
        ) by {
            lemma_declared(after.object_types, name);
            lemma_declared(log.object_types, name);
            lemma_has_type(log.objects, name);
            assert(both.object_schema.contains_key(name) <==> s.object_schema.contains_key(name)
                || has_type(other.objects, name));
        }
        assert forall|name: Seq<char>| #[trigger] terms::declared(after.event_types, name)
            <==> terms::declared(log.event_types, name) || terms::occurring(
            after.events,
            name,
        ) by {
            lemma_declared(after.event_types, name);
            lemma_declared(log.event_types, name);
            lemma_occurring(log.events, name);
            lemma_occurring(fresh, name);
            let n = log.events.len() as int;
            if terms::occurring(after.events, name) {
                let i = choose|i: int|
                    0 <= i < after.events.len() && (#[trigger] after.events[i]).event_type == name;
                if i < n {
                    assert(log.events[i].event_type == name);
                } else {
                    assert(fresh[i - n].event_type == name);
                }
            }
            if terms::occurring(log.events, name) {
                let i = choose|i: int|
                    0 <= i < log.events.len() && (#[trigger] log.events[i]).event_type == name;
                assert(after.events[i].event_type == name);
            }
            if terms::occurring(fresh, name) {
                let i = choose|i: int|
                    0 <= i < fresh.len() && (#[trigger] fresh[i]).event_type == name;
                assert(after.events[n + i].event_type == name);
            }
        }
    }
}

} // verus!
