//! Sealing leaves objects settled, so that further event steps leave them
//! exactly as they are.

use vstd::prelude::*;

use crate::filter::FilterView;
use crate::sealing;
use crate::integrity;
use crate::model::DefinitionView;
use crate::model::EventView;
use crate::model::LogView;
use crate::model::ObjectView;
use crate::model::ObservationView;
use crate::model::RelationView;
use crate::model::TypeView;
use crate::model::ValueType;
use crate::object_effects;
use crate::restaging;
use crate::staging;
use crate::staging::Schema;
use crate::staging::StagingView;
use crate::text;

verus! {

/// One observation does not come after another.
spec fn not_after(a: ObservationView, b: ObservationView) -> bool {
    !staging::observation_precedes(b, a)
}

proof fn lemma_not_after_transitive(a: ObservationView, b: ObservationView, c: ObservationView)
    requires
        not_after(a, b),
        not_after(b, c),
    ensures
        not_after(a, c),
{
    if staging::observation_precedes(c, a) {
        text::lemma_precedes_total(a.name, b.name);
        text::lemma_precedes_total(b.name, c.name);
        if a.time == c.time {
            if a.time == b.time {
                if a.name == b.name {
                } else if b.name == c.name {
                } else {
                    text::lemma_precedes_transitive(a.name, b.name, c.name);
                    text::lemma_precedes_transitive(a.name, c.name, a.name);
                    text::lemma_precedes_irreflexive(a.name);
                }
            }
        }
    }
}

proof fn lemma_precedes_not_after(a: ObservationView, b: ObservationView)
    requires
        staging::observation_precedes(a, b),
    ensures
        not_after(a, b),
{
    if staging::observation_precedes(b, a) && a.time == b.time {
        text::lemma_precedes_transitive(a.name, b.name, a.name);
        text::lemma_precedes_irreflexive(a.name);
    }
}

/// The observations stand in order, and none repeats another.
spec fn orderly(list: Seq<ObservationView>) -> bool {
    forall|i: int, j: int|
        0 <= i < j < list.len() ==> !staging::same_observation(
            #[trigger] list[i],
            #[trigger] list[j],
        ) && !staging::observation_precedes(list[j], list[i])
}

proof fn lemma_placed_orderly(sorted: Seq<ObservationView>, observation: ObservationView)
    requires
        orderly(sorted),
        forall|i: int|
            0 <= i < sorted.len() ==> !staging::same_observation(#[trigger] sorted[i], observation),
    ensures
        orderly(staging::placed_observation(sorted, observation)),
    decreases sorted.len(),
{
    let placed = staging::placed_observation(sorted, observation);
    let n = sorted.len() as int;
    if n == 0 || !staging::observation_precedes(observation, sorted.last()) {
        assert forall|i: int, j: int| 0 <= i < j < placed.len() implies !staging::same_observation(
            #[trigger] placed[i],
            #[trigger] placed[j],
        ) && !staging::observation_precedes(placed[j], placed[i]) by {
            if j < n {
                assert(!staging::same_observation(sorted[i], sorted[j]));
            } else {
                assert(!staging::same_observation(sorted[i], observation));
                if i < n - 1 {
                    assert(!staging::observation_precedes(sorted[n - 1], sorted[i]));
                    lemma_not_after_transitive(sorted[i], sorted[n - 1], observation);
                }
            }
        }
    } else {
        let front = sorted.drop_last();
        let last = sorted.last();
        let inner = staging::placed_observation(front, observation);
        assert(sorted[n - 1] == last);
        assert(orderly(front)) by {
            assert forall|i: int, j: int|
                0 <= i < j < front.len() implies !staging::same_observation(
                #[trigger] front[i],
                #[trigger] front[j],
            ) && !staging::observation_precedes(front[j], front[i]) by {
                assert(!staging::same_observation(sorted[i], sorted[j]));
            }
        }
        assert forall|i: int| 0 <= i < front.len() implies !staging::same_observation(
            #[trigger] front[i],
            observation,
        ) by {
            assert(!staging::same_observation(sorted[i], observation));
        }
        lemma_placed_orderly(front, observation);
        lemma_precedes_not_after(observation, last);
        assert forall|i: int, j: int| 0 <= i < j < placed.len() implies !staging::same_observation(
            #[trigger] placed[i],
            #[trigger] placed[j],
        ) && !staging::observation_precedes(placed[j], placed[i]) by {
            if j < inner.len() {
                assert(!staging::same_observation(inner[i], inner[j]));
            } else {
                let a = inner[i];
                assert(inner.contains(a));
                sealing::lemma_placed_observation(front, observation, a);
                if a != observation {
                    let k = choose|k: int| 0 <= k < front.len() && front[k] == a;
                    assert(!staging::same_observation(sorted[k], sorted[n - 1]));
                } else {
                    assert(!staging::same_observation(sorted[n - 1], observation));
                }
            }
        }
    }
}

/// Sorting observations that do not repeat each other puts them in order.
proof fn lemma_sorted_orderly(list: Seq<ObservationView>)
    requires
        forall|i: int, j: int|
            0 <= i < j < list.len() ==> !staging::same_observation(
                #[trigger] list[i],
                #[trigger] list[j],
            ),
    ensures
        orderly(staging::sorted_observations(list)),
    decreases list.len(),
{
    if list.len() > 0 {
        let front = list.drop_last();
        let last = list.last();
        let n = list.len() - 1;
        assert(list[n] == last);
        assert forall|i: int, j: int| 0 <= i < j < front.len() implies !staging::same_observation(
            #[trigger] front[i],
            #[trigger] front[j],
        ) by {
            assert(!staging::same_observation(list[i], list[j]));
        }
        lemma_sorted_orderly(front);
        let sorted = staging::sorted_observations(front);
        assert forall|i: int| 0 <= i < sorted.len() implies !staging::same_observation(
            #[trigger] sorted[i],
            last,
        ) by {
            assert(sorted.contains(sorted[i]));
            sealing::lemma_sorted_observations(front, sorted[i]);
            let k = choose|k: int| 0 <= k < front.len() && front[k] == sorted[i];
            assert(!staging::same_observation(list[k], list[n]));
        }
        lemma_placed_orderly(sorted, last);
    }
}

/// What stays of observations does not repeat itself.
proof fn lemma_distinct_stay(list: Seq<ObservationView>)
    ensures
        ({
            let distinct = staging::distinct_observations(list);
            forall|i: int, j: int|
                0 <= i < j < distinct.len() ==> !staging::same_observation(
                    #[trigger] distinct[i],
                    #[trigger] distinct[j],
                )
        }),
    decreases list.len(),
{
    if list.len() > 0 {
        let front = list.drop_last();
        let last = list.last();
        let earlier = staging::distinct_observations(front);
        let distinct = staging::distinct_observations(list);
        lemma_distinct_stay(front);
        sealing::lemma_distinct_observations(front);
        assert forall|i: int, j: int|
            0 <= i < j < distinct.len() implies !staging::same_observation(
            #[trigger] distinct[i],
            #[trigger] distinct[j],
        ) by {
            if j < earlier.len() {
                assert(!staging::same_observation(earlier[i], earlier[j]));
            } else {
                assert(earlier.contains(earlier[i]));
                assert(front.contains(earlier[i]));
                let k = choose|k: int| 0 <= k < front.len() && front[k] == earlier[i];
                assert(list[k] == earlier[i]);
            }
        }
    }
}

proof fn lemma_relation_order(a: RelationView, b: RelationView, c: RelationView)
    ensures
        staging::relation_precedes(a, b) && staging::relation_precedes(b, c)
            ==> staging::relation_precedes(a, c),
        a == b || staging::relation_precedes(a, b) || staging::relation_precedes(b, a),
{
    text::lemma_precedes_total(a.object_id, b.object_id);
    text::lemma_precedes_total(a.qualifier, b.qualifier);
    if staging::relation_precedes(a, b) && staging::relation_precedes(b, c) {
        if text::precedes(a.object_id, b.object_id) && text::precedes(b.object_id, c.object_id) {
            text::lemma_precedes_transitive(a.object_id, b.object_id, c.object_id);
        }
        if text::precedes(a.qualifier, b.qualifier) && text::precedes(b.qualifier, c.qualifier) {
            text::lemma_precedes_transitive(a.qualifier, b.qualifier, c.qualifier);
        }
    }
}

/// The relationships stand in order, each once.
spec fn ascending_relations(list: Seq<RelationView>) -> bool {
    forall|i: int, j: int|
        0 <= i < j < list.len() ==> #[trigger] staging::relation_precedes(list[i], list[j])
}

proof fn lemma_placed_ascending(sorted: Seq<RelationView>, relation: RelationView)
    requires
        ascending_relations(sorted),
    ensures
        ascending_relations(staging::placed_relation(sorted, relation)),
    decreases sorted.len(),
{
    let placed = staging::placed_relation(sorted, relation);
    let n = sorted.len() as int;
    if n == 0 || staging::relation_precedes(sorted.last(), relation) {
        assert forall|i: int, j: int|
            0 <= i < j < placed.len() implies #[trigger] staging::relation_precedes(
            placed[i],
            placed[j],
        ) by {
            if j < n {
                assert(staging::relation_precedes(sorted[i], sorted[j]));
            } else if i < n - 1 {
                assert(staging::relation_precedes(sorted[i], sorted[n - 1]));
                lemma_relation_order(sorted[i], sorted[n - 1], relation);
            }
        }
    } else if sorted.last() != relation {
        let front = sorted.drop_last();
        let last = sorted.last();
        let inner = staging::placed_relation(front, relation);
        assert(sorted[n - 1] == last);
        assert(ascending_relations(front)) by {
            assert forall|i: int, j: int|
                0 <= i < j < front.len() implies #[trigger] staging::relation_precedes(
                front[i],
                front[j],
            ) by {
                assert(staging::relation_precedes(sorted[i], sorted[j]));
            }
        }
        lemma_placed_ascending(front, relation);
        lemma_relation_order(last, relation, last);
        assert forall|i: int, j: int|
            0 <= i < j < placed.len() implies #[trigger] staging::relation_precedes(
            placed[i],
            placed[j],
        ) by {
            if j < inner.len() {
                assert(staging::relation_precedes(inner[i], inner[j]));
            } else {
                assert(inner.contains(inner[i]));
                sealing::lemma_placed_relation(front, relation, inner[i]);
                if inner[i] != relation {
                    let k = choose|k: int| 0 <= k < front.len() && front[k] == inner[i];
                    assert(staging::relation_precedes(sorted[k], sorted[n - 1]));
                }
            }
        }
    }
}

proof fn lemma_sorted_ascending(list: Seq<RelationView>)
    ensures
        ascending_relations(staging::sorted_relations(list)),
    decreases list.len(),
{
    if list.len() > 0 {
        lemma_sorted_ascending(list.drop_last());
        lemma_placed_ascending(staging::sorted_relations(list.drop_last()), list.last());
    }
}

/// Whether a schema knows all that another one knows, and gives every
/// attribute the same type or makes it text.
spec fn weaker(schema: Schema, than: Schema) -> bool {
    &&& forall|name: Seq<char>| #[trigger]
        than.contains_key(name) ==> schema.contains_key(name)
    &&& forall|name: Seq<char>, attribute: Seq<char>| #[trigger]
        sealing::knows(than, name, attribute) ==> sealing::knows(schema, name, attribute) && (
        schema[name][attribute] == than[name][attribute] || schema[name][attribute]
            == ValueType::String)
}

proof fn lemma_fits_weaker(
    schema: Schema,
    than: Schema,
    of: Seq<char>,
    observations: Seq<ObservationView>,
)
    requires
        weaker(schema, than),
        sealing::fits(than, of, observations),
    ensures
        sealing::fits(schema, of, observations),
{
    assert forall|k: int| 0 <= k < observations.len() implies sealing::knows(
        schema,
        of,
        (#[trigger] observations[k]).name,
    ) && (schema[of][observations[k].name] == observations[k].value.kind()
        || schema[of][observations[k].name] == ValueType::String) by {
        assert(sealing::knows(than, of, observations[k].name));
    }
}

proof fn lemma_weaker_transitive(a: Schema, b: Schema, c: Schema)
    requires
        weaker(a, b),
        weaker(b, c),
    ensures
        weaker(a, c),
{
    assert forall|name: Seq<char>, attribute: Seq<char>| #[trigger]
        sealing::knows(c, name, attribute) implies sealing::knows(a, name, attribute) && (
    a[name][attribute] == c[name][attribute] || a[name][attribute] == ValueType::String) by {
        assert(sealing::knows(b, name, attribute));
    }
}

/// Observations of an object fit the schema once they are staged.
proof fn lemma_observations_fit(
    s: StagingView,
    id: Seq<char>,
    p: int,
    observations: Seq<ObservationView>,
)
    requires
        integrity::distinct_objects(s.objects),
        0 <= p < s.objects.len(),
        s.objects[p].id == id,
        s.objects[p].object_type.len() > 0,
        s.object_schema.contains_key(s.objects[p].object_type),
    ensures
        weaker(s.with_observations(id, observations).object_schema, s.object_schema),
        sealing::fits(
            s.with_observations(id, observations).object_schema,
            s.objects[p].object_type,
            observations,
        ),
    decreases observations.len(),
{
    let of = s.objects[p].object_type;
    let after = s.with_observations(id, observations);
    if observations.len() > 0 {
        let front = observations.drop_last();
        let last = observations.last();
        let n = observations.len() - 1;
        let before = s.with_observations(id, front);
        lemma_observations_fit(s, id, p, front);
        restaging::lemma_with_observations(s, id, p, front);
        assert(integrity::distinct_objects(before.objects)) by {
            assert forall|i: int, j: int| 0 <= i < j < before.objects.len() implies (
            #[trigger] before.objects[i]).id != (#[trigger] before.objects[j]).id by {
                assert(s.objects[i].id != s.objects[j].id);
            }
        }
        restaging::lemma_slot(before.objects, id, p);
        assert(before.object_schema.contains_key(of));
        assert(weaker(after.object_schema, before.object_schema));
        lemma_weaker_transitive(after.object_schema, before.object_schema, s.object_schema);
        lemma_fits_weaker(after.object_schema, before.object_schema, of, front);
        assert forall|k: int| 0 <= k < observations.len() implies sealing::knows(
            after.object_schema,
            of,
            (#[trigger] observations[k]).name,
        ) && (after.object_schema[of][observations[k].name] == observations[k].value.kind()
            || after.object_schema[of][observations[k].name] == ValueType::String) by {
            if k < n {
                assert(front[k] == observations[k]);
                assert(sealing::knows(after.object_schema, of, front[k].name));
            } else {
                assert(observations[k] == last);
            }
        }
    }
}

/// Whether the staged objects have named types that the schema knows, and
/// observations that fit it; no two of them have the same id.
pub open spec fn all_fit(s: StagingView) -> bool {
    &&& integrity::distinct_objects(s.objects)
    &&& sealing::named(s.objects)
    &&& forall|p: int|
        0 <= p < s.objects.len() ==> s.object_schema.contains_key(
            (#[trigger] s.objects[p]).object_type,
        ) && sealing::fits(s.object_schema, s.objects[p].object_type, s.objects[p].attributes)
}

/// Observations that fit the schema fit it together.
proof fn lemma_fits_add(
    schema: Schema,
    of: Seq<char>,
    a: Seq<ObservationView>,
    b: Seq<ObservationView>,
)
    requires
        sealing::fits(schema, of, a),
        sealing::fits(schema, of, b),
    ensures
        sealing::fits(schema, of, a + b),
{
    let both = a + b;
    assert forall|k: int| 0 <= k < both.len() implies sealing::knows(
        schema,
        of,
        (#[trigger] both[k]).name,
    ) && (schema[of][both[k].name] == both[k].value.kind() || schema[of][both[k].name]
        == ValueType::String) by {
        if k < a.len() {
            assert(both[k] == a[k]);
        } else {
            assert(both[k] == b[k - a.len()]);
        }
    }
}

/// An object of a log fits the schema once it is staged, and so do the others.
proof fn lemma_object_fits(s: StagingView, object: ObjectView)
    requires
        all_fit(s),
        object.object_type.len() > 0,
    ensures
        all_fit(s.with_log_object(object)),
{
    let after = s.with_log_object(object);
    let typed = s.with_object(object.id, object.object_type);
    let found = staging::staged(s.objects, object.id);
    let p = if found {
        choose|p: int| 0 <= p < s.objects.len() && #[trigger] s.objects[p].id == object.id
    } else {
        s.objects.len() as int
    };
    if found {
        restaging::lemma_slot(s.objects, object.id, p);
        assert(s.objects[p].object_type.len() > 0);
        assert(typed.objects =~= s.objects);
    } else {
        restaging::lemma_new_slot(s.objects, object.id, object.object_type);
    }
    assert(weaker(typed.object_schema, s.object_schema));
    assert(integrity::distinct_objects(typed.objects)) by {
        assert forall|i: int, j: int| 0 <= i < j < typed.objects.len() implies (
        #[trigger] typed.objects[i]).id != (#[trigger] typed.objects[j]).id by {
            if j < s.objects.len() {
                assert(s.objects[i].id != s.objects[j].id);
            } else {
                assert(s.objects[i].id != object.id);
            }
        }
    }
    let of = typed.objects[p].object_type;
    assert(typed.objects[p].id == object.id);
    assert(typed.object_schema.contains_key(of));
    lemma_observations_fit(typed, object.id, p, object.attributes);
    let observed = typed.with_observations(object.id, object.attributes);
    restaging::lemma_with_observations(typed, object.id, p, object.attributes);
    assert(integrity::distinct_objects(observed.objects)) by {
        assert forall|i: int, j: int| 0 <= i < j < observed.objects.len() implies (
        #[trigger] observed.objects[i]).id != (#[trigger] observed.objects[j]).id by {
            assert(typed.objects[i].id != typed.objects[j].id);
        }
    }
    restaging::lemma_with_o2os(observed, object.id, p, object.relationships);
    assert(after.object_schema == observed.object_schema);
    lemma_weaker_transitive(after.object_schema, typed.object_schema, s.object_schema);
    assert(integrity::distinct_objects(after.objects)) by {
        assert forall|i: int, j: int| 0 <= i < j < after.objects.len() implies (
        #[trigger] after.objects[i]).id != (#[trigger] after.objects[j]).id by {
            assert(typed.objects[i].id != typed.objects[j].id);
        }
    }
    assert forall|q: int| 0 <= q < after.objects.len() implies (
    #[trigger] after.objects[q]).object_type.len() > 0 && after.object_schema.contains_key(
        after.objects[q].object_type,
    ) && sealing::fits(
        after.object_schema,
        after.objects[q].object_type,
        after.objects[q].attributes,
    ) by {
        if q < s.objects.len() {
            assert(s.objects[q].object_type.len() > 0);
            assert(s.object_schema.contains_key(s.objects[q].object_type));
            lemma_fits_weaker(
                after.object_schema,
                s.object_schema,
                s.objects[q].object_type,
                s.objects[q].attributes,
            );
        }
        if q == p {
            let had = typed.objects[p].attributes;
            assert(after.objects[p].attributes == had + object.attributes);
            lemma_fits_add(after.object_schema, of, had, object.attributes);
        } else {
            assert(after.objects[q] == typed.objects[q]);
            assert(typed.objects[q] == s.objects[q]);
        }
    }
}

/// The objects of a log fit the schema once they are staged.
pub proof fn lemma_objects_fit(s: StagingView, objects: Seq<ObjectView>)
    requires
        all_fit(s),
        sealing::named(objects),
    ensures
        all_fit(s.with_log_objects(objects)),
    decreases objects.len(),
{
    if objects.len() > 0 {
        let front = objects.drop_last();
        assert forall|i: int| 0 <= i < front.len() implies (
        #[trigger] front[i]).object_type.len() > 0 by {
            assert(objects[i].object_type.len() > 0);
        }
        lemma_objects_fit(s, front);
        assert(objects[objects.len() - 1] == objects.last());
        lemma_object_fits(s.with_log_objects(front), objects.last());
    }
}

/// The objects of a log that is staged again fit its schema.
pub proof fn lemma_restaged_fits(log: LogView)
    requires
        sealing::named(log.objects),
    ensures
        all_fit(staging::restaged(log)),
        integrity::distinct_objects(log.objects) ==> forall|i: int|
            0 <= i < log.objects.len() ==> sealing::fits(
                staging::restaged(log).object_schema,
                (#[trigger] log.objects[i]).object_type,
                log.objects[i].attributes,
            ),
{
    let start = StagingView {
        events: Seq::<EventView>::empty(),
        objects: Seq::<ObjectView>::empty(),
        event_schema: staging::seeded(log.event_types),
        object_schema: staging::seeded(log.object_types),
    };
    lemma_objects_fit(start, log.objects);
    restaging::lemma_with_events(start.with_log_objects(log.objects), log.events);
    if integrity::distinct_objects(log.objects) {
        restaging::lemma_restaged(log);
        assert forall|i: int| 0 <= i < log.objects.len() implies sealing::fits(
            staging::restaged(log).object_schema,
            (#[trigger] log.objects[i]).object_type,
            log.objects[i].attributes,
        ) by {
            assert(staging::restaged(log).objects[i] == log.objects[i]);
        }
    }
}

proof fn lemma_seeded_at(types: Seq<TypeView>, i: int)
    requires
        0 <= i < types.len(),
        forall|j: int| i < j < types.len() ==> (#[trigger] types[j]).name != types[i].name,
    ensures
        staging::seeded(types).contains_key(types[i].name),
        staging::seeded(types)[types[i].name] == staging::seeded_attributes(types[i].attributes),
    decreases types.len(),
{
    let n = types.len() - 1;
    assert(types[n] == types.last());
    if i < n {
        let front = types.drop_last();
        assert forall|j: int| i < j < front.len() implies (#[trigger] front[j]).name
            != front[i].name by {
            assert(types[j].name != types[i].name);
        }
        lemma_seeded_at(front, i);
        assert(types[n].name != types[i].name);
    }
}

proof fn lemma_seeded_attribute_at(definitions: Seq<DefinitionView>, k: int)
    requires
        0 <= k < definitions.len(),
        forall|j: int|
            k < j < definitions.len() ==> (#[trigger] definitions[j]).name != definitions[k].name,
    ensures
        staging::seeded_attributes(definitions).contains_key(definitions[k].name),
        staging::seeded_attributes(definitions)[definitions[k].name] == definitions[k].value_type,
    decreases definitions.len(),
{
    let n = definitions.len() - 1;
    assert(definitions[n] == definitions.last());
    if k < n {
        let front = definitions.drop_last();
        assert forall|j: int| k < j < front.len() implies (#[trigger] front[j]).name
            != front[k].name by {
            assert(definitions[j].name != definitions[k].name);
        }
        lemma_seeded_attribute_at(front, k);
        assert(definitions[n].name != definitions[k].name);
    }
}

/// The declarations of a schema seed what the schema knows.
proof fn lemma_reseeded(schema: Schema, name: Seq<char>, attribute: Seq<char>)
    requires
        sealing::finite_schema(schema),
        sealing::knows(schema, name, attribute),
    ensures
        sealing::knows(staging::seeded(staging::declarations(schema)), name, attribute),
        staging::seeded(staging::declarations(schema))[name][attribute] == schema[name][attribute],
{
    let types = staging::declarations(schema);
    let names = text::in_order(schema.dom());
    text::lemma_orderable(schema.dom());
    assert(names.to_set().contains(name));
    let i = choose|i: int| 0 <= i < names.len() && names[i] == name;
    assert forall|j: int| i < j < types.len() implies (#[trigger] types[j]).name
        != types[i].name by {
        assert(text::precedes(names[i], names[j]));
        text::lemma_precedes_irreflexive(name);
    }
    lemma_seeded_at(types, i);
    let definitions = types[i].attributes;
    let order = text::in_order(schema[name].dom());
    text::lemma_orderable(schema[name].dom());
    assert(order.to_set().contains(attribute));
    let k = choose|k: int| 0 <= k < order.len() && order[k] == attribute;
    assert forall|j: int| k < j < definitions.len() implies (#[trigger] definitions[j]).name
        != definitions[k].name by {
        assert(text::precedes(order[k], order[j]));
        text::lemma_precedes_irreflexive(attribute);
    }
    lemma_seeded_attribute_at(definitions, k);
}

/// An object whose observations fit the schema is settled once it is sealed.
proof fn lemma_seal_settles(schema: Schema, object: ObjectView)
    requires
        sealing::finite_schema(schema),
        schema.contains_key(object.object_type),
        sealing::fits(schema, object.object_type, object.attributes),
    ensures
        object_effects::settled_object(
            staging::seeded(staging::declarations(schema)),
            staging::sealed_object(schema, object),
        ),
{
    let sealed = staging::sealed_object(schema, object);
    let reseeded = staging::seeded(staging::declarations(schema));
    let conformed = staging::conformed_observations(schema, object);
    let distinct = staging::distinct_observations(conformed);
    let of = object.object_type;
    sealing::lemma_distinct_observations(conformed);
    lemma_distinct_stay(conformed);
    lemma_sorted_orderly(distinct);
    lemma_sorted_ascending(object.relationships);
    sealing::lemma_declarations(schema);
    restaging::lemma_seeded(staging::declarations(schema));
    assert forall|k: int| 0 <= k < sealed.attributes.len() implies reseeded[of].contains_key(
        (#[trigger] sealed.attributes[k]).name,
    ) && reseeded[of][sealed.attributes[k].name] == sealed.attributes[k].value.kind() by {
        let a = sealed.attributes[k];
        assert(sealed.attributes.contains(a));
        sealing::lemma_sorted_observations(distinct, a);
        assert(distinct.contains(a));
        assert(conformed.contains(a));
        let m = choose|m: int| 0 <= m < conformed.len() && conformed[m] == a;
        assert(sealing::knows(schema, of, object.attributes[m].name));
        lemma_reseeded(schema, of, a.name);
    }
}

/// After an event step, a log whose object types have names is settled: no
/// further event step changes its objects.
pub proof fn law_event_steps_settle(
    log: LogView,
    filter: FilterView,
    renames: Map<Seq<char>, Seq<char>>,
)
    requires
        integrity::distinct_objects(log.objects),
        sealing::named(log.objects),
    ensures
        log.retaining(filter).settled(),
        log.renaming(renames).settled(),
{
    lemma_restaged_fits(log);
    restaging::lemma_restaged(log);
    let schema = staging::restaged(log).object_schema;
    assert forall|i: int| 0 <= i < log.objects.len() implies object_effects::settled_object(
        staging::seeded(staging::declarations(schema)),
        #[trigger] staging::sealed_object(schema, log.objects[i]),
    ) by {
        assert(restaging::object_occurs(log.objects, log.objects[i].object_type));
        lemma_seal_settles(schema, log.objects[i]);
    }
    assert forall|i: int|
        0 <= i < log.retaining(
            filter,
        ).objects.len() implies object_effects::settled_object(
        staging::seeded(log.retaining(filter).object_types),
        #[trigger] log.retaining(filter).objects[i],
    ) by {
        assert(log.retaining(filter).objects[i] == staging::sealed_object(schema, log.objects[i]));
    }
    assert forall|i: int|
        0 <= i < log.renaming(
            renames,
        ).objects.len() implies object_effects::settled_object(
        staging::seeded(log.renaming(renames).object_types),
        #[trigger] log.renaming(renames).objects[i],
    ) by {
        assert(log.renaming(renames).objects[i] == staging::sealed_object(schema, log.objects[i]));
    }
}

} // verus!
