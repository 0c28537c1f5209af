//! Which staging logs can be sealed.

use vstd::prelude::*;

use crate::convert;
use crate::integrity;
use crate::model::EventView;
use crate::model::ObjectView;
use crate::model::ObservationView;
use crate::model::RelationView;
use crate::model::ValueType;
use crate::model::ValueView;
use crate::staging;
use crate::staging::Schema;
use crate::staging::StagingView;
use crate::text;
use crate::validity;

verus! {

/// A schema of finitely many types with finitely many attributes.
pub open spec fn finite_schema(schema: Schema) -> bool {
    schema.dom().finite() && forall|name: Seq<char>| #[trigger]
        schema.contains_key(name) ==> schema[name].dom().finite()
}

/// Whether a schema knows a type and this attribute of it.
pub open spec fn knows(schema: Schema, name: Seq<char>, attribute: Seq<char>) -> bool {
    schema.contains_key(name) && schema[name].contains_key(attribute)
}

/// Whether a schema knows the type and the attributes of every event.
pub open spec fn covers_events(schema: Schema, events: Seq<EventView>) -> bool {
    &&& forall|i: int|
        0 <= i < events.len() ==> schema.contains_key((#[trigger] events[i]).event_type)
    &&& forall|i: int, k: int|
        0 <= i < events.len() && 0 <= k < events[i].attributes.len() ==> knows(
            schema,
            events[i].event_type,
            (#[trigger] events[i].attributes[k]).name,
        )
}

/// Whether a schema knows the type and the attributes of every object.
pub open spec fn covers_objects(schema: Schema, objects: Seq<ObjectView>) -> bool {
    &&& forall|i: int|
        0 <= i < objects.len() ==> schema.contains_key((#[trigger] objects[i]).object_type)
    &&& forall|i: int, k: int|
        0 <= i < objects.len() && 0 <= k < objects[i].attributes.len() ==> knows(
            schema,
            objects[i].object_type,
            (#[trigger] objects[i].attributes[k]).name,
        )
}

/// The declarations of a schema declare what the schema knows.
pub proof fn lemma_declarations(schema: Schema)
    requires
        finite_schema(schema),
    ensures
        forall|name: Seq<char>| #[trigger]
            validity::declares(staging::declarations(schema), name) <==> schema.contains_key(name),
        forall|name: Seq<char>, attribute: Seq<char>| #[trigger]
            validity::declares_attribute(staging::declarations(schema), name, attribute) <==> knows(
                schema,
                name,
                attribute,
            ),
{
    let types = staging::declarations(schema);
    let names = text::in_order(schema.dom());
    text::lemma_orderable(schema.dom());
    assert forall|name: Seq<char>| #[trigger] validity::declares(types, name)
        <==> schema.contains_key(name) by {
        if validity::declares(types, name) {
            let i = choose|i: int| 0 <= i < types.len() && #[trigger] types[i].name == name;
            assert(names[i] == name);
            assert(names.to_set().contains(name));
        }
        if schema.contains_key(name) {
            assert(names.to_set().contains(name));
            let i = choose|i: int| 0 <= i < names.len() && names[i] == name;
            assert(types[i].name == name);
        }
    }
    assert forall|name: Seq<char>, attribute: Seq<char>| #[trigger]
        validity::declares_attribute(types, name, attribute) <==> knows(schema, name, attribute) by {
        if validity::declares_attribute(types, name, attribute) {
            let (i, k) = choose|i: int, k: int|
                0 <= i < types.len() && types[i].name == name && (forall|j: int|
                    i < j < types.len() ==> #[trigger] types[j].name != name) && 0 <= k
                    < types[i].attributes.len() && #[trigger] types[i].attributes[k].name
                    == attribute;
            assert(names[i] == name);
            assert(names.to_set().contains(name));
            text::lemma_orderable(schema[name].dom());
            let order = text::in_order(schema[name].dom());
            assert(order[k] == attribute);
            assert(order.to_set().contains(attribute));
        }
        if knows(schema, name, attribute) {
            assert(names.to_set().contains(name));
            let i = choose|i: int| 0 <= i < names.len() && names[i] == name;
            assert(types[i].name == name);
            assert forall|j: int| i < j < types.len() implies #[trigger] types[j].name != name by {
                assert(text::precedes(names[i], names[j]));
                text::lemma_precedes_irreflexive(name);
            }
            text::lemma_orderable(schema[name].dom());
            let order = text::in_order(schema[name].dom());
            assert(order.to_set().contains(attribute));
            let k = choose|k: int| 0 <= k < order.len() && order[k] == attribute;
            assert(types[i].attributes[k].name == attribute);
        }
    }
}

pub proof fn lemma_placed_observation(
    sorted: Seq<ObservationView>,
    observation: ObservationView,
    other: ObservationView,
)
    ensures
        staging::placed_observation(sorted, observation).contains(other) <==> sorted.contains(other)
            || other == observation,
    decreases sorted.len(),
{
    let placed = staging::placed_observation(sorted, observation);
    if sorted.len() == 0 || !staging::observation_precedes(observation, sorted.last()) {
        lemma_push_contains(sorted, observation, other);
    } else {
        lemma_placed_observation(sorted.drop_last(), observation, other);
        lemma_push_contains(
            staging::placed_observation(sorted.drop_last(), observation),
            sorted.last(),
            other,
        );
        lemma_push_contains(sorted.drop_last(), sorted.last(), other);
        assert(sorted.drop_last().push(sorted.last()) =~= sorted);
    }
}

proof fn lemma_push_contains<A>(list: Seq<A>, item: A, other: A)
    ensures
        list.push(item).contains(other) <==> list.contains(other) || other == item,
{
    let longer = list.push(item);
    if list.contains(other) {
        let k = choose|k: int| 0 <= k < list.len() && list[k] == other;
        assert(longer[k] == other);
    }
    assert(longer[list.len() as int] == item);
    if longer.contains(other) && other != item {
        let k = choose|k: int| 0 <= k < longer.len() && longer[k] == other;
        assert(list[k] == other);
    }
}

/// Sorting observations keeps them all.
pub proof fn lemma_sorted_observations(list: Seq<ObservationView>, other: ObservationView)
    ensures
        staging::sorted_observations(list).contains(other) <==> list.contains(other),
    decreases list.len(),
{
    if list.len() > 0 {
        lemma_sorted_observations(list.drop_last(), other);
        lemma_placed_observation(
            staging::sorted_observations(list.drop_last()),
            list.last(),
            other,
        );
        lemma_push_contains(list.drop_last(), list.last(), other);
        assert(list.drop_last().push(list.last()) =~= list);
    }
}

/// Of observations that repeat each other one stays.
pub proof fn lemma_distinct_observations(list: Seq<ObservationView>)
    ensures
        forall|a: ObservationView| #[trigger]
            staging::distinct_observations(list).contains(a) ==> list.contains(a),
        forall|a: ObservationView| #[trigger]
            list.contains(a) ==> exists|b: ObservationView| #[trigger]
                staging::distinct_observations(list).contains(b) && staging::same_observation(b, a),
    decreases list.len(),
{
    if list.len() > 0 {
        let front = list.drop_last();
        let last = list.last();
        lemma_distinct_observations(front);
        let earlier = staging::distinct_observations(front);
        let distinct = staging::distinct_observations(list);
        assert(front.push(last) =~= list);
        assert forall|a: ObservationView| #[trigger] distinct.contains(a) implies list.contains(
            a,
        ) by {
            lemma_push_contains(earlier, last, a);
            lemma_push_contains(front, last, a);
        }
        assert forall|a: ObservationView| #[trigger] list.contains(a) implies exists|
            b: ObservationView,
        | #[trigger]
            distinct.contains(b) && staging::same_observation(b, a) by {
            lemma_push_contains(front, last, a);
            if front.contains(a) {
                let b = choose|b: ObservationView| #[trigger]
                    earlier.contains(b) && staging::same_observation(b, a);
                lemma_push_contains(earlier, last, b);
                assert(distinct.contains(b));
            } else if exists|i: int|
                0 <= i < list.len() - 1 && staging::same_observation(#[trigger] list[i], last) {
                let i = choose|i: int|
                    0 <= i < list.len() - 1 && staging::same_observation(#[trigger] list[i], last);
                assert(front[i] == list[i]);
                assert(front.contains(list[i]));
                let b = choose|b: ObservationView| #[trigger]
                    earlier.contains(b) && staging::same_observation(b, list[i]);
                assert(distinct.contains(b));
            } else {
                lemma_push_contains(earlier, last, last);
                assert(distinct.contains(last));
            }
        }
    }
}

pub proof fn lemma_placed_relation(
    sorted: Seq<RelationView>,
    relation: RelationView,
    other: RelationView,
)
    ensures
        staging::placed_relation(sorted, relation).contains(other) <==> sorted.contains(other)
            || other == relation,
    decreases sorted.len(),
{
    if sorted.len() == 0 || staging::relation_precedes(sorted.last(), relation) {
        lemma_push_contains(sorted, relation, other);
    } else if sorted.last() == relation {
        assert(sorted[sorted.len() - 1] == relation);
        assert(sorted.contains(relation));
    } else {
        lemma_placed_relation(sorted.drop_last(), relation, other);
        lemma_push_contains(
            staging::placed_relation(sorted.drop_last(), relation),
            sorted.last(),
            other,
        );
        lemma_push_contains(sorted.drop_last(), sorted.last(), other);
        assert(sorted.drop_last().push(sorted.last()) =~= sorted);
    }
}

/// Sorting relationships keeps them all.
pub proof fn lemma_sorted_relations(list: Seq<RelationView>, other: RelationView)
    ensures
        staging::sorted_relations(list).contains(other) <==> list.contains(other),
    decreases list.len(),
{
    if list.len() > 0 {
        lemma_sorted_relations(list.drop_last(), other);
        lemma_placed_relation(staging::sorted_relations(list.drop_last()), list.last(), other);
        lemma_push_contains(list.drop_last(), list.last(), other);
        assert(list.drop_last().push(list.last()) =~= list);
    }
}

/// Whether some observation is of this attribute.
pub open spec fn observes(attributes: Seq<ObservationView>, name: Seq<char>) -> bool {
    exists|k: int| 0 <= k < attributes.len() && #[trigger] attributes[k].name == name
}

/// Whether `held` is what becomes of a value: the value itself, or its text.
pub open spec fn stands_for(held: ValueView, value: ValueView) -> bool {
    held == value || held == ValueView::String(convert::value_text(value))
}

/// Whether one observation is what becomes of another: it is of the same
/// attribute at the same time, and its value is the other's or its text.
pub open spec fn becomes(a: ObservationView, held: ObservationView) -> bool {
    held.name == a.name && held.time == a.time && stands_for(held.value, a.value)
}

/// Whether the observations have one that this one becomes.
pub open spec fn holds(list: Set<ObservationView>, a: ObservationView) -> bool {
    exists|held: ObservationView| #[trigger] list.contains(held) && becomes(a, held)
}

/// Whether the observations have one of the same attribute at the same time
/// that is written like this one.
pub open spec fn repeats(list: Set<ObservationView>, a: ObservationView) -> bool {
    exists|held: ObservationView| #[trigger]
        list.contains(held) && staging::same_observation(held, a)
}

/// Whether an observation is taken for no other one. Of those of one attribute
/// at one time that are written alike the first stays for all, so none of them
/// may differ from this one in more than being its text. Where the values
/// `agree` with their declared types, only values of one type can differ and be
/// written alike: floats, such as two NaN, or times.
pub open spec fn stands_out(list: Set<ObservationView>, a: ObservationView, agree: bool) -> bool {
    forall|c: ObservationView| #[trigger]
        list.contains(c) && staging::same_observation(c, a) ==> stands_for(c.value, a.value) || (
        agree && c.value.kind() != a.value.kind())
}

/// Whether the observations `after` are those of `before`.
///
/// Each of `before` is there, with its name, its time and the text of its
/// value; and with its value, or that text in its place, unless it is taken for
/// another one. Each of `after` is what becomes of one of `before`.
pub open spec fn carried(
    before: Set<ObservationView>,
    after: Set<ObservationView>,
    agree: bool,
) -> bool {
    &&& forall|a: ObservationView| #[trigger] before.contains(a) ==> repeats(after, a)
    &&& forall|a: ObservationView| #[trigger]
        before.contains(a) && stands_out(before, a, agree) ==> holds(after, a)
    &&& forall|held: ObservationView| #[trigger]
        after.contains(held) ==> exists|a: ObservationView| #[trigger]
            before.contains(a) && becomes(a, held)
}

/// Whether the types of all objects have names.
pub open spec fn named(objects: Seq<ObjectView>) -> bool {
    forall|i: int| 0 <= i < objects.len() ==> (#[trigger] objects[i]).object_type.len() > 0
}

/// Whether the schema gives every observation its type, or makes it text.
pub open spec fn fits(
    schema: Schema,
    of: Seq<char>,
    observations: Seq<ObservationView>,
) -> bool {
    forall|k: int|
        0 <= k < observations.len() ==> knows(schema, of, (#[trigger] observations[k]).name) && (
        schema[of][observations[k].name] == observations[k].value.kind()
            || schema[of][observations[k].name] == ValueType::String)
}

/// Sealing an object carries its observations.
pub proof fn lemma_sealed_observations(schema: Schema, object: ObjectView, agree: bool)
    requires
        agree ==> fits(schema, object.object_type, object.attributes),
    ensures
        carried(
            object.attributes.to_set(),
            staging::sealed_object(schema, object).attributes.to_set(),
            agree,
        ),
{
    let sealed = staging::sealed_object(schema, object).attributes;
    let conformed = staging::conformed_observations(schema, object);
    let distinct = staging::distinct_observations(conformed);
    let before = object.attributes.to_set();
    let after = sealed.to_set();
    lemma_distinct_observations(conformed);
    assert forall|held: ObservationView| #[trigger] after.contains(held) implies exists|
        a: ObservationView,
    | #[trigger]
        before.contains(a) && becomes(a, held) && staging::same_observation(a, held) by {
        lemma_sorted_observations(distinct, held);
        assert(conformed.contains(held));
        let m = choose|m: int| 0 <= m < conformed.len() && conformed[m] == held;
        assert(before.contains(object.attributes[m]));
    }
    assert forall|a: ObservationView| #[trigger] before.contains(a) implies repeats(after, a) && (
    stands_out(before, a, agree) ==> holds(after, a)) by {
        let k = choose|k: int| 0 <= k < object.attributes.len() && object.attributes[k] == a;
        assert(conformed.contains(conformed[k]));
        let held = choose|held: ObservationView| #[trigger]
            distinct.contains(held) && staging::same_observation(held, conformed[k]);
        lemma_sorted_observations(distinct, held);
        assert(after.contains(held));
        assert(staging::same_observation(held, a));
        let m = choose|m: int| 0 <= m < conformed.len() && conformed[m] == held;
        let c = object.attributes[m];
        assert(before.contains(c));
        assert(staging::same_observation(c, a));
        if stands_out(before, a, agree) {
            assert(becomes(a, held));
        }
    }
}

/// Texts, flags and integers that are written alike are the same.
pub proof fn law_plain_values_are_told_apart(a: ValueView, b: ValueView)
    requires
        a is String || a is Boolean || a is Integer,
        a.kind() == b.kind(),
        convert::value_text(a) == convert::value_text(b),
    ensures
        a == b,
{
    reveal_strlit("true");
    reveal_strlit("false");
    if let ValueView::Integer(i) = a {
        text::lemma_decimal_injective(i, b->Integer_0);
    }
    if a is Boolean {
        assert("true"@.len() != "false"@.len());
    }
}

/// An observation of a text, a flag or an integer is taken for no other one
/// where the values agree with their declared types.
pub proof fn law_plain_observations_stand_out(list: Set<ObservationView>, a: ObservationView)
    requires
        a.value is String || a.value is Boolean || a.value is Integer,
    ensures
        stands_out(list, a, true),
{
    assert forall|c: ObservationView| #[trigger]
        list.contains(c) && staging::same_observation(c, a) && c.value.kind()
            == a.value.kind() implies stands_for(c.value, a.value) by {
        law_plain_values_are_told_apart(a.value, c.value);
    }
}

/// A sealed object has the names of its attributes and its relationships.
pub proof fn lemma_sealed_object(schema: Schema, object: ObjectView)
    ensures
        forall|name: Seq<char>| #[trigger]
            observes(staging::sealed_object(schema, object).attributes, name) <==> observes(
                object.attributes,
                name,
            ),
        forall|r: RelationView| #[trigger]
            staging::sealed_object(schema, object).relationships.contains(r)
                <==> object.relationships.contains(r),
{
    let sealed = staging::sealed_object(schema, object);
    let conformed = staging::conformed_observations(schema, object);
    let distinct = staging::distinct_observations(conformed);
    lemma_distinct_observations(conformed);
    assert forall|name: Seq<char>| #[trigger] observes(sealed.attributes, name) <==> observes(
        object.attributes,
        name,
    ) by {
        if observes(sealed.attributes, name) {
            let k = choose|k: int|
                0 <= k < sealed.attributes.len() && #[trigger] sealed.attributes[k].name == name;
            let a = sealed.attributes[k];
            assert(sealed.attributes.contains(a));
            lemma_sorted_observations(distinct, a);
            assert(distinct.contains(a));
            assert(conformed.contains(a));
            let m = choose|m: int| 0 <= m < conformed.len() && conformed[m] == a;
            assert(object.attributes[m].name == name);
        }
        if observes(object.attributes, name) {
            let k = choose|k: int|
                0 <= k < object.attributes.len() && #[trigger] object.attributes[k].name == name;
            let a = conformed[k];
            assert(conformed.contains(a));
            let b = choose|b: ObservationView| #[trigger]
                distinct.contains(b) && staging::same_observation(b, a);
            lemma_sorted_observations(distinct, b);
            assert(sealed.attributes.contains(b));
            let m = choose|m: int| 0 <= m < sealed.attributes.len() && sealed.attributes[m] == b;
            assert(sealed.attributes[m].name == name);
        }
    }
    assert forall|r: RelationView| #[trigger] sealed.relationships.contains(r)
        <==> object.relationships.contains(r) by {
        lemma_sorted_relations(object.relationships, r);
    }
}

impl StagingView {
    /// Every relationship of an event goes to a staged object.
    pub open spec fn event_references_held(self) -> bool {
        forall|i: int, k: int|
            0 <= i < self.events.len() && 0 <= k < self.events[i].relationships.len()
                ==> staging::staged(
                self.objects,
                (#[trigger] self.events[i].relationships[k]).object_id,
            )
    }

    /// Every relationship of an object goes to a staged object.
    pub open spec fn object_references_held(self) -> bool {
        forall|i: int, k: int|
            0 <= i < self.objects.len() && 0 <= k < self.objects[i].relationships.len()
                ==> staging::staged(
                self.objects,
                (#[trigger] self.objects[i].relationships[k]).object_id,
            )
    }
}

/// A staging log can be sealed if it holds distinct ids, references to staged
/// objects, and nothing that the schemas do not know.
pub proof fn lemma_seal(s: StagingView)
    requires
        finite_schema(s.event_schema),
        finite_schema(s.object_schema),
    ensures
        s.sealed().valid() <==> {
            &&& integrity::distinct_events(s.events)
            &&& integrity::distinct_objects(s.objects)
            &&& covers_events(s.event_schema, s.events)
            &&& covers_objects(s.object_schema, s.objects)
            &&& s.event_references_held()
            &&& s.object_references_held()
        },
{
    let log = s.sealed();
    integrity::lemma_valid_parts(log);
    lemma_declarations(s.event_schema);
    lemma_declarations(s.object_schema);
    assert forall|i: int| 0 <= i < s.events.len() implies #[trigger] log.events[i]
        == staging::conformed_event(s.event_schema, s.events[i]) by {}
    assert forall|i: int| 0 <= i < s.objects.len() implies #[trigger] log.objects[i]
        == staging::sealed_object(s.object_schema, s.objects[i]) by {}
    assert forall|id: Seq<char>| #[trigger] log.has_object(id) <==> staging::staged(
        s.objects,
        id,
    ) by {
        if log.has_object(id) {
            let i = choose|i: int| 0 <= i < log.objects.len() && #[trigger] log.objects[i].id == id;
            assert(s.objects[i].id == id);
        }
        if staging::staged(s.objects, id) {
            let i = choose|i: int| 0 <= i < s.objects.len() && #[trigger] s.objects[i].id == id;
            assert(log.objects[i].id == id);
        }
    }
    lemma_seal_distinct(s);
    lemma_seal_events(s);
    lemma_seal_objects(s);
}

proof fn lemma_seal_distinct(s: StagingView)
    ensures
        integrity::distinct_events(s.sealed().events) <==> integrity::distinct_events(s.events),
        integrity::distinct_objects(s.sealed().objects) <==> integrity::distinct_objects(s.objects),
{
    let log = s.sealed();
    if integrity::distinct_events(log.events) {
        assert forall|i: int, j: int| 0 <= i < j < s.events.len() implies (
        #[trigger] s.events[i]).id != (#[trigger] s.events[j]).id by {
            assert(log.events[i].id != log.events[j].id);
        }
    }
    if integrity::distinct_events(s.events) {
        assert forall|i: int, j: int| 0 <= i < j < log.events.len() implies (
        #[trigger] log.events[i]).id != (#[trigger] log.events[j]).id by {
            assert(s.events[i].id != s.events[j].id);
        }
    }
    if integrity::distinct_objects(log.objects) {
        assert forall|i: int, j: int| 0 <= i < j < s.objects.len() implies (
        #[trigger] s.objects[i]).id != (#[trigger] s.objects[j]).id by {
            assert(log.objects[i].id != log.objects[j].id);
        }
    }
    if integrity::distinct_objects(s.objects) {
        assert forall|i: int, j: int| 0 <= i < j < log.objects.len() implies (
        #[trigger] log.objects[i]).id != (#[trigger] log.objects[j]).id by {
            assert(s.objects[i].id != s.objects[j].id);
        }
    }
}

proof fn lemma_seal_events(s: StagingView)
    requires
        finite_schema(s.event_schema),
        forall|id: Seq<char>| #[trigger]
            s.sealed().has_object(id) <==> staging::staged(s.objects, id),
    ensures
        s.sealed().events_typed() && s.sealed().event_attributes_declared() <==> covers_events(
            s.event_schema,
            s.events,
        ),
        s.sealed().event_references_held() <==> s.event_references_held(),
{
    let log = s.sealed();
    lemma_declarations(s.event_schema);
    if log.events_typed() && log.event_attributes_declared() {
        assert forall|i: int| 0 <= i < s.events.len() implies s.event_schema.contains_key(
            (#[trigger] s.events[i]).event_type,
        ) by {
            assert(validity::declares(log.event_types, log.events[i].event_type));
        }
        assert forall|i: int, k: int|
            0 <= i < s.events.len() && 0 <= k < s.events[i].attributes.len() implies knows(
            s.event_schema,
            s.events[i].event_type,
            (#[trigger] s.events[i].attributes[k]).name,
        ) by {
            assert(validity::declares_attribute(
                log.event_types,
                log.events[i].event_type,
                log.events[i].attributes[k].name,
            ));
        }
    }
    if covers_events(s.event_schema, s.events) {
        assert forall|i: int| 0 <= i < log.events.len() implies validity::declares(
            log.event_types,
            (#[trigger] log.events[i]).event_type,
        ) by {
            assert(s.event_schema.contains_key(s.events[i].event_type));
        }
        assert forall|i: int, k: int|
            0 <= i < log.events.len() && 0 <= k
                < log.events[i].attributes.len() implies validity::declares_attribute(
            log.event_types,
            log.events[i].event_type,
            (#[trigger] log.events[i].attributes[k]).name,
        ) by {
            assert(knows(
                s.event_schema,
                s.events[i].event_type,
                s.events[i].attributes[k].name,
            ));
        }
    }
    if log.event_references_held() {
        assert forall|i: int, k: int|
            0 <= i < s.events.len() && 0 <= k
                < s.events[i].relationships.len() implies staging::staged(
            s.objects,
            (#[trigger] s.events[i].relationships[k]).object_id,
        ) by {
            assert(log.has_object(log.events[i].relationships[k].object_id));
        }
    }
    if s.event_references_held() {
        assert forall|i: int, k: int|
            0 <= i < log.events.len() && 0 <= k
                < log.events[i].relationships.len() implies log.has_object(
            (#[trigger] log.events[i].relationships[k]).object_id,
        ) by {
            assert(staging::staged(s.objects, s.events[i].relationships[k].object_id));
        }
    }
}

proof fn lemma_seal_objects(s: StagingView)
    requires
        finite_schema(s.object_schema),
        forall|id: Seq<char>| #[trigger]
            s.sealed().has_object(id) <==> staging::staged(s.objects, id),
    ensures
        s.sealed().objects_typed() && s.sealed().object_attributes_declared() <==> covers_objects(
            s.object_schema,
            s.objects,
        ),
        s.sealed().object_references_held() <==> s.object_references_held(),
{
    let log = s.sealed();
    lemma_declarations(s.object_schema);
    if log.objects_typed() && log.object_attributes_declared() {
        assert forall|i: int| 0 <= i < s.objects.len() implies s.object_schema.contains_key(
            (#[trigger] s.objects[i]).object_type,
        ) by {
            assert(validity::declares(log.object_types, log.objects[i].object_type));
        }
        assert forall|i: int, k: int|
            0 <= i < s.objects.len() && 0 <= k < s.objects[i].attributes.len() implies knows(
            s.object_schema,
            s.objects[i].object_type,
            (#[trigger] s.objects[i].attributes[k]).name,
        ) by {
            let name = s.objects[i].attributes[k].name;
            lemma_sealed_object(s.object_schema, s.objects[i]);
            let sealed = staging::sealed_object(s.object_schema, s.objects[i]);
            assert(log.objects[i] == sealed);
            assert(observes(s.objects[i].attributes, name));
            assert(observes(sealed.attributes, name));
            let m = choose|m: int|
                0 <= m < sealed.attributes.len() && #[trigger] sealed.attributes[m].name == name;
            assert(validity::declares_attribute(
                log.object_types,
                log.objects[i].object_type,
                log.objects[i].attributes[m].name,
            ));
        }
    }
    if covers_objects(s.object_schema, s.objects) {
        assert forall|i: int| 0 <= i < log.objects.len() implies validity::declares(
            log.object_types,
            (#[trigger] log.objects[i]).object_type,
        ) by {
            assert(s.object_schema.contains_key(s.objects[i].object_type));
        }
        assert forall|i: int, k: int|
            0 <= i < log.objects.len() && 0 <= k
                < log.objects[i].attributes.len() implies validity::declares_attribute(
            log.object_types,
            log.objects[i].object_type,
            (#[trigger] log.objects[i].attributes[k]).name,
        ) by {
            let name = log.objects[i].attributes[k].name;
            lemma_sealed_object(s.object_schema, s.objects[i]);
            let sealed = staging::sealed_object(s.object_schema, s.objects[i]);
            assert(log.objects[i] == sealed);
            assert(sealed.attributes[k].name == name);
            assert(observes(sealed.attributes, name));
            let object = s.objects[i];
            let m = choose|m: int|
                0 <= m < object.attributes.len() && #[trigger] object.attributes[m].name == name;
            assert(knows(
                s.object_schema,
                s.objects[i].object_type,
                s.objects[i].attributes[m].name,
            ));
        }
    }
    if log.object_references_held() {
        assert forall|i: int, k: int|
            0 <= i < s.objects.len() && 0 <= k
                < s.objects[i].relationships.len() implies staging::staged(
            s.objects,
            (#[trigger] s.objects[i].relationships[k]).object_id,
        ) by {
            let r = s.objects[i].relationships[k];
            lemma_sealed_object(s.object_schema, s.objects[i]);
            assert(s.objects[i].relationships.contains(r));
            let sealed = staging::sealed_object(s.object_schema, s.objects[i]);
            assert(log.objects[i] == sealed);
            assert(sealed.relationships.contains(r));
            let m = choose|m: int|
                0 <= m < sealed.relationships.len() && sealed.relationships[m] == r;
            assert(log.has_object(log.objects[i].relationships[m].object_id));
        }
    }
    if s.object_references_held() {
        assert forall|i: int, k: int|
            0 <= i < log.objects.len() && 0 <= k
                < log.objects[i].relationships.len() implies log.has_object(
            (#[trigger] log.objects[i].relationships[k]).object_id,
        ) by {
            let r = log.objects[i].relationships[k];
            lemma_sealed_object(s.object_schema, s.objects[i]);
            let sealed = staging::sealed_object(s.object_schema, s.objects[i]);
            assert(log.objects[i] == sealed);
            assert(sealed.relationships.contains(r));
            let object = s.objects[i];
            let m = choose|m: int|
                0 <= m < object.relationships.len() && object.relationships[m] == r;
            assert(staging::staged(s.objects, s.objects[i].relationships[m].object_id));
        }
    }
}

} // verus!
