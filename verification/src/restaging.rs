//! What a log becomes when it is staged.

use vstd::prelude::*;

use crate::sealing;
use crate::integrity;
use crate::model::AttributeView;
use crate::model::DefinitionView;
use crate::model::EventView;
use crate::model::LogView;
use crate::model::ObjectView;
use crate::model::ObservationView;
use crate::model::RelationView;
use crate::model::TypeView;
use crate::model::ValueType;
use crate::staging;
use crate::staging::Schema;
use crate::staging::StagingView;
use crate::validity;

verus! {

/// Whether some attribute has this name.
pub open spec fn mentions(seen: Seq<AttributeView>, name: Seq<char>) -> bool {
    exists|k: int| 0 <= k < seen.len() && #[trigger] seen[k].name == name
}

/// Attributes that are observed are known afterwards, and no others become
/// known.
pub proof fn lemma_observed_all(attributes: Map<Seq<char>, ValueType>, seen: Seq<AttributeView>)
    ensures
        forall|name: Seq<char>| #[trigger]
            staging::observed_all(attributes, seen).contains_key(name) <==> attributes.contains_key(
                name,
            ) || mentions(seen, name),
        attributes.dom().finite() ==> staging::observed_all(attributes, seen).dom().finite(),
    decreases seen.len(),
{
    if seen.len() > 0 {
        let front = seen.drop_last();
        lemma_observed_all(attributes, front);
        assert forall|name: Seq<char>| #[trigger]
            staging::observed_all(attributes, seen).contains_key(name) <==> attributes.contains_key(
                name,
            ) || mentions(seen, name) by {
            assert(staging::observed_all(attributes, front).contains_key(name)
                <==> attributes.contains_key(name) || mentions(front, name));
            if mentions(front, name) {
                let k = choose|k: int| 0 <= k < front.len() && #[trigger] front[k].name == name;
                assert(seen[k].name == name);
            }
            assert(seen[seen.len() - 1] == seen.last());
            if mentions(seen, name) && seen.last().name != name {
                let k = choose|k: int| 0 <= k < seen.len() && #[trigger] seen[k].name == name;
                assert(front[k].name == name);
            }
        }
    }
}

/// What the schema knows after an event.
pub proof fn lemma_noted(schema: Schema, event: EventView)
    ensures
        forall|name: Seq<char>| #[trigger]
            staging::noted(schema, event).contains_key(name) <==> schema.contains_key(name) || name
                == event.event_type,
        forall|name: Seq<char>, attribute: Seq<char>| #[trigger]
            sealing::knows(staging::noted(schema, event), name, attribute) <==> sealing::knows(
                schema,
                name,
                attribute,
            ) || (name == event.event_type && mentions(event.attributes, attribute)),
        sealing::finite_schema(schema) ==> sealing::finite_schema(staging::noted(schema, event)),
{
    lemma_observed_all(staging::entry(schema, event.event_type), event.attributes);
}

/// Whether some event is of this type.
pub open spec fn occurs(events: Seq<EventView>, name: Seq<char>) -> bool {
    exists|i: int| 0 <= i < events.len() && #[trigger] events[i].event_type == name
}

/// Whether some event of this type has this attribute.
pub open spec fn occurs_with(
    events: Seq<EventView>,
    name: Seq<char>,
    attribute: Seq<char>,
) -> bool {
    exists|i: int|
        0 <= i < events.len() && #[trigger] events[i].event_type == name && mentions(
            events[i].attributes,
            attribute,
        )
}

proof fn lemma_occurs_push(
    events: Seq<EventView>,
    event: EventView,
    name: Seq<char>,
    attribute: Seq<char>,
)
    ensures
        occurs(events.push(event), name) <==> occurs(events, name) || event.event_type == name,
        occurs_with(events.push(event), name, attribute) <==> occurs_with(events, name, attribute)
            || (event.event_type == name && mentions(event.attributes, attribute)),
{
    let more = events.push(event);
    assert(more[events.len() as int] == event);
    if occurs(events, name) {
        let i = choose|i: int| 0 <= i < events.len() && #[trigger] events[i].event_type == name;
        assert(more[i].event_type == name);
    }
    if occurs_with(events, name, attribute) {
        let i = choose|i: int|
            0 <= i < events.len() && #[trigger] events[i].event_type == name && mentions(
                events[i].attributes,
                attribute,
            );
        assert(more[i].event_type == name);
    }
    if occurs(more, name) && event.event_type != name {
        let i = choose|i: int| 0 <= i < more.len() && #[trigger] more[i].event_type == name;
        assert(events[i].event_type == name);
    }
    if occurs_with(more, name, attribute) && !(event.event_type == name && mentions(
        event.attributes,
        attribute,
    )) {
        let i = choose|i: int|
            0 <= i < more.len() && #[trigger] more[i].event_type == name && mentions(
                more[i].attributes,
                attribute,
            );
        assert(events[i].event_type == name);
    }
}

/// A schema that knows what occurs covers the events.
pub proof fn lemma_occurring_covers(schema: Schema, events: Seq<EventView>)
    requires
        forall|name: Seq<char>| occurs(events, name) ==> #[trigger] schema.contains_key(name),
        forall|name: Seq<char>, attribute: Seq<char>|
            occurs_with(events, name, attribute) ==> #[trigger] sealing::knows(
                schema,
                name,
                attribute,
            ),
    ensures
        sealing::covers_events(schema, events),
{
    assert forall|i: int| 0 <= i < events.len() implies schema.contains_key(
        (#[trigger] events[i]).event_type,
    ) by {
        assert(occurs(events, events[i].event_type));
    }
    assert forall|i: int, k: int|
        0 <= i < events.len() && 0 <= k < events[i].attributes.len() implies sealing::knows(
        schema,
        events[i].event_type,
        (#[trigger] events[i].attributes[k]).name,
    ) by {
        assert(mentions(events[i].attributes, events[i].attributes[k].name));
        assert(occurs_with(events, events[i].event_type, events[i].attributes[k].name));
    }
}

/// The schema of events knows exactly what occurs in them.
pub proof fn lemma_schema_of(events: Seq<EventView>)
    ensures
        forall|name: Seq<char>| #[trigger]
            staging::schema_of(events).contains_key(name) <==> occurs(events, name),
        forall|name: Seq<char>, attribute: Seq<char>| #[trigger]
            sealing::knows(staging::schema_of(events), name, attribute) <==> occurs_with(
                events,
                name,
                attribute,
            ),
        sealing::finite_schema(staging::schema_of(events)),
        sealing::covers_events(staging::schema_of(events), events),
    decreases events.len(),
{
    let schema = staging::schema_of(events);
    if events.len() > 0 {
        let front = events.drop_last();
        lemma_schema_of(front);
        lemma_noted(staging::schema_of(front), events.last());
        assert(front.push(events.last()) =~= events);
        assert forall|name: Seq<char>| #[trigger] schema.contains_key(name) <==> occurs(
            events,
            name,
        ) by {
            lemma_occurs_push(front, events.last(), name, name);
        }
        assert forall|name: Seq<char>, attribute: Seq<char>| #[trigger]
            sealing::knows(schema, name, attribute) <==> occurs_with(events, name, attribute) by {
            lemma_occurs_push(front, events.last(), name, attribute);
        }
    }
    lemma_occurring_covers(schema, events);
}

/// What staging events does.
pub proof fn lemma_with_events(s: StagingView, events: Seq<EventView>)
    ensures
        ({
            let after = s.with_events(events);
            &&& after.events == s.events + events
            &&& after.objects == s.objects
            &&& after.object_schema == s.object_schema
            &&& forall|name: Seq<char>| #[trigger]
                after.event_schema.contains_key(name) <==> s.event_schema.contains_key(name)
                    || occurs(events, name)
            &&& forall|name: Seq<char>, attribute: Seq<char>| #[trigger]
                sealing::knows(after.event_schema, name, attribute) <==> sealing::knows(
                    s.event_schema,
                    name,
                    attribute,
                ) || occurs_with(events, name, attribute)
            &&& sealing::finite_schema(s.event_schema) ==> sealing::finite_schema(after.event_schema)
        }),
    decreases events.len(),
{
    if events.len() == 0 {
        assert(s.events + events =~= s.events);
    } else {
        let front = events.drop_last();
        let before = s.with_events(front);
        let after = s.with_events(events);
        lemma_with_events(s, front);
        lemma_noted(before.event_schema, events.last());
        assert(front.push(events.last()) =~= events);
        assert((s.events + front).push(events.last()) =~= s.events + events);
        assert forall|name: Seq<char>| #[trigger] after.event_schema.contains_key(name)
            <==> s.event_schema.contains_key(name) || occurs(events, name) by {
            lemma_occurs_push(front, events.last(), name, name);
        }
        assert forall|name: Seq<char>, attribute: Seq<char>| #[trigger]
            sealing::knows(after.event_schema, name, attribute) <==> sealing::knows(
                s.event_schema,
                name,
                attribute,
            ) || occurs_with(events, name, attribute) by {
            lemma_occurs_push(front, events.last(), name, attribute);
        }
    }
}

/// What the declarations seed.
pub proof fn lemma_seeded(types: Seq<TypeView>)
    ensures
        forall|name: Seq<char>| #[trigger]
            staging::seeded(types).contains_key(name) <==> validity::declares(types, name),
        forall|name: Seq<char>, attribute: Seq<char>| #[trigger]
            sealing::knows(staging::seeded(types), name, attribute) <==> validity::declares_attribute(
                types,
                name,
                attribute,
            ),
        sealing::finite_schema(staging::seeded(types)),
    decreases types.len(),
{
    if types.len() > 0 {
        let front = types.drop_last();
        let last = types.last();
        let schema = staging::seeded(types);
        lemma_seeded(front);
        lemma_seeded_attributes(last.attributes);
        assert(types[types.len() - 1] == last);
        assert forall|name: Seq<char>| #[trigger] schema.contains_key(name) <==> validity::declares(
            types,
            name,
        ) by {
            if validity::declares(front, name) {
                let i = choose|i: int| 0 <= i < front.len() && #[trigger] front[i].name == name;
                assert(types[i].name == name);
            }
            if validity::declares(types, name) && last.name != name {
                let i = choose|i: int| 0 <= i < types.len() && #[trigger] types[i].name == name;
                assert(front[i].name == name);
            }
        }
        assert forall|name: Seq<char>, attribute: Seq<char>| #[trigger]
            sealing::knows(schema, name, attribute) <==> validity::declares_attribute(
                types,
                name,
                attribute,
            ) by {
            lemma_declares_attribute_push(front, last, name, attribute);
            assert(sealing::knows(staging::seeded(front), name, attribute)
                <==> validity::declares_attribute(front, name, attribute));
            assert(staging::seeded_attributes(last.attributes).contains_key(attribute) <==> defines(
                last.attributes,
                attribute,
            ));
            assert(front.push(last) =~= types);
        }
    }
}

proof fn lemma_seeded_attributes(definitions: Seq<DefinitionView>)
    ensures
        forall|name: Seq<char>| #[trigger]
            staging::seeded_attributes(definitions).contains_key(name) <==> defines(
                definitions,
                name,
            ),
        staging::seeded_attributes(definitions).dom().finite(),
    decreases definitions.len(),
{
    if definitions.len() > 0 {
        let front = definitions.drop_last();
        lemma_seeded_attributes(front);
        assert(definitions[definitions.len() - 1] == definitions.last());
        assert forall|name: Seq<char>| #[trigger]
            staging::seeded_attributes(definitions).contains_key(name) <==> defines(
                definitions,
                name,
            ) by {
            if defines(front, name) {
                let k = choose|k: int| 0 <= k < front.len() && #[trigger] front[k].name == name;
                assert(definitions[k].name == name);
            }
            if defines(definitions, name) && definitions.last().name != name {
                let k = choose|k: int|
                    0 <= k < definitions.len() && #[trigger] definitions[k].name == name;
                assert(front[k].name == name);
            }
        }
    }
}

/// Whether some definition is of this attribute.
spec fn defines(definitions: Seq<DefinitionView>, name: Seq<char>) -> bool {
    exists|k: int| 0 <= k < definitions.len() && #[trigger] definitions[k].name == name
}

proof fn lemma_declares_attribute_push(
    front: Seq<TypeView>,
    last: TypeView,
    name: Seq<char>,
    attribute: Seq<char>,
)
    ensures
        validity::declares_attribute(front.push(last), name, attribute) <==> if last.name == name {
            defines(last.attributes, attribute)
        } else {
            validity::declares_attribute(front, name, attribute)
        },
{
    let types = front.push(last);
    let n = front.len() as int;
    assert(types[n] == last);
    if validity::declares_attribute(types, name, attribute) {
        let (i, k) = choose|i: int, k: int|
            0 <= i < types.len() && types[i].name == name && (forall|j: int|
                i < j < types.len() ==> #[trigger] types[j].name != name) && 0 <= k
                < types[i].attributes.len() && #[trigger] types[i].attributes[k].name == attribute;
        if last.name == name {
            if i < n {
                assert(types[n].name != name);
            }
            assert(last.attributes[k].name == attribute);
        } else {
            assert(front[i].attributes[k].name == attribute);
            assert forall|j: int| i < j < front.len() implies #[trigger] front[j].name != name by {
                assert(types[j].name != name);
            }
        }
    }
    if last.name == name && defines(last.attributes, attribute) {
        let k = choose|k: int|
            0 <= k < last.attributes.len() && #[trigger] last.attributes[k].name == attribute;
        assert(types[n].attributes[k].name == attribute);
    }
    if last.name != name && validity::declares_attribute(front, name, attribute) {
        let (i, k) = choose|i: int, k: int|
            0 <= i < front.len() && front[i].name == name && (forall|j: int|
                i < j < front.len() ==> #[trigger] front[j].name != name) && 0 <= k
                < front[i].attributes.len() && #[trigger] front[i].attributes[k].name == attribute;
        assert(types[i].attributes[k].name == attribute);
        assert forall|j: int| i < j < types.len() implies #[trigger] types[j].name != name by {
            if j < n {
                assert(front[j].name != name);
            }
        }
    }
}

/// The place of the object of an id is the only one.
pub proof fn lemma_slot(objects: Seq<ObjectView>, id: Seq<char>, p: int)
    requires
        integrity::distinct_objects(objects),
        0 <= p < objects.len(),
        objects[p].id == id,
    ensures
        staging::with_slot(objects, id) == objects,
        staging::slot(objects, id) == objects[p],
        forall|i: int| 0 <= i < objects.len() && (#[trigger] objects[i]).id == id ==> i == p,
{
    assert(staging::staged(objects, id));
    let q = choose|q: int| 0 <= q < objects.len() && #[trigger] objects[q].id == id;
    if q < p {
        assert(objects[q].id != objects[p].id);
    } else if p < q {
        assert(objects[p].id != objects[q].id);
    }
    assert forall|i: int| 0 <= i < objects.len() && (#[trigger] objects[i]).id == id implies i
        == p by {
        if i < p {
            assert(objects[i].id != objects[p].id);
        } else if p < i {
            assert(objects[p].id != objects[i].id);
        }
    }
}

/// Extending the object of an id changes it alone.
pub proof fn lemma_extended_slot(
    objects: Seq<ObjectView>,
    id: Seq<char>,
    p: int,
    attributes: Seq<ObservationView>,
    relationships: Seq<RelationView>,
)
    requires
        integrity::distinct_objects(objects),
        0 <= p < objects.len(),
        objects[p].id == id,
    ensures
        staging::extended_slot(objects, id, attributes, relationships) == objects.update(
            p,
            ObjectView {
                attributes: objects[p].attributes + attributes,
                relationships: objects[p].relationships + relationships,
                ..objects[p]
            },
        ),
{
    lemma_slot(objects, id, p);
    assert(staging::extended_slot(objects, id, attributes, relationships) =~= objects.update(
        p,
        ObjectView {
            attributes: objects[p].attributes + attributes,
            relationships: objects[p].relationships + relationships,
            ..objects[p]
        },
    ));
}

/// An object that is not staged is appended.
pub proof fn lemma_new_slot(objects: Seq<ObjectView>, id: Seq<char>, object_type: Seq<char>)
    requires
        !staging::staged(objects, id),
    ensures
        staging::typed_slot(objects, id, object_type) == objects.push(
            ObjectView {
                id,
                object_type,
                attributes: Seq::empty(),
                relationships: Seq::empty(),
            },
        ),
{
    assert forall|i: int| 0 <= i < objects.len() implies (#[trigger] objects[i]).id != id by {}
    assert(staging::typed_slot(objects, id, object_type) =~= objects.push(
        ObjectView { id, object_type, attributes: Seq::empty(), relationships: Seq::empty() },
    ));
}

/// What staging observations of an object does.
pub proof fn lemma_with_observations(
    s: StagingView,
    id: Seq<char>,
    p: int,
    observations: Seq<ObservationView>,
)
    requires
        integrity::distinct_objects(s.objects),
        0 <= p < s.objects.len(),
        s.objects[p].id == id,
        s.object_schema.contains_key(s.objects[p].object_type),
    ensures
        ({
            let after = s.with_observations(id, observations);
            let of = s.objects[p].object_type;
            &&& after.events == s.events
            &&& after.event_schema == s.event_schema
            &&& after.objects == s.objects.update(
                p,
                ObjectView {
                    attributes: s.objects[p].attributes + observations,
                    ..s.objects[p]
                },
            )
            &&& forall|name: Seq<char>| #[trigger]
                after.object_schema.contains_key(name) <==> s.object_schema.contains_key(name)
            &&& forall|name: Seq<char>, attribute: Seq<char>| #[trigger]
                sealing::knows(after.object_schema, name, attribute) <==> sealing::knows(
                    s.object_schema,
                    name,
                    attribute,
                ) || (name == of && of.len() > 0 && sealing::observes(observations, attribute))
            &&& sealing::finite_schema(s.object_schema) ==> sealing::finite_schema(
                after.object_schema,
            )
        }),
    decreases observations.len(),
{
    let after = s.with_observations(id, observations);
    if observations.len() == 0 {
        assert(s.objects[p].attributes + observations =~= s.objects[p].attributes);
        assert(after.objects =~= s.objects.update(
            p,
            ObjectView { attributes: s.objects[p].attributes + observations, ..s.objects[p] },
        ));
    } else {
        let front = observations.drop_last();
        let last = observations.last();
        let before = s.with_observations(id, front);
        let of = s.objects[p].object_type;
        lemma_with_observations(s, id, p, front);
        assert(integrity::distinct_objects(before.objects)) by {
            assert forall|i: int, j: int| 0 <= i < j < before.objects.len() implies (
            #[trigger] before.objects[i]).id != (#[trigger] before.objects[j]).id by {
                assert(s.objects[i].id != s.objects[j].id);
            }
        }
        lemma_slot(before.objects, id, p);
        lemma_extended_slot(before.objects, id, p, seq![last], seq![]);
        assert(s.objects[p].attributes + front + seq![last] =~= s.objects[p].attributes
            + observations);
        assert(s.objects[p].relationships + seq![] =~= s.objects[p].relationships);
        assert(after.objects =~= s.objects.update(
            p,
            ObjectView { attributes: s.objects[p].attributes + observations, ..s.objects[p] },
        ));
        assert forall|attribute: Seq<char>|
            sealing::observes(observations, attribute) <==> sealing::observes(front, attribute)
                || last.name == attribute by {
            if sealing::observes(front, attribute) {
                let k = choose|k: int|
                    0 <= k < front.len() && #[trigger] front[k].name == attribute;
                assert(observations[k].name == attribute);
            }
            assert(observations[observations.len() - 1] == last);
            if sealing::observes(observations, attribute) && last.name != attribute {
                let k = choose|k: int|
                    0 <= k < observations.len() && #[trigger] observations[k].name == attribute;
                assert(front[k].name == attribute);
            }
        }
        assert forall|name: Seq<char>, attribute: Seq<char>| #[trigger]
            sealing::knows(after.object_schema, name, attribute) <==> sealing::knows(
                s.object_schema,
                name,
                attribute,
            ) || (name == of && of.len() > 0 && sealing::observes(observations, attribute)) by {
            assert(sealing::knows(before.object_schema, name, attribute) <==> sealing::knows(
                s.object_schema,
                name,
                attribute,
            ) || (name == of && of.len() > 0 && sealing::observes(front, attribute)));
        }
    }
}

/// What staging O2O relations of an object does.
pub proof fn lemma_with_o2os(
    s: StagingView,
    id: Seq<char>,
    p: int,
    relations: Seq<RelationView>,
)
    requires
        integrity::distinct_objects(s.objects),
        0 <= p < s.objects.len(),
        s.objects[p].id == id,
    ensures
        s.with_o2os(id, relations) == (StagingView {
            objects: s.objects.update(
                p,
                ObjectView {
                    relationships: s.objects[p].relationships + relations,
                    ..s.objects[p]
                },
            ),
            ..s
        }),
    decreases relations.len(),
{
    let after = s.with_o2os(id, relations);
    if relations.len() == 0 {
        assert(s.objects[p].relationships + relations =~= s.objects[p].relationships);
        assert(after.objects =~= s.objects.update(
            p,
            ObjectView { relationships: s.objects[p].relationships + relations, ..s.objects[p] },
        ));
    } else {
        let front = relations.drop_last();
        let last = relations.last();
        let before = s.with_o2os(id, front);
        lemma_with_o2os(s, id, p, front);
        assert(integrity::distinct_objects(before.objects)) by {
            assert forall|i: int, j: int| 0 <= i < j < before.objects.len() implies (
            #[trigger] before.objects[i]).id != (#[trigger] before.objects[j]).id by {
                assert(s.objects[i].id != s.objects[j].id);
            }
        }
        lemma_extended_slot(before.objects, id, p, seq![], seq![last]);
        assert(s.objects[p].relationships + front + seq![last] =~= s.objects[p].relationships
            + relations);
        assert(s.objects[p].attributes + seq![] =~= s.objects[p].attributes);
        assert(after.objects =~= s.objects.update(
            p,
            ObjectView { relationships: s.objects[p].relationships + relations, ..s.objects[p] },
        ));
    }
}

/// Whether some object is of this type.
pub open spec fn object_occurs(objects: Seq<ObjectView>, name: Seq<char>) -> bool {
    exists|i: int| 0 <= i < objects.len() && #[trigger] objects[i].object_type == name
}

/// Whether some object of this type has this attribute; a type without a name
/// does not count.
pub open spec fn object_occurs_with(
    objects: Seq<ObjectView>,
    name: Seq<char>,
    attribute: Seq<char>,
) -> bool {
    name.len() > 0 && exists|i: int|
        0 <= i < objects.len() && #[trigger] objects[i].object_type == name && sealing::observes(
            objects[i].attributes,
            attribute,
        )
}

proof fn lemma_object_occurs_push(
    objects: Seq<ObjectView>,
    object: ObjectView,
    name: Seq<char>,
    attribute: Seq<char>,
)
    ensures
        object_occurs(objects.push(object), name) <==> object_occurs(objects, name)
            || object.object_type == name,
        object_occurs_with(objects.push(object), name, attribute) <==> object_occurs_with(
            objects,
            name,
            attribute,
        ) || (object.object_type == name && name.len() > 0 && sealing::observes(
            object.attributes,
            attribute,
        )),
{
    let more = objects.push(object);
    assert(more[objects.len() as int] == object);
    if object_occurs(objects, name) {
        let i = choose|i: int| 0 <= i < objects.len() && #[trigger] objects[i].object_type == name;
        assert(more[i].object_type == name);
    }
    if object_occurs_with(objects, name, attribute) {
        let i = choose|i: int|
            0 <= i < objects.len() && #[trigger] objects[i].object_type == name && sealing::observes(
                objects[i].attributes,
                attribute,
            );
        assert(more[i].object_type == name);
    }
    if object_occurs(more, name) && object.object_type != name {
        let i = choose|i: int| 0 <= i < more.len() && #[trigger] more[i].object_type == name;
        assert(objects[i].object_type == name);
    }
    if object_occurs_with(more, name, attribute) && !(object.object_type == name
        && sealing::observes(object.attributes, attribute)) {
        let i = choose|i: int|
            0 <= i < more.len() && #[trigger] more[i].object_type == name && sealing::observes(
                more[i].attributes,
                attribute,
            );
        assert(objects[i].object_type == name);
    }
}

/// An object of a log that is not staged yet is appended as it is.
pub proof fn lemma_with_log_object(s: StagingView, object: ObjectView)
    requires
        integrity::distinct_objects(s.objects),
        !staging::staged(s.objects, object.id),
    ensures
        ({
            let after = s.with_log_object(object);
            &&& after.events == s.events
            &&& after.event_schema == s.event_schema
            &&& after.objects == s.objects.push(object)
            &&& forall|name: Seq<char>| #[trigger]
                after.object_schema.contains_key(name) <==> s.object_schema.contains_key(name)
                    || name == object.object_type
            &&& forall|name: Seq<char>, attribute: Seq<char>| #[trigger]
                sealing::knows(after.object_schema, name, attribute) <==> sealing::knows(
                    s.object_schema,
                    name,
                    attribute,
                ) || (object.object_type == name && name.len() > 0 && sealing::observes(
                    object.attributes,
                    attribute,
                ))
            &&& sealing::finite_schema(s.object_schema) ==> sealing::finite_schema(
                after.object_schema,
            )
        }),
{
    let id = object.id;
    let p = s.objects.len() as int;
    let typed = s.with_object(id, object.object_type);
    lemma_new_slot(s.objects, id, object.object_type);
    assert(integrity::distinct_objects(typed.objects)) by {
        assert forall|i: int, j: int| 0 <= i < j < typed.objects.len() implies (
        #[trigger] typed.objects[i]).id != (#[trigger] typed.objects[j]).id by {
            if j < p {
                assert(s.objects[i].id != s.objects[j].id);
            } else {
                assert(s.objects[i].id != id);
            }
        }
    }
    lemma_with_observations(typed, id, p, object.attributes);
    let observed = typed.with_observations(id, object.attributes);
    assert(integrity::distinct_objects(observed.objects)) by {
        assert forall|i: int, j: int| 0 <= i < j < observed.objects.len() implies (
        #[trigger] observed.objects[i]).id != (#[trigger] observed.objects[j]).id by {
            assert(typed.objects[i].id != typed.objects[j].id);
        }
    }
    lemma_with_o2os(observed, id, p, object.relationships);
    let after = s.with_log_object(object);
    assert(Seq::<ObservationView>::empty() + object.attributes =~= object.attributes);
    assert(Seq::<RelationView>::empty() + object.relationships =~= object.relationships);
    assert(after.objects =~= s.objects.push(object));
    assert forall|name: Seq<char>, attribute: Seq<char>|
        sealing::knows(typed.object_schema, name, attribute) <==> #[trigger] sealing::knows(
            s.object_schema,
            name,
            attribute,
        ) by {}
    assert forall|name: Seq<char>, attribute: Seq<char>| #[trigger]
        sealing::knows(after.object_schema, name, attribute) <==> sealing::knows(
            s.object_schema,
            name,
            attribute,
        ) || (object.object_type == name && name.len() > 0 && sealing::observes(
            object.attributes,
            attribute,
        )) by {
        assert(sealing::knows(observed.object_schema, name, attribute) <==> sealing::knows(
            typed.object_schema,
            name,
            attribute,
        ) || (name == object.object_type && object.object_type.len() > 0 && sealing::observes(
            object.attributes,
            attribute,
        )));
        assert(sealing::knows(typed.object_schema, name, attribute) <==> sealing::knows(
            s.object_schema,
            name,
            attribute,
        ));
    }
}

/// The objects of a log with distinct ids that are not staged yet are appended
/// as they are.
pub proof fn lemma_with_log_objects(s: StagingView, objects: Seq<ObjectView>)
    requires
        integrity::distinct_objects(s.objects + objects),
    ensures
        ({
            let after = s.with_log_objects(objects);
            &&& after.events == s.events
            &&& after.event_schema == s.event_schema
            &&& after.objects == s.objects + objects
            &&& forall|name: Seq<char>| #[trigger]
                after.object_schema.contains_key(name) <==> s.object_schema.contains_key(name)
                    || object_occurs(objects, name)
            &&& forall|name: Seq<char>, attribute: Seq<char>| #[trigger]
                sealing::knows(after.object_schema, name, attribute) <==> sealing::knows(
                    s.object_schema,
                    name,
                    attribute,
                ) || object_occurs_with(objects, name, attribute)
            &&& sealing::finite_schema(s.object_schema) ==> sealing::finite_schema(
                after.object_schema,
            )
        }),
    decreases objects.len(),
{
    if objects.len() == 0 {
        assert(s.objects + objects =~= s.objects);
    } else {
        let front = objects.drop_last();
        let last = objects.last();
        let all = s.objects + objects;
        let part = s.objects + front;
        assert(integrity::distinct_objects(part)) by {
            assert forall|i: int, j: int| 0 <= i < j < part.len() implies (#[trigger] part[i]).id
                != (#[trigger] part[j]).id by {
                assert(all[i].id != all[j].id);
            }
        }
        lemma_with_log_objects(s, front);
        let before = s.with_log_objects(front);
        assert(!staging::staged(before.objects, last.id)) by {
            if staging::staged(before.objects, last.id) {
                let i = choose|i: int|
                    0 <= i < before.objects.len() && #[trigger] before.objects[i].id == last.id;
                assert(all[i].id != all[all.len() - 1].id);
            }
        }
        lemma_with_log_object(before, last);
        let after = s.with_log_objects(objects);
        assert(part.push(last) =~= all);
        assert(front.push(last) =~= objects);
        assert forall|name: Seq<char>| #[trigger] after.object_schema.contains_key(name)
            <==> s.object_schema.contains_key(name) || object_occurs(objects, name) by {
            lemma_object_occurs_push(front, last, name, name);
            assert(before.object_schema.contains_key(name) <==> s.object_schema.contains_key(name)
                || object_occurs(front, name));
        }
        assert forall|name: Seq<char>, attribute: Seq<char>| #[trigger]
            sealing::knows(after.object_schema, name, attribute) <==> sealing::knows(
                s.object_schema,
                name,
                attribute,
            ) || object_occurs_with(objects, name, attribute) by {
            lemma_object_occurs_push(front, last, name, attribute);
            assert(sealing::knows(before.object_schema, name, attribute) <==> sealing::knows(
                s.object_schema,
                name,
                attribute,
            ) || object_occurs_with(front, name, attribute));
        }
    }
}

/// A log with distinct object ids is staged as it is, and the schemas know
/// what it declares and what occurs in it.
pub proof fn lemma_restaged(log: LogView)
    requires
        integrity::distinct_objects(log.objects),
    ensures
        ({
            let s = staging::restaged(log);
            &&& s.events == log.events
            &&& s.objects == log.objects
            &&& sealing::finite_schema(s.event_schema)
            &&& sealing::finite_schema(s.object_schema)
            &&& forall|name: Seq<char>| #[trigger]
                s.event_schema.contains_key(name) <==> validity::declares(log.event_types, name)
                    || occurs(log.events, name)
            &&& forall|name: Seq<char>, attribute: Seq<char>| #[trigger]
                sealing::knows(s.event_schema, name, attribute) <==> validity::declares_attribute(
                    log.event_types,
                    name,
                    attribute,
                ) || occurs_with(log.events, name, attribute)
            &&& forall|name: Seq<char>| #[trigger]
                s.object_schema.contains_key(name) <==> validity::declares(log.object_types, name)
                    || object_occurs(log.objects, name)
            &&& forall|name: Seq<char>, attribute: Seq<char>| #[trigger]
                sealing::knows(s.object_schema, name, attribute) <==> validity::declares_attribute(
                    log.object_types,
                    name,
                    attribute,
                ) || object_occurs_with(log.objects, name, attribute)
        }),
{
    let start = StagingView {
        events: Seq::<EventView>::empty(),
        objects: Seq::<ObjectView>::empty(),
        event_schema: staging::seeded(log.event_types),
        object_schema: staging::seeded(log.object_types),
    };
    lemma_seeded(log.event_types);
    lemma_seeded(log.object_types);
    assert(start.objects + log.objects =~= log.objects);
    lemma_with_log_objects(start, log.objects);
    let filled = start.with_log_objects(log.objects);
    lemma_with_events(filled, log.events);
    assert(filled.events + log.events =~= log.events);
}

/// Staging an object adds its id and no other.
proof fn lemma_slot_ids(objects: Seq<ObjectView>, id: Seq<char>, other: Seq<char>)
    ensures
        staging::staged(staging::with_slot(objects, id), other)
            <==> staging::staged(objects, other) || other == id,
{
    let after = staging::with_slot(objects, id);
    if staging::staged(objects, id) {
        let i = choose|i: int| 0 <= i < objects.len() && #[trigger] objects[i].id == id;
        assert(objects[i].id == id);
    } else {
        assert(after[objects.len() as int].id == id);
        if staging::staged(objects, other) {
            let i = choose|i: int| 0 <= i < objects.len() && #[trigger] objects[i].id == other;
            assert(after[i].id == other);
        }
        if staging::staged(after, other) && other != id {
            let i = choose|i: int| 0 <= i < after.len() && #[trigger] after[i].id == other;
            assert(objects[i].id == other);
        }
    }
}

/// Lists with the same ids at the same places have the same ids.
proof fn lemma_same_ids(a: Seq<ObjectView>, b: Seq<ObjectView>, id: Seq<char>)
    requires
        a.len() == b.len(),
        forall|i: int| 0 <= i < a.len() ==> (#[trigger] a[i]).id == b[i].id,
    ensures
        staging::staged(a, id) <==> staging::staged(b, id),
{
    if staging::staged(a, id) {
        let i = choose|i: int| 0 <= i < a.len() && #[trigger] a[i].id == id;
        assert(b[i].id == id);
    }
    if staging::staged(b, id) {
        let i = choose|i: int| 0 <= i < b.len() && #[trigger] b[i].id == id;
        assert(a[i].id == id);
    }
}

proof fn lemma_typed_ids(objects: Seq<ObjectView>, id: Seq<char>, of: Seq<char>, other: Seq<char>)
    ensures
        staging::staged(staging::typed_slot(objects, id, of), other)
            <==> staging::staged(objects, other) || other
            == id,
{
    lemma_slot_ids(objects, id, other);
    lemma_same_ids(
        staging::typed_slot(objects, id, of),
        staging::with_slot(objects, id),
        other,
    );
}

proof fn lemma_extended_ids(
    objects: Seq<ObjectView>,
    id: Seq<char>,
    attributes: Seq<ObservationView>,
    relationships: Seq<RelationView>,
    other: Seq<char>,
)
    ensures
        staging::staged(staging::extended_slot(objects, id, attributes, relationships), other)
            <==> staging::staged(
            objects,
            other,
        ) || other == id,
{
    lemma_slot_ids(objects, id, other);
    lemma_same_ids(
        staging::extended_slot(objects, id, attributes, relationships),
        staging::with_slot(objects, id),
        other,
    );
}

/// Staging the objects of a log adds their ids, and leaves the events alone.
pub proof fn lemma_staged_ids(s: StagingView, objects: Seq<ObjectView>)
    ensures
        s.with_log_objects(objects).events == s.events,
        s.with_log_objects(objects).event_schema == s.event_schema,
        forall|id: Seq<char>| #[trigger]
            staging::staged(s.with_log_objects(objects).objects, id)
                <==> staging::staged(s.objects, id) || staging::staged(
                objects,
                id,
            ),
    decreases objects.len(),
{
    if objects.len() > 0 {
        let front = objects.drop_last();
        let last = objects.last();
        let before = s.with_log_objects(front);
        let after = s.with_log_objects(objects);
        lemma_staged_ids(s, front);
        let typed = before.with_object(last.id, last.object_type);
        lemma_typed_ids(before.objects, last.id, last.object_type, last.id);
        lemma_observations_ids(typed, last.id, last.attributes);
        let observed = typed.with_observations(last.id, last.attributes);
        lemma_o2os_ids(observed, last.id, last.relationships);
        assert(objects[objects.len() - 1] == last);
        assert forall|id: Seq<char>| #[trigger] staging::staged(after.objects, id)
            <==> staging::staged(s.objects, id)
            || staging::staged(objects, id) by {
            lemma_typed_ids(before.objects, last.id, last.object_type, id);
            assert(staging::staged(before.objects, id)
                <==> staging::staged(s.objects, id) || staging::staged(front, id));
            assert(staging::staged(observed.objects, id)
                <==> staging::staged(typed.objects, id) || id == last.id);
            if staging::staged(front, id) {
                let i = choose|i: int| 0 <= i < front.len() && #[trigger] front[i].id == id;
                assert(objects[i].id == id);
            }
            if staging::staged(objects, id) && id != last.id {
                let i = choose|i: int| 0 <= i < objects.len() && #[trigger] objects[i].id == id;
                assert(front[i].id == id);
            }
        }
    }
}

proof fn lemma_observations_ids(s: StagingView, id: Seq<char>, observations: Seq<ObservationView>)
    requires
        staging::staged(s.objects, id),
    ensures
        s.with_observations(id, observations).events == s.events,
        s.with_observations(id, observations).event_schema == s.event_schema,
        forall|other: Seq<char>| #[trigger]
            staging::staged(s.with_observations(id, observations).objects, other)
                <==> staging::staged(
                s.objects,
                other,
            ) || other == id,
    decreases observations.len(),
{
    if observations.len() > 0 {
        let front = observations.drop_last();
        let before = s.with_observations(id, front);
        lemma_observations_ids(s, id, front);
        assert forall|other: Seq<char>| #[trigger]
            staging::staged(s.with_observations(id, observations).objects, other)
                <==> staging::staged(
                s.objects,
                other,
            ) || other == id by {
            lemma_extended_ids(before.objects, id, seq![observations.last()], seq![], other);
            assert(staging::staged(before.objects, other)
                <==> staging::staged(s.objects, other) || other == id);
        }
    }
}

proof fn lemma_o2os_ids(s: StagingView, id: Seq<char>, relations: Seq<RelationView>)
    requires
        staging::staged(s.objects, id),
    ensures
        s.with_o2os(id, relations).events == s.events,
        s.with_o2os(id, relations).event_schema == s.event_schema,
        forall|other: Seq<char>| #[trigger]
            staging::staged(s.with_o2os(id, relations).objects, other)
                <==> staging::staged(s.objects, other) || other
                == id,
    decreases relations.len(),
{
    if relations.len() > 0 {
        let front = relations.drop_last();
        let before = s.with_o2os(id, front);
        lemma_o2os_ids(s, id, front);
        assert forall|other: Seq<char>| #[trigger]
            staging::staged(s.with_o2os(id, relations).objects, other)
                <==> staging::staged(s.objects, other) || other
                == id by {
            lemma_extended_ids(before.objects, id, seq![], seq![relations.last()], other);
            assert(staging::staged(before.objects, other)
                <==> staging::staged(s.objects, other) || other == id);
        }
    }
}

/// A staged log has the events and the object ids of the log.
pub proof fn lemma_restaged_ids(log: LogView)
    ensures
        staging::restaged(log).events == log.events,
        forall|id: Seq<char>| #[trigger]
            staging::staged(staging::restaged(log).objects, id) <==> log.has_object(id),
{
    let start = StagingView {
        events: Seq::<EventView>::empty(),
        objects: Seq::<ObjectView>::empty(),
        event_schema: staging::seeded(log.event_types),
        object_schema: staging::seeded(log.object_types),
    };
    lemma_staged_ids(start, log.objects);
    let filled = start.with_log_objects(log.objects);
    lemma_with_events(filled, log.events);
    assert(filled.events + log.events =~= log.events);
    assert forall|id: Seq<char>| #[trigger] staging::staged(staging::restaged(log).objects, id)
        <==> log.has_object(id) by {
        assert(staging::staged(filled.objects, id)
            <==> staging::staged(start.objects, id) || staging::staged(log.objects, id));
    }
}

} // verus!
