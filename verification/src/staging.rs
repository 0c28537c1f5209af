//! Steps that rewrite the log through a staging log.
//!
//! `ocel_etl::StagingLog` takes events and objects in any order, learns the
//! types of their attributes, and is sealed into a log that is checked against
//! the rules. What it holds is modelled here by [`StagingView`].

use vstd::prelude::*;

use crate::convert;
use crate::filter::EventFilter;
use crate::filter::FilterView;
use crate::model::AttributeView;
use crate::model::DefinitionView;
use crate::model::Event;
use crate::model::EventAttribute;
use crate::model::EventView;
use crate::model::Log;
use crate::model::LogView;
use crate::model::ObjectAttribute;
use crate::model::ObjectView;
use crate::model::ObservationView;
use crate::model::RelationView;
use crate::model::Relationship;
use crate::model::TypeView;
use crate::model::ValueType;
use crate::model::ValueView;
use crate::names;
use crate::names::NameTable;
use crate::text;
use crate::time::Timestamp;
use crate::validity;
use crate::validity::Breach;

verus! {

/// A staging log as `ocel_etl` holds it.
#[verifier::external_type_specification]
#[verifier::external_body]
pub struct ExStagingLog(ocel_etl::StagingLog);

/// What a staging log holds.
pub uninterp spec fn staging_contents(staging: ocel_etl::StagingLog) -> StagingView;

/// The attributes of each type, with the type of their values.
pub type Schema = Map<Seq<char>, Map<Seq<char>, ValueType>>;

/// A staging log, in the model: the events and the objects in the order in
/// which they came, and the attributes observed of each type.
#[verifier::ext_equal]
pub struct StagingView {
    pub events: Seq<EventView>,
    pub objects: Seq<ObjectView>,
    pub event_schema: Schema,
    pub object_schema: Schema,
}

/// The attributes of a type, none where the type is unknown.
pub open spec fn entry(schema: Schema, name: Seq<char>) -> Map<Seq<char>, ValueType> {
    if schema.contains_key(name) {
        schema[name]
    } else {
        Map::empty()
    }
}

/// The attributes after one observation: the first decides the type, a
/// conflicting one makes it text.
pub open spec fn observed(
    attributes: Map<Seq<char>, ValueType>,
    name: Seq<char>,
    value: ValueView,
) -> Map<Seq<char>, ValueType> {
    if !attributes.contains_key(name) {
        attributes.insert(name, value.kind())
    } else if attributes[name] != value.kind() {
        attributes.insert(name, ValueType::String)
    } else {
        attributes
    }
}

/// The attributes after the observations of an event.
pub open spec fn observed_all(
    attributes: Map<Seq<char>, ValueType>,
    seen: Seq<AttributeView>,
) -> Map<Seq<char>, ValueType>
    decreases seen.len(),
{
    if seen.len() == 0 {
        attributes
    } else {
        observed(observed_all(attributes, seen.drop_last()), seen.last().name, seen.last().value)
    }
}

/// The schema after an event.
pub open spec fn noted(schema: Schema, event: EventView) -> Schema {
    schema.insert(
        event.event_type,
        observed_all(entry(schema, event.event_type), event.attributes),
    )
}

/// The schema that events give.
pub open spec fn schema_of(events: Seq<EventView>) -> Schema
    decreases events.len(),
{
    if events.len() == 0 {
        Map::empty()
    } else {
        noted(schema_of(events.drop_last()), events.last())
    }
}

/// The attributes that a declaration lists; the last of one name counts.
pub open spec fn seeded_attributes(definitions: Seq<DefinitionView>) -> Map<Seq<char>, ValueType>
    decreases definitions.len(),
{
    if definitions.len() == 0 {
        Map::empty()
    } else {
        seeded_attributes(definitions.drop_last()).insert(
            definitions.last().name,
            definitions.last().value_type,
        )
    }
}

/// The schema that declarations give; the last of one name counts.
pub open spec fn seeded(types: Seq<TypeView>) -> Schema
    decreases types.len(),
{
    if types.len() == 0 {
        Map::empty()
    } else {
        seeded(types.drop_last()).insert(
            types.last().name,
            seeded_attributes(types.last().attributes),
        )
    }
}

/// Whether an object of this id is staged.
pub open spec fn staged(objects: Seq<ObjectView>, id: Seq<char>) -> bool {
    exists|i: int| 0 <= i < objects.len() && #[trigger] objects[i].id == id
}

/// The objects with one of this id, which has no type until it is given one.
pub open spec fn with_slot(objects: Seq<ObjectView>, id: Seq<char>) -> Seq<ObjectView> {
    if staged(objects, id) {
        objects
    } else {
        objects.push(
            ObjectView {
                id,
                object_type: Seq::empty(),
                attributes: Seq::empty(),
                relationships: Seq::empty(),
            },
        )
    }
}

/// The object of this id in a list that has one.
pub open spec fn slot(objects: Seq<ObjectView>, id: Seq<char>) -> ObjectView {
    objects[choose|i: int| 0 <= i < objects.len() && #[trigger] objects[i].id == id]
}

/// The object with a type, unless it has one already.
pub open spec fn typed(object: ObjectView, object_type: Seq<char>) -> ObjectView {
    if object.object_type.len() == 0 {
        ObjectView { object_type, ..object }
    } else {
        object
    }
}

/// The objects with the one of this id typed.
pub open spec fn typed_slot(
    objects: Seq<ObjectView>,
    id: Seq<char>,
    object_type: Seq<char>,
) -> Seq<ObjectView> {
    with_slot(objects, id).map_values(
        |o: ObjectView|
            if o.id == id {
                typed(o, object_type)
            } else {
                o
            },
    )
}

/// The objects with more attributes and relationships on the one of this id.
pub open spec fn extended_slot(
    objects: Seq<ObjectView>,
    id: Seq<char>,
    attributes: Seq<ObservationView>,
    relationships: Seq<RelationView>,
) -> Seq<ObjectView> {
    with_slot(objects, id).map_values(
        |o: ObjectView|
            if o.id == id {
                ObjectView {
                    attributes: o.attributes + attributes,
                    relationships: o.relationships + relationships,
                    ..o
                }
            } else {
                o
            },
    )
}

/// The relationships with their targets resolved.
pub open spec fn resolved_relations(
    table: Map<Seq<char>, Seq<char>>,
    relationships: Seq<RelationView>,
) -> Seq<RelationView> {
    relationships.map_values(
        |r: RelationView|
            RelationView { object_id: names::resolved(table, r.object_id), ..r },
    )
}

/// The objects under their resolved ids: those that resolve to one id merge.
pub open spec fn rekeyed_objects(
    table: Map<Seq<char>, Seq<char>>,
    objects: Seq<ObjectView>,
) -> Seq<ObjectView>
    decreases objects.len(),
{
    if objects.len() == 0 {
        Seq::empty()
    } else {
        let o = objects.last();
        let id = names::resolved(table, o.id);
        extended_slot(
            typed_slot(rekeyed_objects(table, objects.drop_last()), id, o.object_type),
            id,
            o.attributes,
            resolved_relations(table, o.relationships),
        )
    }
}

impl StagingView {
    /// The staging log with one more event.
    pub open spec fn with_event(self, event: EventView) -> StagingView {
        StagingView {
            events: self.events.push(event),
            event_schema: noted(self.event_schema, event),
            ..self
        }
    }

    /// The staging log with an object of this id and type.
    pub open spec fn with_object(self, id: Seq<char>, object_type: Seq<char>) -> StagingView {
        StagingView {
            objects: typed_slot(self.objects, id, object_type),
            object_schema: self.object_schema.insert(
                object_type,
                entry(self.object_schema, object_type),
            ),
            ..self
        }
    }

    /// The staging log with one more observation of an object. While the
    /// object has no type, the schema does not learn from it.
    pub open spec fn with_observation(
        self,
        id: Seq<char>,
        observation: ObservationView,
    ) -> StagingView {
        let object_type = slot(with_slot(self.objects, id), id).object_type;
        StagingView {
            objects: extended_slot(self.objects, id, seq![observation], seq![]),
            object_schema: if object_type.len() == 0 {
                self.object_schema
            } else {
                self.object_schema.insert(
                    object_type,
                    observed(
                        entry(self.object_schema, object_type),
                        observation.name,
                        observation.value,
                    ),
                )
            },
            ..self
        }
    }

    /// The staging log with one more O2O relation.
    pub open spec fn with_o2o(self, id: Seq<char>, relation: RelationView) -> StagingView {
        StagingView { objects: extended_slot(self.objects, id, seq![], seq![relation]), ..self }
    }

    /// The staging log with observations of an object.
    pub open spec fn with_observations(
        self,
        id: Seq<char>,
        observations: Seq<ObservationView>,
    ) -> StagingView
        decreases observations.len(),
    {
        if observations.len() == 0 {
            self
        } else {
            self.with_observations(id, observations.drop_last()).with_observation(
                id,
                observations.last(),
            )
        }
    }

    /// The staging log with O2O relations of an object.
    pub open spec fn with_o2os(self, id: Seq<char>, relations: Seq<RelationView>) -> StagingView
        decreases relations.len(),
    {
        if relations.len() == 0 {
            self
        } else {
            self.with_o2os(id, relations.drop_last()).with_o2o(id, relations.last())
        }
    }

    /// The staging log with an object of a log: its type, then its attributes,
    /// then its relations.
    pub open spec fn with_log_object(self, object: ObjectView) -> StagingView {
        self.with_object(object.id, object.object_type).with_observations(
            object.id,
            object.attributes,
        ).with_o2os(object.id, object.relationships)
    }

    /// The staging log with the objects of a log.
    pub open spec fn with_log_objects(self, objects: Seq<ObjectView>) -> StagingView
        decreases objects.len(),
    {
        if objects.len() == 0 {
            self
        } else {
            self.with_log_objects(objects.drop_last()).with_log_object(objects.last())
        }
    }

    /// The staging log with events.
    pub open spec fn with_events(self, events: Seq<EventView>) -> StagingView
        decreases events.len(),
    {
        if events.len() == 0 {
            self
        } else {
            self.with_events(events.drop_last()).with_event(events.last())
        }
    }

    /// The staging log with the kept events alone; its event schema is that of
    /// those events.
    pub open spec fn retained(self, filter: FilterView) -> StagingView {
        let events = self.events.filter(|e: EventView| filter.keeps(e));
        StagingView { events, event_schema: schema_of(events), ..self }
    }

    /// The staging log with event types renamed; its event schema is that of
    /// the renamed events.
    pub open spec fn renamed(self, table: Map<Seq<char>, Seq<char>>) -> StagingView {
        let events = self.events.map_values(
            |e: EventView|
                EventView { event_type: names::resolved(table, e.event_type), ..e },
        );
        StagingView { events, event_schema: schema_of(events), ..self }
    }

    /// The staging log with every object id resolved; references follow.
    pub open spec fn rekeyed(self, table: Map<Seq<char>, Seq<char>>) -> StagingView {
        StagingView {
            objects: rekeyed_objects(table, self.objects),
            events: self.events.map_values(
                |e: EventView|
                    EventView {
                        relationships: resolved_relations(table, e.relationships),
                        ..e
                    },
            ),
            ..self
        }
    }
}

/// A log as it is staged: the schemas start from its declarations, then come
/// its objects, then its events.
pub open spec fn restaged(log: LogView) -> StagingView {
    (StagingView {
        events: Seq::empty(),
        objects: Seq::empty(),
        event_schema: seeded(log.event_types),
        object_schema: seeded(log.object_types),
    }).with_log_objects(log.objects).with_events(log.events)
}

/// A value in its declared type: text where it has another one.
pub open spec fn conformed(value: ValueView, declared: ValueType) -> ValueView {
    if value.kind() == declared {
        value
    } else {
        ValueView::String(convert::value_text(value))
    }
}

/// The type that an attribute of a type is declared with; its own where it is
/// not declared.
pub open spec fn declared_type(
    schema: Schema,
    of: Seq<char>,
    name: Seq<char>,
    value: ValueView,
) -> ValueType {
    if schema.contains_key(of) && schema[of].contains_key(name) {
        schema[of][name]
    } else {
        value.kind()
    }
}

/// An event with its values in their declared types.
pub open spec fn conformed_event(schema: Schema, event: EventView) -> EventView {
    EventView {
        attributes: event.attributes.map_values(
            |a: AttributeView|
                AttributeView {
                    name: a.name,
                    value: conformed(
                        a.value,
                        declared_type(schema, event.event_type, a.name, a.value),
                    ),
                },
        ),
        ..event
    }
}

/// The observations of an object with their values in their declared types.
pub open spec fn conformed_observations(schema: Schema, object: ObjectView) -> Seq<
    ObservationView,
> {
    object.attributes.map_values(
        |a: ObservationView|
            ObservationView {
                value: conformed(
                    a.value,
                    declared_type(schema, object.object_type, a.name, a.value),
                ),
                ..a
            },
    )
}

/// Whether two observations are one: the same name, text and time.
pub open spec fn same_observation(a: ObservationView, b: ObservationView) -> bool {
    a.name == b.name && convert::value_text(a.value) == convert::value_text(b.value) && a.time
        == b.time
}

/// The observations without those that an earlier one repeats.
pub open spec fn distinct_observations(list: Seq<ObservationView>) -> Seq<ObservationView>
    decreases list.len(),
{
    if list.len() == 0 {
        Seq::empty()
    } else {
        let earlier = distinct_observations(list.drop_last());
        if exists|i: int|
            0 <= i < list.len() - 1 && same_observation(#[trigger] list[i], list.last()) {
            earlier
        } else {
            earlier.push(list.last())
        }
    }
}

/// Whether one observation comes before another: by time, then by name.
pub open spec fn observation_precedes(a: ObservationView, b: ObservationView) -> bool {
    a.time.before(b.time) || (a.time == b.time && text::precedes(a.name, b.name))
}

/// A sorted list with one more observation, behind those that do not come
/// after it.
pub open spec fn placed_observation(
    sorted: Seq<ObservationView>,
    observation: ObservationView,
) -> Seq<ObservationView>
    decreases sorted.len(),
{
    if sorted.len() == 0 || !observation_precedes(observation, sorted.last()) {
        sorted.push(observation)
    } else {
        placed_observation(sorted.drop_last(), observation).push(sorted.last())
    }
}

/// The observations in order; those that neither precede each other stay as
/// they came.
pub open spec fn sorted_observations(list: Seq<ObservationView>) -> Seq<ObservationView>
    decreases list.len(),
{
    if list.len() == 0 {
        Seq::empty()
    } else {
        placed_observation(sorted_observations(list.drop_last()), list.last())
    }
}

/// Whether one relationship comes before another: by target, then by
/// qualifier.
pub open spec fn relation_precedes(a: RelationView, b: RelationView) -> bool {
    text::precedes(a.object_id, b.object_id) || (a.object_id == b.object_id && text::precedes(
        a.qualifier,
        b.qualifier,
    ))
}

/// A sorted list with one more relationship, unless it is there.
pub open spec fn placed_relation(sorted: Seq<RelationView>, relation: RelationView) -> Seq<
    RelationView,
>
    decreases sorted.len(),
{
    if sorted.len() == 0 || relation_precedes(sorted.last(), relation) {
        sorted.push(relation)
    } else if sorted.last() == relation {
        sorted
    } else {
        placed_relation(sorted.drop_last(), relation).push(sorted.last())
    }
}

/// The relationships in order, each once.
pub open spec fn sorted_relations(list: Seq<RelationView>) -> Seq<RelationView>
    decreases list.len(),
{
    if list.len() == 0 {
        Seq::empty()
    } else {
        placed_relation(sorted_relations(list.drop_last()), list.last())
    }
}

/// An object as it is sealed.
pub open spec fn sealed_object(schema: Schema, object: ObjectView) -> ObjectView {
    ObjectView {
        attributes: sorted_observations(
            distinct_observations(conformed_observations(schema, object)),
        ),
        relationships: sorted_relations(object.relationships),
        ..object
    }
}

/// The declaration of attributes, by name.
pub open spec fn definitions(attributes: Map<Seq<char>, ValueType>) -> Seq<DefinitionView> {
    text::in_order(attributes.dom()).map_values(
        |name: Seq<char>| DefinitionView { name, value_type: attributes[name] },
    )
}

/// The declarations of a schema, by name.
pub open spec fn declarations(schema: Schema) -> Seq<TypeView> {
    text::in_order(schema.dom()).map_values(
        |name: Seq<char>| TypeView { name, attributes: definitions(schema[name]) },
    )
}

impl StagingView {
    /// The log that the staging log builds.
    pub open spec fn sealed(self) -> LogView {
        LogView {
            event_types: declarations(self.event_schema),
            object_types: declarations(self.object_schema),
            events: self.events.map_values(
                |e: EventView| conformed_event(self.event_schema, e),
            ),
            objects: self.objects.map_values(
                |o: ObjectView| sealed_object(self.object_schema, o),
            ),
        }
    }
}

/// `StagingLog::from_ocel` seeds the schemas from the declarations of the log,
/// then adds its objects and its events.
pub assume_specification[ ocel_etl::StagingLog::from_ocel ](ocel: ocel::Ocel) -> (opened:
    ocel_etl::StagingLog)
    ensures
        staging_contents(opened) == restaged(convert::log_contents(ocel)),
;

/// Keep the events that the filter keeps.
///
/// Trusted: `StagingLog::retain_events` keeps, in order, the events for which
/// the predicate holds, and learns its event schema anew from them.
#[verifier::external_body]
fn retain_events(staging: &mut ocel_etl::StagingLog, filter: &EventFilter<'_>)
    ensures
        staging_contents(*final(staging)) == staging_contents(*old(staging)).retained(filter@),
{
    staging.retain_events(|e| filter.keeps(&Event {
        id: e.id.clone(),
        event_type: e.event_type.clone(),
        time: Timestamp::from_chrono(e.time.naive_utc()),
        attributes: e.attributes.iter().map(|(name, value)| EventAttribute {
            name: name.clone(), value: convert::value_from_ocel(value) }).collect(),
        relationships: e.relations.iter().map(|(object_id, qualifier)| Relationship {
            object_id: object_id.clone(), qualifier: qualifier.clone() }).collect(),
    }));
}

/// Rename the types of events.
///
/// Trusted: `StagingLog::map_events` rewrites every event in place, and learns
/// its event schema anew from them.
#[verifier::external_body]
fn rename_events(staging: &mut ocel_etl::StagingLog, table: &NameTable)
    ensures
        staging_contents(*final(staging)) == staging_contents(*old(staging)).renamed(table@),
{
    staging.map_events(|e| e.event_type = table.resolve(&e.event_type));
}

/// Resolve every object id.
///
/// Trusted: `StagingLog::map_object_ids` maps the id of every object and the
/// target of every relation. Objects that map to one id merge: their
/// attributes and relations are joined in order, and the first type that is
/// not empty stays. The schemas are left as they are.
#[verifier::external_body]
fn resolve_ids(staging: &mut ocel_etl::StagingLog, table: &NameTable)
    ensures
        staging_contents(*final(staging)) == staging_contents(*old(staging)).rekeyed(table@),
{
    staging.map_object_ids(|id| table.resolve(id));
}

/// Add an event.
///
/// Trusted: `StagingLog::add_event` appends the event, and the schema of its
/// type observes its attributes.
#[verifier::external_body]
pub(crate) fn add_event(staging: &mut ocel_etl::StagingLog, event: &Event)
    ensures
        staging_contents(*final(staging)) == staging_contents(*old(staging)).with_event(event@),
{
    staging.add_event(ocel_etl::StagingEvent {
        id: event.id.clone(),
        event_type: event.event_type.clone(),
        time: event.time.to_chrono().and_utc(),
        attributes: event.attributes.iter().map(
            |a| (a.name.clone(), convert::value_to_ocel(&a.value))).collect(),
        relations: event.relationships.iter().map(
            |r| (r.object_id.clone(), r.qualifier.clone())).collect(),
    });
}

/// Add an object of a type.
///
/// Trusted: `StagingLog::upsert_object` creates the object where it is
/// missing, gives it the type where it has none, and declares the type.
#[verifier::external_body]
pub(crate) fn upsert_object(staging: &mut ocel_etl::StagingLog, id: &String, object_type: &String)
    ensures
        staging_contents(*final(staging)) == staging_contents(*old(staging)).with_object(
            id@,
            object_type@,
        ),
{
    staging.upsert_object(id, object_type);
}

/// Add an observation of an object.
///
/// Trusted: `StagingLog::add_object_attribute` appends the observation to the
/// object, which it creates where it is missing; where the object has a type,
/// the schema of the type observes it.
#[verifier::external_body]
pub(crate) fn add_observation(
    staging: &mut ocel_etl::StagingLog,
    id: &String,
    attribute: &ObjectAttribute,
)
    ensures
        staging_contents(*final(staging)) == staging_contents(*old(staging)).with_observation(
            id@,
            attribute@,
        ),
{
    let value = convert::value_to_ocel(&attribute.value);
    staging.add_object_attribute(id, &attribute.name, value, attribute.time.to_chrono().and_utc());
}

/// Add an O2O relation of an object.
///
/// Trusted: `StagingLog::add_o2o` appends the relation to the object, which it
/// creates where it is missing.
#[verifier::external_body]
pub(crate) fn add_o2o(staging: &mut ocel_etl::StagingLog, id: &String, relation: &Relationship)
    ensures
        staging_contents(*final(staging)) == staging_contents(*old(staging)).with_o2o(
            id@,
            relation@,
        ),
{
    staging.add_o2o(id, &relation.object_id, &relation.qualifier);
}

/// Give the staged log back.
///
/// Trusted: `StagingLog::into_ocel` declares the schemas in the order of their
/// names, writes the values of attributes in their declared types, sorts the
/// observations and the relations of each object without repeats, and checks
/// the log so built; a log that breaches the rules is refused with its
/// violations.
#[verifier::external_body]
fn into_ocel(staging: ocel_etl::StagingLog) -> (outcome: Result<ocel::Ocel, Vec<Breach>>)
    ensures
        outcome is Ok <==> staging_contents(staging).sealed().valid(),
        outcome matches Ok(log) ==> convert::log_contents(log) == staging_contents(
            staging,
        ).sealed(),
        outcome matches Err(found) ==> found.deep_view() == validity::violations(
            staging_contents(staging).sealed(),
        ),
        outcome matches Err(found) ==> staging_contents(staging).sealed().commits_exactly(
            found.deep_view(),
        ),
{
    staging.into_ocel().map_err(
        |found| found.into_iter().map(validity::breach_from_ocel).collect(),
    )
}

impl LogView {
    /// The log with the kept events alone, sealed.
    pub open spec fn retaining(self, filter: FilterView) -> LogView {
        restaged(self).retained(filter).sealed()
    }

    /// The log with event types renamed, sealed.
    pub open spec fn renaming(self, table: Map<Seq<char>, Seq<char>>) -> LogView {
        restaged(self).renamed(table).sealed()
    }

    /// The log with object ids resolved, sealed.
    pub open spec fn resolving(self, table: Map<Seq<char>, Seq<char>>) -> LogView {
        restaged(self).rekeyed(table).sealed()
    }
}

/// The log with the kept events alone; none where it cannot be sealed.
pub fn retain(log: &Log, filter: &EventFilter<'_>) -> (kept: Option<Log>)
    ensures
        kept is Some <==> log@.retaining(filter@).valid(),
        kept matches Some(kept) ==> kept@ == log@.retaining(filter@),
{
    let mut staging = stage(log);
    retain_events(&mut staging, filter);
    seal(staging).ok()
}

/// The log with event types renamed; none where it cannot be sealed.
pub fn rename(log: &Log, table: &NameTable) -> (renamed: Option<Log>)
    ensures
        renamed is Some <==> log@.renaming(table@).valid(),
        renamed matches Some(renamed) ==> renamed@ == log@.renaming(table@),
{
    let mut staging = stage(log);
    rename_events(&mut staging, table);
    seal(staging).ok()
}

/// The log with object ids resolved; none where it cannot be sealed.
pub fn resolve(log: &Log, table: &NameTable) -> (resolved: Option<Log>)
    ensures
        resolved is Some <==> log@.resolving(table@).valid(),
        resolved matches Some(resolved) ==> resolved@ == log@.resolving(table@),
{
    let mut staging = stage(log);
    resolve_ids(&mut staging, table);
    seal(staging).ok()
}

/// Stage a log.
pub(crate) fn stage(log: &Log) -> (staging: ocel_etl::StagingLog)
    ensures
        staging_contents(staging) == restaged(log@),
{
    ocel_etl::StagingLog::from_ocel(log.to_ocel())
}

/// Seal a staging log: give the log back, if it is valid.
pub(crate) fn seal(staging: ocel_etl::StagingLog) -> (outcome: Result<Log, Vec<Breach>>)
    ensures
        outcome is Ok <==> staging_contents(staging).sealed().valid(),
        outcome matches Ok(log) ==> log@ == staging_contents(staging).sealed(),
        outcome matches Err(found) ==> found.deep_view() == validity::violations(
            staging_contents(staging).sealed(),
        ),
        outcome matches Err(found) ==> staging_contents(staging).sealed().commits_exactly(
            found.deep_view(),
        ),
{
    match into_ocel(staging) {
        Ok(log) => Ok(Log::from_ocel(&log)),
        Err(found) => Err(found),
    }
}

} // verus!
