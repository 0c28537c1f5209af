//! The log as the `ocel` crate holds it.

use vstd::prelude::*;

use crate::model::AttributeDefinition;
use crate::model::Event;
use crate::model::EventAttribute;
use crate::model::EventView;
use crate::model::Log;
use crate::model::LogView;
use crate::model::Object;
use crate::model::ObjectAttribute;
use crate::model::ObjectView;
use crate::model::Relationship;
use crate::model::TypeDeclaration;
use crate::model::Value;
use crate::model::ValueType;
use crate::model::ValueView;
use crate::text;
use crate::time::Timestamp;

verus! {

/// A log as `ocel` holds it.
#[verifier::external_type_specification]
#[verifier::external_body]
pub struct ExOcel(ocel::Ocel);

/// The type of a value as `ocel` holds it.
#[verifier::external_type_specification]
#[verifier::external_body]
pub struct ExAttrType(ocel::AttrType);

/// What an `ocel::Ocel` holds.
pub uninterp spec fn log_contents(log: ocel::Ocel) -> LogView;

/// The text of a float or a time, as `ocel::AttrValue::to_text` writes it.
pub uninterp spec fn written_text(value: ValueView) -> Seq<char>;

/// The canonical text of a value: a text is its own, a flag is `true` or
/// `false`, and an integer is written in decimal.
pub open spec fn value_text(value: ValueView) -> Seq<char> {
    match value {
        ValueView::String(s) => s,
        ValueView::Boolean(b) => if b {
            "true"@
        } else {
            "false"@
        },
        ValueView::Integer(i) => text::decimal(i),
        ValueView::Float(_) => written_text(value),
        ValueView::Time(_) => written_text(value),
    }
}

/// A floating-point attribute value, carried as `ocel` holds it beside the
/// bits the steps compare.
#[derive(Debug)]
pub struct FloatValue {
    bits: u64,
    value: ocel::AttrValue,
}

impl FloatValue {
    /// The bits of the value.
    pub fn bits(&self) -> (bits: u64)
        ensures
            bits == self@,
    {
        self.bits
    }
}

impl View for FloatValue {
    type V = u64;

    closed spec fn view(&self) -> u64 {
        self.bits
    }
}

impl Clone for FloatValue {
    fn clone(&self) -> (copy: Self)
        ensures
            copy == *self,
    {
        FloatValue { bits: self.bits, value: self.value.clone() }
    }
}

impl Log {
    /// The log as `ocel` holds it.
    pub fn to_ocel(&self) -> (log: ocel::Ocel)
        ensures
            log_contents(log) == self@,
    {
        let log = declare_types(&self.event_types, &self.object_types);
        let log = put_events(log, &self.events);
        put_objects(log, &self.objects)
    }

    /// The log that `ocel` holds.
    pub fn from_ocel(log: &ocel::Ocel) -> (read: Log)
        ensures
            read@ == log_contents(*log),
    {
        let (event_types, object_types) = declared_types(log);
        Log { event_types, object_types, events: events_of(log), objects: objects_of(log) }
    }
}

impl Value {
    /// The canonical text of the value: a text is its own, a flag is `true` or
    /// `false`, and an integer is written in decimal.
    pub fn to_text(&self) -> (written: String)
        ensures
            written@ == value_text(self@),
    {
        write_value(self)
    }
}

/// The text of a value.
///
/// Trusted: `ocel::AttrValue::to_text` is a function of the value. A text is
/// its own text, a flag is `true` or `false`, and an integer is written in
/// decimal. How floats and times are written is left to the name.
#[verifier::external_body]
fn write_value(value: &Value) -> (written: String)
    ensures
        value@ is Float || value@ is Time ==> written@ == written_text(value@),
        value@ matches ValueView::String(s) ==> written@ == s,
        value@ matches ValueView::Boolean(b) ==> written@ == (if b {
            "true"@
        } else {
            "false"@
        }),
        value@ matches ValueView::Integer(i) ==> written@ == text::decimal(i),
{
    value_to_ocel(value).to_text()
}

/// A value as `ocel` holds it. A float is the value it was read from.
#[verifier::external_body]
pub(crate) fn value_to_ocel(value: &Value) -> ocel::AttrValue {
    match value {
        Value::Boolean(b) => ocel::AttrValue::Boolean(*b),
        Value::Integer(i) => ocel::AttrValue::Integer(*i),
        Value::Float(f) => f.value.clone(),
        Value::Time(t) => ocel::AttrValue::Time(t.to_chrono().and_utc()),
        Value::String(s) => ocel::AttrValue::String(s.clone()),
    }
}

/// The value that `ocel` holds.
#[verifier::external_body]
pub(crate) fn value_from_ocel(value: &ocel::AttrValue) -> Value {
    match value {
        ocel::AttrValue::Boolean(b) => Value::Boolean(*b),
        ocel::AttrValue::Integer(i) => Value::Integer(*i),
        ocel::AttrValue::Float(f) => {
            Value::Float(FloatValue { bits: f.to_bits(), value: value.clone() })
        },
        ocel::AttrValue::Time(t) => Value::Time(Timestamp::from_chrono(t.naive_utc())),
        ocel::AttrValue::String(s) => Value::String(s.clone()),
    }
}

/// A value type as `ocel` holds it.
#[verifier::external_body]
fn type_to_ocel(value_type: ValueType) -> ocel::AttrType {
    match value_type {
        ValueType::String => ocel::AttrType::String,
        ValueType::Integer => ocel::AttrType::Integer,
        ValueType::Float => ocel::AttrType::Float,
        ValueType::Boolean => ocel::AttrType::Boolean,
        ValueType::Time => ocel::AttrType::Time,
    }
}

/// The value type that `ocel` holds.
#[verifier::external_body]
fn type_from_ocel(value_type: ocel::AttrType) -> ValueType {
    match value_type {
        ocel::AttrType::String => ValueType::String,
        ocel::AttrType::Integer => ValueType::Integer,
        ocel::AttrType::Float => ValueType::Float,
        ocel::AttrType::Boolean => ValueType::Boolean,
        ocel::AttrType::Time => ValueType::Time,
    }
}

/// A log without events and objects that declares these types.
///
/// Trusted: an `ocel::Ocel` is the lists that its public fields hold; those of
/// its default are empty.
#[verifier::external_body]
fn declare_types(events: &Vec<TypeDeclaration>, objects: &Vec<TypeDeclaration>) -> (log: ocel::Ocel)
    ensures
        log_contents(log) == (LogView {
            event_types: events.deep_view(),
            object_types: objects.deep_view(),
            events: Seq::<EventView>::empty(),
            objects: Seq::<ObjectView>::empty(),
        }),
{
    let define = |a: &AttributeDefinition| ocel::AttributeDefinition {
        name: a.name.clone(),
        value_type: type_to_ocel(a.value_type),
    };
    ocel::Ocel {
        event_types: events.iter().map(
            |t| ocel::EventType {
                name: t.name.clone(),
                attributes: t.attributes.iter().map(define).collect(),
            }).collect(),
        object_types: objects.iter().map(|t| ocel::ObjectType {
            name: t.name.clone(), attributes: t.attributes.iter().map(define).collect() }).collect(),
        ..ocel::Ocel::default()
    }
}

/// The log with these events.
///
/// Trusted: the public field `events` of an `ocel::Ocel` is its list of events.
#[verifier::external_body]
fn put_events(log: ocel::Ocel, events: &Vec<Event>) -> (filled: ocel::Ocel)
    ensures
        log_contents(filled) == (LogView { events: events.deep_view(), ..log_contents(log) }),
{
    let events = events.iter().map(|e| ocel::Event {
        id: e.id.clone(),
        event_type: e.event_type.clone(),
        time: e.time.to_chrono().and_utc(),
        attributes: e.attributes.iter().map(|a| ocel::EventAttribute {
            name: a.name.clone(), value: value_to_ocel(&a.value) }).collect(),
        relationships: e.relationships.iter().map(|r| ocel::Relationship {
            object_id: r.object_id.clone(), qualifier: r.qualifier.clone() }).collect(),
    }).collect();
    ocel::Ocel { events, ..log }
}

/// The log with these objects.
///
/// Trusted: the public field `objects` of an `ocel::Ocel` is its list of
/// objects.
#[verifier::external_body]
fn put_objects(log: ocel::Ocel, objects: &Vec<Object>) -> (filled: ocel::Ocel)
    ensures
        log_contents(filled) == (LogView { objects: objects.deep_view(), ..log_contents(log) }),
{
    let objects = objects.iter().map(|o| ocel::Object {
        id: o.id.clone(),
        object_type: o.object_type.clone(),
        attributes: o.attributes.iter().map(|a| ocel::ObjectAttribute {
            name: a.name.clone(),
            value: value_to_ocel(&a.value),
            time: a.time.to_chrono().and_utc(),
        }).collect(),
        relationships: o.relationships.iter().map(|r| ocel::Relationship {
            object_id: r.object_id.clone(), qualifier: r.qualifier.clone() }).collect(),
    }).collect();
    ocel::Ocel { objects, ..log }
}

/// The event types and the object types that the log declares.
///
/// Trusted: they are its public fields `event_types` and `object_types`.
#[verifier::external_body]
fn declared_types(log: &ocel::Ocel) -> (types: (Vec<TypeDeclaration>, Vec<TypeDeclaration>))
    ensures
        types.0.deep_view() == log_contents(*log).event_types,
        types.1.deep_view() == log_contents(*log).object_types,
{
    let define = |a: &ocel::AttributeDefinition| AttributeDefinition {
        name: a.name.clone(),
        value_type: type_from_ocel(a.value_type),
    };
    let events = log.event_types.iter().map(|t| TypeDeclaration {
        name: t.name.clone(), attributes: t.attributes.iter().map(define).collect() }).collect();
    let objects = log.object_types.iter().map(|t| TypeDeclaration {
        name: t.name.clone(), attributes: t.attributes.iter().map(define).collect() }).collect();
    (events, objects)
}

/// The events of the log.
///
/// Trusted: they are its public field `events`.
#[verifier::external_body]
fn events_of(log: &ocel::Ocel) -> (events: Vec<Event>)
    ensures
        events.deep_view() == log_contents(*log).events,
{
    log.events.iter().map(|e| Event {
        id: e.id.clone(),
        event_type: e.event_type.clone(),
        time: Timestamp::from_chrono(e.time.naive_utc()),
        attributes: e.attributes.iter().map(|a| EventAttribute {
            name: a.name.clone(), value: value_from_ocel(&a.value) }).collect(),
        relationships: e.relationships.iter().map(|r| Relationship {
            object_id: r.object_id.clone(), qualifier: r.qualifier.clone() }).collect(),
    }).collect()
}

/// The objects of the log.
///
/// Trusted: they are its public field `objects`.
#[verifier::external_body]
fn objects_of(log: &ocel::Ocel) -> (objects: Vec<Object>)
    ensures
        objects.deep_view() == log_contents(*log).objects,
{
    log.objects.iter().map(|o| Object {
        id: o.id.clone(),
        object_type: o.object_type.clone(),
        attributes: o.attributes.iter().map(|a| ObjectAttribute {
            name: a.name.clone(),
            value: value_from_ocel(&a.value),
            time: Timestamp::from_chrono(a.time.naive_utc()),
        }).collect(),
        relationships: o.relationships.iter().map(|r| Relationship {
            object_id: r.object_id.clone(), qualifier: r.qualifier.clone() }).collect(),
    }).collect()
}

} // verus!
