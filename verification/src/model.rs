//! The event log: events and objects with their types, attributes and
//! relationships, and the mathematical model the contracts speak of.

use vstd::prelude::*;

pub use crate::convert::FloatValue;

use crate::time::TimeView;
use crate::time::Timestamp;

verus! {

/// A typed attribute value as `ocel` holds it.
#[verifier::external_type_specification]
#[verifier::external_body]
pub struct ExAttrValue(ocel::AttrValue);

/// `Clone` of `ocel::AttrValue` is derived: the clone is the value.
pub assume_specification[ <ocel::AttrValue as Clone>::clone ](value: &ocel::AttrValue) -> (copy:
    ocel::AttrValue)
    ensures
        copy == *value,
;

/// The type of an attribute value.
#[derive(Debug, Clone, Copy, PartialEq, Eq, Structural)]
pub enum ValueType {
    String,
    Integer,
    Float,
    Boolean,
    Time,
}

/// An attribute value in the model. A float stands by its bits.
#[verifier::ext_equal]
pub enum ValueView {
    Boolean(bool),
    Integer(int),
    Float(u64),
    Time(TimeView),
    String(Seq<char>),
}

#[verifier::ext_equal]
pub struct AttributeView {
    pub name: Seq<char>,
    pub value: ValueView,
}

#[verifier::ext_equal]
pub struct ObservationView {
    pub name: Seq<char>,
    pub value: ValueView,
    pub time: TimeView,
}

#[verifier::ext_equal]
pub struct RelationView {
    pub object_id: Seq<char>,
    pub qualifier: Seq<char>,
}

#[verifier::ext_equal]
pub struct EventView {
    pub id: Seq<char>,
    pub event_type: Seq<char>,
    pub time: TimeView,
    pub attributes: Seq<AttributeView>,
    pub relationships: Seq<RelationView>,
}

#[verifier::ext_equal]
pub struct ObjectView {
    pub id: Seq<char>,
    pub object_type: Seq<char>,
    pub attributes: Seq<ObservationView>,
    pub relationships: Seq<RelationView>,
}

#[verifier::ext_equal]
pub struct DefinitionView {
    pub name: Seq<char>,
    pub value_type: ValueType,
}

#[verifier::ext_equal]
pub struct TypeView {
    pub name: Seq<char>,
    pub attributes: Seq<DefinitionView>,
}

/// A log in the model.
#[verifier::ext_equal]
pub struct LogView {
    pub event_types: Seq<TypeView>,
    pub object_types: Seq<TypeView>,
    pub events: Seq<EventView>,
    pub objects: Seq<ObjectView>,
}

impl ValueView {
    /// The type of the value.
    pub open spec fn kind(self) -> ValueType {
        match self {
            ValueView::Boolean(_) => ValueType::Boolean,
            ValueView::Integer(_) => ValueType::Integer,
            ValueView::Float(_) => ValueType::Float,
            ValueView::Time(_) => ValueType::Time,
            ValueView::String(_) => ValueType::String,
        }
    }
}

impl LogView {
    /// Whether some object has this id.
    pub open spec fn has_object(self, id: Seq<char>) -> bool {
        exists|i: int| 0 <= i < self.objects.len() && #[trigger] self.objects[i].id == id
    }

    /// Whether some event has this id.
    pub open spec fn has_event(self, id: Seq<char>) -> bool {
        exists|i: int| 0 <= i < self.events.len() && #[trigger] self.events[i].id == id
    }

    /// Whether some object of this type has this id.
    pub open spec fn has_typed_object(self, id: Seq<char>, object_type: Seq<char>) -> bool {
        exists|i: int|
            0 <= i < self.objects.len() && #[trigger] self.objects[i].id == id
                && self.objects[i].object_type == object_type
    }

    /// Whether some object with id `source` has an O2O relation to `target`.
    pub open spec fn has_o2o(self, source: Seq<char>, target: Seq<char>) -> bool {
        exists|i: int, k: int|
            0 <= i < self.objects.len() && 0 <= k < self.objects[i].relationships.len()
                && self.objects[i].id == source
                && #[trigger] self.objects[i].relationships[k].object_id == target
    }
}

/// A typed attribute value.
#[derive(Debug)]
pub enum Value {
    Boolean(bool),
    Integer(i64),
    Float(FloatValue),
    Time(Timestamp),
    String(String),
}

impl View for Value {
    type V = ValueView;

    open spec fn view(&self) -> ValueView {
        match self {
            Value::Boolean(b) => ValueView::Boolean(*b),
            Value::Integer(i) => ValueView::Integer(*i as int),
            Value::Float(f) => ValueView::Float(f@),
            Value::Time(t) => ValueView::Time(t@),
            Value::String(s) => ValueView::String(s@),
        }
    }
}

impl DeepView for Value {
    type V = ValueView;

    open spec fn deep_view(&self) -> ValueView {
        self@
    }
}

impl Clone for Value {
    fn clone(&self) -> (copy: Self)
        ensures
            copy@ == self@,
    {
        match self {
            Value::Boolean(b) => Value::Boolean(*b),
            Value::Integer(i) => Value::Integer(*i),
            Value::Float(f) => Value::Float(f.clone()),
            Value::Time(t) => Value::Time(*t),
            Value::String(s) => Value::String(s.clone()),
        }
    }
}

/// A static event attribute.
#[derive(Debug)]
pub struct EventAttribute {
    pub name: String,
    pub value: Value,
}

impl View for EventAttribute {
    type V = AttributeView;

    open spec fn view(&self) -> AttributeView {
        AttributeView { name: self.name@, value: self.value@ }
    }
}

impl DeepView for EventAttribute {
    type V = AttributeView;

    open spec fn deep_view(&self) -> AttributeView {
        self@
    }
}

impl Clone for EventAttribute {
    fn clone(&self) -> (copy: Self)
        ensures
            copy@ == self@,
    {
        EventAttribute { name: self.name.clone(), value: self.value.clone() }
    }
}

/// An object attribute observed at a point in time.
#[derive(Debug)]
pub struct ObjectAttribute {
    pub name: String,
    pub value: Value,
    pub time: Timestamp,
}

impl View for ObjectAttribute {
    type V = ObservationView;

    open spec fn view(&self) -> ObservationView {
        ObservationView { name: self.name@, value: self.value@, time: self.time@ }
    }
}

impl DeepView for ObjectAttribute {
    type V = ObservationView;

    open spec fn deep_view(&self) -> ObservationView {
        self@
    }
}

impl Clone for ObjectAttribute {
    fn clone(&self) -> (copy: Self)
        ensures
            copy@ == self@,
    {
        ObjectAttribute { name: self.name.clone(), value: self.value.clone(), time: self.time }
    }
}

/// A qualified reference to an object: E2O on an event, O2O on an object.
#[derive(Debug)]
pub struct Relationship {
    pub object_id: String,
    pub qualifier: String,
}

impl View for Relationship {
    type V = RelationView;

    open spec fn view(&self) -> RelationView {
        RelationView { object_id: self.object_id@, qualifier: self.qualifier@ }
    }
}

impl DeepView for Relationship {
    type V = RelationView;

    open spec fn deep_view(&self) -> RelationView {
        self@
    }
}

impl Clone for Relationship {
    fn clone(&self) -> (copy: Self)
        ensures
            copy@ == self@,
    {
        Relationship { object_id: self.object_id.clone(), qualifier: self.qualifier.clone() }
    }
}

/// An event: a timestamped activity with its E2O relationships.
#[derive(Debug)]
pub struct Event {
    pub id: String,
    pub event_type: String,
    pub time: Timestamp,
    pub attributes: Vec<EventAttribute>,
    pub relationships: Vec<Relationship>,
}

impl View for Event {
    type V = EventView;

    open spec fn view(&self) -> EventView {
        EventView {
            id: self.id@,
            event_type: self.event_type@,
            time: self.time@,
            attributes: self.attributes.deep_view(),
            relationships: self.relationships.deep_view(),
        }
    }
}

impl DeepView for Event {
    type V = EventView;

    open spec fn deep_view(&self) -> EventView {
        self@
    }
}

impl Clone for Event {
    fn clone(&self) -> (copy: Self)
        ensures
            copy@ == self@,
    {
        let copy = Event {
            id: self.id.clone(),
            event_type: self.event_type.clone(),
            time: self.time,
            attributes: self.attributes.clone(),
            relationships: self.relationships.clone(),
        };
        assert(copy.attributes.deep_view() =~= self.attributes.deep_view());
        assert(copy.relationships.deep_view() =~= self.relationships.deep_view());
        copy
    }
}

/// An object: a process entity with observed attributes and O2O relationships.
#[derive(Debug)]
pub struct Object {
    pub id: String,
    pub object_type: String,
    pub attributes: Vec<ObjectAttribute>,
    pub relationships: Vec<Relationship>,
}

impl View for Object {
    type V = ObjectView;

    open spec fn view(&self) -> ObjectView {
        ObjectView {
            id: self.id@,
            object_type: self.object_type@,
            attributes: self.attributes.deep_view(),
            relationships: self.relationships.deep_view(),
        }
    }
}

impl DeepView for Object {
    type V = ObjectView;

    open spec fn deep_view(&self) -> ObjectView {
        self@
    }
}

impl Clone for Object {
    fn clone(&self) -> (copy: Self)
        ensures
            copy@ == self@,
    {
        let copy = Object {
            id: self.id.clone(),
            object_type: self.object_type.clone(),
            attributes: self.attributes.clone(),
            relationships: self.relationships.clone(),
        };
        assert(copy.attributes.deep_view() =~= self.attributes.deep_view());
        assert(copy.relationships.deep_view() =~= self.relationships.deep_view());
        copy
    }
}

/// The declaration of an attribute of an event or object type.
#[derive(Debug)]
pub struct AttributeDefinition {
    pub name: String,
    pub value_type: ValueType,
}

impl View for AttributeDefinition {
    type V = DefinitionView;

    open spec fn view(&self) -> DefinitionView {
        DefinitionView { name: self.name@, value_type: self.value_type }
    }
}

impl DeepView for AttributeDefinition {
    type V = DefinitionView;

    open spec fn deep_view(&self) -> DefinitionView {
        self@
    }
}

impl Clone for AttributeDefinition {
    fn clone(&self) -> (copy: Self)
        ensures
            copy@ == self@,
    {
        AttributeDefinition { name: self.name.clone(), value_type: self.value_type }
    }
}

/// The declaration of an event or object type.
#[derive(Debug)]
pub struct TypeDeclaration {
    pub name: String,
    pub attributes: Vec<AttributeDefinition>,
}

impl View for TypeDeclaration {
    type V = TypeView;

    open spec fn view(&self) -> TypeView {
        TypeView { name: self.name@, attributes: self.attributes.deep_view() }
    }
}

impl DeepView for TypeDeclaration {
    type V = TypeView;

    open spec fn deep_view(&self) -> TypeView {
        self@
    }
}

impl Clone for TypeDeclaration {
    fn clone(&self) -> (copy: Self)
        ensures
            copy@ == self@,
    {
        let copy = TypeDeclaration {
            name: self.name.clone(),
            attributes: self.attributes.clone(),
        };
        assert(copy.attributes.deep_view() =~= self.attributes.deep_view());
        copy
    }
}

/// An OCEL 2.0 event log.
#[derive(Debug)]
pub struct Log {
    pub event_types: Vec<TypeDeclaration>,
    pub object_types: Vec<TypeDeclaration>,
    pub events: Vec<Event>,
    pub objects: Vec<Object>,
}

impl View for Log {
    type V = LogView;

    open spec fn view(&self) -> LogView {
        LogView {
            event_types: self.event_types.deep_view(),
            object_types: self.object_types.deep_view(),
            events: self.events.deep_view(),
            objects: self.objects.deep_view(),
        }
    }
}

impl DeepView for Log {
    type V = LogView;

    open spec fn deep_view(&self) -> LogView {
        self@
    }
}

impl Clone for Log {
    fn clone(&self) -> (copy: Self)
        ensures
            copy@ == self@,
    {
        let copy = Log {
            event_types: self.event_types.clone(),
            object_types: self.object_types.clone(),
            events: self.events.clone(),
            objects: self.objects.clone(),
        };
        assert(copy.event_types.deep_view() =~= self.event_types.deep_view());
        assert(copy.object_types.deep_view() =~= self.object_types.deep_view());
        assert(copy.events.deep_view() =~= self.events.deep_view());
        assert(copy.objects.deep_view() =~= self.objects.deep_view());
        copy
    }
}

} // verus!
