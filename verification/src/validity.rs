//! When a log conforms to OCEL 2.0.

use vstd::prelude::*;

use crate::convert;
use crate::model::Log;
use crate::model::LogView;
use crate::model::TypeView;

verus! {

/// A conformance violation as `ocel` reports it.
#[verifier::external_type_specification]
#[verifier::external_body]
pub struct ExViolation(ocel::Violation);

/// One way in which a log breaches the rules, in the model.
#[verifier::ext_equal]
pub enum BreachView {
    DuplicateEventId(Seq<char>),
    DuplicateObjectId(Seq<char>),
    UndeclaredEventType { event: Seq<char>, event_type: Seq<char> },
    UndeclaredObjectType { object: Seq<char>, object_type: Seq<char> },
    UndeclaredEventAttribute { event: Seq<char>, attribute: Seq<char> },
    UndeclaredObjectAttribute { object: Seq<char>, attribute: Seq<char> },
    DanglingE2O { event: Seq<char>, object: Seq<char> },
    DanglingO2O { source_id: Seq<char>, target_id: Seq<char> },
}

/// One way in which a log breaches the rules of OCEL 2.0.
#[derive(Debug, PartialEq, Eq)]
pub enum Breach {
    DuplicateEventId(String),
    DuplicateObjectId(String),
    UndeclaredEventType { event: String, event_type: String },
    UndeclaredObjectType { object: String, object_type: String },
    UndeclaredEventAttribute { event: String, attribute: String },
    UndeclaredObjectAttribute { object: String, attribute: String },
    DanglingE2O { event: String, object: String },
    DanglingO2O { source_id: String, target_id: String },
}

impl View for Breach {
    type V = BreachView;

    open spec fn view(&self) -> BreachView {
        match self {
            Breach::DuplicateEventId(id) => BreachView::DuplicateEventId(id@),
            Breach::DuplicateObjectId(id) => BreachView::DuplicateObjectId(id@),
            Breach::UndeclaredEventType { event, event_type } => BreachView::UndeclaredEventType {
                event: event@,
                event_type: event_type@,
            },
            Breach::UndeclaredObjectType {
                object,
                object_type,
            } => BreachView::UndeclaredObjectType { object: object@, object_type: object_type@ },
            Breach::UndeclaredEventAttribute {
                event,
                attribute,
            } => BreachView::UndeclaredEventAttribute { event: event@, attribute: attribute@ },
            Breach::UndeclaredObjectAttribute {
                object,
                attribute,
            } => BreachView::UndeclaredObjectAttribute { object: object@, attribute: attribute@ },
            Breach::DanglingE2O { event, object } => BreachView::DanglingE2O {
                event: event@,
                object: object@,
            },
            Breach::DanglingO2O { source_id, target_id } => BreachView::DanglingO2O {
                source_id: source_id@,
                target_id: target_id@,
            },
        }
    }
}

impl DeepView for Breach {
    type V = BreachView;

    open spec fn deep_view(&self) -> BreachView {
        self@
    }
}

/// Whether `types` declares a type of this name.
pub open spec fn declares(types: Seq<TypeView>, name: Seq<char>) -> bool {
    exists|i: int| 0 <= i < types.len() && #[trigger] types[i].name == name
}

/// Whether the declaration of the type `name` lists this attribute. Of several
/// declarations of one name the last counts.
pub open spec fn declares_attribute(
    types: Seq<TypeView>,
    name: Seq<char>,
    attribute: Seq<char>,
) -> bool {
    exists|i: int, k: int|
        0 <= i < types.len() && types[i].name == name && (forall|j: int|
            i < j < types.len() ==> #[trigger] types[j].name != name) && 0 <= k
            < types[i].attributes.len() && #[trigger] types[i].attributes[k].name == attribute
}

impl LogView {
    /// Whether `breach` is one that this log commits.
    pub open spec fn commits(self, breach: BreachView) -> bool {
        match breach {
            BreachView::DuplicateEventId(id) => exists|i: int, j: int|
                0 <= i < j < self.events.len() && #[trigger] self.events[i].id == id
                    && #[trigger] self.events[j].id == id,
            BreachView::DuplicateObjectId(id) => exists|i: int, j: int|
                0 <= i < j < self.objects.len() && #[trigger] self.objects[i].id == id
                    && #[trigger] self.objects[j].id == id,
            BreachView::UndeclaredEventType { event, event_type } => !declares(
                self.event_types,
                event_type,
            ) && exists|i: int|
                0 <= i < self.events.len() && #[trigger] self.events[i].id == event
                    && self.events[i].event_type == event_type,
            BreachView::UndeclaredObjectType { object, object_type } => !declares(
                self.object_types,
                object_type,
            ) && self.has_typed_object(object, object_type),
            BreachView::UndeclaredEventAttribute { event, attribute } => exists|i: int, k: int|
                0 <= i < self.events.len() && 0 <= k < self.events[i].attributes.len()
                    && self.events[i].id == event
                    && #[trigger] self.events[i].attributes[k].name == attribute
                    && declares(self.event_types, self.events[i].event_type)
                    && !declares_attribute(
                    self.event_types,
                    self.events[i].event_type,
                    attribute,
                ),
            BreachView::UndeclaredObjectAttribute { object, attribute } => exists|i: int, k: int|
                0 <= i < self.objects.len() && 0 <= k < self.objects[i].attributes.len()
                    && self.objects[i].id == object
                    && #[trigger] self.objects[i].attributes[k].name == attribute
                    && declares(self.object_types, self.objects[i].object_type)
                    && !declares_attribute(
                    self.object_types,
                    self.objects[i].object_type,
                    attribute,
                ),
            BreachView::DanglingE2O { event, object } => !self.has_object(object) && exists|
                i: int,
                k: int,
            |
                0 <= i < self.events.len() && 0 <= k < self.events[i].relationships.len()
                    && self.events[i].id == event
                    && #[trigger] self.events[i].relationships[k].object_id == object,
            BreachView::DanglingO2O { source_id, target_id } => !self.has_object(target_id)
                && self.has_o2o(source_id, target_id),
        }
    }

    /// Whether the breaches are those that this log commits.
    pub open spec fn commits_exactly(self, found: Seq<BreachView>) -> bool {
        forall|b: BreachView| #[trigger] found.contains(b) <==> self.commits(b)
    }

    /// Whether the log commits no breach.
    pub open spec fn valid(self) -> bool {
        forall|breach: BreachView| !#[trigger] self.commits(breach)
    }
}

/// The violations of a log, in the order in which `ocel` reports them.
pub uninterp spec fn violations(log: LogView) -> Seq<BreachView>;

/// A violation that `ocel` reports.
#[verifier::external_body]
pub(crate) fn breach_from_ocel(violation: ocel::Violation) -> Breach {
    match violation {
        ocel::Violation::DuplicateEventId(id) => Breach::DuplicateEventId(id),
        ocel::Violation::DuplicateObjectId(id) => Breach::DuplicateObjectId(id),
        ocel::Violation::UndeclaredEventType { event, event_type } => Breach::UndeclaredEventType { event, event_type },
        ocel::Violation::UndeclaredObjectType { object, object_type } => Breach::UndeclaredObjectType { object, object_type },
        ocel::Violation::UndeclaredEventAttribute { event, attribute } => Breach::UndeclaredEventAttribute { event, attribute },
        ocel::Violation::UndeclaredObjectAttribute { object, attribute } => Breach::UndeclaredObjectAttribute { object, attribute },
        ocel::Violation::DanglingE2O { event, object } => Breach::DanglingE2O { event, object },
        ocel::Violation::DanglingO2O { source_id, target_id } => Breach::DanglingO2O { source_id, target_id },
    }
}

/// Check a log against the rules.
///
/// Trusted: `ocel::Ocel::validate` reports every breach that the log commits
/// and no other, and succeeds when there is none. The order of the report is a
/// function of the log.
#[verifier::external_body]
fn check(log: &ocel::Ocel) -> (outcome: Result<(), Vec<Breach>>)
    ensures
        outcome is Ok <==> convert::log_contents(*log).valid(),
        outcome matches Err(found) ==> found.deep_view() == violations(convert::log_contents(*log)),
        outcome matches Err(found) ==> convert::log_contents(*log).commits_exactly(
            found.deep_view(),
        ),
{
    log.validate().map_err(|found| found.into_iter().map(breach_from_ocel).collect())
}

impl Log {
    /// Check the log against the rules of OCEL 2.0; every breach is reported.
    pub fn validate(&self) -> (outcome: Result<(), Vec<Breach>>)
        ensures
            outcome is Ok <==> self@.valid(),
            outcome matches Err(found) ==> found.deep_view() == violations(self@),
            outcome matches Err(found) ==> self@.commits_exactly(found.deep_view()),
    {
        check(&self.to_ocel())
    }
}

} // verus!
