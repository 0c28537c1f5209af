//! Why a transformation fails.

use vstd::prelude::*;
use vstd::string::StringExecFns;

use crate::text;
use crate::validity::Breach;
use crate::validity::BreachView;

verus! {

/// Why a transformation fails, in the model.
#[verifier::ext_equal]
pub enum ErrorView {
    BadRegex { step: int, message: Seq<char> },
    BadTime { step: int, value: Seq<char> },
    EmptyPredicate { step: int },
    ValueConditionWithoutAttr { step: int },
    UnionRead { step: int, path: Seq<char>, message: Seq<char> },
    UnionConflict { step: int, total: int, ids: Seq<Seq<char>> },
    ViaXorNotVia { step: int },
    EmptyLiftEventTypes { step: int },
    Invalid(Seq<BreachView>),
}

/// Why a transformation fails.
#[derive(Debug)]
pub enum TransformError {
    /// The pattern of a predicate is no regular expression.
    BadRegex { step: usize, message: String },
    /// A bound of a time window is neither RFC 3339 nor `YYYY-MM-DD`.
    BadTime { step: usize, value: String },
    /// A predicate without conditions would drop every event.
    EmptyPredicate { step: usize },
    /// A value condition needs an attribute.
    ValueConditionWithoutAttr { step: usize },
    /// The log to merge cannot be read.
    UnionRead { step: usize, path: String, message: String },
    /// Events of the two logs share an id but differ.
    UnionConflict { step: usize, total: usize, ids: Vec<String> },
    /// Exactly one of `via` and `notVia` must be set.
    ViaXorNotVia { step: usize },
    /// The list of event types to lift is empty.
    EmptyLiftEventTypes { step: usize },
    /// The transformed log breaches the rules of OCEL 2.0.
    Invalid(Vec<Breach>),
}

impl View for TransformError {
    type V = ErrorView;

    open spec fn view(&self) -> ErrorView {
        match self {
            TransformError::BadRegex { step, message } => ErrorView::BadRegex {
                step: *step as int,
                message: message@,
            },
            TransformError::BadTime { step, value } => ErrorView::BadTime {
                step: *step as int,
                value: value@,
            },
            TransformError::EmptyPredicate { step } => ErrorView::EmptyPredicate {
                step: *step as int,
            },
            TransformError::ValueConditionWithoutAttr {
                step,
            } => ErrorView::ValueConditionWithoutAttr { step: *step as int },
            TransformError::UnionRead { step, path, message } => ErrorView::UnionRead {
                step: *step as int,
                path: path@,
                message: message@,
            },
            TransformError::UnionConflict { step, total, ids } => ErrorView::UnionConflict {
                step: *step as int,
                total: *total as int,
                ids: ids.deep_view(),
            },
            TransformError::ViaXorNotVia { step } => ErrorView::ViaXorNotVia { step: *step as int },
            TransformError::EmptyLiftEventTypes { step } => ErrorView::EmptyLiftEventTypes {
                step: *step as int,
            },
            TransformError::Invalid(found) => ErrorView::Invalid(found.deep_view()),
        }
    }
}

impl DeepView for TransformError {
    type V = ErrorView;

    open spec fn deep_view(&self) -> ErrorView {
        self@
    }
}

/// A text in quotes, as `{:?}` writes it.
pub uninterp spec fn quoted_text(value: Seq<char>) -> Seq<char>;

/// Trusted: `{:?}` writes a text in quotes as a function of its characters.
#[verifier::external_body]
fn quoted(value: &String) -> (written: String)
    ensures
        written@ == quoted_text(value@),
{
    format!("{value:?}")
}

/// A breach with one text.
pub open spec fn shown_one(name: Seq<char>, value: Seq<char>) -> Seq<char> {
    name + "("@ + quoted_text(value) + ")"@
}

/// A breach with two texts and their names.
pub open spec fn shown_two(
    name: Seq<char>,
    first: Seq<char>,
    a: Seq<char>,
    second: Seq<char>,
    b: Seq<char>,
) -> Seq<char> {
    name + " { "@ + first + ": "@ + quoted_text(a) + ", "@ + second + ": "@ + quoted_text(b)
        + " }"@
}

impl BreachView {
    /// The breach in words: what it is, and the ids and names it is about.
    pub open spec fn shown(self) -> Seq<char> {
        match self {
            BreachView::DuplicateEventId(id) => shown_one("DuplicateEventId"@, id),
            BreachView::DuplicateObjectId(id) => shown_one("DuplicateObjectId"@, id),
            BreachView::UndeclaredEventType { event, event_type } => shown_two(
                "UndeclaredEventType"@,
                "event"@,
                event,
                "event_type"@,
                event_type,
            ),
            BreachView::UndeclaredObjectType { object, object_type } => shown_two(
                "UndeclaredObjectType"@,
                "object"@,
                object,
                "object_type"@,
                object_type,
            ),
            BreachView::UndeclaredEventAttribute { event, attribute } => shown_two(
                "UndeclaredEventAttribute"@,
                "event"@,
                event,
                "attribute"@,
                attribute,
            ),
            BreachView::UndeclaredObjectAttribute { object, attribute } => shown_two(
                "UndeclaredObjectAttribute"@,
                "object"@,
                object,
                "attribute"@,
                attribute,
            ),
            BreachView::DanglingE2O { event, object } => shown_two(
                "DanglingE2O"@,
                "event"@,
                event,
                "object"@,
                object,
            ),
            BreachView::DanglingO2O { source_id, target_id } => shown_two(
                "DanglingO2O"@,
                "source_id"@,
                source_id,
                "target_id"@,
                target_id,
            ),
        }
    }
}

fn show_one(name: &str, value: &String) -> (written: String)
    ensures
        written@ == shown_one(name@, value@),
{
    let mut written = String::new();
    written.append(name);
    written.append("(");
    written.append(quoted(value).as_str());
    written.append(")");
    assert(written@ =~= shown_one(name@, value@));
    written
}

fn show_two(name: &str, first: &str, a: &String, second: &str, b: &String) -> (written: String)
    ensures
        written@ == shown_two(name@, first@, a@, second@, b@),
{
    let mut written = String::new();
    written.append(name);
    written.append(" { ");
    written.append(first);
    written.append(": ");
    written.append(quoted(a).as_str());
    written.append(", ");
    written.append(second);
    written.append(": ");
    written.append(quoted(b).as_str());
    written.append(" }");
    assert(written@ =~= shown_two(name@, first@, a@, second@, b@));
    written
}

impl Breach {
    /// The breach in words: what it is, and the ids and names it is about.
    pub fn shown(&self) -> (written: String)
        ensures
            written@ == self@.shown(),
    {
        match self {
            Breach::DuplicateEventId(id) => show_one("DuplicateEventId", id),
            Breach::DuplicateObjectId(id) => show_one("DuplicateObjectId", id),
            Breach::UndeclaredEventType { event, event_type } => show_two(
                "UndeclaredEventType",
                "event",
                event,
                "event_type",
                event_type,
            ),
            Breach::UndeclaredObjectType { object, object_type } => show_two(
                "UndeclaredObjectType",
                "object",
                object,
                "object_type",
                object_type,
            ),
            Breach::UndeclaredEventAttribute { event, attribute } => show_two(
                "UndeclaredEventAttribute",
                "event",
                event,
                "attribute",
                attribute,
            ),
            Breach::UndeclaredObjectAttribute { object, attribute } => show_two(
                "UndeclaredObjectAttribute",
                "object",
                object,
                "attribute",
                attribute,
            ),
            Breach::DanglingE2O { event, object } => show_two(
                "DanglingE2O",
                "event",
                event,
                "object",
                object,
            ),
            Breach::DanglingO2O { source_id, target_id } => show_two(
                "DanglingO2O",
                "source_id",
                source_id,
                "target_id",
                target_id,
            ),
        }
    }
}

/// The items with a comma between them.
pub open spec fn joined(items: Seq<Seq<char>>) -> Seq<char>
    decreases items.len(),
{
    if items.len() == 0 {
        Seq::empty()
    } else if items.len() == 1 {
        items[0]
    } else {
        joined(items.drop_last()) + ", "@ + items.last()
    }
}

/// The items in brackets.
pub open spec fn listed(items: Seq<Seq<char>>) -> Seq<char> {
    "["@ + joined(items) + "]"@
}

fn list(items: &Vec<String>) -> (written: String)
    ensures
        written@ == listed(items.deep_view()),
{
    let mut inner = String::new();
    let mut i: usize = 0;
    while i < items.len()
        invariant
            i <= items.len(),
            inner@ == joined(items.deep_view().take(i as int)),
        decreases items.len() - i,
    {
        if i > 0 {
            inner.append(", ");
        }
        inner.append(items[i].as_str());
        proof {
            let all = items.deep_view();
            assert(all.take(i + 1).drop_last() =~= all.take(i as int));
            assert(all.take(i + 1).last() == items[i as int]@);
            if i == 0 {
                assert(inner@ =~= items[0]@);
            }
        }
        i += 1;
    }
    assert(items.deep_view().take(i as int) =~= items.deep_view());
    let mut written = String::new();
    written.append("[");
    written.append(inner.as_str());
    written.append("]");
    assert(written@ =~= listed(items.deep_view()));
    written
}

impl ErrorView {
    /// The message of the error, without the step it names.
    pub open spec fn detail(self) -> Seq<char> {
        match self {
            ErrorView::BadRegex { message, .. } => "invalid regex: "@ + message,
            ErrorView::BadTime { value, .. } => "invalid time bound "@ + quoted_text(value)
                + " (RFC 3339 or YYYY-MM-DD)"@,
            ErrorView::EmptyPredicate {
                ..
            } => "predicate has no conditions (it would drop every event)"@,
            ErrorView::ValueConditionWithoutAttr {
                ..
            } => "value conditions (equals/matches/min/max) require `attr`"@,
            ErrorView::UnionRead { path, message, .. } => "union: cannot read "@ + path + ": "@
                + message,
            ErrorView::UnionConflict { total, ids, .. } => "union: "@ + text::decimal(total)
                + " events share an id with the current log but differ (e.g. "@ + listed(
                ids.map_values(|id: Seq<char>| quoted_text(id)),
            ) + "); same-id events must be identical to merge"@,
            ErrorView::ViaXorNotVia {
                ..
            } => "keepRelatedTo requires exactly one of `via` / `notVia`"@,
            ErrorView::EmptyLiftEventTypes {
                ..
            } => "liftEvents requires a non-empty `eventTypes`"@,
            ErrorView::Invalid(found) => "the transformed log failed validation: "@ + listed(
                found.map_values(|breach: BreachView| breach.shown()),
            ),
        }
    }

    /// The step that fails, where one does.
    pub open spec fn failing_step(self) -> Option<int> {
        match self {
            ErrorView::BadRegex { step, .. } => Some(step),
            ErrorView::BadTime { step, .. } => Some(step),
            ErrorView::EmptyPredicate { step } => Some(step),
            ErrorView::ValueConditionWithoutAttr { step } => Some(step),
            ErrorView::UnionRead { step, .. } => Some(step),
            ErrorView::UnionConflict { step, .. } => Some(step),
            ErrorView::ViaXorNotVia { step } => Some(step),
            ErrorView::EmptyLiftEventTypes { step } => Some(step),
            ErrorView::Invalid(_) => None,
        }
    }

    /// The error with the step that it names moved on by `by` places.
    pub open spec fn moved(self, by: int) -> ErrorView {
        match self {
            ErrorView::BadRegex { step, message } => ErrorView::BadRegex {
                step: step + by,
                message,
            },
            ErrorView::BadTime { step, value } => ErrorView::BadTime { step: step + by, value },
            ErrorView::EmptyPredicate { step } => ErrorView::EmptyPredicate { step: step + by },
            ErrorView::ValueConditionWithoutAttr { step } => ErrorView::ValueConditionWithoutAttr {
                step: step + by,
            },
            ErrorView::UnionRead { step, path, message } => ErrorView::UnionRead {
                step: step + by,
                path,
                message,
            },
            ErrorView::UnionConflict { step, total, ids } => ErrorView::UnionConflict {
                step: step + by,
                total,
                ids,
            },
            ErrorView::ViaXorNotVia { step } => ErrorView::ViaXorNotVia { step: step + by },
            ErrorView::EmptyLiftEventTypes { step } => ErrorView::EmptyLiftEventTypes {
                step: step + by,
            },
            ErrorView::Invalid(found) => ErrorView::Invalid(found),
        }
    }

    /// The message of the error.
    pub open spec fn message(self) -> Seq<char> {
        match self.failing_step() {
            Some(step) => "step "@ + text::decimal(step) + ": "@ + self.detail(),
            None => self.detail(),
        }
    }
}

impl TransformError {
    fn detail(&self) -> (written: String)
        ensures
            written@ == self@.detail(),
    {
        let mut written = String::new();
        match self {
            TransformError::BadRegex { message, .. } => {
                written.append("invalid regex: ");
                written.append(message.as_str());
            },
            TransformError::BadTime { value, .. } => {
                written.append("invalid time bound ");
                written.append(quoted(value).as_str());
                written.append(" (RFC 3339 or YYYY-MM-DD)");
            },
            TransformError::EmptyPredicate { .. } => {
                written.append("predicate has no conditions (it would drop every event)");
            },
            TransformError::ValueConditionWithoutAttr { .. } => {
                written.append("value conditions (equals/matches/min/max) require `attr`");
            },
            TransformError::UnionRead { path, message, .. } => {
                written.append("union: cannot read ");
                written.append(path.as_str());
                written.append(": ");
                written.append(message.as_str());
            },
            TransformError::UnionConflict { total, ids, .. } => {
                let mut items: Vec<String> = Vec::new();
                let mut i: usize = 0;
                while i < ids.len()
                    invariant
                        i <= ids.len(),
                        items@.len() == i,
                        forall|k: int|
                            0 <= k < i ==> #[trigger] items@[k]@ == quoted_text(ids@[k]@),
                    decreases ids.len() - i,
                {
                    items.push(quoted(&ids[i]));
                    i += 1;
                }
                assert(items.deep_view() =~= ids.deep_view().map_values(
                    |id: Seq<char>| quoted_text(id),
                ));
                written.append("union: ");
                written.append(text::number(*total).as_str());
                written.append(" events share an id with the current log but differ (e.g. ");
                written.append(list(&items).as_str());
                written.append("); same-id events must be identical to merge");
            },
            TransformError::ViaXorNotVia { .. } => {
                written.append("keepRelatedTo requires exactly one of `via` / `notVia`");
            },
            TransformError::EmptyLiftEventTypes { .. } => {
                written.append("liftEvents requires a non-empty `eventTypes`");
            },
            TransformError::Invalid(found) => {
                let mut items: Vec<String> = Vec::new();
                let mut i: usize = 0;
                while i < found.len()
                    invariant
                        i <= found.len(),
                        items@.len() == i,
                        forall|k: int|
                            0 <= k < i ==> #[trigger] items@[k]@ == found@[k]@.shown(),
                    decreases found.len() - i,
                {
                    items.push(found[i].shown());
                    i += 1;
                }
                assert(items.deep_view() =~= found.deep_view().map_values(
                    |breach: BreachView| breach.shown(),
                ));
                written.append("the transformed log failed validation: ");
                written.append(list(&items).as_str());
            },
        }
        assert(written@ =~= self@.detail());
        written
    }

    /// The message of the error.
    pub fn message(&self) -> (written: String)
        ensures
            written@ == self@.message(),
    {
        let step: usize = match self {
            TransformError::BadRegex { step, .. } => *step,
            TransformError::BadTime { step, .. } => *step,
            TransformError::EmptyPredicate { step } => *step,
            TransformError::ValueConditionWithoutAttr { step } => *step,
            TransformError::UnionRead { step, .. } => *step,
            TransformError::UnionConflict { step, .. } => *step,
            TransformError::ViaXorNotVia { step } => *step,
            TransformError::EmptyLiftEventTypes { step } => *step,
            TransformError::Invalid(_) => {
                return self.detail();
            },
        };
        let mut written = String::new();
        written.append("step ");
        written.append(text::number(step).as_str());
        written.append(": ");
        written.append(self.detail().as_str());
        assert(written@ =~= self@.message());
        written
    }
}

/// What an error says is what is read of it: the step, and each text and number
/// under its own name.
pub proof fn law_errors_are_read_as_written(error: TransformError)
    ensures
        match error {
            TransformError::BadRegex { step, message } => error@ == (ErrorView::BadRegex {
                step: step as int,
                message: message@,
            }),
            TransformError::BadTime { step, value } => error@ == (ErrorView::BadTime {
                step: step as int,
                value: value@,
            }),
            TransformError::EmptyPredicate { step } => error@ == (ErrorView::EmptyPredicate {
                step: step as int,
            }),
            TransformError::ValueConditionWithoutAttr { step } => error@ == (
            ErrorView::ValueConditionWithoutAttr { step: step as int }),
            TransformError::UnionRead { step, path, message } => error@ == (ErrorView::UnionRead {
                step: step as int,
                path: path@,
                message: message@,
            }),
            TransformError::UnionConflict { step, total, ids } => error@ == (
            ErrorView::UnionConflict {
                step: step as int,
                total: total as int,
                ids: ids.deep_view(),
            }),
            TransformError::ViaXorNotVia { step } => error@ == (ErrorView::ViaXorNotVia {
                step: step as int,
            }),
            TransformError::EmptyLiftEventTypes { step } => error@ == (
            ErrorView::EmptyLiftEventTypes { step: step as int }),
            TransformError::Invalid(found) => error@ == ErrorView::Invalid(found.deep_view()),
        },
{
}

/// The messages tell what is at fault: the reason of a faulty pattern, the
/// bound that is no time, the file that cannot be read and why, how many events
/// conflict and which, and every breach.
pub proof fn law_messages_tell_the_fault(error: ErrorView)
    ensures
        match error {
            ErrorView::BadRegex { message, .. } => error.detail() == "invalid regex: "@ + message,
            ErrorView::BadTime { value, .. } => error.detail() == "invalid time bound "@
                + quoted_text(value) + " (RFC 3339 or YYYY-MM-DD)"@,
            ErrorView::UnionRead { path, message, .. } => error.detail() == "union: cannot read "@
                + path + ": "@ + message,
            ErrorView::UnionConflict { total, ids, .. } => exists|named: Seq<Seq<char>>|
                named.len() == ids.len() && (forall|i: int|
                    0 <= i < ids.len() ==> #[trigger] named[i] == quoted_text(ids[i]))
                    && error.detail() == "union: "@ + text::decimal(total)
                    + " events share an id with the current log but differ (e.g. "@
                    + #[trigger] listed(named)
                    + "); same-id events must be identical to merge"@,
            ErrorView::Invalid(found) => exists|named: Seq<Seq<char>>|
                named.len() == found.len() && (forall|i: int|
                    0 <= i < found.len() ==> #[trigger] named[i] == found[i].shown())
                    && error.detail() == "the transformed log failed validation: "@
                    + #[trigger] listed(named),
            ErrorView::EmptyPredicate {
                ..
            } => error.detail() == "predicate has no conditions (it would drop every event)"@,
            ErrorView::ValueConditionWithoutAttr {
                ..
            } => error.detail() == "value conditions (equals/matches/min/max) require `attr`"@,
            ErrorView::ViaXorNotVia {
                ..
            } => error.detail() == "keepRelatedTo requires exactly one of `via` / `notVia`"@,
            ErrorView::EmptyLiftEventTypes {
                ..
            } => error.detail() == "liftEvents requires a non-empty `eventTypes`"@,
        },
{
    match error {
        ErrorView::UnionConflict { total, ids, .. } => {
            let named = ids.map_values(|id: Seq<char>| quoted_text(id));
            assert(listed(named) == listed(named));
        },
        ErrorView::Invalid(found) => {
            let named = found.map_values(|breach: BreachView| breach.shown());
            assert(listed(named) == listed(named));
        },
        _ => {},
    }
}

/// A breach is shown by its name and by each id and name it is about.
pub proof fn law_breaches_are_shown(breach: BreachView)
    ensures
        match breach {
            BreachView::DuplicateEventId(id) => breach.shown() == "DuplicateEventId"@ + "("@
                + quoted_text(id) + ")"@,
            BreachView::DuplicateObjectId(id) => breach.shown() == "DuplicateObjectId"@ + "("@
                + quoted_text(id) + ")"@,
            BreachView::UndeclaredEventType { event, event_type } => breach.shown()
                == "UndeclaredEventType"@ + " { "@ + "event"@ + ": "@ + quoted_text(event) + ", "@
                + "event_type"@ + ": "@ + quoted_text(event_type) + " }"@,
            BreachView::UndeclaredObjectType { object, object_type } => breach.shown()
                == "UndeclaredObjectType"@ + " { "@ + "object"@ + ": "@ + quoted_text(object) + ", "@
                + "object_type"@ + ": "@ + quoted_text(object_type) + " }"@,
            BreachView::UndeclaredEventAttribute { event, attribute } => breach.shown()
                == "UndeclaredEventAttribute"@ + " { "@ + "event"@ + ": "@ + quoted_text(event) + ", "@
                + "attribute"@ + ": "@ + quoted_text(attribute) + " }"@,
            BreachView::UndeclaredObjectAttribute { object, attribute } => breach.shown()
                == "UndeclaredObjectAttribute"@ + " { "@ + "object"@ + ": "@ + quoted_text(object) + ", "@
                + "attribute"@ + ": "@ + quoted_text(attribute) + " }"@,
            BreachView::DanglingE2O { event, object } => breach.shown()
                == "DanglingE2O"@ + " { "@ + "event"@ + ": "@ + quoted_text(event) + ", "@
                + "object"@ + ": "@ + quoted_text(object) + " }"@,
            BreachView::DanglingO2O { source_id, target_id } => breach.shown()
                == "DanglingO2O"@ + " { "@ + "source_id"@ + ": "@ + quoted_text(source_id) + ", "@
                + "target_id"@ + ": "@ + quoted_text(target_id) + " }"@,
        },
{
}

} // verus!
