//! What the steps on events do, told of the events themselves.

use vstd::prelude::*;

use crate::convert;
use crate::double;
use crate::effects;
use crate::error::ErrorView;
use crate::filter::FilterView;
use crate::matcher;
use crate::merge::InputView;
use crate::model::AttributeView;
use crate::model::EventView;
use crate::model::LogView;
use crate::model::ValueView;
use crate::object_effects;
use crate::recipe::PredicateView;
use crate::recipe::StepView;
use crate::recipe::WindowView;
use crate::restaging;
use crate::sealing;
use crate::staging;
use crate::terms;
use crate::typing;
use crate::validity;
use crate::window;

verus! {

/// The type of an event.
pub open spec fn own_type() -> spec_fn(EventView) -> Seq<char> {
    |e: EventView| e.event_type
}

/// Whether exactly the events of `before` that stay are left in `after`, in
/// their order, each as it was.
pub open spec fn events_stay(
    before: LogView,
    after: LogView,
    stays: spec_fn(EventView) -> bool,
) -> bool {
    terms::thinned(
        before.events,
        after.events,
        stays,
        |old: EventView, new: EventView|
            terms::event_stays(before.events, stays, own_type(), old, new),
    )
}

proof fn lemma_retaining(log: LogView, filter: FilterView, stays: spec_fn(EventView) -> bool)
    requires
        forall|e: EventView| #[trigger] filter.keeps(e) == stays(e),
    ensures
        events_stay(log, log.retaining(filter), stays),
{
    let pred = |e: EventView| filter.keeps(e);
    let kept = log.events.filter(pred);
    let after = log.retaining(filter);
    let becomes = |old: EventView, new: EventView|
        terms::event_stays(log.events, stays, own_type(), old, new);
    restaging::lemma_restaged_ids(log);
    typing::lemma_noted_all(staging::restaged(log), kept);
    assert(pred =~= stays);
    assert forall|i: int| 0 <= i < after.events.len() implies becomes(
        kept[i],
        #[trigger] after.events[i],
    ) by {
        let (old, new) = (kept[i], after.events[i]);
        assert(new == staging::conformed_event(typing::noted_all(Map::empty(), kept), old));
        assert forall|k: int| 0 <= k < old.attributes.len() implies terms::attribute_stays(
            old.attributes[k],
            #[trigger] new.attributes[k],
            terms::mixed(log.events, stays, own_type(), old.event_type, old.attributes[k].name),
        ) by {
            typing::lemma_value_sealed(Map::empty(), kept, i, k);
            typing::lemma_clash_filter(
                log.events,
                pred,
                old.event_type,
                old.attributes[k].name,
            );
        }
    }
    terms::lemma_filter_thinned(log.events, after.events, pred, stays, becomes);
}

/// Dropping event types always succeeds. It leaves exactly the events of other
/// types, in their order and as they were.
pub proof fn law_drop_event_types(
    names: Seq<Seq<char>>,
    index: int,
    log: LogView,
    input: InputView,
)
    ensures
        StepView::DropEventTypes(names).outcome(index, log, input) matches Ok((after, notes))
            && notes.duplicates_skipped is None && notes.events_lifted is None && events_stay(
            log,
            after,
            |e: EventView|
                forall|i: int| 0 <= i < names.len() ==> #[trigger] names[i] != e.event_type,
        ),
{
    let filter = FilterView::WithoutTypes(names);
    let stays = |e: EventView|
        forall|i: int| 0 <= i < names.len() ==> #[trigger] names[i] != e.event_type;
    assert forall|e: EventView| #[trigger] filter.keeps(e) == stays(e) by {
        if !filter.keeps(e) {
            let i = choose|i: int| 0 <= i < names.len() && names[i] == e.event_type;
            assert(names[i] == e.event_type);
        }
    }
    lemma_retaining(log, filter, stays);
}

/// Keeping event types always succeeds. It leaves exactly the events of these
/// types, in their order and as they were.
pub proof fn law_keep_event_types(
    names: Seq<Seq<char>>,
    index: int,
    log: LogView,
    input: InputView,
)
    ensures
        StepView::KeepEventTypes(names).outcome(index, log, input) matches Ok((after, notes))
            && notes.duplicates_skipped is None && notes.events_lifted is None && events_stay(
            log,
            after,
            |e: EventView|
                exists|i: int| 0 <= i < names.len() && #[trigger] names[i] == e.event_type,
        ),
{
    let filter = FilterView::OfTypes(names);
    let stays = |e: EventView|
        exists|i: int| 0 <= i < names.len() && #[trigger] names[i] == e.event_type;
    assert forall|e: EventView| #[trigger] filter.keeps(e) == stays(e) by {
        if stays(e) {
            let i = choose|i: int| 0 <= i < names.len() && #[trigger] names[i] == e.event_type;
            assert(names[i] == e.event_type);
        }
    }
    lemma_retaining(log, filter, stays);
}

/// Whether the instant `(secs, nanos)` is not earlier than the beginning that
/// this text gives: the instant it names, or the midnight that the day it names
/// begins with.
pub open spec fn begun(raw: Seq<char>, secs: int, nanos: int) -> bool {
    match window::rfc3339_instant(raw) {
        Some(from) => from.secs < secs || (from.secs == secs && from.nanos <= nanos),
        None => window::read_day(raw, "%Y-%m-%d"@) matches Some(day) && (day * 86400 < secs || (day
            * 86400 == secs && 0 <= nanos)),
    }
}

/// Whether the instant `(secs, nanos)` is earlier than the end that this text
/// gives: the instant it names, or the midnight that follows the day it names.
pub open spec fn not_ended(raw: Seq<char>, secs: int, nanos: int) -> bool {
    match window::rfc3339_instant(raw) {
        Some(to) => secs < to.secs || (secs == to.secs && nanos < to.nanos),
        None => window::read_day(raw, "%Y-%m-%d"@) matches Some(day) && (secs < day * 86400 + 86400
            || (secs == day * 86400 + 86400 && nanos < 0)),
    }
}

/// A time window leaves exactly the events that are not before its beginning
/// and before its end, each where it is given; a day that it ends with is in
/// it. A beginning that is no instant and no day fails the step; then an end
/// that is neither does, or that is the last day there is.
pub proof fn law_time_window(window: WindowView, index: int, log: LogView, input: InputView)
    ensures
        ({
            let unread = |raw: Seq<char>|
                window::rfc3339_instant(raw) is None && window::read_day(raw, "%Y-%m-%d"@) is None;
            let endless = |raw: Seq<char>|
                window::rfc3339_instant(raw) is None && (window::read_day(
                    raw,
                    "%Y-%m-%d"@,
                ) matches Some(day) && day >= 95026236);
            match StepView::TimeWindow(window).outcome(index, log, input) {
                Ok((after, notes)) => {
                    &&& window.from matches Some(from) ==> !unread(from)
                    &&& window.to matches Some(to) ==> !unread(to) && !endless(to)
                    &&& notes.duplicates_skipped is None && notes.events_lifted is None
                    &&& events_stay(
                        log,
                        after,
                        |e: EventView|
                            (window.from matches Some(from) ==> begun(
                                from,
                                e.time.secs,
                                e.time.nanos,
                            )) && (window.to matches Some(to) ==> not_ended(
                                to,
                                e.time.secs,
                                e.time.nanos,
                            )),
                    )
                },
                Err(error) => if window.from matches Some(from) && unread(from) {
                    error == (ErrorView::BadTime { step: index, value: window.from->0 })
                } else {
                    window.to matches Some(to) && (unread(to) || endless(to)) && error == (
                    ErrorView::BadTime { step: index, value: to })
                },
            }
        }),
{
    if let Ok(filter) = window.filter(index) {
        let stays = |e: EventView|
            (window.from matches Some(from) ==> begun(from, e.time.secs, e.time.nanos)) && (
            window.to matches Some(to) ==> not_ended(to, e.time.secs, e.time.nanos));
        assert forall|e: EventView| #[trigger] filter.keeps(e) == stays(e) by {}
        lemma_retaining(log, filter, stays);
    }
}

/// The place of an attribute's first value in the attributes of an event.
pub open spec fn first_at(attributes: Seq<AttributeView>, name: Seq<char>, k: int) -> bool {
    0 <= k < attributes.len() && attributes[k].name == name && forall|m: int|
        0 <= m < k ==> (#[trigger] attributes[m]).name != name
}

/// Whether a value is a number that is at least `low`.
pub open spec fn at_least(value: ValueView, low: u64) -> bool {
    match value {
        ValueView::Integer(i) => double::less(low, double::integer_bits(i) as u64) || double::equal(
            low,
            double::integer_bits(i) as u64,
        ),
        ValueView::Float(bits) => double::less(low, bits) || double::equal(low, bits),
        _ => false,
    }
}

/// Whether a value is a number that is at most `high`.
pub open spec fn at_most(value: ValueView, high: u64) -> bool {
    match value {
        ValueView::Integer(i) => double::less(double::integer_bits(i) as u64, high)
            || double::equal(double::integer_bits(i) as u64, high),
        ValueView::Float(bits) => double::less(bits, high) || double::equal(bits, high),
        _ => false,
    }
}

/// Whether an event meets every condition that is set: it is of the type, and
/// the first value of the attribute is written like the text, has the pattern
/// in what is written, and is a number within the bounds.
pub open spec fn meets(predicate: PredicateView, event: EventView) -> bool {
    &&& predicate.event_type matches Some(wanted) ==> event.event_type == wanted
    &&& predicate.attr matches Some(name) ==> exists|k: int| #[trigger]
        first_at(event.attributes, name, k) && {
            let value = event.attributes[k].value;
            &&& predicate.equals matches Some(text) ==> convert::value_text(value) == text
            &&& predicate.matches matches Some(pattern) ==> matcher::regex_matches(
                pattern,
                convert::value_text(value),
            )
            &&& predicate.min matches Some(low) ==> at_least(value, low)
            &&& predicate.max matches Some(high) ==> at_most(value, high)
        }
}

proof fn lemma_first_at(attributes: Seq<AttributeView>, name: Seq<char>)
    ensures
        match matcher::first_value(attributes, name) {
            Some(value) => exists|k: int| #[trigger]
                first_at(attributes, name, k) && attributes[k].value == value,
            None => forall|k: int| !#[trigger] first_at(attributes, name, k),
        },
    decreases attributes.len(),
{
    if attributes.len() > 0 {
        let front = attributes.drop_last();
        let n = attributes.len() - 1;
        lemma_first_at(front, name);
        match matcher::first_value(front, name) {
            Some(value) => {
                let k = choose|k: int| #[trigger]
                    first_at(front, name, k) && front[k].value == value;
                assert forall|m: int| 0 <= m < k implies (#[trigger] attributes[m]).name != name by {
                    assert(front[m].name != name);
                }
                assert(first_at(attributes, name, k));
            },
            None => {
                assert forall|m: int| 0 <= m < n implies (#[trigger] attributes[m]).name != name by {
                    if attributes[m].name == name {
                        lemma_some_first(front, name, m);
                    }
                }
                if attributes.last().name == name {
                    assert(first_at(attributes, name, n));
                }
                assert forall|k: int|
                    attributes.last().name != name implies !#[trigger] first_at(
                    attributes,
                    name,
                    k,
                ) by {
                    if 0 <= k < n {
                        assert(attributes[k].name != name);
                    }
                }
            },
        }
    }
}

/// Where an attribute has a value it has a first one.
proof fn lemma_some_first(attributes: Seq<AttributeView>, name: Seq<char>, m: int)
    requires
        0 <= m < attributes.len(),
        attributes[m].name == name,
    ensures
        exists|k: int| #[trigger] first_at(attributes, name, k),
    decreases m,
{
    if exists|j: int| 0 <= j < m && (#[trigger] attributes[j]).name == name {
        let j = choose|j: int| 0 <= j < m && (#[trigger] attributes[j]).name == name;
        lemma_some_first(attributes, name, j);
    } else {
        assert(first_at(attributes, name, m));
    }
}

proof fn lemma_first_unique(attributes: Seq<AttributeView>, name: Seq<char>, a: int, b: int)
    requires
        first_at(attributes, name, a),
        first_at(attributes, name, b),
    ensures
        a == b,
{
    if a < b {
        assert(attributes[a].name != name);
    } else if b < a {
        assert(attributes[b].name != name);
    }
}

/// Dropping events by a predicate leaves exactly the events that do not meet
/// all its conditions. It fails where a condition on a value has no attribute,
/// then where there is no condition at all, then where the pattern is faulty.
pub proof fn law_drop_events_where(
    predicate: PredicateView,
    index: int,
    log: LogView,
    input: InputView,
)
    ensures
        ({
            let valued = predicate.equals is Some || predicate.matches is Some
                || predicate.min is Some || predicate.max is Some;
            match StepView::DropEventsWhere(predicate).outcome(index, log, input) {
                Ok((after, notes)) => {
                    &&& predicate.attr is Some || (predicate.event_type is Some && !valued)
                    &&& predicate.matches matches Some(pattern) ==> matcher::regex_fault(
                        pattern,
                    ) is None
                    &&& notes.duplicates_skipped is None && notes.events_lifted is None
                    &&& events_stay(log, after, |e: EventView| !meets(predicate, e))
                },
                Err(error) => if predicate.attr is None && valued {
                    error == (ErrorView::ValueConditionWithoutAttr { step: index })
                } else if predicate.attr is None && predicate.event_type is None {
                    error == (ErrorView::EmptyPredicate { step: index })
                } else {
                    predicate.matches matches Some(pattern) && (matcher::regex_fault(
                        pattern,
                    ) matches Some(message) && error == (ErrorView::BadRegex {
                        step: index,
                        message,
                    }))
                },
            }
        }),
{
    if let Ok(compiled) = predicate.compiled(index) {
        let filter = FilterView::Unmatched(compiled);
        let stays = |e: EventView| !meets(predicate, e);
        assert forall|e: EventView| #[trigger] filter.keeps(e) == stays(e) by {
            if let Some(name) = predicate.attr {
                lemma_first_at(e.attributes, name);
                if let Some(value) = matcher::first_value(e.attributes, name) {
                    let k = choose|k: int| #[trigger]
                        first_at(e.attributes, name, k) && e.attributes[k].value == value;
                    assert forall|m: int| #[trigger] first_at(e.attributes, name, m) implies m
                        == k by {
                        lemma_first_unique(e.attributes, name, m, k);
                    }
                }
            }
        }
        lemma_retaining(log, filter, stays);
    }
}

/// Renaming always succeeds. It leaves every event at its place, as it was but
/// for its type: that is the new name where the old one has one.
pub proof fn law_rename_event_types(
    renames: Map<Seq<char>, Seq<char>>,
    index: int,
    log: LogView,
    input: InputView,
)
    ensures
        ({
            let called = |e: EventView|
                if renames.contains_key(e.event_type) {
                    renames[e.event_type]
                } else {
                    e.event_type
                };
            StepView::RenameEventTypes(renames).outcome(index, log, input) matches Ok(
                (after, notes),
            ) && notes.duplicates_skipped is None && notes.events_lifted is None
                && after.events.len() == log.events.len() && forall|i: int|
                0 <= i < log.events.len() ==> terms::event_stays(
                    log.events,
                    |e: EventView| true,
                    called,
                    log.events[i],
                    #[trigger] after.events[i],
                )
        }),
{
    let called = |e: EventView|
        if renames.contains_key(e.event_type) {
            renames[e.event_type]
        } else {
            e.event_type
        };
    let all = |e: EventView| true;
    let renamed = staging::restaged(log).renamed(renames).events;
    let after = log.renaming(renames);
    restaging::lemma_restaged_ids(log);
    typing::lemma_noted_all(staging::restaged(log), renamed);
    assert forall|i: int| 0 <= i < log.events.len() implies #[trigger] renamed[i] == (EventView {
        event_type: called(log.events[i]),
        ..log.events[i]
    }) by {}
    assert forall|i: int| 0 <= i < log.events.len() implies terms::event_stays(
        log.events,
        all,
        called,
        log.events[i],
        #[trigger] after.events[i],
    ) by {
        let (old, new) = (log.events[i], after.events[i]);
        assert(new == staging::conformed_event(
            typing::noted_all(Map::empty(), renamed),
            renamed[i],
        ));
        assert forall|k: int| 0 <= k < old.attributes.len() implies terms::attribute_stays(
            old.attributes[k],
            #[trigger] new.attributes[k],
            terms::mixed(log.events, all, called, called(old), old.attributes[k].name),
        ) by {
            typing::lemma_value_sealed(Map::empty(), renamed, i, k);
            lemma_clash_renamed(log.events, renamed, called, called(old), old.attributes[k].name);
        }
    }
}

proof fn lemma_clash_renamed(
    events: Seq<EventView>,
    renamed: Seq<EventView>,
    called: spec_fn(EventView) -> Seq<char>,
    of: Seq<char>,
    name: Seq<char>,
)
    requires
        renamed.len() == events.len(),
        forall|i: int|
            0 <= i < events.len() ==> #[trigger] renamed[i] == (EventView {
                event_type: called(events[i]),
                ..events[i]
            }),
    ensures
        typing::clash(renamed, of, name) <==> terms::mixed(
            events,
            |e: EventView| true,
            called,
            of,
            name,
        ),
{
    if typing::clash(renamed, of, name) {
        let (i, k, j, m) = choose|i: int, k: int, j: int, m: int|
            0 <= i < renamed.len() && 0 <= k < renamed[i].attributes.len() && 0 <= j
                < renamed.len() && 0 <= m < renamed[j].attributes.len() && renamed[i].event_type
                == of && renamed[j].event_type == of && renamed[i].attributes[k].name == name
                && renamed[j].attributes[m].name == name && (
            #[trigger] renamed[i].attributes[k]).value.kind() != (
            #[trigger] renamed[j].attributes[m]).value.kind();
        assert(events[i].attributes[k].value.kind() != events[j].attributes[m].value.kind());
    }
    if terms::mixed(events, |e: EventView| true, called, of, name) {
        let (i, k, j, m) = choose|i: int, k: int, j: int, m: int|
            0 <= i < events.len() && 0 <= k < events[i].attributes.len() && 0 <= j < events.len()
                && 0 <= m < events[j].attributes.len() && called(events[i]) == of && called(
                events[j],
            ) == of && events[i].attributes[k].name == name && events[j].attributes[m].name == name
                && (#[trigger] events[i].attributes[k]).value.kind() != (
            #[trigger] events[j].attributes[m]).value.kind();
        assert(renamed[i].attributes[k].value.kind() != renamed[j].attributes[m].value.kind());
    }
}

/// The steps that drop, keep or rename events leave the objects: each at its
/// place, with its id and type, its relations and its observations, and a
/// settled log with exactly its objects. The event types declared after them
/// are those of the events that are left.
pub proof fn law_event_steps_are_about_events(
    step: StepView,
    index: int,
    log: LogView,
    input: InputView,
)
    requires
        step is DropEventTypes || step is KeepEventTypes || step is DropEventsWhere
            || step is TimeWindow || step is RenameEventTypes,
        forall|i: int, j: int|
            0 <= i < j < log.objects.len() ==> (#[trigger] log.objects[i]).id != (
            #[trigger] log.objects[j]).id,
    ensures
        step.outcome(index, log, input) matches Ok((after, _)) ==> {
            &&& after.objects.len() == log.objects.len()
            &&& forall|i: int|
                0 <= i < log.objects.len() ==> {
                    let (old, new) = (log.objects[i], #[trigger] after.objects[i]);
                    &&& new.id == old.id
                    &&& new.object_type == old.object_type
                    &&& new.relationships.to_set() =~= old.relationships.to_set()
                    &&& sealing::carried(
                        old.attributes.to_set(),
                        new.attributes.to_set(),
                        sealing::named(log.objects),
                    )
                }
            &&& log.settled() ==> after.objects == log.objects
            &&& forall|name: Seq<char>| #[trigger]
                terms::declared(after.event_types, name) <==> terms::occurring(after.events, name)
        },
{
    if let Ok((after, _)) = step.outcome(index, log, input) {
        let (filter, renames) = match step {
            StepView::RenameEventTypes(renames) => (FilterView::OfTypes(seq![]), renames),
            _ => (step.filter(index)->0->Ok_0, Map::empty()),
        };
        object_effects::law_event_steps_leave_objects(log, filter, renames);
        if log.settled() {
            object_effects::law_event_steps_leave_settled_objects(log, filter, renames);
        }
        effects::law_declared_types_occur(log, filter, renames);
        assert forall|i: int| 0 <= i < log.objects.len() implies {
            let (old, new) = (log.objects[i], #[trigger] after.objects[i]);
            &&& new.id == old.id
            &&& new.object_type == old.object_type
            &&& new.relationships.to_set() =~= old.relationships.to_set()
            &&& sealing::carried(
                old.attributes.to_set(),
                new.attributes.to_set(),
                sealing::named(log.objects),
            )
        } by {
            assert(object_effects::same_object(
                log.objects[i],
                after.objects[i],
                sealing::named(log.objects),
            ));
        }
        assert forall|name: Seq<char>| #[trigger] terms::declared(after.event_types, name)
            <==> terms::occurring(after.events, name) by {
            assert(validity::declares(after.event_types, name) <==> restaging::occurs(
                after.events,
                name,
            ));
            if terms::declared(after.event_types, name) {
                let i = choose|i: int|
                    0 <= i < after.event_types.len() && (#[trigger] after.event_types[i]).name
                        == name;
                assert(after.event_types[i].name == name);
            }
            if terms::occurring(after.events, name) {
                let i = choose|i: int|
                    0 <= i < after.events.len() && (#[trigger] after.events[i]).event_type == name;
                assert(after.events[i].event_type == name);
            }
        }
    }
}

} // verus!
