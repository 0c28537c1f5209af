//! Which values of events become texts when a log is sealed.

use vstd::prelude::*;

use crate::lists;
use crate::model::AttributeView;
use crate::model::EventView;
use crate::model::ValueType;
use crate::staging;
use crate::staging::Schema;
use crate::staging::StagingView;
use crate::terms;

verus! {

/// The schema after events, in turn.
pub open spec fn noted_all(start: Schema, events: Seq<EventView>) -> Schema
    decreases events.len(),
{
    if events.len() == 0 {
        start
    } else {
        staging::noted(noted_all(start, events.drop_last()), events.last())
    }
}

pub proof fn lemma_noted_all(s: StagingView, events: Seq<EventView>)
    ensures
        s.with_events(events).event_schema == noted_all(s.event_schema, events),
        staging::schema_of(events) == noted_all(Map::empty(), events),
    decreases events.len(),
{
    if events.len() > 0 {
        lemma_noted_all(s, events.drop_last());
    }
}

/// Events in two parts are noted part by part.
pub proof fn lemma_noted_parts(start: Schema, first: Seq<EventView>, second: Seq<EventView>)
    ensures
        noted_all(noted_all(start, first), second) == noted_all(start, first + second),
    decreases second.len(),
{
    let both = first + second;
    if second.len() == 0 {
        assert(both =~= first);
    } else {
        lemma_noted_parts(start, first, second.drop_last());
        assert(both.drop_last() =~= first + second.drop_last());
        assert(both.last() == second.last());
    }
}

proof fn lemma_observed_kind(
    attributes: Map<Seq<char>, ValueType>,
    seen: Seq<AttributeView>,
    name: Seq<char>,
    kind: ValueType,
)
    requires
        attributes.contains_key(name) ==> attributes[name] == kind,
        forall|k: int|
            0 <= k < seen.len() && (#[trigger] seen[k]).name == name ==> seen[k].value.kind()
                == kind,
    ensures
        staging::observed_all(attributes, seen).contains_key(name) ==> staging::observed_all(
            attributes,
            seen,
        )[name] == kind,
    decreases seen.len(),
{
    if seen.len() > 0 {
        let front = seen.drop_last();
        assert forall|k: int|
            0 <= k < front.len() && (#[trigger] front[k]).name
                == name implies front[k].value.kind() == kind by {
            assert(front[k] == seen[k]);
        }
        lemma_observed_kind(attributes, front, name, kind);
        assert(seen[seen.len() - 1] == seen.last());
    }
}

/// Whether all values of an attribute of an event type have this type.
spec fn agreed(events: Seq<EventView>, of: Seq<char>, name: Seq<char>, kind: ValueType) -> bool {
    forall|i: int, k: int|
        0 <= i < events.len() && 0 <= k < events[i].attributes.len() && events[i].event_type == of
            && (#[trigger] events[i].attributes[k]).name == name
            ==> events[i].attributes[k].value.kind() == kind
}

/// Where all agree on a type, it is the one declared.
proof fn lemma_kind_agreed(
    start: Schema,
    events: Seq<EventView>,
    of: Seq<char>,
    name: Seq<char>,
    kind: ValueType,
)
    requires
        staging::entry(start, of).contains_key(name) ==> staging::entry(start, of)[name] == kind,
        agreed(events, of, name, kind),
    ensures
        staging::entry(noted_all(start, events), of).contains_key(name) ==> staging::entry(
            noted_all(start, events),
            of,
        )[name] == kind,
    decreases events.len(),
{
    if events.len() > 0 {
        let front = events.drop_last();
        let last = events.last();
        let n = events.len() - 1;
        assert(agreed(front, of, name, kind)) by {
            assert forall|i: int, k: int|
                0 <= i < front.len() && 0 <= k < front[i].attributes.len() && front[i].event_type
                    == of && (#[trigger] front[i].attributes[k]).name
                    == name implies front[i].attributes[k].value.kind() == kind by {
                assert(events[i].attributes[k].name == name);
            }
        }
        lemma_kind_agreed(start, front, of, name, kind);
        if last.event_type == of {
            assert forall|k: int|
                0 <= k < last.attributes.len() && (#[trigger] last.attributes[k]).name
                    == name implies last.attributes[k].value.kind() == kind by {
                assert(events[n].attributes[k].name == name);
            }
            lemma_observed_kind(
                staging::entry(noted_all(start, front), of),
                last.attributes,
                name,
                kind,
            );
        }
    }
}

/// Whether an attribute is declared with this type, or as text.
spec fn admits(
    attributes: Map<Seq<char>, ValueType>,
    name: Seq<char>,
    kind: ValueType,
) -> bool {
    attributes.contains_key(name) && (attributes[name] == kind || attributes[name]
        == ValueType::String)
}

proof fn lemma_observed_admits(attributes: Map<Seq<char>, ValueType>, seen: Seq<AttributeView>)
    ensures
        forall|name: Seq<char>, kind: ValueType|
            admits(attributes, name, kind) ==> #[trigger] admits(
                staging::observed_all(attributes, seen),
                name,
                kind,
            ),
        forall|k: int|
            0 <= k < seen.len() ==> admits(
                staging::observed_all(attributes, seen),
                (#[trigger] seen[k]).name,
                seen[k].value.kind(),
            ),
    decreases seen.len(),
{
    if seen.len() > 0 {
        let front = seen.drop_last();
        let before = staging::observed_all(attributes, front);
        let after = staging::observed_all(attributes, seen);
        lemma_observed_admits(attributes, front);
        assert forall|name: Seq<char>, kind: ValueType|
            admits(attributes, name, kind) implies #[trigger] admits(after, name, kind) by {
            assert(admits(before, name, kind));
        }
        assert forall|k: int| 0 <= k < seen.len() implies admits(
            after,
            (#[trigger] seen[k]).name,
            seen[k].value.kind(),
        ) by {
            if k < front.len() {
                assert(front[k] == seen[k]);
                assert(admits(before, front[k].name, front[k].value.kind()));
            }
        }
    }
}

/// The declared types admit every value.
proof fn lemma_kinds_admitted(start: Schema, events: Seq<EventView>)
    ensures
        forall|i: int, k: int|
            0 <= i < events.len() && 0 <= k < events[i].attributes.len() ==> admits(
                staging::entry(noted_all(start, events), events[i].event_type),
                (#[trigger] events[i].attributes[k]).name,
                events[i].attributes[k].value.kind(),
            ),
        forall|of: Seq<char>, name: Seq<char>, kind: ValueType|
            admits(staging::entry(start, of), name, kind) ==> #[trigger] admits(
                staging::entry(noted_all(start, events), of),
                name,
                kind,
            ),
    decreases events.len(),
{
    if events.len() > 0 {
        let front = events.drop_last();
        let last = events.last();
        let before = noted_all(start, front);
        let after = noted_all(start, events);
        lemma_kinds_admitted(start, front);
        lemma_observed_admits(staging::entry(before, last.event_type), last.attributes);
        assert forall|of: Seq<char>, name: Seq<char>, kind: ValueType|
            admits(staging::entry(start, of), name, kind) implies #[trigger] admits(
            staging::entry(after, of),
            name,
            kind,
        ) by {
            assert(admits(staging::entry(before, of), name, kind));
        }
        assert forall|i: int, k: int|
            0 <= i < events.len() && 0 <= k < events[i].attributes.len() implies admits(
            staging::entry(after, events[i].event_type),
            (#[trigger] events[i].attributes[k]).name,
            events[i].attributes[k].value.kind(),
        ) by {
            let a = events[i].attributes[k];
            if i < front.len() {
                assert(front[i] == events[i]);
                assert(front[i].attributes[k] == a);
                assert(admits(
                    staging::entry(before, events[i].event_type),
                    a.name,
                    a.value.kind(),
                ));
            } else {
                assert(last.attributes[k] == a);
            }
        }
    }
}

/// Whether two events of a type give an attribute values of different types.
pub open spec fn clash(events: Seq<EventView>, of: Seq<char>, name: Seq<char>) -> bool {
    terms::mixed(events, |e: EventView| true, |e: EventView| e.event_type, of, name)
}

/// What becomes of a value of an event: it is the same or its text, its text
/// where the values of the attribute clash, and the same where neither they nor
/// what was declared before do.
pub proof fn lemma_value_sealed(start: Schema, events: Seq<EventView>, i: int, k: int)
    requires
        0 <= i < events.len(),
        0 <= k < events[i].attributes.len(),
    ensures
        ({
            let before = events[i].attributes[k];
            let after = staging::conformed_event(
                noted_all(start, events),
                events[i],
            ).attributes[k];
            let of = events[i].event_type;
            &&& terms::attribute_told(before, after)
            &&& clash(events, of, before.name) ==> terms::attribute_stays(before, after, true)
            &&& !clash(events, of, before.name) && (staging::entry(start, of).contains_key(
                before.name,
            ) ==> staging::entry(start, of)[before.name] == before.value.kind())
                ==> terms::attribute_stays(before, after, false)
        }),
{
    let before = events[i].attributes[k];
    let of = events[i].event_type;
    let schema = noted_all(start, events);
    lemma_kinds_admitted(start, events);
    assert(admits(staging::entry(schema, of), before.name, before.value.kind()));
    if clash(events, of, before.name) {
        let (p, q, j, m) = choose|p: int, q: int, j: int, m: int|
            0 <= p < events.len() && 0 <= q < events[p].attributes.len() && 0 <= j < events.len()
                && 0 <= m < events[j].attributes.len() && events[p].event_type == of
                && events[j].event_type == of && events[p].attributes[q].name == before.name
                && events[j].attributes[m].name == before.name && (
            #[trigger] events[p].attributes[q]).value.kind() != (
            #[trigger] events[j].attributes[m]).value.kind();
        assert(admits(
            staging::entry(schema, of),
            events[p].attributes[q].name,
            events[p].attributes[q].value.kind(),
        ));
        assert(admits(
            staging::entry(schema, of),
            events[j].attributes[m].name,
            events[j].attributes[m].value.kind(),
        ));
    } else if staging::entry(start, of).contains_key(before.name) ==> staging::entry(
        start,
        of,
    )[before.name] == before.value.kind() {
        let kind = before.value.kind();
        assert(agreed(events, of, before.name, kind)) by {
            assert forall|p: int, q: int|
                0 <= p < events.len() && 0 <= q < events[p].attributes.len()
                    && events[p].event_type == of && (#[trigger] events[p].attributes[q]).name
                    == before.name implies events[p].attributes[q].value.kind() == kind by {
                assert(events[i].attributes[k].name == before.name);
            }
        }
        lemma_kind_agreed(start, events, of, before.name, kind);
    }
}

/// Values clash among events that a condition picks exactly where they clash
/// in the list of those.
pub proof fn lemma_clash_filter(
    events: Seq<EventView>,
    pred: spec_fn(EventView) -> bool,
    of: Seq<char>,
    name: Seq<char>,
)
    ensures
        clash(events.filter(pred), of, name) <==> terms::mixed(
            events,
            pred,
            |e: EventView| e.event_type,
            of,
            name,
        ),
{
    let kept = events.filter(pred);
    let called = |e: EventView| e.event_type;
    let places = lists::lemma_filter_places(events, pred);
    if clash(kept, of, name) {
        let (i, k, j, m) = choose|i: int, k: int, j: int, m: int|
            0 <= i < kept.len() && 0 <= k < kept[i].attributes.len() && 0 <= j < kept.len() && 0
                <= m < kept[j].attributes.len() && kept[i].event_type == of
                && kept[j].event_type == of && kept[i].attributes[k].name == name
                && kept[j].attributes[m].name == name && (
            #[trigger] kept[i].attributes[k]).value.kind() != (
            #[trigger] kept[j].attributes[m]).value.kind();
        let (p, q) = (places[i], places[j]);
        assert(called(events[p]) == of && called(events[q]) == of);
        assert(events[p].attributes[k].value.kind() != events[q].attributes[m].value.kind());
    }
    if terms::mixed(events, pred, called, of, name) {
        let (p, k, q, m) = choose|p: int, k: int, q: int, m: int|
            0 <= p < events.len() && 0 <= k < events[p].attributes.len() && 0 <= q < events.len()
                && 0 <= m < events[q].attributes.len() && pred(events[p]) && pred(events[q])
                && called(events[p]) == of && called(events[q]) == of
                && events[p].attributes[k].name == name && events[q].attributes[m].name == name && (
            #[trigger] events[p].attributes[k]).value.kind() != (
            #[trigger] events[q].attributes[m]).value.kind();
        assert(places.contains(p) && places.contains(q));
        let i = choose|i: int| 0 <= i < places.len() && places[i] == p;
        let j = choose|j: int| 0 <= j < places.len() && places[j] == q;
        assert(kept[i].attributes[k].value.kind() != kept[j].attributes[m].value.kind());
    }
}

} // verus!
