//! What the steps do to the events and the objects of a log.

use vstd::prelude::*;

use crate::apply::NotesView;
use crate::apply::StageView;
use crate::error::ErrorView;
use crate::filter::FilterView;
use crate::sealing;
use crate::integrity;
use crate::lists;
use crate::merge::InputView;
use crate::model::AttributeView;
use crate::model::EventView;
use crate::model::LogView;
use crate::model::ObjectView;
use crate::model::ObservationView;
use crate::model::RelationView;
use crate::model::ValueType;
use crate::names;
use crate::recipe::StepView;
use crate::restaging;
use crate::staging;
use crate::staging::Schema;
use crate::staging::StagingView;
use crate::sublog;
use crate::validity;

verus! {

/// A filter keeps exactly the events that meet its condition, in order. Of
/// their attributes only the values may change their type.
pub proof fn law_filters_keep_exactly(log: LogView, filter: FilterView)
    ensures
        ({
            let kept = log.events.filter(|e: EventView| filter.keeps(e));
            let after = log.retaining(filter);
            &&& after.events.len() == kept.len()
            &&& forall|i: int|
                0 <= i < kept.len() ==> #[trigger] after.events[i] == staging::conformed_event(
                    staging::schema_of(kept),
                    kept[i],
                )
            &&& forall|id: Seq<char>| #[trigger]
                after.has_event(id) <==> exists|k: int|
                    0 <= k < log.events.len() && #[trigger] log.events[k].id == id && filter.keeps(
                        log.events[k],
                    )
        }),
{
    let pred = |e: EventView| filter.keeps(e);
    let kept = log.events.filter(pred);
    let after = log.retaining(filter);
    restaging::lemma_restaged_ids(log);
    let places = lists::lemma_filter_places(log.events, pred);
    assert forall|i: int| 0 <= i < kept.len() implies #[trigger] after.events[i]
        == staging::conformed_event(staging::schema_of(kept), kept[i]) by {}
    assert forall|id: Seq<char>| #[trigger] after.has_event(id) <==> exists|k: int|
        0 <= k < log.events.len() && #[trigger] log.events[k].id == id && filter.keeps(
            log.events[k],
        ) by {
        if after.has_event(id) {
            let i = choose|i: int|
                0 <= i < after.events.len() && #[trigger] after.events[i].id == id;
            assert(log.events[places[i]].id == id);
        }
        if exists|k: int|
            0 <= k < log.events.len() && #[trigger] log.events[k].id == id && filter.keeps(
                log.events[k],
            ) {
            let k = choose|k: int|
                0 <= k < log.events.len() && #[trigger] log.events[k].id == id && filter.keeps(
                    log.events[k],
                );
            assert(pred(log.events[k]));
            assert(places.contains(k));
            let i = choose|i: int| 0 <= i < places.len() && places[i] == k;
            assert(after.events[i].id == id);
        }
    }
}

/// Whether the values of every attribute of an event type have one type.
pub open spec fn uniform(events: Seq<EventView>) -> bool {
    forall|i: int, k: int, j: int, m: int|
        0 <= i < events.len() && 0 <= k < events[i].attributes.len() && 0 <= j < events.len() && 0
            <= m < events[j].attributes.len() && events[i].event_type == events[j].event_type
            && events[i].attributes[k].name == events[j].attributes[m].name ==> (
        #[trigger] events[i].attributes[k]).value.kind() == (
        #[trigger] events[j].attributes[m]).value.kind()
}

/// Whether the values of every attribute of an event type have the type that
/// `kinds` gives for the event type and the attribute.
spec fn of_kinds(
    events: Seq<EventView>,
    kinds: spec_fn(Seq<char>, Seq<char>) -> ValueType,
) -> bool {
    forall|i: int, k: int|
        0 <= i < events.len() && 0 <= k < events[i].attributes.len() ==> (
        #[trigger] events[i].attributes[k]).value.kind() == kinds(
            events[i].event_type,
            events[i].attributes[k].name,
        )
}

/// Values of one type per attribute change no declared type.
proof fn lemma_observed_kinds(
    attributes: Map<Seq<char>, ValueType>,
    seen: Seq<AttributeView>,
    kinds: spec_fn(Seq<char>) -> ValueType,
)
    requires
        forall|name: Seq<char>| #[trigger]
            attributes.contains_key(name) ==> attributes[name] == kinds(name),
        forall|k: int|
            0 <= k < seen.len() ==> (#[trigger] seen[k]).value.kind() == kinds(seen[k].name),
    ensures
        forall|name: Seq<char>| #[trigger]
            staging::observed_all(attributes, seen).contains_key(name) ==> staging::observed_all(
                attributes,
                seen,
            )[name] == kinds(name),
    decreases seen.len(),
{
    if seen.len() > 0 {
        let front = seen.drop_last();
        assert forall|k: int| 0 <= k < front.len() implies (#[trigger] front[k]).value.kind()
            == kinds(front[k].name) by {
            assert(front[k] == seen[k]);
        }
        lemma_observed_kinds(attributes, front, kinds);
        assert(seen[seen.len() - 1] == seen.last());
        let before = staging::observed_all(attributes, front);
        let after = staging::observed_all(attributes, seen);
        assert forall|name: Seq<char>| #[trigger] after.contains_key(name) implies after[name]
            == kinds(name) by {
            assert(before.contains_key(name) || name == seen.last().name);
        }
    }
}

/// The schema that events give declares the types of their values.
proof fn lemma_schema_kinds(
    events: Seq<EventView>,
    kinds: spec_fn(Seq<char>, Seq<char>) -> ValueType,
)
    requires
        of_kinds(events, kinds),
    ensures
        forall|of: Seq<char>, name: Seq<char>|
            staging::schema_of(events).contains_key(of)
                && #[trigger] staging::schema_of(events)[of].contains_key(name)
                ==> staging::schema_of(events)[of][name] == kinds(of, name),
    decreases events.len(),
{
    if events.len() > 0 {
        let front = events.drop_last();
        let last = events.last();
        let n = events.len() - 1;
        assert(events[n] == last);
        assert forall|i: int, k: int|
            0 <= i < front.len() && 0 <= k < front[i].attributes.len() implies (
        #[trigger] front[i].attributes[k]).value.kind() == kinds(
            front[i].event_type,
            front[i].attributes[k].name,
        ) by {
            assert(front[i] == events[i]);
            assert(events[i].attributes[k].value.kind() == kinds(
                events[i].event_type,
                events[i].attributes[k].name,
            ));
        }
        lemma_schema_kinds(front, kinds);
        let before = staging::entry(staging::schema_of(front), last.event_type);
        assert forall|k: int| 0 <= k < last.attributes.len() implies (
        #[trigger] last.attributes[k]).value.kind() == kinds(
            last.event_type,
            last.attributes[k].name,
        ) by {
            assert(events[n].attributes[k].value.kind() == kinds(
                events[n].event_type,
                events[n].attributes[k].name,
            ));
        }
        lemma_observed_kinds(
            before,
            last.attributes,
            |name: Seq<char>| kinds(last.event_type, name),
        );
    }
}

/// The type of the values of an attribute of an event type.
#[verifier::opaque]
spec fn kind_in(events: Seq<EventView>, of: Seq<char>, name: Seq<char>) -> ValueType {
    let (i, k) = choose|i: int, k: int|
        0 <= i < events.len() && 0 <= k < events[i].attributes.len() && events[i].event_type == of
            && #[trigger] events[i].attributes[k].name == name;
    events[i].attributes[k].value.kind()
}

proof fn lemma_kind_in(events: Seq<EventView>, i: int, k: int)
    requires
        uniform(events),
        0 <= i < events.len(),
        0 <= k < events[i].attributes.len(),
    ensures
        events[i].attributes[k].value.kind() == kind_in(
            events,
            events[i].event_type,
            events[i].attributes[k].name,
        ),
{
    reveal(kind_in);
    let of = events[i].event_type;
    let name = events[i].attributes[k].name;
    let (j, m) = choose|j: int, m: int|
        0 <= j < events.len() && 0 <= m < events[j].attributes.len() && events[j].event_type == of
            && #[trigger] events[j].attributes[m].name == name;
    assert(events[i].attributes[k].name == name);
    assert(events[j].attributes[m].name == name);
    assert(events[i].attributes[k].value.kind() == events[j].attributes[m].value.kind());
}

/// An event whose values have the types that its schema declares conforms as
/// it is.
proof fn lemma_conforms(
    schema: Schema,
    event: EventView,
    kinds: spec_fn(Seq<char>, Seq<char>) -> ValueType,
)
    requires
        forall|of: Seq<char>, name: Seq<char>|
            schema.contains_key(of) && #[trigger] schema[of].contains_key(name)
                ==> schema[of][name] == kinds(of, name),
        forall|k: int|
            0 <= k < event.attributes.len() ==> (#[trigger] event.attributes[k]).value.kind()
                == kinds(event.event_type, event.attributes[k].name),
    ensures
        staging::conformed_event(schema, event) == event,
{
    assert(staging::conformed_event(schema, event).attributes =~= event.attributes);
}

/// Events whose attributes have values of one type each conform as they are.
proof fn lemma_uniform_conform(events: Seq<EventView>, i: int)
    requires
        uniform(events),
        0 <= i < events.len(),
    ensures
        staging::conformed_event(staging::schema_of(events), events[i]) == events[i],
{
    let kinds = |of: Seq<char>, name: Seq<char>| kind_in(events, of, name);
    assert(of_kinds(events, kinds)) by {
        assert forall|j: int, k: int|
            0 <= j < events.len() && 0 <= k < events[j].attributes.len() implies (
        #[trigger] events[j].attributes[k]).value.kind() == kinds(
            events[j].event_type,
            events[j].attributes[k].name,
        ) by {
            lemma_kind_in(events, j, k);
        }
    }
    lemma_schema_kinds(events, kinds);
    assert forall|k: int| 0 <= k < events[i].attributes.len() implies (
    #[trigger] events[i].attributes[k]).value.kind() == kinds(
        events[i].event_type,
        events[i].attributes[k].name,
    ) by {
        lemma_kind_in(events, i, k);
    }
    lemma_conforms(staging::schema_of(events), events[i], kinds);
}

/// A filter leaves the events that it keeps exactly as they are where the
/// values of every attribute of an event type have one type among them.
pub proof fn law_filters_leave_uniform_events(log: LogView, filter: FilterView)
    requires
        uniform(log.events.filter(|e: EventView| filter.keeps(e))),
    ensures
        log.retaining(filter).events == log.events.filter(|e: EventView| filter.keeps(e)),
{
    let kept = log.events.filter(|e: EventView| filter.keeps(e));
    let after = log.retaining(filter);
    law_filters_keep_exactly(log, filter);
    assert forall|i: int| 0 <= i < kept.len() implies #[trigger] after.events[i] == kept[i] by {
        lemma_uniform_conform(kept, i);
    }
    assert(after.events =~= kept);
}

/// Dropping event types leaves no event of them, and keeping event types
/// leaves events of them alone.
pub proof fn law_type_filters(log: LogView, names: Seq<Seq<char>>)
    ensures
        forall|i: int|
            0 <= i < log.retaining(FilterView::WithoutTypes(names)).events.len()
                ==> !names.contains(
                (#[trigger] log.retaining(FilterView::WithoutTypes(names)).events[i]).event_type,
            ),
        forall|i: int|
            0 <= i < log.retaining(FilterView::OfTypes(names)).events.len() ==> names.contains(
                (#[trigger] log.retaining(FilterView::OfTypes(names)).events[i]).event_type,
            ),
{
    law_filters_keep_exactly(log, FilterView::WithoutTypes(names));
    law_filters_keep_exactly(log, FilterView::OfTypes(names));
    let dropped = |e: EventView| FilterView::WithoutTypes(names).keeps(e);
    let kept = |e: EventView| FilterView::OfTypes(names).keeps(e);
    let first = lists::lemma_filter_places(log.events, dropped);
    let second = lists::lemma_filter_places(log.events, kept);
    assert forall|i: int|
        0 <= i < log.retaining(
            FilterView::WithoutTypes(names),
        ).events.len() implies !names.contains(
        (#[trigger] log.retaining(FilterView::WithoutTypes(names)).events[i]).event_type,
    ) by {
        assert(dropped(log.events[first[i]]));
    }
    assert forall|i: int|
        0 <= i < log.retaining(FilterView::OfTypes(names)).events.len() implies names.contains(
        (#[trigger] log.retaining(FilterView::OfTypes(names)).events[i]).event_type,
    ) by {
        assert(kept(log.events[second[i]]));
    }
}

/// Renaming gives every event the new name of its type and leaves the rest of
/// it; several types that get one name merge.
pub proof fn law_renames_apply(log: LogView, renames: Map<Seq<char>, Seq<char>>)
    ensures
        ({
            let after = log.renaming(renames);
            &&& after.events.len() == log.events.len()
            &&& forall|i: int|
                0 <= i < log.events.len() ==> {
                    let (new, old) = (#[trigger] after.events[i], log.events[i]);
                    &&& new.event_type == names::resolved(renames, old.event_type)
                    &&& new.id == old.id
                    &&& new.time == old.time
                    &&& new.relationships == old.relationships
                }
        }),
{
    restaging::lemma_restaged_ids(log);
}

/// Renaming changes the type of an event and nothing else where the values of
/// every attribute of a new type have one type.
pub proof fn law_renames_leave_uniform_events(log: LogView, renames: Map<Seq<char>, Seq<char>>)
    requires
        uniform(
            log.events.map_values(
                |e: EventView|
                    EventView { event_type: names::resolved(renames, e.event_type), ..e },
            ),
        ),
    ensures
        log.renaming(renames).events == log.events.map_values(
            |e: EventView| EventView { event_type: names::resolved(renames, e.event_type), ..e },
        ),
{
    let renamed = log.events.map_values(
        |e: EventView| EventView { event_type: names::resolved(renames, e.event_type), ..e },
    );
    let after = log.renaming(renames);
    restaging::lemma_restaged_ids(log);
    assert forall|i: int| 0 <= i < renamed.len() implies #[trigger] after.events[i]
        == renamed[i] by {
        lemma_uniform_conform(renamed, i);
    }
    assert(after.events =~= renamed);
}

/// Whether an attribute is declared with the type `kind`, or as text.
spec fn admits_kind(
    attributes: Map<Seq<char>, ValueType>,
    name: Seq<char>,
    kind: ValueType,
) -> bool {
    attributes.contains_key(name) && (attributes[name] == kind || attributes[name]
        == ValueType::String)
}

/// Observing attributes keeps what was admitted and admits what is observed.
proof fn lemma_observed_admits(attributes: Map<Seq<char>, ValueType>, seen: Seq<AttributeView>)
    ensures
        forall|name: Seq<char>, kind: ValueType|
            admits_kind(attributes, name, kind) ==> #[trigger] admits_kind(
                staging::observed_all(attributes, seen),
                name,
                kind,
            ),
        forall|k: int|
            0 <= k < seen.len() ==> admits_kind(
                staging::observed_all(attributes, seen),
                (#[trigger] seen[k]).name,
                seen[k].value.kind(),
            ),
    decreases seen.len(),
{
    if seen.len() > 0 {
        let front = seen.drop_last();
        let before = staging::observed_all(attributes, front);
        let after = staging::observed_all(attributes, seen);
        lemma_observed_admits(attributes, front);
        assert forall|name: Seq<char>, kind: ValueType|
            admits_kind(attributes, name, kind) implies #[trigger] admits_kind(
            after,
            name,
            kind,
        ) by {
            assert(admits_kind(before, name, kind));
        }
        assert forall|k: int| 0 <= k < seen.len() implies admits_kind(
            after,
            (#[trigger] seen[k]).name,
            seen[k].value.kind(),
        ) by {
            if k < front.len() {
                assert(front[k] == seen[k]);
                assert(admits_kind(before, front[k].name, front[k].value.kind()));
            }
        }
    }
}

/// The schema that events give admits every value of theirs.
proof fn lemma_schema_admits(events: Seq<EventView>)
    ensures
        forall|i: int, k: int|
            0 <= i < events.len() && 0 <= k < events[i].attributes.len() ==> admits_kind(
                staging::entry(staging::schema_of(events), events[i].event_type),
                (#[trigger] events[i].attributes[k]).name,
                events[i].attributes[k].value.kind(),
            ),
    decreases events.len(),
{
    if events.len() > 0 {
        let front = events.drop_last();
        let last = events.last();
        let before = staging::schema_of(front);
        let after = staging::schema_of(events);
        lemma_schema_admits(front);
        lemma_observed_admits(staging::entry(before, last.event_type), last.attributes);
        assert forall|i: int, k: int|
            0 <= i < events.len() && 0 <= k < events[i].attributes.len() implies admits_kind(
            staging::entry(after, events[i].event_type),
            (#[trigger] events[i].attributes[k]).name,
            events[i].attributes[k].value.kind(),
        ) by {
            let a = events[i].attributes[k];
            if i < front.len() {
                assert(front[i] == events[i]);
                assert(front[i].attributes[k] == a);
                assert(admits_kind(
                    staging::entry(before, events[i].event_type),
                    a.name,
                    a.value.kind(),
                ));
            } else {
                assert(last.attributes[k] == a);
            }
        }
    }
}

/// Events that conform to their schema have values of one type per attribute.
proof fn lemma_conformed_uniform(events: Seq<EventView>, after: Seq<EventView>)
    requires
        after.len() == events.len(),
        forall|i: int|
            0 <= i < events.len() ==> #[trigger] after[i] == staging::conformed_event(
                staging::schema_of(events),
                events[i],
            ),
    ensures
        uniform(after),
{
    let schema = staging::schema_of(events);
    lemma_schema_admits(events);
    assert forall|i: int, k: int|
        0 <= i < after.len() && 0 <= k < after[i].attributes.len() implies (
    #[trigger] after[i].attributes[k]).value.kind() == staging::entry(
        schema,
        after[i].event_type,
    )[after[i].attributes[k].name] by {
        assert(after[i] == staging::conformed_event(schema, events[i]));
        assert(admits_kind(
            staging::entry(schema, events[i].event_type),
            events[i].attributes[k].name,
            events[i].attributes[k].value.kind(),
        ));
    }
}

/// After a filter or a rename, the values of every attribute of an event type
/// have one type.
pub proof fn law_events_become_uniform(
    log: LogView,
    filter: FilterView,
    renames: Map<Seq<char>, Seq<char>>,
)
    ensures
        uniform(log.retaining(filter).events),
        uniform(log.renaming(renames).events),
{
    restaging::lemma_restaged_ids(log);
    lemma_conformed_uniform(
        staging::restaged(log).retained(filter).events,
        log.retaining(filter).events,
    );
    lemma_conformed_uniform(
        staging::restaged(log).renamed(renames).events,
        log.renaming(renames).events,
    );
}

/// After a filter or a rename, the event types declared are those of the
/// events.
pub proof fn law_declared_types_occur(
    log: LogView,
    filter: FilterView,
    renames: Map<Seq<char>, Seq<char>>,
)
    ensures
        forall|name: Seq<char>| #[trigger]
            validity::declares(log.retaining(filter).event_types, name) <==> restaging::occurs(
                log.retaining(filter).events,
                name,
            ),
        forall|name: Seq<char>| #[trigger]
            validity::declares(log.renaming(renames).event_types, name) <==> restaging::occurs(
                log.renaming(renames).events,
                name,
            ),
{
    let kept = staging::restaged(log).retained(filter);
    let renamed = staging::restaged(log).renamed(renames);
    lemma_declared_occur(kept);
    lemma_declared_occur(renamed);
}

proof fn lemma_declared_occur(s: StagingView)
    requires
        s.event_schema == staging::schema_of(s.events),
    ensures
        forall|name: Seq<char>| #[trigger]
            validity::declares(s.sealed().event_types, name) <==> restaging::occurs(
                s.sealed().events,
                name,
            ),
{
    let log = s.sealed();
    restaging::lemma_schema_of(s.events);
    sealing::lemma_declarations(s.event_schema);
    assert forall|name: Seq<char>| #[trigger] validity::declares(log.event_types, name)
        <==> restaging::occurs(log.events, name) by {
        assert(s.event_schema.contains_key(name) <==> restaging::occurs(s.events, name));
        if restaging::occurs(s.events, name) {
            let i = choose|i: int|
                0 <= i < s.events.len() && #[trigger] s.events[i].event_type == name;
            assert(log.events[i].event_type == name);
        }
        if restaging::occurs(log.events, name) {
            let i = choose|i: int|
                0 <= i < log.events.len() && #[trigger] log.events[i].event_type == name;
            assert(s.events[i].event_type == name);
        }
    }
}

/// Whether `after` is what a step that is no union may make of the event
/// `before`. It keeps its id and time and the names of its attributes, whose
/// values are the same or their texts. Its type changes only by a rename, and
/// its relations are some of those it had; resolving ids leads them all to the
/// resolved ids, and lifting keeps them all and adds some with its qualifier.
pub open spec fn derives(step: StepView, before: EventView, after: EventView) -> bool {
    &&& after.id == before.id
    &&& after.time == before.time
    &&& after.event_type == match step {
        StepView::RenameEventTypes(renames) => names::resolved(renames, before.event_type),
        _ => before.event_type,
    }
    &&& after.attributes.len() == before.attributes.len()
    &&& forall|k: int|
        0 <= k < before.attributes.len() ==> (#[trigger] after.attributes[k]).name
            == before.attributes[k].name && sealing::stands_for(
            after.attributes[k].value,
            before.attributes[k].value,
        )
    &&& match step {
        StepView::MapObjectIds(aliases) => after.relationships == staging::resolved_relations(
            aliases,
            before.relationships,
        ),
        StepView::LiftEvents(lift) => before.relationships.is_prefix_of(after.relationships)
            && forall|r: RelationView| #[trigger]
            after.relationships.contains(r) ==> before.relationships.contains(r) || r.qualifier
                == lift.qualifier,
        _ => forall|r: RelationView| #[trigger]
            after.relationships.contains(r) ==> before.relationships.contains(r),
    }
}

/// Whether `after` holds what the step makes of events of `before`: of those
/// that `pred` picks, in order.
pub open spec fn picks(
    step: StepView,
    before: LogView,
    after: LogView,
    pred: spec_fn(EventView) -> bool,
) -> bool {
    let kept = before.events.filter(pred);
    after.events.len() == kept.len() && forall|i: int|
        0 <= i < kept.len() ==> derives(step, kept[i], #[trigger] after.events[i])
}

/// The events that a step picks from the log, if it is no union.
pub open spec fn picked(step: StepView, index: int, log: LogView) -> spec_fn(EventView) -> bool {
    match step.filter(index) {
        Some(Ok(filter)) => |e: EventView| filter.keeps(e),
        _ => match step {
            StepView::KeepObjectTypes(names) => {
                let kept = log.ids_of_types(names);
                |e: EventView| sublog::restricted_event(e, kept).relationships.len() > 0
            },
            StepView::KeepRelatedTo(related) => {
                let kept = match related.expansion(index) {
                    Ok(expansion) => log.reached(related.object_type, expansion),
                    Err(_) => Set::empty(),
                };
                |e: EventView| sublog::restricted_event(e, kept).relationships.len() > 0
            },
            _ => |e: EventView| true,
        },
    }
}

/// Restricting a log picks the events that still relate to a kept object.
proof fn lemma_restricted_picks(step: StepView, log: LogView, kept: Set<Seq<char>>)
    requires
        step !is RenameEventTypes,
        step !is MapObjectIds,
        step !is LiftEvents,
    ensures
        picks(
            step,
            log,
            log.restricted(kept),
            |e: EventView| sublog::restricted_event(e, kept).relationships.len() > 0,
        ),
{
    let pred = |e: EventView| sublog::restricted_event(e, kept).relationships.len() > 0;
    let picked = log.events.filter(pred);
    let after = log.restricted(kept);
    lemma_map_filter(log.events, kept);
    assert forall|i: int| 0 <= i < picked.len() implies derives(
        step,
        picked[i],
        #[trigger] after.events[i],
    ) by {
        let held = |r: RelationView| kept.contains(r.object_id);
        assert(after.events[i] == sublog::restricted_event(picked[i], kept));
        assert forall|r: RelationView| #[trigger]
            after.events[i].relationships.contains(r) implies picked[i].relationships.contains(
            r,
        ) by {
            picked[i].relationships.lemma_filter_contains_rev(held, r);
        }
    }
}

/// A list mapped and filtered is the list filtered and mapped.
proof fn lemma_map_filter(events: Seq<EventView>, kept: Set<Seq<char>>)
    ensures
        sublog::restricted_events(events, kept) == events.filter(
            |e: EventView| sublog::restricted_event(e, kept).relationships.len() > 0,
        ).map_values(|e: EventView| sublog::restricted_event(e, kept)),
    decreases events.len(),
{
    let strip = |e: EventView| sublog::restricted_event(e, kept);
    let held = |e: EventView| e.relationships.len() > 0;
    let pred = |e: EventView| sublog::restricted_event(e, kept).relationships.len() > 0;
    if events.len() == 0 {
        reveal_with_fuel(Seq::filter, 1);
        assert(events.map_values(strip) =~= Seq::<EventView>::empty());
        assert(events.map_values(strip).filter(held) =~= events.filter(pred).map_values(strip));
    } else {
        let front = events.drop_last();
        let last = events.last();
        lemma_map_filter(front, kept);
        assert(front.push(last) =~= events);
        front.lemma_push_map_commute(strip, last);
        front.map_values(strip).lemma_filter_push(strip(last), held);
        front.lemma_filter_push(last, pred);
        front.filter(pred).lemma_push_map_commute(strip, last);
    }
}

/// Every step but a union picks events of the log: it adds none and keeps
/// their order.
pub proof fn law_steps_pick_events(step: StepView, index: int, log: LogView, input: InputView)
    requires
        step !is Union,
    ensures
        step.outcome(index, log, input) matches Ok((after, _)) ==> picks(
            step,
            log,
            after,
            picked(step, index, log),
        ),
{
    restaging::lemma_restaged_ids(log);
    match step.filter(index) {
        Some(Ok(filter)) => {
            law_filters_keep_exactly(log, filter);
        },
        Some(Err(_)) => {},
        None => match step {
            StepView::KeepObjectTypes(names) => {
                lemma_restricted_picks(step, log, log.ids_of_types(names));
            },
            StepView::KeepRelatedTo(related) => {
                if let Ok(expansion) = related.expansion(index) {
                    lemma_restricted_picks(
                        step,
                        log,
                        log.reached(related.object_type, expansion),
                    );
                }
            },
            _ => {
                lists::lemma_filter_all(log.events, |e: EventView| true);
            },
        },
    }
}

/// Whether the event is what the step makes of one of the log.
pub open spec fn stems(step: StepView, log: LogView, event: EventView) -> bool {
    exists|k: int| 0 <= k < log.events.len() && derives(step, #[trigger] log.events[k], event)
}

/// No step but a union adds events: every event after it is what it makes of
/// one that was there before, and there are not more of them.
pub proof fn law_steps_invent_no_events(
    step: StepView,
    index: int,
    log: LogView,
    input: InputView,
)
    requires
        step !is Union,
    ensures
        step.outcome(index, log, input) matches Ok((after, _)) ==> after.events.len()
            <= log.events.len() && (forall|id: Seq<char>| #[trigger]
            after.has_event(id) ==> log.has_event(id)) && forall|i: int|
            0 <= i < after.events.len() ==> stems(step, log, #[trigger] after.events[i]),
{
    law_steps_pick_events(step, index, log, input);
    if let Ok((after, _)) = step.outcome(index, log, input) {
        let pred = picked(step, index, log);
        let kept = log.events.filter(pred);
        let places = lists::lemma_filter_places(log.events, pred);
        lists::lemma_filter_parts(log.events, pred);
        assert forall|id: Seq<char>| #[trigger] after.has_event(id) implies log.has_event(id) by {
            let i = choose|i: int|
                0 <= i < after.events.len() && #[trigger] after.events[i].id == id;
            assert(kept[i].id == id);
            assert(log.events[places[i]].id == id);
        }
        assert forall|i: int| 0 <= i < after.events.len() implies stems(
            step,
            log,
            #[trigger] after.events[i],
        ) by {
            assert(derives(step, log.events[places[i]], after.events[i]));
        }
    }
}

/// The number of dropped events that a preview tells is true: it is the
/// difference of the counts before and after the step, for every step that is
/// no union.
pub proof fn law_dropped_total_is_true(stage: StageView, index: int, input: InputView)
    requires
        stage.step !is Union,
        integrity::distinct_events(stage.before.events),
        stage.step.outcome(index, stage.before, input) == Ok::<
            (LogView, NotesView),
            ErrorView,
        >((stage.after, stage.notes)),
    ensures
        stage.dropped().len() == stage.before.events.len() - stage.after.events.len(),
{
    let log = stage.before;
    let after = stage.after;
    let pred = picked(stage.step, index, log);
    law_steps_pick_events(stage.step, index, log, input);
    lists::lemma_filter_parts(log.events, pred);
    let kept = log.events.filter(pred);
    let places = lists::lemma_filter_places(log.events, pred);
    let gone = |e: EventView| !after.has_event(e.id);
    let other = |e: EventView| !pred(e);
    assert forall|k: int| 0 <= k < log.events.len() implies gone(#[trigger] log.events[k]) == other(
        log.events[k],
    ) by {
        let event = log.events[k];
        if pred(event) {
            assert(places.contains(k));
            let i = choose|i: int| 0 <= i < places.len() && places[i] == k;
            assert(after.events[i].id == event.id);
        } else if after.has_event(event.id) {
            let i = choose|i: int|
                0 <= i < after.events.len() && #[trigger] after.events[i].id == event.id;
            assert(kept[i].id == event.id);
            let m = places[i];
            assert(log.events[m].id == event.id);
            if m < k {
                assert(log.events[m].id != log.events[k].id);
            } else if k < m {
                assert(log.events[k].id != log.events[m].id);
            }
        }
    }
    lists::lemma_filter_agrees(log.events, gone, other);
    assert(stage.dropped() == log.events.filter(gone));
}

} // verus!
