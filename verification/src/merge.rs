//! Merging another log into the log.

use vstd::hash_map::StringHashMap;
use vstd::prelude::*;

use crate::double;
use crate::double::Double;
use crate::error::ErrorView;
use crate::error::TransformError;
use crate::model::AttributeView;
use crate::model::Event;
use crate::model::EventAttribute;
use crate::model::EventView;
use crate::model::Log;
use crate::model::LogView;
use crate::model::Object;
use crate::model::Relationship;
use crate::model::Value;
use crate::model::ValueView;
use crate::staging;
use crate::validity;

verus! {

/// How many conflicting ids an error names at most.
pub const NAMED_CONFLICTS: usize = 5;

/// Whether two values are the same. Floats are compared as numbers: the two
/// zeros are the same, and a NaN is not even the same as itself.
pub open spec fn same_value(a: ValueView, b: ValueView) -> bool {
    match (a, b) {
        (ValueView::Float(x), ValueView::Float(y)) => double::equal(x, y),
        _ => a == b,
    }
}

/// Whether two lists hold the same attributes in the same order.
pub open spec fn same_attributes(a: Seq<AttributeView>, b: Seq<AttributeView>) -> bool {
    a.len() == b.len() && forall|i: int|
        0 <= i < a.len() ==> (#[trigger] a[i]).name == b[i].name && same_value(
            a[i].value,
            b[i].value,
        )
}

/// Whether two events are identical.
pub open spec fn same_event(a: EventView, b: EventView) -> bool {
    &&& a.id == b.id
    &&& a.event_type == b.event_type
    &&& a.time == b.time
    &&& same_attributes(a.attributes, b.attributes)
    &&& a.relationships == b.relationships
}

/// The event of this id; of several events the last counts.
pub open spec fn event_of(events: Seq<EventView>, id: Seq<char>) -> Option<EventView>
    decreases events.len(),
{
    if events.len() == 0 {
        None
    } else if events.last().id == id {
        Some(events.last())
    } else {
        event_of(events.drop_last(), id)
    }
}

impl LogView {
    /// Whether the log holds an event that is identical to this one.
    pub open spec fn repeats(self, event: EventView) -> bool {
        event_of(self.events, event.id) matches Some(ours) && same_event(ours, event)
    }

    /// Whether the log holds an event that shares its id with this one but
    /// differs.
    pub open spec fn contradicts(self, event: EventView) -> bool {
        event_of(self.events, event.id) matches Some(ours) && !same_event(ours, event)
    }

    /// How many events of another log are identical to events of this one.
    pub open spec fn duplicates(self, other: LogView) -> nat {
        other.events.filter(|e: EventView| self.repeats(e)).len()
    }

    /// The ids of the events of another log that differ from those of this
    /// one, in the order of the other log.
    pub open spec fn conflicts(self, other: LogView) -> Seq<Seq<char>> {
        other.events.filter(|e: EventView| self.contradicts(e)).map_values(|e: EventView| e.id)
    }

    /// The events of another log that this log has no event of the same id
    /// for.
    pub open spec fn fresh_events(self, other: LogView) -> Seq<EventView> {
        other.events.filter(|e: EventView| event_of(self.events, e.id) is None)
    }

    /// The log with another one merged into it, sealed: first
    /// come the objects of the other, then its fresh events.
    pub open spec fn united(self, other: LogView) -> LogView {
        staging::restaged(self).with_log_objects(other.objects).with_events(
            self.fresh_events(other),
        ).sealed()
    }

    /// What merging another log in step `step` gives: the log and the number
    /// of duplicates.
    pub open spec fn uniting(self, step: int, other: LogView) -> Result<(LogView, nat), ErrorView> {
        let conflicts = self.conflicts(other);
        if conflicts.len() > 0 {
            Err(
                ErrorView::UnionConflict {
                    step,
                    total: conflicts.len() as int,
                    ids: if conflicts.len() > NAMED_CONFLICTS {
                        conflicts.take(NAMED_CONFLICTS as int)
                    } else {
                        conflicts
                    },
                },
            )
        } else if self.united(other).valid() {
            Ok((self.united(other), self.duplicates(other)))
        } else {
            Err(ErrorView::Invalid(validity::violations(self.united(other))))
        }
    }
}

/// What reading the file of a union gave: its path, and the log or why it
/// cannot be read, in the model.
#[verifier::ext_equal]
pub struct InputView {
    pub path: Seq<char>,
    pub outcome: Result<LogView, Seq<char>>,
}

impl InputView {
    /// What merging the input into `log` in step `step` gives.
    pub open spec fn merged(self, step: int, log: LogView) -> Result<(LogView, nat), ErrorView> {
        match self.outcome {
            Ok(other) => log.uniting(step, other),
            Err(message) => Err(ErrorView::UnionRead { step, path: self.path, message }),
        }
    }
}

/// What reading the file of a union gave: its path, and the log or why it
/// cannot be read.
#[derive(Debug)]
pub struct UnionInput {
    pub path: String,
    pub outcome: Result<Log, String>,
}

impl View for UnionInput {
    type V = InputView;

    open spec fn view(&self) -> InputView {
        InputView {
            path: self.path@,
            outcome: match self.outcome {
                Ok(log) => Ok(log@),
                Err(message) => Err(message@),
            },
        }
    }
}

impl DeepView for UnionInput {
    type V = InputView;

    open spec fn deep_view(&self) -> InputView {
        self@
    }
}

/// Whether two values are the same.
fn values_match(a: &Value, b: &Value) -> (same: bool)
    ensures
        same == same_value(a@, b@),
{
    match (a, b) {
        (Value::Boolean(x), Value::Boolean(y)) => *x == *y,
        (Value::Integer(x), Value::Integer(y)) => *x == *y,
        (Value::Float(x), Value::Float(y)) => Double { bits: x.bits() }.same(
            &Double { bits: y.bits() },
        ),
        (Value::Time(x), Value::Time(y)) => x.same(y),
        (Value::String(x), Value::String(y)) => *x == *y,
        _ => false,
    }
}

/// Whether two lists hold the same attributes in the same order.
fn attributes_match(a: &Vec<EventAttribute>, b: &Vec<EventAttribute>) -> (same: bool)
    ensures
        same == same_attributes(a.deep_view(), b.deep_view()),
{
    if a.len() != b.len() {
        return false;
    }
    let mut i: usize = 0;
    while i < a.len()
        invariant
            i <= a.len(),
            a.len() == b.len(),
            forall|k: int|
                0 <= k < i ==> (#[trigger] a.deep_view()[k]).name == b.deep_view()[k].name
                    && same_value(a.deep_view()[k].value, b.deep_view()[k].value),
        decreases a.len() - i,
    {
        assert(a.deep_view()[i as int] == a[i as int]@);
        assert(b.deep_view()[i as int] == b[i as int]@);
        if a[i].name != b[i].name || !values_match(&a[i].value, &b[i].value) {
            return false;
        }
        i += 1;
    }
    true
}

/// Whether two lists hold the same relationships in the same order.
fn relations_match(a: &Vec<Relationship>, b: &Vec<Relationship>) -> (same: bool)
    ensures
        same == (a.deep_view() == b.deep_view()),
{
    if a.len() != b.len() {
        assert(a.deep_view().len() != b.deep_view().len());
        return false;
    }
    let mut i: usize = 0;
    while i < a.len()
        invariant
            i <= a.len(),
            a.len() == b.len(),
            forall|k: int| 0 <= k < i ==> #[trigger] a.deep_view()[k] == b.deep_view()[k],
        decreases a.len() - i,
    {
        assert(a.deep_view()[i as int] == a[i as int]@);
        assert(b.deep_view()[i as int] == b[i as int]@);
        if a[i].object_id != b[i].object_id || a[i].qualifier != b[i].qualifier {
            assert(a.deep_view()[i as int] != b.deep_view()[i as int]);
            return false;
        }
        i += 1;
    }
    assert(a.deep_view() =~= b.deep_view());
    true
}

/// Whether two events are identical.
pub fn events_match(a: &Event, b: &Event) -> (same: bool)
    ensures
        same == same_event(a@, b@),
{
    a.id == b.id && a.event_type == b.event_type && a.time.same(&b.time) && attributes_match(
        &a.attributes,
        &b.attributes,
    ) && relations_match(&a.relationships, &b.relationships)
}

/// Whether a table holds the position of each event.
spec fn locates(positions: Map<Seq<char>, usize>, events: Seq<EventView>) -> bool {
    forall|id: Seq<char>|
        #![trigger event_of(events, id)]
        if positions.contains_key(id) {
            positions[id] < events.len() && event_of(events, id) == Some(
                events[positions[id] as int],
            )
        } else {
            event_of(events, id) is None
        }
}

/// The position of each event.
fn locate(events: &Vec<Event>) -> (positions: StringHashMap<usize>)
    ensures
        locates(positions@, events.deep_view()),
{
    let mut positions: StringHashMap<usize> = StringHashMap::new();
    let ghost all = events.deep_view();
    let mut i: usize = 0;
    while i < events.len()
        invariant
            i <= events.len(),
            all == events.deep_view(),
            locates(positions@, all.take(i as int)),
        decreases events.len() - i,
    {
        let ghost before = positions@;
        positions.insert(events[i].id.clone(), i);
        proof {
            let (some, more) = (all.take(i as int), all.take(i + 1));
            assert(more.drop_last() =~= some);
            assert(more.last() == events[i as int]@);
            assert forall|id: Seq<char>|
                #![trigger event_of(more, id)]
                if positions@.contains_key(id) {
                    positions@[id] < more.len() && event_of(more, id) == Some(
                        more[positions@[id] as int],
                    )
                } else {
                    event_of(more, id) is None
                } by {
                assert(id != more.last().id ==> event_of(more, id) == event_of(some, id));
            }
        }
        i += 1;
    }
    assert(all.take(i as int) =~= all);
    positions
}

/// How many events of the other log are identical to events of the log, and
/// the ids of those that share an id but differ.
fn compare(log: &Log, positions: &StringHashMap<usize>, other: &Log) -> (found: (
    usize,
    Vec<String>,
))
    requires
        locates(positions@, log@.events),
    ensures
        found.0 == log@.duplicates(other@),
        found.1.deep_view() == log@.conflicts(other@),
{
    let ghost all = other@.events;
    let ghost repeated = |e: EventView| log@.repeats(e);
    let ghost contradicted = |e: EventView| log@.contradicts(e);
    let ghost id_of = |e: EventView| e.id;
    let mut duplicates: usize = 0;
    let mut conflicts: Vec<String> = Vec::new();
    let mut i: usize = 0;
    proof {
        assert(all.take(0) =~= Seq::<EventView>::empty());
        reveal_with_fuel(Seq::filter, 1);
        assert(conflicts.deep_view() =~= all.take(0).filter(contradicted).map_values(id_of));
    }
    while i < other.events.len()
        invariant
            i <= other.events.len(),
            duplicates <= i,
            locates(positions@, log@.events),
            all == other@.events,
            repeated == (|e: EventView| log@.repeats(e)),
            contradicted == (|e: EventView| log@.contradicts(e)),
            id_of == (|e: EventView| e.id),
            duplicates == all.take(i as int).filter(repeated).len(),
            conflicts.deep_view() == all.take(i as int).filter(contradicted).map_values(id_of),
        decreases other.events.len() - i,
    {
        let theirs = &other.events[i];
        let ghost before = conflicts.deep_view();
        proof {
            let some = all.take(i as int);
            assert(all[i as int] == theirs@);
            assert(all.take(i + 1) =~= some.push(theirs@));
            some.lemma_filter_push(theirs@, repeated);
            some.lemma_filter_push(theirs@, contradicted);
            some.filter(contradicted).lemma_push_map_commute(id_of, theirs@);
            assert(event_of(log@.events, theirs.id@) is Some || event_of(
                log@.events,
                theirs.id@,
            ) is None);
        }
        if let Some(at) = positions.get(theirs.id.as_str()) {
            assert(log@.events[*at as int] == log.events[*at as int]@);
            if events_match(&log.events[*at], theirs) {
                duplicates += 1;
            } else {
                conflicts.push(theirs.id.clone());
                assert(conflicts.deep_view() =~= before.push(theirs.id@));
            }
        }
        i += 1;
    }
    assert(all.take(i as int) =~= all);
    (duplicates, conflicts)
}

/// Adds an object of a log.
fn stage_object(target: &mut ocel_etl::StagingLog, object: &Object)
    ensures
        staging::staging_contents(*final(target)) == staging::staging_contents(
            *old(target),
        ).with_log_object(object@),
{
    let ghost typed = staging::staging_contents(*target).with_object(
        object.id@,
        object.object_type@,
    );
    staging::upsert_object(target, &object.id, &object.object_type);
    let ghost observations = object.attributes.deep_view();
    let mut i: usize = 0;
    while i < object.attributes.len()
        invariant
            i <= object.attributes.len(),
            observations == object.attributes.deep_view(),
            staging::staging_contents(*target) == typed.with_observations(
                object.id@,
                observations.take(i as int),
            ),
        decreases object.attributes.len() - i,
    {
        staging::add_observation(target, &object.id, &object.attributes[i]);
        proof {
            assert(observations.take(i + 1).drop_last() =~= observations.take(i as int));
            assert(observations.take(i + 1).last() == object.attributes[i as int]@);
        }
        i += 1;
    }
    assert(observations.take(i as int) =~= observations);
    let ghost observed = typed.with_observations(object.id@, observations);
    let ghost relations = object.relationships.deep_view();
    let mut k: usize = 0;
    while k < object.relationships.len()
        invariant
            k <= object.relationships.len(),
            relations == object.relationships.deep_view(),
            staging::staging_contents(*target) == observed.with_o2os(
                object.id@,
                relations.take(k as int),
            ),
        decreases object.relationships.len() - k,
    {
        staging::add_o2o(target, &object.id, &object.relationships[k]);
        proof {
            assert(relations.take(k + 1).drop_last() =~= relations.take(k as int));
            assert(relations.take(k + 1).last() == object.relationships[k as int]@);
        }
        k += 1;
    }
    assert(relations.take(k as int) =~= relations);
}

/// Adds the objects of a log.
fn stage_objects(target: &mut ocel_etl::StagingLog, objects: &Vec<Object>)
    ensures
        staging::staging_contents(*final(target)) == staging::staging_contents(
            *old(target),
        ).with_log_objects(objects.deep_view()),
{
    let ghost start = staging::staging_contents(*target);
    let ghost all = objects.deep_view();
    let mut i: usize = 0;
    while i < objects.len()
        invariant
            i <= objects.len(),
            all == objects.deep_view(),
            staging::staging_contents(*target) == start.with_log_objects(all.take(i as int)),
        decreases objects.len() - i,
    {
        stage_object(target, &objects[i]);
        proof {
            assert(all.take(i + 1).drop_last() =~= all.take(i as int));
            assert(all.take(i + 1).last() == objects[i as int]@);
        }
        i += 1;
    }
    assert(all.take(i as int) =~= all);
}

/// Adds the events of the other log that the log has no event of the same id
/// for.
fn stage_fresh_events(
    target: &mut ocel_etl::StagingLog,
    log: &Log,
    positions: &StringHashMap<usize>,
    other: &Log,
)
    requires
        locates(positions@, log@.events),
    ensures
        staging::staging_contents(*final(target)) == staging::staging_contents(
            *old(target),
        ).with_events(log@.fresh_events(other@)),
{
    let ghost start = staging::staging_contents(*target);
    let ghost all = other@.events;
    let ghost fresh = |e: EventView| event_of(log@.events, e.id) is None;
    let mut i: usize = 0;
    proof {
        assert(all.take(0) =~= Seq::<EventView>::empty());
        reveal_with_fuel(Seq::filter, 1);
    }
    while i < other.events.len()
        invariant
            i <= other.events.len(),
            locates(positions@, log@.events),
            all == other@.events,
            fresh == (|e: EventView| event_of(log@.events, e.id) is None),
            staging::staging_contents(*target) == start.with_events(
                all.take(i as int).filter(fresh),
            ),
        decreases other.events.len() - i,
    {
        let event = &other.events[i];
        let ghost before = all.take(i as int).filter(fresh);
        proof {
            assert(all[i as int] == event@);
            assert(all.take(i + 1) =~= all.take(i as int).push(event@));
            all.take(i as int).lemma_filter_push(event@, fresh);
            assert(event_of(log@.events, event.id@) is Some || event_of(
                log@.events,
                event.id@,
            ) is None);
        }
        if !positions.contains_key(event.id.as_str()) {
            staging::add_event(target, event);
            assert(before.push(event@).drop_last() =~= before);
        }
        i += 1;
    }
    assert(all.take(i as int) =~= all);
}

/// The first items of a list, [`NAMED_CONFLICTS`] at most.
fn named(ids: &Vec<String>) -> (first: Vec<String>)
    ensures
        first.deep_view() == (if ids.len() > NAMED_CONFLICTS {
            ids.deep_view().take(NAMED_CONFLICTS as int)
        } else {
            ids.deep_view()
        }),
{
    let mut first: Vec<String> = Vec::new();
    let mut i: usize = 0;
    while i < ids.len() && i < NAMED_CONFLICTS
        invariant
            i <= ids.len(),
            i <= NAMED_CONFLICTS,
            first.deep_view() == ids.deep_view().take(i as int),
        decreases ids.len() - i,
    {
        let ghost before = first.deep_view();
        first.push(ids[i].clone());
        proof {
            assert(first.deep_view() =~= before.push(ids[i as int]@));
            assert(ids.deep_view().take(i + 1) =~= before.push(ids[i as int]@));
        }
        i += 1;
    }
    assert(ids.deep_view().take(ids.len() as int) =~= ids.deep_view());
    first
}

/// Merge another log into the log, in step `step`.
///
/// Objects of one id merge: the first type stays, attribute observations and
/// O2O relations append. Events of one id must be identical: identical ones
/// are skipped and counted, differing ones fail with the conflicting ids.
pub fn unite(step: usize, log: &Log, other: &Log) -> (outcome: Result<
    (Log, usize),
    TransformError,
>)
    ensures
        outcome matches Ok((merged, duplicates)) ==> log@.uniting(step as int, other@) == Ok::<
            (LogView, nat),
            ErrorView,
        >((merged@, duplicates as nat)),
        outcome matches Err(error) ==> log@.uniting(step as int, other@) == Err::<
            (LogView, nat),
            ErrorView,
        >(error@),
        outcome matches Err(TransformError::Invalid(found)) ==> log@.united(
            other@,
        ).commits_exactly(found.deep_view()),
{
    let positions = locate(&log.events);
    let (duplicates, conflicts) = compare(log, &positions, other);
    if conflicts.len() > 0 {
        return Err(
            TransformError::UnionConflict {
                step,
                total: conflicts.len(),
                ids: named(&conflicts),
            },
        );
    }
    let mut target = staging::stage(log);
    stage_objects(&mut target, &other.objects);
    stage_fresh_events(&mut target, log, &positions, other);
    match staging::seal(target) {
        Ok(merged) => Ok((merged, duplicates)),
        Err(found) => Err(TransformError::Invalid(found)),
    }
}

/// Merge what reading a file gave into the log, in step `step`.
pub fn union_logs(step: usize, input: &UnionInput, log: &Log) -> (outcome: Result<
    (Log, usize),
    TransformError,
>)
    ensures
        outcome matches Ok((merged, duplicates)) ==> input@.merged(step as int, log@) == Ok::<
            (LogView, nat),
            ErrorView,
        >((merged@, duplicates as nat)),
        outcome matches Err(error) ==> input@.merged(step as int, log@) == Err::<
            (LogView, nat),
            ErrorView,
        >(error@),
{
    match &input.outcome {
        Ok(other) => unite(step, log, other),
        Err(message) => Err(
            TransformError::UnionRead {
                step,
                path: input.path.clone(),
                message: message.clone(),
            },
        ),
    }
}

/// What an input says is what is read of it: the path, and the log or the
/// reason.
pub proof fn law_inputs_are_read_as_written(input: UnionInput)
    ensures
        input@.path == input.path@,
        input.outcome matches Ok(log) ==> input@.outcome == Ok::<LogView, Seq<char>>(log@),
        input.outcome matches Err(message) ==> input@.outcome == Err::<LogView, Seq<char>>(
            message@,
        ),
{
}

} // verus!
