//! Lifting events to the objects that their objects are linked with.

use vstd::hash_map::StringHashMap;
use vstd::prelude::*;

use crate::error::ErrorView;
use crate::graph;
use crate::integrity;
use crate::lists;
use crate::model::Event;
use crate::model::EventView;
use crate::model::Log;
use crate::model::LogView;
use crate::model::ObjectView;
use crate::model::RelationView;
use crate::model::Relationship;
use crate::recipe::LiftEvents;
use crate::recipe::LiftView;
use crate::text;

verus! {

impl EventView {
    /// Whether the event relates to an object of this id.
    pub open spec fn relates_to(self, id: Seq<char>) -> bool {
        exists|k: int|
            0 <= k < self.relationships.len() && #[trigger] self.relationships[k].object_id == id
    }
}

impl LogView {
    /// Whether an object of the one type and an object of the other type are
    /// O2O-linked, in either direction.
    pub open spec fn linked(self, lift: LiftView, f: Seq<char>, t: Seq<char>) -> bool {
        &&& self.has_typed_object(f, lift.from)
        &&& self.has_typed_object(t, lift.to)
        &&& self.has_o2o(f, t) || self.has_o2o(t, f)
    }

    /// The objects that the event is lifted to: those linked with an object it
    /// relates to, unless it relates to them already.
    pub open spec fn additions(self, lift: LiftView, event: EventView) -> Set<Seq<char>> {
        Set::new(
            |t: Seq<char>|
                !event.relates_to(t) && exists|f: Seq<char>| #[trigger]
                    event.relates_to(f) && self.linked(lift, f, t),
        )
    }

    /// Whether the event gains a relation.
    pub open spec fn gains(self, lift: LiftView, event: EventView) -> bool {
        lift.event_types.contains(event.event_type) && exists|t: Seq<char>| #[trigger]
            self.additions(lift, event).contains(t)
    }

    /// The event lifted: it gains a relation to each addition, in the order of
    /// their ids.
    pub open spec fn lifted_event(self, lift: LiftView, event: EventView) -> EventView {
        if self.gains(lift, event) {
            EventView {
                relationships: event.relationships + text::in_order(
                    self.additions(lift, event),
                ).map_values(
                    |t: Seq<char>| RelationView { object_id: t, qualifier: lift.qualifier },
                ),
                ..event
            }
        } else {
            event
        }
    }

    /// The log with its events lifted.
    pub open spec fn lifting(self, lift: LiftView) -> LogView {
        LogView {
            events: self.events.map_values(|e: EventView| self.lifted_event(lift, e)),
            ..self
        }
    }

    /// How many events gain a relation.
    pub open spec fn lift_count(self, lift: LiftView) -> nat {
        self.events.filter(|e: EventView| self.gains(lift, e)).len()
    }
}

impl LiftView {
    /// Why the lift of step `step` is refused, if it is.
    pub open spec fn refusal(self, step: int) -> Option<ErrorView> {
        if self.event_types.len() == 0 {
            Some(ErrorView::EmptyLiftEventTypes { step })
        } else {
            None
        }
    }
}

/// Pairs of ids, found by the first.
struct Links {
    index: StringHashMap<usize>,
    lists: Vec<Vec<String>>,
}

impl View for Links {
    type V = Set<(Seq<char>, Seq<char>)>;

    closed spec fn view(&self) -> Set<(Seq<char>, Seq<char>)> {
        Set::new(
            |pair: (Seq<char>, Seq<char>)|
                self.index@.contains_key(pair.0)
                    && self.lists@[self.index@[pair.0] as int].deep_view().contains(pair.1),
        )
    }
}

impl Links {
    spec fn well_formed(self) -> bool {
        &&& forall|f: Seq<char>| #[trigger]
            self.index@.contains_key(f) ==> self.index@[f] < self.lists@.len()
        &&& forall|f: Seq<char>, g: Seq<char>|
            #![trigger self.index@.contains_key(f), self.index@.contains_key(g)]
            self.index@.contains_key(f) && self.index@.contains_key(g) && self.index@[f]
                == self.index@[g] ==> f == g
    }

    fn new() -> (links: Links)
        ensures
            links.well_formed(),
            links@ == Set::<(Seq<char>, Seq<char>)>::empty(),
    {
        let links = Links { index: StringHashMap::new(), lists: Vec::new() };
        assert(links@ =~= Set::<(Seq<char>, Seq<char>)>::empty());
        links
    }

    fn insert(&mut self, f: &String, t: &String)
        requires
            old(self).well_formed(),
        ensures
            final(self).well_formed(),
            final(self)@ == old(self)@.insert((f@, t@)),
    {
        let found: Option<usize> = match self.index.get(f.as_str()) {
            Some(at) => Some(*at),
            None => None,
        };
        match found {
            Some(at) => {
                self.lists[at].push(t.clone());
                proof {
                    let before = old(self).lists@[at as int].deep_view();
                    let after = self.lists@[at as int].deep_view();
                    assert(after =~= before.push(t@));
                    assert forall|u: Seq<char>| after.contains(u) <==> before.contains(u) || u
                        == t@ by {
                        if before.contains(u) {
                            let k = choose|k: int| 0 <= k < before.len() && before[k] == u;
                            assert(after[k] == u);
                        }
                        assert(after[before.len() as int] == t@);
                    }
                }
            },
            None => {
                self.index.insert(f.clone(), self.lists.len());
                let mut list: Vec<String> = Vec::new();
                list.push(t.clone());
                assert(list.deep_view()[0] == t@);
                assert(list.deep_view().contains(t@));
                self.lists.push(list);
            },
        }
        assert(self@ =~= old(self)@.insert((f@, t@)));
    }
}

/// Whether one of the first relations, those of the first `i` objects and the
/// first `k` of the next, goes from `a` to `b`.
spec fn relation_before(
    objects: Seq<ObjectView>,
    i: int,
    k: int,
    a: Seq<char>,
    b: Seq<char>,
) -> bool {
    exists|j: int, m: int|
        (0 <= j < i || (j == i && m < k)) && j < objects.len() && 0 <= m
            < objects[j].relationships.len() && objects[j].id == a
            && #[trigger] objects[j].relationships[m].object_id == b
}

proof fn lemma_relation_before(objects: Seq<ObjectView>, i: int, k: int, a: Seq<char>, b: Seq<char>)
    requires
        0 <= i < objects.len(),
        0 <= k < objects[i].relationships.len(),
    ensures
        relation_before(objects, i, k + 1, a, b) <==> relation_before(objects, i, k, a, b) || (
        objects[i].id == a && objects[i].relationships[k].object_id == b),
{
    if relation_before(objects, i, k, a, b) {
        let (j, m) = choose|j: int, m: int|
            (0 <= j < i || (j == i && m < k)) && j < objects.len() && 0 <= m
                < objects[j].relationships.len() && objects[j].id == a
                && #[trigger] objects[j].relationships[m].object_id == b;
        assert(objects[j].relationships[m].object_id == b);
    }
}

proof fn lemma_relation_before_next(
    objects: Seq<ObjectView>,
    i: int,
    a: Seq<char>,
    b: Seq<char>,
)
    requires
        0 <= i < objects.len(),
    ensures
        relation_before(objects, i + 1, 0, a, b) <==> relation_before(
            objects,
            i,
            objects[i].relationships.len() as int,
            a,
            b,
        ),
{
    let k = objects[i].relationships.len() as int;
    if relation_before(objects, i, k, a, b) {
        let (j, m) = choose|j: int, m: int|
            (0 <= j < i || (j == i && m < k)) && j < objects.len() && 0 <= m
                < objects[j].relationships.len() && objects[j].id == a
                && #[trigger] objects[j].relationships[m].object_id == b;
        assert(objects[j].relationships[m].object_id == b);
    }
    if relation_before(objects, i + 1, 0, a, b) {
        let (j, m) = choose|j: int, m: int|
            (0 <= j < i + 1 || (j == i + 1 && m < 0)) && j < objects.len() && 0 <= m
                < objects[j].relationships.len() && objects[j].id == a
                && #[trigger] objects[j].relationships[m].object_id == b;
        assert(objects[j].relationships[m].object_id == b);
    }
}

/// Whether the links are those that the first relations make.
spec fn links_of(
    links: Set<(Seq<char>, Seq<char>)>,
    log: LogView,
    lift: LiftView,
    i: int,
    k: int,
) -> bool {
    forall|f: Seq<char>, t: Seq<char>| #[trigger]
        links.contains((f, t)) <==> log.has_typed_object(f, lift.from) && log.has_typed_object(
            t,
            lift.to,
        ) && (relation_before(log.objects, i, k, f, t) || relation_before(log.objects, i, k, t, f))
}

/// One more relation makes its links.
proof fn lemma_links_more(
    links: Set<(Seq<char>, Seq<char>)>,
    after: Set<(Seq<char>, Seq<char>)>,
    log: LogView,
    lift: LiftView,
    i: int,
    k: int,
)
    requires
        links_of(links, log, lift, i, k),
        0 <= i < log.objects.len(),
        0 <= k < log.objects[i].relationships.len(),
        ({
            let a = log.objects[i].id;
            let b = log.objects[i].relationships[k].object_id;
            let forward = if log.has_typed_object(a, lift.from) && log.has_typed_object(b, lift.to) {
                links.insert((a, b))
            } else {
                links
            };
            after == if log.has_typed_object(a, lift.to) && log.has_typed_object(b, lift.from) {
                forward.insert((b, a))
            } else {
                forward
            }
        }),
    ensures
        links_of(after, log, lift, i, k + 1),
{
    let a = log.objects[i].id;
    let b = log.objects[i].relationships[k].object_id;
    assert forall|f: Seq<char>, t: Seq<char>| #[trigger]
        after.contains((f, t)) <==> log.has_typed_object(f, lift.from) && log.has_typed_object(
            t,
            lift.to,
        ) && (relation_before(log.objects, i, k + 1, f, t) || relation_before(
            log.objects,
            i,
            k + 1,
            t,
            f,
        )) by {
        lemma_relation_before(log.objects, i, k, f, t);
        lemma_relation_before(log.objects, i, k, t, f);
        assert(links.contains((f, t)) <==> log.has_typed_object(f, lift.from)
            && log.has_typed_object(t, lift.to) && (relation_before(log.objects, i, k, f, t)
            || relation_before(log.objects, i, k, t, f)));
        assert((f, t) == (a, b) <==> f == a && t == b);
        assert((f, t) == (b, a) <==> f == b && t == a);
    }
}

/// The links of the log.
fn link_table(log: &Log, lift: &LiftEvents) -> (links: Links)
    ensures
        links.well_formed(),
        forall|f: Seq<char>, t: Seq<char>| #[trigger]
            links@.contains((f, t)) <==> log@.linked(lift@, f, t),
{
    let (_, from_ids) = graph::typed_ids(log, &lift.from);
    let (_, to_ids) = graph::typed_ids(log, &lift.to);
    let mut links = Links::new();
    let mut i: usize = 0;
    while i < log.objects.len()
        invariant
            i <= log.objects.len(),
            links.well_formed(),
            links_of(links@, log@, lift@, i as int, 0),
            forall|id: Seq<char>| #[trigger]
                from_ids@.contains(id) <==> log@.has_typed_object(id, lift@.from),
            forall|id: Seq<char>| #[trigger]
                to_ids@.contains(id) <==> log@.has_typed_object(id, lift@.to),
        decreases log.objects.len() - i,
    {
        let object = &log.objects[i];
        assert(log@.objects[i as int] == object@);
        let is_from = from_ids.contains(object.id.as_str());
        let is_to = to_ids.contains(object.id.as_str());
        let mut k: usize = 0;
        while k < object.relationships.len()
            invariant
                i < log.objects.len(),
                object == log.objects[i as int],
                log@.objects[i as int] == object@,
                k <= object.relationships.len(),
                links.well_formed(),
                links_of(links@, log@, lift@, i as int, k as int),
                is_from == log@.has_typed_object(object.id@, lift@.from),
                is_to == log@.has_typed_object(object.id@, lift@.to),
                forall|id: Seq<char>| #[trigger]
                    from_ids@.contains(id) <==> log@.has_typed_object(id, lift@.from),
                forall|id: Seq<char>| #[trigger]
                    to_ids@.contains(id) <==> log@.has_typed_object(id, lift@.to),
            decreases object.relationships.len() - k,
        {
            let other = &object.relationships[k].object_id;
            assert(log@.objects[i as int].relationships[k as int].object_id == other@);
            let ghost before = links@;
            if is_from && to_ids.contains(other.as_str()) {
                links.insert(&object.id, other);
            }
            if is_to && from_ids.contains(other.as_str()) {
                links.insert(other, &object.id);
            }
            proof {
                lemma_links_more(before, links@, log@, lift@, i as int, k as int);
            }
            k += 1;
        }
        proof {
            assert forall|f: Seq<char>, t: Seq<char>| #[trigger]
                links@.contains((f, t)) <==> log@.has_typed_object(f, lift@.from)
                    && log@.has_typed_object(t, lift@.to) && (relation_before(
                    log@.objects,
                    i + 1,
                    0,
                    f,
                    t,
                ) || relation_before(log@.objects, i + 1, 0, t, f)) by {
                lemma_relation_before_next(log@.objects, i as int, f, t);
                lemma_relation_before_next(log@.objects, i as int, t, f);
            }
        }
        i += 1;
    }
    proof {
        assert forall|a: Seq<char>, b: Seq<char>|
            relation_before(log@.objects, i as int, 0, a, b) <==> #[trigger] log@.has_o2o(a, b) by {
            if log@.has_o2o(a, b) {
                let (j, m) = choose|j: int, m: int|
                    0 <= j < log@.objects.len() && 0 <= m < log@.objects[j].relationships.len()
                        && log@.objects[j].id == a
                        && #[trigger] log@.objects[j].relationships[m].object_id == b;
                assert(log@.objects[j].relationships[m].object_id == b);
            }
        }
        assert forall|f: Seq<char>, t: Seq<char>| #[trigger]
            links@.contains((f, t)) <==> log@.linked(lift@, f, t) by {
            assert(log@.has_o2o(f, t) || !log@.has_o2o(f, t));
            assert(log@.has_o2o(t, f) || !log@.has_o2o(t, f));
        }
    }
    links
}

/// Whether the event relates to an object of this id.
fn relates_to(event: &Event, id: &String) -> (related: bool)
    ensures
        related == event@.relates_to(id@),
{
    let mut k: usize = 0;
    while k < event.relationships.len()
        invariant
            k <= event.relationships.len(),
            forall|m: int| 0 <= m < k ==> #[trigger] event@.relationships[m].object_id != id@,
        decreases event.relationships.len() - k,
    {
        assert(event@.relationships[k as int] == event.relationships[k as int]@);
        if event.relationships[k].object_id == *id {
            assert(event@.relationships[k as int].object_id == id@);
            return true;
        }
        k += 1;
    }
    false
}

/// The links of one object that the event does not relate to already.
spec fn fresh_links(links: Set<(Seq<char>, Seq<char>)>, event: EventView, f: Seq<char>) -> Set<
    Seq<char>,
> {
    Set::new(|t: Seq<char>| links.contains((f, t)) && !event.relates_to(t))
}

/// Adds the links of one object that the event does not relate to already.
fn add_links(links: &Links, event: &Event, f: &String, found: &mut Vec<String>)
    requires
        links.well_formed(),
        text::ascending(old(found).deep_view()),
    ensures
        text::ascending(final(found).deep_view()),
        final(found).deep_view().to_set() == old(found).deep_view().to_set().union(
            fresh_links(links@, event@, f@),
        ),
{
    let ghost start = found.deep_view().to_set();
    let at: usize = match links.index.get(f.as_str()) {
        Some(at) => *at,
        None => {
            assert(start =~= start.union(fresh_links(links@, event@, f@)));
            return;
        },
    };
    let list = &links.lists[at];
    let ghost all = list.deep_view();
    let ghost fresh = |n: int|
        Set::new(|t: Seq<char>| all.take(n).contains(t) && !event@.relates_to(t));
    assert(start =~= start.union(fresh(0)));
    let mut m: usize = 0;
    while m < list.len()
        invariant
            m <= list.len(),
            all == list.deep_view(),
            text::ascending(found.deep_view()),
            fresh == (|n: int|
                Set::new(|t: Seq<char>| all.take(n).contains(t) && !event@.relates_to(t))),
            found.deep_view().to_set() == start.union(fresh(m as int)),
        decreases list.len() - m,
    {
        let ghost before = found.deep_view().to_set();
        let next = &list[m];
        if !relates_to(event, next) {
            text::insert_in_order(found, next.clone());
        }
        proof {
            let (some, more) = (all.take(m as int), all.take(m + 1));
            assert(more =~= some.push(next@));
            assert forall|t: Seq<char>| more.contains(t) <==> some.contains(t) || t == next@ by {
                if some.contains(t) {
                    let k = choose|k: int| 0 <= k < some.len() && some[k] == t;
                    assert(more[k] == t);
                }
                assert(more[m as int] == next@);
            }
            assert(found.deep_view().to_set() =~= start.union(fresh(m + 1)));
        }
        m += 1;
    }
    proof {
        assert(all.take(m as int) =~= all);
        assert(fresh(m as int) =~= fresh_links(links@, event@, f@));
    }
}

/// The objects that the event is lifted to, in order.
fn find_additions(log: &Log, lift: &LiftEvents, links: &Links, event: &Event) -> (found: Vec<
    String,
>)
    requires
        links.well_formed(),
        forall|f: Seq<char>, t: Seq<char>| #[trigger]
            links@.contains((f, t)) <==> log@.linked(lift@, f, t),
    ensures
        text::ascending(found.deep_view()),
        found.deep_view().to_set() == log@.additions(lift@, event@),
{
    let mut found: Vec<String> = Vec::new();
    let mut k: usize = 0;
    while k < event.relationships.len()
        invariant
            k <= event.relationships.len(),
            links.well_formed(),
            text::ascending(found.deep_view()),
            forall|t: Seq<char>| #[trigger]
                found.deep_view().to_set().contains(t) <==> !event@.relates_to(t) && exists|n: int|
                    0 <= n < k && links@.contains((#[trigger] event@.relationships[n].object_id, t)),
        decreases event.relationships.len() - k,
    {
        let f = &event.relationships[k].object_id;
        assert(event@.relationships[k as int].object_id == f@);
        let ghost before = found.deep_view().to_set();
        add_links(links, event, f, &mut found);
        proof {
            let after = found.deep_view().to_set();
            assert forall|t: Seq<char>| #[trigger]
                after.contains(t) <==> !event@.relates_to(t) && exists|n: int|
                    0 <= n < k + 1 && links@.contains(
                        (#[trigger] event@.relationships[n].object_id, t),
                    ) by {
                if before.contains(t) {
                    let n = choose|n: int|
                        0 <= n < k && links@.contains(
                            (#[trigger] event@.relationships[n].object_id, t),
                        );
                    assert(links@.contains((event@.relationships[n].object_id, t)));
                }
            }
        }
        k += 1;
    }
    proof {
        let additions = log@.additions(lift@, event@);
        assert forall|t: Seq<char>| found.deep_view().to_set().contains(t) <==> additions.contains(
            t,
        ) by {
            if found.deep_view().to_set().contains(t) {
                let n = choose|n: int|
                    0 <= n < k && links@.contains((#[trigger] event@.relationships[n].object_id, t));
                let f = event@.relationships[n].object_id;
                assert(event@.relates_to(f));
                assert(log@.linked(lift@, f, t));
            }
            if additions.contains(t) {
                let f = choose|f: Seq<char>| #[trigger]
                    event@.relates_to(f) && log@.linked(lift@, f, t);
                assert(links@.contains((f, t)));
                let n = choose|n: int|
                    0 <= n < event@.relationships.len()
                        && #[trigger] event@.relationships[n].object_id == f;
                assert(links@.contains((event@.relationships[n].object_id, t)));
            }
        }
        assert(found.deep_view().to_set() =~= additions);
    }
    found
}

/// The event with a relation to each of these objects.
fn with_relations(event: &Event, additions: Vec<String>, qualifier: &String) -> (lifted: Event)
    ensures
        lifted@ == (EventView {
            relationships: event@.relationships + additions.deep_view().map_values(
                |t: Seq<char>| RelationView { object_id: t, qualifier: qualifier@ },
            ),
            ..event@
        }),
{
    let ghost added = additions.deep_view().map_values(
        |t: Seq<char>| RelationView { object_id: t, qualifier: qualifier@ },
    );
    let mut lifted = event.clone();
    let mut k: usize = 0;
    assert(lifted@.relationships =~= event@.relationships + added.take(0));
    while k < additions.len()
        invariant
            k <= additions.len(),
            added == additions.deep_view().map_values(
                |t: Seq<char>| RelationView { object_id: t, qualifier: qualifier@ },
            ),
            lifted@ == (EventView {
                relationships: event@.relationships + added.take(k as int),
                ..event@
            }),
        decreases additions.len() - k,
    {
        let relation = Relationship {
            object_id: additions[k].clone(),
            qualifier: qualifier.clone(),
        };
        let ghost before = lifted@.relationships;
        assert(relation@ == added[k as int]);
        lifted.relationships.push(relation);
        proof {
            assert(lifted@.relationships =~= before.push(added[k as int]));
            assert(added.take(k + 1) =~= added.take(k as int).push(added[k as int]));
            assert(lifted@.relationships =~= event@.relationships + added.take(k + 1));
        }
        k += 1;
    }
    assert(added.take(k as int) =~= added);
    lifted
}

/// For each event of the listed types that relates to an object of the one
/// type, add a relation to every object of the other type that is O2O-linked
/// with it, unless the event relates to it already. The number is that of the
/// events that gain a relation.
pub fn lift_events(log: Log, lift: &LiftEvents) -> (outcome: (Log, usize))
    ensures
        outcome.0@ == log@.lifting(lift@),
        outcome.1 == log@.lift_count(lift@),
{
    let links = link_table(&log, lift);
    let ghost all = log@.events;
    let ghost raise = |e: EventView| log@.lifted_event(lift@, e);
    let ghost pred = |e: EventView| log@.gains(lift@, e);
    let mut events: Vec<Event> = Vec::new();
    let mut lifted: usize = 0;
    let mut i: usize = 0;
    assert(events.deep_view() =~= all.take(0).map_values(raise));
    assert(all.take(0).filter(pred).len() == 0) by {
        reveal_with_fuel(Seq::filter, 1);
    }
    while i < log.events.len()
        invariant
            i <= log.events.len(),
            lifted <= i,
            all == log@.events,
            raise == (|e: EventView| log@.lifted_event(lift@, e)),
            pred == (|e: EventView| log@.gains(lift@, e)),
            links.well_formed(),
            forall|f: Seq<char>, t: Seq<char>| #[trigger]
                links@.contains((f, t)) <==> log@.linked(lift@, f, t),
            events.deep_view() == all.take(i as int).map_values(raise),
            lifted == all.take(i as int).filter(pred).len(),
        decreases log.events.len() - i,
    {
        let event = &log.events[i];
        let ghost before = events.deep_view();
        proof {
            assert(all[i as int] == event@);
            assert(all.take(i + 1) =~= all.take(i as int).push(all[i as int]));
            all.take(i as int).lemma_push_map_commute(raise, all[i as int]);
            all.take(i as int).lemma_filter_push(all[i as int], pred);
        }
        let additions = if text::contains_text(&lift.event_types, event.event_type.as_str()) {
            find_additions(&log, lift, &links, event)
        } else {
            Vec::new()
        };
        if additions.is_empty() {
            proof {
                assert(additions.deep_view().len() == 0);
                if log@.gains(lift@, event@) {
                    let t = choose|t: Seq<char>| #[trigger]
                        log@.additions(lift@, event@).contains(t);
                    assert(additions.deep_view().to_set().contains(t));
                }
            }
            events.push(event.clone());
            assert(events.deep_view() =~= before.push(raise(all[i as int])));
        } else {
            proof {
                assert(additions.deep_view().to_set().contains(additions.deep_view()[0]));
                text::lemma_in_order(additions.deep_view(), log@.additions(lift@, event@));
            }
            lifted += 1;
            events.push(with_relations(event, additions, &lift.qualifier));
            assert(events.deep_view() =~= before.push(raise(all[i as int])));
        }
        i += 1;
    }
    assert(all.take(i as int) =~= all);
    let outcome = Log {
        event_types: log.event_types,
        object_types: log.object_types,
        events,
        objects: log.objects,
    };
    (outcome, lifted)
}

/// The objects that an event is lifted to are finitely many, and stand in
/// order.
pub proof fn lemma_additions(log: LogView, lift: LiftView, event: EventView)
    ensures
        log.additions(lift, event).finite(),
        text::ascending(text::in_order(log.additions(lift, event))),
        text::in_order(log.additions(lift, event)).to_set() == log.additions(lift, event),
{
    let ids = log.objects.map_values(|o: ObjectView| o.id);
    let additions = log.additions(lift, event);
    vstd::seq_lib::seq_to_set_is_finite(ids);
    assert forall|t: Seq<char>| additions.contains(t) implies ids.to_set().contains(t) by {
        let f = choose|f: Seq<char>| #[trigger] event.relates_to(f) && log.linked(lift, f, t);
        let m = choose|m: int|
            0 <= m < log.objects.len() && #[trigger] log.objects[m].id == t
                && log.objects[m].object_type == lift.to;
        assert(ids[m] == t);
    }
    vstd::set_lib::lemma_set_subset_finite(ids.to_set(), additions);
    text::lemma_orderable(additions);
}

/// Lifting adds relations and takes none away: an event keeps its relations,
/// and behind them come new ones, with the qualifier of the lift, to objects
/// that it did not relate to and that are linked with one it relates to.
pub proof fn law_lifts_add_relations(log: LogView, lift: LiftView, event: EventView)
    ensures
        ({
            let lifted = log.lifted_event(lift, event);
            &&& event.relationships.is_prefix_of(lifted.relationships)
            &&& forall|k: int|
                event.relationships.len() <= k < lifted.relationships.len() ==> {
                    let added = #[trigger] lifted.relationships[k];
                    &&& added.qualifier == lift.qualifier
                    &&& !event.relates_to(added.object_id)
                    &&& exists|f: Seq<char>| #[trigger]
                        event.relates_to(f) && log.linked(lift, f, added.object_id)
                }
        }),
{
    let lifted = log.lifted_event(lift, event);
    lemma_additions(log, lift, event);
    let order = text::in_order(log.additions(lift, event));
    assert forall|k: int| event.relationships.len() <= k < lifted.relationships.len() implies {
        let added = #[trigger] lifted.relationships[k];
        &&& added.qualifier == lift.qualifier
        &&& !event.relates_to(added.object_id)
        &&& exists|f: Seq<char>| #[trigger]
            event.relates_to(f) && log.linked(lift, f, added.object_id)
    } by {
        let t = lifted.relationships[k].object_id;
        assert(t == order[k - event.relationships.len()]);
        assert(order.to_set().contains(t));
    }
}

/// An event of a listed type relates, once it is lifted, to every object that
/// is linked with one it related to.
pub proof fn law_lifts_reach_every_link(
    log: LogView,
    lift: LiftView,
    event: EventView,
    f: Seq<char>,
    t: Seq<char>,
)
    requires
        lift.event_types.contains(event.event_type),
        event.relates_to(f),
        log.linked(lift, f, t),
    ensures
        log.lifted_event(lift, event).relates_to(t),
{
    let lifted = log.lifted_event(lift, event);
    let n = event.relationships.len() as int;
    if event.relates_to(t) {
        let k = choose|k: int|
            0 <= k < event.relationships.len() && #[trigger] event.relationships[k].object_id == t;
        assert(lifted.relationships[k].object_id == t);
    } else {
        assert(log.additions(lift, event).contains(t));
        assert(log.gains(lift, event));
        lemma_additions(log, lift, event);
        let order = text::in_order(log.additions(lift, event));
        assert(order.to_set().contains(t));
        let k = choose|k: int| 0 <= k < order.len() && order[k] == t;
        assert(lifted.relationships[n + k].object_id == t);
    }
}

/// Events of other types stay as they are.
pub proof fn law_lifts_leave_other_types(log: LogView, lift: LiftView, event: EventView)
    requires
        !lift.event_types.contains(event.event_type),
    ensures
        log.lifted_event(lift, event) == event,
{
}

/// Lifting to another type twice is lifting once: the second lift finds
/// nothing to add.
pub proof fn law_lifting_once_is_enough(log: LogView, lift: LiftView)
    requires
        integrity::distinct_objects(log.objects),
        lift.from != lift.to,
    ensures
        log.lifting(lift).lift_count(lift) == 0,
        log.lifting(lift).lifting(lift) == log.lifting(lift),
{
    let once = log.lifting(lift);
    assert forall|i: int| 0 <= i < once.events.len() implies !once.gains(
        lift,
        #[trigger] once.events[i],
    ) by {
        lemma_lifted_gains_nothing(log, lift, log.events[i]);
        assert(once.events[i] == log.lifted_event(lift, log.events[i]));
    }
    lists::lemma_filter_none(once.events, |e: EventView| once.gains(lift, e));
    assert(once.lifting(lift).events =~= once.events);
}

proof fn lemma_lifted_gains_nothing(log: LogView, lift: LiftView, event: EventView)
    requires
        integrity::distinct_objects(log.objects),
        lift.from != lift.to,
    ensures
        !log.lifting(lift).gains(lift, log.lifted_event(lift, event)),
{
    let once = log.lifting(lift);
    let lifted = log.lifted_event(lift, event);
    if once.gains(lift, lifted) {
        let t = choose|t: Seq<char>| #[trigger] once.additions(lift, lifted).contains(t);
        let f = choose|f: Seq<char>| #[trigger]
            lifted.relates_to(f) && once.linked(lift, f, t);
        lemma_same_links(log, once, lift, f, t);
        if event.relates_to(f) {
            law_lifts_reach_every_link(log, lift, event, f, t);
        } else {
            law_lifts_add_relations(log, lift, event);
            let k = choose|k: int|
                0 <= k < lifted.relationships.len()
                    && #[trigger] lifted.relationships[k].object_id == f;
            if k < event.relationships.len() {
                assert(event.relationships[k].object_id == f);
            }
            let g = choose|g: Seq<char>| #[trigger]
                event.relates_to(g) && log.linked(lift, g, f);
            assert(log.has_typed_object(f, lift.to));
            assert(log.has_typed_object(f, lift.from));
            let a = choose|a: int|
                0 <= a < log.objects.len() && #[trigger] log.objects[a].id == f
                    && log.objects[a].object_type == lift.to;
            let b = choose|b: int|
                0 <= b < log.objects.len() && #[trigger] log.objects[b].id == f
                    && log.objects[b].object_type == lift.from;
            if a < b {
                assert(log.objects[a].id != log.objects[b].id);
            } else if b < a {
                assert(log.objects[b].id != log.objects[a].id);
            }
        }
    }
}

/// Links depend on the objects alone.
proof fn lemma_same_links(a: LogView, b: LogView, lift: LiftView, f: Seq<char>, t: Seq<char>)
    requires
        a.objects == b.objects,
        b.linked(lift, f, t),
    ensures
        a.linked(lift, f, t),
{
    let i = choose|i: int|
        0 <= i < b.objects.len() && #[trigger] b.objects[i].id == f && b.objects[i].object_type
            == lift.from;
    assert(a.objects[i].id == f);
    let j = choose|j: int|
        0 <= j < b.objects.len() && #[trigger] b.objects[j].id == t && b.objects[j].object_type
            == lift.to;
    assert(a.objects[j].id == t);
    assert(a.has_typed_object(f, lift.from) && a.has_typed_object(t, lift.to));
    if b.has_o2o(f, t) {
        let (m, k) = choose|m: int, k: int|
            0 <= m < b.objects.len() && 0 <= k < b.objects[m].relationships.len()
                && b.objects[m].id == f && #[trigger] b.objects[m].relationships[k].object_id == t;
        assert(a.objects[m].relationships[k].object_id == t);
        assert(a.has_o2o(f, t));
    } else {
        let (m, k) = choose|m: int, k: int|
            0 <= m < b.objects.len() && 0 <= k < b.objects[m].relationships.len()
                && b.objects[m].id == t && #[trigger] b.objects[m].relationships[k].object_id == f;
        assert(a.objects[m].relationships[k].object_id == f);
        assert(a.has_o2o(t, f));
    }
}

} // verus!
