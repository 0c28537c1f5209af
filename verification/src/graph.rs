//! Which objects are related: walking the object interaction graph.

use vstd::hash_map::StringHashMap;
use vstd::hash_set::StringHashSet;
use vstd::prelude::*;

use crate::convert;
use crate::error::ErrorView;
use crate::error::TransformError;
use crate::model::Event;
use crate::model::EventView;
use crate::model::Log;
use crate::model::LogView;
use crate::model::ObjectView;
use crate::recipe::RelatedTo;
use crate::recipe::RelatedView;
use crate::sublog;
use crate::text;

verus! {

/// The object interaction graph as `ocel` holds it.
#[verifier::external_type_specification]
#[verifier::external_body]
pub struct ExObjectGraph<'a>(ocel::ObjectGraph<'a>);

/// The edges of an interaction graph, in both directions.
pub uninterp spec fn graph_edges(graph: ocel::ObjectGraph<'_>) -> Set<(Seq<char>, Seq<char>)>;

/// Which object types a walk may continue through, in the model.
#[verifier::ext_equal]
pub enum ExpansionView {
    Via(Seq<Seq<char>>),
    NotVia(Seq<Seq<char>>),
}

impl ExpansionView {
    /// Whether the walk may continue through objects of this type.
    pub open spec fn allows(self, object_type: Seq<char>) -> bool {
        match self {
            ExpansionView::Via(types) => types.contains(object_type),
            ExpansionView::NotVia(types) => !types.contains(object_type),
        }
    }
}

impl RelatedView {
    /// The expansion that the condition of step `step` asks for: exactly one
    /// of the two lists must be given.
    pub open spec fn expansion(self, step: int) -> Result<ExpansionView, ErrorView> {
        match (self.via, self.not_via) {
            (Some(via), None) => Ok(ExpansionView::Via(via)),
            (None, Some(not_via)) => Ok(ExpansionView::NotVia(not_via)),
            _ => Err(ErrorView::ViaXorNotVia { step }),
        }
    }
}

/// The type of the object of this id; of several objects the last counts.
pub open spec fn type_of(objects: Seq<ObjectView>, id: Seq<char>) -> Option<Seq<char>>
    decreases objects.len(),
{
    if objects.len() == 0 {
        None
    } else if objects.last().id == id {
        Some(objects.last().object_type)
    } else {
        type_of(objects.drop_last(), id)
    }
}

impl LogView {
    /// Whether some event relates to both objects.
    pub open spec fn share_event(self, a: Seq<char>, b: Seq<char>) -> bool {
        exists|i: int, j: int, k: int|
            0 <= i < self.events.len() && 0 <= j < self.events[i].relationships.len() && 0 <= k
                < self.events[i].relationships.len()
                && #[trigger] self.events[i].relationships[j].object_id == a
                && #[trigger] self.events[i].relationships[k].object_id == b
    }

    /// Whether two different objects interact: they share an event, or an O2O
    /// relation links them in either direction.
    #[verifier::opaque]
    pub open spec fn interact(self, a: Seq<char>, b: Seq<char>) -> bool {
        &&& a != b
        &&& self.has_object(a)
        &&& self.has_object(b)
        &&& self.share_event(a, b) || self.has_o2o(a, b) || self.has_o2o(b, a)
    }

    /// Whether a walk may continue through the object of this id.
    #[verifier::opaque]
    pub open spec fn walkable(self, expansion: ExpansionView, id: Seq<char>) -> bool {
        type_of(self.objects, id) matches Some(object_type) && expansion.allows(object_type)
    }

    /// Whether the ids form a walk: it starts at an object of the seed type,
    /// each id interacts with the next, and every id between the ends is
    /// walkable.
    #[verifier::opaque]
    pub open spec fn is_walk(
        self,
        seed_type: Seq<char>,
        expansion: ExpansionView,
        walk: Seq<Seq<char>>,
    ) -> bool {
        &&& walk.len() > 0
        &&& self.has_typed_object(walk[0], seed_type)
        &&& forall|i: int, j: int|
            0 <= i && j == i + 1 && j < walk.len() ==> #[trigger] self.interact(walk[i], walk[j])
        &&& forall|i: int| 0 < i < walk.len() - 1 ==> #[trigger] self.walkable(expansion, walk[i])
    }

    /// The ids that some walk ends at.
    pub open spec fn reached(self, seed_type: Seq<char>, expansion: ExpansionView) -> Set<
        Seq<char>,
    > {
        Set::new(
            |id: Seq<char>|
                exists|walk: Seq<Seq<char>>| #[trigger]
                    self.is_walk(seed_type, expansion, walk) && walk.last() == id,
        )
    }

    /// Whether a walk ends at this id that may be continued.
    spec fn expandable(
        self,
        seed_type: Seq<char>,
        expansion: ExpansionView,
        id: Seq<char>,
    ) -> bool {
        exists|walk: Seq<Seq<char>>| #[trigger]
            self.is_walk(seed_type, expansion, walk) && walk.last() == id && (walk.len() == 1
                || self.walkable(expansion, id))
    }
}

/// `Ocel::object_graph` joins the objects that interact and no others.
pub assume_specification<'a>[ ocel::Ocel::object_graph ](log: &'a ocel::Ocel) -> (built:
    ocel::ObjectGraph<'a>)
    ensures
        forall|a: Seq<char>, b: Seq<char>| #[trigger]
            graph_edges(built).contains((a, b)) <==> convert::log_contents(*log).interact(a, b),
;

/// The objects that interact with the one of this id.
///
/// Trusted: `ObjectGraph::neighbors` gives the other ends of the object's
/// edges, each once and in order.
#[verifier::external_body]
fn neighbors(graph: &ocel::ObjectGraph<'_>, id: &String) -> (found: Vec<String>)
    ensures
        text::ascending(found.deep_view()),
        forall|other: Seq<char>| #[trigger]
            found.deep_view().contains(other) <==> graph_edges(*graph).contains((id@, other)),
{
    graph.neighbors(id).map(str::to_owned).collect()
}

/// Which object types a walk may continue through.
#[derive(Debug)]
pub enum Expansion<'a> {
    Via(&'a Vec<String>),
    NotVia(&'a Vec<String>),
}

impl<'a> View for Expansion<'a> {
    type V = ExpansionView;

    open spec fn view(&self) -> ExpansionView {
        match self {
            Expansion::Via(types) => ExpansionView::Via(types.deep_view()),
            Expansion::NotVia(types) => ExpansionView::NotVia(types.deep_view()),
        }
    }
}

impl<'a> Expansion<'a> {
    /// The expansion that the condition of step `step` asks for.
    pub fn compile(step: usize, spec: &'a RelatedTo) -> (outcome: Result<
        Expansion<'a>,
        TransformError,
    >)
        ensures
            outcome matches Ok(expansion) ==> spec@.expansion(step as int) == Ok::<
                ExpansionView,
                ErrorView,
            >(expansion@),
            outcome matches Err(error) ==> spec@.expansion(step as int) == Err::<
                ExpansionView,
                ErrorView,
            >(error@),
    {
        match (&spec.via, &spec.not_via) {
            (Some(via), None) => Ok(Expansion::Via(via)),
            (None, Some(not_via)) => Ok(Expansion::NotVia(not_via)),
            _ => Err(TransformError::ViaXorNotVia { step }),
        }
    }

    /// Whether the walk may continue through objects of this type.
    pub fn allows(&self, object_type: &str) -> (allowed: bool)
        ensures
            allowed == self@.allows(object_type@),
    {
        match self {
            Expansion::Via(types) => text::contains_text(types, object_type),
            Expansion::NotVia(types) => !text::contains_text(types, object_type),
        }
    }
}

/// Whether a table holds the type of each object.
spec fn tabulates(types: Map<Seq<char>, String>, objects: Seq<ObjectView>) -> bool {
    forall|id: Seq<char>|
        #![trigger type_of(objects, id)]
        if types.contains_key(id) {
            type_of(objects, id) == Some(types[id]@)
        } else {
            type_of(objects, id) is None
        }
}

/// The type of each object.
fn type_table(log: &Log) -> (types: StringHashMap<String>)
    ensures
        tabulates(types@, log@.objects),
{
    let mut types: StringHashMap<String> = StringHashMap::new();
    let ghost objects = log@.objects;
    let mut i: usize = 0;
    while i < log.objects.len()
        invariant
            i <= log.objects.len(),
            objects == log@.objects,
            tabulates(types@, objects.take(i as int)),
        decreases log.objects.len() - i,
    {
        let ghost before = types@;
        types.insert(log.objects[i].id.clone(), log.objects[i].object_type.clone());
        proof {
            let more = objects.take(i + 1);
            assert(more.drop_last() =~= objects.take(i as int));
            assert(more.last() == log.objects[i as int]@);
            assert forall|id: Seq<char>|
                #![trigger type_of(more, id)]
                if types@.contains_key(id) {
                    type_of(more, id) == Some(types@[id]@)
                } else {
                    type_of(more, id) is None
                } by {
                assert(id != more.last().id ==> type_of(more, id) == type_of(
                    objects.take(i as int),
                    id,
                ));
            }
        }
        i += 1;
    }
    assert(objects.take(i as int) =~= objects);
    types
}

/// Whether a walk may continue through the object of this id.
fn may_continue(
    log: &Log,
    types: &StringHashMap<String>,
    expansion: &Expansion<'_>,
    id: &String,
) -> (walkable: bool)
    requires
        tabulates(types@, log@.objects),
    ensures
        walkable == log@.walkable(expansion@, id@),
{
    reveal(LogView::walkable);
    assert(type_of(log@.objects, id@) is Some || type_of(log@.objects, id@) is None);
    match types.get(id.as_str()) {
        Some(object_type) => expansion.allows(object_type.as_str()),
        None => false,
    }
}

/// A walk that may be continued, continued to a neighbor.
proof fn lemma_continue(
    log: LogView,
    seed_type: Seq<char>,
    expansion: ExpansionView,
    id: Seq<char>,
    next: Seq<char>,
)
    requires
        log.expandable(seed_type, expansion, id),
        log.interact(id, next),
    ensures
        log.has_object(next),
        log.reached(seed_type, expansion).contains(next),
        log.walkable(expansion, next) ==> log.expandable(seed_type, expansion, next),
{
    reveal(LogView::interact);
    reveal(LogView::is_walk);
    let walk = choose|walk: Seq<Seq<char>>| #[trigger]
        log.is_walk(seed_type, expansion, walk) && walk.last() == id && (walk.len() == 1
            || log.walkable(expansion, id));
    let longer = walk.push(next);
    assert forall|i: int, j: int|
        0 <= i && j == i + 1 && j < longer.len() implies #[trigger] log.interact(
        longer[i],
        longer[j],
    ) by {
        if j < walk.len() {
            assert(log.interact(walk[i], walk[j]));
        }
    }
    assert forall|i: int| 0 < i < longer.len() - 1 implies #[trigger] log.walkable(
        expansion,
        longer[i],
    ) by {
        if i < walk.len() - 1 {
            assert(log.walkable(expansion, walk[i]));
        }
    }
    assert(log.is_walk(seed_type, expansion, longer));
    assert(longer.last() == next);
}

/// A set that holds the seeds and is closed under walking holds every id that
/// a walk reaches.
proof fn lemma_walk_inside(
    log: LogView,
    seed_type: Seq<char>,
    expansion: ExpansionView,
    kept: Set<Seq<char>>,
    expanded: Set<Seq<char>>,
    walk: Seq<Seq<char>>,
)
    requires
        log.is_walk(seed_type, expansion, walk),
        forall|id: Seq<char>|
            #![trigger log.has_typed_object(id, seed_type)]
            log.has_typed_object(id, seed_type) ==> kept.contains(id) && expanded.contains(id),
        forall|id: Seq<char>, next: Seq<char>|
            expanded.contains(id) && #[trigger] log.interact(id, next) ==> kept.contains(next) && (
            log.walkable(expansion, next) ==> expanded.contains(next)),
    ensures
        kept.contains(walk.last()),
        walk.len() == 1 || log.walkable(expansion, walk.last()) ==> expanded.contains(walk.last()),
    decreases walk.len(),
{
    reveal(LogView::is_walk);
    if walk.len() > 1 {
        let shorter = walk.drop_last();
        assert forall|i: int, j: int|
            0 <= i && j == i + 1 && j < shorter.len() implies #[trigger] log.interact(
            shorter[i],
            shorter[j],
        ) by {
            assert(log.interact(walk[i], walk[j]));
        }
        assert forall|i: int| 0 < i < shorter.len() - 1 implies #[trigger] log.walkable(
            expansion,
            shorter[i],
        ) by {
            assert(log.walkable(expansion, walk[i]));
        }
        lemma_walk_inside(log, seed_type, expansion, kept, expanded, shorter);
        let i = walk.len() - 2;
        assert(log.interact(walk[i], walk[i + 1]));
        assert(shorter.last() == walk[i]);
        assert(i > 0 ==> log.walkable(expansion, walk[i]));
    }
}

/// Whether what a search has found so far is right: every kept id is reached,
/// and every id to expand ends a walk that may be continued.
#[verifier::opaque]
spec fn found_rightly(
    log: LogView,
    seed_type: Seq<char>,
    expansion: ExpansionView,
    kept: Set<Seq<char>>,
    expanded: Set<Seq<char>>,
) -> bool {
    &&& forall|id: Seq<char>| #[trigger]
        expanded.contains(id) ==> log.expandable(seed_type, expansion, id) && log.has_object(id)
    &&& forall|id: Seq<char>| #[trigger]
        kept.contains(id) ==> log.reached(seed_type, expansion).contains(id)
    &&& forall|id: Seq<char>|
        #![trigger log.has_typed_object(id, seed_type)]
        log.has_typed_object(id, seed_type) ==> kept.contains(id) && expanded.contains(id)
}

/// Whether the neighbors of the first `count` ids are all taken up.
#[verifier::opaque]
spec fn taken_up(
    log: LogView,
    expansion: ExpansionView,
    kept: Set<Seq<char>>,
    expanded: Set<Seq<char>>,
    queue: Seq<Seq<char>>,
    count: int,
) -> bool {
    forall|k: int, next: Seq<char>|
        0 <= k < count && #[trigger] log.interact(queue[k], next) ==> kept.contains(next) && (
        log.walkable(expansion, next) ==> expanded.contains(next))
}

/// The ids of a list that a walk may continue through.
spec fn walkable_among(log: LogView, expansion: ExpansionView, ids: Seq<Seq<char>>) -> Set<
    Seq<char>,
> {
    Set::new(|id: Seq<char>| ids.contains(id) && log.walkable(expansion, id))
}

/// There are no more ids to expand than there are objects.
proof fn lemma_queue_bounded(
    log: LogView,
    seed_type: Seq<char>,
    expansion: ExpansionView,
    kept: Set<Seq<char>>,
    expanded: Set<Seq<char>>,
    ids: Seq<Seq<char>>,
)
    requires
        found_rightly(log, seed_type, expansion, kept, expanded),
        ids.to_set() == expanded,
        ids.no_duplicates(),
    ensures
        ids.len() <= log.objects.len(),
{
    reveal(found_rightly);
    let all = log.objects.map_values(|o: ObjectView| o.id);
    assert forall|id: Seq<char>| ids.to_set().contains(id) implies all.to_set().contains(id) by {
        assert(log.has_object(id));
        let k = choose|k: int| 0 <= k < log.objects.len() && #[trigger] log.objects[k].id == id;
        assert(all[k] == id);
    }
    ids.unique_seq_to_set();
    vstd::seq_lib::seq_to_set_is_finite(all);
    vstd::set_lib::lemma_len_subset(ids.to_set(), all.to_set());
    all.lemma_cardinality_of_set();
}

/// At the start the seeds are found.
proof fn lemma_start(
    log: LogView,
    seed_type: Seq<char>,
    expansion: ExpansionView,
    seeds: Set<Seq<char>>,
)
    requires
        forall|id: Seq<char>| #[trigger]
            seeds.contains(id) <==> log.has_typed_object(id, seed_type),
    ensures
        found_rightly(log, seed_type, expansion, seeds, seeds),
{
    reveal(found_rightly);
    assert forall|id: Seq<char>| #[trigger] seeds.contains(id) implies log.expandable(
        seed_type,
        expansion,
        id,
    ) && log.reached(seed_type, expansion).contains(id) && log.has_object(id) by {
        reveal(LogView::is_walk);
        let walk = seq![id];
        assert(log.is_walk(seed_type, expansion, walk));
        assert(walk.last() == id);
        let k = choose|k: int|
            0 <= k < log.objects.len() && #[trigger] log.objects[k].id == id
                && log.objects[k].object_type == seed_type;
        assert(log.objects[k].id == id);
    }
}

/// Taking up the neighbors of one id to expand keeps the search right.
proof fn lemma_step(
    log: LogView,
    seed_type: Seq<char>,
    expansion: ExpansionView,
    kept: Set<Seq<char>>,
    expanded: Set<Seq<char>>,
    queue: Seq<Seq<char>>,
    longer: Seq<Seq<char>>,
    count: int,
    found: Seq<Seq<char>>,
)
    requires
        found_rightly(log, seed_type, expansion, kept, expanded),
        taken_up(log, expansion, kept, expanded, queue, count),
        0 <= count < queue.len(),
        expanded.contains(queue[count]),
        queue.is_prefix_of(longer),
        forall|next: Seq<char>| #[trigger]
            found.contains(next) <==> log.interact(queue[count], next),
    ensures
        ({
            let all = kept.union(found.to_set());
            let more = expanded.union(walkable_among(log, expansion, found));
            &&& found_rightly(log, seed_type, expansion, all, more)
            &&& taken_up(log, expansion, all, more, longer, count + 1)
        }),
{
    reveal(found_rightly);
    reveal(taken_up);
    let id = queue[count];
    let all = kept.union(found.to_set());
    let more = expanded.union(walkable_among(log, expansion, found));
    assert forall|next: Seq<char>| found.contains(next) implies log.reached(
        seed_type,
        expansion,
    ).contains(next) && log.has_object(next) && (log.walkable(expansion, next) ==> log.expandable(
        seed_type,
        expansion,
        next,
    )) by {
        lemma_continue(log, seed_type, expansion, id, next);
    }
    assert forall|k: int, next: Seq<char>|
        0 <= k < count + 1 && #[trigger] log.interact(longer[k], next) implies all.contains(next)
        && (log.walkable(expansion, next) ==> more.contains(next)) by {
        assert(longer[k] == queue[k]);
        if k == count {
            assert(found.contains(next));
        } else {
            assert(log.interact(queue[k], next));
        }
    }
}

/// When every id to expand is expanded, what is kept is what is reached.
proof fn lemma_done(
    log: LogView,
    seed_type: Seq<char>,
    expansion: ExpansionView,
    kept: Set<Seq<char>>,
    expanded: Set<Seq<char>>,
    queue: Seq<Seq<char>>,
)
    requires
        found_rightly(log, seed_type, expansion, kept, expanded),
        taken_up(log, expansion, kept, expanded, queue, queue.len() as int),
        queue.to_set() == expanded,
    ensures
        kept == log.reached(seed_type, expansion),
{
    reveal(found_rightly);
    reveal(taken_up);
    assert forall|id: Seq<char>, next: Seq<char>|
        expanded.contains(id) && #[trigger] log.interact(id, next) implies kept.contains(next) && (
    log.walkable(expansion, next) ==> expanded.contains(next)) by {
        assert(queue.contains(id));
        let k = choose|k: int| 0 <= k < queue.len() && queue[k] == id;
        assert(log.interact(queue[k], next));
    }
    assert forall|id: Seq<char>| log.reached(
        seed_type,
        expansion,
    ).contains(id) implies kept.contains(id) by {
        let walk = choose|walk: Seq<Seq<char>>| #[trigger]
            log.is_walk(seed_type, expansion, walk) && walk.last() == id;
        lemma_walk_inside(log, seed_type, expansion, kept, expanded, walk);
    }
    assert(kept =~= log.reached(seed_type, expansion));
}

/// Puts an id into the list, if it is not in the set of those that are.
fn enlist(id: &String, known: &mut StringHashSet, list: &mut Vec<String>)
    requires
        old(list).deep_view().no_duplicates(),
        old(list).deep_view().to_set() == old(known)@,
    ensures
        final(known)@ == old(known)@.insert(id@),
        final(list).deep_view().no_duplicates(),
        final(list).deep_view().to_set() == final(known)@,
        old(list).deep_view().is_prefix_of(final(list).deep_view()),
{
    let ghost before = list.deep_view();
    if known.insert(id.clone()) {
        list.push(id.clone());
        proof {
            assert(list.deep_view() =~= before.push(id@));
            assert(!before.contains(id@)) by {
                assert(!before.to_set().contains(id@));
            }
            before.lemma_push_to_set_commute(id@);
        }
    } else {
        assert(known@ =~= old(known)@);
    }
}

/// The ids of the objects of a type, each once, as a list and as a set.
pub(crate) fn typed_ids(log: &Log, object_type: &String) -> (ids: (Vec<String>, StringHashSet))
    ensures
        ids.0.deep_view().no_duplicates(),
        ids.0.deep_view().to_set() == ids.1@,
        forall|id: Seq<char>| #[trigger]
            ids.1@.contains(id) <==> log@.has_typed_object(id, object_type@),
{
    let mut known = StringHashSet::new();
    let mut list: Vec<String> = Vec::new();
    assert(list.deep_view().to_set() =~= known@);
    let mut i: usize = 0;
    while i < log.objects.len()
        invariant
            i <= log.objects.len(),
            list.deep_view().no_duplicates(),
            list.deep_view().to_set() == known@,
            forall|id: Seq<char>| #[trigger]
                known@.contains(id) <==> exists|k: int|
                    0 <= k < i && #[trigger] log@.objects[k].id == id && log@.objects[k].object_type
                        == object_type@,
        decreases log.objects.len() - i,
    {
        let object = &log.objects[i];
        let ghost before = known@;
        assert(log@.objects[i as int] == object@);
        if object.object_type == *object_type {
            enlist(&object.id, &mut known, &mut list);
        }
        proof {
            assert forall|id: Seq<char>| #[trigger] known@.contains(id) <==> exists|k: int|
                0 <= k < i + 1 && #[trigger] log@.objects[k].id == id && log@.objects[k].object_type
                    == object_type@ by {
                if known@.contains(id) {
                    if before.contains(id) {
                        let k = choose|k: int|
                            0 <= k < i && #[trigger] log@.objects[k].id == id
                                && log@.objects[k].object_type == object_type@;
                        assert(log@.objects[k].id == id);
                    } else {
                        assert(log@.objects[i as int].id == id);
                    }
                }
            }
        }
        i += 1;
    }
    (list, known)
}

/// Takes up the neighbors of an id: all are kept, and those that the walk may
/// continue through are listed to be expanded.
fn take_up(
    log: &Log,
    types: &StringHashMap<String>,
    expansion: &Expansion<'_>,
    found: &Vec<String>,
    kept: &mut StringHashSet,
    expanded: &mut StringHashSet,
    queue: &mut Vec<String>,
)
    requires
        tabulates(types@, log@.objects),
        old(queue).deep_view().no_duplicates(),
        old(queue).deep_view().to_set() == old(expanded)@,
    ensures
        final(kept)@ == old(kept)@.union(found.deep_view().to_set()),
        final(expanded)@ == old(expanded)@.union(
            walkable_among(log@, expansion@, found.deep_view()),
        ),
        final(queue).deep_view().no_duplicates(),
        final(queue).deep_view().to_set() == final(expanded)@,
        old(queue).deep_view().is_prefix_of(final(queue).deep_view()),
{
    let ghost all = found.deep_view();
    let mut m: usize = 0;
    assert(kept@ =~= old(kept)@.union(all.take(0).to_set()));
    assert(expanded@ =~= old(expanded)@.union(walkable_among(log@, expansion@, all.take(0))));
    while m < found.len()
        invariant
            m <= found.len(),
            all == found.deep_view(),
            tabulates(types@, log@.objects),
            kept@ == old(kept)@.union(all.take(m as int).to_set()),
            expanded@ == old(expanded)@.union(
                walkable_among(log@, expansion@, all.take(m as int)),
            ),
            queue.deep_view().no_duplicates(),
            queue.deep_view().to_set() == expanded@,
            old(queue).deep_view().is_prefix_of(queue.deep_view()),
        decreases found.len() - m,
    {
        let next = &found[m];
        proof {
            assert(all.take(m + 1) =~= all.take(m as int).push(next@));
            all.take(m as int).lemma_push_to_set_commute(next@);
            assert forall|id: Seq<char>| all.take(m + 1).contains(id) <==> all.take(
                m as int,
            ).contains(id) || id == next@ by {
                assert(all.take(m + 1).to_set().contains(id) <==> all.take(
                    m as int,
                ).to_set().insert(next@).contains(id));
            }
        }
        let ghost kept_before = kept@;
        let ghost expanded_before = expanded@;
        kept.insert(next.clone());
        assert(kept@ =~= kept_before.insert(next@));
        assert(kept@ =~= old(kept)@.union(all.take(m + 1).to_set()));
        if may_continue(log, types, expansion, next) {
            enlist(next, expanded, queue);
        }
        proof {
            let after = old(expanded)@.union(walkable_among(log@, expansion@, all.take(m + 1)));
            assert forall|id: Seq<char>| expanded@.contains(id) <==> after.contains(id) by {
                assert(all.take(m + 1).contains(id) <==> all.take(m as int).contains(id) || id
                    == next@);
            }
            assert(expanded@ =~= after);
        }
        m += 1;
    }
    assert(all.take(m as int) =~= all);
}

/// The ids of the objects that walks from the objects of the seed type reach.
fn reach(log: &Log, seed_type: &String, expansion: &Expansion<'_>) -> (reached: StringHashSet)
    ensures
        reached@ == log@.reached(seed_type@, expansion@),
{
    let outside = log.to_ocel();
    let graph = outside.object_graph();
    let types = type_table(log);
    let (mut queue, mut expanded) = typed_ids(log, seed_type);
    let (_, mut kept) = typed_ids(log, seed_type);
    proof {
        assert(kept@ =~= expanded@);
        lemma_start(log@, seed_type@, expansion@, kept@);
        reveal(taken_up);
    }
    let mut head: usize = 0;
    while head < queue.len()
        invariant
            head <= queue.len(),
            tabulates(types@, log@.objects),
            forall|a: Seq<char>, b: Seq<char>| #[trigger]
                graph_edges(graph).contains((a, b)) <==> log@.interact(a, b),
            queue.deep_view().no_duplicates(),
            queue.deep_view().to_set() == expanded@,
            found_rightly(log@, seed_type@, expansion@, kept@, expanded@),
            taken_up(log@, expansion@, kept@, expanded@, queue.deep_view(), head as int),
        decreases log@.objects.len() - head,
    {
        let found = neighbors(&graph, &queue[head]);
        let ghost queue_before = queue.deep_view();
        let ghost kept_before = kept@;
        let ghost expanded_before = expanded@;
        take_up(log, &types, expansion, &found, &mut kept, &mut expanded, &mut queue);
        proof {
            let id = queue_before[head as int];
            assert(queue_before.to_set().contains(id));
            assert forall|next: Seq<char>| #[trigger]
                found.deep_view().contains(next) <==> log@.interact(id, next) by {
                assert(graph_edges(graph).contains((id, next)) <==> log@.interact(id, next));
            }
            lemma_step(
                log@,
                seed_type@,
                expansion@,
                kept_before,
                expanded_before,
                queue_before,
                queue.deep_view(),
                head as int,
                found.deep_view(),
            );
            lemma_queue_bounded(log@, seed_type@, expansion@, kept@, expanded@, queue.deep_view());
        }
        head += 1;
    }
    proof {
        lemma_done(log@, seed_type@, expansion@, kept@, expanded@, queue.deep_view());
    }
    kept
}

/// The events that still relate to a kept object, with their relationships to
/// kept objects alone.
fn restrict_events(events: &Vec<Event>, kept: &StringHashSet) -> (left: Vec<Event>)
    ensures
        left.deep_view() == sublog::restricted_events(events.deep_view(), kept@),
{
    let ghost all = events.deep_view();
    let ghost strip = |e: EventView| sublog::restricted_event(e, kept@);
    let ghost pred = |e: EventView| e.relationships.len() > 0;
    let mut left: Vec<Event> = Vec::new();
    let mut i: usize = 0;
    assert(left.deep_view() =~= all.take(0).map_values(strip).filter(pred)) by {
        assert(all.take(0).map_values(strip) =~= Seq::<EventView>::empty());
        reveal_with_fuel(Seq::filter, 1);
    }
    while i < events.len()
        invariant
            i <= events.len(),
            all == events.deep_view(),
            strip == (|e: EventView| sublog::restricted_event(e, kept@)),
            pred == (|e: EventView| e.relationships.len() > 0),
            left.deep_view() == all.take(i as int).map_values(strip).filter(pred),
        decreases events.len() - i,
    {
        let ghost before = left.deep_view();
        proof {
            assert(all.take(i + 1) =~= all.take(i as int).push(all[i as int]));
            all.take(i as int).lemma_push_map_commute(strip, all[i as int]);
            all.take(i as int).map_values(strip).lemma_filter_push(strip(all[i as int]), pred);
        }
        let relationships = sublog::restrict_relations(&events[i].relationships, kept);
        if !relationships.is_empty() {
            let copy = events[i].clone();
            let restricted = Event {
                id: copy.id,
                event_type: copy.event_type,
                time: copy.time,
                attributes: copy.attributes,
                relationships,
            };
            assert(restricted@ == strip(all[i as int]));
            left.push(restricted);
            assert(left.deep_view() =~= before.push(strip(all[i as int])));
        } else {
            assert(relationships.deep_view().len() == 0);
        }
        i += 1;
    }
    assert(all.take(i as int) =~= all);
    left
}

/// The log with the objects alone that walks from the objects of the seed type
/// reach. Relationships to other objects are stripped, events left without
/// any object are dropped, declarations stay.
pub fn keep_related_to(log: &Log, seed_type: &String, expansion: &Expansion<'_>) -> (kept: Log)
    ensures
        kept@ == log@.restricted(log@.reached(seed_type@, expansion@)),
{
    let reached = reach(log, seed_type, expansion);
    let copy = log.clone();
    Log {
        event_types: copy.event_types,
        object_types: copy.object_types,
        events: restrict_events(&log.events, &reached),
        objects: sublog::restrict_objects(&log.objects, &reached),
    }
}

/// Whether the walk expands the object of this id, once it is reached: it is
/// of the seed type, or walkable.
pub open spec fn expands(
    log: LogView,
    seed_type: Seq<char>,
    expansion: ExpansionView,
    id: Seq<char>,
) -> bool {
    log.has_typed_object(id, seed_type) || log.walkable(expansion, id)
}

/// Every object of the seed type is kept.
pub proof fn law_seeds_are_reached(
    log: LogView,
    seed_type: Seq<char>,
    expansion: ExpansionView,
    id: Seq<char>,
)
    requires
        log.has_typed_object(id, seed_type),
    ensures
        log.reached(seed_type, expansion).contains(id),
{
    reveal(LogView::is_walk);
    let walk = seq![id];
    assert(log.is_walk(seed_type, expansion, walk));
    assert(walk.last() == id);
}

/// Every object that interacts with a reached object of the seed type, or of a
/// type the walk may continue through, is kept.
pub proof fn law_walk_continues(
    log: LogView,
    seed_type: Seq<char>,
    expansion: ExpansionView,
    id: Seq<char>,
    next: Seq<char>,
)
    requires
        log.reached(seed_type, expansion).contains(id),
        expands(log, seed_type, expansion, id),
        log.interact(id, next),
    ensures
        log.reached(seed_type, expansion).contains(next),
{
    if log.has_typed_object(id, seed_type) {
        reveal(LogView::is_walk);
        let walk = seq![id];
        assert(log.is_walk(seed_type, expansion, walk));
        assert(walk.last() == id);
    }
    assert(log.expandable(seed_type, expansion, id));
    lemma_continue(log, seed_type, expansion, id, next);
}

/// Nothing else is kept: what is reached lies in every set that holds the
/// objects of the seed type and, with an object that the walk expands, all
/// that interact with it.
pub proof fn law_nothing_else_is_reached(
    log: LogView,
    seed_type: Seq<char>,
    expansion: ExpansionView,
    kept: Set<Seq<char>>,
    id: Seq<char>,
)
    requires
        forall|seed: Seq<char>| #[trigger]
            log.has_typed_object(seed, seed_type) ==> kept.contains(seed),
        forall|from: Seq<char>, next: Seq<char>|
            kept.contains(from) && expands(log, seed_type, expansion, from)
                && #[trigger] log.interact(from, next) ==> kept.contains(next),
        log.reached(seed_type, expansion).contains(id),
    ensures
        kept.contains(id),
{
    let expanded = Set::new(
        |x: Seq<char>| kept.contains(x) && expands(log, seed_type, expansion, x),
    );
    let walk = choose|walk: Seq<Seq<char>>| #[trigger]
        log.is_walk(seed_type, expansion, walk) && walk.last() == id;
    lemma_walk_inside(log, seed_type, expansion, kept, expanded, walk);
}

/// What is reached are objects of the log.
pub proof fn law_reached_are_objects(
    log: LogView,
    seed_type: Seq<char>,
    expansion: ExpansionView,
    id: Seq<char>,
)
    requires
        log.reached(seed_type, expansion).contains(id),
    ensures
        log.has_object(id),
{
    let all = Set::new(|x: Seq<char>| log.has_object(x));
    assert forall|seed: Seq<char>| #[trigger] log.has_typed_object(
        seed,
        seed_type,
    ) implies all.contains(seed) by {
        let k = choose|k: int|
            0 <= k < log.objects.len() && #[trigger] log.objects[k].id == seed
                && log.objects[k].object_type == seed_type;
        assert(log.objects[k].id == seed);
    }
    assert forall|from: Seq<char>, next: Seq<char>|
        all.contains(from) && expands(log, seed_type, expansion, from) && #[trigger] log.interact(
            from,
            next,
        ) implies all.contains(next) by {
        reveal(LogView::interact);
    }
    law_nothing_else_is_reached(log, seed_type, expansion, all, id);
}

} // verus!
