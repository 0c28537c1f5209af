//! What resolving object ids does.

use vstd::prelude::*;

use crate::sealing;
use crate::integrity;
use crate::model::LogView;
use crate::model::ObjectView;
use crate::model::ObservationView;
use crate::model::RelationView;
use crate::model::ValueType;
use crate::names;
use crate::preserving;
use crate::restaging;
use crate::settling;
use crate::staging;
use crate::staging::Schema;
use crate::validity;

verus! {

/// Whether some object resolves to this id.
pub open spec fn resolves_to(
    table: Map<Seq<char>, Seq<char>>,
    objects: Seq<ObjectView>,
    id: Seq<char>,
) -> bool {
    exists|i: int| 0 <= i < objects.len() && names::resolved(table, #[trigger] objects[i].id) == id
}

/// The type of the object that those merge into which resolve to this id: the
/// first type among them that has a name.
pub open spec fn merged_type(
    table: Map<Seq<char>, Seq<char>>,
    objects: Seq<ObjectView>,
    id: Seq<char>,
) -> Seq<char>
    decreases objects.len(),
{
    if objects.len() == 0 {
        Seq::empty()
    } else {
        let earlier = merged_type(table, objects.drop_last(), id);
        if earlier.len() == 0 && names::resolved(table, objects.last().id) == id {
            objects.last().object_type
        } else {
            earlier
        }
    }
}

/// Whether some object that resolves to this id has this observation.
pub open spec fn merged_observes(
    table: Map<Seq<char>, Seq<char>>,
    objects: Seq<ObjectView>,
    id: Seq<char>,
    seen: ObservationView,
) -> bool {
    exists|i: int|
        0 <= i < objects.len() && names::resolved(table, #[trigger] objects[i].id) == id
            && objects[i].attributes.contains(seen)
}

/// The relation with its target resolved.
pub open spec fn resolved_relation(
    table: Map<Seq<char>, Seq<char>>,
    relation: RelationView,
) -> RelationView {
    RelationView { object_id: names::resolved(table, relation.object_id), ..relation }
}

/// Whether some object that resolves to this id has a relation that resolves
/// to this one.
pub open spec fn merged_relates(
    table: Map<Seq<char>, Seq<char>>,
    objects: Seq<ObjectView>,
    id: Seq<char>,
    relation: RelationView,
) -> bool {
    exists|i: int|
        0 <= i < objects.len() && names::resolved(table, #[trigger] objects[i].id) == id
            && staging::resolved_relations(table, objects[i].relationships).contains(relation)
}

pub proof fn lemma_add_contains<A>(a: Seq<A>, b: Seq<A>, item: A)
    ensures
        (a + b).contains(item) <==> a.contains(item) || b.contains(item),
{
    let both = a + b;
    if a.contains(item) {
        let k = choose|k: int| 0 <= k < a.len() && a[k] == item;
        assert(both[k] == item);
    }
    if b.contains(item) {
        let k = choose|k: int| 0 <= k < b.len() && b[k] == item;
        assert(both[a.len() + k] == item);
    }
    if both.contains(item) {
        let k = choose|k: int| 0 <= k < both.len() && both[k] == item;
        if k < a.len() {
            assert(a[k] == item);
        } else {
            assert(b[k - a.len()] == item);
        }
    }
}

/// Merging an object into those staged: into the one of its id, which keeps
/// its type if it has one, or behind them.
pub proof fn lemma_merged_slot(
    objects: Seq<ObjectView>,
    id: Seq<char>,
    object_type: Seq<char>,
    attributes: Seq<ObservationView>,
    relationships: Seq<RelationView>,
) -> (p: int)
    requires
        integrity::distinct_objects(objects),
    ensures
        ({
            let after = staging::extended_slot(
                staging::typed_slot(objects, id, object_type),
                id,
                attributes,
                relationships,
            );
            &&& integrity::distinct_objects(after)
            &&& 0 <= p < after.len()
            &&& after[p].id == id
            &&& forall|other: Seq<char>| #[trigger]
                staging::staged(after, other) <==> staging::staged(objects, other) || other == id
            &&& if staging::staged(objects, id) {
                &&& p < objects.len()
                &&& objects[p].id == id
                &&& after == objects.update(
                    p,
                    ObjectView {
                        id,
                        object_type: staging::typed(objects[p], object_type).object_type,
                        attributes: objects[p].attributes + attributes,
                        relationships: objects[p].relationships + relationships,
                    },
                )
            } else {
                &&& p == objects.len()
                &&& after == objects.push(ObjectView { id, object_type, attributes, relationships })
            }
        }),
{
    let typed = staging::typed_slot(objects, id, object_type);
    let after = staging::extended_slot(typed, id, attributes, relationships);
    if staging::staged(objects, id) {
        let p = choose|p: int| 0 <= p < objects.len() && #[trigger] objects[p].id == id;
        restaging::lemma_slot(objects, id, p);
        assert(typed =~= objects.update(p, staging::typed(objects[p], object_type)));
        assert(integrity::distinct_objects(typed)) by {
            assert forall|i: int, j: int| 0 <= i < j < typed.len() implies (#[trigger] typed[i]).id
                != (#[trigger] typed[j]).id by {
                assert(objects[i].id != objects[j].id);
            }
        }
        restaging::lemma_extended_slot(typed, id, p, attributes, relationships);
        assert(integrity::distinct_objects(after)) by {
            assert forall|i: int, j: int| 0 <= i < j < after.len() implies (#[trigger] after[i]).id
                != (#[trigger] after[j]).id by {
                assert(objects[i].id != objects[j].id);
            }
        }
        assert(after =~= objects.update(
            p,
            ObjectView {
                id,
                object_type: staging::typed(objects[p], object_type).object_type,
                attributes: objects[p].attributes + attributes,
                relationships: objects[p].relationships + relationships,
            },
        ));
        assert forall|other: Seq<char>| #[trigger] staging::staged(after, other)
            <==> staging::staged(objects, other) || other == id by {
            if staging::staged(after, other) {
                let i = choose|i: int| 0 <= i < after.len() && #[trigger] after[i].id == other;
                assert(objects[i].id == other);
            }
            if staging::staged(objects, other) {
                let i = choose|i: int| 0 <= i < objects.len() && #[trigger] objects[i].id == other;
                assert(after[i].id == other);
            }
        }
        p
    } else {
        let p = objects.len() as int;
        restaging::lemma_new_slot(objects, id, object_type);
        assert(integrity::distinct_objects(typed)) by {
            assert forall|i: int, j: int| 0 <= i < j < typed.len() implies (#[trigger] typed[i]).id
                != (#[trigger] typed[j]).id by {
                if j < p {
                    assert(objects[i].id != objects[j].id);
                } else {
                    assert(objects[i].id != id);
                }
            }
        }
        restaging::lemma_extended_slot(typed, id, p, attributes, relationships);
        assert(Seq::<ObservationView>::empty() + attributes =~= attributes);
        assert(Seq::<RelationView>::empty() + relationships =~= relationships);
        assert(after =~= objects.push(ObjectView { id, object_type, attributes, relationships }));
        assert(integrity::distinct_objects(after)) by {
            assert forall|i: int, j: int| 0 <= i < j < after.len() implies (#[trigger] after[i]).id
                != (#[trigger] after[j]).id by {
                assert(typed[i].id != typed[j].id);
            }
        }
        assert forall|other: Seq<char>| #[trigger] staging::staged(after, other)
            <==> staging::staged(objects, other) || other == id by {
            if staging::staged(after, other) && other != id {
                let i = choose|i: int| 0 <= i < after.len() && #[trigger] after[i].id == other;
                assert(objects[i].id == other);
            }
            if staging::staged(objects, other) {
                let i = choose|i: int| 0 <= i < objects.len() && #[trigger] objects[i].id == other;
                assert(after[i].id == other);
            }
            assert(after[p].id == id);
        }
        p
    }
}

/// What the objects are under their resolved ids.
pub proof fn lemma_rekeyed(table: Map<Seq<char>, Seq<char>>, objects: Seq<ObjectView>)
    ensures
        ({
            let after = staging::rekeyed_objects(table, objects);
            &&& integrity::distinct_objects(after)
            &&& forall|id: Seq<char>| #[trigger]
                staging::staged(after, id) <==> resolves_to(table, objects, id)
            &&& forall|p: int|
                0 <= p < after.len() ==> (#[trigger] after[p]).object_type == merged_type(
                    table,
                    objects,
                    after[p].id,
                )
            &&& forall|p: int, seen: ObservationView|
                0 <= p < after.len() ==> (#[trigger] after[p].attributes.contains(seen)
                    <==> merged_observes(table, objects, after[p].id, seen))
            &&& forall|p: int, relation: RelationView|
                0 <= p < after.len() ==> (#[trigger] after[p].relationships.contains(relation)
                    <==> merged_relates(table, objects, after[p].id, relation))
        }),
    decreases objects.len(),
{
    if objects.len() == 0 {
    } else {
        let front = objects.drop_last();
        let o = objects.last();
        let id = names::resolved(table, o.id);
        let before = staging::rekeyed_objects(table, front);
        let after = staging::rekeyed_objects(table, objects);
        let relations = staging::resolved_relations(table, o.relationships);
        lemma_rekeyed(table, front);
        let p = lemma_merged_slot(before, id, o.object_type, o.attributes, relations);
        assert(objects[objects.len() - 1] == o);
        assert forall|other: Seq<char>| resolves_to(table, objects, other) <==> resolves_to(
            table,
            front,
            other,
        ) || other == id by {
            if resolves_to(table, front, other) {
                let i = choose|i: int|
                    0 <= i < front.len() && names::resolved(table, #[trigger] front[i].id) == other;
                assert(names::resolved(table, objects[i].id) == other);
            }
            if resolves_to(table, objects, other) && other != id {
                let i = choose|i: int|
                    0 <= i < objects.len() && names::resolved(table, #[trigger] objects[i].id)
                        == other;
                assert(names::resolved(table, front[i].id) == other);
            }
        }
        assert forall|other: Seq<char>, seen: ObservationView|
            merged_observes(table, objects, other, seen) <==> merged_observes(
                table,
                front,
                other,
                seen,
            ) || (other == id && o.attributes.contains(seen)) by {
            lemma_merged_observes_more(table, objects, other, seen);
        }
        assert forall|other: Seq<char>, relation: RelationView|
            merged_relates(table, objects, other, relation) <==> merged_relates(
                table,
                front,
                other,
                relation,
            ) || (other == id && relations.contains(relation)) by {
            lemma_merged_relates_more(table, objects, other, relation);
        }
        assert forall|q: int| 0 <= q < after.len() implies (#[trigger] after[q]).object_type
            == merged_type(table, objects, after[q].id) by {
            if q != p {
                assert(after[q] == before[q]);
                lemma_other_id(before, id, p, q);
            } else if staging::staged(before, id) {
                assert(before[p].object_type == merged_type(table, front, id));
            } else {
                lemma_unresolved(table, front, id);
            }
        }
        assert forall|q: int, seen: ObservationView| 0 <= q < after.len() implies (
        #[trigger] after[q].attributes.contains(seen) <==> merged_observes(
            table,
            objects,
            after[q].id,
            seen,
        )) by {
            if q != p {
                assert(after[q] == before[q]);
                lemma_other_id(before, id, p, q);
            } else if staging::staged(before, id) {
                lemma_add_contains(before[p].attributes, o.attributes, seen);
            } else {
                lemma_unresolved(table, front, id);
                assert(!merged_observes(table, front, id, seen));
            }
        }
        assert forall|q: int, relation: RelationView| 0 <= q < after.len() implies (
        #[trigger] after[q].relationships.contains(relation) <==> merged_relates(
            table,
            objects,
            after[q].id,
            relation,
        )) by {
            if q != p {
                assert(after[q] == before[q]);
                lemma_other_id(before, id, p, q);
            } else if staging::staged(before, id) {
                lemma_add_contains(before[p].relationships, relations, relation);
            } else {
                lemma_unresolved(table, front, id);
                assert(!merged_relates(table, front, id, relation));
            }
        }
    }
}

/// The object at another place has another id.
proof fn lemma_other_id(objects: Seq<ObjectView>, id: Seq<char>, p: int, q: int)
    requires
        integrity::distinct_objects(objects),
        0 <= q < objects.len(),
        p != q,
        if staging::staged(objects, id) {
            0 <= p < objects.len() && objects[p].id == id
        } else {
            true
        },
    ensures
        objects[q].id != id,
{
    if staging::staged(objects, id) {
        if p < q {
            assert(objects[p].id != objects[q].id);
        } else {
            assert(objects[q].id != objects[p].id);
        }
    }
}

/// Where no object resolves to an id, nothing merges under it.
proof fn lemma_unresolved(
    table: Map<Seq<char>, Seq<char>>,
    objects: Seq<ObjectView>,
    id: Seq<char>,
)
    requires
        !resolves_to(table, objects, id),
    ensures
        merged_type(table, objects, id).len() == 0,
        forall|seen: ObservationView| !#[trigger] merged_observes(table, objects, id, seen),
        forall|relation: RelationView| !#[trigger] merged_relates(table, objects, id, relation),
    decreases objects.len(),
{
    if objects.len() > 0 {
        let front = objects.drop_last();
        assert(names::resolved(table, objects[objects.len() - 1].id) != id);
        if resolves_to(table, front, id) {
            let i = choose|i: int|
                0 <= i < front.len() && names::resolved(table, #[trigger] front[i].id) == id;
            assert(names::resolved(table, objects[i].id) == id);
        }
        lemma_unresolved(table, front, id);
    }
}

proof fn lemma_merged_observes_more(
    table: Map<Seq<char>, Seq<char>>,
    objects: Seq<ObjectView>,
    id: Seq<char>,
    seen: ObservationView,
)
    requires
        objects.len() > 0,
    ensures
        merged_observes(table, objects, id, seen) <==> merged_observes(
            table,
            objects.drop_last(),
            id,
            seen,
        ) || (id == names::resolved(table, objects.last().id)
            && objects.last().attributes.contains(seen)),
{
    let front = objects.drop_last();
    let n = objects.len() - 1;
    assert(objects[n] == objects.last());
    if merged_observes(table, front, id, seen) {
        let i = choose|i: int|
            0 <= i < front.len() && names::resolved(table, #[trigger] front[i].id) == id
                && front[i].attributes.contains(seen);
        assert(names::resolved(table, objects[i].id) == id);
    }
    if merged_observes(table, objects, id, seen) {
        let i = choose|i: int|
            0 <= i < objects.len() && names::resolved(table, #[trigger] objects[i].id) == id
                && objects[i].attributes.contains(seen);
        if i < n {
            assert(names::resolved(table, front[i].id) == id);
        }
    }
    if id == names::resolved(table, objects.last().id) && objects.last().attributes.contains(seen) {
        assert(names::resolved(table, objects[n].id) == id);
    }
}

proof fn lemma_merged_relates_more(
    table: Map<Seq<char>, Seq<char>>,
    objects: Seq<ObjectView>,
    id: Seq<char>,
    relation: RelationView,
)
    requires
        objects.len() > 0,
    ensures
        merged_relates(table, objects, id, relation) <==> merged_relates(
            table,
            objects.drop_last(),
            id,
            relation,
        ) || (id == names::resolved(table, objects.last().id) && staging::resolved_relations(
            table,
            objects.last().relationships,
        ).contains(relation)),
{
    let front = objects.drop_last();
    let n = objects.len() - 1;
    assert(objects[n] == objects.last());
    if merged_relates(table, front, id, relation) {
        let i = choose|i: int|
            0 <= i < front.len() && names::resolved(table, #[trigger] front[i].id) == id
                && staging::resolved_relations(table, front[i].relationships).contains(relation);
        assert(names::resolved(table, objects[i].id) == id);
    }
    if merged_relates(table, objects, id, relation) {
        let i = choose|i: int|
            0 <= i < objects.len() && names::resolved(table, #[trigger] objects[i].id) == id
                && staging::resolved_relations(table, objects[i].relationships).contains(relation);
        if i < n {
            assert(names::resolved(table, front[i].id) == id);
        }
    }
    if id == names::resolved(table, objects.last().id) && staging::resolved_relations(
        table,
        objects.last().relationships,
    ).contains(relation) {
        assert(names::resolved(table, objects[n].id) == id);
    }
}

impl LogView {
    /// Whether objects merge only where the attributes of each are declared of
    /// the type of the merged one.
    pub open spec fn mergeable(self, table: Map<Seq<char>, Seq<char>>) -> bool {
        forall|i: int, k: int|
            0 <= i < self.objects.len() && 0 <= k < self.objects[i].attributes.len()
                ==> validity::declares_attribute(
                self.object_types,
                merged_type(table, self.objects, names::resolved(table, self.objects[i].id)),
                (#[trigger] self.objects[i].attributes[k]).name,
            )
    }
}

/// The type of a merged object is the type of one of the objects that merge.
proof fn lemma_merged_type(
    table: Map<Seq<char>, Seq<char>>,
    objects: Seq<ObjectView>,
    id: Seq<char>,
) -> (i: int)
    requires
        resolves_to(table, objects, id),
    ensures
        0 <= i < objects.len(),
        names::resolved(table, objects[i].id) == id,
        objects[i].object_type == merged_type(table, objects, id),
    decreases objects.len(),
{
    let front = objects.drop_last();
    let n = objects.len() - 1;
    assert(objects[n] == objects.last());
    if !resolves_to(table, front, id) {
        lemma_unresolved(table, front, id);
        let i = choose|i: int|
            0 <= i < objects.len() && names::resolved(table, #[trigger] objects[i].id) == id;
        if i < n {
            assert(names::resolved(table, front[i].id) == id);
        }
        n
    } else {
        let i = lemma_merged_type(table, front, id);
        if merged_type(table, front, id).len() == 0 && names::resolved(table, objects.last().id)
            == id {
            n
        } else {
            i
        }
    }
}

/// Resolving ids keeps a valid log valid exactly where the attributes of
/// objects that merge are declared of the merged type: then it can be sealed.
pub proof fn law_aliasing_seals(log: LogView, table: Map<Seq<char>, Seq<char>>)
    requires
        log.valid(),
    ensures
        log.resolving(table).valid() <==> log.mergeable(table),
{
    let s = staging::restaged(log);
    let t = s.rekeyed(table);
    integrity::lemma_valid_parts(log);
    preserving::lemma_valid_schemas(log);
    restaging::lemma_restaged(log);
    lemma_rekeyed(table, log.objects);
    assert forall|i: int, j: int| 0 <= i < j < t.events.len() implies (#[trigger] t.events[i]).id
        != (#[trigger] t.events[j]).id by {
        assert(log.events[i].id != log.events[j].id);
    }
    assert(sealing::covers_events(t.event_schema, t.events)) by {
        assert forall|i: int| 0 <= i < t.events.len() implies t.event_schema.contains_key(
            (#[trigger] t.events[i]).event_type,
        ) by {
            assert(validity::declares(log.event_types, log.events[i].event_type));
        }
        assert forall|i: int, k: int|
            0 <= i < t.events.len() && 0 <= k < t.events[i].attributes.len() implies sealing::knows(
            t.event_schema,
            t.events[i].event_type,
            (#[trigger] t.events[i].attributes[k]).name,
        ) by {
            assert(validity::declares_attribute(
                log.event_types,
                log.events[i].event_type,
                log.events[i].attributes[k].name,
            ));
        }
    }
    assert forall|id: Seq<char>| log.has_object(id) implies staging::staged(
        t.objects,
        #[trigger] names::resolved(table, id),
    ) by {
        let m = choose|m: int| 0 <= m < log.objects.len() && #[trigger] log.objects[m].id == id;
        assert(names::resolved(table, log.objects[m].id) == names::resolved(table, id));
        assert(resolves_to(table, log.objects, names::resolved(table, id)));
    }
    assert(t.event_references_held()) by {
        assert forall|i: int, k: int|
            0 <= i < t.events.len() && 0 <= k
                < t.events[i].relationships.len() implies staging::staged(
            t.objects,
            (#[trigger] t.events[i].relationships[k]).object_id,
        ) by {
            assert(log.has_object(log.events[i].relationships[k].object_id));
        }
    }
    assert(t.object_references_held()) by {
        assert forall|p: int, k: int|
            0 <= p < t.objects.len() && 0 <= k
                < t.objects[p].relationships.len() implies staging::staged(
            t.objects,
            (#[trigger] t.objects[p].relationships[k]).object_id,
        ) by {
            let relation = t.objects[p].relationships[k];
            assert(t.objects[p].relationships.contains(relation));
            assert(merged_relates(table, log.objects, t.objects[p].id, relation));
            let i = choose|i: int|
                0 <= i < log.objects.len() && names::resolved(table, #[trigger] log.objects[i].id)
                    == t.objects[p].id && staging::resolved_relations(
                    table,
                    log.objects[i].relationships,
                ).contains(relation);
            let list = staging::resolved_relations(table, log.objects[i].relationships);
            let m = choose|m: int| 0 <= m < list.len() && list[m] == relation;
            assert(log.has_object(log.objects[i].relationships[m].object_id));
        }
    }
    assert forall|p: int| 0 <= p < t.objects.len() implies t.object_schema.contains_key(
        (#[trigger] t.objects[p]).object_type,
    ) by {
        assert(staging::staged(t.objects, t.objects[p].id));
        let i = lemma_merged_type(table, log.objects, t.objects[p].id);
        assert(validity::declares(log.object_types, log.objects[i].object_type));
    }
    if log.mergeable(table) {
        assert forall|p: int, k: int|
            0 <= p < t.objects.len() && 0 <= k < t.objects[p].attributes.len() implies sealing::knows(
            t.object_schema,
            t.objects[p].object_type,
            (#[trigger] t.objects[p].attributes[k]).name,
        ) by {
            let name = t.objects[p].attributes[k].name;
            let seen = t.objects[p].attributes[k];
            assert(t.objects[p].attributes.contains(seen));
            assert(merged_observes(table, log.objects, t.objects[p].id, seen));
            let i = choose|i: int|
                0 <= i < log.objects.len() && names::resolved(table, #[trigger] log.objects[i].id)
                    == t.objects[p].id && log.objects[i].attributes.contains(seen);
            let m = choose|m: int|
                0 <= m < log.objects[i].attributes.len() && log.objects[i].attributes[m] == seen;
            assert(log.objects[i].attributes[m].name == name);
        }
        assert(sealing::covers_objects(t.object_schema, t.objects));
    }
    if sealing::covers_objects(t.object_schema, t.objects) {
        assert forall|i: int, k: int|
            0 <= i < log.objects.len() && 0 <= k
                < log.objects[i].attributes.len() implies validity::declares_attribute(
            log.object_types,
            merged_type(table, log.objects, names::resolved(table, log.objects[i].id)),
            (#[trigger] log.objects[i].attributes[k]).name,
        ) by {
            let id = names::resolved(table, log.objects[i].id);
            let name = log.objects[i].attributes[k].name;
            assert(resolves_to(table, log.objects, id));
            assert(staging::staged(t.objects, id));
            let p = choose|p: int| 0 <= p < t.objects.len() && #[trigger] t.objects[p].id == id;
            let seen = log.objects[i].attributes[k];
            assert(log.objects[i].attributes.contains(seen));
            assert(merged_observes(table, log.objects, id, seen));
            assert(t.objects[p].attributes.contains(seen));
            let m = choose|m: int|
                0 <= m < t.objects[p].attributes.len() && t.objects[p].attributes[m] == seen;
            assert(sealing::knows(
                t.object_schema,
                t.objects[p].object_type,
                t.objects[p].attributes[m].name,
            ));
        }
        assert(log.mergeable(table));
    }
    sealing::lemma_seal(t);
}

/// The observations of the objects that resolve to this id.
pub open spec fn merged_observations(
    table: Map<Seq<char>, Seq<char>>,
    objects: Seq<ObjectView>,
    id: Seq<char>,
) -> Set<ObservationView> {
    Set::new(|seen: ObservationView| merged_observes(table, objects, id, seen))
}

/// Whether the objects that resolve to this id have one type.
pub open spec fn one_type(
    table: Map<Seq<char>, Seq<char>>,
    objects: Seq<ObjectView>,
    id: Seq<char>,
) -> bool {
    forall|i: int|
        0 <= i < objects.len() && names::resolved(table, #[trigger] objects[i].id) == id
            ==> objects[i].object_type == merged_type(table, objects, id)
}

/// Objects of one type that merge fit the schema as each of them does.
proof fn lemma_merged_fit(
    schema: Schema,
    table: Map<Seq<char>, Seq<char>>,
    objects: Seq<ObjectView>,
    merged: ObjectView,
)
    requires
        forall|i: int|
            0 <= i < objects.len() ==> sealing::fits(
                schema,
                (#[trigger] objects[i]).object_type,
                objects[i].attributes,
            ),
        one_type(table, objects, merged.id),
        merged.object_type == merged_type(table, objects, merged.id),
        forall|seen: ObservationView| #[trigger]
            merged.attributes.contains(seen) ==> merged_observes(table, objects, merged.id, seen),
    ensures
        sealing::fits(schema, merged.object_type, merged.attributes),
{
    assert forall|k: int| 0 <= k < merged.attributes.len() implies sealing::knows(
        schema,
        merged.object_type,
        (#[trigger] merged.attributes[k]).name,
    ) && (schema[merged.object_type][merged.attributes[k].name]
        == merged.attributes[k].value.kind()
        || schema[merged.object_type][merged.attributes[k].name] == ValueType::String) by {
        let seen = merged.attributes[k];
        assert(merged.attributes.contains(seen));
        let i = choose|i: int|
            0 <= i < objects.len() && names::resolved(table, #[trigger] objects[i].id) == merged.id
                && objects[i].attributes.contains(seen);
        let m = choose|m: int|
            0 <= m < objects[i].attributes.len() && objects[i].attributes[m] == seen;
        assert(sealing::knows(schema, objects[i].object_type, objects[i].attributes[m].name));
    }
}

/// Objects whose ids resolve to one id merge: there is one object for it, with
/// the first named type among them, their relations to the resolved ids, and
/// their observations.
pub proof fn law_aliases_merge_objects(log: LogView, table: Map<Seq<char>, Seq<char>>)
    requires
        integrity::distinct_objects(log.objects),
    ensures
        integrity::distinct_objects(log.resolving(table).objects),
        forall|id: Seq<char>| #[trigger]
            log.resolving(table).has_object(id) <==> resolves_to(table, log.objects, id),
        forall|p: int|
            0 <= p < log.resolving(table).objects.len() ==> {
                let object = #[trigger] log.resolving(table).objects[p];
                &&& object.object_type == merged_type(table, log.objects, object.id)
                &&& forall|relation: RelationView| #[trigger]
                    object.relationships.contains(relation) <==> merged_relates(
                        table,
                        log.objects,
                        object.id,
                        relation,
                    )
                &&& sealing::carried(
                    merged_observations(table, log.objects, object.id),
                    object.attributes.to_set(),
                    sealing::named(log.objects) && one_type(table, log.objects, object.id),
                )
            },
{
    let s = staging::restaged(log);
    let t = s.rekeyed(table);
    let after = log.resolving(table);
    restaging::lemma_restaged(log);
    lemma_rekeyed(table, log.objects);
    law_references_follow(log, table);
    assert forall|i: int, j: int| 0 <= i < j < after.objects.len() implies (
    #[trigger] after.objects[i]).id != (#[trigger] after.objects[j]).id by {
        assert(t.objects[i].id != t.objects[j].id);
    }
    assert forall|p: int| 0 <= p < after.objects.len() implies {
        let object = #[trigger] after.objects[p];
        &&& object.object_type == merged_type(table, log.objects, object.id)
        &&& forall|relation: RelationView| #[trigger]
            object.relationships.contains(relation) <==> merged_relates(
                table,
                log.objects,
                object.id,
                relation,
            )
        &&& sealing::carried(
            merged_observations(table, log.objects, object.id),
            object.attributes.to_set(),
            sealing::named(log.objects) && one_type(table, log.objects, object.id),
        )
    } by {
        let staged = t.objects[p];
        let agree = sealing::named(log.objects) && one_type(table, log.objects, staged.id);
        assert(after.objects[p] == staging::sealed_object(t.object_schema, staged));
        assert(staged.object_type == merged_type(table, log.objects, staged.id));
        assert forall|seen: ObservationView| #[trigger]
            staged.attributes.contains(seen) <==> merged_observes(
                table,
                log.objects,
                staged.id,
                seen,
            ) by {
            assert(t.objects[p].attributes.contains(seen) <==> merged_observes(
                table,
                log.objects,
                t.objects[p].id,
                seen,
            ));
        }
        assert forall|relation: RelationView| #[trigger]
            staged.relationships.contains(relation) <==> merged_relates(
                table,
                log.objects,
                staged.id,
                relation,
            ) by {
            assert(t.objects[p].relationships.contains(relation) <==> merged_relates(
                table,
                log.objects,
                t.objects[p].id,
                relation,
            ));
        }
        if agree {
            settling::lemma_restaged_fits(log);
            lemma_merged_fit(t.object_schema, table, log.objects, staged);
        }
        sealing::lemma_sealed_object(t.object_schema, staged);
        sealing::lemma_sealed_observations(t.object_schema, staged, agree);
        assert(merged_observations(table, log.objects, staged.id)
            =~= staged.attributes.to_set());
    }
}

/// Every reference follows: the relationships of events and objects go to the
/// resolved ids, and an object is left for each id that objects resolve to.
pub proof fn law_references_follow(log: LogView, table: Map<Seq<char>, Seq<char>>)
    requires
        integrity::distinct_objects(log.objects),
    ensures
        log.resolving(table).events.len() == log.events.len(),
        forall|i: int|
            0 <= i < log.events.len() ==> (#[trigger] log.resolving(table).events[i]).relationships
                == staging::resolved_relations(table, log.events[i].relationships),
        forall|id: Seq<char>| #[trigger]
            log.resolving(table).has_object(id) <==> resolves_to(table, log.objects, id),
        forall|a: Seq<char>, b: Seq<char>| #[trigger]
            log.resolving(table).has_o2o(a, b) <==> exists|c: Seq<char>, d: Seq<char>| #[trigger]
                log.has_o2o(c, d) && names::resolved(table, c) == a && names::resolved(table, d)
                    == b,
{
    let s = staging::restaged(log);
    let t = s.rekeyed(table);
    let after = log.resolving(table);
    restaging::lemma_restaged(log);
    lemma_rekeyed(table, log.objects);
    assert forall|i: int| 0 <= i < log.events.len() implies (
    #[trigger] after.events[i]).relationships == staging::resolved_relations(
        table,
        log.events[i].relationships,
    ) by {
        assert(after.events[i] == staging::conformed_event(t.event_schema, t.events[i]));
    }
    assert forall|p: int| 0 <= p < t.objects.len() implies #[trigger] after.objects[p]
        == staging::sealed_object(t.object_schema, t.objects[p]) by {}
    assert forall|id: Seq<char>| #[trigger] after.has_object(id) <==> resolves_to(
        table,
        log.objects,
        id,
    ) by {
        assert(staging::staged(t.objects, id) <==> resolves_to(table, log.objects, id));
        if after.has_object(id) {
            let p = choose|p: int|
                0 <= p < after.objects.len() && #[trigger] after.objects[p].id == id;
            assert(t.objects[p].id == id);
        }
        if staging::staged(t.objects, id) {
            let p = choose|p: int| 0 <= p < t.objects.len() && #[trigger] t.objects[p].id == id;
            assert(after.objects[p].id == id);
        }
    }
    assert forall|a: Seq<char>, b: Seq<char>| #[trigger] after.has_o2o(a, b) <==> exists|
        c: Seq<char>,
        d: Seq<char>,
    | #[trigger]
        log.has_o2o(c, d) && names::resolved(table, c) == a && names::resolved(table, d) == b by {
        if after.has_o2o(a, b) {
            lemma_o2o_from(log, table, a, b);
        }
        if exists|c: Seq<char>, d: Seq<char>| #[trigger]
            log.has_o2o(c, d) && names::resolved(table, c) == a && names::resolved(table, d) == b {
            let (c, d) = choose|c: Seq<char>, d: Seq<char>| #[trigger]
                log.has_o2o(c, d) && names::resolved(table, c) == a && names::resolved(table, d)
                    == b;
            lemma_o2o_to(log, table, c, d);
        }
    }
}

proof fn lemma_o2o_from(
    log: LogView,
    table: Map<Seq<char>, Seq<char>>,
    a: Seq<char>,
    b: Seq<char>,
)
    requires
        integrity::distinct_objects(log.objects),
        log.resolving(table).has_o2o(a, b),
    ensures
        exists|c: Seq<char>, d: Seq<char>| #[trigger]
            log.has_o2o(c, d) && names::resolved(table, c) == a && names::resolved(table, d) == b,
{
    let t = staging::restaged(log).rekeyed(table);
    let after = log.resolving(table);
    restaging::lemma_restaged(log);
    lemma_rekeyed(table, log.objects);
    let (p, k) = choose|p: int, k: int|
        0 <= p < after.objects.len() && 0 <= k < after.objects[p].relationships.len()
            && after.objects[p].id == a && #[trigger] after.objects[p].relationships[k].object_id
            == b;
    assert(after.objects[p] == staging::sealed_object(t.object_schema, t.objects[p]));
    let relation = after.objects[p].relationships[k];
    sealing::lemma_sealed_object(t.object_schema, t.objects[p]);
    assert(after.objects[p].relationships.contains(relation));
    assert(t.objects[p].relationships.contains(relation));
    assert(merged_relates(table, log.objects, a, relation));
    let i = choose|i: int|
        0 <= i < log.objects.len() && names::resolved(table, #[trigger] log.objects[i].id) == a
            && staging::resolved_relations(table, log.objects[i].relationships).contains(relation);
    let list = staging::resolved_relations(table, log.objects[i].relationships);
    let m = choose|m: int| 0 <= m < list.len() && list[m] == relation;
    assert(log.has_o2o(log.objects[i].id, log.objects[i].relationships[m].object_id));
}

proof fn lemma_o2o_to(
    log: LogView,
    table: Map<Seq<char>, Seq<char>>,
    c: Seq<char>,
    d: Seq<char>,
)
    requires
        integrity::distinct_objects(log.objects),
        log.has_o2o(c, d),
    ensures
        log.resolving(table).has_o2o(names::resolved(table, c), names::resolved(table, d)),
{
    let t = staging::restaged(log).rekeyed(table);
    let after = log.resolving(table);
    restaging::lemma_restaged(log);
    lemma_rekeyed(table, log.objects);
    let (i, m) = choose|i: int, m: int|
        0 <= i < log.objects.len() && 0 <= m < log.objects[i].relationships.len()
            && log.objects[i].id == c && #[trigger] log.objects[i].relationships[m].object_id == d;
    let a = names::resolved(table, c);
    let relation = resolved_relation(table, log.objects[i].relationships[m]);
    let list = staging::resolved_relations(table, log.objects[i].relationships);
    assert(list[m] == relation);
    assert(list.contains(relation));
    assert(names::resolved(table, log.objects[i].id) == a);
    assert(merged_relates(table, log.objects, a, relation));
    assert(resolves_to(table, log.objects, a));
    assert(staging::staged(t.objects, a));
    let p = choose|p: int| 0 <= p < t.objects.len() && #[trigger] t.objects[p].id == a;
    assert(t.objects[p].relationships.contains(relation));
    sealing::lemma_sealed_object(t.object_schema, t.objects[p]);
    assert(after.objects[p] == staging::sealed_object(t.object_schema, t.objects[p]));
    assert(after.objects[p].relationships.contains(relation));
    let k = choose|k: int|
        0 <= k < after.objects[p].relationships.len() && after.objects[p].relationships[k]
            == relation;
    assert(after.objects[p].relationships[k].object_id == names::resolved(table, d));
}

} // verus!
