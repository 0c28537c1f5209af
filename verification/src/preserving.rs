//! What a step makes of a valid log can be sealed, but for aliases that merge
//! objects whose types do not fit.

use vstd::prelude::*;

use crate::filter::FilterView;
use crate::sealing;
use crate::integrity;
use crate::lists;
use crate::model::EventView;
use crate::model::LogView;
use crate::restaging;
use crate::staging;
use crate::validity;

verus! {

/// What the schemas of a staged valid log know is what the log declares.
pub proof fn lemma_valid_schemas(log: LogView)
    requires
        log.valid(),
    ensures
        integrity::distinct_objects(log.objects),
        ({
            let s = staging::restaged(log);
            &&& forall|name: Seq<char>| #[trigger]
                s.event_schema.contains_key(name) <==> validity::declares(log.event_types, name)
            &&& forall|name: Seq<char>, attribute: Seq<char>| #[trigger]
                sealing::knows(s.event_schema, name, attribute) <==> validity::declares_attribute(
                    log.event_types,
                    name,
                    attribute,
                )
            &&& forall|name: Seq<char>| #[trigger]
                s.object_schema.contains_key(name) <==> validity::declares(log.object_types, name)
            &&& forall|name: Seq<char>, attribute: Seq<char>| #[trigger]
                sealing::knows(s.object_schema, name, attribute) <==> validity::declares_attribute(
                    log.object_types,
                    name,
                    attribute,
                )
        }),
{
    let s = staging::restaged(log);
    integrity::lemma_valid_parts(log);
    restaging::lemma_restaged(log);
    assert forall|name: Seq<char>| restaging::occurs(log.events, name) implies validity::declares(
        log.event_types,
        name,
    ) by {
        let i = choose|i: int|
            0 <= i < log.events.len() && #[trigger] log.events[i].event_type == name;
        assert(validity::declares(log.event_types, log.events[i].event_type));
    }
    assert forall|name: Seq<char>| restaging::object_occurs(
        log.objects,
        name,
    ) implies validity::declares(log.object_types, name) by {
        let i = choose|i: int|
            0 <= i < log.objects.len() && #[trigger] log.objects[i].object_type == name;
        assert(validity::declares(log.object_types, log.objects[i].object_type));
    }
    assert forall|name: Seq<char>, attribute: Seq<char>|
        restaging::occurs_with(log.events, name, attribute) implies validity::declares_attribute(
        log.event_types,
        name,
        attribute,
    ) by {
        let i = choose|i: int|
            0 <= i < log.events.len() && #[trigger] log.events[i].event_type == name
                && restaging::mentions(log.events[i].attributes, attribute);
        let seen = log.events[i].attributes;
        let k = choose|k: int| 0 <= k < seen.len() && #[trigger] seen[k].name == attribute;
        assert(log.events[i].attributes[k].name == attribute);
    }
    assert forall|name: Seq<char>, attribute: Seq<char>|
        restaging::object_occurs_with(
            log.objects,
            name,
            attribute,
        ) implies validity::declares_attribute(log.object_types, name, attribute) by {
        let i = choose|i: int|
            0 <= i < log.objects.len() && #[trigger] log.objects[i].object_type == name
                && sealing::observes(log.objects[i].attributes, attribute);
        let seen = log.objects[i].attributes;
        let k = choose|k: int| 0 <= k < seen.len() && #[trigger] seen[k].name == attribute;
        assert(log.objects[i].attributes[k].name == attribute);
    }
    assert forall|name: Seq<char>| #[trigger] s.event_schema.contains_key(name)
        <==> validity::declares(log.event_types, name) by {
        assert(restaging::occurs(log.events, name) || !restaging::occurs(log.events, name));
    }
    assert forall|name: Seq<char>| #[trigger] s.object_schema.contains_key(name)
        <==> validity::declares(log.object_types, name) by {
        assert(restaging::object_occurs(log.objects, name) || !restaging::object_occurs(
            log.objects,
            name,
        ));
    }
}

/// The objects of a staged valid log can be sealed.
proof fn lemma_valid_objects(log: LogView)
    requires
        log.valid(),
    ensures
        sealing::covers_objects(staging::restaged(log).object_schema, log.objects),
        forall|i: int, k: int|
            0 <= i < log.objects.len() && 0 <= k < log.objects[i].relationships.len()
                ==> staging::staged(
                log.objects,
                (#[trigger] log.objects[i].relationships[k]).object_id,
            ),
{
    let schema = staging::restaged(log).object_schema;
    integrity::lemma_valid_parts(log);
    lemma_valid_schemas(log);
    assert forall|i: int| 0 <= i < log.objects.len() implies schema.contains_key(
        (#[trigger] log.objects[i]).object_type,
    ) by {
        assert(validity::declares(log.object_types, log.objects[i].object_type));
    }
    assert forall|i: int, k: int|
        0 <= i < log.objects.len() && 0 <= k < log.objects[i].attributes.len() implies sealing::knows(
        schema,
        log.objects[i].object_type,
        (#[trigger] log.objects[i].attributes[k]).name,
    ) by {
        assert(validity::declares_attribute(
            log.object_types,
            log.objects[i].object_type,
            log.objects[i].attributes[k].name,
        ));
    }
    assert forall|i: int, k: int|
        0 <= i < log.objects.len() && 0 <= k
            < log.objects[i].relationships.len() implies staging::staged(
        log.objects,
        (#[trigger] log.objects[i].relationships[k]).object_id,
    ) by {
        assert(log.has_object(log.objects[i].relationships[k].object_id));
    }
}

/// Keeping the events that meet a condition keeps a valid log valid: it can be
/// sealed.
pub proof fn law_filtering_seals(log: LogView, filter: FilterView)
    requires
        log.valid(),
    ensures
        log.retaining(filter).valid(),
{
    let s = staging::restaged(log).retained(filter);
    let pred = |e: EventView| filter.keeps(e);
    integrity::lemma_valid_parts(log);
    lemma_valid_objects(log);
    lemma_valid_schemas(log);
    restaging::lemma_restaged(log);
    restaging::lemma_schema_of(s.events);
    let places = lists::lemma_filter_places(log.events, pred);
    assert(s.events == log.events.filter(pred));
    assert forall|i: int, j: int| 0 <= i < j < s.events.len() implies (#[trigger] s.events[i]).id
        != (#[trigger] s.events[j]).id by {
        assert(places[i] < places[j]);
        assert(log.events[places[i]].id != log.events[places[j]].id);
    }
    assert forall|i: int, k: int|
        0 <= i < s.events.len() && 0 <= k < s.events[i].relationships.len() implies staging::staged(
        s.objects,
        (#[trigger] s.events[i].relationships[k]).object_id,
    ) by {
        assert(s.events[i] == log.events[places[i]]);
        assert(log.has_object(log.events[places[i]].relationships[k].object_id));
    }
    sealing::lemma_seal(s);
}

/// Renaming event types keeps a valid log valid: it can be sealed.
pub proof fn law_renaming_seals(log: LogView, renames: Map<Seq<char>, Seq<char>>)
    requires
        log.valid(),
    ensures
        log.renaming(renames).valid(),
{
    let s = staging::restaged(log).renamed(renames);
    integrity::lemma_valid_parts(log);
    lemma_valid_objects(log);
    lemma_valid_schemas(log);
    restaging::lemma_restaged(log);
    restaging::lemma_schema_of(s.events);
    assert forall|i: int, j: int| 0 <= i < j < s.events.len() implies (#[trigger] s.events[i]).id
        != (#[trigger] s.events[j]).id by {
        assert(log.events[i].id != log.events[j].id);
    }
    assert forall|i: int, k: int|
        0 <= i < s.events.len() && 0 <= k < s.events[i].relationships.len() implies staging::staged(
        s.objects,
        (#[trigger] s.events[i].relationships[k]).object_id,
    ) by {
        assert(log.has_object(log.events[i].relationships[k].object_id));
    }
    sealing::lemma_seal(s);
}

} // verus!
