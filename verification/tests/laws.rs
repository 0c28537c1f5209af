//! What holds of every run, on concrete logs.

use chrono::{DateTime, Utc};
use ocel::AttrValue;
use ocel_etl::{StagingEvent, StagingLog};
use ocel_transform::names::NameTable;
use ocel_transform::{
    apply, preview, try_apply, try_preview, AliasTable, EventPredicate, LiftEvents, Log, Recipe,
    RelatedTo, Step, TimeWindow, UnionInput, UnionSource,
};

fn at(secs: i64) -> DateTime<Utc> {
    DateTime::from_timestamp(secs, 0).unwrap()
}

fn event(
    id: &str,
    ty: &str,
    secs: i64,
    attributes: Vec<(&str, AttrValue)>,
    relations: Vec<&str>,
) -> StagingEvent {
    StagingEvent {
        id: id.into(),
        event_type: ty.into(),
        time: at(secs),
        attributes: attributes.into_iter().map(|(n, v)| (n.into(), v)).collect(),
        relations: relations.into_iter().map(|o| (o.into(), "q".into())).collect(),
    }
}

fn built(staging: StagingLog) -> Log {
    Log::from_ocel(&staging.into_ocel().unwrap())
}

fn orders() -> Log {
    let mut staging = StagingLog::new();
    staging.upsert_object("o2", "order");
    staging.upsert_object("o1", "order");
    staging.upsert_object("i1", "item");
    staging.upsert_object("c1", "customer");
    staging.upsert_object("x1", "spare");
    staging.add_object_attribute("o1", "price", AttrValue::Integer(5), at(7));
    staging.add_object_attribute("o1", "price", AttrValue::Integer(4), at(3));
    staging.add_object_attribute("c1", "name", AttrValue::String("Ada".into()), at(1));
    staging.add_o2o("o1", "i1", "holds");
    staging.add_o2o("o1", "c1", "of");
    staging.add_o2o("c1", "o2", "placed");
    staging.add_event(event("e1", "place", 10, vec![("n", AttrValue::Integer(1))], vec!["o1", "c1"]));
    staging.add_event(event("e2", "pick", 20, vec![("n", AttrValue::Integer(2))], vec!["i1"]));
    staging.add_event(event("e3", "pay", 30, vec![("n", AttrValue::Float(0.5))], vec!["o1"]));
    staging.add_event(event("e4", "place", 40, vec![("n", AttrValue::Integer(3))], vec!["o2"]));
    built(staging)
}

fn recipe(steps: Vec<Step>) -> Recipe {
    Recipe {
        name: "laws".into(),
        steps,
    }
}

fn names(list: Vec<&str>) -> Vec<String> {
    list.into_iter().map(str::to_owned).collect()
}

fn table(pairs: Vec<(&str, &str)>) -> NameTable {
    NameTable::from_pairs(
        pairs
            .into_iter()
            .map(|(a, b)| (a.to_owned(), b.to_owned()))
            .collect(),
    )
}

fn one_step(step: Step, log: Log) -> Log {
    apply(&recipe(vec![step]), log, &vec![]).unwrap().0
}

fn event_ids(log: &Log) -> Vec<&str> {
    log.events.iter().map(|e| e.id.as_str()).collect()
}

fn object_ids(log: &Log) -> Vec<&str> {
    log.objects.iter().map(|o| o.id.as_str()).collect()
}

fn window(from: Option<&str>, to: Option<&str>) -> Step {
    Step::TimeWindow(TimeWindow {
        from: from.map(str::to_owned),
        to: to.map(str::to_owned),
    })
}

fn lift(from: &str, to: &str) -> Step {
    Step::LiftEvents(LiftEvents {
        from: from.into(),
        to: to.into(),
        event_types: names(vec!["place", "pay", "pick"]),
        qualifier: "up".into(),
    })
}

fn related(ty: &str, via: Vec<&str>) -> Step {
    Step::KeepRelatedTo(RelatedTo {
        object_type: ty.into(),
        via: Some(names(via)),
        not_via: None,
    })
}

fn union() -> Step {
    Step::Union(UnionSource {
        file: "other.json".into(),
    })
}

fn input(log: Log) -> UnionInput {
    UnionInput {
        path: "other.json".into(),
        outcome: Ok(log),
    }
}

fn every_step() -> Vec<Step> {
    vec![
        union(),
        lift("order", "customer"),
        Step::DropEventTypes(names(vec!["nothing"])),
        Step::KeepEventTypes(names(vec!["place", "pay", "pick", "ship"])),
        Step::DropEventsWhere(EventPredicate {
            event_type: Some("pick".into()),
            ..EventPredicate::default()
        }),
        Step::RenameEventTypes(table(vec![("pay", "settle"), ("place", "settle")])),
        window(Some("1970-01-01"), None),
        Step::MapObjectIds(AliasTable {
            aliases: table(vec![("o2", "o1")]),
        }),
        related("order", vec!["order", "customer"]),
        Step::KeepObjectTypes(names(vec!["order", "customer"])),
        Step::DropObjectsWithoutEvents,
    ]
}

fn shipments() -> Log {
    let mut staging = StagingLog::new();
    staging.upsert_object("s1", "shipment");
    staging.upsert_object("o1", "order");
    staging.add_object_attribute("o1", "weight", AttrValue::Float(1.25), at(9));
    staging.add_o2o("s1", "o1", "carries");
    staging.add_o2o("o1", "s1", "goes by");
    staging.add_event(event("f1", "ship", 50, vec![], vec!["s1", "o1"]));
    built(staging)
}

/// The log is valid after every front part of the recipe.
#[test]
fn logs_stay_valid() {
    let steps = every_step();
    let inputs = vec![input(shipments())];
    for n in 0..=steps.len() {
        let (log, reports) = apply(&recipe(steps[..n].to_vec()), orders(), &inputs).unwrap();
        assert_eq!(log.validate(), Ok(()));
        assert_eq!(reports.len(), n);
    }
}

/// Reports follow one another, and tell the labels of the steps.
#[test]
fn reports_follow() {
    let steps = every_step();
    let inputs = vec![input(shipments())];
    let before = orders();
    let (counts, objects) = (before.events.len(), before.objects.len());
    let (log, reports) = apply(&recipe(steps.clone()), before, &inputs).unwrap();
    assert_eq!(reports[0].events_before, counts);
    assert_eq!(reports[0].objects_before, objects);
    for i in 1..reports.len() {
        assert_eq!(reports[i].events_before, reports[i - 1].events_after);
        assert_eq!(reports[i].objects_before, reports[i - 1].objects_after);
    }
    assert_eq!(reports[10].events_after, log.events.len());
    assert_eq!(reports[10].objects_after, log.objects.len());
    let labels: Vec<&str> = reports.iter().map(|r| r.step.as_str()).collect();
    assert_eq!(
        labels,
        [
            "union",
            "liftEvents",
            "dropEventTypes",
            "keepEventTypes",
            "dropEventsWhere",
            "renameEventTypes",
            "timeWindow",
            "mapObjectIds",
            "keepRelatedTo",
            "keepObjectTypes",
            "dropObjectsWithoutEvents"
        ]
    );
    assert_eq!(
        reports[0].line(),
        "union: events 4 -> 5, objects 5 -> 6, 0 duplicates skipped"
    );
    // e1 relates to its customer already; e3 and e4 gain it
    assert_eq!(
        reports[1].line(),
        "liftEvents: events 5 -> 5, objects 6 -> 6, lifted 2 events"
    );
    assert_eq!(
        reports[2].line(),
        "dropEventTypes: events 5 -> 5, objects 6 -> 6"
    );
}

/// A recipe does what its front part does, and then what the rest does.
#[test]
fn recipes_compose() {
    let steps = every_step();
    let inputs = vec![input(shipments())];
    let (whole, reports) = apply(&recipe(steps.clone()), orders(), &inputs).unwrap();
    for n in 0..=steps.len() {
        let (middle, first) = apply(&recipe(steps[..n].to_vec()), orders(), &inputs).unwrap();
        let rest = if n == 0 { vec![input(shipments())] } else { vec![] };
        let (end, second) = apply(&recipe(steps[n..].to_vec()), middle, &rest).unwrap();
        assert_eq!(end.to_ocel(), whole.to_ocel());
        let lines: Vec<String> = first.iter().chain(&second).map(|r| r.line()).collect();
        assert_eq!(lines, reports.iter().map(|r| r.line()).collect::<Vec<_>>());
    }
}

/// Where the rest of a recipe fails, the whole fails with its error, which
/// names the step by its place in the whole.
#[test]
fn failing_parts_fail_the_whole() {
    let first = vec![
        Step::DropEventTypes(names(vec!["pick"])),
        Step::DropObjectsWithoutEvents,
    ];
    let second = vec![window(None, None), window(Some("soon"), None)];
    let part = apply(&recipe(second.clone()), orders(), &vec![]).err().unwrap();
    assert_eq!(part.message(), "step 1: invalid time bound \"soon\" (RFC 3339 or YYYY-MM-DD)");
    let both: Vec<Step> = first.into_iter().chain(second).collect();
    let whole = apply(&recipe(both), orders(), &vec![]).err().unwrap();
    assert_eq!(whole.message(), "step 3: invalid time bound \"soon\" (RFC 3339 or YYYY-MM-DD)");
}

/// No step but a union invents data: every event and every object stems from
/// one that was there.
#[test]
fn nothing_is_invented() {
    let before = orders().to_ocel();
    for step in every_step() {
        if matches!(step, Step::Union(_)) {
            continue;
        }
        let maps = matches!(step, Step::MapObjectIds(_));
        let lifts = matches!(step, Step::LiftEvents(_));
        let after = one_step(step, orders()).to_ocel();
        for event in &after.events {
            let old = before.events.iter().find(|e| e.id == event.id).unwrap();
            assert_eq!(event.time, old.time);
            assert_eq!(event.attributes.len(), old.attributes.len());
            for (new, was) in event.attributes.iter().zip(&old.attributes) {
                assert_eq!(new.name, was.name);
                assert!(new.value == was.value || new.value == AttrValue::String(was.value.to_text()));
            }
            for relation in &event.relationships {
                assert!(
                    maps || old.relationships.contains(relation)
                        || (lifts && relation.qualifier == "up")
                );
            }
        }
        if !maps {
            for object in &after.objects {
                let old = before.objects.iter().find(|o| o.id == object.id).unwrap();
                assert_eq!(object.object_type, old.object_type);
                assert_eq!(object.attributes, old.attributes);
                assert!(object.relationships.iter().all(|r| old.relationships.contains(r)));
            }
        }
    }
}

/// A preview does what applying does, and tells the true number of dropped
/// events.
#[test]
fn previews_agree() {
    let inputs = vec![input(shipments())];
    let (log, reports) = apply(&recipe(every_step()), orders(), &inputs).unwrap();
    for sample in [0, 1, 100] {
        let (seen, previews) = preview(&recipe(every_step()), orders(), &inputs, sample).unwrap();
        assert_eq!(seen.to_ocel(), log.to_ocel());
        for (shown, report) in previews.iter().zip(&reports) {
            assert_eq!(shown.report.line(), report.line());
            assert_eq!(shown.dropped_events.len(), shown.dropped_total.min(sample));
            if report.step == "union" {
                assert_eq!(shown.dropped_total, 0);
            } else {
                assert_eq!(shown.dropped_total, report.events_before - report.events_after);
            }
        }
    }
}

#[test]
fn samples_show_the_first_dropped() {
    let steps = vec![Step::KeepEventTypes(names(vec!["pick"]))];
    let (_, previews) = preview(&recipe(steps), orders(), &vec![], 2).unwrap();
    assert_eq!(previews[0].dropped_total, 3);
    let shown = &previews[0].dropped_events;
    assert_eq!(shown.len(), 2);
    assert_eq!((shown[0].id.as_str(), shown[1].id.as_str()), ("e1", "e3"));
    assert_eq!(shown[1].event_type, "pay");
    assert_eq!(shown[1].time.secs(), 30);
    assert_eq!(shown[1].attributes, [("n".to_owned(), "0.5".to_owned())]);
}

#[test]
fn tried_runs_agree() {
    let inputs = vec![input(shipments())];
    let (log, _) = apply(&recipe(every_step()), orders(), &inputs).unwrap();
    let (tried, _) = try_apply(&recipe(every_step()), orders(), &inputs)
        .unwrap()
        .unwrap();
    let (seen, _) = try_preview(&recipe(every_step()), orders(), &inputs, 3)
        .unwrap()
        .unwrap();
    assert_eq!(tried.to_ocel(), log.to_ocel());
    assert_eq!(seen.to_ocel(), log.to_ocel());
}

/// Filters keep exactly the events that meet the condition, in order, and the
/// declared event types are those that are left.
#[test]
fn filters_keep_exactly() {
    let kept = one_step(Step::KeepEventTypes(names(vec!["place", "pay"])), orders());
    assert_eq!(event_ids(&kept), ["e1", "e3", "e4"]);
    let types: Vec<&str> = kept.event_types.iter().map(|t| t.name.as_str()).collect();
    assert_eq!(types, ["pay", "place"]);
    let dropped = one_step(Step::DropEventTypes(names(vec!["place", "pay"])), orders());
    assert_eq!(event_ids(&dropped), ["e2"]);
}

/// Renames merge types, keep ids, times and relations, and leave no old name.
#[test]
fn renames_merge() {
    let before = orders();
    let renamed = one_step(
        Step::RenameEventTypes(table(vec![("pay", "place"), ("gone", "x"), ("pick", "take")])),
        before.clone(),
    );
    let types: Vec<&str> = renamed.events.iter().map(|e| e.event_type.as_str()).collect();
    assert_eq!(types, ["place", "take", "place", "place"]);
    assert_eq!(event_ids(&renamed), event_ids(&before));
    let declared: Vec<&str> = renamed.event_types.iter().map(|t| t.name.as_str()).collect();
    assert_eq!(declared, ["place", "take"]);
}

/// Events whose attributes have values of one type each stay as they are.
#[test]
fn uniform_events_stay() {
    let before = orders().to_ocel();
    let kept = one_step(Step::KeepEventTypes(names(vec!["place", "pay"])), orders()).to_ocel();
    let expected = vec![
        before.events[0].clone(),
        before.events[2].clone(),
        before.events[3].clone(),
    ];
    assert_eq!(kept.events, expected);
    let renamed = one_step(Step::RenameEventTypes(table(vec![("pick", "place")])), orders()).to_ocel();
    let mut expected = before.events.clone();
    expected[1].event_type = "place".into();
    assert_eq!(renamed.events, expected);
}

/// What became text stays text: a filter after it leaves the events alone.
#[test]
fn events_become_uniform() {
    let mixed = one_step(Step::RenameEventTypes(table(vec![("pay", "place")])), orders());
    let before = mixed.to_ocel();
    let after = one_step(Step::DropEventTypes(names(vec!["pick"])), mixed).to_ocel();
    let expected = vec![
        before.events[0].clone(),
        before.events[2].clone(),
        before.events[3].clone(),
    ];
    assert_eq!(after.events, expected);
    assert_eq!(after.events[0].attributes[0].value, AttrValue::String("1".into()));
}

/// An attribute whose values have several types becomes text when types merge.
#[test]
fn mixed_attributes_become_text() {
    let renamed = one_step(Step::RenameEventTypes(table(vec![("pay", "place")])), orders());
    let kinds: Vec<bool> = renamed
        .events
        .iter()
        .map(|e| matches!(e.attributes[0].value, ocel_transform::model::Value::String(_)))
        .collect();
    assert_eq!(kinds, [true, false, true, true]);
    let texts: Vec<String> = renamed.events.iter().map(|e| e.attributes[0].value.to_text()).collect();
    assert_eq!(texts, ["1", "2", "0.5", "3"]);
}

/// Event steps leave the objects exactly as they are.
#[test]
fn event_steps_leave_objects() {
    let before = orders().to_ocel();
    for step in [
        Step::DropEventTypes(names(vec!["place"])),
        Step::KeepEventTypes(vec![]),
        Step::RenameEventTypes(table(vec![("pay", "place")])),
        window(Some("1970-01-01T00:00:15Z"), Some("1970-01-01T00:00:35Z")),
    ] {
        assert_eq!(one_step(step, orders()).to_ocel().objects, before.objects);
    }
}

/// A step settles objects that are not in order, and the next leaves them.
#[test]
fn event_steps_settle_objects() {
    let mut log = orders();
    let place = log.objects.iter().position(|o| o.id == "o1").unwrap();
    log.objects[place].attributes.reverse();
    log.objects[place].relationships.reverse();
    let repeated = log.objects[place].attributes[0].clone();
    log.objects[place].attributes.push(repeated);
    let once = one_step(Step::DropEventTypes(vec![]), log.clone());
    assert_eq!(once.to_ocel().objects, orders().to_ocel().objects);
    assert_ne!(once.to_ocel().objects, log.to_ocel().objects);
    let twice = one_step(Step::DropEventTypes(vec![]), once.clone());
    assert_eq!(twice.to_ocel(), once.to_ocel());
}

/// A window holds the instant it begins with, and not the one it ends with.
#[test]
fn windows_are_half_open() {
    let held = one_step(
        window(Some("1970-01-01T00:00:10Z"), Some("1970-01-01T00:00:30Z")),
        orders(),
    );
    assert_eq!(event_ids(&held), ["e1", "e2"]);
    let from = one_step(window(Some("1970-01-01T00:00:30Z"), None), orders());
    assert_eq!(event_ids(&from), ["e3", "e4"]);
    let to = one_step(window(None, Some("1970-01-01T00:00:30Z")), orders());
    assert_eq!(event_ids(&to), ["e1", "e2"]);
    let all = one_step(window(None, None), orders());
    assert_eq!(all.events.len(), 4);
}

/// A window from a date to the same date holds that day and nothing else.
#[test]
fn date_windows_hold_the_day() {
    let mut staging = StagingLog::new();
    staging.upsert_object("o", "thing");
    for (i, secs) in [-1, 0, 86399, 86400].into_iter().enumerate() {
        staging.add_event(event(&format!("e{i}"), "t", secs, vec![], vec!["o"]));
    }
    let log = one_step(window(Some("1970-01-01"), Some("1970-01-01")), built(staging));
    assert_eq!(event_ids(&log), ["e1", "e2"]);
}

/// Aliases that merge objects of one type succeed: references follow, and the
/// attributes and relations of the objects join.
#[test]
fn references_follow_aliases() {
    let aliased = one_step(
        Step::MapObjectIds(AliasTable {
            aliases: table(vec![("o2", "o1"), ("i1", "item:1"), ("none", "x")]),
        }),
        orders(),
    );
    assert_eq!(aliased.validate(), Ok(()));
    assert_eq!(object_ids(&aliased), ["o1", "item:1", "c1", "x1"]);
    let merged = &aliased.objects[0];
    assert_eq!(merged.object_type, "order");
    assert_eq!(merged.attributes.len(), 2);
    let mut times: Vec<DateTime<Utc>> =
        aliased.to_ocel().objects[0].attributes.iter().map(|a| a.time).collect();
    times.sort();
    assert_eq!(times, [at(3), at(7)]);
    let targets: Vec<&str> = merged.relationships.iter().map(|r| r.object_id.as_str()).collect();
    assert_eq!(targets, ["c1", "item:1"]);
    let followed: Vec<&str> = aliased
        .events
        .iter()
        .flat_map(|e| e.relationships.iter().map(|r| r.object_id.as_str()))
        .collect();
    assert_eq!(followed, ["o1", "c1", "item:1", "o1", "o1"]);
}

/// Aliases that merge objects of types that do not fit cannot be sealed.
#[test]
fn aliases_must_fit() {
    let merge = |from: &str, to: &str| {
        recipe(vec![Step::MapObjectIds(AliasTable {
            aliases: table(vec![(from, to)]),
        })])
    };
    // an order would become the first object, with its attribute `price`; as
    // the order o2 comes first, the customer's `name` is not declared of it
    assert!(try_apply(&merge("c1", "o2"), orders(), &vec![]).is_none());
    assert!(try_preview(&merge("c1", "o2"), orders(), &vec![], 1).is_none());
    // a spare part has no attributes that could be missing
    let (log, _) = try_apply(&merge("x1", "o2"), orders(), &vec![]).unwrap().unwrap();
    assert_eq!(log.validate(), Ok(()));
    assert_eq!(object_ids(&log), ["o2", "o1", "i1", "c1"]);
}

/// Keeping object types leaves these objects, and events that relate to one.
#[test]
fn kept_types_alone_stay() {
    let log = one_step(Step::KeepObjectTypes(names(vec!["order"])), orders());
    assert_eq!(object_ids(&log), ["o2", "o1"]);
    assert_eq!(event_ids(&log), ["e1", "e3", "e4"]);
    assert_eq!(log.events[0].relationships.len(), 1);
    assert!(log.objects.iter().all(|o| o.relationships.is_empty()));
    assert_eq!(log.object_types.len(), 4); // declarations stay
}

/// The cleanup leaves what events refer to; done twice it does nothing more.
#[test]
fn cleanup_once_is_enough() {
    let once = one_step(Step::DropObjectsWithoutEvents, orders());
    assert_eq!(object_ids(&once), ["o2", "o1", "i1", "c1"]);
    let twice = one_step(Step::DropObjectsWithoutEvents, once.clone());
    assert_eq!(twice.to_ocel(), once.to_ocel());
}

/// What is reached holds the seeds and grows with the types to walk through.
#[test]
fn walks_continue_through_allowed_types() {
    let from_items = |via: Vec<&str>| {
        let log = one_step(related("item", via), orders());
        let mut ids: Vec<String> = log.objects.iter().map(|o| o.id.clone()).collect();
        ids.sort();
        ids
    };
    assert_eq!(from_items(vec![]), ["i1", "o1"]);
    assert_eq!(from_items(vec!["customer"]), ["i1", "o1"]);
    assert_eq!(from_items(vec!["order"]), ["c1", "i1", "o1"]);
    assert_eq!(from_items(vec!["order", "customer"]), ["c1", "i1", "o1", "o2"]);
    let none = one_step(related("nothing", vec!["order"]), orders());
    assert!(none.objects.is_empty());
    assert!(none.events.is_empty());
}

/// Keeping what is related, or objects of some types, is done once for all.
#[test]
fn keeping_once_is_enough() {
    for step in [
        related("item", vec!["order"]),
        related("order", vec![]),
        Step::KeepObjectTypes(names(vec!["order", "customer"])),
    ] {
        let once = one_step(step.clone(), orders());
        let twice = one_step(step, once.clone());
        assert_eq!(twice.to_ocel(), once.to_ocel());
    }
}

/// A second lift to another type finds nothing to add.
#[test]
fn lifting_once_is_enough() {
    let steps = vec![lift("order", "customer"), lift("order", "customer")];
    let (log, reports) = apply(&recipe(steps), orders(), &vec![]).unwrap();
    assert_eq!(reports[0].events_lifted, Some(2));
    assert_eq!(reports[1].events_lifted, Some(0));
    let once = one_step(lift("order", "customer"), orders());
    assert_eq!(once.to_ocel(), log.to_ocel());
}

/// A lift within one type goes one link further each time.
#[test]
fn lifting_within_a_type_goes_on() {
    let mut staging = StagingLog::new();
    for id in ["a", "b", "c"] {
        staging.upsert_object(id, "node");
    }
    staging.add_o2o("a", "b", "next");
    staging.add_o2o("b", "c", "next");
    staging.add_event(event("e", "place", 1, vec![], vec!["a"]));
    let steps = vec![lift("node", "node"), lift("node", "node"), lift("node", "node")];
    let (log, reports) = apply(&recipe(steps), built(staging), &vec![]).unwrap();
    let lifted: Vec<Option<usize>> = reports.iter().map(|r| r.events_lifted).collect();
    assert_eq!(lifted, [Some(1), Some(1), Some(0)]);
    let targets: Vec<&str> = log.events[0].relationships.iter().map(|r| r.object_id.as_str()).collect();
    assert_eq!(targets, ["a", "b", "c"]);
}

/// Added relations stand behind the old ones, in the order of their ids.
#[test]
fn lifted_relations_stand_in_order() {
    let mut staging = StagingLog::new();
    staging.upsert_object("f", "from");
    for id in ["t3", "t1", "t2", "t10"] {
        staging.upsert_object(id, "to");
        staging.add_o2o("f", id, "link");
        staging.add_o2o(id, "f", "back");
    }
    staging.add_event(event("e", "place", 1, vec![], vec!["t2", "f"]));
    let log = one_step(lift("from", "to"), built(staging));
    let targets: Vec<&str> = log.events[0].relationships.iter().map(|r| r.object_id.as_str()).collect();
    assert_eq!(targets, ["t2", "f", "t1", "t10", "t3"]);
    assert_eq!(log.events[0].relationships[2].qualifier, "up");
}

/// A merge appends fresh events and joins the objects of one id.
#[test]
fn merges_join_objects() {
    let (log, reports) = apply(&recipe(vec![union()]), orders(), &vec![input(shipments())]).unwrap();
    assert_eq!(event_ids(&log), ["e1", "e2", "e3", "e4", "f1"]);
    assert_eq!(object_ids(&log), ["o2", "o1", "i1", "c1", "x1", "s1"]);
    let merged = &log.objects[1];
    let targets: Vec<&str> = merged.relationships.iter().map(|r| r.object_id.as_str()).collect();
    assert_eq!(targets, ["c1", "i1", "s1"]);
    let seen: Vec<&str> = merged.attributes.iter().map(|a| a.name.as_str()).collect();
    assert_eq!(seen, ["price", "price", "weight"]);
    let mut times: Vec<(String, DateTime<Utc>)> = log.to_ocel().objects[1]
        .attributes
        .iter()
        .map(|a| (a.name.clone(), a.time))
        .collect();
    times.sort();
    let expected = vec![
        ("price".to_owned(), at(3)),
        ("price".to_owned(), at(7)),
        ("weight".to_owned(), at(9)),
    ];
    assert_eq!(times, expected);
    assert_eq!(reports[0].duplicates_skipped, Some(0));
}

/// Merged observations keep their values; where the types of the values of an
/// attribute conflict, they become their texts. Of several that are written
/// alike at one time one stays.
#[test]
fn merged_observations_keep_their_values() {
    let priced = |value: AttrValue, secs: i64| {
        let mut staging = StagingLog::new();
        staging.upsert_object("o1", "order");
        staging.add_object_attribute("o1", "price", value, at(secs));
        built(staging)
    };
    let merged = |a: (AttrValue, i64), b: (AttrValue, i64)| {
        let inputs = vec![input(priced(b.0, b.1))];
        let (log, _) = apply(&recipe(vec![union()]), priced(a.0, a.1), &inputs).unwrap();
        let objects = log.to_ocel().objects;
        assert_eq!(objects.len(), 1);
        assert_eq!(objects[0].object_type, "order");
        objects[0]
            .attributes
            .iter()
            .map(|a| (a.value.clone(), a.time))
            .collect::<Vec<_>>()
    };
    let (one, two) = (AttrValue::Integer(1), AttrValue::Integer(2));
    let text = |s: &str| AttrValue::String(s.into());
    assert_eq!(
        merged((one.clone(), 1), (two.clone(), 2)),
        [(one.clone(), at(1)), (two.clone(), at(2))]
    );
    assert_eq!(
        merged((one.clone(), 1), (text("x"), 1)),
        [(text("1"), at(1)), (text("x"), at(1))]
    );
    assert_eq!(merged((one.clone(), 1), (text("1"), 1)), [(text("1"), at(1))]);
    assert_eq!(merged((one.clone(), 1), (one.clone(), 1)), [(one, at(1))]);
    let nan = |bits: u64| AttrValue::Float(f64::from_bits(bits));
    let kept = merged((nan(0x7ff8000000000000), 1), (nan(0x7ff8000000000001), 1));
    assert_eq!(kept.len(), 1);
}

/// A log merged with itself gains nothing: every event is a duplicate.
#[test]
fn merging_itself_adds_nothing() {
    let (log, reports) = apply(&recipe(vec![union()]), orders(), &vec![input(orders())]).unwrap();
    assert_eq!(reports[0].duplicates_skipped, Some(4));
    assert_eq!(log.to_ocel(), orders().to_ocel());
}

fn one_float(number: f64) -> Log {
    let mut staging = StagingLog::new();
    staging.upsert_object("o", "thing");
    staging.add_event(event("e", "t", 1, vec![("x", AttrValue::Float(number))], vec!["o"]));
    built(staging)
}

/// Floats are compared as numbers: the zeros are the same, a NaN differs even
/// from itself.
#[test]
fn events_compare_floats_as_numbers() {
    let merge = |a: f64, b: f64| apply(&recipe(vec![union()]), one_float(a), &vec![input(one_float(b))]);
    assert_eq!(merge(0.0, -0.0).unwrap().1[0].duplicates_skipped, Some(1));
    assert_eq!(merge(1.5, 1.5).unwrap().1[0].duplicates_skipped, Some(1));
    assert!(merge(1.5, 1.25).is_err());
    assert!(merge(f64::NAN, f64::NAN).is_err());
}

/// Two unions read two inputs, in order.
#[test]
fn unions_read_their_own_input() {
    let steps = vec![
        union(),
        Step::DropEventTypes(names(vec!["ship"])),
        Step::Union(UnionSource {
            file: "third.json".into(),
        }),
    ];
    let recipe = recipe(steps);
    assert_eq!(recipe.union_files(), ["other.json", "third.json"]);
    let inputs = vec![input(shipments()), input(one_float(2.0))];
    let (log, _) = apply(&recipe, orders(), &inputs).unwrap();
    assert_eq!(event_ids(&log), ["e1", "e2", "e3", "e4", "e"]);
}
