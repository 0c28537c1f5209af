//! Every error, with the step that it names.

use ocel_etl::{StagingEvent, StagingLog};
use ocel_transform::matcher::{refusal, Matcher};
use ocel_transform::time::Timestamp;
use ocel_transform::validity::Breach;
use ocel_transform::window::{parse_bound, settle, LAST_DAY};
use ocel_transform::{
    apply, try_apply, EventPredicate, LiftEvents, Log, Recipe, RelatedTo, Step, TimeWindow,
    TransformError, UnionInput, UnionSource,
};

fn event(id: &str, secs: i64) -> StagingEvent {
    StagingEvent {
        id: id.into(),
        event_type: "t".into(),
        time: chrono::DateTime::from_timestamp(secs, 0).unwrap(),
        attributes: vec![],
        relations: vec![("o1".into(), "q".into())],
    }
}

fn log_of(events: Vec<StagingEvent>) -> Log {
    let mut staging = StagingLog::new();
    staging.upsert_object("o1", "thing");
    for event in events {
        staging.add_event(event);
    }
    Log::from_ocel(&staging.into_ocel().unwrap())
}

fn small() -> Log {
    log_of(vec![event("e1", 1), event("e2", 2)])
}

/// Applies two steps, the first of which does nothing.
fn second_step_fails(step: Step, inputs: &Vec<UnionInput>) -> TransformError {
    let recipe = Recipe {
        name: "failing".into(),
        steps: vec![Step::DropEventTypes(vec![]), step],
    };
    apply(&recipe, small(), inputs).unwrap_err()
}

fn predicate(attr: Option<&str>, event_type: Option<&str>, matches: Option<&str>) -> Step {
    Step::DropEventsWhere(EventPredicate {
        event_type: event_type.map(str::to_owned),
        attr: attr.map(str::to_owned),
        matches: matches.map(str::to_owned),
        ..EventPredicate::default()
    })
}

#[test]
fn bad_regex_is_reported() {
    let error = second_step_fails(predicate(Some("a"), None, Some("(")), &vec![]);
    let message = error.message();
    assert!(matches!(error, TransformError::BadRegex { step: 1, .. }));
    assert!(
        message.starts_with("step 1: invalid regex: regex parse error:"),
        "{message}"
    );
    assert!(message.contains("unclosed group"), "{message}");
}

#[test]
fn refusals_come_in_order() {
    let empty = EventPredicate::default();
    let fault = || Some("broken".to_owned());
    assert_eq!(
        refusal(3, &empty, fault()).unwrap().message(),
        "step 3: predicate has no conditions (it would drop every event)"
    );
    let valued = EventPredicate {
        event_type: Some("t".into()),
        equals: Some("x".into()),
        ..EventPredicate::default()
    };
    assert_eq!(
        refusal(3, &valued, fault()).unwrap().message(),
        "step 3: value conditions (equals/matches/min/max) require `attr`"
    );
    // a condition on a value alone is a condition, and it lacks its attribute
    let alone = EventPredicate {
        equals: Some("x".into()),
        ..EventPredicate::default()
    };
    assert_eq!(
        refusal(3, &alone, fault()).unwrap().message(),
        "step 3: value conditions (equals/matches/min/max) require `attr`"
    );
    assert!(matches!(
        Matcher::compile(0, &alone),
        Err(TransformError::ValueConditionWithoutAttr { step: 0 })
    ));
    let fine = EventPredicate {
        attr: Some("a".into()),
        ..EventPredicate::default()
    };
    assert_eq!(
        refusal(3, &fine, fault()).unwrap().message(),
        "step 3: invalid regex: broken"
    );
    assert!(refusal(3, &fine, None).is_none());
}

#[test]
fn bad_time_is_reported() {
    for raw in ["2024-13-01", "yesterday", "", "2024-1-1x"] {
        let error = second_step_fails(
            Step::TimeWindow(TimeWindow {
                from: None,
                to: Some(raw.into()),
            }),
            &vec![],
        );
        assert_eq!(
            error.message(),
            format!("step 1: invalid time bound {raw:?} (RFC 3339 or YYYY-MM-DD)")
        );
    }
}

/// The first bound is read first.
#[test]
fn first_bad_bound_is_reported() {
    let error = second_step_fails(
        Step::TimeWindow(TimeWindow {
            from: Some("\"quoted\"\n".into()),
            to: Some("also bad".into()),
        }),
        &vec![],
    );
    assert_eq!(
        error.message(),
        r#"step 1: invalid time bound "\"quoted\"\n" (RFC 3339 or YYYY-MM-DD)"#
    );
}

#[test]
fn bounds_are_read() {
    let secs = |raw: &str, is_to: bool| {
        parse_bound(0, &Some(raw.to_owned()), is_to)
            .unwrap()
            .map(|t| (t.secs(), t.nanos()))
    };
    assert!(parse_bound(0, &None, true).unwrap().is_none());
    assert_eq!(secs("1970-01-02", false), Some((86400, 0)));
    assert_eq!(secs("1970-01-02", true), Some((172800, 0)));
    assert_eq!(secs("1969-12-31", false), Some((-86400, 0)));
    assert_eq!(secs("2024-02-28", true), Some((1709164800, 0)));
    assert_eq!(secs("1970-01-01T01:00:00.5+01:00", true), Some((0, 500_000_000)));
    assert_eq!(secs("1970-01-01T00:03:20Z", false), Some((200, 0)));
}

/// The last day that a date can be begins, but has no next day.
#[test]
fn last_day_has_no_next() {
    let raw = "last".to_owned();
    let begins = settle(0, &raw, None, Some(LAST_DAY), false).unwrap().unwrap();
    assert_eq!(begins.secs(), i64::from(LAST_DAY) * 86400);
    let ends = settle(4, &raw, None, Some(LAST_DAY), true).unwrap_err();
    assert_eq!(
        ends.message(),
        "step 4: invalid time bound \"last\" (RFC 3339 or YYYY-MM-DD)"
    );
    let before = settle(4, &raw, None, Some(LAST_DAY - 1), true).unwrap().unwrap();
    assert_eq!(before.secs(), i64::from(LAST_DAY) * 86400);
    // an instant goes before a date
    let instant = Timestamp::new(5, 6);
    let settled = settle(0, &raw, instant, Some(0), true).unwrap().unwrap();
    assert_eq!((settled.secs(), settled.nanos()), (5, 6));
    assert_eq!(
        settle(9, &raw, None, None, false).unwrap_err().message(),
        "step 9: invalid time bound \"last\" (RFC 3339 or YYYY-MM-DD)"
    );
    let written = "+262142-12-31".to_owned();
    assert!(parse_bound(0, &Some(written.clone()), false).is_ok());
    assert!(parse_bound(0, &Some(written), true).is_err());
}

#[test]
fn related_and_lift_errors_name_their_step() {
    let related = Step::KeepRelatedTo(RelatedTo {
        object_type: "thing".into(),
        via: None,
        not_via: None,
    });
    assert_eq!(
        second_step_fails(related, &vec![]).message(),
        "step 1: keepRelatedTo requires exactly one of `via` / `notVia`"
    );
    let lift = Step::LiftEvents(LiftEvents {
        from: "a".into(),
        to: "b".into(),
        event_types: vec![],
        qualifier: "q".into(),
    });
    assert_eq!(
        second_step_fails(lift, &vec![]).message(),
        "step 1: liftEvents requires a non-empty `eventTypes`"
    );
}

fn union() -> Step {
    Step::Union(UnionSource {
        file: "other.json".into(),
    })
}

fn input(outcome: Result<Log, String>) -> Vec<UnionInput> {
    vec![UnionInput {
        path: "dir/other.json".into(),
        outcome,
    }]
}

#[test]
fn unreadable_union_is_reported() {
    let error = second_step_fails(union(), &input(Err("no such file".into())));
    assert_eq!(
        error.message(),
        "step 1: union: cannot read dir/other.json: no such file"
    );
}

/// A failing step before the union hides that its file cannot be read.
#[test]
fn unreached_union_is_not_reported() {
    let recipe = Recipe {
        name: "failing".into(),
        steps: vec![predicate(None, None, None), union()],
    };
    let error = apply(&recipe, small(), &input(Err("no such file".into()))).unwrap_err();
    assert!(matches!(error, TransformError::EmptyPredicate { step: 0 }));
}

#[test]
fn conflicts_are_counted_and_named() {
    let shifted: Vec<StagingEvent> = (0..7).map(|i| event(&format!("e{i}"), 100 + i)).collect();
    let ours: Vec<StagingEvent> = (0..7).map(|i| event(&format!("e{i}"), i)).collect();
    let recipe = Recipe {
        name: "merge".into(),
        steps: vec![union()],
    };
    let error = apply(&recipe, log_of(ours), &input(Ok(log_of(shifted)))).unwrap_err();
    assert_eq!(
        error.message(),
        "step 0: union: 7 events share an id with the current log but differ \
         (e.g. [\"e0\", \"e1\", \"e2\", \"e3\", \"e4\"]); same-id events must be identical to merge"
    );
    let one = apply(&recipe, small(), &input(Ok(log_of(vec![event("e1", 9)])))).unwrap_err();
    assert_eq!(
        one.message(),
        "step 0: union: 1 events share an id with the current log but differ \
         (e.g. [\"e1\"]); same-id events must be identical to merge"
    );
}

/// A log with a dangling reference, an undeclared type and an undeclared
/// attribute, none of which a staging log would let through.
fn broken() -> Log {
    let mut log = small();
    log.events[0].relationships[0].object_id = "gone".into();
    log
}

#[test]
fn merging_a_broken_log_is_reported() {
    let mut other = log_of(vec![event("e9", 9)]);
    other.events[0].relationships[0].object_id = "gone".into();
    let recipe = Recipe {
        name: "merge".into(),
        steps: vec![union()],
    };
    let error = apply(&recipe, small(), &input(Ok(other))).unwrap_err();
    assert_eq!(
        error.message(),
        "the transformed log failed validation: \
         [DanglingE2O { event: \"e9\", object: \"gone\" }]"
    );
}

/// The final validation catches what no step repairs.
#[test]
fn final_validation_is_reported() {
    let recipe = Recipe {
        name: "empty".into(),
        steps: vec![],
    };
    let error = apply(&recipe, broken(), &vec![]).unwrap_err();
    assert_eq!(
        error.message(),
        "the transformed log failed validation: \
         [DanglingE2O { event: \"e1\", object: \"gone\" }]"
    );
}

#[test]
fn every_breach_is_found_and_shown() {
    let mut log = small();
    log.events[1].id = "e1".into();
    log.events[0].event_type = "odd".into();
    log.objects.push(log.objects[0].clone());
    log.objects[1].object_type = "strange".into();
    log.objects[0].relationships = log.events[0].relationships.clone();
    log.objects[0].relationships[0].object_id = "gone".into();
    let found = log.validate().unwrap_err();
    let shown: Vec<String> = found.iter().map(Breach::shown).collect();
    assert_eq!(
        shown,
        [
            "DuplicateObjectId(\"o1\")",
            "DuplicateEventId(\"e1\")",
            "UndeclaredEventType { event: \"e1\", event_type: \"odd\" }",
            "DanglingO2O { source_id: \"o1\", target_id: \"gone\" }",
            "UndeclaredObjectType { object: \"o1\", object_type: \"strange\" }",
        ]
    );
    // the same words as the report of the log itself
    let theirs = log.to_ocel().validate().unwrap_err();
    assert_eq!(shown, theirs.iter().map(|v| format!("{v:?}")).collect::<Vec<_>>());
}

#[test]
fn undeclared_attributes_are_shown() {
    let mut staging = StagingLog::new();
    staging.upsert_object("o1", "thing");
    staging.add_object_attribute(
        "o1",
        "size",
        ocel::AttrValue::Integer(1),
        chrono::DateTime::from_timestamp(0, 0).unwrap(),
    );
    let mut labeled = event("e1", 1);
    labeled
        .attributes
        .push(("note".into(), ocel::AttrValue::Boolean(true)));
    staging.add_event(labeled);
    let mut log = Log::from_ocel(&staging.into_ocel().unwrap());
    log.event_types[0].attributes.clear();
    log.object_types[0].attributes.clear();
    let shown: Vec<String> = log
        .validate()
        .unwrap_err()
        .iter()
        .map(Breach::shown)
        .collect();
    assert_eq!(
        shown,
        [
            "UndeclaredEventAttribute { event: \"e1\", attribute: \"note\" }",
            "UndeclaredObjectAttribute { object: \"o1\", attribute: \"size\" }",
        ]
    );
}

/// A staging step on a log with a dangling reference cannot be sealed.
#[test]
fn steps_on_a_broken_log_cannot_be_sealed() {
    let recipe = Recipe {
        name: "drop".into(),
        steps: vec![Step::DropEventTypes(vec!["other".into()])],
    };
    assert!(try_apply(&recipe, broken(), &vec![]).is_none());
    // dropping the event that dangles repairs the log
    let repairing = Recipe {
        name: "repair".into(),
        steps: vec![Step::DropEventTypes(vec!["t".into()])],
    };
    let (log, _) = try_apply(&repairing, broken(), &vec![]).unwrap().unwrap();
    assert_eq!(log.validate(), Ok(()));
    assert!(log.events.is_empty());
}
