//! Numbers, names, instants and texts.

use ocel::AttrValue;
use ocel_etl::{StagingEvent, StagingLog};
use ocel_transform::double::Double;
use ocel_transform::matcher::Matcher;
use ocel_transform::model::{EventAttribute, Value};
use ocel_transform::names::NameTable;
use ocel_transform::time::Timestamp;
use ocel_transform::{EventPredicate, Log};

fn double(number: f64) -> Double {
    Double {
        bits: number.to_bits(),
    }
}

fn floats() -> Vec<f64> {
    vec![
        0.0,
        -0.0,
        1.0,
        -1.0,
        0.1,
        -0.1,
        1.5,
        10.0,
        -10.0,
        1e300,
        -1e300,
        f64::MIN_POSITIVE,
        -f64::MIN_POSITIVE,
        5e-324,
        -5e-324,
        f64::MAX,
        f64::MIN,
        f64::INFINITY,
        f64::NEG_INFINITY,
        f64::NAN,
        -f64::NAN,
        9007199254740992.0,
        9007199254740994.0,
    ]
}

#[test]
fn doubles_compare_as_floats_do() {
    for a in floats() {
        for b in floats() {
            assert_eq!(double(a).less(&double(b)), a < b, "{a} < {b}");
            assert_eq!(double(a).same(&double(b)), a == b, "{a} == {b}");
        }
    }
}

#[test]
fn integers_become_the_nearest_double() {
    let mut integers: Vec<i64> = vec![
        0,
        1,
        -1,
        2,
        3,
        10,
        -10,
        255,
        9007199254740991,
        9007199254740992,
        9007199254740993,
        9007199254740994,
        9007199254740995,
        -9007199254740993,
        18014398509481985,
        18014398509481987,
        i64::MAX,
        i64::MAX - 1,
        i64::MAX - 511,
        i64::MAX - 512,
        i64::MAX - 513,
        i64::MIN,
        i64::MIN + 1,
        i64::MIN + 513,
    ];
    for shift in 0..63 {
        for offset in -3i64..4 {
            integers.push((1i64 << shift).wrapping_add(offset));
            integers.push((1i64 << shift).wrapping_add(offset).wrapping_neg());
            integers.push(((1i64 << shift) + (1i64 << (shift / 2))).wrapping_add(offset));
        }
    }
    let mut seed: u64 = 0x9e37_79b9_7f4a_7c15;
    for _ in 0..5000 {
        seed ^= seed << 13;
        seed ^= seed >> 7;
        seed ^= seed << 17;
        integers.push(seed as i64);
        integers.push((seed >> (seed % 60)) as i64);
    }
    for i in integers {
        assert_eq!(Double::from_integer(i).bits, (i as f64).to_bits(), "{i}");
    }
}

#[test]
fn tables_resolve_names() {
    let table = NameTable::from_pairs(vec![
        ("b".to_owned(), "x".to_owned()),
        ("a".to_owned(), "y".to_owned()),
        ("b".to_owned(), "z".to_owned()),
    ]);
    assert_eq!(table.resolve("a"), "y");
    assert_eq!(table.resolve("b"), "z"); // the last entry of a name counts
    assert_eq!(table.resolve("c"), "c"); // names without an entry stay
    assert_eq!(table.resolve(""), "");
    let more = table.clone().insert("".to_owned(), "empty".to_owned());
    assert_eq!(more.resolve(""), "empty");
    assert_eq!(more.resolve("a"), "y");
    assert_eq!(NameTable::new().resolve("a"), "a");
    assert_eq!(NameTable::default().resolve("é"), "é");
}

/// Names beyond the first plane sort by code point, not by UTF-16 unit.
#[test]
fn tables_hold_names_of_every_script() {
    let names = ["\u{ffff}", "\u{10000}", "z", "Z", "é", "e", "\u{7f}"];
    let table = NameTable::from_pairs(
        names
            .iter()
            .map(|n| ((*n).to_owned(), format!("<{n}>")))
            .collect(),
    );
    for name in names {
        assert_eq!(table.resolve(name), format!("<{name}>"));
    }
}

#[test]
fn instants_have_a_range() {
    let first = Timestamp::new(-8334601228800, 0).unwrap();
    assert_eq!(first.secs(), -8334601228800);
    let last = Timestamp::new(8210266876799, 1_999_999_999).unwrap();
    assert_eq!(last.nanos(), 1_999_999_999);
    assert!(Timestamp::new(-8334601228801, 0).is_none());
    assert!(Timestamp::new(8210266876800, 0).is_none());
    assert!(Timestamp::new(0, 2_000_000_000).is_none());
    assert!(first.before(&last));
    assert!(!last.before(&first));
    assert!(!first.before(&first));
    assert!(first.same(&first));
    let later = Timestamp::new(-8334601228800, 1).unwrap();
    assert!(first.before(&later));
    assert!(!first.same(&later));
}

/// A log that holds one event with these values, in order.
fn values(all: Vec<AttrValue>) -> Vec<EventAttribute> {
    let log = ocel::Ocel {
        events: vec![ocel::Event {
            id: "e".into(),
            event_type: "t".into(),
            time: chrono::DateTime::from_timestamp(0, 0).unwrap(),
            attributes: all
                .into_iter()
                .enumerate()
                .map(|(i, value)| ocel::EventAttribute {
                    name: format!("a{i}"),
                    value,
                })
                .collect(),
            relationships: vec![],
        }],
        ..ocel::Ocel::default()
    };
    let mut events = Log::from_ocel(&log).events;
    events.remove(0).attributes
}

#[test]
fn values_are_written_as_text() {
    let time = chrono::DateTime::from_timestamp(1700000000, 500_000_000).unwrap();
    let all = values(vec![
        AttrValue::String("plain".into()),
        AttrValue::Integer(-42),
        AttrValue::Integer(0),
        AttrValue::Boolean(true),
        AttrValue::Boolean(false),
        AttrValue::Float(1.5),
        AttrValue::Float(-0.0),
        AttrValue::Time(time),
    ]);
    let texts: Vec<String> = all.iter().map(|a| a.value.to_text()).collect();
    assert_eq!(
        texts,
        [
            "plain",
            "-42",
            "0",
            "true",
            "false",
            "1.5",
            "-0",
            "2023-11-14T22:13:20.500+00:00"
        ]
    );
}

/// Every kind of value, the extreme instants and a leap second survive the
/// way to `ocel` and back.
#[test]
fn logs_keep_their_contents() {
    let leap = chrono::DateTime::parse_from_rfc3339("2016-12-31T23:59:60.25Z")
        .unwrap()
        .to_utc();
    let mut staging = StagingLog::new();
    staging.upsert_object("o1", "thing");
    staging.add_object_attribute("o1", "n", AttrValue::Integer(7), leap);
    staging.add_object_attribute("o1", "f", AttrValue::Float(2.25), leap);
    staging.add_o2o("o1", "o1", "self");
    for (i, time) in [
        leap,
        chrono::DateTime::<chrono::Utc>::MIN_UTC,
        chrono::DateTime::<chrono::Utc>::MAX_UTC,
    ]
    .into_iter()
    .enumerate()
    {
        staging.add_event(StagingEvent {
            id: format!("e{i}"),
            event_type: "t".into(),
            time,
            attributes: vec![
                ("b".into(), AttrValue::Boolean(true)),
                ("t".into(), AttrValue::Time(time)),
                ("s".into(), AttrValue::String("x".into())),
            ],
            relations: vec![("o1".into(), "q".into())],
        });
    }
    let log = staging.into_ocel().unwrap();
    let read = Log::from_ocel(&log);
    assert_eq!(read.to_ocel(), log);
    assert_eq!(read.clone().to_ocel(), log);
    assert_eq!(read.events[0].time.secs(), 1483228799);
    assert_eq!(read.events[0].time.nanos(), 1_250_000_000);
}

fn matcher(predicate: EventPredicate) -> Matcher {
    Matcher::compile(0, &predicate).unwrap()
}

fn one(value: AttrValue) -> Vec<EventAttribute> {
    values(vec![value])
}

#[test]
fn predicates_join_their_conditions() {
    let by_type = matcher(EventPredicate {
        event_type: Some("t".into()),
        ..EventPredicate::default()
    });
    assert!(by_type.matches(&"t".to_owned(), &vec![]));
    assert!(!by_type.matches(&"u".to_owned(), &vec![]));

    let present = matcher(EventPredicate {
        attr: Some("a0".into()),
        ..EventPredicate::default()
    });
    assert!(present.matches(&"t".to_owned(), &one(AttrValue::Boolean(false))));
    // an event without the named attribute never matches
    assert!(!present.matches(&"t".to_owned(), &vec![]));

    let equal = matcher(EventPredicate {
        event_type: Some("t".into()),
        attr: Some("a0".into()),
        equals: Some("12".into()),
        ..EventPredicate::default()
    });
    assert!(equal.matches(&"t".to_owned(), &one(AttrValue::Integer(12))));
    assert!(equal.matches(&"t".to_owned(), &one(AttrValue::String("12".into()))));
    assert!(!equal.matches(&"t".to_owned(), &one(AttrValue::Integer(13))));
    assert!(!equal.matches(&"u".to_owned(), &one(AttrValue::Integer(12))));

    let regex = matcher(EventPredicate {
        attr: Some("a0".into()),
        matches: Some("^a+$".into()),
        ..EventPredicate::default()
    });
    assert!(regex.matches(&"t".to_owned(), &one(AttrValue::String("aaa".into()))));
    assert!(!regex.matches(&"t".to_owned(), &one(AttrValue::String("aab".into()))));
}

#[test]
fn bounds_admit_numbers_alone() {
    let range = matcher(EventPredicate {
        attr: Some("a0".into()),
        min: Some(double(-1.5)),
        max: Some(double(10.0)),
        ..EventPredicate::default()
    });
    let admits = |value: AttrValue| range.matches(&"t".to_owned(), &one(value));
    assert!(admits(AttrValue::Integer(10)));
    assert!(admits(AttrValue::Integer(-1)));
    assert!(!admits(AttrValue::Integer(11)));
    assert!(!admits(AttrValue::Integer(-2)));
    assert!(admits(AttrValue::Float(-1.5)));
    assert!(!admits(AttrValue::Float(-1.5000001)));
    assert!(!admits(AttrValue::Float(10.000001)));
    assert!(admits(AttrValue::Float(10.0)));
    // a NaN is neither at least the one bound nor at most the other
    assert!(!admits(AttrValue::Float(f64::NAN)));
    assert!(!admits(AttrValue::String("5".into())));
    assert!(!admits(AttrValue::Boolean(true)));
}

/// A NaN passes neither bound, and a bound that is a NaN admits nothing.
#[test]
fn nan_is_never_within_bounds() {
    let bounded = |min: Option<f64>, max: Option<f64>, value: AttrValue| {
        matcher(EventPredicate {
            attr: Some("a0".into()),
            min: min.map(double),
            max: max.map(double),
            ..EventPredicate::default()
        })
        .matches(&"t".to_owned(), &one(value))
    };
    assert!(!bounded(Some(0.0), None, AttrValue::Float(f64::NAN)));
    assert!(!bounded(None, Some(0.0), AttrValue::Float(f64::NAN)));
    assert!(!bounded(Some(f64::NAN), None, AttrValue::Integer(1)));
    assert!(!bounded(None, Some(f64::NAN), AttrValue::Float(1.0)));
    assert!(!bounded(Some(0.0), Some(f64::NAN), AttrValue::Integer(1)));
    // without bounds a NaN is a value like any other
    assert!(bounded(None, None, AttrValue::Float(f64::NAN)));
    // both zeros are one number
    assert!(bounded(Some(0.0), Some(0.0), AttrValue::Float(-0.0)));
    assert!(bounded(
        Some(f64::NEG_INFINITY),
        Some(f64::INFINITY),
        AttrValue::Integer(i64::MIN)
    ));
}

/// The first attribute of a name decides.
#[test]
fn first_attribute_of_a_name_counts() {
    let mut attributes = values(vec![
        AttrValue::String("first".into()),
        AttrValue::String("second".into()),
    ]);
    attributes[1].name = "a0".into();
    let equal = |text: &str| {
        matcher(EventPredicate {
            attr: Some("a0".into()),
            equals: Some(text.into()),
            ..EventPredicate::default()
        })
    };
    assert!(equal("first").matches(&"t".to_owned(), &attributes));
    assert!(!equal("second").matches(&"t".to_owned(), &attributes));
}

/// What the text of a value and its match decide, for texts and answers of any
/// kind.
#[test]
fn conditions_on_values_take_text_and_match() {
    let both = matcher(EventPredicate {
        attr: Some("a".into()),
        equals: Some("x".into()),
        matches: Some("y".into()),
        min: Some(double(2.0)),
        ..EventPredicate::default()
    });
    let two = Value::Integer(2);
    assert!(both.admits_written(&two, &"x".to_owned(), true));
    assert!(!both.admits_written(&two, &"x".to_owned(), false));
    assert!(!both.admits_written(&two, &"z".to_owned(), true));
    assert!(!both.admits_written(&Value::Integer(1), &"x".to_owned(), true));
    assert!(!both.admits_written(&Value::Boolean(true), &"x".to_owned(), true));
}
