//! Tests of timeline construction: ordering, waits, and the error cases.

use event_replay::timeline::{build_timeline, Artifact, BuildError};

fn art(name: &str, content: &str) -> Artifact {
    Artifact { name: name.as_bytes().to_vec(), content: Some(content.to_string()) }
}

fn art_missing(name: &str) -> Artifact {
    Artifact { name: name.as_bytes().to_vec(), content: None }
}

#[test]
fn two_artifacts_waits_and_contents() {
    let arts = vec![
        art("a_b_20240101120000.json", "{\"n\":1}"),
        art("a_b_20240101120005.json", "{\"n\":2}"),
    ];
    let t = build_timeline(arts, 3).unwrap();
    assert_eq!(t.len(), 2);
    assert_eq!(t.wait_secs(0), 3);
    assert_eq!(t.content(0).as_str(), "{\"n\":1}");
    assert_eq!(t.label(0).as_slice(), b"a_b_20240101120000.json");
    assert_eq!(t.wait_secs(1), 5);
    assert_eq!(t.content(1).as_str(), "{\"n\":2}");
    assert_eq!(t.label(1).as_slice(), b"a_b_20240101120005.json");
}

#[test]
fn entries_follow_name_order() {
    let arts = vec![
        art("c_a_20240101120010.json", "third"),
        art("a_a_20240101120000.json", "first"),
        art("b_a_20240101120005.json", "second"),
    ];
    let t = build_timeline(arts, 3).unwrap();
    assert_eq!(t.len(), 3);
    assert_eq!(t.label(0).as_slice(), b"a_a_20240101120000.json");
    assert_eq!(t.label(1).as_slice(), b"b_a_20240101120005.json");
    assert_eq!(t.label(2).as_slice(), b"c_a_20240101120010.json");
    assert_eq!(t.content(0).as_str(), "first");
    assert_eq!(t.content(1).as_str(), "second");
    assert_eq!(t.content(2).as_str(), "third");
    assert_eq!(t.wait_secs(0), 3);
    assert_eq!(t.wait_secs(1), 5);
    assert_eq!(t.wait_secs(2), 5);
}

#[test]
fn build_is_deterministic() {
    let mk = || {
        vec![
            art("b_a_20240101120007.json", "{}"),
            art("a_a_20240101120000.json", "[]"),
        ]
    };
    let t1 = build_timeline(mk(), 3).unwrap();
    let t2 = build_timeline(mk(), 3).unwrap();
    assert_eq!(t1.len(), t2.len());
    for i in 0..t1.len() {
        assert_eq!(t1.label(i), t2.label(i));
        assert_eq!(t1.content(i), t2.content(i));
        assert_eq!(t1.wait_secs(i), t2.wait_secs(i));
    }
}

#[test]
fn malformed_identifier_rejected() {
    let r = build_timeline(vec![art("evt_foo_notatime.json", "{}")], 3);
    match r {
        Err(e) => assert_eq!(e, BuildError::MalformedIdentifier(b"evt_foo_notatime.json".to_vec())),
        Ok(_) => panic!("expected a construction error"),
    }
}

#[test]
fn missing_second_separator_rejected() {
    let r = build_timeline(vec![art("ab_20240101120000.json", "{}")], 3);
    match r {
        Err(BuildError::MalformedIdentifier(n)) => {
            assert_eq!(n.as_slice(), b"ab_20240101120000.json")
        },
        _ => panic!("expected a malformed identifier error"),
    }
}

#[test]
fn invalid_calendar_date_rejected() {
    for name in [
        "a_b_20230229120000.json",
        "a_b_20241301120000.json",
        "a_b_20240100120000.json",
        "a_b_20240101240000.json",
        "a_b_20240101126000.json",
        "a_b_20240101120060.json",
    ] {
        let r = build_timeline(vec![art(name, "{}")], 3);
        match r {
            Err(BuildError::MalformedIdentifier(n)) => assert_eq!(n, name.as_bytes().to_vec()),
            _ => panic!("expected a malformed identifier error for {name}"),
        }
    }
}

#[test]
fn leap_day_accepted_and_counted() {
    // 2024-02-29 exists: two seconds to midnight, eight seconds after.
    let arts = vec![
        art("a_b_20240229235958.json", "x"),
        art("a_c_20240301000008.json", "y"),
    ];
    let t = build_timeline(arts, 3).unwrap();
    assert_eq!(t.wait_secs(1), 10);

    // 2023-02-28 23:59:58 to 2023-03-01 00:00:08: no leap day between.
    let arts = vec![
        art("a_b_20230228235958.json", "x"),
        art("a_c_20230301000008.json", "y"),
    ];
    let t = build_timeline(arts, 3).unwrap();
    assert_eq!(t.wait_secs(1), 10);

    // 2024-02-28 23:59:58 to 2024-03-01 00:00:08: a whole leap day between.
    let arts = vec![
        art("a_b_20240228235958.json", "x"),
        art("a_c_20240301000008.json", "y"),
    ];
    let t = build_timeline(arts, 3).unwrap();
    assert_eq!(t.wait_secs(1), 86410);
}

#[test]
fn non_monotonic_rejected() {
    let arts = vec![
        art("a_a_20240101120005.json", "x"),
        art("a_b_20240101120000.json", "y"),
    ];
    let r = build_timeline(arts, 3);
    match r {
        Err(e) => {
            assert_eq!(e, BuildError::NonMonotonicTimeline(b"a_b_20240101120000.json".to_vec()))
        },
        Ok(_) => panic!("expected a construction error"),
    }
}

#[test]
fn payload_unavailable_rejected() {
    let r = build_timeline(vec![art_missing("a_b_20240101120000.json")], 3);
    match r {
        Err(e) => assert_eq!(e, BuildError::PayloadUnavailable(b"a_b_20240101120000.json".to_vec())),
        Ok(_) => panic!("expected a construction error"),
    }
}

#[test]
fn non_timeline_names_ignored() {
    let arts = vec![
        art("notes.txt", "x"),
        art("a_b_20240101120000.json", "kept"),
        art("bad name!", "y"),
    ];
    let t = build_timeline(arts, 3).unwrap();
    assert_eq!(t.len(), 1);
    assert_eq!(t.content(0).as_str(), "kept");
}

#[test]
fn empty_store_builds_empty_timeline() {
    let t = build_timeline(Vec::new(), 3).unwrap();
    assert_eq!(t.len(), 0);
}

#[test]
fn equal_stamps_wait_zero() {
    let arts = vec![
        art("a_a_20240101120000.json", "x"),
        art("a_b_20240101120000.json", "y"),
    ];
    let t = build_timeline(arts, 3).unwrap();
    assert_eq!(t.wait_secs(0), 3);
    assert_eq!(t.wait_secs(1), 0);
}

#[test]
fn first_wait_is_configurable() {
    let t = build_timeline(vec![art("a_b_20240101120000.json", "x")], 7).unwrap();
    assert_eq!(t.wait_secs(0), 7);
}

#[test]
fn trailing_text_after_stamp_accepted() {
    let t = build_timeline(vec![art("a_b_20240101120000_extra.json", "x")], 3).unwrap();
    assert_eq!(t.len(), 1);
    assert_eq!(t.label(0).as_slice(), b"a_b_20240101120000_extra.json");
}

#[test]
fn separator_inside_stamp_field_rejected() {
    let r = build_timeline(vec![art("a_b_2024_0101120000.json", "x")], 3);
    match r {
        Err(BuildError::MalformedIdentifier(_)) => {},
        _ => panic!("expected a malformed identifier error"),
    }
}

#[test]
fn short_stamp_field_rejected() {
    let r = build_timeline(vec![art("a_b_2024.json", "x")], 3);
    match r {
        Err(BuildError::MalformedIdentifier(_)) => {},
        _ => panic!("expected a malformed identifier error"),
    }
}

#[test]
fn earlier_fault_wins_over_later() {
    // The artifact at fault is the first one in sorted order, not input order.
    let arts = vec![
        art("b_b_notatime.json", "y"),
        art_missing("a_b_20240101120000.json"),
    ];
    let r = build_timeline(arts, 3);
    match r {
        Err(e) => assert_eq!(e, BuildError::PayloadUnavailable(b"a_b_20240101120000.json".to_vec())),
        Ok(_) => panic!("expected a construction error"),
    }
}
