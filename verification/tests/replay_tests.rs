//! Tests of the per-connection replay state machine.

use event_replay::replay::{
    replay_action, replay_advance, replay_start, ReplayAction, ReplayEvent, ReplayState,
};
use event_replay::timeline::{build_timeline, Artifact, Timeline};

fn three_entry_timeline() -> Timeline {
    let arts = vec![
        Artifact {
            name: b"a_a_20240101120000.json".to_vec(),
            content: Some("one".to_string()),
        },
        Artifact {
            name: b"a_b_20240101120004.json".to_vec(),
            content: Some("two".to_string()),
        },
        Artifact {
            name: b"a_c_20240101120010.json".to_vec(),
            content: Some("three".to_string()),
        },
    ];
    build_timeline(arts, 3).unwrap()
}

#[test]
fn empty_timeline_starts_idle() {
    let t = build_timeline(Vec::new(), 3).unwrap();
    let s = replay_start(&t);
    assert_eq!(s, ReplayState::Idle);
    assert_eq!(replay_action(&s, &t), ReplayAction::HoldOpen);
}

#[test]
fn full_replay_delivers_all_in_order() {
    let t = three_entry_timeline();
    let mut s = replay_start(&t);
    let mut sent: Vec<(usize, u64, String)> = Vec::new();
    while let ReplayAction::Send { index, wait_secs } = replay_action(&s, &t) {
        sent.push((index, wait_secs, t.content(index).clone()));
        s = replay_advance(s, &t, ReplayEvent::SendSucceeded);
    }
    assert_eq!(
        sent,
        vec![
            (0, 3, "one".to_string()),
            (1, 4, "two".to_string()),
            (2, 6, "three".to_string()),
        ]
    );
    assert_eq!(s, ReplayState::Idle);
    assert_eq!(replay_action(&s, &t), ReplayAction::HoldOpen);
}

#[test]
fn idle_connection_accepts_no_more_sends() {
    let t = three_entry_timeline();
    let mut s = replay_start(&t);
    for _ in 0..3 {
        s = replay_advance(s, &t, ReplayEvent::SendSucceeded);
    }
    assert_eq!(s, ReplayState::Idle);
    // Nothing further is scheduled while the peer stays connected.
    s = replay_advance(s, &t, ReplayEvent::SendSucceeded);
    assert_eq!(s, ReplayState::Idle);
    assert_eq!(replay_action(&s, &t), ReplayAction::HoldOpen);
    // The idle connection ends only when the peer goes away.
    s = replay_advance(s, &t, ReplayEvent::Disconnected);
    assert_eq!(s, ReplayState::Closed);
    assert_eq!(replay_action(&s, &t), ReplayAction::Stop);
}

#[test]
fn disconnect_stops_one_stream_only() {
    let t = three_entry_timeline();

    // First connection: receives entry 0, then its send fails.
    let mut lost = replay_start(&t);
    assert_eq!(replay_action(&lost, &t), ReplayAction::Send { index: 0, wait_secs: 3 });
    lost = replay_advance(lost, &t, ReplayEvent::SendSucceeded);
    lost = replay_advance(lost, &t, ReplayEvent::SendFailed);
    assert_eq!(lost, ReplayState::Closed);
    assert_eq!(replay_action(&lost, &t), ReplayAction::Stop);
    // It never receives a later entry, whatever else is observed.
    lost = replay_advance(lost, &t, ReplayEvent::SendSucceeded);
    assert_eq!(lost, ReplayState::Closed);
    assert_eq!(replay_action(&lost, &t), ReplayAction::Stop);

    // Second connection, replaying the same timeline from its own start,
    // still receives the full sequence.
    let mut alive = replay_start(&t);
    let mut sent: Vec<usize> = Vec::new();
    while let ReplayAction::Send { index, wait_secs: _ } = replay_action(&alive, &t) {
        sent.push(index);
        alive = replay_advance(alive, &t, ReplayEvent::SendSucceeded);
    }
    assert_eq!(sent, vec![0, 1, 2]);
    assert_eq!(alive, ReplayState::Idle);
}

#[test]
fn disconnect_while_streaming_is_terminal() {
    let t = three_entry_timeline();
    let mut s = replay_start(&t);
    s = replay_advance(s, &t, ReplayEvent::Disconnected);
    assert_eq!(s, ReplayState::Closed);
    assert_eq!(replay_action(&s, &t), ReplayAction::Stop);
}

#[test]
fn streaming_states_send_each_entry_with_its_wait() {
    let t = three_entry_timeline();
    assert_eq!(
        replay_action(&ReplayState::Streaming { next: 1 }, &t),
        ReplayAction::Send { index: 1, wait_secs: 4 }
    );
    assert_eq!(
        replay_action(&ReplayState::Streaming { next: 2 }, &t),
        ReplayAction::Send { index: 2, wait_secs: 6 }
    );
}
