use elma::rec::{Event, EventType, Frame, Replay};
use elma::{ElmaError, Position};

fn test_replay() -> Replay {
    let mut replay = Replay::new();
    replay.multi = false;
    replay.flag_tag = false;
    replay.link = 2549082363;
    replay.level = String::from("tutor14.lev");
    replay.frames = vec![
        Frame {
            bike: Position { x: 34.30250f32.to_bits(), y: (-1.1253119f32).to_bits() },
            left_wheel: Position { x: -850, y: -524 },
            right_wheel: Position { x: 849, y: -524 },
            head: Position { x: 0, y: 439 },
            rotation: 10000,
            left_wheel_rotation: 250,
            right_wheel_rotation: 0,
            throttle: true,
            right: false,
            volume: 5120,
        },
        Frame {
            bike: Position { x: 34.357f32.to_bits(), y: (-1.09f32).to_bits() },
            left_wheel: Position { x: -845, y: -519 },
            right_wheel: Position { x: 854, y: -528 },
            head: Position { x: 2, y: 441 },
            rotation: 9998,
            left_wheel_rotation: 254,
            right_wheel_rotation: 3,
            throttle: false,
            right: true,
            volume: -200,
        },
    ];
    replay.events = vec![
        Event { time: 1.57728480001688f64.to_bits(), event_type: EventType::VoltRight },
        Event {
            time: 1.6974048000097273f64.to_bits(),
            event_type: EventType::Ground { alternative: false },
        },
        Event {
            time: 3.9464880000114437f64.to_bits(),
            event_type: EventType::Ground { alternative: true },
        },
        Event { time: 4.0f64.to_bits(), event_type: EventType::Turn },
        Event { time: 5.1f64.to_bits(), event_type: EventType::VoltLeft },
        Event { time: 6.398683200001716f64.to_bits(), event_type: EventType::Touch { index: 3 } },
    ];
    replay
}

#[test]
fn rec_default_values() {
    let replay = Replay::new();
    assert_eq!(replay.multi, false);
    assert_eq!(replay.flag_tag, false);
    assert_eq!(replay.level, "");
    assert_eq!(replay.frames, vec![]);
    assert_eq!(replay.events, vec![]);
}

#[test]
fn replay_round_trip_is_structural() {
    let replay = test_replay();
    let bytes = replay.to_bytes().unwrap();
    let back = Replay::from_bytes(&bytes).unwrap();
    assert_eq!(back.multi, replay.multi);
    assert_eq!(back.flag_tag, replay.flag_tag);
    assert_eq!(back.link, replay.link);
    assert_eq!(back.level, replay.level);
    assert_eq!(back.frames, replay.frames);
    assert_eq!(back.events, replay.events);
    assert_eq!(back.frames_2, vec![]);
    assert_eq!(back.events_2, vec![]);
    assert_eq!(back.raw, bytes);
}

#[test]
fn replay_bytes_round_trip_modulo_data_bits() {
    // Saving what was parsed gives the same bytes back, except for the
    // random upper six bits of each frame's data byte.
    let replay = test_replay();
    let bytes = replay.to_bytes().unwrap();
    let back = Replay::from_bytes(&bytes).unwrap();
    let again = back.to_bytes().unwrap();
    assert_eq!(again.len(), bytes.len());
    let f = replay.frames.len();
    let data_lo = 36 + 24 * f;
    let data_hi = data_lo + f;
    for i in 0..bytes.len() {
        if i >= data_lo && i < data_hi {
            assert_eq!(again[i] & 3, bytes[i] & 3);
        } else {
            assert_eq!(again[i], bytes[i]);
        }
    }
}

#[test]
fn multi_replay_round_trip() {
    let mut replay = test_replay();
    replay.multi = true;
    replay.frames_2 = vec![Frame::new()];
    replay.events_2 = vec![Event {
        time: 2.5f64.to_bits(),
        event_type: EventType::Touch { index: 1 },
    }];
    let bytes = replay.to_bytes().unwrap();
    let back = Replay::from_bytes(&bytes).unwrap();
    assert_eq!(back.multi, true);
    assert_eq!(back.frames, replay.frames);
    assert_eq!(back.events, replay.events);
    assert_eq!(back.frames_2, replay.frames_2);
    assert_eq!(back.events_2, replay.events_2);
}

#[test]
fn invalid_event_codes_are_rejected() {
    let replay = test_replay();
    let bytes = replay.to_bytes().unwrap();
    let f = replay.frames.len();
    // The first event record starts after the header, the frame area and
    // the event count; its code byte is at offset 10 of the record.
    let first_code = 36 + 27 * f + 4 + 10;
    for &code in &[2u8, 3, 8, 9, 100, 255] {
        let mut bad = bytes.clone();
        bad[first_code] = code;
        assert_eq!(Replay::from_bytes(&bad), Err(ElmaError::InvalidEvent(code)));
    }
}

#[test]
fn end_of_replay_marker_is_enforced() {
    let replay = test_replay();
    let bytes = replay.to_bytes().unwrap();
    let eor = bytes.len() - 4;
    for k in 0..4 {
        let mut bad = bytes.clone();
        bad[eor + k] ^= 0x10;
        assert_eq!(Replay::from_bytes(&bad), Err(ElmaError::EORMismatch));
    }
}

#[test]
fn last_touch_time_is_reported() {
    let replay = test_replay();
    let (t1, t2) = replay.last_touch_time_bits();
    assert_eq!(f64::from_bits(t1), 6.398683200001716);
    assert_eq!(t2, 0);
    let mut no_touch = test_replay();
    no_touch.events.pop();
    let (t1, _) = no_touch.last_touch_time_bits();
    assert_eq!(t1, 0);
}

#[test]
fn frame_and_event_defaults() {
    let frame = Frame::new();
    assert_eq!(frame.bike, Position { x: 0, y: 0 });
    assert_eq!(frame.rotation, 0);
    assert_eq!(frame.throttle, false);
    let event = Event::new();
    assert_eq!(event.time, 0);
    assert_eq!(event.event_type, EventType::Touch { index: 0 });
}
