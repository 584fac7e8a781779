//! Reading and writing Elasto Mania replay files.

use vstd::prelude::*;

use crate::bits::le16;
use crate::bits::le16_bytes;
use crate::bits::le32;
use crate::bits::le32_bytes;
use crate::bits::le64;
use crate::bits::le64_bytes;
use crate::bits::push_u16;
use crate::bits::push_u32;
use crate::bits::push_u64;
use crate::pad_spec;
use crate::eof_error;
use crate::trim_spec;
use crate::ElmaError;
use crate::Position;

verus! {

/// Relies on `rand::random`: draws a value; nothing is promised of it.
pub assume_specification<T>[ rand::random::<T> ]() -> (r: T)
    where
        rand::distr::StandardUniform: rand::distr::Distribution<T>,
;

/// End-of-replay marker.
pub const EOR: u32 = 0x00492F75;

/// One frame of replay. The bike coordinates are 32-bit floats on disk and
/// are carried here as their bit patterns.
#[derive(Debug, Default, PartialEq, Clone, Copy)]
pub struct Frame {
    /// Bike position, as the bit patterns of two 32-bit floats.
    pub bike: Position<u32>,
    /// Left wheel position relative to the bike.
    pub left_wheel: Position<i16>,
    /// Right wheel position relative to the bike.
    pub right_wheel: Position<i16>,
    /// Head position relative to the bike.
    pub head: Position<i16>,
    /// Bike rotation. Range 0..10000.
    pub rotation: i16,
    /// Left wheel rotation. Range 0..255.
    pub left_wheel_rotation: u8,
    /// Right wheel rotation. Range 0..255.
    pub right_wheel_rotation: u8,
    /// Throttle.
    pub throttle: bool,
    /// Right direction. True = right, false = left.
    pub right: bool,
    /// Spring sound effect volume.
    pub volume: i16,
}

impl Frame {
    /// Returns a new Frame struct with default values.
    pub fn new() -> (r: Frame)
        ensures
            r == (Frame {
                bike: Position { x: 0u32, y: 0u32 },
                left_wheel: Position { x: 0i16, y: 0i16 },
                right_wheel: Position { x: 0i16, y: 0i16 },
                head: Position { x: 0i16, y: 0i16 },
                rotation: 0i16,
                left_wheel_rotation: 0u8,
                right_wheel_rotation: 0u8,
                throttle: false,
                right: false,
                volume: 0i16,
            }),
    {
        Frame {
            bike: Position { x: 0, y: 0 },
            left_wheel: Position { x: 0, y: 0 },
            right_wheel: Position { x: 0, y: 0 },
            head: Position { x: 0, y: 0 },
            rotation: 0,
            left_wheel_rotation: 0,
            right_wheel_rotation: 0,
            throttle: false,
            right: false,
            volume: 0,
        }
    }
}

/// Type of replay event.
#[derive(Debug, PartialEq, Clone, Copy)]
pub enum EventType {
    /// Apple or flower touch.
    Touch {
        /// Index of the touched object.
        index: i16,
    },
    /// Bike turn.
    Turn,
    /// Bike volt right.
    VoltRight,
    /// Bike volt left.
    VoltLeft,
    /// Ground touch, for sound effects. Two types.
    Ground {
        /// If alternative is true, uses the second type.
        alternative: bool,
    },
}

impl Default for EventType {
    /// A touch of object 0.
    fn default() -> (r: EventType)
        ensures
            r == (EventType::Touch { index: 0i16 }),
    {
        EventType::Touch { index: 0 }
    }
}

/// A replay event. The time is a 64-bit float on disk and is carried here
/// as its bit pattern.
#[derive(Debug, Default, PartialEq, Clone, Copy)]
pub struct Event {
    /// Time of the event, as the bit pattern of a 64-bit float in the
    /// event time base.
    pub time: u64,
    /// Event type.
    pub event_type: EventType,
}

impl Event {
    /// Returns a new Event struct with default values.
    pub fn new() -> (r: Event)
        ensures
            r == (Event { time: 0u64, event_type: EventType::Touch { index: 0i16 } }),
    {
        Event { time: 0, event_type: EventType::Touch { index: 0 } }
    }
}

/// The fields of a replay, with sequences in place of vectors.
pub struct RecData {
    /// Whether the replay is multi-player.
    pub multi: bool,
    /// Whether the replay is flag-tag.
    pub flag_tag: bool,
    /// Random number linking the replay to its level.
    pub link: u32,
    /// Level file name.
    pub level: Seq<char>,
    /// Player one frames.
    pub frames: Seq<Frame>,
    /// Player one events.
    pub events: Seq<Event>,
    /// Player two frames.
    pub frames_2: Seq<Frame>,
    /// Player two events.
    pub events_2: Seq<Event>,
}

/// A replay file: header fields, frames and events for one or two players.
#[derive(Debug, PartialEq)]
pub struct Replay {
    /// Raw binary data the replay was read from.
    pub raw: Vec<u8>,
    /// Whether replay is multi-player or not.
    pub multi: bool,
    /// Whether replay is flag-tag or not.
    pub flag_tag: bool,
    /// Random number to link with level file.
    pub link: u32,
    /// Full level filename.
    pub level: String,
    /// Player one frames.
    pub frames: Vec<Frame>,
    /// Player one events.
    pub events: Vec<Event>,
    /// Player two frames.
    pub frames_2: Vec<Frame>,
    /// Player two events.
    pub events_2: Vec<Event>,
}

impl View for Replay {
    type V = RecData;

    open spec fn view(&self) -> RecData {
        RecData {
            multi: self.multi,
            flag_tag: self.flag_tag,
            link: self.link,
            level: self.level@,
            frames: self.frames@,
            events: self.events@,
            frames_2: self.frames_2@,
            events_2: self.events_2@,
        }
    }
}

/// The signed 16-bit value whose bit pattern is `x`.
pub open spec fn i16_of_u16(x: u16) -> i16 {
    if x < 0x8000 {
        x as i16
    } else {
        (x - 0x1_0000) as i16
    }
}

/// The bit pattern of `v` as an unsigned 16-bit value.
pub open spec fn u16_of_i16(v: i16) -> u16 {
    if v >= 0 {
        v as u16
    } else {
        (v + 0x1_0000) as u16
    }
}

/// The 32-bit sign extension of `v`, as the game writes touch indices.
pub open spec fn u32_of_i16_sx(v: i16) -> u32 {
    if v >= 0 {
        v as u32
    } else {
        (v + 0x1_0000_0000) as u32
    }
}

pub(crate) fn to_i16(x: u16) -> (r: i16)
    ensures
        r == i16_of_u16(x),
{
    if x < 0x8000 {
        x as i16
    } else {
        let d = 0xFFFF - x;
        -(d as i16) - 1
    }
}

pub(crate) fn from_i16(v: i16) -> (r: u16)
    ensures
        r == u16_of_i16(v),
{
    if v >= 0 {
        v as u16
    } else {
        let d = -(v + 1);
        0xFFFF - (d as u16)
    }
}

/// The frame at column-major index `j` of the frame area at `fa`, which
/// holds `f` frames.
pub open spec fn frame_at(b: Seq<u8>, fa: int, f: int, j: int) -> Frame {
    Frame {
        bike: Position { x: le32(b, fa + 4 * j), y: le32(b, fa + 4 * f + 4 * j) },
        left_wheel: Position {
            x: i16_of_u16(le16(b, fa + 8 * f + 2 * j)),
            y: i16_of_u16(le16(b, fa + 10 * f + 2 * j)),
        },
        right_wheel: Position {
            x: i16_of_u16(le16(b, fa + 12 * f + 2 * j)),
            y: i16_of_u16(le16(b, fa + 14 * f + 2 * j)),
        },
        head: Position {
            x: i16_of_u16(le16(b, fa + 16 * f + 2 * j)),
            y: i16_of_u16(le16(b, fa + 18 * f + 2 * j)),
        },
        rotation: i16_of_u16(le16(b, fa + 20 * f + 2 * j)),
        left_wheel_rotation: b[fa + 22 * f + j],
        right_wheel_rotation: b[fa + 23 * f + j],
        throttle: b[fa + 24 * f + j] & 1 != 0,
        right: b[fa + 24 * f + j] & 2 != 0,
        volume: i16_of_u16(le16(b, fa + 25 * f + 2 * j)),
    }
}

/// All `f` frames of the frame area at `fa`.
pub open spec fn frames_at(b: Seq<u8>, fa: int, f: int) -> Seq<Frame> {
    Seq::new(f as nat, |j: int| frame_at(b, fa, f, j))
}

/// The event type a code byte decodes to, or `None` for an invalid code.
pub open spec fn event_code_type(code: u8, info: i16) -> Option<EventType> {
    if code == 0 {
        Some(EventType::Touch { index: info })
    } else if code == 1 {
        Some(EventType::Ground { alternative: false })
    } else if code == 4 {
        Some(EventType::Ground { alternative: true })
    } else if code == 5 {
        Some(EventType::Turn)
    } else if code == 6 {
        Some(EventType::VoltRight)
    } else if code == 7 {
        Some(EventType::VoltLeft)
    } else {
        None
    }
}

/// The first `n` events of the event area at `ea`, or the first invalid
/// event code.
pub open spec fn events_at(b: Seq<u8>, ea: int, n: int) -> Result<Seq<Event>, ElmaError>
    decreases n,
{
    if n <= 0 {
        Ok(Seq::empty())
    } else {
        match events_at(b, ea, n - 1) {
            Err(e) => Err(e),
            Ok(s) => {
                let time = le64(b, ea + 16 * (n - 1));
                let info = i16_of_u16(le16(b, ea + 16 * (n - 1) + 8));
                let code = b[ea + 16 * (n - 1) + 10];
                match event_code_type(code, info) {
                    Some(et) => Ok(s.push(Event { time, event_type: et })),
                    None => Err(ElmaError::InvalidEvent(code)),
                }
            },
        }
    }
}

/// The frames, events and end offset of a player body whose frame area
/// starts at `fa` with `f` frames; `None` stands for a truncated buffer.
pub open spec fn parse_body_spec(b: Seq<u8>, fa: int, f: int) -> Result<
    (Seq<Frame>, Seq<Event>, int),
    Option<ElmaError>,
> {
    if fa + 27 * f + 4 > b.len() {
        Err(None)
    } else {
        let ec = le32(b, fa + 27 * f);
        if ec >= 0x8000_0000 {
            Err(None)
        } else {
            let e = ec as int;
            let ea = fa + 27 * f + 4;
            if ea + 16 * e + 4 > b.len() {
                Err(None)
            } else {
                match events_at(b, ea, e) {
                    Err(er) => Err(Some(er)),
                    Ok(evs) => {
                        if le32(b, ea + 16 * e) != EOR {
                            Err(Some(ElmaError::EORMismatch))
                        } else {
                            Ok((frames_at(b, fa, f), evs, ea + 16 * e + 4))
                        }
                    },
                }
            }
        }
    }
}

/// What parsing a replay buffer yields: the replay's fields, or an error;
/// `Err(None)` stands for a truncated buffer, reported as an I/O error.
pub open spec fn parse_rec_spec(b: Seq<u8>) -> Result<RecData, Option<ElmaError>> {
    if b.len() < 36 {
        Err(None)
    } else {
        let fc = le32(b, 0);
        if fc >= 0x8000_0000 {
            Err(None)
        } else {
            let multi = 1 <= le32(b, 8) < 0x8000_0000;
            let flag_tag = 1 <= le32(b, 12) < 0x8000_0000;
            let link = le32(b, 16);
            match trim_spec(b.subrange(20, 32)) {
                Err(e) => Err(Some(e)),
                Ok(level) => match parse_body_spec(b, 36, fc as int) {
                    Err(e) => Err(e),
                    Ok(t1) => {
                        if multi {
                            if t1.2 + 36 > b.len() {
                                Err(None)
                            } else {
                                let fc2 = le32(b, t1.2);
                                if fc2 >= 0x8000_0000 {
                                    Err(None)
                                } else {
                                    match parse_body_spec(b, t1.2 + 36, fc2 as int) {
                                        Err(e) => Err(e),
                                        Ok(t2) => Ok(
                                            RecData {
                                                multi,
                                                flag_tag,
                                                link,
                                                level,
                                                frames: t1.0,
                                                events: t1.1,
                                                frames_2: t2.0,
                                                events_2: t2.1,
                                            },
                                        ),
                                    }
                                }
                            }
                        } else {
                            Ok(
                                RecData {
                                    multi,
                                    flag_tag,
                                    link,
                                    level,
                                    frames: t1.0,
                                    events: t1.1,
                                    frames_2: Seq::empty(),
                                    events_2: Seq::empty(),
                                },
                            )
                        }
                    },
                },
            }
        }
    }
}

/// Replay fields that fit the wire format: counts fit a 32-bit signed
/// integer, the level name fits its 12-byte field without an embedded
/// null, touched object indices are non-negative, and a single-player
/// replay carries no second-player data.
pub open spec fn rec_wf(v: RecData) -> bool {
    &&& v.frames.len() < 0x8000_0000
    &&& v.events.len() < 0x8000_0000
    &&& v.frames_2.len() < 0x8000_0000
    &&& v.events_2.len() < 0x8000_0000
    &&& vstd::utf8::is_ascii_chars(v.level)
    &&& v.level.len() <= 12
    &&& (forall|i: int| 0 <= i < v.level.len() ==> v.level[i] != '\0')
    &&& touch_indices_ok(v.events)
    &&& touch_indices_ok(v.events_2)
    &&& (!v.multi ==> v.frames_2.len() == 0 && v.events_2.len() == 0)
}

/// Every touch event's index is non-negative; the format sign-extends a
/// touch index to 32 bits on disk, so a negative one would not read back.
pub open spec fn touch_indices_ok(evs: Seq<Event>) -> bool {
    forall|j: int|
        0 <= j < evs.len() ==> match (#[trigger] evs[j]).event_type {
            EventType::Touch { index } => index >= 0,
            _ => true,
        }
}

#[verifier::rlimit(100)]
proof fn lemma_events_round_trip(b: Seq<u8>, ea: int, evs: Seq<Event>, n: int)
    requires
        0 <= ea,
        ea + 16 * evs.len() <= b.len(),
        0 <= n <= evs.len(),
        evs.len() < 0x8000_0000,
        touch_indices_ok(evs),
        b.subrange(ea, ea + 16 * evs.len()) == events_bytes(evs),
    ensures
        events_at(b, ea, n) == Ok::<Seq<Event>, ElmaError>(evs.take(n)),
    decreases n,
{
    if n == 0 {
        assert(evs.take(0) =~= Seq::<Event>::empty());
    } else {
        lemma_events_round_trip(b, ea, evs, n - 1);
        let j = n - 1;
        let ev = evs[j];
        let pos = ea + 16 * j;
        lemma_events_step(evs, j);
        assert forall|k: int| 0 <= k < 16 implies b[pos + k] == event_bytes(ev)[k] by {
            assert(b[pos + k] == b.subrange(ea, ea + 16 * evs.len())[16 * j + k]);
            assert(events_bytes(evs)[16 * j + k] == events_bytes(evs).subrange(
                16 * j,
                16 * j + 16,
            )[k]);
        }
        let w1: u32 = match ev.event_type {
            EventType::Touch { index } => u32_of_i16_sx(index),
            EventType::Ground { alternative } => if !alternative {
                131071
            } else {
                327679
            },
            EventType::Turn => 393215,
            EventType::VoltRight => 458751,
            EventType::VoltLeft => 524287,
        };
        let w2: u32 = match ev.event_type {
            EventType::Touch { index } => 0,
            EventType::Ground { alternative } => if !alternative {
                1050605825
            } else {
                1065185444
            },
            EventType::Turn => 1065185444,
            EventType::VoltRight => 1065185444,
            EventType::VoltLeft => 1065185444,
        };
        assert(event_bytes(ev) =~= le64_bytes(ev.time) + le32_bytes(w1) + le32_bytes(w2));
        assert forall|k: int|
            0 <= k < 8 implies (#[trigger] b.subrange(pos, pos + 8)[k]) == le64_bytes(ev.time)[k] by {
            assert(event_bytes(ev)[k] == le64_bytes(ev.time)[k]);
        }
        assert(b.subrange(pos, pos + 8) =~= le64_bytes(ev.time));
        crate::bits::lemma_le64_round_trip(ev.time, b, pos);
        assert(event_bytes(ev)[8] == (w1 % 0x100) as u8 && event_bytes(ev)[9] == ((w1 / 0x100)
            % 0x100) as u8 && event_bytes(ev)[10] == ((w1 / 0x1_0000) % 0x100) as u8);
        assert(b[pos + 8] == (w1 % 0x100) as u8);
        assert(b[pos + 9] == ((w1 / 0x100) % 0x100) as u8);
        assert(b[pos + 10] == ((w1 / 0x1_0000) % 0x100) as u8);
        let b0 = b[pos + 8];
        let b1 = b[pos + 9];
        let info_u = le16(b, pos + 8);
        assert(w1 % 0x1_0000 == 0x100 * ((w1 / 0x100) % 0x100) + w1 % 0x100) by {
            vstd::arithmetic::div_mod::lemma_breakdown(w1 as int, 0x100, 0x100);
        }
        assert(info_u == (w1 % 0x1_0000) as u16);
        let code = b[pos + 10];
        match ev.event_type {
            EventType::Touch { index } => {
                assert(index >= 0);
                assert(w1 == index);
                assert(code == 0);
                assert(info_u == index as u16);
                assert(i16_of_u16(info_u) == index);
            },
            EventType::Ground { alternative } => {
                if !alternative {
                    assert(code == 1);
                } else {
                    assert(code == 4);
                }
            },
            EventType::Turn => {
                assert(code == 5);
            },
            EventType::VoltRight => {
                assert(code == 6);
            },
            EventType::VoltLeft => {
                assert(code == 7);
            },
        }
        assert(event_code_type(code, i16_of_u16(info_u)) == Some(ev.event_type));
        assert(le64(b, pos) == ev.time);
        assert(evs.take(n) =~= evs.take(n - 1).push(ev));
    }
}

proof fn lemma_window_eq(b: Seq<u8>, fa: int, area: Seq<u8>, col: Seq<u8>, cs: int, lo: int, w: int)
    requires
        0 <= fa,
        0 <= cs,
        0 <= lo,
        0 < w,
        cs + col.len() <= area.len(),
        lo + w <= col.len(),
        fa + area.len() <= b.len(),
        b.subrange(fa, fa + area.len() as int) == area,
        forall|o: int| cs <= o < cs + col.len() ==> (#[trigger] area[o]) == col[o - cs],
    ensures
        b.subrange(fa + cs + lo, fa + cs + lo + w) =~= col.subrange(lo, lo + w),
{
    assert forall|k: int|
        0 <= k < w implies (#[trigger] b.subrange(fa + cs + lo, fa + cs + lo + w)[k])
        == col.subrange(lo, lo + w)[k] by {
        assert(b.subrange(fa, fa + area.len() as int)[cs + lo + k] == b[fa + (cs + lo + k)]);
        assert(area[cs + lo + k] == col[cs + lo + k - cs]);
    }
}

#[verifier::rlimit(100)]
proof fn lemma_frames_round_trip(b: Seq<u8>, fa: int, fs: Seq<Frame>, area: Seq<u8>)
    requires
        0 <= fa,
        frames_area_ok(area, fs),
        fa + 27 * fs.len() <= b.len(),
        b.subrange(fa, fa + 27 * fs.len()) == area,
    ensures
        frames_at(b, fa, fs.len() as int) == fs,
    decreases fs.len(),
{
    let f = fs.len() as int;
    let det = frames_bytes_det(fs);
    let xs_bx = fs.map_values(|fr: Frame| fr.bike.x);
    let xs_by = fs.map_values(|fr: Frame| fr.bike.y);
    let xs_lx = fs.map_values(|fr: Frame| u16_of_i16(fr.left_wheel.x));
    let xs_ly = fs.map_values(|fr: Frame| u16_of_i16(fr.left_wheel.y));
    let xs_rx = fs.map_values(|fr: Frame| u16_of_i16(fr.right_wheel.x));
    let xs_ry = fs.map_values(|fr: Frame| u16_of_i16(fr.right_wheel.y));
    let xs_hx = fs.map_values(|fr: Frame| u16_of_i16(fr.head.x));
    let xs_hy = fs.map_values(|fr: Frame| u16_of_i16(fr.head.y));
    let xs_rot = fs.map_values(|fr: Frame| u16_of_i16(fr.rotation));
    let xs_lr = fs.map_values(|fr: Frame| fr.left_wheel_rotation);
    let xs_rr = fs.map_values(|fr: Frame| fr.right_wheel_rotation);
    let xs_fl = fs.map_values(|fr: Frame| frame_flags(fr));
    let xs_vol = fs.map_values(|fr: Frame| u16_of_i16(fr.volume));
    assert(area.len() == 27 * f);
    assert forall|o: int| 0 <= o < 27 * f implies b[fa + o] == area[o] by {
        assert(b.subrange(fa, fa + 27 * fs.len())[o] == b[fa + o]);
    }
    let front = col32(xs_bx) + col32(xs_by) + col16(xs_lx) + col16(xs_ly) + col16(xs_rx) + col16(
        xs_ry,
    ) + col16(xs_hx) + col16(xs_hy) + col16(xs_rot) + xs_lr + xs_rr;
    assert(det =~= front + xs_fl + col16(xs_vol));
    assert forall|o: int| 0 <= o < 4 * f implies #[trigger] det[o] == col32(xs_bx)[o] by {}
    assert forall|o: int| 0 <= o < 4 * f implies #[trigger] det[4 * f + o] == col32(xs_by)[o] by {}
    assert forall|o: int| 0 <= o < 2 * f implies #[trigger] det[8 * f + o] == col16(xs_lx)[o] by {}
    assert forall|o: int| 0 <= o < 2 * f implies #[trigger] det[10 * f + o] == col16(xs_ly)[o] by {}
    assert forall|o: int| 0 <= o < 2 * f implies #[trigger] det[12 * f + o] == col16(xs_rx)[o] by {}
    assert forall|o: int| 0 <= o < 2 * f implies #[trigger] det[14 * f + o] == col16(xs_ry)[o] by {}
    assert forall|o: int| 0 <= o < 2 * f implies #[trigger] det[16 * f + o] == col16(xs_hx)[o] by {}
    assert forall|o: int| 0 <= o < 2 * f implies #[trigger] det[18 * f + o] == col16(xs_hy)[o] by {}
    assert forall|o: int| 0 <= o < 2 * f implies #[trigger] det[20 * f + o] == col16(xs_rot)[o] by {}
    assert forall|o: int| 0 <= o < f implies #[trigger] det[22 * f + o] == xs_lr[o] by {}
    assert forall|o: int| 0 <= o < f implies #[trigger] det[23 * f + o] == xs_rr[o] by {}
    assert forall|o: int| 0 <= o < f implies #[trigger] det[24 * f + o] == xs_fl[o] by {}
    assert forall|o: int| 0 <= o < 2 * f implies #[trigger] det[25 * f + o] == col16(xs_vol)[o] by {}
    assert forall|o: int| 0 <= o < 4 * f implies #[trigger] area[o] == col32(xs_bx)[o - 0] by {
        assert(det[o] == col32(xs_bx)[o]);
    }
    assert forall|o: int| 4 * f <= o < 8 * f implies #[trigger] area[o] == col32(xs_by)[o - 4 * f] by {
        assert(det[4 * f + (o - 4 * f)] == col32(xs_by)[o - 4 * f]);
    }
    assert forall|o: int| 8 * f <= o < 10 * f implies #[trigger] area[o] == col16(xs_lx)[o - 8
        * f] by {
        assert(det[8 * f + (o - 8 * f)] == col16(xs_lx)[o - 8 * f]);
    }
    assert forall|o: int| 10 * f <= o < 12 * f implies #[trigger] area[o] == col16(xs_ly)[o - 10
        * f] by {
        assert(det[10 * f + (o - 10 * f)] == col16(xs_ly)[o - 10 * f]);
    }
    assert forall|o: int| 12 * f <= o < 14 * f implies #[trigger] area[o] == col16(xs_rx)[o - 12
        * f] by {
        assert(det[12 * f + (o - 12 * f)] == col16(xs_rx)[o - 12 * f]);
    }
    assert forall|o: int| 14 * f <= o < 16 * f implies #[trigger] area[o] == col16(xs_ry)[o - 14
        * f] by {
        assert(det[14 * f + (o - 14 * f)] == col16(xs_ry)[o - 14 * f]);
    }
    assert forall|o: int| 16 * f <= o < 18 * f implies #[trigger] area[o] == col16(xs_hx)[o - 16
        * f] by {
        assert(det[16 * f + (o - 16 * f)] == col16(xs_hx)[o - 16 * f]);
    }
    assert forall|o: int| 18 * f <= o < 20 * f implies #[trigger] area[o] == col16(xs_hy)[o - 18
        * f] by {
        assert(det[18 * f + (o - 18 * f)] == col16(xs_hy)[o - 18 * f]);
    }
    assert forall|o: int| 20 * f <= o < 22 * f implies #[trigger] area[o] == col16(xs_rot)[o - 20
        * f] by {
        assert(det[20 * f + (o - 20 * f)] == col16(xs_rot)[o - 20 * f]);
    }
    assert forall|o: int| 22 * f <= o < 23 * f implies #[trigger] area[o] == xs_lr[o - 22 * f] by {
        assert(det[22 * f + (o - 22 * f)] == xs_lr[o - 22 * f]);
    }
    assert forall|o: int| 23 * f <= o < 24 * f implies #[trigger] area[o] == xs_rr[o - 23 * f] by {
        assert(det[23 * f + (o - 23 * f)] == xs_rr[o - 23 * f]);
    }
    assert forall|o: int| 24 * f <= o < 25 * f implies (#[trigger] area[o]) & 3 == xs_fl[o - 24
        * f] by {
        assert(det[24 * f + (o - 24 * f)] == xs_fl[o - 24 * f]);
    }
    assert forall|o: int| 25 * f <= o < 27 * f implies #[trigger] area[o] == col16(xs_vol)[o - 25
        * f] by {
        assert(det[25 * f + (o - 25 * f)] == col16(xs_vol)[o - 25 * f]);
    }
    assert forall|j: int| 0 <= j < f implies frame_at(b, fa, f, j) == fs[j] by {
        let fr = fs[j];
        lemma_col32_step(xs_bx, j);
        lemma_col32_step(xs_by, j);
        lemma_col16_step(xs_lx, j);
        lemma_col16_step(xs_ly, j);
        lemma_col16_step(xs_rx, j);
        lemma_col16_step(xs_ry, j);
        lemma_col16_step(xs_hx, j);
        lemma_col16_step(xs_hy, j);
        lemma_col16_step(xs_rot, j);
        lemma_col16_step(xs_vol, j);
        lemma_window_eq(b, fa, area, col32(xs_bx), 0, 4 * j, 4);
        crate::bits::lemma_le32_round_trip(xs_bx[j], b, fa + 4 * j);
        lemma_window_eq(b, fa, area, col32(xs_by), 4 * f, 4 * j, 4);
        crate::bits::lemma_le32_round_trip(xs_by[j], b, fa + 4 * f + 4 * j);
        lemma_window_eq(b, fa, area, col16(xs_lx), 8 * f, 2 * j, 2);
        crate::bits::lemma_le16_round_trip(xs_lx[j], b, fa + 8 * f + 2 * j);
        lemma_window_eq(b, fa, area, col16(xs_ly), 10 * f, 2 * j, 2);
        crate::bits::lemma_le16_round_trip(xs_ly[j], b, fa + 10 * f + 2 * j);
        lemma_window_eq(b, fa, area, col16(xs_rx), 12 * f, 2 * j, 2);
        crate::bits::lemma_le16_round_trip(xs_rx[j], b, fa + 12 * f + 2 * j);
        lemma_window_eq(b, fa, area, col16(xs_ry), 14 * f, 2 * j, 2);
        crate::bits::lemma_le16_round_trip(xs_ry[j], b, fa + 14 * f + 2 * j);
        lemma_window_eq(b, fa, area, col16(xs_hx), 16 * f, 2 * j, 2);
        crate::bits::lemma_le16_round_trip(xs_hx[j], b, fa + 16 * f + 2 * j);
        lemma_window_eq(b, fa, area, col16(xs_hy), 18 * f, 2 * j, 2);
        crate::bits::lemma_le16_round_trip(xs_hy[j], b, fa + 18 * f + 2 * j);
        lemma_window_eq(b, fa, area, col16(xs_rot), 20 * f, 2 * j, 2);
        crate::bits::lemma_le16_round_trip(xs_rot[j], b, fa + 20 * f + 2 * j);
        assert(b[fa + (22 * f + j)] == b.subrange(fa, fa + 27 * fs.len())[22 * f + j]);
        assert(area[22 * f + j] == xs_lr[22 * f + j - 22 * f]);
        assert(b[fa + (23 * f + j)] == b.subrange(fa, fa + 27 * fs.len())[23 * f + j]);
        assert(area[23 * f + j] == xs_rr[23 * f + j - 23 * f]);
        lemma_window_eq(b, fa, area, col16(xs_vol), 25 * f, 2 * j, 2);
        crate::bits::lemma_le16_round_trip(xs_vol[j], b, fa + 25 * f + 2 * j);
        assert(b[fa + (24 * f + j)] == b.subrange(fa, fa + 27 * fs.len())[24 * f + j]);
        assert(area[24 * f + j] & 3 == xs_fl[24 * f + j - 24 * f]);
        let db = b[fa + 24 * f + j];
        let fl = xs_fl[j];
        assert(db & 3 == fl);
        assert((db & 1 != 0) == (fl & 1 != 0) && (db & 2 != 0) == (fl & 2 != 0)) by (bit_vector)
            requires
                db & 3 == fl,
        ;
        let t = fr.throttle;
        let r = fr.right;
        if t {
            if r {
                assert(fl == 3);
                assert(3u8 & 1 != 0 && 3u8 & 2 != 0) by (bit_vector);
            } else {
                assert(fl == 1);
                assert(1u8 & 1 != 0 && 1u8 & 2 == 0) by (bit_vector);
            }
        } else {
            if r {
                assert(fl == 2);
                assert(2u8 & 1 == 0 && 2u8 & 2 != 0) by (bit_vector);
            } else {
                assert(fl == 0);
                assert(0u8 & 1 == 0 && 0u8 & 2 == 0) by (bit_vector);
            }
        }
        assert(i16_of_u16(u16_of_i16(fr.left_wheel.x)) == fr.left_wheel.x);
    }
    assert(frames_at(b, fa, f) =~= fs);
}

proof fn lemma_sub_window(b: Seq<u8>, base: int, bl: Seq<u8>, lo: int, piece: Seq<u8>)
    requires
        0 <= base,
        0 <= lo,
        lo + piece.len() <= bl.len(),
        base + bl.len() <= b.len(),
        b.subrange(base, base + bl.len() as int) == bl,
        forall|k: int| 0 <= k < piece.len() ==> bl[lo + k] == #[trigger] piece[k],
    ensures
        b.subrange(base + lo, base + lo + piece.len() as int) =~= piece,
{
    assert forall|k: int|
        0 <= k < piece.len() implies (#[trigger] b.subrange(
        base + lo,
        base + lo + piece.len() as int,
    )[k]) == piece[k] by {
        assert(b.subrange(base, base + bl.len() as int)[lo + k] == b[base + (lo + k)]);
        assert(bl[lo + k] == piece[k]);
    }
}

proof fn lemma_block_round_trip(
    b: Seq<u8>,
    base: int,
    bl: Seq<u8>,
    fs: Seq<Frame>,
    evs: Seq<Event>,
    multi: bool,
    flag_tag: bool,
    link: u32,
    level: Seq<char>,
)
    requires
        0 <= base,
        rec_block_ok(bl, fs, evs, multi, flag_tag, link, level),
        base + bl.len() <= b.len(),
        b.subrange(base, base + bl.len() as int) == bl,
        fs.len() < 0x8000_0000,
        evs.len() < 0x8000_0000,
        touch_indices_ok(evs),
    ensures
        le32(b, base) == fs.len() as u32,
        le32(b, base + 8) == (if multi {
            1u32
        } else {
            0u32
        }),
        le32(b, base + 12) == (if flag_tag {
            1u32
        } else {
            0u32
        }),
        le32(b, base + 16) == link,
        b.subrange(base + 20, base + 32) =~= pad_spec(level, 12)->Ok_0,
        parse_body_spec(b, base + 36, fs.len() as int) == Ok::<
            (Seq<Frame>, Seq<Event>, int),
            Option<ElmaError>,
        >((fs, evs, base + block_len(fs.len() as int, evs.len() as int))),
{
    let f = fs.len() as int;
    let e = evs.len() as int;
    lemma_block_ok_len(bl, fs, evs, multi, flag_tag, link, level);
    let hdr = block_header_bytes(f, multi, flag_tag, link, level);
    let area = choose|a: Seq<u8>|
        #[trigger] frames_area_ok(a, fs) && bl == hdr + a + le32_bytes(e as u32) + events_bytes(evs)
            + le32_bytes(EOR);
    assert(frames_bytes_det(fs).len() == 27 * f);
    assert((pad_spec(level, 12)->Ok_0).len() == 12);
    assert(hdr.len() == 36);
    assert(area.len() == 27 * f);
    assert forall|k: int| 0 <= k < 4 implies bl[0 + k] == #[trigger] le32_bytes(f as u32)[k] by {}
    lemma_sub_window(b, base, bl, 0, le32_bytes(f as u32));
    crate::bits::lemma_le32_round_trip(f as u32, b, base);
    let mw: u32 = if multi {
        1u32
    } else {
        0u32
    };
    let fw: u32 = if flag_tag {
        1u32
    } else {
        0u32
    };
    assert forall|k: int| 0 <= k < 4 implies bl[8 + k] == #[trigger] le32_bytes(mw)[k] by {}
    lemma_sub_window(b, base, bl, 8, le32_bytes(mw));
    crate::bits::lemma_le32_round_trip(mw, b, base + 8);
    assert forall|k: int| 0 <= k < 4 implies bl[12 + k] == #[trigger] le32_bytes(fw)[k] by {}
    lemma_sub_window(b, base, bl, 12, le32_bytes(fw));
    crate::bits::lemma_le32_round_trip(fw, b, base + 12);
    assert forall|k: int| 0 <= k < 4 implies bl[16 + k] == #[trigger] le32_bytes(link)[k] by {}
    lemma_sub_window(b, base, bl, 16, le32_bytes(link));
    crate::bits::lemma_le32_round_trip(link, b, base + 16);
    assert forall|k: int|
        0 <= k < 12 implies bl[20 + k] == #[trigger] (pad_spec(level, 12)->Ok_0)[k] by {}
    lemma_sub_window(b, base, bl, 20, pad_spec(level, 12)->Ok_0);
    assert forall|k: int| 0 <= k < 27 * f implies bl[36 + k] == #[trigger] area[k] by {}
    lemma_sub_window(b, base, bl, 36, area);
    lemma_frames_round_trip(b, base + 36, fs, area);
    assert forall|k: int|
        0 <= k < 4 implies bl[36 + 27 * f + k] == #[trigger] le32_bytes(e as u32)[k] by {}
    lemma_sub_window(b, base, bl, 36 + 27 * f, le32_bytes(e as u32));
    crate::bits::lemma_le32_round_trip(e as u32, b, base + 36 + 27 * f);
    assert forall|k: int|
        0 <= k < 16 * e implies bl[40 + 27 * f + k] == #[trigger] events_bytes(evs)[k] by {}
    lemma_sub_window(b, base, bl, 40 + 27 * f, events_bytes(evs));
    lemma_events_round_trip(b, base + 40 + 27 * f, evs, e);
    assert(evs.take(e) =~= evs);
    assert forall|k: int|
        0 <= k < 4 implies bl[40 + 27 * f + 16 * e + k] == #[trigger] le32_bytes(EOR)[k] by {}
    lemma_sub_window(b, base, bl, 40 + 27 * f + 16 * e, le32_bytes(EOR));
    crate::bits::lemma_le32_round_trip(EOR, b, base + 40 + 27 * f + 16 * e);
}

proof fn lemma_parse_rec_from_parts(b: Seq<u8>, v: RecData, l1: int)
    requires
        b.len() >= 36,
        le32(b, 0) == v.frames.len(),
        v.frames.len() < 0x8000_0000,
        le32(b, 8) == (if v.multi {
            1u32
        } else {
            0u32
        }),
        le32(b, 12) == (if v.flag_tag {
            1u32
        } else {
            0u32
        }),
        le32(b, 16) == v.link,
        trim_spec(b.subrange(20, 32)) == Ok::<Seq<char>, ElmaError>(v.level),
        parse_body_spec(b, 36, v.frames.len() as int) == Ok::<
            (Seq<Frame>, Seq<Event>, int),
            Option<ElmaError>,
        >((v.frames, v.events, l1)),
        v.multi ==> l1 + 36 <= b.len() && le32(b, l1) == v.frames_2.len() && v.frames_2.len()
            < 0x8000_0000 && parse_body_spec(b, l1 + 36, v.frames_2.len() as int) == Ok::<
            (Seq<Frame>, Seq<Event>, int),
            Option<ElmaError>,
        >((v.frames_2, v.events_2, b.len() as int)),
        !v.multi ==> v.frames_2 == Seq::<Frame>::empty() && v.events_2 == Seq::<Event>::empty(),
    ensures
        parse_rec_spec(b) == Ok::<RecData, Option<ElmaError>>(v),
{
}

#[verifier::rlimit(100)]
#[verifier::spinoff_prover]
proof fn lemma_rec_round_trip_multi(v: RecData, out: Seq<u8>, b1: Seq<u8>, b2: Seq<u8>)
    requires
        rec_wf(v),
        v.multi,
        out == b1 + b2,
        b1.len() == block_len(v.frames.len() as int, v.events.len() as int),
        rec_block_ok(b1, v.frames, v.events, v.multi, v.flag_tag, v.link, v.level),
        rec_block_ok(b2, v.frames_2, v.events_2, v.multi, v.flag_tag, v.link, v.level),
    ensures
        parse_rec_spec(out) == Ok::<RecData, Option<ElmaError>>(v),
{
    let l1 = block_len(v.frames.len() as int, v.events.len() as int);
    lemma_block_ok_len(b2, v.frames_2, v.events_2, v.multi, v.flag_tag, v.link, v.level);
    assert(out.subrange(0, l1 as int) =~= b1);
    assert(out.subrange(l1 as int, out.len() as int) =~= b2);
    lemma_block_round_trip(out, 0, b1, v.frames, v.events, v.multi, v.flag_tag, v.link, v.level);
    lemma_block_round_trip(
        out,
        l1,
        b2,
        v.frames_2,
        v.events_2,
        v.multi,
        v.flag_tag,
        v.link,
        v.level,
    );
    crate::lemma_pad_trim_round_trip(v.level, 12);
    assert(trim_spec(out.subrange(20, 32)) == Ok::<Seq<char>, ElmaError>(v.level));
    assert(le32(out, 0) == v.frames.len() as u32);
    assert(le32(out, 8) == 1);
    assert(le32(out, l1) == v.frames_2.len() as u32);
    assert(parse_body_spec(out, 36, v.frames.len() as int) == Ok::<
        (Seq<Frame>, Seq<Event>, int),
        Option<ElmaError>,
    >((v.frames, v.events, l1)));
    assert(parse_body_spec(out, l1 + 36, v.frames_2.len() as int) == Ok::<
        (Seq<Frame>, Seq<Event>, int),
        Option<ElmaError>,
    >((v.frames_2, v.events_2, out.len() as int)));
    lemma_parse_rec_from_parts(out, v, l1);
}

#[verifier::rlimit(100)]
#[verifier::spinoff_prover]
proof fn lemma_rec_round_trip_single(v: RecData, out: Seq<u8>)
    requires
        rec_wf(v),
        !v.multi,
        rec_block_ok(out, v.frames, v.events, v.multi, v.flag_tag, v.link, v.level),
    ensures
        parse_rec_spec(out) == Ok::<RecData, Option<ElmaError>>(v),
{
    let l1 = block_len(v.frames.len() as int, v.events.len() as int);
    lemma_block_ok_len(out, v.frames, v.events, v.multi, v.flag_tag, v.link, v.level);
    assert(out.subrange(0, out.len() as int) =~= out);
    lemma_block_round_trip(out, 0, out, v.frames, v.events, v.multi, v.flag_tag, v.link, v.level);
    crate::lemma_pad_trim_round_trip(v.level, 12);
    assert(trim_spec(out.subrange(20, 32)) == Ok::<Seq<char>, ElmaError>(v.level));
    assert(le32(out, 0) == v.frames.len() as u32);
    assert(le32(out, 8) == 0);
    assert(parse_body_spec(out, 36, v.frames.len() as int) == Ok::<
        (Seq<Frame>, Seq<Event>, int),
        Option<ElmaError>,
    >((v.frames, v.events, l1)));
    assert(v.frames_2 =~= Seq::<Frame>::empty());
    assert(v.events_2 =~= Seq::<Event>::empty());
    lemma_parse_rec_from_parts(out, v, l1);
}

/// A serialised replay parses back to exactly the fields it was written
/// from: the byte round trip, stated for every output the writer may
/// produce, whatever random bits it drew.
pub proof fn lemma_rec_round_trip(v: RecData, out: Seq<u8>)
    requires
        rec_wf(v),
        rec_bytes_ok(out, v),
    ensures
        parse_rec_spec(out) == Ok::<RecData, Option<ElmaError>>(v),
{
    if v.multi {
        let (b1, b2) = choose|b1: Seq<u8>, b2: Seq<u8>|
            out == #[trigger] (b1 + b2) && b1.len() == block_len(
                v.frames.len() as int,
                v.events.len() as int,
            ) && rec_block_ok(b1, v.frames, v.events, v.multi, v.flag_tag, v.link, v.level)
                && rec_block_ok(b2, v.frames_2, v.events_2, v.multi, v.flag_tag, v.link, v.level);
        lemma_rec_round_trip_multi(v, out, b1, b2);
    } else {
        lemma_rec_round_trip_single(v, out);
    }
}

proof fn lemma_events_errors_are_invalid(b: Seq<u8>, ea: int, n: int)
    ensures
        events_at(b, ea, n) matches Err(e) ==> e is InvalidEvent,
    decreases n,
{
    if n > 0 {
        lemma_events_errors_are_invalid(b, ea, n - 1);
    }
}

/// The event-code gate: when any record in an event area carries a code
/// byte outside the six defined codes, parsing the events fails with
/// `InvalidEvent`.
pub proof fn lemma_event_code_gate(b: Seq<u8>, ea: int, n: int, j: int)
    requires
        0 <= j < n,
        event_code_type(b[ea + 16 * j + 10], i16_of_u16(le16(b, ea + 16 * j + 8))) is None,
    ensures
        events_at(b, ea, n) is Err,
        events_at(b, ea, n) matches Err(e) ==> e is InvalidEvent,
{
    lemma_events_errors_are_invalid(b, ea, n);
    if events_at(b, ea, j + 1) is Err {
    } else {
        assert(events_at(b, ea, j) is Ok);
        assert(events_at(b, ea, j + 1) is Err);
    }
    lemma_events_err_propagates(b, ea, j + 1, n);
}

proof fn lemma_events_at_same(b: Seq<u8>, b2: Seq<u8>, ea: int, n: int)
    requires
        forall|i: int| ea <= i < ea + 16 * n ==> b2[i] == b[i],
    ensures
        events_at(b2, ea, n) == events_at(b, ea, n),
    decreases n,
{
    if n > 0 {
        lemma_events_at_same(b, b2, ea, n - 1);
        assert(b2[ea + 16 * (n - 1)] == b[ea + 16 * (n - 1)]);
        assert(b2[ea + 16 * (n - 1) + 1] == b[ea + 16 * (n - 1) + 1]);
        assert(b2[ea + 16 * (n - 1) + 2] == b[ea + 16 * (n - 1) + 2]);
        assert(b2[ea + 16 * (n - 1) + 3] == b[ea + 16 * (n - 1) + 3]);
        assert(b2[ea + 16 * (n - 1) + 4] == b[ea + 16 * (n - 1) + 4]);
        assert(b2[ea + 16 * (n - 1) + 5] == b[ea + 16 * (n - 1) + 5]);
        assert(b2[ea + 16 * (n - 1) + 6] == b[ea + 16 * (n - 1) + 6]);
        assert(b2[ea + 16 * (n - 1) + 7] == b[ea + 16 * (n - 1) + 7]);
        assert(b2[ea + 16 * (n - 1) + 8] == b[ea + 16 * (n - 1) + 8]);
        assert(b2[ea + 16 * (n - 1) + 9] == b[ea + 16 * (n - 1) + 9]);
        assert(b2[ea + 16 * (n - 1) + 10] == b[ea + 16 * (n - 1) + 10]);
    }
}

/// The end-of-replay gate: changing the first player block's end-of-replay
/// marker of a replay file that parses, and nothing before it, makes
/// parsing fail with `EORMismatch`.
pub proof fn lemma_eor_gate(b: Seq<u8>, b2: Seq<u8>, f: int, e: int, eor: int)
    requires
        parse_rec_spec(b) is Ok,
        f == le32(b, 0),
        e == le32(b, 36 + 27 * f),
        eor == 40 + 27 * f + 16 * e,
        b2.len() == b.len(),
        forall|i: int| 0 <= i < eor ==> b2[i] == b[i],
        le32(b2, eor) != EOR,
    ensures
        parse_rec_spec(b2) == Err::<RecData, Option<ElmaError>>(Some(ElmaError::EORMismatch)),
{
    assert(le32(b2, 0) == le32(b, 0));
    assert(le32(b2, 8) == le32(b, 8));
    assert(le32(b2, 12) == le32(b, 12));
    assert(le32(b2, 16) == le32(b, 16));
    assert(b2.subrange(20, 32) =~= b.subrange(20, 32));
    assert(le32(b2, 36 + 27 * f) == le32(b, 36 + 27 * f));
    lemma_events_at_same(b, b2, 40 + 27 * f, e);
    assert(events_at(b, 40 + 27 * f, e) is Ok);
    assert(parse_body_spec(b2, 36, f) == Err::<
        (Seq<Frame>, Seq<Event>, int),
        Option<ElmaError>,
    >(Some(ElmaError::EORMismatch)));
}

fn parse_frames(b: &[u8], fa: usize, f: usize) -> (frames: Vec<Frame>)
    requires
        fa + 27 * f <= b@.len(),
    ensures
        frames@ == frames_at(b@, fa as int, f as int),
{
    let blen = b.len();
    let mut frames: Vec<Frame> = Vec::new();
    let mut j: usize = 0;
    while j < f
        invariant
            0 <= j <= f,
            fa + 27 * f <= blen,
            blen == b@.len(),
            frames@ =~= frames_at(b@, fa as int, f as int).take(j as int),
        decreases f - j,
    {
        let fr = Frame {
            bike: Position {
                x: crate::bits::read_u32(b, fa + 4 * j),
                y: crate::bits::read_u32(b, fa + 4 * f + 4 * j),
            },
            left_wheel: Position {
                x: to_i16(crate::bits::read_u16(b, fa + 8 * f + 2 * j)),
                y: to_i16(crate::bits::read_u16(b, fa + 10 * f + 2 * j)),
            },
            right_wheel: Position {
                x: to_i16(crate::bits::read_u16(b, fa + 12 * f + 2 * j)),
                y: to_i16(crate::bits::read_u16(b, fa + 14 * f + 2 * j)),
            },
            head: Position {
                x: to_i16(crate::bits::read_u16(b, fa + 16 * f + 2 * j)),
                y: to_i16(crate::bits::read_u16(b, fa + 18 * f + 2 * j)),
            },
            rotation: to_i16(crate::bits::read_u16(b, fa + 20 * f + 2 * j)),
            left_wheel_rotation: *vstd::slice::slice_index_get(b, fa + 22 * f + j),
            right_wheel_rotation: *vstd::slice::slice_index_get(b, fa + 23 * f + j),
            throttle: *vstd::slice::slice_index_get(b, fa + 24 * f + j) & 1 != 0,
            right: *vstd::slice::slice_index_get(b, fa + 24 * f + j) & 2 != 0,
            volume: to_i16(crate::bits::read_u16(b, fa + 25 * f + 2 * j)),
        };
        proof {
            assert(fr == frame_at(b@, fa as int, f as int, j as int));
        }
        frames.push(fr);
        proof {
            assert(frames@ =~= frames_at(b@, fa as int, f as int).take(j + 1));
        }
        j = j + 1;
    }
    proof {
        assert(frames@ =~= frames_at(b@, fa as int, f as int));
    }
    frames
}

proof fn lemma_events_err_propagates(b: Seq<u8>, ea: int, m: int, n: int)
    requires
        0 <= m <= n,
        events_at(b, ea, m) is Err,
    ensures
        events_at(b, ea, n) == events_at(b, ea, m),
    decreases n - m,
{
    if m < n {
        lemma_events_err_propagates(b, ea, m, n - 1);
    }
}

fn parse_events(b: &[u8], ea: usize, e: usize) -> (r: Result<Vec<Event>, ElmaError>)
    requires
        ea + 16 * e <= b@.len(),
    ensures
        match r {
            Ok(events) => events_at(b@, ea as int, e as int) == Ok::<Seq<Event>, ElmaError>(
                events@,
            ),
            Err(er) => events_at(b@, ea as int, e as int) == Err::<Seq<Event>, ElmaError>(er),
        },
{
    let blen = b.len();
    let mut events: Vec<Event> = Vec::new();
    let mut j: usize = 0;
    while j < e
        invariant
            0 <= j <= e,
            ea + 16 * e <= blen,
            blen == b@.len(),
            events_at(b@, ea as int, j as int) == Ok::<Seq<Event>, ElmaError>(events@),
        decreases e - j,
    {
        let time = crate::bits::read_u64(b, ea + 16 * j);
        let info = to_i16(crate::bits::read_u16(b, ea + 16 * j + 8));
        let code = *vstd::slice::slice_index_get(b, ea + 16 * j + 10);
        let event_type = match code {
            0 => EventType::Touch { index: info },
            1 => EventType::Ground { alternative: false },
            4 => EventType::Ground { alternative: true },
            5 => EventType::Turn,
            6 => EventType::VoltRight,
            7 => EventType::VoltLeft,
            _ => {
                proof {
                    lemma_events_err_propagates(b@, ea as int, j + 1, e as int);
                }
                return Err(ElmaError::InvalidEvent(code));
            },
        };
        events.push(Event { time, event_type });
        j = j + 1;
    }
    Ok(events)
}

/// The body of one player block: `f` frames at `fa`, the events behind
/// them, and the end-of-replay marker.
fn parse_body(b: &[u8], fa: usize, f: usize) -> (r: Result<(Vec<Frame>, Vec<Event>, usize), ElmaError>)
    requires
        f < 0x8000_0000,
    ensures
        match r {
            Ok(t) => parse_body_spec(b@, fa as int, f as int) == Ok::<
                (Seq<Frame>, Seq<Event>, int),
                Option<ElmaError>,
            >((t.0@, t.1@, t.2 as int)),
            Err(e) => match parse_body_spec(b@, fa as int, f as int) {
                Ok(_) => false,
                Err(oe) => match oe {
                    Some(e2) => e == e2,
                    None => e is Io,
                },
            },
        },
{
    let len = b.len();
    if fa > len || ((27u64 * (f as u64)) + 4u64) > ((len - fa) as u64) {
        return Err(eof_error());
    }
    let body = 27 * f;
    let ec = crate::bits::read_u32(b, fa + body);
    if ec >= 0x8000_0000 {
        return Err(eof_error());
    }
    let e = ec as usize;
    let ea = fa + body + 4;
    if ((16u64 * (e as u64)) + 4u64) > ((len - ea) as u64) {
        return Err(eof_error());
    }
    let frames = parse_frames(b, fa, f);
    let events = match parse_events(b, ea, e) {
        Ok(evs) => evs,
        Err(er) => {
            return Err(er);
        },
    };
    let marker = crate::bits::read_u32(b, ea + 16 * e);
    if marker != EOR {
        return Err(ElmaError::EORMismatch);
    }
    Ok((frames, events, ea + 16 * e + 4))
}

/// The flag bits of a frame's data byte: bit 0 throttle, bit 1 right.
pub open spec fn frame_flags(fr: Frame) -> u8 {
    ((if fr.throttle {
        1int
    } else {
        0int
    }) + (if fr.right {
        2int
    } else {
        0int
    })) as u8
}

/// A column of 32-bit values, each spelled little-endian.
pub open spec fn col32(vals: Seq<u32>) -> Seq<u8> {
    Seq::new((4 * vals.len()) as nat, |o: int| le32_bytes(vals[o / 4])[o % 4])
}

/// A column of 16-bit values, each spelled little-endian.
pub open spec fn col16(vals: Seq<u16>) -> Seq<u8> {
    Seq::new((2 * vals.len()) as nat, |o: int| le16_bytes(vals[o / 2])[o % 2])
}

/// The column-major frame area with the data bytes holding only their flag
/// bits; a written file holds random upper bits there instead.
pub open spec fn frames_bytes_det(fs: Seq<Frame>) -> Seq<u8> {
    col32(fs.map_values(|fr: Frame| fr.bike.x)) + col32(fs.map_values(|fr: Frame| fr.bike.y))
        + col16(fs.map_values(|fr: Frame| u16_of_i16(fr.left_wheel.x))) + col16(
        fs.map_values(|fr: Frame| u16_of_i16(fr.left_wheel.y)),
    ) + col16(fs.map_values(|fr: Frame| u16_of_i16(fr.right_wheel.x))) + col16(
        fs.map_values(|fr: Frame| u16_of_i16(fr.right_wheel.y)),
    ) + col16(fs.map_values(|fr: Frame| u16_of_i16(fr.head.x))) + col16(
        fs.map_values(|fr: Frame| u16_of_i16(fr.head.y)),
    ) + col16(fs.map_values(|fr: Frame| u16_of_i16(fr.rotation))) + fs.map_values(
        |fr: Frame| fr.left_wheel_rotation,
    ) + fs.map_values(|fr: Frame| fr.right_wheel_rotation) + fs.map_values(
        |fr: Frame| frame_flags(fr),
    ) + col16(fs.map_values(|fr: Frame| u16_of_i16(fr.volume)))
}

/// Whether offset `o` of a frame area for `f` frames lies in the data
/// column, whose upper six bits are random on disk.
pub open spec fn is_data_pos(f: int, o: int) -> bool {
    24 * f <= o < 25 * f
}

/// The frame area `a` serialises `fs`: every byte matches the
/// deterministic layout, except that a data byte must only agree on its
/// two flag bits.
pub open spec fn frames_area_ok(a: Seq<u8>, fs: Seq<Frame>) -> bool {
    let det = frames_bytes_det(fs);
    &&& a.len() == det.len()
    &&& forall|o: int|
        0 <= o < a.len() ==> if is_data_pos(fs.len() as int, o) {
            (#[trigger] a[o]) & 3 == det[o]
        } else {
            a[o] == det[o]
        }
}

/// The sixteen bytes of one event record.
pub open spec fn event_bytes(ev: Event) -> Seq<u8> {
    le64_bytes(ev.time) + (match ev.event_type {
        EventType::Touch { index } => le32_bytes(u32_of_i16_sx(index)) + le32_bytes(0u32),
        EventType::Ground { alternative } => if !alternative {
            le32_bytes(131071u32) + le32_bytes(1050605825u32)
        } else {
            le32_bytes(327679u32) + le32_bytes(1065185444u32)
        },
        EventType::Turn => le32_bytes(393215u32) + le32_bytes(1065185444u32),
        EventType::VoltRight => le32_bytes(458751u32) + le32_bytes(1065185444u32),
        EventType::VoltLeft => le32_bytes(524287u32) + le32_bytes(1065185444u32),
    })
}

/// The event area: sixteen bytes for each event in order.
pub open spec fn events_bytes(evs: Seq<Event>) -> Seq<u8> {
    Seq::new((16 * evs.len()) as nat, |o: int| event_bytes(evs[o / 16])[o % 16])
}

/// The byte length of one player block with `f` frames and `e` events.
pub open spec fn block_len(f: int, e: int) -> int {
    44 + 27 * f + 16 * e
}

/// The 36 header bytes of a player block holding `f` frames.
pub open spec fn block_header_bytes(
    f: int,
    multi: bool,
    flag_tag: bool,
    link: u32,
    level: Seq<char>,
) -> Seq<u8> {
    le32_bytes(f as u32) + le32_bytes(0x83u32) + le32_bytes(
        if multi {
            1u32
        } else {
            0u32
        },
    ) + le32_bytes(
        if flag_tag {
            1u32
        } else {
            0u32
        },
    ) + le32_bytes(link) + pad_spec(level, 12)->Ok_0 + le32_bytes(0u32)
}

/// The bytes `out` are one serialised player block holding the given
/// frames, events and header fields.
pub open spec fn rec_block_ok(
    out: Seq<u8>,
    fs: Seq<Frame>,
    evs: Seq<Event>,
    multi: bool,
    flag_tag: bool,
    link: u32,
    level: Seq<char>,
) -> bool {
    &&& pad_spec(level, 12) is Ok
    &&& exists|area: Seq<u8>|
        #[trigger] frames_area_ok(area, fs) && out == block_header_bytes(
            fs.len() as int,
            multi,
            flag_tag,
            link,
            level,
        ) + area + le32_bytes(evs.len() as u32) + events_bytes(evs) + le32_bytes(EOR)
}

/// The bytes `out` are a whole serialised replay for the fields `v`: one
/// player block, and a second one behind it when the replay is
/// multi-player.
pub open spec fn rec_bytes_ok(out: Seq<u8>, v: RecData) -> bool {
    if v.multi {
        exists|b1: Seq<u8>, b2: Seq<u8>|
            out == #[trigger] (b1 + b2) && b1.len() == block_len(
                v.frames.len() as int,
                v.events.len() as int,
            ) && rec_block_ok(b1, v.frames, v.events, v.multi, v.flag_tag, v.link, v.level)
                && rec_block_ok(b2, v.frames_2, v.events_2, v.multi, v.flag_tag, v.link, v.level)
    } else {
        rec_block_ok(out, v.frames, v.events, v.multi, v.flag_tag, v.link, v.level)
    }
}

proof fn lemma_col32_step(vals: Seq<u32>, j: int)
    requires
        0 <= j < vals.len(),
    ensures
        col32(vals).subrange(4 * j, 4 * j + 4) =~= le32_bytes(vals[j]),
        col32(vals).take(4 * j + 4) =~= col32(vals).take(4 * j) + le32_bytes(vals[j]),
{
    assert forall|k: int| 0 <= k < 4 implies col32(vals)[4 * j + k] == le32_bytes(vals[j])[k] by {
        vstd::arithmetic::div_mod::lemma_fundamental_div_mod_converse(4 * j + k, 4, j, k);
    }
}

proof fn lemma_col16_step(vals: Seq<u16>, j: int)
    requires
        0 <= j < vals.len(),
    ensures
        col16(vals).subrange(2 * j, 2 * j + 2) =~= le16_bytes(vals[j]),
        col16(vals).take(2 * j + 2) =~= col16(vals).take(2 * j) + le16_bytes(vals[j]),
{
    assert forall|k: int| 0 <= k < 2 implies col16(vals)[2 * j + k] == le16_bytes(vals[j])[k] by {
        vstd::arithmetic::div_mod::lemma_fundamental_div_mod_converse(2 * j + k, 2, j, k);
    }
}

proof fn lemma_events_step(evs: Seq<Event>, j: int)
    requires
        0 <= j < evs.len(),
    ensures
        events_bytes(evs).subrange(16 * j, 16 * j + 16) =~= event_bytes(evs[j]),
        events_bytes(evs).take(16 * j + 16) =~= events_bytes(evs).take(16 * j) + event_bytes(
            evs[j],
        ),
{
    assert(event_bytes(evs[j]).len() == 16);
    assert forall|k: int| 0 <= k < 16 implies events_bytes(evs)[16 * j + k] == event_bytes(evs[j])[k] by {
        vstd::arithmetic::div_mod::lemma_fundamental_div_mod_converse(16 * j + k, 16, j, k);
    }
}

/// The time bits of the last event when it is a touch, zero otherwise.
pub open spec fn last_touch_spec(evs: Seq<Event>) -> u64 {
    if evs.len() == 0 {
        0u64
    } else {
        match evs.last().event_type {
            EventType::Touch { .. } => evs.last().time,
            _ => 0u64,
        }
    }
}

fn last_touch(events: &Vec<Event>) -> (r: u64)
    ensures
        r == last_touch_spec(events@),
{
    let n = events.len();
    if n == 0 {
        0
    } else {
        let ev = events[n - 1];
        match ev.event_type {
            EventType::Touch { .. } => ev.time,
            _ => 0,
        }
    }
}

fn sx_u32(v: i16) -> (r: u32)
    ensures
        r == u32_of_i16_sx(v),
{
    if v >= 0 {
        v as u32
    } else {
        let d = -(v + 1);
        0xFFFF_FFFF - (d as u32)
    }
}

/// Appends the column-major frame area for `frames`, filling the upper six
/// bits of each data byte with random bits as the game does.
fn write_frames(out: &mut Vec<u8>, frames: &Vec<Frame>)
    requires
        old(out)@.len() + 27 * frames@.len() <= usize::MAX,
    ensures
        final(out)@.len() == old(out)@.len() + 27 * frames@.len(),
        exists|area: Seq<u8>|
            #[trigger] frames_area_ok(area, frames@) && final(out)@ == old(out)@ + area,
{
    let ghost fs = frames@;
    let ghost base = out@;
    let ghost xs_bx = fs.map_values(|fr: Frame| fr.bike.x);
    let ghost xs_by = fs.map_values(|fr: Frame| fr.bike.y);
    let ghost xs_lx = fs.map_values(|fr: Frame| u16_of_i16(fr.left_wheel.x));
    let ghost xs_ly = fs.map_values(|fr: Frame| u16_of_i16(fr.left_wheel.y));
    let ghost xs_rx = fs.map_values(|fr: Frame| u16_of_i16(fr.right_wheel.x));
    let ghost xs_ry = fs.map_values(|fr: Frame| u16_of_i16(fr.right_wheel.y));
    let ghost xs_hx = fs.map_values(|fr: Frame| u16_of_i16(fr.head.x));
    let ghost xs_hy = fs.map_values(|fr: Frame| u16_of_i16(fr.head.y));
    let ghost xs_rot = fs.map_values(|fr: Frame| u16_of_i16(fr.rotation));
    let ghost xs_lr = fs.map_values(|fr: Frame| fr.left_wheel_rotation);
    let ghost xs_rr = fs.map_values(|fr: Frame| fr.right_wheel_rotation);
    let ghost xs_fl = fs.map_values(|fr: Frame| frame_flags(fr));
    let ghost xs_vol = fs.map_values(|fr: Frame| u16_of_i16(fr.volume));
    let f = frames.len();
    let mut bike_x: Vec<u8> = Vec::new();
    let mut bike_y: Vec<u8> = Vec::new();
    let mut left_x: Vec<u8> = Vec::new();
    let mut left_y: Vec<u8> = Vec::new();
    let mut right_x: Vec<u8> = Vec::new();
    let mut right_y: Vec<u8> = Vec::new();
    let mut head_x: Vec<u8> = Vec::new();
    let mut head_y: Vec<u8> = Vec::new();
    let mut rotation: Vec<u8> = Vec::new();
    let mut left_rotation: Vec<u8> = Vec::new();
    let mut right_rotation: Vec<u8> = Vec::new();
    let mut data: Vec<u8> = Vec::new();
    let mut volume: Vec<u8> = Vec::new();
    let mut j: usize = 0;
    while j < f
        invariant
            0 <= j <= f,
            f == fs.len(),
            fs == frames@,
            xs_bx == fs.map_values(|fr: Frame| fr.bike.x),
            xs_by == fs.map_values(|fr: Frame| fr.bike.y),
            xs_lx == fs.map_values(|fr: Frame| u16_of_i16(fr.left_wheel.x)),
            xs_ly == fs.map_values(|fr: Frame| u16_of_i16(fr.left_wheel.y)),
            xs_rx == fs.map_values(|fr: Frame| u16_of_i16(fr.right_wheel.x)),
            xs_ry == fs.map_values(|fr: Frame| u16_of_i16(fr.right_wheel.y)),
            xs_hx == fs.map_values(|fr: Frame| u16_of_i16(fr.head.x)),
            xs_hy == fs.map_values(|fr: Frame| u16_of_i16(fr.head.y)),
            xs_rot == fs.map_values(|fr: Frame| u16_of_i16(fr.rotation)),
            xs_lr == fs.map_values(|fr: Frame| fr.left_wheel_rotation),
            xs_rr == fs.map_values(|fr: Frame| fr.right_wheel_rotation),
            xs_fl == fs.map_values(|fr: Frame| frame_flags(fr)),
            xs_vol == fs.map_values(|fr: Frame| u16_of_i16(fr.volume)),
            bike_x@ =~= col32(xs_bx).take(4 * j),
            bike_y@ =~= col32(xs_by).take(4 * j),
            left_x@ =~= col16(xs_lx).take(2 * j),
            left_y@ =~= col16(xs_ly).take(2 * j),
            right_x@ =~= col16(xs_rx).take(2 * j),
            right_y@ =~= col16(xs_ry).take(2 * j),
            head_x@ =~= col16(xs_hx).take(2 * j),
            head_y@ =~= col16(xs_hy).take(2 * j),
            rotation@ =~= col16(xs_rot).take(2 * j),
            left_rotation@ =~= xs_lr.take(j as int),
            right_rotation@ =~= xs_rr.take(j as int),
            volume@ =~= col16(xs_vol).take(2 * j),
            data@.len() == j,
            forall|k: int| 0 <= k < j ==> (#[trigger] data@[k]) & 3 == xs_fl[k],
        decreases f - j,
    {
        let fr = frames[j];
        push_u32(&mut bike_x, fr.bike.x);
        push_u32(&mut bike_y, fr.bike.y);
        push_u16(&mut left_x, from_i16(fr.left_wheel.x));
        push_u16(&mut left_y, from_i16(fr.left_wheel.y));
        push_u16(&mut right_x, from_i16(fr.right_wheel.x));
        push_u16(&mut right_y, from_i16(fr.right_wheel.y));
        push_u16(&mut head_x, from_i16(fr.head.x));
        push_u16(&mut head_y, from_i16(fr.head.y));
        push_u16(&mut rotation, from_i16(fr.rotation));
        left_rotation.push(fr.left_wheel_rotation);
        right_rotation.push(fr.right_wheel_rotation);
        let r8: u8 = rand::random::<u8>();
        let mut fl: u8 = 0;
        if fr.throttle {
            fl = fl + 1;
        }
        if fr.right {
            fl = fl + 2;
        }
        let db = (r8 & 0xFC) | fl;
        proof {
            assert(fl == frame_flags(fr));
            assert(db & 3 == fl) by (bit_vector)
                requires
                    db == (r8 & 0xFC) | fl,
                    fl <= 3,
            ;
        }
        data.push(db);
        push_u16(&mut volume, from_i16(fr.volume));
        proof {
            lemma_col32_step(xs_bx, j as int);
            lemma_col32_step(xs_by, j as int);
            lemma_col16_step(xs_lx, j as int);
            lemma_col16_step(xs_ly, j as int);
            lemma_col16_step(xs_rx, j as int);
            lemma_col16_step(xs_ry, j as int);
            lemma_col16_step(xs_hx, j as int);
            lemma_col16_step(xs_hy, j as int);
            lemma_col16_step(xs_rot, j as int);
            lemma_col16_step(xs_vol, j as int);
            assert(left_rotation@ =~= xs_lr.take(j + 1));
            assert(right_rotation@ =~= xs_rr.take(j + 1));
        }
        j = j + 1;
    }
    let ghost c_data = data@;
    out.append(&mut bike_x);
    out.append(&mut bike_y);
    out.append(&mut left_x);
    out.append(&mut left_y);
    out.append(&mut right_x);
    out.append(&mut right_y);
    out.append(&mut head_x);
    out.append(&mut head_y);
    out.append(&mut rotation);
    out.append(&mut left_rotation);
    out.append(&mut right_rotation);
    out.append(&mut data);
    out.append(&mut volume);
    proof {
        let fi = f as int;
        let area = out@.skip(base.len() as int);
        let det = frames_bytes_det(fs);
        let front = col32(xs_bx) + col32(xs_by) + col16(xs_lx) + col16(xs_ly) + col16(xs_rx)
            + col16(xs_ry) + col16(xs_hx) + col16(xs_hy) + col16(xs_rot) + xs_lr + xs_rr;
        assert(area =~= front + c_data + col16(xs_vol));
        assert(det =~= front + xs_fl + col16(xs_vol));
        assert(area.len() == 27 * fi && det.len() == 27 * fi && front.len() == 24 * fi);
        assert forall|o: int| 0 <= o < area.len() implies (if is_data_pos(fi, o) {
            (area[o] & 3) == det[o]
        } else {
            area[o] == det[o]
        }) by {
            if o < 24 * fi {
                assert(area[o] == front[o] && det[o] == front[o]);
            } else if o < 25 * fi {
                assert(area[o] == c_data[o - 24 * fi]);
                assert(det[o] == xs_fl[o - 24 * fi]);
            } else {
                assert(area[o] == col16(xs_vol)[o - 25 * fi]);
                assert(det[o] == col16(xs_vol)[o - 25 * fi]);
            }
        }
        assert(frames_area_ok(area, fs));
        assert(out@ =~= base + area);
        assert(exists|a: Seq<u8>| #[trigger] frames_area_ok(a, fs) && out@ == base + a);
    }
}

/// A serialised player block has exactly the block's length.
pub proof fn lemma_block_ok_len(
    out: Seq<u8>,
    fs: Seq<Frame>,
    evs: Seq<Event>,
    multi: bool,
    flag_tag: bool,
    link: u32,
    level: Seq<char>,
)
    requires
        rec_block_ok(out, fs, evs, multi, flag_tag, link, level),
    ensures
        out.len() == block_len(fs.len() as int, evs.len() as int),
{
    let area = choose|a: Seq<u8>|
        #[trigger] frames_area_ok(a, fs) && out == block_header_bytes(
            fs.len() as int,
            multi,
            flag_tag,
            link,
            level,
        ) + a + le32_bytes(evs.len() as u32) + events_bytes(evs) + le32_bytes(EOR);
    assert(frames_bytes_det(fs).len() == 27 * fs.len());
    assert((pad_spec(level, 12)->Ok_0).len() == 12);
    assert(block_header_bytes(fs.len() as int, multi, flag_tag, link, level).len() == 36);
}

fn write_events(out: &mut Vec<u8>, events: &Vec<Event>)
    ensures
        final(out)@ == old(out)@ + events_bytes(events@),
{
    let ghost evs = events@;
    let ghost base = out@;
    let e = events.len();
    let mut j: usize = 0;
    while j < e
        invariant
            0 <= j <= e,
            e == evs.len(),
            evs == events@,
            out@ =~= base + events_bytes(evs).take(16 * j),
        decreases e - j,
    {
        let ev = events[j];
        push_u64(out, ev.time);
        match ev.event_type {
            EventType::Touch { index } => {
                let s = sx_u32(index);
                push_u32(out, s);
                push_u32(out, 0);
            },
            EventType::Ground { alternative } => {
                if !alternative {
                    push_u32(out, 131071);
                    push_u32(out, 1050605825);
                } else {
                    push_u32(out, 327679);
                    push_u32(out, 1065185444);
                }
            },
            EventType::Turn => {
                push_u32(out, 393215);
                push_u32(out, 1065185444);
            },
            EventType::VoltRight => {
                push_u32(out, 458751);
                push_u32(out, 1065185444);
            },
            EventType::VoltLeft => {
                push_u32(out, 524287);
                push_u32(out, 1065185444);
            },
        }
        proof {
            lemma_events_step(evs, j as int);
            assert(out@ =~= base + events_bytes(evs).take(16 * (j + 1)));
        }
        j = j + 1;
    }
    proof {
        assert(out@ =~= base + events_bytes(evs));
    }
}

impl Replay {
    /// Returns a new Replay struct with default values and a random link.
    pub fn new() -> (r: Replay)
        ensures
            r.raw@ == Seq::<u8>::empty(),
            r.multi == false,
            r.flag_tag == false,
            r.level@ == Seq::<char>::empty(),
            r.frames@ == Seq::<Frame>::empty(),
            r.events@ == Seq::<Event>::empty(),
            r.frames_2@ == Seq::<Frame>::empty(),
            r.events_2@ == Seq::<Event>::empty(),
    {
        Replay {
            raw: Vec::new(),
            multi: false,
            flag_tag: false,
            link: rand::random::<u32>(),
            level: String::new(),
            frames: Vec::new(),
            events: Vec::new(),
            frames_2: Vec::new(),
            events_2: Vec::new(),
        }
    }

    /// Parses a replay from the bytes of a replay file.
    pub fn from_bytes(buffer: &[u8]) -> (r: Result<Replay, ElmaError>)
        ensures
            match r {
                Ok(rep) => parse_rec_spec(buffer@) == Ok::<RecData, Option<ElmaError>>(rep@)
                    && rep.raw@ == buffer@,
                Err(e) => match parse_rec_spec(buffer@) {
                    Ok(_) => false,
                    Err(oe) => match oe {
                        Some(e2) => e == e2,
                        None => e is Io,
                    },
                },
            },
    {
        let len = buffer.len();
        if len < 36 {
            return Err(eof_error());
        }
        let fc = crate::bits::read_u32(buffer, 0);
        if fc >= 0x8000_0000 {
            return Err(eof_error());
        }
        let multi_word = crate::bits::read_u32(buffer, 8);
        let multi = 1 <= multi_word && multi_word < 0x8000_0000;
        let flag_word = crate::bits::read_u32(buffer, 12);
        let flag_tag = 1 <= flag_word && flag_word < 0x8000_0000;
        let link = crate::bits::read_u32(buffer, 16);
        let name_slice = vstd::slice::slice_subrange(buffer, 20, 32);
        let level = match crate::trim_string(name_slice) {
            Ok(s) => s,
            Err(e) => {
                return Err(e);
            },
        };
        let (frames, events, end) = match parse_body(buffer, 36, fc as usize) {
            Ok(t) => t,
            Err(e) => {
                return Err(e);
            },
        };
        if multi {
            if end > len || len - end < 36 {
                return Err(eof_error());
            }
            let fc2 = crate::bits::read_u32(buffer, end);
            if fc2 >= 0x8000_0000 {
                return Err(eof_error());
            }
            let (frames_2, events_2, _end2) = match parse_body(buffer, end + 36, fc2 as usize) {
                Ok(t) => t,
                Err(e) => {
                    return Err(e);
                },
            };
            Ok(
                Replay {
                    raw: vstd::slice::slice_to_vec(buffer),
                    multi,
                    flag_tag,
                    link,
                    level,
                    frames,
                    events,
                    frames_2,
                    events_2,
                },
            )
        } else {
            Ok(
                Replay {
                    raw: vstd::slice::slice_to_vec(buffer),
                    multi,
                    flag_tag,
                    link,
                    level,
                    frames,
                    events,
                    frames_2: Vec::new(),
                    events_2: Vec::new(),
                },
            )
        }
    }

    /// The time bits finish-time inference starts from, per player: the
    /// last event's time when that event is a touch, zero bits otherwise.
    pub fn last_touch_time_bits(&self) -> (r: (u64, u64))
        ensures
            r.0 == last_touch_spec(self.events@),
            r.1 == last_touch_spec(self.events_2@),
    {
        (last_touch(&self.events), last_touch(&self.events_2))
    }

    /// Serialises one player block: the second player's when `player2`.
    fn write_rec(&self, player2: bool) -> (r: Result<Vec<u8>, ElmaError>)
        requires
            self.frames@.len() < 0x8000_0000,
            self.frames_2@.len() < 0x8000_0000,
            self.events@.len() < 0x8000_0000,
            self.events_2@.len() < 0x8000_0000,
            block_len(self.frames@.len() as int, self.events@.len() as int) <= usize::MAX,
            block_len(self.frames_2@.len() as int, self.events_2@.len() as int) <= usize::MAX,
        ensures
            match r {
                Ok(out) => rec_block_ok(
                    out@,
                    if player2 {
                        self.frames_2@
                    } else {
                        self.frames@
                    },
                    if player2 {
                        self.events_2@
                    } else {
                        self.events@
                    },
                    self.multi,
                    self.flag_tag,
                    self.link,
                    self.level@,
                ),
                Err(e) => pad_spec(self.level@, 12) == Err::<Seq<u8>, ElmaError>(e),
            },
    {
        let frames = if player2 {
            &self.frames_2
        } else {
            &self.frames
        };
        let events = if player2 {
            &self.events_2
        } else {
            &self.events
        };
        let ghost fs = frames@;
        let ghost evs = events@;
        let f = frames.len();
        let e = events.len();
        let mut bytes: Vec<u8> = Vec::new();
        push_u32(&mut bytes, f as u32);
        push_u32(&mut bytes, 0x83);
        push_u32(&mut bytes, if self.multi { 1 } else { 0 });
        push_u32(&mut bytes, if self.flag_tag { 1 } else { 0 });
        push_u32(&mut bytes, self.link);
        let mut padded = match crate::string_null_pad(self.level.as_str(), 12) {
            Ok(v) => v,
            Err(er) => {
                return Err(er);
            },
        };
        let ghost padded_bytes = padded@;
        bytes.append(&mut padded);
        push_u32(&mut bytes, 0);
        let ghost hdr = bytes@;
        proof {
            assert(hdr =~= block_header_bytes(
                f as int,
                self.multi,
                self.flag_tag,
                self.link,
                self.level@,
            ));
        }
        write_frames(&mut bytes, frames);
        let ghost area = choose|a: Seq<u8>| #[trigger] frames_area_ok(a, fs) && bytes@ == hdr + a;
        push_u32(&mut bytes, e as u32);
        write_events(&mut bytes, events);
        push_u32(&mut bytes, EOR);
        proof {
            assert(bytes@ == block_header_bytes(
                f as int,
                self.multi,
                self.flag_tag,
                self.link,
                self.level@,
            ) + area + le32_bytes(e as u32) + events_bytes(evs) + le32_bytes(EOR));
            assert(exists|a: Seq<u8>|
                #[trigger] frames_area_ok(a, fs) && bytes@ == block_header_bytes(
                    fs.len() as int,
                    self.multi,
                    self.flag_tag,
                    self.link,
                    self.level@,
                ) + a + le32_bytes(evs.len() as u32) + events_bytes(evs) + le32_bytes(EOR));
        }
        Ok(bytes)
    }

    /// Serialises the replay to the bytes of a replay file: one player
    /// block, and a second one behind it for a multi-player replay. The
    /// upper six bits of each frame's data byte are drawn at random, as
    /// the game leaves uninitialised memory there.
    pub fn to_bytes(&self) -> (r: Result<Vec<u8>, ElmaError>)
        requires
            self.frames@.len() < 0x8000_0000,
            self.frames_2@.len() < 0x8000_0000,
            self.events@.len() < 0x8000_0000,
            self.events_2@.len() < 0x8000_0000,
            block_len(self.frames@.len() as int, self.events@.len() as int) + block_len(
                self.frames_2@.len() as int,
                self.events_2@.len() as int,
            ) <= usize::MAX,
        ensures
            match r {
                Ok(out) => rec_bytes_ok(out@, self@),
                Err(e) => pad_spec(self.level@, 12) == Err::<Seq<u8>, ElmaError>(e),
            },
    {
        let mut bytes = match self.write_rec(false) {
            Ok(v) => v,
            Err(er) => {
                return Err(er);
            },
        };
        let ghost first = bytes@;
        if self.multi {
            let mut second = match self.write_rec(true) {
                Ok(v) => v,
                Err(er) => {
                    return Err(er);
                },
            };
            let ghost second_bytes = second@;
            bytes.append(&mut second);
            proof {
                lemma_block_ok_len(
                    first,
                    self.frames@,
                    self.events@,
                    self.multi,
                    self.flag_tag,
                    self.link,
                    self.level@,
                );
                assert(bytes@ == first + second_bytes);
            }
        }
        Ok(bytes)
    }
}

} // verus!
