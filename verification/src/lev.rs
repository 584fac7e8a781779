//! Reading and writing Elasto Mania level files.

use vstd::prelude::*;

verus! {

use crate::bits::le32;
use crate::bits::le32_bytes;
use crate::bits::le64;
use crate::bits::le64_bytes;
use crate::bits::push_u32;
use crate::bits::push_u64;
use crate::pad_spec;
use crate::trim_spec;
use crate::ElmaError;
use crate::Position;
use vstd::arithmetic::div_mod::lemma_fundamental_div_mod;
use vstd::arithmetic::div_mod::lemma_fundamental_div_mod_converse;
use vstd::arithmetic::div_mod::lemma_multiply_divide_lt;
use vstd::arithmetic::mul::lemma_mul_inequality;
use vstd::arithmetic::power2::lemma_pow2_adds;
use vstd::arithmetic::power2::lemma_pow2_pos;
use vstd::arithmetic::power2::lemma_pow2_strictly_increases;
use vstd::arithmetic::power2::pow2;

/// The bit pattern of the 64-bit float count disguise offset, 0.4643643.
pub const DISGUISE_BITS: u64 = 0x3FDD_B825_0A7B_8405;

/// The disguise offset's mantissa with its implicit leading bit: the
/// offset is this value times two to the minus 54.
pub const DISGUISE_MANT: u64 = 0x001D_B825_0A7B_8405;

/// The floor of the base-two logarithm (0 for inputs below 2).
pub open spec fn floor_log2(n: int) -> int
    decreases n,
{
    if n < 2 {
        0
    } else {
        1 + floor_log2(n / 2)
    }
}

proof fn lemma_floor_log2(n: int)
    requires
        n >= 1,
    ensures
        0 <= floor_log2(n),
        pow2(floor_log2(n) as nat) <= n < pow2((floor_log2(n) + 1) as nat),
    decreases n,
{
    vstd::arithmetic::power2::lemma2_to64();
        vstd::arithmetic::power2::lemma2_to64_rest();
    if n < 2 {
    } else {
        lemma_floor_log2(n / 2);
        let e = floor_log2(n / 2);
        lemma_fundamental_div_mod(n, 2);
        assert(pow2((e + 1) as nat) == 2 * pow2(e as nat)) by {
            lemma_pow2_adds(1, e as nat);
        }
        assert(pow2((e + 2) as nat) == 2 * pow2((e + 1) as nat)) by {
            lemma_pow2_adds(1, (e + 1) as nat);
        }
    }
}

/// The bit pattern of the 64-bit float nearest to `n` plus the disguise
/// offset: how a count is written to disk. The mantissa is the top 53
/// bits of the exact sum, rounded to nearest with ties to even.
pub open spec fn count_bits(n: int) -> u64 {
    if n <= 0 {
        DISGUISE_BITS
    } else {
        let e = floor_log2(n);
        let q = n * pow2((52 - e) as nat) + (DISGUISE_MANT as int) / (pow2((e + 2) as nat) as int);
        let r = DISGUISE_MANT % (pow2((e + 2) as nat) as u64);
        let half = pow2((e + 1) as nat) as int;
        let mant = if r > half || (r == half && q % 2 == 1) {
            q + 1
        } else {
            q
        };
        (((1023 + e) * 0x10_0000_0000_0000) + (mant - 0x10_0000_0000_0000)) as u64
    }
}

/// The count a stored 64-bit float decodes to: the floor of its value.
/// `None` stands for a value that is negative, not finite, or too large
/// for a count.
pub open spec fn count_of_bits(bits: u64) -> Option<int> {
    if bits >= 0x8000_0000_0000_0000 {
        None
    } else {
        let ef = bits as int / 0x10_0000_0000_0000;
        let m = bits as int % 0x10_0000_0000_0000;
        if ef < 1023 {
            Some(0)
        } else if ef >= 1054 {
            None
        } else {
            Some((0x10_0000_0000_0000 + m) / pow2((52 - (ef - 1023)) as nat) as int)
        }
    }
}

fn pow2_u64(k: u64) -> (r: u64)
    requires
        k <= 62,
    ensures
        r == pow2(k as nat),
        r >= 1,
{
    let mut r: u64 = 1;
    let mut i: u64 = 0;
    proof {
        vstd::arithmetic::power2::lemma2_to64();
        vstd::arithmetic::power2::lemma2_to64_rest();
    }
    while i < k
        invariant
            0 <= i <= k <= 62,
            r == pow2(i as nat),
        decreases k - i,
    {
        proof {
            vstd::arithmetic::power2::lemma2_to64();
            vstd::arithmetic::power2::lemma2_to64_rest();
            lemma_pow2_adds(i as nat, 1);
            lemma_pow2_strictly_increases((i + 1) as nat, 63);
        }
        r = r * 2;
        i = i + 1;
    }
    r
}

proof fn lemma_count_mant_bounds(n: int, e: int)
    requires
        1 <= n < 0x8000_0000,
        e == floor_log2(n),
    ensures
        0 <= e <= 30,
        pow2((52 - e) as nat) * pow2((e + 2) as nat) == pow2(54),
        n * pow2((52 - e) as nat) >= pow2(52),
        n * pow2((52 - e) as nat) + pow2((52 - e) as nat) <= pow2(53),
        (DISGUISE_MANT as int) / (pow2((e + 2) as nat) as int) + 1 < pow2((52 - e) as nat),
{
    vstd::arithmetic::power2::lemma2_to64();
        vstd::arithmetic::power2::lemma2_to64_rest();
    lemma_floor_log2(n);
    if e > 30 {
        lemma_pow2_strictly_increases(31, e as nat);
        assert(false);
    }
    lemma_pow2_adds((52 - e) as nat, (e + 2) as nat);
    lemma_pow2_adds(e as nat, (52 - e) as nat);
    lemma_pow2_adds((e + 1) as nat, (52 - e) as nat);
    lemma_pow2_pos((52 - e) as nat);
    lemma_pow2_pos((e + 2) as nat);
    assert(n * pow2((52 - e) as nat) >= pow2(e as nat) * pow2((52 - e) as nat)) by {
        lemma_mul_inequality(pow2(e as nat) as int, n, pow2((52 - e) as nat) as int);
    }
    assert(n + 1 <= pow2((e + 1) as nat));
    assert((n + 1) * pow2((52 - e) as nat) <= pow2((e + 1) as nat) * pow2((52 - e) as nat)) by {
        lemma_mul_inequality(n + 1, pow2((e + 1) as nat) as int, pow2((52 - e) as nat) as int);
    }
    assert((n + 1) * pow2((52 - e) as nat) == n * pow2((52 - e) as nat) + pow2((52 - e) as nat))
        by {
        vstd::arithmetic::mul::lemma_mul_is_distributive_add_other_way(
            pow2((52 - e) as nat) as int,
            n,
            1,
        );
    }
    assert((DISGUISE_MANT as int) / (pow2((e + 2) as nat) as int) + 1 < pow2((52 - e) as nat)) by {
        lemma_pow2_adds((51 - e) as nat, (e + 2) as nat);
        assert(pow2((e + 2) as nat) as int * pow2((51 - e) as nat) as int == pow2(53) as int) by {
            lemma_pow2_adds((e + 2) as nat, (51 - e) as nat);
        }
        assert(DISGUISE_MANT < pow2(53));
        lemma_multiply_divide_lt(
            DISGUISE_MANT as int,
            pow2((e + 2) as nat) as int,
            pow2((51 - e) as nat) as int,
        );
        lemma_pow2_strictly_increases((51 - e) as nat, (52 - e) as nat);
    }
}

/// Encodes a count as the disguised 64-bit float the format stores.
pub(crate) fn encode_count(n: u32) -> (r: u64)
    requires
        n < 0x8000_0000,
    ensures
        r == count_bits(n as int),
{
    if n == 0 {
        return DISGUISE_BITS;
    }
    proof {
        vstd::arithmetic::power2::lemma2_to64();
        vstd::arithmetic::power2::lemma2_to64_rest();
    }
    proof {
        lemma_floor_log2(n as int);
        if floor_log2(n as int) > 30 {
            lemma_pow2_strictly_increases(31, floor_log2(n as int) as nat);
            assert(false);
        }
    }
    let mut e: u32 = 0;
    let mut t: u32 = n;
    while t >= 2
        invariant
            1 <= t,
            0 <= e,
            floor_log2(n as int) <= 30,
            floor_log2(n as int) == e + floor_log2(t as int),
        decreases t,
    {
        proof {
            lemma_floor_log2(t as int / 2);
        }
        t = t / 2;
        e = e + 1;
    }
    proof {
        assert(floor_log2(t as int) == 0);
        lemma_count_mant_bounds(n as int, e as int);
    }
    let p52e = pow2_u64(52 - (e as u64));
    let ps = pow2_u64((e as u64) + 2);
    proof {
        assert((n as u64) * p52e + p52e <= pow2(53));
        assert((DISGUISE_MANT as int) / (ps as int) + 1 < p52e) by {
            assert((DISGUISE_MANT as int) / (pow2((e + 2) as nat) as int) + 1 < pow2(
                (52 - e) as nat,
            ));
        }
        assert(pow2(53) == 0x20_0000_0000_0000) by {
            vstd::arithmetic::power2::lemma2_to64();
            vstd::arithmetic::power2::lemma2_to64_rest();
        }
    }
    let q = (n as u64) * p52e + DISGUISE_MANT / ps;
    let r = DISGUISE_MANT % ps;
    let half = ps / 2;
    proof {
        lemma_pow2_adds((e + 1) as nat, 1);
        assert(half == pow2((e + 1) as nat));
    }
    let mant = if r > half || (r == half && q % 2 == 1) {
        q + 1
    } else {
        q
    };
    proof {
        assert(pow2(52) == 0x10_0000_0000_0000 && pow2(53) == 0x20_0000_0000_0000) by {
            vstd::arithmetic::power2::lemma2_to64();
        vstd::arithmetic::power2::lemma2_to64_rest();
        }
    }
    ((1023 + (e as u64)) * 0x10_0000_0000_0000) + (mant - 0x10_0000_0000_0000)
}

/// Decodes a stored count: the floor of the 64-bit float, rejecting
/// negative, non-finite and too-large values.
pub(crate) fn decode_count(bits: u64) -> (r: Option<u32>)
    ensures
        match r {
            Some(c) => count_of_bits(bits) == Some(c as int) && c < 0x8000_0000,
            None => count_of_bits(bits) is None,
        },
{
    if bits >= 0x8000_0000_0000_0000 {
        return None;
    }
    let ef = bits / 0x10_0000_0000_0000;
    let m = bits % 0x10_0000_0000_0000;
    if ef < 1023 {
        return Some(0);
    }
    if ef >= 1054 {
        return None;
    }
    let e = ef - 1023;
    let d = pow2_u64(52 - e);
    let num: u64 = 0x10_0000_0000_0000 + m;
    let c = num / d;
    proof {
        vstd::arithmetic::power2::lemma2_to64();
        vstd::arithmetic::power2::lemma2_to64_rest();
        lemma_pow2_pos((52 - e) as nat);
        lemma_pow2_adds((e + 1) as nat, (52 - e) as nat);
        assert(num < pow2(53));
        assert(pow2((e + 1) as nat) <= pow2(31)) by {
            if e + 1 < 31 {
                lemma_pow2_strictly_increases((e + 1) as nat, 31);
            }
        }
        assert(d as int * pow2((e + 1) as nat) as int == pow2(53) as int) by {
            lemma_pow2_adds((52 - e) as nat, (e + 1) as nat);
        }
        lemma_multiply_divide_lt(num as int, d as int, pow2((e + 1) as nat) as int);
    }
    Some(c as u32)
}

/// Decoding an encoded count gives the count back, for every count that
/// fits a 32-bit signed integer.
pub proof fn lemma_count_round_trip(n: int)
    requires
        0 <= n < 0x8000_0000,
    ensures
        count_of_bits(count_bits(n)) == Some(n),
{
    vstd::arithmetic::power2::lemma2_to64();
        vstd::arithmetic::power2::lemma2_to64_rest();
    if n == 0 {
        assert(count_of_bits(DISGUISE_BITS) == Some(0int));
    } else {
        let e = floor_log2(n);
        lemma_count_mant_bounds(n, e);
        lemma_pow2_pos((52 - e) as nat);
        lemma_pow2_pos((e + 2) as nat);
        let q = n * pow2((52 - e) as nat) + (DISGUISE_MANT as int) / (pow2((e + 2) as nat) as int);
        let r = DISGUISE_MANT % (pow2((e + 2) as nat) as u64);
        let half = pow2((e + 1) as nat) as int;
        let mant = if r > half || (r == half && q % 2 == 1) {
            q + 1
        } else {
            q
        };
        assert(pow2(52) <= mant < pow2(53));
        let bits = count_bits(n);
        assert(bits == (1023 + e) * 0x10_0000_0000_0000 + (mant - 0x10_0000_0000_0000));
        assert(bits < 0x8000_0000_0000_0000);
        lemma_fundamental_div_mod_converse(
            bits as int,
            0x10_0000_0000_0000,
            1023 + e,
            mant - 0x10_0000_0000_0000,
        );
        assert(bits as int / 0x10_0000_0000_0000 == 1023 + e);
        assert(bits as int % 0x10_0000_0000_0000 == mant - 0x10_0000_0000_0000);
        let dd = pow2((52 - e) as nat) as int;
        assert(mant == n * dd + (mant - n * dd));
        assert(0 <= mant - n * dd < dd);
        lemma_fundamental_div_mod_converse(mant, dd, n, mant - n * dd);
        assert(count_of_bits(bits) == Some(mant / dd));
    }
}



/// End-of-data marker.
pub const EOD: u32 = 0x0067103A;

/// End-of-file marker.
pub const LEV_EOF: u32 = 0x00845D52;

/// Level file format version.
#[derive(Debug, PartialEq, Clone, Copy)]
pub enum Version {
    /// An Elasto Mania level, magic `POT14`. The only version written.
    Elma,
    /// An Across level, magic `POT06`. Rejected on load.
    Across,
}

/// A polygon of the level: grass flag and its vertices in order. Vertex
/// coordinates are 64-bit floats on disk, carried as their bit patterns.
#[derive(Debug, Default, PartialEq, Clone)]
pub struct Polygon {
    /// Grass polygon.
    pub grass: bool,
    /// Vertices, in the order the file stores them.
    pub vertices: Vec<Position<u64>>,
}

/// The fields of a polygon, with a sequence in place of the vector.
pub struct PolyData {
    /// Grass polygon.
    pub grass: bool,
    /// Vertices in order.
    pub vertices: Seq<Position<u64>>,
}

impl View for Polygon {
    type V = PolyData;

    open spec fn view(&self) -> PolyData {
        PolyData { grass: self.grass, vertices: self.vertices@ }
    }
}

/// Gravity direction of an apple.
#[derive(Debug, PartialEq, Clone, Copy)]
pub enum Direction {
    /// Normal gravity.
    Normal,
    /// Upwards.
    Up,
    /// Downwards.
    Down,
    /// To the left.
    Left,
    /// To the right.
    Right,
}

/// Type of a level object.
#[derive(Debug, PartialEq, Clone, Copy)]
pub enum ObjectType {
    /// Flower: the level's exit.
    Exit,
    /// Apple, with its gravity effect and animation number.
    Apple {
        /// Gravity change when taken.
        gravity: Direction,
        /// Animation number.
        animation: i32,
    },
    /// Killer object.
    Killer,
    /// Player start position.
    Player,
}

/// A level object. Coordinates are 64-bit floats on disk, carried as bit
/// patterns.
#[derive(Debug, PartialEq, Clone, Copy)]
pub struct Object {
    /// Position of the object.
    pub position: Position<u64>,
    /// What the object is.
    pub object_type: ObjectType,
}

/// Clipping of a picture.
#[derive(Debug, PartialEq, Clone, Copy)]
pub enum Clip {
    /// Not clipped.
    Unclipped,
    /// Clipped to the ground.
    Ground,
    /// Clipped to the sky.
    Sky,
}

/// A picture placed in the level: either a plain picture `name`, or a
/// `texture` and `mask` pair.
#[derive(Debug, PartialEq, Clone)]
pub struct Picture {
    /// Picture name, empty for a texture.
    pub name: String,
    /// Texture name, empty for a plain picture.
    pub texture: String,
    /// Mask name for a texture, empty for a plain picture.
    pub mask: String,
    /// Position, as bit patterns of two 64-bit floats.
    pub position: Position<u64>,
    /// Z-ordering distance, 1 to 999.
    pub distance: i32,
    /// Clipping.
    pub clip: Clip,
}

/// The fields of a picture, with sequences in place of strings.
pub struct PictData {
    /// Picture name.
    pub name: Seq<char>,
    /// Texture name.
    pub texture: Seq<char>,
    /// Mask name.
    pub mask: Seq<char>,
    /// Position.
    pub position: Position<u64>,
    /// Z-ordering distance.
    pub distance: i32,
    /// Clipping.
    pub clip: Clip,
}

impl View for Picture {
    type V = PictData;

    open spec fn view(&self) -> PictData {
        PictData {
            name: self.name@,
            texture: self.texture@,
            mask: self.mask@,
            position: self.position,
            distance: self.distance,
            clip: self.clip,
        }
    }
}

/// One entry of a top-10 best times table.
#[derive(Debug, Default, PartialEq, Clone)]
pub struct Top10Entry {
    /// Time in hundredths of a second.
    pub time: i32,
    /// First player's name.
    pub player1_name: String,
    /// Second player's name, empty in the single-player table.
    pub player2_name: String,
}

/// The fields of a top-10 entry, with sequences in place of strings.
pub struct EntryData {
    /// Time in hundredths of a second.
    pub time: i32,
    /// First player's name.
    pub player1_name: Seq<char>,
    /// Second player's name.
    pub player2_name: Seq<char>,
}

impl View for Top10Entry {
    type V = EntryData;

    open spec fn view(&self) -> EntryData {
        EntryData {
            time: self.time,
            player1_name: self.player1_name@,
            player2_name: self.player2_name@,
        }
    }
}

/// A level file: header, geometry, objects, pictures and the two top-10
/// tables. Floating-point fields are carried as their bit patterns.
#[derive(Debug, PartialEq, Clone)]
pub struct Level {
    /// Format version. Only `Elma` can be written.
    pub version: Version,
    /// Random number linking the level to replays recorded on it.
    pub link: u32,
    /// Four integrity sums, as bit patterns of 64-bit floats. They are
    /// carried through unchanged; this library does not recompute them.
    pub integrity: [u64; 4],
    /// Level name.
    pub name: String,
    /// LGR (graphics pack) name.
    pub lgr: String,
    /// Ground texture name.
    pub ground: String,
    /// Sky texture name.
    pub sky: String,
    /// Polygons of the level.
    pub polygons: Vec<Polygon>,
    /// Objects of the level.
    pub objects: Vec<Object>,
    /// Pictures of the level.
    pub pictures: Vec<Picture>,
    /// Single-player best times.
    pub top10_single: Vec<Top10Entry>,
    /// Multi-player best times.
    pub top10_multi: Vec<Top10Entry>,
}

/// The fields of a level, with sequences in place of vectors and strings.
pub struct LevData {
    /// Format version.
    pub version: Version,
    /// Link number.
    pub link: u32,
    /// Four integrity sums as bit patterns.
    pub integrity: Seq<u64>,
    /// Level name.
    pub name: Seq<char>,
    /// LGR name.
    pub lgr: Seq<char>,
    /// Ground texture name.
    pub ground: Seq<char>,
    /// Sky texture name.
    pub sky: Seq<char>,
    /// Polygons.
    pub polygons: Seq<PolyData>,
    /// Objects.
    pub objects: Seq<Object>,
    /// Pictures.
    pub pictures: Seq<PictData>,
    /// Single-player best times.
    pub top10_single: Seq<EntryData>,
    /// Multi-player best times.
    pub top10_multi: Seq<EntryData>,
}

impl View for Level {
    type V = LevData;

    open spec fn view(&self) -> LevData {
        LevData {
            version: self.version,
            link: self.link,
            integrity: self.integrity@,
            name: self.name@,
            lgr: self.lgr@,
            ground: self.ground@,
            sky: self.sky@,
            polygons: Seq::new(self.polygons@.len(), |i: int| self.polygons@[i]@),
            objects: self.objects@,
            pictures: Seq::new(self.pictures@.len(), |i: int| self.pictures@[i]@),
            top10_single: Seq::new(self.top10_single@.len(), |i: int| self.top10_single@[i]@),
            top10_multi: Seq::new(self.top10_multi@.len(), |i: int| self.top10_multi@[i]@),
        }
    }
}

/// The signed 32-bit value whose bit pattern is `x`.
pub open spec fn i32_of_u32(x: u32) -> i32 {
    if x < 0x8000_0000 {
        x as i32
    } else {
        (x - 0x1_0000_0000) as i32
    }
}

/// The bit pattern of `v` as an unsigned 32-bit value.
pub open spec fn u32_of_i32(v: i32) -> u32 {
    if v >= 0 {
        v as u32
    } else {
        (v + 0x1_0000_0000) as u32
    }
}

pub(crate) fn to_i32(x: u32) -> (r: i32)
    ensures
        r == i32_of_u32(x),
{
    if x < 0x8000_0000 {
        x as i32
    } else {
        let d = 0xFFFF_FFFF - x;
        -(d as i32) - 1
    }
}

pub(crate) fn from_i32(v: i32) -> (r: u32)
    ensures
        r == u32_of_i32(v),
{
    if v >= 0 {
        v as u32
    } else {
        let d = -(v + 1);
        0xFFFF_FFFF - (d as u32)
    }
}

/// The five magic bytes `POT14` of an Elasto Mania level.
pub open spec fn pot14_bytes() -> Seq<u8> {
    seq![80u8, 79u8, 84u8, 49u8, 52u8]
}

/// The five magic bytes `POT06` of an Across level.
pub open spec fn pot06_bytes() -> Seq<u8> {
    seq![80u8, 79u8, 84u8, 48u8, 54u8]
}

/// The sixteen bytes of one vertex: two little-endian 64-bit floats.
pub open spec fn ser_vert(p: Position<u64>) -> Seq<u8> {
    le64_bytes(p.x) + le64_bytes(p.y)
}

/// The vertex area of a polygon.
pub open spec fn ser_verts(vs: Seq<Position<u64>>) -> Seq<u8> {
    Seq::new((16 * vs.len()) as nat, |o: int| ser_vert(vs[o / 16])[o % 16])
}

/// The bytes of one polygon: grass flag, vertex count, vertices.
pub open spec fn ser_poly(p: PolyData) -> Seq<u8> {
    le32_bytes(
        if p.grass {
            1u32
        } else {
            0u32
        },
    ) + le32_bytes(p.vertices.len() as u32) + ser_verts(p.vertices)
}

/// The bytes of the polygon list, in order.
pub open spec fn ser_polys(ps: Seq<PolyData>) -> Seq<u8>
    decreases ps.len(),
{
    if ps.len() == 0 {
        Seq::empty()
    } else {
        ser_poly(ps.first()) + ser_polys(ps.drop_first())
    }
}

/// The wire code of an object type.
pub open spec fn obj_type_code(t: ObjectType) -> u32 {
    match t {
        ObjectType::Exit => 1u32,
        ObjectType::Apple { .. } => 2u32,
        ObjectType::Killer => 3u32,
        ObjectType::Player => 4u32,
    }
}

/// The wire code of an object's gravity (0 outside apples).
pub open spec fn obj_gravity_code(t: ObjectType) -> u32 {
    match t {
        ObjectType::Apple { gravity, .. } => match gravity {
            Direction::Normal => 0u32,
            Direction::Up => 1u32,
            Direction::Down => 2u32,
            Direction::Left => 3u32,
            Direction::Right => 4u32,
        },
        _ => 0u32,
    }
}

/// The animation number written for an object (1 outside apples).
pub open spec fn obj_animation(t: ObjectType) -> i32 {
    match t {
        ObjectType::Apple { animation, .. } => animation,
        _ => 1i32,
    }
}

/// The 28 bytes of one object: position, type, gravity, animation.
pub open spec fn ser_obj(ob: Object) -> Seq<u8> {
    le64_bytes(ob.position.x) + le64_bytes(ob.position.y) + le32_bytes(obj_type_code(ob.object_type))
        + le32_bytes(obj_gravity_code(ob.object_type)) + le32_bytes(
        u32_of_i32(obj_animation(ob.object_type)),
    )
}

/// The object area: 28 bytes for each object in order.
pub open spec fn ser_objs(os: Seq<Object>) -> Seq<u8> {
    Seq::new((28 * os.len()) as nat, |o: int| ser_obj(os[o / 28])[o % 28])
}

/// The wire code of a picture clipping.
pub open spec fn clip_code(c: Clip) -> u32 {
    match c {
        Clip::Unclipped => 0u32,
        Clip::Ground => 1u32,
        Clip::Sky => 2u32,
    }
}

/// The 54 bytes of one picture: three 10-byte names, position, distance,
/// clipping.
pub open spec fn ser_pict(p: PictData) -> Seq<u8> {
    pad_spec(p.name, 10)->Ok_0 + pad_spec(p.texture, 10)->Ok_0 + pad_spec(p.mask, 10)->Ok_0
        + le64_bytes(p.position.x) + le64_bytes(p.position.y) + le32_bytes(u32_of_i32(p.distance))
        + le32_bytes(clip_code(p.clip))
}

/// The picture area: 54 bytes for each picture in order.
pub open spec fn ser_picts(ps: Seq<PictData>) -> Seq<u8> {
    Seq::new((54 * ps.len()) as nat, |o: int| ser_pict(ps[o / 54])[o % 54])
}

/// The plain (not yet obfuscated) 688-byte top-10 block: entry count, ten
/// time slots, ten 15-byte slots for each name column, unused space
/// zero-filled.
pub open spec fn top10_block_plain(es: Seq<EntryData>) -> Seq<u8> {
    le32_bytes(es.len() as u32) + Seq::new(
        40,
        |o: int|
            if o / 4 < es.len() {
                le32_bytes(u32_of_i32(es[o / 4].time))[o % 4]
            } else {
                0u8
            },
    ) + Seq::new(
        150,
        |o: int|
            if o / 15 < es.len() {
                (pad_spec(es[o / 15].player1_name, 15)->Ok_0)[o % 15]
            } else {
                0u8
            },
    ) + Seq::new(
        150,
        |o: int|
            if o / 15 < es.len() {
                (pad_spec(es[o / 15].player2_name, 15)->Ok_0)[o % 15]
            } else {
                0u8
            },
    ) + Seq::new(344, |o: int| 0u8)
}

/// The whole byte image of a level file.
pub open spec fn ser_lev(v: LevData) -> Seq<u8> {
    pot14_bytes() + seq![0u8, 0u8] + le32_bytes(v.link) + le64_bytes(v.integrity[0]) + le64_bytes(
        v.integrity[1],
    ) + le64_bytes(v.integrity[2]) + le64_bytes(v.integrity[3]) + pad_spec(v.name, 51)->Ok_0
        + pad_spec(v.lgr, 16)->Ok_0 + pad_spec(v.ground, 10)->Ok_0 + pad_spec(v.sky, 10)->Ok_0
        + le64_bytes(count_bits(v.polygons.len() as int)) + ser_polys(v.polygons) + le64_bytes(
        count_bits(v.objects.len() as int),
    ) + ser_objs(v.objects) + le64_bytes(count_bits(v.pictures.len() as int)) + ser_picts(
        v.pictures,
    ) + le32_bytes(EOD) + crypt_spec(top10_block_plain(v.top10_single)) + crypt_spec(
        top10_block_plain(v.top10_multi),
    ) + le32_bytes(LEV_EOF)
}

/// The first padding error among a picture list's name fields, if any.
pub open spec fn picts_pad_err(ps: Seq<PictData>) -> Option<ElmaError>
    decreases ps.len(),
{
    if ps.len() == 0 {
        None
    } else {
        let p = ps.first();
        if pad_spec(p.name, 10) is Err {
            Some(pad_spec(p.name, 10)->Err_0)
        } else if pad_spec(p.texture, 10) is Err {
            Some(pad_spec(p.texture, 10)->Err_0)
        } else if pad_spec(p.mask, 10) is Err {
            Some(pad_spec(p.mask, 10)->Err_0)
        } else {
            picts_pad_err(ps.drop_first())
        }
    }
}

/// The first padding error among a top-10 table's name fields, if any.
pub open spec fn entries_pad_err(es: Seq<EntryData>) -> Option<ElmaError>
    decreases es.len(),
{
    if es.len() == 0 {
        None
    } else {
        let en = es.first();
        if pad_spec(en.player1_name, 15) is Err {
            Some(pad_spec(en.player1_name, 15)->Err_0)
        } else if pad_spec(en.player2_name, 15) is Err {
            Some(pad_spec(en.player2_name, 15)->Err_0)
        } else {
            entries_pad_err(es.drop_first())
        }
    }
}

/// What saving a level returns: the byte image, or the first error in
/// write order — an Across version, then each fixed-width string that is
/// not ASCII or does not fit its field.
pub open spec fn lev_save_spec(v: LevData) -> Result<Seq<u8>, ElmaError> {
    if v.version != Version::Elma {
        Err(ElmaError::AcrossUnsupported)
    } else if pad_spec(v.name, 51) is Err {
        Err(pad_spec(v.name, 51)->Err_0)
    } else if pad_spec(v.lgr, 16) is Err {
        Err(pad_spec(v.lgr, 16)->Err_0)
    } else if pad_spec(v.ground, 10) is Err {
        Err(pad_spec(v.ground, 10)->Err_0)
    } else if pad_spec(v.sky, 10) is Err {
        Err(pad_spec(v.sky, 10)->Err_0)
    } else if picts_pad_err(v.pictures) is Some {
        Err(picts_pad_err(v.pictures)->0)
    } else if entries_pad_err(v.top10_single) is Some {
        Err(entries_pad_err(v.top10_single)->0)
    } else if entries_pad_err(v.top10_multi) is Some {
        Err(entries_pad_err(v.top10_multi)->0)
    } else {
        Ok(ser_lev(v))
    }
}

/// The truncated remainder by 0xD3D that the game computes on a signed
/// 16-bit register, expressed on the register's unsigned bit pattern.
pub open spec fn cipher_rem(x: u16) -> u16 {
    if x < 0x8000 {
        (x % 0xD3D) as u16
    } else {
        let r = (0x1_0000 - x) % 0xD3D;
        if r == 0 {
            0u16
        } else {
            (0x1_0000 - r) as u16
        }
    }
}

/// One step of the obfuscation state recurrence.
pub open spec fn cipher_next(e8: u16, e10: u16) -> (u16, u16) {
    let n10 = (((e10 + (cipher_rem(e8) * 0xD3D) % 0x1_0000) % 0x1_0000) as u16);
    let n8 = (((0xD3D + (n10 * 0x1F) % 0x1_0000) % 0x1_0000) as u16);
    (n8, n10)
}

/// The state pair before byte `i` is processed.
pub open spec fn cipher_state(i: int) -> (u16, u16)
    decreases i,
{
    if i <= 0 {
        (0x15u16, 0x2637u16)
    } else {
        let s = cipher_state(i - 1);
        cipher_next(s.0, s.1)
    }
}

/// The key byte XOR-ed onto byte `i`.
pub open spec fn keystream(i: int) -> u8 {
    (cipher_state(i).0 % 0x100) as u8
}

/// What [`crypt_top10`] returns: the first 688 bytes XOR-ed with the
/// keystream, any bytes beyond that unchanged.
pub open spec fn crypt_spec(b: Seq<u8>) -> Seq<u8> {
    Seq::new(
        b.len(),
        |i: int|
            if i < 688 {
                b[i] ^ keystream(i)
            } else {
                b[i]
            },
    )
}

proof fn lemma_verts_step(vs: Seq<Position<u64>>, j: int)
    requires
        0 <= j < vs.len(),
    ensures
        ser_verts(vs).subrange(16 * j, 16 * j + 16) =~= ser_vert(vs[j]),
        ser_verts(vs).take(16 * j + 16) =~= ser_verts(vs).take(16 * j) + ser_vert(vs[j]),
{
    assert forall|k: int| 0 <= k < 16 implies ser_verts(vs)[16 * j + k] == ser_vert(vs[j])[k] by {
        lemma_fundamental_div_mod_converse(16 * j + k, 16, j, k);
    }
}

proof fn lemma_objs_step(os: Seq<Object>, j: int)
    requires
        0 <= j < os.len(),
    ensures
        ser_objs(os).subrange(28 * j, 28 * j + 28) =~= ser_obj(os[j]),
        ser_objs(os).take(28 * j + 28) =~= ser_objs(os).take(28 * j) + ser_obj(os[j]),
{
    assert(ser_obj(os[j]).len() == 28);
    assert forall|k: int| 0 <= k < 28 implies ser_objs(os)[28 * j + k] == ser_obj(os[j])[k] by {
        lemma_fundamental_div_mod_converse(28 * j + k, 28, j, k);
    }
}

proof fn lemma_picts_step(ps: Seq<PictData>, j: int)
    requires
        0 <= j < ps.len(),
        pad_spec(ps[j].name, 10) is Ok,
        pad_spec(ps[j].texture, 10) is Ok,
        pad_spec(ps[j].mask, 10) is Ok,
    ensures
        ser_picts(ps).subrange(54 * j, 54 * j + 54) =~= ser_pict(ps[j]),
        ser_picts(ps).take(54 * j + 54) =~= ser_picts(ps).take(54 * j) + ser_pict(ps[j]),
{
    assert(ser_pict(ps[j]).len() == 54);
    assert forall|k: int| 0 <= k < 54 implies ser_picts(ps)[54 * j + k] == ser_pict(ps[j])[k] by {
        lemma_fundamental_div_mod_converse(54 * j + k, 54, j, k);
    }
}

proof fn lemma_ser_polys_take(ps: Seq<PolyData>, i: int)
    requires
        0 <= i < ps.len(),
    ensures
        ser_polys(ps.take(i + 1)) =~= ser_polys(ps.take(i)) + ser_poly(ps[i]),
    decreases i,
{
    if i == 0 {
        assert(ps.take(1).first() == ps[0]);
        assert(ps.take(1).drop_first() =~= ps.take(0));
        assert(ser_polys(ps.take(0)) =~= Seq::<u8>::empty());
        assert(ser_polys(ps.take(1)) == ser_poly(ps.take(1).first()) + ser_polys(
            ps.take(1).drop_first(),
        ));
    } else {
        lemma_ser_polys_take(ps.drop_first(), i - 1);
        assert(ps.take(i + 1).first() == ps[0]);
        assert(ps.take(i + 1).drop_first() =~= ps.drop_first().take(i));
        assert(ps.take(i).first() == ps[0]);
        assert(ps.take(i).drop_first() =~= ps.drop_first().take(i - 1));
        assert(ps.drop_first()[i - 1] == ps[i]);
        assert(ser_polys(ps.take(i + 1)) == ser_poly(ps[0]) + ser_polys(ps.drop_first().take(i)));
        assert(ser_polys(ps.take(i)) == ser_poly(ps[0]) + ser_polys(ps.drop_first().take(i - 1)));
        assert(ser_poly(ps[0]) + (ser_polys(ps.drop_first().take(i - 1)) + ser_poly(ps[i])) =~= (
        ser_poly(ps[0]) + ser_polys(ps.drop_first().take(i - 1))) + ser_poly(ps[i]));
    }
}

fn write_verts(out: &mut Vec<u8>, vs: &Vec<Position<u64>>)
    ensures
        final(out)@ == old(out)@ + ser_verts(vs@),
{
    let ghost base = out@;
    let n = vs.len();
    let mut j: usize = 0;
    while j < n
        invariant
            0 <= j <= n,
            n == vs@.len(),
            out@ =~= base + ser_verts(vs@).take(16 * j),
        decreases n - j,
    {
        let v = vs[j];
        push_u64(out, v.x);
        push_u64(out, v.y);
        proof {
            lemma_verts_step(vs@, j as int);
        }
        j = j + 1;
    }
    proof {
        assert(out@ =~= base + ser_verts(vs@));
    }
}

fn write_polys(out: &mut Vec<u8>, ps: &Vec<Polygon>)
    requires
        forall|i: int| 0 <= i < ps@.len() ==> (#[trigger] ps@[i]).vertices@.len() < 0x8000_0000,
    ensures
        final(out)@ == old(out)@ + ser_polys(Seq::new(ps@.len(), |i: int| ps@[i]@)),
{
    let ghost pd = Seq::new(ps@.len(), |i: int| ps@[i]@);
    let ghost base = out@;
    let n = ps.len();
    let mut i: usize = 0;
    while i < n
        invariant
            0 <= i <= n,
            n == ps@.len(),
            pd == Seq::new(ps@.len(), |k: int| ps@[k]@),
            forall|k: int| 0 <= k < ps@.len() ==> (#[trigger] ps@[k]).vertices@.len() < 0x8000_0000,
            out@ =~= base + ser_polys(pd.take(i as int)),
        decreases n - i,
    {
        let p = &ps[i];
        push_u32(out, if p.grass { 1 } else { 0 });
        push_u32(out, p.vertices.len() as u32);
        write_verts(out, &p.vertices);
        proof {
            lemma_ser_polys_take(pd, i as int);
            assert(out@ =~= base + ser_polys(pd.take(i + 1)));
        }
        i = i + 1;
    }
    proof {
        assert(pd.take(n as int) =~= pd);
    }
}

fn write_objs(out: &mut Vec<u8>, os: &Vec<Object>)
    ensures
        final(out)@ == old(out)@ + ser_objs(os@),
{
    let ghost base = out@;
    let n = os.len();
    let mut j: usize = 0;
    while j < n
        invariant
            0 <= j <= n,
            n == os@.len(),
            out@ =~= base + ser_objs(os@).take(28 * j),
        decreases n - j,
    {
        let ob = os[j];
        push_u64(out, ob.position.x);
        push_u64(out, ob.position.y);
        let (tc, gc, anim): (u32, u32, i32) = match ob.object_type {
            ObjectType::Exit => (1, 0, 1),
            ObjectType::Apple { gravity, animation } => {
                let g: u32 = match gravity {
                    Direction::Normal => 0,
                    Direction::Up => 1,
                    Direction::Down => 2,
                    Direction::Left => 3,
                    Direction::Right => 4,
                };
                (2, g, animation)
            },
            ObjectType::Killer => (3, 0, 1),
            ObjectType::Player => (4, 0, 1),
        };
        push_u32(out, tc);
        push_u32(out, gc);
        push_u32(out, from_i32(anim));
        proof {
            lemma_objs_step(os@, j as int);
            assert(out@ =~= base + ser_objs(os@).take(28 * (j + 1)));
        }
        j = j + 1;
    }
    proof {
        assert(out@ =~= base + ser_objs(os@));
    }
}

fn write_picts(out: &mut Vec<u8>, ps: &Vec<Picture>) -> (r: Result<(), ElmaError>)
    ensures
        match r {
            Ok(_) => picts_pad_err(Seq::new(ps@.len(), |i: int| ps@[i]@)) is None && final(out)@
                == old(out)@ + ser_picts(Seq::new(ps@.len(), |i: int| ps@[i]@)),
            Err(e) => picts_pad_err(Seq::new(ps@.len(), |i: int| ps@[i]@)) == Some(e),
        },
{
    let ghost pd = Seq::new(ps@.len(), |i: int| ps@[i]@);
    let ghost base = out@;
    proof {
        assert(pd.skip(0) =~= pd);
    }
    let n = ps.len();
    let mut j: usize = 0;
    while j < n
        invariant
            0 <= j <= n,
            n == ps@.len(),
            pd == Seq::new(ps@.len(), |k: int| ps@[k]@),
            picts_pad_err(pd) == picts_pad_err(pd.skip(j as int)),
            forall|k: int|
                0 <= k < j ==> pad_spec((#[trigger] pd[k]).name, 10) is Ok && pad_spec(
                    pd[k].texture,
                    10,
                ) is Ok && pad_spec(pd[k].mask, 10) is Ok,
            out@ =~= base + ser_picts(pd).take(54 * j),
        decreases n - j,
    {
        let p = &ps[j];
        proof {
            assert(pd.skip(j as int).first() == pd[j as int]);
            assert(pd.skip(j as int).drop_first() =~= pd.skip(j + 1));
        }
        let mut nb = match crate::string_null_pad(p.name.as_str(), 10) {
            Ok(v) => v,
            Err(e) => {
                return Err(e);
            },
        };
        let mut tb = match crate::string_null_pad(p.texture.as_str(), 10) {
            Ok(v) => v,
            Err(e) => {
                return Err(e);
            },
        };
        let mut mb = match crate::string_null_pad(p.mask.as_str(), 10) {
            Ok(v) => v,
            Err(e) => {
                return Err(e);
            },
        };
        out.append(&mut nb);
        out.append(&mut tb);
        out.append(&mut mb);
        push_u64(out, p.position.x);
        push_u64(out, p.position.y);
        push_u32(out, from_i32(p.distance));
        let cc: u32 = match p.clip {
            Clip::Unclipped => 0,
            Clip::Ground => 1,
            Clip::Sky => 2,
        };
        push_u32(out, cc);
        proof {
            lemma_picts_step(pd, j as int);
            assert(out@ =~= base + ser_picts(pd).take(54 * (j + 1)));
        }
        j = j + 1;
    }
    proof {
        assert(pd.skip(n as int) =~= Seq::<PictData>::empty());
        assert(out@ =~= base + ser_picts(pd));
    }
    Ok(())
}

fn write_top10(out: &mut Vec<u8>, es: &Vec<Top10Entry>) -> (r: Result<(), ElmaError>)
    requires
        es@.len() <= 10,
    ensures
        match r {
            Ok(_) => entries_pad_err(Seq::new(es@.len(), |i: int| es@[i]@)) is None && final(out)@
                == old(out)@ + crypt_spec(
                top10_block_plain(Seq::new(es@.len(), |i: int| es@[i]@)),
            ),
            Err(e) => entries_pad_err(Seq::new(es@.len(), |i: int| es@[i]@)) == Some(e),
        },
{
    let ghost ed = Seq::new(es@.len(), |i: int| es@[i]@);
    let n = es.len();
    // Check all name fields first, so that an error leaves nothing written.
    let mut c: usize = 0;
    proof {
        assert(ed.skip(0) =~= ed);
    }
    while c < n
        invariant
            0 <= c <= n,
            n == es@.len() <= 10,
            ed == Seq::new(es@.len(), |i: int| es@[i]@),
            entries_pad_err(ed) == entries_pad_err(ed.skip(c as int)),
            forall|k: int|
                0 <= k < c ==> pad_spec((#[trigger] ed[k]).player1_name, 15) is Ok && pad_spec(
                    ed[k].player2_name,
                    15,
                ) is Ok,
        decreases n - c,
    {
        proof {
            assert(ed.skip(c as int).first() == ed[c as int]);
            assert(ed.skip(c as int).drop_first() =~= ed.skip(c + 1));
        }
        match crate::string_null_pad(es[c].player1_name.as_str(), 15) {
            Ok(_) => (),
            Err(e) => {
                return Err(e);
            },
        }
        match crate::string_null_pad(es[c].player2_name.as_str(), 15) {
            Ok(_) => (),
            Err(e) => {
                return Err(e);
            },
        }
        c = c + 1;
    }
    proof {
        assert(ed.skip(n as int) =~= Seq::<EntryData>::empty());
    }
    let ghost times = Seq::new(
        40,
        |o: int|
            if o / 4 < ed.len() {
                le32_bytes(u32_of_i32(ed[o / 4].time))[o % 4]
            } else {
                0u8
            },
    );
    let ghost names1 = Seq::new(
        150,
        |o: int|
            if o / 15 < ed.len() {
                (pad_spec(ed[o / 15].player1_name, 15)->Ok_0)[o % 15]
            } else {
                0u8
            },
    );
    let ghost names2 = Seq::new(
        150,
        |o: int|
            if o / 15 < ed.len() {
                (pad_spec(ed[o / 15].player2_name, 15)->Ok_0)[o % 15]
            } else {
                0u8
            },
    );
    let mut plain: Vec<u8> = Vec::new();
    push_u32(&mut plain, n as u32);
    let ghost p4 = plain@;
    let mut j: usize = 0;
    while j < 10
        invariant
            0 <= j <= 10,
            n == es@.len() <= 10,
            ed == Seq::new(es@.len(), |i: int| es@[i]@),
            times == Seq::new(
                40,
                |o: int|
                    if o / 4 < ed.len() {
                        le32_bytes(u32_of_i32(ed[o / 4].time))[o % 4]
                    } else {
                        0u8
                    },
            ),
            plain@ =~= p4 + times.take(4 * j),
        decreases 10 - j,
    {
        if j < n {
            push_u32(&mut plain, from_i32(es[j].time));
        } else {
            push_u32(&mut plain, 0);
        }
        proof {
            assert forall|k: int| 0 <= k < 4 implies (#[trigger] times[4 * j + k]) == plain@[p4.len()
                + 4 * j + k] by {
                lemma_fundamental_div_mod_converse(4 * j + k, 4, j as int, k);
            }
            assert(plain@ =~= p4 + times.take(4 * (j + 1)));
        }
        j = j + 1;
    }
    let ghost p44 = plain@;
    let mut j1: usize = 0;
    while j1 < 10
        invariant
            0 <= j1 <= 10,
            n == es@.len() <= 10,
            ed == Seq::new(es@.len(), |i: int| es@[i]@),
            forall|k: int|
                0 <= k < n ==> pad_spec((#[trigger] ed[k]).player1_name, 15) is Ok && pad_spec(
                    ed[k].player2_name,
                    15,
                ) is Ok,
            names1 == Seq::new(
                150,
                |o: int|
                    if o / 15 < ed.len() {
                        (pad_spec(ed[o / 15].player1_name, 15)->Ok_0)[o % 15]
                    } else {
                        0u8
                    },
            ),
            plain@ =~= p44 + names1.take(15 * j1),
        decreases 10 - j1,
    {
        if j1 < n {
            let mut nb = match crate::string_null_pad(es[j1].player1_name.as_str(), 15) {
                Ok(v) => v,
                Err(_) => {
                    proof {
                        assert(pad_spec(ed[j1 as int].player1_name, 15) is Ok);
                        assert(ed[j1 as int].player1_name == es@[j1 as int].player1_name@);
                        assert(false);
                    }
                    Vec::new()
                },
            };
            plain.append(&mut nb);
        } else {
            let mut zb = vec![0u8; 15];
            plain.append(&mut zb);
        }
        proof {
            assert forall|k: int| 0 <= k < 15 implies (#[trigger] names1[15 * j1 + k]) == plain@[
                p44.len() + 15 * j1 + k] by {
                lemma_fundamental_div_mod_converse(15 * j1 + k, 15, j1 as int, k);
            }
            assert(plain@ =~= p44 + names1.take(15 * (j1 + 1)));
        }
        j1 = j1 + 1;
    }
    let ghost p194 = plain@;
    let mut j2: usize = 0;
    while j2 < 10
        invariant
            0 <= j2 <= 10,
            n == es@.len() <= 10,
            ed == Seq::new(es@.len(), |i: int| es@[i]@),
            forall|k: int|
                0 <= k < n ==> pad_spec((#[trigger] ed[k]).player1_name, 15) is Ok && pad_spec(
                    ed[k].player2_name,
                    15,
                ) is Ok,
            names2 == Seq::new(
                150,
                |o: int|
                    if o / 15 < ed.len() {
                        (pad_spec(ed[o / 15].player2_name, 15)->Ok_0)[o % 15]
                    } else {
                        0u8
                    },
            ),
            plain@ =~= p194 + names2.take(15 * j2),
        decreases 10 - j2,
    {
        if j2 < n {
            let mut nb = match crate::string_null_pad(es[j2].player2_name.as_str(), 15) {
                Ok(v) => v,
                Err(_) => {
                    proof {
                        assert(pad_spec(ed[j2 as int].player2_name, 15) is Ok);
                        assert(ed[j2 as int].player2_name == es@[j2 as int].player2_name@);
                        assert(false);
                    }
                    Vec::new()
                },
            };
            plain.append(&mut nb);
        } else {
            let mut zb = vec![0u8; 15];
            plain.append(&mut zb);
        }
        proof {
            assert forall|k: int| 0 <= k < 15 implies (#[trigger] names2[15 * j2 + k]) == plain@[
                p194.len() + 15 * j2 + k] by {
                lemma_fundamental_div_mod_converse(15 * j2 + k, 15, j2 as int, k);
            }
            assert(plain@ =~= p194 + names2.take(15 * (j2 + 1)));
        }
        j2 = j2 + 1;
    }
    let mut zeros = vec![0u8; 344];
    plain.append(&mut zeros);
    proof {
        assert(plain@ =~= top10_block_plain(ed));
    }
    let mut enc = crypt_top10(plain.as_slice());
    out.append(&mut enc);
    Ok(())
}

/// The vertices of a polygon, read from the bytes at `off`.
pub open spec fn parse_verts(b: Seq<u8>, off: int, n: int) -> Seq<Position<u64>> {
    Seq::new(n as nat, |j: int| Position { x: le64(b, off + 16 * j), y: le64(b, off + 16 * j + 8) })
}

/// The polygon list read from `off`, with the offset behind it; `None`
/// stands for a truncated buffer.
pub open spec fn parse_polys_spec(b: Seq<u8>, off: int, n: int) -> Result<
    (Seq<PolyData>, int),
    Option<ElmaError>,
>
    decreases n,
{
    if n <= 0 {
        Ok((Seq::empty(), off))
    } else if off + 8 > b.len() {
        Err(None)
    } else {
        let grass = le32(b, off) != 0;
        let vc = le32(b, off + 4);
        if vc >= 0x8000_0000 {
            Err(None)
        } else if off + 8 + 16 * vc > b.len() {
            Err(None)
        } else {
            match parse_polys_spec(b, off + 8 + 16 * vc, n - 1) {
                Err(e) => Err(e),
                Ok(t) => Ok(
                    (
                        seq![PolyData { grass, vertices: parse_verts(b, off + 8, vc as int) }]
                            + t.0,
                        t.1,
                    ),
                ),
            }
        }
    }
}

/// The object at slot `j` of the object area at `off`, or its first
/// invalid field: the gravity is checked before the type, as the fields
/// are read.
pub open spec fn obj_at(b: Seq<u8>, off: int, j: int) -> Result<Object, ElmaError> {
    let p = off + 28 * j;
    let position = Position { x: le64(b, p), y: le64(b, p + 8) };
    let ty = le32(b, p + 16);
    let gr = le32(b, p + 20);
    let an = i32_of_u32(le32(b, p + 24));
    if gr >= 5 {
        Err(ElmaError::InvalidGravity(i32_of_u32(gr)))
    } else {
        let gravity = if gr == 0 {
            Direction::Normal
        } else if gr == 1 {
            Direction::Up
        } else if gr == 2 {
            Direction::Down
        } else if gr == 3 {
            Direction::Left
        } else {
            Direction::Right
        };
        if ty == 1 {
            Ok(Object { position, object_type: ObjectType::Exit })
        } else if ty == 2 {
            Ok(Object { position, object_type: ObjectType::Apple { gravity, animation: an } })
        } else if ty == 3 {
            Ok(Object { position, object_type: ObjectType::Killer })
        } else if ty == 4 {
            Ok(Object { position, object_type: ObjectType::Player })
        } else {
            Err(ElmaError::InvalidObject(i32_of_u32(ty)))
        }
    }
}

/// The first `n` objects of the object area at `off`, or the first error.
pub open spec fn parse_objs_spec(b: Seq<u8>, off: int, n: int) -> Result<Seq<Object>, ElmaError>
    decreases n,
{
    if n <= 0 {
        Ok(Seq::empty())
    } else {
        match parse_objs_spec(b, off, n - 1) {
            Err(e) => Err(e),
            Ok(s) => match obj_at(b, off, n - 1) {
                Err(e) => Err(e),
                Ok(ob) => Ok(s.push(ob)),
            },
        }
    }
}

/// The picture at slot `j` of the picture area at `off`, or its first
/// invalid field, in the order the fields are read.
pub open spec fn pict_at(b: Seq<u8>, off: int, j: int) -> Result<PictData, ElmaError> {
    let p = off + 54 * j;
    match trim_spec(b.subrange(p, p + 10)) {
        Err(e) => Err(e),
        Ok(name) => match trim_spec(b.subrange(p + 10, p + 20)) {
            Err(e) => Err(e),
            Ok(texture) => match trim_spec(b.subrange(p + 20, p + 30)) {
                Err(e) => Err(e),
                Ok(mask) => {
                    let position = Position { x: le64(b, p + 30), y: le64(b, p + 38) };
                    let distance = i32_of_u32(le32(b, p + 46));
                    let cl = le32(b, p + 50);
                    if cl == 0 {
                        Ok(
                            PictData {
                                name,
                                texture,
                                mask,
                                position,
                                distance,
                                clip: Clip::Unclipped,
                            },
                        )
                    } else if cl == 1 {
                        Ok(PictData { name, texture, mask, position, distance, clip: Clip::Ground })
                    } else if cl == 2 {
                        Ok(PictData { name, texture, mask, position, distance, clip: Clip::Sky })
                    } else {
                        Err(ElmaError::InvalidClipping(i32_of_u32(cl)))
                    }
                },
            },
        },
    }
}

/// The first `n` pictures of the picture area at `off`, or the first error.
pub open spec fn parse_picts_spec(b: Seq<u8>, off: int, n: int) -> Result<Seq<PictData>, ElmaError>
    decreases n,
{
    if n <= 0 {
        Ok(Seq::empty())
    } else {
        match parse_picts_spec(b, off, n - 1) {
            Err(e) => Err(e),
            Ok(s) => match pict_at(b, off, n - 1) {
                Err(e) => Err(e),
                Ok(p) => Ok(s.push(p)),
            },
        }
    }
}

/// The entry at slot `j` of a plain top-10 block, or a string error.
pub open spec fn entry_at(plain: Seq<u8>, j: int) -> Result<EntryData, ElmaError> {
    match trim_spec(plain.subrange(44 + 15 * j, 59 + 15 * j)) {
        Err(e) => Err(e),
        Ok(n1) => match trim_spec(plain.subrange(194 + 15 * j, 209 + 15 * j)) {
            Err(e) => Err(e),
            Ok(n2) => Ok(
                EntryData {
                    time: i32_of_u32(le32(plain, 4 + 4 * j)),
                    player1_name: n1,
                    player2_name: n2,
                },
            ),
        },
    }
}

/// The first `n` entries of a plain top-10 block, or the first error.
pub open spec fn parse_entries_spec(plain: Seq<u8>, n: int) -> Result<Seq<EntryData>, ElmaError>
    decreases n,
{
    if n <= 0 {
        Ok(Seq::empty())
    } else {
        match parse_entries_spec(plain, n - 1) {
            Err(e) => Err(e),
            Ok(s) => match entry_at(plain, n - 1) {
                Err(e) => Err(e),
                Ok(en) => Ok(s.push(en)),
            },
        }
    }
}

/// How many entries a plain top-10 block holds: its count field, clamped
/// between 0 and 10.
pub open spec fn top10_count(plain: Seq<u8>) -> int {
    let c = le32(plain, 0);
    if c >= 0x8000_0000 {
        0
    } else if c > 10 {
        10
    } else {
        c as int
    }
}

/// The entries of a decrypted top-10 block.
pub open spec fn parse_top10_spec(plain: Seq<u8>) -> Result<Seq<EntryData>, ElmaError> {
    parse_entries_spec(plain, top10_count(plain))
}

/// What parsing a level buffer yields: the level's fields, or an error;
/// `Err(None)` stands for a truncated buffer, reported as an I/O error.
pub open spec fn parse_lev_spec(b: Seq<u8>) -> Result<LevData, Option<ElmaError>> {
    if b.len() < 5 {
        Err(None)
    } else if b.subrange(0, 5) == pot06_bytes() {
        Err(Some(ElmaError::AcrossUnsupported))
    } else if b.subrange(0, 5) != pot14_bytes() {
        Err(Some(ElmaError::InvalidLevelFile))
    } else if b.len() < 138 {
        Err(None)
    } else {
        match trim_spec(b.subrange(43, 94)) {
            Err(e) => Err(Some(e)),
            Ok(name) => match trim_spec(b.subrange(94, 110)) {
                Err(e) => Err(Some(e)),
                Ok(lgr) => match trim_spec(b.subrange(110, 120)) {
                    Err(e) => Err(Some(e)),
                    Ok(ground) => match trim_spec(b.subrange(120, 130)) {
                        Err(e) => Err(Some(e)),
                        Ok(sky) => match count_of_bits(le64(b, 130)) {
                            None => Err(None),
                            Some(pc) => match parse_polys_spec(b, 138, pc) {
                                Err(e) => Err(e),
                                Ok(t) => parse_lev_objects(
                                    b,
                                    t.1,
                                    LevData {
                                        version: Version::Elma,
                                        link: le32(b, 7),
                                        integrity: seq![
                                            le64(b, 11),
                                            le64(b, 19),
                                            le64(b, 27),
                                            le64(b, 35),
                                        ],
                                        name,
                                        lgr,
                                        ground,
                                        sky,
                                        polygons: t.0,
                                        objects: Seq::empty(),
                                        pictures: Seq::empty(),
                                        top10_single: Seq::empty(),
                                        top10_multi: Seq::empty(),
                                    },
                                ),
                            },
                        },
                    },
                },
            },
        }
    }
}

/// The tail of level parsing from the object count onwards.
pub open spec fn parse_lev_objects(b: Seq<u8>, o1: int, acc: LevData) -> Result<
    LevData,
    Option<ElmaError>,
> {
    if o1 + 8 > b.len() {
        Err(None)
    } else {
        match count_of_bits(le64(b, o1)) {
            None => Err(None),
            Some(oc) => {
                if o1 + 8 + 28 * oc > b.len() {
                    Err(None)
                } else {
                    match parse_objs_spec(b, o1 + 8, oc) {
                        Err(e) => Err(Some(e)),
                        Ok(objs) => parse_lev_pictures(
                            b,
                            o1 + 8 + 28 * oc,
                            LevData { objects: objs, ..acc },
                        ),
                    }
                }
            },
        }
    }
}

/// The tail of level parsing from the picture count onwards.
pub open spec fn parse_lev_pictures(b: Seq<u8>, o2: int, acc: LevData) -> Result<
    LevData,
    Option<ElmaError>,
> {
    if o2 + 8 > b.len() {
        Err(None)
    } else {
        match count_of_bits(le64(b, o2)) {
            None => Err(None),
            Some(pc) => {
                if o2 + 8 + 54 * pc > b.len() {
                    Err(None)
                } else {
                    match parse_picts_spec(b, o2 + 8, pc) {
                        Err(e) => Err(Some(e)),
                        Ok(picts) => parse_lev_tail(
                            b,
                            o2 + 8 + 54 * pc,
                            LevData { pictures: picts, ..acc },
                        ),
                    }
                }
            },
        }
    }
}

/// The tail of level parsing: end-of-data marker, the two top-10 blocks,
/// and the end-of-file marker.
pub open spec fn parse_lev_tail(b: Seq<u8>, o3: int, acc: LevData) -> Result<
    LevData,
    Option<ElmaError>,
> {
    if o3 + 4 > b.len() {
        Err(None)
    } else if le32(b, o3) != EOD {
        Err(Some(ElmaError::EODMismatch))
    } else if o3 + 1384 > b.len() {
        Err(None)
    } else {
        match parse_top10_spec(crypt_spec(b.subrange(o3 + 4, o3 + 692))) {
            Err(e) => Err(Some(e)),
            Ok(t1) => match parse_top10_spec(crypt_spec(b.subrange(o3 + 692, o3 + 1380))) {
                Err(e) => Err(Some(e)),
                Ok(t2) => {
                    if le32(b, o3 + 1380) != LEV_EOF {
                        Err(Some(ElmaError::EOFMismatch))
                    } else {
                        Ok(LevData { top10_single: t1, top10_multi: t2, ..acc })
                    }
                },
            },
        }
    }
}

proof fn lemma_objs_err_propagates(b: Seq<u8>, off: int, m: int, n: int)
    requires
        0 <= m <= n,
        parse_objs_spec(b, off, m) is Err,
    ensures
        parse_objs_spec(b, off, n) == parse_objs_spec(b, off, m),
    decreases n - m,
{
    if m < n {
        lemma_objs_err_propagates(b, off, m, n - 1);
    }
}

proof fn lemma_picts_err_propagates(b: Seq<u8>, off: int, m: int, n: int)
    requires
        0 <= m <= n,
        parse_picts_spec(b, off, m) is Err,
    ensures
        parse_picts_spec(b, off, n) == parse_picts_spec(b, off, m),
    decreases n - m,
{
    if m < n {
        lemma_picts_err_propagates(b, off, m, n - 1);
    }
}

proof fn lemma_entries_err_propagates(plain: Seq<u8>, m: int, n: int)
    requires
        0 <= m <= n,
        parse_entries_spec(plain, m) is Err,
    ensures
        parse_entries_spec(plain, n) == parse_entries_spec(plain, m),
    decreases n - m,
{
    if m < n {
        lemma_entries_err_propagates(plain, m, n - 1);
    }
}

fn parse_verts_exec(b: &[u8], off: usize, n: usize) -> (r: Vec<Position<u64>>)
    requires
        off + 16 * n <= b@.len(),
    ensures
        r@ == parse_verts(b@, off as int, n as int),
{
    let blen = b.len();
    let mut vs: Vec<Position<u64>> = Vec::new();
    let mut j: usize = 0;
    while j < n
        invariant
            0 <= j <= n,
            off + 16 * n <= blen,
            blen == b@.len(),
            vs@ =~= parse_verts(b@, off as int, n as int).take(j as int),
        decreases n - j,
    {
        let x = crate::bits::read_u64(b, off + 16 * j);
        let y = crate::bits::read_u64(b, off + 16 * j + 8);
        vs.push(Position { x, y });
        proof {
            assert(vs@ =~= parse_verts(b@, off as int, n as int).take(j + 1));
        }
        j = j + 1;
    }
    proof {
        assert(vs@ =~= parse_verts(b@, off as int, n as int));
    }
    vs
}

fn parse_polys_exec(b: &[u8], off: usize, n: usize) -> (r: Result<
    (Vec<Polygon>, usize),
    ElmaError,
>)
    requires
        n < 0x8000_0000,
        off <= b@.len(),
    ensures
        match r {
            Ok(t) => parse_polys_spec(b@, off as int, n as int) matches Ok(s) && s.0 == Seq::new(
                t.0@.len(),
                |i: int| t.0@[i]@,
            ) && s.1 == t.1 as int && t.1 <= b@.len(),
            Err(e) => match parse_polys_spec(b@, off as int, n as int) {
                Ok(_) => false,
                Err(oe) => match oe {
                    Some(e2) => e == e2,
                    None => e is Io,
                },
            },
        },
{
    let blen = b.len();
    let mut polys: Vec<Polygon> = Vec::new();
    let mut cur: usize = off;
    let mut i: usize = 0;
    while i < n
        invariant
            0 <= i <= n,
            n < 0x8000_0000,
            cur <= blen,
            blen == b@.len(),
            parse_polys_spec(b@, off as int, n as int) == (match parse_polys_spec(
                b@,
                cur as int,
                (n - i) as int,
            ) {
                Ok(t) => Ok::<(Seq<PolyData>, int), Option<ElmaError>>(
                    (Seq::new(polys@.len(), |k: int| polys@[k]@) + t.0, t.1),
                ),
                Err(e) => Err(e),
            }),
        decreases n - i,
    {
        if blen - cur < 8 {
            return Err(crate::eof_error());
        }
        let grass_word = crate::bits::read_u32(b, cur);
        let vc = crate::bits::read_u32(b, cur + 4);
        if vc >= 0x8000_0000 {
            return Err(crate::eof_error());
        }
        if (16u64 * (vc as u64)) > ((blen - (cur + 8)) as u64) {
            return Err(crate::eof_error());
        }
        let verts = parse_verts_exec(b, cur + 8, vc as usize);
        let ghost prev_polys = polys@;
        let ghost prev_cur = cur as int;
        polys.push(Polygon { grass: grass_word != 0, vertices: verts });
        cur = cur + 8 + 16 * (vc as usize);
        proof {
            let pd = Seq::new(polys@.len(), |k: int| polys@[k]@);
            let prev_pd = Seq::new(prev_polys.len(), |k: int| prev_polys[k]@);
            assert(parse_polys_spec(b@, prev_cur, (n - i) as int) == (match parse_polys_spec(
                b@,
                cur as int,
                (n - i - 1) as int,
            ) {
                Ok(t) => Ok::<(Seq<PolyData>, int), Option<ElmaError>>(
                    (
                        seq![
                            PolyData {
                                grass: grass_word != 0,
                                vertices: parse_verts(b@, prev_cur + 8, vc as int),
                            },
                        ] + t.0,
                        t.1,
                    ),
                ),
                Err(e) => Err(e),
            }));
            assert forall|t0: Seq<PolyData>|
                true implies prev_pd + (seq![
                PolyData {
                    grass: grass_word != 0,
                    vertices: parse_verts(b@, prev_cur + 8, vc as int),
                },
            ] + t0) =~= #[trigger] (pd + t0) by {
                assert(pd =~= prev_pd.push(
                    PolyData {
                        grass: grass_word != 0,
                        vertices: parse_verts(b@, prev_cur + 8, vc as int),
                    },
                ));
            }
        }
        i = i + 1;
    }
    proof {
        assert(parse_polys_spec(b@, cur as int, 0) == Ok::<
            (Seq<PolyData>, int),
            Option<ElmaError>,
        >((Seq::empty(), cur as int)));
        assert(Seq::new(polys@.len(), |k: int| polys@[k]@) + Seq::<PolyData>::empty() =~= Seq::new(
            polys@.len(),
            |k: int| polys@[k]@,
        ));
    }
    Ok((polys, cur))
}

fn parse_objs_exec(b: &[u8], off: usize, n: usize) -> (r: Result<Vec<Object>, ElmaError>)
    requires
        off + 28 * n <= b@.len(),
    ensures
        match r {
            Ok(os) => parse_objs_spec(b@, off as int, n as int) == Ok::<Seq<Object>, ElmaError>(
                os@,
            ),
            Err(e) => parse_objs_spec(b@, off as int, n as int) == Err::<Seq<Object>, ElmaError>(
                e,
            ),
        },
{
    let blen = b.len();
    let mut os: Vec<Object> = Vec::new();
    let mut j: usize = 0;
    while j < n
        invariant
            0 <= j <= n,
            off + 28 * n <= blen,
            blen == b@.len(),
            parse_objs_spec(b@, off as int, j as int) == Ok::<Seq<Object>, ElmaError>(os@),
        decreases n - j,
    {
        let p = off + 28 * j;
        let x = crate::bits::read_u64(b, p);
        let y = crate::bits::read_u64(b, p + 8);
        let ty = crate::bits::read_u32(b, p + 16);
        let gr = crate::bits::read_u32(b, p + 20);
        let an = to_i32(crate::bits::read_u32(b, p + 24));
        if gr >= 5 {
            proof {
                lemma_objs_err_propagates(b@, off as int, j + 1, n as int);
            }
            return Err(ElmaError::InvalidGravity(to_i32(gr)));
        }
        let gravity = if gr == 0 {
            Direction::Normal
        } else if gr == 1 {
            Direction::Up
        } else if gr == 2 {
            Direction::Down
        } else if gr == 3 {
            Direction::Left
        } else {
            Direction::Right
        };
        let object_type = if ty == 1 {
            ObjectType::Exit
        } else if ty == 2 {
            ObjectType::Apple { gravity, animation: an }
        } else if ty == 3 {
            ObjectType::Killer
        } else if ty == 4 {
            ObjectType::Player
        } else {
            proof {
                lemma_objs_err_propagates(b@, off as int, j + 1, n as int);
            }
            return Err(ElmaError::InvalidObject(to_i32(ty)));
        };
        os.push(Object { position: Position { x, y }, object_type });
        j = j + 1;
    }
    Ok(os)
}

fn parse_picts_exec(b: &[u8], off: usize, n: usize) -> (r: Result<Vec<Picture>, ElmaError>)
    requires
        off + 54 * n <= b@.len(),
    ensures
        match r {
            Ok(ps) => parse_picts_spec(b@, off as int, n as int) matches Ok(s) && s == Seq::new(
                ps@.len(),
                |i: int| ps@[i]@,
            ),
            Err(e) => parse_picts_spec(b@, off as int, n as int) == Err::<Seq<PictData>, ElmaError>(
                e,
            ),
        },
{
    let blen = b.len();
    let mut ps: Vec<Picture> = Vec::new();
    proof {
        assert(Seq::new(ps@.len(), |i: int| ps@[i]@) =~= Seq::<PictData>::empty());
    }
    let mut j: usize = 0;
    while j < n
        invariant
            0 <= j <= n,
            off + 54 * n <= blen,
            blen == b@.len(),
            parse_picts_spec(b@, off as int, j as int) == Ok::<Seq<PictData>, ElmaError>(
                Seq::new(ps@.len(), |i: int| ps@[i]@),
            ),
            ps@.len() == j,
        decreases n - j,
    {
        let p = off + 54 * j;
        let name = match crate::trim_string(vstd::slice::slice_subrange(b, p, p + 10)) {
            Ok(s) => s,
            Err(e) => {
                proof {
                    lemma_picts_err_propagates(b@, off as int, j + 1, n as int);
                }
                return Err(e);
            },
        };
        let texture = match crate::trim_string(vstd::slice::slice_subrange(b, p + 10, p + 20)) {
            Ok(s) => s,
            Err(e) => {
                proof {
                    lemma_picts_err_propagates(b@, off as int, j + 1, n as int);
                }
                return Err(e);
            },
        };
        let mask = match crate::trim_string(vstd::slice::slice_subrange(b, p + 20, p + 30)) {
            Ok(s) => s,
            Err(e) => {
                proof {
                    lemma_picts_err_propagates(b@, off as int, j + 1, n as int);
                }
                return Err(e);
            },
        };
        let x = crate::bits::read_u64(b, p + 30);
        let y = crate::bits::read_u64(b, p + 38);
        let distance = to_i32(crate::bits::read_u32(b, p + 46));
        let cl = crate::bits::read_u32(b, p + 50);
        let clip = if cl == 0 {
            Clip::Unclipped
        } else if cl == 1 {
            Clip::Ground
        } else if cl == 2 {
            Clip::Sky
        } else {
            proof {
                lemma_picts_err_propagates(b@, off as int, j + 1, n as int);
            }
            return Err(ElmaError::InvalidClipping(to_i32(cl)));
        };
        let pict = Picture { name, texture, mask, position: Position { x, y }, distance, clip };
        let ghost prev = ps@;
        ps.push(pict);
        proof {
            assert(Seq::new(ps@.len(), |i: int| ps@[i]@) =~= Seq::new(
                prev.len(),
                |i: int| prev[i]@,
            ).push(pict@));
        }
        j = j + 1;
    }
    Ok(ps)
}

#[verifier::rlimit(60)]
fn parse_top10_exec(block: &[u8]) -> (r: Result<Vec<Top10Entry>, ElmaError>)
    requires
        block@.len() == 688,
    ensures
        match r {
            Ok(es) => parse_top10_spec(crypt_spec(block@)) matches Ok(s) && s == Seq::new(
                es@.len(),
                |i: int| es@[i]@,
            ) && es@.len() <= 10,
            Err(e) => parse_top10_spec(crypt_spec(block@)) == Err::<Seq<EntryData>, ElmaError>(e),
        },
{
    let plain = crypt_top10(block);
    let ghost pv = plain@;
    let cnt = crate::bits::read_u32(plain.as_slice(), 0);
    let n: usize = if cnt >= 0x8000_0000 {
        0
    } else if cnt > 10 {
        10
    } else {
        cnt as usize
    };
    proof {
        assert(n as int == top10_count(pv));
    }
    let mut es: Vec<Top10Entry> = Vec::new();
    proof {
        assert(Seq::new(es@.len(), |i: int| es@[i]@) =~= Seq::<EntryData>::empty());
    }
    let mut j: usize = 0;
    while j < n
        invariant
            0 <= j <= n <= 10,
            plain@ == pv,
            pv.len() == 688,
            pv == crypt_spec(block@),
            n as int == top10_count(pv),
            parse_entries_spec(pv, j as int) == Ok::<Seq<EntryData>, ElmaError>(
                Seq::new(es@.len(), |i: int| es@[i]@),
            ),
            es@.len() == j,
        decreases n - j,
    {
        let time = to_i32(crate::bits::read_u32(plain.as_slice(), 4 + 4 * j));
        let n1 = match crate::trim_string(
            vstd::slice::slice_subrange(plain.as_slice(), 44 + 15 * j, 59 + 15 * j),
        ) {
            Ok(s) => s,
            Err(e) => {
                proof {
                    lemma_entries_err_propagates(pv, j + 1, n as int);
                }
                return Err(e);
            },
        };
        let n2 = match crate::trim_string(
            vstd::slice::slice_subrange(plain.as_slice(), 194 + 15 * j, 209 + 15 * j),
        ) {
            Ok(s) => s,
            Err(e) => {
                proof {
                    lemma_entries_err_propagates(pv, j + 1, n as int);
                }
                return Err(e);
            },
        };
        let en = Top10Entry { time, player1_name: n1, player2_name: n2 };
        let ghost prev = es@;
        es.push(en);
        proof {
            assert(Seq::new(es@.len(), |i: int| es@[i]@) =~= Seq::new(
                prev.len(),
                |i: int| prev[i]@,
            ).push(en@));
        }
        j = j + 1;
    }
    proof {
        assert(pv == crypt_spec(block@));
        assert(parse_top10_spec(pv) == Ok::<Seq<EntryData>, ElmaError>(
            Seq::new(es@.len(), |i: int| es@[i]@),
        ));
    }
    Ok(es)
}

/// Every string of a top-10 entry is ASCII, fits its 15-byte field, and
/// holds no null: such an entry survives the write and read back.
pub open spec fn entry_wf(en: EntryData) -> bool {
    &&& vstd::utf8::is_ascii_chars(en.player1_name)
    &&& en.player1_name.len() <= 15
    &&& (forall|i: int| 0 <= i < en.player1_name.len() ==> en.player1_name[i] != '\0')
    &&& vstd::utf8::is_ascii_chars(en.player2_name)
    &&& en.player2_name.len() <= 15
    &&& (forall|i: int| 0 <= i < en.player2_name.len() ==> en.player2_name[i] != '\0')
}

/// One direction of the level round trip, for a top-10 table: the plain
/// block a table is laid out into parses back to the same table. With
/// [`lemma_crypt_involution`], the same holds through the obfuscation.
#[verifier::rlimit(100)]
#[verifier::spinoff_prover]
pub proof fn lemma_top10_round_trip(es: Seq<EntryData>, n: int)
    requires
        es.len() <= 10,
        0 <= n <= es.len(),
        forall|j: int| 0 <= j < es.len() ==> entry_wf(#[trigger] es[j]),
    ensures
        top10_count(top10_block_plain(es)) == es.len(),
        parse_entries_spec(top10_block_plain(es), n) == Ok::<Seq<EntryData>, ElmaError>(es.take(n)),
    decreases n,
{
    let plain = top10_block_plain(es);
    assert(plain.subrange(0, 4) =~= le32_bytes(es.len() as u32));
    crate::bits::lemma_le32_round_trip(es.len() as u32, plain, 0);
    if n == 0 {
        assert(es.take(0) =~= Seq::<EntryData>::empty());
    } else {
        lemma_top10_round_trip(es, n - 1);
        let j = n - 1;
        let en = es[j];
        crate::lemma_pad_trim_round_trip(en.player1_name, 15);
        crate::lemma_pad_trim_round_trip(en.player2_name, 15);
        assert forall|k: int|
            0 <= k < 4 implies plain[4 + 4 * j + k] == le32_bytes(u32_of_i32(en.time))[k] by {
            lemma_fundamental_div_mod_converse(4 * j + k, 4, j, k);
        }
        assert(plain.subrange(4 + 4 * j, 4 + 4 * j + 4) =~= le32_bytes(u32_of_i32(en.time)));
        crate::bits::lemma_le32_round_trip(u32_of_i32(en.time), plain, 4 + 4 * j);
        assert forall|k: int|
            0 <= k < 15 implies plain[44 + 15 * j + k] == (pad_spec(en.player1_name, 15)->Ok_0)[k] by {
            lemma_fundamental_div_mod_converse(15 * j + k, 15, j, k);
        }
        assert(plain.subrange(44 + 15 * j, 59 + 15 * j) =~= pad_spec(en.player1_name, 15)->Ok_0);
        assert forall|k: int|
            0 <= k < 15 implies plain[194 + 15 * j + k] == (pad_spec(en.player2_name, 15)->Ok_0)[k] by {
            lemma_fundamental_div_mod_converse(15 * j + k, 15, j, k);
        }
        assert(plain.subrange(194 + 15 * j, 209 + 15 * j) =~= pad_spec(en.player2_name, 15)->Ok_0);
        assert(entry_at(plain, j) == Ok::<EntryData, ElmaError>(en));
        assert(es.take(n) =~= es.take(n - 1).push(en));
    }
}

impl Level {
    /// Returns a new Level struct with default values.
    pub fn new() -> (r: Level)
        ensures
            r.version == Version::Elma,
            r.link == 0u32,
            r.integrity@ =~= Seq::new(4, |i: int| 0u64),
            r.name@ == Seq::<char>::empty(),
            r.lgr@ == "default"@,
            r.ground@ == "ground"@,
            r.sky@ == "sky"@,
            r.polygons@ == Seq::<Polygon>::empty(),
            r.objects@ == Seq::<Object>::empty(),
            r.pictures@ == Seq::<Picture>::empty(),
            r.top10_single@ == Seq::<Top10Entry>::empty(),
            r.top10_multi@ == Seq::<Top10Entry>::empty(),
    {
        Level {
            version: Version::Elma,
            link: 0,
            integrity: [0u64, 0u64, 0u64, 0u64],
            name: String::new(),
            lgr: "default".to_owned(),
            ground: "ground".to_owned(),
            sky: "sky".to_owned(),
            polygons: Vec::new(),
            objects: Vec::new(),
            pictures: Vec::new(),
            top10_single: Vec::new(),
            top10_multi: Vec::new(),
        }
    }

    /// Parses a level from the bytes of a level file.
    #[verifier::rlimit(100)]
    #[verifier::spinoff_prover]
    pub fn from_bytes(buffer: &[u8]) -> (r: Result<Level, ElmaError>)
        ensures
            match r {
                Ok(level) => parse_lev_spec(buffer@) == Ok::<LevData, Option<ElmaError>>(level@),
                Err(e) => match parse_lev_spec(buffer@) {
                    Ok(_) => false,
                    Err(oe) => match oe {
                        Some(e2) => e == e2,
                        None => e is Io,
                    },
                },
            },
    {
        let len = buffer.len();
        if len < 5 {
            return Err(crate::eof_error());
        }
        let m0 = *vstd::slice::slice_index_get(buffer, 0);
        let m1 = *vstd::slice::slice_index_get(buffer, 1);
        let m2 = *vstd::slice::slice_index_get(buffer, 2);
        let m3 = *vstd::slice::slice_index_get(buffer, 3);
        let m4 = *vstd::slice::slice_index_get(buffer, 4);
        let is_pot14 = m0 == 80 && m1 == 79 && m2 == 84 && m3 == 49 && m4 == 52;
        let is_pot06 = m0 == 80 && m1 == 79 && m2 == 84 && m3 == 48 && m4 == 54;
        proof {
            assert(is_pot14 == (buffer@.subrange(0, 5) =~= pot14_bytes()));
            assert(is_pot06 == (buffer@.subrange(0, 5) =~= pot06_bytes()));
        }
        if is_pot06 {
            return Err(ElmaError::AcrossUnsupported);
        }
        if !is_pot14 {
            return Err(ElmaError::InvalidLevelFile);
        }
        if len < 138 {
            return Err(crate::eof_error());
        }
        let link = crate::bits::read_u32(buffer, 7);
        let i0 = crate::bits::read_u64(buffer, 11);
        let i1 = crate::bits::read_u64(buffer, 19);
        let i2 = crate::bits::read_u64(buffer, 27);
        let i3 = crate::bits::read_u64(buffer, 35);
        let name = match crate::trim_string(vstd::slice::slice_subrange(buffer, 43, 94)) {
            Ok(s) => s,
            Err(e) => {
                return Err(e);
            },
        };
        let lgr = match crate::trim_string(vstd::slice::slice_subrange(buffer, 94, 110)) {
            Ok(s) => s,
            Err(e) => {
                return Err(e);
            },
        };
        let ground = match crate::trim_string(vstd::slice::slice_subrange(buffer, 110, 120)) {
            Ok(s) => s,
            Err(e) => {
                return Err(e);
            },
        };
        let sky = match crate::trim_string(vstd::slice::slice_subrange(buffer, 120, 130)) {
            Ok(s) => s,
            Err(e) => {
                return Err(e);
            },
        };
        let pc = match decode_count(crate::bits::read_u64(buffer, 130)) {
            Some(c) => c,
            None => {
                return Err(crate::eof_error());
            },
        };
        let (polygons, o1) = match parse_polys_exec(buffer, 138, pc as usize) {
            Ok(t) => t,
            Err(e) => {
                return Err(e);
            },
        };
        if len - o1 < 8 {
            return Err(crate::eof_error());
        }
        let oc = match decode_count(crate::bits::read_u64(buffer, o1)) {
            Some(c) => c,
            None => {
                return Err(crate::eof_error());
            },
        };
        if (28u64 * (oc as u64)) > ((len - (o1 + 8)) as u64) {
            return Err(crate::eof_error());
        }
        let objects = match parse_objs_exec(buffer, o1 + 8, oc as usize) {
            Ok(os) => os,
            Err(e) => {
                return Err(e);
            },
        };
        let o2 = o1 + 8 + 28 * (oc as usize);
        if len - o2 < 8 {
            return Err(crate::eof_error());
        }
        let pcc = match decode_count(crate::bits::read_u64(buffer, o2)) {
            Some(c) => c,
            None => {
                return Err(crate::eof_error());
            },
        };
        if (54u64 * (pcc as u64)) > ((len - (o2 + 8)) as u64) {
            return Err(crate::eof_error());
        }
        let pictures = match parse_picts_exec(buffer, o2 + 8, pcc as usize) {
            Ok(ps) => ps,
            Err(e) => {
                return Err(e);
            },
        };
        let o3 = o2 + 8 + 54 * (pcc as usize);
        if len - o3 < 4 {
            return Err(crate::eof_error());
        }
        if crate::bits::read_u32(buffer, o3) != EOD {
            return Err(ElmaError::EODMismatch);
        }
        if len - o3 < 1384 {
            return Err(crate::eof_error());
        }
        let top10_single = match parse_top10_exec(
            vstd::slice::slice_subrange(buffer, o3 + 4, o3 + 692),
        ) {
            Ok(es) => es,
            Err(e) => {
                return Err(e);
            },
        };
        let top10_multi = match parse_top10_exec(
            vstd::slice::slice_subrange(buffer, o3 + 692, o3 + 1380),
        ) {
            Ok(es) => es,
            Err(e) => {
                return Err(e);
            },
        };
        if crate::bits::read_u32(buffer, o3 + 1380) != LEV_EOF {
            return Err(ElmaError::EOFMismatch);
        }
        let level = Level {
            version: Version::Elma,
            link,
            integrity: [i0, i1, i2, i3],
            name,
            lgr,
            ground,
            sky,
            polygons,
            objects,
            pictures,
            top10_single,
            top10_multi,
        };
        proof {
            assert(level@.integrity =~= seq![
                le64(buffer@, 11),
                le64(buffer@, 19),
                le64(buffer@, 27),
                le64(buffer@, 35),
            ]);
            assert(parse_lev_spec(buffer@) == Ok::<LevData, Option<ElmaError>>(level@));
        }
        Ok(level)
    }

    /// Serialises the level to the bytes of a level file. The integrity
    /// sums are written as stored; both top-10 tables are laid out into
    /// their 688-byte blocks and obfuscated.
    pub fn to_bytes(&self) -> (r: Result<Vec<u8>, ElmaError>)
        requires
            self.polygons@.len() < 0x8000_0000,
            forall|i: int|
                0 <= i < self.polygons@.len() ==> (#[trigger] self.polygons@[i]).vertices@.len()
                    < 0x8000_0000,
            self.objects@.len() < 0x8000_0000,
            self.pictures@.len() < 0x8000_0000,
            self.top10_single@.len() <= 10,
            self.top10_multi@.len() <= 10,
        ensures
            match r {
                Ok(out) => lev_save_spec(self@) == Ok::<Seq<u8>, ElmaError>(out@),
                Err(e) => lev_save_spec(self@) == Err::<Seq<u8>, ElmaError>(e),
            },
    {
        match self.version {
            Version::Across => {
                return Err(ElmaError::AcrossUnsupported);
            },
            Version::Elma => {},
        }
        let mut bytes: Vec<u8> = Vec::new();
        bytes.push(80);
        bytes.push(79);
        bytes.push(84);
        bytes.push(49);
        bytes.push(52);
        bytes.push(0);
        bytes.push(0);
        proof {
            assert(bytes@ =~= pot14_bytes() + seq![0u8, 0u8]);
        }
        push_u32(&mut bytes, self.link);
        push_u64(&mut bytes, self.integrity[0]);
        push_u64(&mut bytes, self.integrity[1]);
        push_u64(&mut bytes, self.integrity[2]);
        push_u64(&mut bytes, self.integrity[3]);
        let mut nb = match crate::string_null_pad(self.name.as_str(), 51) {
            Ok(v) => v,
            Err(e) => {
                return Err(e);
            },
        };
        bytes.append(&mut nb);
        let mut lb = match crate::string_null_pad(self.lgr.as_str(), 16) {
            Ok(v) => v,
            Err(e) => {
                return Err(e);
            },
        };
        bytes.append(&mut lb);
        let mut gb = match crate::string_null_pad(self.ground.as_str(), 10) {
            Ok(v) => v,
            Err(e) => {
                return Err(e);
            },
        };
        bytes.append(&mut gb);
        let mut sb = match crate::string_null_pad(self.sky.as_str(), 10) {
            Ok(v) => v,
            Err(e) => {
                return Err(e);
            },
        };
        bytes.append(&mut sb);
        push_u64(&mut bytes, encode_count(self.polygons.len() as u32));
        write_polys(&mut bytes, &self.polygons);
        push_u64(&mut bytes, encode_count(self.objects.len() as u32));
        write_objs(&mut bytes, &self.objects);
        push_u64(&mut bytes, encode_count(self.pictures.len() as u32));
        match write_picts(&mut bytes, &self.pictures) {
            Ok(_) => (),
            Err(e) => {
                return Err(e);
            },
        }
        push_u32(&mut bytes, EOD);
        match write_top10(&mut bytes, &self.top10_single) {
            Ok(_) => (),
            Err(e) => {
                return Err(e);
            },
        }
        match write_top10(&mut bytes, &self.top10_multi) {
            Ok(_) => (),
            Err(e) => {
                return Err(e);
            },
        }
        push_u32(&mut bytes, LEV_EOF);
        proof {
            assert(self@.integrity[0] == self.integrity@[0]);
            assert(bytes@ == ser_lev(self@));
        }
        Ok(bytes)
    }
}

fn rem_d3d(x: u16) -> (r: u16)
    ensures
        r == cipher_rem(x),
{
    if x < 0x8000 {
        x % 0xD3D
    } else {
        let neg: u16 = (0xFFFF - x) + 1;
        let rr = neg % 0xD3D;
        if rr == 0 {
            0
        } else {
            (0xFFFF - rr) + 1
        }
    }
}

/// Applies the symmetric top-10 obfuscation to a 688-byte block.
///
/// The same function both encrypts and decrypts: applying it twice gives
/// the original block back. Bytes past the first 688 are copied unchanged.
pub fn crypt_top10(buffer: &[u8]) -> (r: Vec<u8>)
    ensures
        r@ == crypt_spec(buffer@),
{
    let len = buffer.len();
    let mut out: Vec<u8> = Vec::new();
    let mut e8: u16 = 0x15;
    let mut e10: u16 = 0x2637;
    let mut i: usize = 0;
    while i < len
        invariant
            i <= len,
            len == buffer@.len(),
            out@.len() == i,
            forall|j: int| 0 <= j < i ==> out@[j] == crypt_spec(buffer@)[j],
            i <= 688 ==> (e8, e10) == cipher_state(i as int),
        decreases len - i,
    {
        if i < 688 {
            let k = (e8 % 0x100) as u8;
            proof {
                assert(k == keystream(i as int));
            }
            out.push(buffer[i] ^ k);
            let t = rem_d3d(e8);
            let prod: u32 = (t as u32) * 0xD3D;
            let n10: u16 = (((e10 as u32) + (prod % 0x1_0000)) % 0x1_0000) as u16;
            let prod2: u32 = (n10 as u32) * 0x1F;
            let n8: u16 = ((0xD3D + (prod2 % 0x1_0000)) % 0x1_0000) as u16;
            proof {
                assert((n8, n10) == cipher_next(e8, e10));
            }
            e10 = n10;
            e8 = n8;
        } else {
            out.push(buffer[i]);
        }
        i = i + 1;
    }
    out
}

/// The obfuscation is an involution: applying [`crypt_top10`] twice gives
/// every block back unchanged, whatever its length.
pub proof fn lemma_crypt_involution(b: Seq<u8>)
    ensures
        crypt_spec(crypt_spec(b)) =~= b,
{
    assert forall|i: int| 0 <= i < b.len() implies crypt_spec(crypt_spec(b))[i] == b[i] by {
        if i < 688 {
            let k = keystream(i);
            let x = b[i];
            assert((x ^ k) ^ k == x) by (bit_vector);
        }
    }
}

} // verus!
