//! Points, boxes and distances.
//!
//! Coordinates and distances are held as integers that stand for decimal degrees and
//! kilometres. Nothing here adds or scales them: they are compared, and functions
//! handed in by the caller measure them.
use vstd::prelude::*;

verus! {

/// Reach of a city: the bit pattern of the double 2.0. Non-negative doubles
/// order as their bit patterns do.
pub const CITY_RADIUS_KM: u64 = 0x4000_0000_0000_0000;

/// The bit pattern of an infinite distance. Patterns above it are no numbers.
pub const INFINITE_KM: u64 = 0x7ff0_0000_0000_0000;

/// A distance is greater than another. Nothing is greater or less than what is no number.
pub open spec fn exceeds(a: u64, b: u64) -> bool {
    b < a <= INFINITE_KM
}

#[derive(Clone, Copy, Debug, PartialEq, Eq, Structural)]
pub struct Coord {
    pub lat: i64,
    pub lon: i64,
}

/// What stands for minus zero. As a coordinate it is the same as zero, and it is written
/// with its sign.
pub const MINUS_ZERO: i64 = -0x8000_0000_0000_0000;

/// The integer that stands for a finite double with the given bit pattern, its key. But for
/// minus zero, keys order as the doubles do.
pub open spec fn key_of(bits: u64) -> i64 {
    if bits < 0x8000_0000_0000_0000 {
        bits as i64
    } else if bits == 0x8000_0000_0000_0000 {
        MINUS_ZERO
    } else {
        (0x8000_0000_0000_0000 - bits) as i64
    }
}

pub fn order_key(bits: u64) -> (r: i64)
    ensures
        r == key_of(bits),
{
    if bits < 0x8000_0000_0000_0000 {
        bits as i64
    } else if bits == 0x8000_0000_0000_0000 {
        MINUS_ZERO
    } else {
        -((bits - 0x8000_0000_0000_0000) as i64)
    }
}

/// Where a key stands among all: both zeros stand in one place.
pub open spec fn rank_of(key: i64) -> i64 {
    if key == MINUS_ZERO {
        0
    } else {
        key
    }
}

pub fn rank(key: i64) -> (r: i64)
    ensures
        r == rank_of(key),
{
    if key == MINUS_ZERO {
        0
    } else {
        key
    }
}

/// Two doubles have the same key only if they have the same bits, and keys rank as the
/// doubles do: by their magnitude, the other way round below zero.
pub proof fn law_keys_stand_for_doubles(a: u64, b: u64)
    requires
        a & 0x7fff_ffff_ffff_ffff < INFINITE_KM,
        b & 0x7fff_ffff_ffff_ffff < INFINITE_KM,
    ensures
        key_of(a) == key_of(b) ==> a == b,
        a < 0x8000_0000_0000_0000 && b < 0x8000_0000_0000_0000 ==> (rank_of(key_of(a)) < rank_of(
            key_of(b),
        ) <==> a < b),
        a >= 0x8000_0000_0000_0000 && b >= 0x8000_0000_0000_0000 ==> (rank_of(key_of(a))
            < rank_of(key_of(b)) <==> b < a),
        a >= 0x8000_0000_0000_0000 && b < 0x8000_0000_0000_0000 ==> (rank_of(key_of(a)) < rank_of(
            key_of(b),
        ) <==> a != 0x8000_0000_0000_0000 || b != 0),
{
    assert(a < 0xfff0_0000_0000_0000) by (bit_vector)
        requires
            a & 0x7fff_ffff_ffff_ffff < 0x7ff0_0000_0000_0000,
    ;
    assert(b < 0xfff0_0000_0000_0000) by (bit_vector)
        requires
            b & 0x7fff_ffff_ffff_ffff < 0x7ff0_0000_0000_0000,
    ;
}

impl View for Coord {
    type V = Coord;

    open spec fn view(&self) -> Coord {
        *self
    }
}

/// What `f` answers on a pair of points.
pub open spec fn distance_of<F: Fn(Coord, Coord) -> u64>(f: F, a: Coord, b: Coord) -> u64 {
    choose|d: u64| call_ensures(f, (a, b), d)
}

/// `f` is total, and answers the same on the same points.
pub open spec fn measures<F: Fn(Coord, Coord) -> u64>(f: F) -> bool {
    &&& forall|a: Coord, b: Coord| call_requires(f, (a, b))
    &&& forall|a: Coord, b: Coord, d: u64| #[trigger]
        call_ensures(f, (a, b), d) ==> d == distance_of(f, a, b)
}

/// `f` as a mathematical function.
pub open spec fn metric<F: Fn(Coord, Coord) -> u64>(f: F) -> spec_fn(Coord, Coord) -> u64 {
    |a: Coord, b: Coord| distance_of(f, a, b)
}

/// The distance from `a` to `b`.
pub fn measure<F: Fn(Coord, Coord) -> u64>(f: &F, a: Coord, b: Coord) -> (d: u64)
    requires
        measures(*f),
    ensures
        d == metric(*f)(a, b),
{
    f(a, b)
}

/// A box of coordinates.
#[derive(Clone, Copy, Debug, PartialEq, Eq, Structural)]
pub struct Bounds {
    pub west: i64,
    pub east: i64,
    pub south: i64,
    pub north: i64,
}

/// `at` lies in the box or on its edge.
pub open spec fn within(bounds: Bounds, at: Coord) -> bool {
    &&& rank_of(bounds.west) <= rank_of(at.lon) <= rank_of(bounds.east)
    &&& rank_of(bounds.south) <= rank_of(at.lat) <= rank_of(bounds.north)
}

impl Bounds {
    pub fn contains(&self, at: Coord) -> (r: bool)
        ensures
            r == within(*self, at),
    {
        let lon: i64 = rank(at.lon);
        let lat: i64 = rank(at.lat);
        rank(self.west) <= lon && lon <= rank(self.east) && rank(self.south) <= lat && lat <= rank(
            self.north,
        )
    }
}

} // verus!
