//! The parts of JSON values that the game looks at.
use vstd::prelude::*;

use crate::geometry::Coord;

verus! {

/// A JSON value of which only a text or a number counts. A number is held as it
/// is written.
pub enum Scalar {
    Text(String),
    Number(String),
    Other,
}

/// The text of a value, if it is a text or a number.
pub open spec fn scalar_text(value: Scalar) -> Option<Seq<char>> {
    match value {
        Scalar::Text(text) => Some(text@),
        Scalar::Number(text) => Some(text@),
        Scalar::Other => None,
    }
}

pub fn value_to_string(value: &Scalar) -> (r: Option<String>)
    ensures
        crate::state::text_in(r) == scalar_text(*value),
{
    match value {
        Scalar::Text(text) => Some(text.clone()),
        Scalar::Number(text) => Some(text.clone()),
        Scalar::Other => None,
    }
}

/// Nested lists of numbers, as shapes are written.
pub enum Coordinates {
    Number(i64),
    List(Vec<Coordinates>),
    Other,
}

/// The point that a list stands for which begins with two numbers: longitude, then
/// latitude.
pub open spec fn pair_of(value: Coordinates) -> Option<Coord> {
    match value {
        Coordinates::List(items) => if items@.len() >= 2 {
            match (items@[0], items@[1]) {
                (Coordinates::Number(lon), Coordinates::Number(lat)) => Some(Coord { lat, lon }),
                _ => None,
            }
        } else {
            None
        },
        _ => None,
    }
}

pub fn pair_from_value(value: &Coordinates) -> (r: Option<Coord>)
    ensures
        r == pair_of(*value),
{
    match value {
        Coordinates::List(items) => {
            if items.len() < 2 {
                return None;
            }
            match (&items[0], &items[1]) {
                (Coordinates::Number(lon), Coordinates::Number(lat)) => Some(
                    Coord { lat: *lat, lon: *lon },
                ),
                _ => None,
            }
        },
        _ => None,
    }
}

/// All points in a shape, in order.
pub open spec fn points_of(value: Coordinates) -> Seq<Coord>
    decreases value, 0int,
{
    match pair_of(value) {
        Some(point) => seq![point],
        None => match value {
            Coordinates::List(items) => points_of_all(items@, items@.len() as int),
            _ => Seq::empty(),
        },
    }
}

/// All points in the first `n` shapes of a list.
pub open spec fn points_of_all(items: Seq<Coordinates>, n: int) -> Seq<Coord>
    decreases items, n,
{
    if n <= 0 || n > items.len() {
        Seq::empty()
    } else {
        points_of_all(items, n - 1) + points_of(items[n - 1])
    }
}

} // verus!
