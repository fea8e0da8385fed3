use vstd::prelude::*;
use vstd::std_specs::convert::FromSpecImpl;

verus! {

/// A figure: a line through points, open or closed, or several figures
/// taken together.
pub enum Figure<T> {
    Open(Vec<Point<T>>),
    Closed(Vec<Point<T>>),
    Composed(Vec<Figure<T>>),
}

/// The open line through `points`.
pub fn open<T>(points: Vec<Point<T>>) -> (figure: Figure<T>)
    ensures
        figure == Figure::Open(points),
{
    Figure::Open(points)
}

/// The closed line through `points`.
pub fn closed<T>(points: Vec<Point<T>>) -> (figure: Figure<T>)
    ensures
        figure == Figure::Closed(points),
{
    Figure::Closed(points)
}

/// The figure made of `points`, which are figures, taken together.
pub fn compose<T>(points: Vec<Figure<T>>) -> (figure: Figure<T>)
    ensures
        figure == Figure::Composed(points),
{
    Figure::Composed(points)
}

/// A point of the plane, by its two coordinates.
#[derive(Debug, PartialEq)]
pub struct Point<T> {
    pub x: T,
    pub y: T,
}

impl<T: Copy> From<[T; 2]> for Point<T> {
    fn from(data: [T; 2]) -> (point: Self) {
        Self { x: data[0], y: data[1] }
    }
}

impl<T: Copy> FromSpecImpl<[T; 2]> for Point<T> {
    open spec fn obeys_from_spec() -> bool {
        true
    }

    open spec fn from_spec(data: [T; 2]) -> Point<T> {
        Point { x: data[0], y: data[1] }
    }
}

} // verus!
