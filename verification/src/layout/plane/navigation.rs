//! Directions for moving the focus or a window across the plane.
use vstd::prelude::*;

verus! {

/// A direction on the plane.
#[derive(Debug, Clone, Copy, PartialEq, Eq, Structural)]
pub enum Direction {
    Left,
    Right,
    Up,
    Down,
}

/// The direction that points the other way.
pub open spec fn opposite_spec(direction: Direction) -> Direction {
    match direction {
        Direction::Left => Direction::Right,
        Direction::Right => Direction::Left,
        Direction::Up => Direction::Down,
        Direction::Down => Direction::Up,
    }
}

/// Whether the direction moves along the horizontal axis.
pub open spec fn is_horizontal(direction: Direction) -> bool {
    direction == Direction::Left || direction == Direction::Right
}

/// Returns the direction that points the other way.
pub fn opposite(direction: Direction) -> (result: Direction)
    ensures
        result == opposite_spec(direction),
{
    match direction {
        Direction::Left => Direction::Right,
        Direction::Right => Direction::Left,
        Direction::Up => Direction::Down,
        Direction::Down => Direction::Up,
    }
}

/// Turning around twice gives back the direction one started with.
pub proof fn law_opposite_involution(direction: Direction)
    ensures
        opposite_spec(opposite_spec(direction)) == direction,
{
}

/// No direction is its own opposite, and the opposite stays on the same axis.
pub proof fn law_opposite_same_axis(direction: Direction)
    ensures
        opposite_spec(direction) != direction,
        is_horizontal(opposite_spec(direction)) == is_horizontal(direction),
{
}

/// Distinct directions have distinct opposites.
pub proof fn law_opposite_injective(a: Direction, b: Direction)
    requires
        opposite_spec(a) == opposite_spec(b),
    ensures
        a == b,
{
}

} // verus!
