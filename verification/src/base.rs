//! Basic directions used by the layout passes.

use vstd::prelude::*;

verus! {

/// The direction in which a graph is laid out.
#[derive(Copy, Clone, PartialEq, Eq, Structural, Debug)]
pub enum Orientation {
    /// Ranks are rows and flow from top to bottom.
    TopToBottom,
    /// Ranks are columns and flow from left to right.
    LeftToRight,
}

impl Orientation {
    pub fn is_top_to_bottom(&self) -> (r: bool)
        ensures
            r == (*self == Orientation::TopToBottom),
    {
        match self {
            Orientation::TopToBottom => true,
            Orientation::LeftToRight => false,
        }
    }

    pub fn is_left_right(&self) -> (r: bool)
        ensures
            r == (*self == Orientation::LeftToRight),
    {
        match self {
            Orientation::TopToBottom => false,
            Orientation::LeftToRight => true,
        }
    }
}

/// Which neighbouring rows a pass looks at.
#[derive(Copy, Clone, PartialEq, Eq, Structural, Debug)]
pub enum Direction {
    Up,
    Down,
    Both,
}

impl Direction {
    /// A pass in this direction looks at the row below.
    pub open spec fn looks_down(self) -> bool {
        self == Direction::Down || self == Direction::Both
    }

    /// A pass in this direction looks at the row above.
    pub open spec fn looks_up(self) -> bool {
        self == Direction::Up || self == Direction::Both
    }

    pub fn is_down(&self) -> (r: bool)
        ensures
            r == self.looks_down(),
    {
        match self {
            Direction::Up => false,
            Direction::Down => true,
            Direction::Both => true,
        }
    }

    pub fn is_up(&self) -> (r: bool)
        ensures
            r == self.looks_up(),
    {
        match self {
            Direction::Up => true,
            Direction::Down => false,
            Direction::Both => true,
        }
    }
}

} // verus!
