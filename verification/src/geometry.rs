//! Plain geometry values and the discriminated results of the layout
//! operations.

use vstd::prelude::*;

verus! {

/// Why an operation on a workspace or one of its regions was refused.
///
/// `UnknownRegion`, `UnknownWorkspace` and `UnknownMonitor` are reserved for a
/// monitor/workspace binding layer that is out of scope here; the operations
/// of this crate return only `InvalidRegion` (a proposed edge move would
/// violate the minimum region size) and `NoAdjacentRegions` (a swap was
/// requested in a direction with no neighbor).
#[derive(Copy, Clone, Debug, PartialEq, Eq)]
pub enum ErrorKind {
    UnknownRegion,
    UnknownWorkspace,
    UnknownMonitor,
    InvalidRegion,
    NoAdjacentRegions,
}

/// A size: non-negative width and height.
#[derive(Copy, Clone, Debug, PartialEq, Eq)]
pub struct Rectangle {
    pub w: u64,
    pub h: u64,
}

/// A position: signed coordinates, smaller `y` nearer the top edge.
#[derive(Copy, Clone, Debug, PartialEq, Eq)]
pub struct Position {
    pub x: i64,
    pub y: i64,
}

/// The edge of a region an operation acts through.
#[derive(Copy, Clone, Debug, PartialEq, Eq)]
pub enum Direction {
    Up,
    Down,
    Left,
    Right,
}

/// A resize request: four single-edge moves by a signed delta, and four
/// compound corner moves, each the sequential application of its two
/// single-edge components.
#[derive(Copy, Clone, Debug, PartialEq, Eq)]
pub enum Resize {
    Top(i64),
    Bottom(i64),
    Left(i64),
    Right(i64),
    TopLeft(i64, i64),
    TopRight(i64, i64),
    BottomLeft(i64, i64),
    BottomRight(i64, i64),
}

impl Rectangle {
    pub fn new(width: u64, height: u64) -> (r: Rectangle)
        ensures
            r.w == width,
            r.h == height,
    {
        Rectangle { w: width, h: height }
    }
}

impl Position {
    pub fn new(x: i64, y: i64) -> (p: Position)
        ensures
            p.x == x,
            p.y == y,
    {
        Position { x, y }
    }
}

} // verus!
