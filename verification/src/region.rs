//! One rectangular tile of a workspace, with its derived edges and the
//! single-edge mutators that enforce the minimum tile size.

use vstd::prelude::*;

use crate::geometry::ErrorKind;
use crate::geometry::Position;
use crate::geometry::Rectangle;

verus! {

/// Smallest width a region may have after any successful mutation.
pub const MIN_REGION_WIDTH: u64 = 20;

/// Smallest height a region may have after any successful mutation.
pub const MIN_REGION_HEIGHT: u64 = 20;

/// One tile: a size, a position, and a float marker that the core operations
/// carry but never alter.
///
/// The derived edges are `top = y`, `bottom = y + h`, `left = x`,
/// `right = x + w`; bottom and right are the far edge, one past the last
/// covered unit.
#[derive(Copy, Clone, Debug, PartialEq, Eq)]
pub struct Region {
    pub size: Rectangle,
    pub pos: Position,
    pub float: bool,
}

impl Region {
    /// The `y` coordinate of the top edge.
    pub open spec fn spec_top(self) -> int {
        self.pos.y as int
    }

    /// The `y` coordinate one past the bottom edge.
    pub open spec fn spec_bottom(self) -> int {
        self.pos.y + self.size.h
    }

    /// The `x` coordinate of the left edge.
    pub open spec fn spec_left(self) -> int {
        self.pos.x as int
    }

    /// The `x` coordinate one past the right edge.
    pub open spec fn spec_right(self) -> int {
        self.pos.x + self.size.w
    }

    /// Moving the top edge to `new` keeps at least the minimum height.
    pub open spec fn can_set_top(self, new: int) -> bool {
        new <= self.spec_bottom() - MIN_REGION_HEIGHT
    }

    /// Moving the bottom edge to `new` keeps at least the minimum height.
    pub open spec fn can_set_bottom(self, new: int) -> bool {
        new >= self.spec_top() + MIN_REGION_HEIGHT
    }

    /// Moving the left edge to `new` keeps at least the minimum width.
    pub open spec fn can_set_left(self, new: int) -> bool {
        new <= self.spec_right() - MIN_REGION_WIDTH
    }

    /// Moving the right edge to `new` keeps at least the minimum width.
    pub open spec fn can_set_right(self, new: int) -> bool {
        new >= self.spec_left() + MIN_REGION_WIDTH
    }

    /// The region with its top edge moved to `new`, the bottom edge held.
    pub open spec fn with_top(self, new: int) -> Region {
        Region {
            size: Rectangle { w: self.size.w, h: (self.spec_bottom() - new) as u64 },
            pos: Position { x: self.pos.x, y: new as i64 },
            float: self.float,
        }
    }

    /// The region with its bottom edge moved to `new`, the top edge held.
    pub open spec fn with_bottom(self, new: int) -> Region {
        Region {
            size: Rectangle { w: self.size.w, h: (new - self.spec_top()) as u64 },
            pos: self.pos,
            float: self.float,
        }
    }

    /// The region with its left edge moved to `new`, the right edge held.
    pub open spec fn with_left(self, new: int) -> Region {
        Region {
            size: Rectangle { w: (self.spec_right() - new) as u64, h: self.size.h },
            pos: Position { x: new as i64, y: self.pos.y },
            float: self.float,
        }
    }

    /// The region with its right edge moved to `new`, the left edge held.
    pub open spec fn with_right(self, new: int) -> Region {
        Region {
            size: Rectangle { w: (new - self.spec_left()) as u64, h: self.size.h },
            pos: self.pos,
            float: self.float,
        }
    }

    pub fn new(size: Rectangle, pos: Position, float: bool) -> (r: Region)
        ensures
            r == (Region { size, pos, float }),
    {
        Region { size, pos, float }
    }

    /// Width times height.
    pub fn area(&self) -> (a: u64)
        requires
            self.size.w * self.size.h <= u64::MAX,
        ensures
            a == self.size.w * self.size.h,
    {
        self.size.w * self.size.h
    }

    pub fn top(&self) -> (t: i64)
        ensures
            t == self.spec_top(),
    {
        self.pos.y
    }

    pub fn bottom(&self) -> (b: i64)
        requires
            self.spec_bottom() <= i64::MAX,
        ensures
            b == self.spec_bottom(),
    {
        ((self.pos.y as i128) + (self.size.h as i128)) as i64
    }

    pub fn left(&self) -> (l: i64)
        ensures
            l == self.spec_left(),
    {
        self.pos.x
    }

    pub fn right(&self) -> (r: i64)
        requires
            self.spec_right() <= i64::MAX,
        ensures
            r == self.spec_right(),
    {
        ((self.pos.x as i128) + (self.size.w as i128)) as i64
    }

    /// Move the top edge to the absolute coordinate `new`, holding the bottom
    /// edge fixed.  Fails with `InvalidRegion`, leaving the region unchanged,
    /// exactly when the new height would fall below the minimum.
    pub fn set_top(&mut self, new: i64) -> (res: Result<(), ErrorKind>)
        requires
            old(self).can_set_top(new as int) ==> old(self).spec_bottom() - new <= u64::MAX,
        ensures
            old(self).can_set_top(new as int) ==> *final(self) == old(self).with_top(new as int)
                && res == Ok::<(), ErrorKind>(()),
            !old(self).can_set_top(new as int) ==> *final(self) == *old(self)
                && res == Err::<(), ErrorKind>(ErrorKind::InvalidRegion),
    {
        let bottom: i128 = (self.pos.y as i128) + (self.size.h as i128);
        if (new as i128) > bottom - (MIN_REGION_HEIGHT as i128) {
            return Err(ErrorKind::InvalidRegion);
        }
        self.size.h = (bottom - (new as i128)) as u64;
        self.pos.y = new;
        Ok(())
    }

    /// Move the bottom edge to the absolute coordinate `new`, holding the top
    /// edge fixed.  Fails with `InvalidRegion`, leaving the region unchanged,
    /// exactly when the new height would fall below the minimum.
    pub fn set_bottom(&mut self, new: i64) -> (res: Result<(), ErrorKind>)
        ensures
            old(self).can_set_bottom(new as int) ==> *final(self) == old(self).with_bottom(
                new as int,
            ) && res == Ok::<(), ErrorKind>(()),
            !old(self).can_set_bottom(new as int) ==> *final(self) == *old(self)
                && res == Err::<(), ErrorKind>(ErrorKind::InvalidRegion),
    {
        if (new as i128) < (self.pos.y as i128) + (MIN_REGION_HEIGHT as i128) {
            return Err(ErrorKind::InvalidRegion);
        }
        self.size.h = ((new as i128) - (self.pos.y as i128)) as u64;
        Ok(())
    }

    /// Move the left edge to the absolute coordinate `new`, holding the right
    /// edge fixed.  Fails with `InvalidRegion`, leaving the region unchanged,
    /// exactly when the new width would fall below the minimum.
    pub fn set_left(&mut self, new: i64) -> (res: Result<(), ErrorKind>)
        requires
            old(self).can_set_left(new as int) ==> old(self).spec_right() - new <= u64::MAX,
        ensures
            old(self).can_set_left(new as int) ==> *final(self) == old(self).with_left(new as int)
                && res == Ok::<(), ErrorKind>(()),
            !old(self).can_set_left(new as int) ==> *final(self) == *old(self)
                && res == Err::<(), ErrorKind>(ErrorKind::InvalidRegion),
    {
        let right: i128 = (self.pos.x as i128) + (self.size.w as i128);
        if (new as i128) > right - (MIN_REGION_WIDTH as i128) {
            return Err(ErrorKind::InvalidRegion);
        }
        self.size.w = (right - (new as i128)) as u64;
        self.pos.x = new;
        Ok(())
    }

    /// Move the right edge to the absolute coordinate `new`, holding the left
    /// edge fixed.  Fails with `InvalidRegion`, leaving the region unchanged,
    /// exactly when the new width would fall below the minimum.
    pub fn set_right(&mut self, new: i64) -> (res: Result<(), ErrorKind>)
        ensures
            old(self).can_set_right(new as int) ==> *final(self) == old(self).with_right(
                new as int,
            ) && res == Ok::<(), ErrorKind>(()),
            !old(self).can_set_right(new as int) ==> *final(self) == *old(self)
                && res == Err::<(), ErrorKind>(ErrorKind::InvalidRegion),
    {
        if (new as i128) < (self.pos.x as i128) + (MIN_REGION_WIDTH as i128) {
            return Err(ErrorKind::InvalidRegion);
        }
        self.size.w = ((new as i128) - (self.pos.x as i128)) as u64;
        Ok(())
    }
}

} // verus!
