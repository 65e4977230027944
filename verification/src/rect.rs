//! Basic manipulation of rectangles.

use vstd::prelude::*;

verus! {

/// A rectangular region of non-zero width and height.
#[derive(Copy, Clone, Debug, PartialEq, Eq, Structural)]
pub struct Rect {
    left: i32,
    top: i32,
    width: u32,
    height: u32,
}

/// Position of the top left of a rectangle.
#[derive(Copy, Clone, Debug, PartialEq, Eq, Structural)]
pub struct RectPosition {
    left: i32,
    top: i32,
}

/// A geometrical representation of a set of 2D points with coordinate type T.
pub trait Region<T> {
    /// The set of points of the region, as a predicate.
    spec fn holds(&self, x: T, y: T) -> bool;

    /// Whether this region contains the given point.
    fn contains(&self, x: T, y: T) -> (inside: bool)
        ensures
            inside == self.holds(x, y),
    ;
}

impl Rect {
    /// Smallest x-coordinate of the rectangle.
    pub closed spec fn spec_left(&self) -> int {
        self.left as int
    }

    /// Smallest y-coordinate of the rectangle.
    pub closed spec fn spec_top(&self) -> int {
        self.top as int
    }

    /// Number of columns of the rectangle.
    pub closed spec fn spec_width(&self) -> int {
        self.width as int
    }

    /// Number of rows of the rectangle.
    pub closed spec fn spec_height(&self) -> int {
        self.height as int
    }

    /// Greatest x-coordinate of the rectangle.
    pub open spec fn spec_right(&self) -> int {
        self.spec_left() + self.spec_width() - 1
    }

    /// Greatest y-coordinate of the rectangle.
    pub open spec fn spec_bottom(&self) -> int {
        self.spec_top() + self.spec_height() - 1
    }

    /// A rectangle is well formed when it is non-empty and its greatest
    /// coordinates are representable.
    pub open spec fn wf(&self) -> bool {
        &&& self.spec_width() > 0
        &&& self.spec_height() > 0
        &&& self.spec_right() <= i32::MAX
        &&& self.spec_bottom() <= i32::MAX
    }

    /// Whether the integer point `(x, y)` lies in the rectangle.
    pub open spec fn has_point(&self, x: int, y: int) -> bool {
        &&& self.spec_left() <= x <= self.spec_right()
        &&& self.spec_top() <= y <= self.spec_bottom()
    }

    /// Create a new square of the given side length centred at `(left, top)`.
    pub fn square(left: i32, top: i32, side_length: u32) -> (r: Rect)
        requires
            side_length > 0,
            left - side_length / 2 >= i32::MIN,
            top - side_length / 2 >= i32::MIN,
            left - side_length / 2 + side_length - 1 <= i32::MAX,
            top - side_length / 2 + side_length - 1 <= i32::MAX,
        ensures
            r.wf(),
            r.spec_left() == left - side_length / 2,
            r.spec_top() == top - side_length / 2,
            r.spec_width() == side_length,
            r.spec_height() == side_length,
    {
        let half_length: i32 = (side_length / 2) as i32;
        Rect { left: left - half_length, top: top - half_length, width: side_length, height: side_length }
    }

    /// Reduces possibility of confusing coordinates and dimensions
    /// when specifying rects.
    pub fn at(x: i32, y: i32) -> (p: RectPosition)
        ensures
            p.spec_left() == x,
            p.spec_top() == y,
    {
        RectPosition { left: x, top: y }
    }

    /// Smallest y-coordinate reached by rect.
    pub fn top(&self) -> (t: i32)
        ensures
            t == self.spec_top(),
    {
        self.top
    }

    /// Smallest x-coordinate reached by rect.
    pub fn left(&self) -> (l: i32)
        ensures
            l == self.spec_left(),
    {
        self.left
    }

    /// Greatest y-coordinate reached by rect.
    pub fn bottom(&self) -> (b: i32)
        requires
            self.wf(),
        ensures
            b == self.spec_bottom(),
    {
        ((self.top as i64) + (self.height as i64) - 1) as i32
    }

    /// Greatest x-coordinate reached by rect.
    pub fn right(&self) -> (r: i32)
        requires
            self.wf(),
        ensures
            r == self.spec_right(),
    {
        ((self.left as i64) + (self.width as i64) - 1) as i32
    }

    /// Width of rect.
    pub fn width(&self) -> (w: u32)
        ensures
            w == self.spec_width(),
    {
        self.width
    }

    /// Height of rect.
    pub fn height(&self) -> (h: u32)
        ensures
            h == self.spec_height(),
    {
        self.height
    }

    /// Returns the intersection of self and other, or none if they are are disjoint.
    pub fn intersect(&self, other: Rect) -> (common: Option<Rect>)
        requires
            self.wf(),
            other.wf(),
        ensures
            common.is_some() <==> exists|x: int, y: int| self.has_point(x, y) && other.has_point(x, y),
            common.is_some() ==> {
                let c = common.unwrap();
                &&& c.wf()
                &&& c.spec_left() == if self.spec_left() >= other.spec_left() { self.spec_left() } else { other.spec_left() }
                &&& c.spec_top() == if self.spec_top() >= other.spec_top() { self.spec_top() } else { other.spec_top() }
                &&& c.spec_right() == if self.spec_right() <= other.spec_right() { self.spec_right() } else { other.spec_right() }
                &&& c.spec_bottom() == if self.spec_bottom() <= other.spec_bottom() { self.spec_bottom() } else { other.spec_bottom() }
                &&& forall|x: int, y: int| c.has_point(x, y) <==> self.has_point(x, y) && other.has_point(x, y)
            },
    {
        let left: i32 = if self.left >= other.left { self.left } else { other.left };
        let top: i32 = if self.top >= other.top { self.top } else { other.top };
        let self_right: i32 = self.right();
        let other_right: i32 = other.right();
        let self_bottom: i32 = self.bottom();
        let other_bottom: i32 = other.bottom();
        let right: i32 = if self_right <= other_right { self_right } else { other_right };
        let bottom: i32 = if self_bottom <= other_bottom { self_bottom } else { other_bottom };

        if right < left || bottom < top {
            proof {
                assert forall|x: int, y: int| !(self.has_point(x, y) && other.has_point(x, y)) by {}
            }
            return None;
        }
        let width: u32 = ((right as i64) - (left as i64) + 1) as u32;
        let height: u32 = ((bottom as i64) - (top as i64) + 1) as u32;
        let c = Rect { left, top, width, height };
        proof {
            assert(self.has_point(left as int, top as int) && other.has_point(left as int, top as int));
        }
        Some(c)
    }
}

impl Region<i32> for Rect {
    open spec fn holds(&self, x: i32, y: i32) -> bool {
        self.has_point(x as int, y as int)
    }

    fn contains(&self, x: i32, y: i32) -> (inside: bool) {
        let right: i64 = (self.left as i64) + (self.width as i64) - 1;
        let bottom: i64 = (self.top as i64) + (self.height as i64) - 1;
        let inside = (self.left as i64) <= (x as i64) && (x as i64) <= right && (self.top as i64) <= (y as i64) && (y as i64) <= bottom;
        inside
    }
}

impl RectPosition {
    /// The x-coordinate of the position.
    pub closed spec fn spec_left(&self) -> int {
        self.left as int
    }

    /// The y-coordinate of the position.
    pub closed spec fn spec_top(&self) -> int {
        self.top as int
    }

    /// Construct a rectangle from a position and size. Width and height
    /// are required to be strictly positive.
    pub fn of_size(self, width: u32, height: u32) -> (r: Rect)
        requires
            width > 0,
            height > 0,
            self.spec_left() + width - 1 <= i32::MAX,
            self.spec_top() + height - 1 <= i32::MAX,
        ensures
            r.wf(),
            r.spec_left() == self.spec_left(),
            r.spec_top() == self.spec_top(),
            r.spec_width() == width,
            r.spec_height() == height,
    {
        Rect { left: self.left, top: self.top, width: width, height: height }
    }
}

} // verus!
