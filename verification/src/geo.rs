//! Integer geometry in logical pixels: points, sizes and rectangles.
use vstd::prelude::*;

verus! {

/// A position in logical pixels.
#[derive(Clone, Copy, PartialEq, Eq, Structural, Debug, Default)]
pub struct Point {
    pub x: i64,
    pub y: i64,
}

/// A width and a height in logical pixels.
#[derive(Clone, Copy, PartialEq, Eq, Structural, Debug, Default)]
pub struct Size {
    pub width: i64,
    pub height: i64,
}

/// An axis-aligned rectangle given by its top-left corner and its size.
#[derive(Clone, Copy, PartialEq, Eq, Structural, Debug, Default)]
pub struct Rect {
    pub position: Point,
    pub size: Size,
}

/// True when `v` can be stored in an `i64`.
pub open spec fn fits_i64(v: int) -> bool {
    i64::MIN <= v <= i64::MAX
}

impl Point {
    pub fn new(x: i64, y: i64) -> (p: Point)
        ensures
            p.x == x,
            p.y == y,
    {
        Point { x, y }
    }

    /// The sum of two points, coordinate by coordinate.
    pub fn add(self, other: Point) -> (p: Point)
        requires
            fits_i64(self.x + other.x),
            fits_i64(self.y + other.y),
        ensures
            p.x == self.x + other.x,
            p.y == self.y + other.y,
    {
        Point { x: self.x + other.x, y: self.y + other.y }
    }
}

impl Size {
    pub fn new(width: i64, height: i64) -> (s: Size)
        ensures
            s.width == width,
            s.height == height,
    {
        Size { width, height }
    }
}

/// Whether `p` lies inside the rectangle at `pos` with size `size`:
/// the left and top edges belong to it, the right and bottom edges do not.
pub open spec fn contains_point(pos: Point, size: Size, p: Point) -> bool {
    &&& pos.x <= p.x
    &&& p.x < pos.x + size.width
    &&& pos.y <= p.y
    &&& p.y < pos.y + size.height
}

/// The empty rectangle at the origin.
pub open spec fn zero_rect() -> Rect {
    Rect { position: Point { x: 0, y: 0 }, size: Size { width: 0, height: 0 } }
}

impl Rect {
    /// The empty rectangle at the origin.
    pub fn zero() -> (r: Rect)
        ensures
            r == zero_rect(),
    {
        Rect { position: Point { x: 0, y: 0 }, size: Size { width: 0, height: 0 } }
    }

    pub fn new(position: Point, size: Size) -> (r: Rect)
        ensures
            r.position == position,
            r.size == size,
    {
        Rect { position, size }
    }

    /// The rectangle of the given size at the origin.
    pub fn new_from_size(size: Size) -> (r: Rect)
        ensures
            r.position == (Point { x: 0, y: 0 }),
            r.size == size,
    {
        Rect { position: Point { x: 0, y: 0 }, size }
    }

    pub fn position(&self) -> (p: Point)
        ensures
            p == self.position,
    {
        self.position
    }

    pub fn size(&self) -> (s: Size)
        ensures
            s == self.size,
    {
        self.size
    }

    pub fn set_position(&mut self, position: Point)
        ensures
            final(self).position == position,
            final(self).size == old(self).size,
    {
        self.position = position;
    }

    /// Whether the point lies inside this rectangle.
    pub fn hit_test(&self, point: &Point) -> (hit: bool)
        ensures
            hit == contains_point(self.position, self.size, *point),
    {
        let px = point.x as i128;
        let py = point.y as i128;
        let x = self.position.x as i128;
        let y = self.position.y as i128;
        let w = self.size.width as i128;
        let h = self.size.height as i128;
        x <= px && px < x + w && y <= py && py < y + h
    }
}

} // verus!
