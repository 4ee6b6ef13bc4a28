//! Axis-aligned rectangles on the board, and the signed shift of unsigned
//! coordinates.
use crate::game::position::BoardPosition;
use vstd::prelude::*;

verus! {

/// A signed displacement on the board: `x` columns to the right and `y` rows
/// down.
#[derive(Debug, Clone, Copy, PartialEq, Eq, Structural)]
pub struct Offset {
    pub x: i8,
    pub y: i8,
}

impl Offset {
    #[inline]
    pub fn new(x: i8, y: i8) -> (r: Self)
        ensures
            r == (Offset { x, y }),
    {
        Self { x, y }
    }
}

/// The coordinate nearest to `v` that a `u8` can hold.
pub open spec fn clamp_u8(v: int) -> u8 {
    if v < 0 {
        0u8
    } else if v > 255 {
        255u8
    } else {
        v as u8
    }
}

/// Addition of a signed offset to an unsigned value that saturates instead of
/// wrapping.
pub trait MixAdd<O>: Sized {
    /// The sum that `mix_add` returns.
    spec fn mix_added(self, other: O) -> Self;

    fn mix_add(self, other: O) -> (r: Self)
        ensures
            r == self.mix_added(other),
    ;

    fn mix_add_assign(&mut self, other: O)
        where Self: Copy
        ensures
            *final(self) == old(self).mix_added(other),
    {
        *self = self.mix_add(other);
    }
}

impl MixAdd<i8> for u8 {
    open spec fn mix_added(self, other: i8) -> u8 {
        clamp_u8(self + other)
    }

    #[inline]
    fn mix_add(self, other: i8) -> (r: u8) {
        let sum: i16 = self as i16 + other as i16;
        if sum < 0 {
            0
        } else if sum > 255 {
            255
        } else {
            sum as u8
        }
    }
}

impl MixAdd<Offset> for BoardPosition {
    open spec fn mix_added(self, other: Offset) -> BoardPosition {
        BoardPosition { x: clamp_u8(self.x + other.x), y: clamp_u8(self.y + other.y) }
    }

    #[inline]
    fn mix_add(self, other: Offset) -> (r: BoardPosition) {
        BoardPosition { x: self.x.mix_add(other.x), y: self.y.mix_add(other.y) }
    }
}

/// A rectangle of `width` by `height` cells whose top left cell is `(x, y)`.
#[derive(Debug, Clone, Copy, PartialEq, Eq, Structural)]
pub struct BoundingBox {
    pub x: u8,
    pub y: u8,
    pub width: u8,
    pub height: u8,
}

impl BoundingBox {
    /// The first column to the right of the box.
    pub open spec fn right(self) -> int {
        self.x + self.width
    }

    /// The first row below the box.
    pub open spec fn bottom(self) -> int {
        self.y + self.height
    }

    /// Whether the two boxes overlap. Boxes that only touch along an edge do
    /// not.
    pub open spec fn intersects(self, other: Self) -> bool {
        !(self.right() <= other.x || other.right() <= self.x || self.bottom() <= other.y
            || other.bottom() <= self.y)
    }

    /// The box moved by `(dx, dy)`, each coordinate saturating at the ends of
    /// its range.
    pub open spec fn shifted(self, dx: int, dy: int) -> Self {
        BoundingBox {
            x: clamp_u8(self.x + dx),
            y: clamp_u8(self.y + dy),
            width: self.width,
            height: self.height,
        }
    }

    /// Whether `(px, py)` lies in the box, its right and bottom edges
    /// included.
    pub open spec fn holds(self, px: int, py: int) -> bool {
        self.x <= px <= self.right() && self.y <= py <= self.bottom()
    }

    #[inline]
    pub fn new(x: u8, y: u8, width: u8, height: u8) -> (r: Self)
        ensures
            r == (BoundingBox { x, y, width, height }),
    {
        Self { x, y, width, height }
    }

    #[inline]
    pub fn shift(&mut self, offset: Offset)
        ensures
            *final(self) == old(self).shifted(offset.x as int, offset.y as int),
    {
        self.x = self.x.mix_add(offset.x);
        self.y = self.y.mix_add(offset.y);
    }

    #[inline]
    pub fn intersect(self, other: Self) -> (r: bool)
        ensures
            r == self.intersects(other),
    {
        let self_right: u16 = self.x as u16 + self.width as u16;
        let other_right: u16 = other.x as u16 + other.width as u16;
        let self_bottom: u16 = self.y as u16 + self.height as u16;
        let other_bottom: u16 = other.y as u16 + other.height as u16;
        !(self_right <= other.x as u16 || other_right <= self.x as u16 || self_bottom
            <= other.y as u16 || other_bottom <= self.y as u16)
    }

    #[inline]
    pub fn contains(self, point: BoardPosition) -> (r: bool)
        ensures
            r == self.holds(point.x as int, point.y as int),
    {
        let right: u16 = self.x as u16 + self.width as u16;
        let bottom: u16 = self.y as u16 + self.height as u16;
        self.x <= point.x && right >= point.x as u16 && self.y <= point.y && bottom
            >= point.y as u16
    }
}

} // verus!
