//! Cells of the board and the order in which rows are read.
use std::cmp::Ordering;
use vstd::prelude::*;
use vstd::std_specs::cmp::PartialOrdSpecImpl;

verus! {

/// A position on the board. The origin is the top left cell.
///
/// Positions are ordered from the bottom row of the board to the top one,
/// and within a row from left to right.
#[derive(Debug, Clone, Copy, PartialEq, Eq, Structural, Hash)]
pub struct BoardPosition {
    pub x: u8,
    pub y: u8,
}

impl BoardPosition {
    /// Whether `self` comes strictly before `other`: it lies on a lower row
    /// (a greater `y`), or on the same row further left.
    pub open spec fn before(self, other: Self) -> bool {
        self.y > other.y || (self.y == other.y && self.x < other.x)
    }

    /// How `self` compares with `other` in the order of positions.
    pub open spec fn ordering(self, other: Self) -> Ordering {
        if self.before(other) {
            Ordering::Less
        } else if other.before(self) {
            Ordering::Greater
        } else {
            Ordering::Equal
        }
    }

    #[inline]
    pub fn new(x: u8, y: u8) -> (r: Self)
        ensures
            r == (BoardPosition { x, y }),
    {
        Self { x, y }
    }

    /// Compares two positions: `y` descending, then `x` ascending.
    pub fn cmp(&self, other: &Self) -> (r: Ordering)
        ensures
            r == self.ordering(*other),
            r == Ordering::Equal <==> *self == *other,
    {
        if self.y > other.y {
            Ordering::Less
        } else if self.y < other.y {
            Ordering::Greater
        } else if self.x < other.x {
            Ordering::Less
        } else if self.x > other.x {
            Ordering::Greater
        } else {
            Ordering::Equal
        }
    }
}

impl Default for BoardPosition {
    fn default() -> (r: Self)
        ensures
            r == (BoardPosition { x: 0, y: 0 }),
    {
        Self { x: 0, y: 0 }
    }
}

impl PartialOrd for BoardPosition {
    fn partial_cmp(&self, other: &Self) -> (r: Option<Ordering>) {
        Some(self.cmp(other))
    }
}

impl PartialOrdSpecImpl for BoardPosition {
    open spec fn obeys_partial_cmp_spec() -> bool {
        true
    }

    open spec fn partial_cmp_spec(&self, other: &Self) -> Option<Ordering> {
        Some(self.ordering(*other))
    }
}

/// The order of positions is total: of two different positions exactly one
/// comes before the other.
pub proof fn lemma_before_total(a: BoardPosition, b: BoardPosition)
    ensures
        a == b || a.before(b) || b.before(a),
        !(a.before(b) && b.before(a)),
        !a.before(a),
{
}

/// The order of positions is transitive.
pub proof fn lemma_before_transitive(a: BoardPosition, b: BoardPosition, c: BoardPosition)
    requires
        a.before(b),
        b.before(c),
    ensures
        a.before(c),
{
}

} // verus!
