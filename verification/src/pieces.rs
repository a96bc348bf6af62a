//! What the display keeps for each piece: its identity and the sprite that
//! shows it. Lengths are whole numbers of display units.

use vstd::prelude::*;

use crate::event::PieceIndex;

verus! {

/// A width and a height, or a place measured from a corner.
#[derive(Clone, Copy, Debug, PartialEq, Eq, Structural)]
pub struct Extent {
    pub x: u32,
    pub y: u32,
}

/// A distance along both axes.
#[derive(Clone, Copy, Debug, PartialEq, Eq, Structural)]
pub struct Offset {
    pub x: i32,
    pub y: i32,
}

/// One piece as the display knows it.
#[derive(Clone, Copy, Debug, PartialEq, Eq, Structural)]
pub struct PieceComponent {
    index: PieceIndex,
    sprite_size: Extent,
    sprite_origin: Extent,
}

impl PieceComponent {
    /// The component of piece `index`, whose sprite has the size
    /// `sprite_size` and shows the piece's own place at `sprite_origin`,
    /// measured from the sprite's corner.
    pub fn new(index: PieceIndex, sprite_size: Extent, sprite_origin: Extent) -> (r: PieceComponent)
        ensures
            r.identity() == index,
            r.size() == sprite_size,
            r.origin() == sprite_origin,
    {
        PieceComponent { index, sprite_size, sprite_origin }
    }

    /// The identity of the piece.
    pub closed spec fn identity(&self) -> PieceIndex {
        self.index
    }

    /// Width and height of the sprite.
    pub closed spec fn size(&self) -> Extent {
        self.sprite_size
    }

    /// The place of the piece within its sprite.
    pub closed spec fn origin(&self) -> Extent {
        self.sprite_origin
    }

    /// Whether the point `(x, y)`, measured from the piece's place, lies on
    /// the sprite, its edges included.
    pub open spec fn covers(&self, x: int, y: int) -> bool {
        &&& 0 <= x + self.origin().x <= self.size().x
        &&& 0 <= y + self.origin().y <= self.size().y
    }

    /// The identity of the piece.
    pub fn index(&self) -> (r: PieceIndex)
        ensures
            r == self.identity(),
    {
        self.index
    }

    /// Whether the point `(x, y)`, measured from the piece's place, lies on
    /// the sprite, its edges included.
    pub fn within_sprite_bounds(&self, x: i64, y: i64) -> (r: bool)
        ensures
            r == self.covers(x as int, y as int),
    {
        let px = x as i128 + self.sprite_origin.x as i128;
        let py = y as i128 + self.sprite_origin.y as i128;
        0 <= px && px <= self.sprite_size.x as i128 && 0 <= py && py <= self.sprite_size.y as i128
    }
}

/// The piece that the local player holds, and where on the piece the
/// pointer took hold of it.
#[derive(Clone, Copy, Debug, PartialEq, Eq, Structural)]
pub struct HeldPiece {
    pub index: PieceIndex,
    pub cursor_offset: Offset,
}

} // verus!
