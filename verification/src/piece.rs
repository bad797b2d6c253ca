//! Pieces of the sliding-block puzzle and the geometry of the 4 x 5 tray.

use vstd::prelude::*;

verus! {

/// Number of columns of the tray.
pub const BOARD_WIDTH: u8 = 4;

/// Number of rows of the tray.
pub const BOARD_HEIGHT: u8 = 5;

/// The four kinds of blocks.
#[derive(Clone, Copy, Debug, PartialEq, Eq, Structural, PartialOrd, Ord, Hash)]
pub enum PieceType {
    /// The large square block that has to reach the exit.
    Red2x2,
    /// A block one column wide and two rows tall.
    Yellow1x2,
    /// A block two columns wide and one row tall.
    Yellow2x1,
    /// A single-cell block.
    Blue1x1,
}

impl PieceType {
    /// Width of a block of this kind, in cells.
    pub open spec fn width(self) -> int {
        match self {
            PieceType::Red2x2 => 2,
            PieceType::Yellow1x2 => 1,
            PieceType::Yellow2x1 => 2,
            PieceType::Blue1x1 => 1,
        }
    }

    /// Height of a block of this kind, in cells.
    pub open spec fn height(self) -> int {
        match self {
            PieceType::Red2x2 => 2,
            PieceType::Yellow1x2 => 2,
            PieceType::Yellow2x1 => 1,
            PieceType::Blue1x1 => 1,
        }
    }

    /// Position of this kind in the declaration order of the enum,
    /// which is the order the derived `Ord` follows.
    pub open spec fn rank(self) -> int {
        match self {
            PieceType::Red2x2 => 0,
            PieceType::Yellow1x2 => 1,
            PieceType::Yellow2x1 => 2,
            PieceType::Blue1x1 => 3,
        }
    }

    /// Width and height of a block of this kind.
    pub fn dims(self) -> (res: (u8, u8))
        ensures
            res.0 == self.width(),
            res.1 == self.height(),
    {
        match self {
            PieceType::Red2x2 => (2, 2),
            PieceType::Yellow1x2 => (1, 2),
            PieceType::Yellow2x1 => (2, 1),
            PieceType::Blue1x1 => (1, 1),
        }
    }

    /// The rank of this kind, computed.
    pub fn rank_of(self) -> (res: u8)
        ensures
            res == self.rank(),
    {
        match self {
            PieceType::Red2x2 => 0,
            PieceType::Yellow1x2 => 1,
            PieceType::Yellow2x1 => 2,
            PieceType::Blue1x1 => 3,
        }
    }
}

/// A block placed in the tray; `(x, y)` is the column and row of its top-left cell.
#[derive(Clone, Copy, Debug, PartialEq, Eq, Structural, PartialOrd, Ord, Hash)]
pub struct Piece {
    pub piece_type: PieceType,
    pub x: u8,
    pub y: u8,
}

impl Piece {
    /// Width of the block, in cells.
    pub open spec fn w(self) -> int {
        self.piece_type.width()
    }

    /// Height of the block, in cells.
    pub open spec fn h(self) -> int {
        self.piece_type.height()
    }

    /// The block occupies cell `(cx, cy)`.
    pub open spec fn covers(self, cx: int, cy: int) -> bool {
        &&& self.x <= cx < self.x + self.w()
        &&& self.y <= cy < self.y + self.h()
    }

    /// The whole block lies inside the tray.
    pub open spec fn fits(self) -> bool {
        &&& self.x + self.w() <= BOARD_WIDTH
        &&& self.y + self.h() <= BOARD_HEIGHT
    }

    /// The rectangles of two blocks share no cell.
    pub open spec fn apart(self, other: Piece) -> bool {
        ||| self.x + self.w() <= other.x
        ||| other.x + other.w() <= self.x
        ||| self.y + self.h() <= other.y
        ||| other.y + other.h() <= self.y
    }
}

/// Two rectangles that are not apart share a cell: the cell at the larger of their
/// left edges and the larger of their top edges.
pub proof fn lemma_overlap_witness(p: Piece, q: Piece)
    requires
        !p.apart(q),
    ensures
        p.covers(if p.x < q.x { q.x as int } else { p.x as int }, if p.y < q.y { q.y as int } else { p.y as int }),
        q.covers(if p.x < q.x { q.x as int } else { p.x as int }, if p.y < q.y { q.y as int } else { p.y as int }),
{
}

/// The order in which a canonical board lists its blocks: by kind, then by row,
/// then by column.
pub open spec fn piece_le(a: Piece, b: Piece) -> bool {
    ||| a.piece_type.rank() < b.piece_type.rank()
    ||| a.piece_type.rank() == b.piece_type.rank() && a.y < b.y
    ||| a.piece_type.rank() == b.piece_type.rank() && a.y == b.y && a.x <= b.x
}

/// `piece_le` as a value, for `Seq::sort_by`.
pub open spec fn piece_order() -> spec_fn(Piece, Piece) -> bool {
    |a: Piece, b: Piece| piece_le(a, b)
}

/// `piece_le` is a total order on blocks.
pub proof fn lemma_piece_order_total()
    ensures
        vstd::relations::total_ordering(piece_order()),
{
    let r = piece_order();
    assert forall|a: Piece, b: Piece| #[trigger] r(a, b) && #[trigger] r(b, a) implies a == b by {
        assert(a.piece_type.rank() == b.piece_type.rank());
        assert(a.piece_type == b.piece_type);
    }
    assert forall|a: Piece, b: Piece, c: Piece| #[trigger] r(a, b) && #[trigger] r(b, c) implies r(a, c) by {
    }
}

/// `piece_le` is the lexicographic order on (rank of the kind, row, column), for every kind.
pub proof fn lemma_piece_le_lexicographic(a: Piece, b: Piece)
    ensures
        piece_le(a, b) <==> (a.piece_type.rank() < b.piece_type.rank() || (a.piece_type.rank()
            == b.piece_type.rank() && (a.y < b.y || (a.y == b.y && a.x <= b.x)))),
        piece_order()(a, b) == piece_le(a, b),
{
}

/// Compares two blocks by `piece_le`.
pub fn piece_leq(a: &Piece, b: &Piece) -> (res: bool)
    ensures
        res == piece_le(*a, *b),
        res <==> (a.piece_type.rank() < b.piece_type.rank() || (a.piece_type.rank() == b.piece_type.rank()
            && (a.y < b.y || (a.y == b.y && a.x <= b.x)))),
{
    let ra = a.piece_type.rank_of();
    let rb = b.piece_type.rank_of();
    if ra != rb {
        ra < rb
    } else if a.y != b.y {
        a.y < b.y
    } else {
        a.x <= b.x
    }
}

} // verus!
