//! A board: the blocks in the tray, its occupancy grid and the goal test.

use vstd::prelude::*;

use crate::piece::{PieceType, Piece};

verus! {

/// Largest number of blocks a valid board holds: one per cell of the tray.
pub const MAX_PIECES: usize = 20;

/// Every block lies inside the tray.
pub open spec fn all_fit(s: Seq<Piece>) -> bool {
    forall|i: int| 0 <= i < s.len() ==> #[trigger] s[i].fits()
}

/// No two blocks share a cell.
pub open spec fn all_apart(s: Seq<Piece>) -> bool {
    forall|i: int, j: int| 0 <= i < s.len() && 0 <= j < s.len() && i != j ==> #[trigger] s[i].apart(
        #[trigger] s[j],
    )
}

/// A valid position: all blocks inside the tray, none overlapping, at most one per cell.
pub open spec fn well_formed(s: Seq<Piece>) -> bool {
    &&& all_fit(s)
    &&& all_apart(s)
    &&& s.len() <= MAX_PIECES
}

/// The last of the first `n` blocks that covers cell `(x, y)`, or -1 if none does.
pub open spec fn owner(s: Seq<Piece>, n: int, x: int, y: int) -> int
    decreases n,
{
    if n <= 0 {
        -1
    } else if s[n - 1].covers(x, y) {
        n - 1
    } else {
        owner(s, n - 1, x, y)
    }
}

/// The grid entry for a block index: the index cut to an `i8`.
pub open spec fn tag(o: int) -> i8 {
    if o < 0 {
        -1i8
    } else {
        o as i8
    }
}

/// The grid entry of cell `(x, y)` after the first `n` blocks have been drawn,
/// each one over the ones before it.
pub open spec fn cell_upto(s: Seq<Piece>, n: int, x: int, y: int) -> i8 {
    tag(owner(s, n, x, y))
}

/// The grid entry of cell `(x, y)`: -1 for an empty cell, otherwise the index of the
/// last block that covers it.
pub open spec fn cell_value(s: Seq<Piece>, x: int, y: int) -> i8 {
    cell_upto(s, s.len() as int, x, y)
}

/// The position is solved: the first red block in the list sits at column 1, row 3,
/// so that it covers the exit at the bottom middle of the tray.
pub open spec fn goal_reached(s: Seq<Piece>) -> bool {
    exists|i: int|
        #![trigger s[i]]
        0 <= i < s.len() && s[i].piece_type == PieceType::Red2x2 && (forall|j: int|
            0 <= j < i ==> s[j].piece_type != PieceType::Red2x2) && s[i].x == 1 && s[i].y == 3
}

/// The starting layout of the puzzle.
pub open spec fn start_layout() -> Seq<Piece> {
    seq![
        Piece { piece_type: PieceType::Red2x2, x: 1, y: 0 },
        Piece { piece_type: PieceType::Yellow1x2, x: 0, y: 0 },
        Piece { piece_type: PieceType::Yellow1x2, x: 3, y: 0 },
        Piece { piece_type: PieceType::Yellow1x2, x: 0, y: 2 },
        Piece { piece_type: PieceType::Yellow1x2, x: 3, y: 2 },
        Piece { piece_type: PieceType::Yellow2x1, x: 1, y: 2 },
        Piece { piece_type: PieceType::Blue1x1, x: 1, y: 3 },
        Piece { piece_type: PieceType::Blue1x1, x: 2, y: 3 },
        Piece { piece_type: PieceType::Blue1x1, x: 1, y: 4 },
        Piece { piece_type: PieceType::Blue1x1, x: 2, y: 4 },
    ]
}

/// A position of the puzzle: the list of blocks in the tray.
#[derive(Debug, PartialEq, Eq, Hash)]
pub struct Board {
    pub pieces: Vec<Piece>,
}

impl View for Board {
    type V = Seq<Piece>;

    open spec fn view(&self) -> Seq<Piece> {
        self.pieces@
    }
}

impl Clone for Board {
    fn clone(&self) -> (res: Self)
        ensures
            res@ == self@,
    {
        let mut pieces: Vec<Piece> = Vec::new();
        let n = self.pieces.len();
        let mut i: usize = 0;
        while i < n
            invariant
                n == self.pieces@.len(),
                i <= n,
                pieces@ == self.pieces@.subrange(0, i as int),
            decreases n - i,
        {
            pieces.push(self.pieces[i]);
            i += 1;
            assert(pieces@ =~= self.pieces@.subrange(0, i as int));
        }
        assert(pieces@ =~= self.pieces@);
        Board { pieces }
    }
}

/// Every cell of the start layout lies in the tray and no two blocks overlap.
pub proof fn lemma_start_layout_well_formed()
    ensures
        well_formed(start_layout()),
{
    let s = start_layout();
    assert(s.len() == 10);
    assert forall|i: int, j: int| 0 <= i < s.len() && 0 <= j < s.len() && i != j implies #[trigger] s[i].apart(
        #[trigger] s[j],
    ) by {
        assert(s[0] == Piece { piece_type: PieceType::Red2x2, x: 1, y: 0 });
        assert(s[1] == Piece { piece_type: PieceType::Yellow1x2, x: 0, y: 0 });
        assert(s[2] == Piece { piece_type: PieceType::Yellow1x2, x: 3, y: 0 });
        assert(s[3] == Piece { piece_type: PieceType::Yellow1x2, x: 0, y: 2 });
        assert(s[4] == Piece { piece_type: PieceType::Yellow1x2, x: 3, y: 2 });
        assert(s[5] == Piece { piece_type: PieceType::Yellow2x1, x: 1, y: 2 });
        assert(s[6] == Piece { piece_type: PieceType::Blue1x1, x: 1, y: 3 });
        assert(s[7] == Piece { piece_type: PieceType::Blue1x1, x: 2, y: 3 });
        assert(s[8] == Piece { piece_type: PieceType::Blue1x1, x: 1, y: 4 });
        assert(s[9] == Piece { piece_type: PieceType::Blue1x1, x: 2, y: 4 });
    }
}

/// Facts about `owner` that hold of any list: it is -1 or an index below `n` of a block
/// that covers the cell.
pub proof fn lemma_owner_range(s: Seq<Piece>, n: int, x: int, y: int)
    requires
        0 <= n <= s.len(),
    ensures
        -1 <= owner(s, n, x, y) < n,
        owner(s, n, x, y) >= 0 ==> s[owner(s, n, x, y)].covers(x, y),
        owner(s, n, x, y) == -1 ==> forall|j: int| 0 <= j < n ==> !#[trigger] s[j].covers(x, y),
    decreases n,
{
    if n > 0 {
        lemma_owner_range(s, n - 1, x, y);
    }
}

/// On blocks that do not overlap, the owner of a covered cell is the block covering it.
pub proof fn lemma_owner_is_cover(s: Seq<Piece>, n: int, x: int, y: int, j: int)
    requires
        all_apart(s),
        0 <= j < n <= s.len(),
        s[j].covers(x, y),
    ensures
        owner(s, n, x, y) == j,
    decreases n,
{
    if n - 1 != j {
        assert(s[n - 1].apart(s[j]));
        lemma_owner_is_cover(s, n - 1, x, y, j);
    }
}

/// On a valid position the grid marks each cell with the index of the block covering it,
/// and with -1 when no block covers it.
pub proof fn lemma_grid_marks_cover(s: Seq<Piece>, x: int, y: int)
    requires
        well_formed(s),
    ensures
        cell_value(s, x, y) == -1i8 <==> (forall|j: int| 0 <= j < s.len() ==> !#[trigger] s[j].covers(x, y)),
        forall|j: int| 0 <= j < s.len() ==> (cell_value(s, x, y) == j <==> #[trigger] s[j].covers(x, y)),
{
    let n = s.len() as int;
    lemma_owner_range(s, n, x, y);
    assert forall|j: int| 0 <= j < s.len() implies (cell_value(s, x, y) == j <==> #[trigger] s[j].covers(x, y)) by {
        if s[j].covers(x, y) {
            lemma_owner_is_cover(s, n, x, y, j);
        }
    }
    if cell_value(s, x, y) == -1i8 {
        assert forall|j: int| 0 <= j < s.len() implies !#[trigger] s[j].covers(x, y) by {
            if s[j].covers(x, y) {
                lemma_owner_is_cover(s, n, x, y, j);
            }
        }
    }
}

impl Board {
    /// The board is a valid position.
    pub open spec fn wf(&self) -> bool {
        well_formed(self@)
    }

    /// The starting position of the puzzle.
    pub fn new() -> (b: Board)
        ensures
            b@ == start_layout(),
            b.wf(),
    {
        let mut pieces: Vec<Piece> = Vec::new();
        pieces.push(Piece { piece_type: PieceType::Red2x2, x: 1, y: 0 });
        pieces.push(Piece { piece_type: PieceType::Yellow1x2, x: 0, y: 0 });
        pieces.push(Piece { piece_type: PieceType::Yellow1x2, x: 3, y: 0 });
        pieces.push(Piece { piece_type: PieceType::Yellow1x2, x: 0, y: 2 });
        pieces.push(Piece { piece_type: PieceType::Yellow1x2, x: 3, y: 2 });
        pieces.push(Piece { piece_type: PieceType::Yellow2x1, x: 1, y: 2 });
        pieces.push(Piece { piece_type: PieceType::Blue1x1, x: 1, y: 3 });
        pieces.push(Piece { piece_type: PieceType::Blue1x1, x: 2, y: 3 });
        pieces.push(Piece { piece_type: PieceType::Blue1x1, x: 1, y: 4 });
        pieces.push(Piece { piece_type: PieceType::Blue1x1, x: 2, y: 4 });
        proof {
            assert(pieces@ =~= start_layout());
            lemma_start_layout_well_formed();
        }
        Board { pieces }
    }

    /// The occupancy grid of the tray, indexed by row then column: -1 for an empty cell,
    /// otherwise the index of the last block in the list that covers the cell.
    pub fn to_grid(&self) -> (grid: [[i8; 4]; 5])
        requires
            all_fit(self@),
        ensures
            forall|x: int, y: int|
                0 <= x < 4 && 0 <= y < 5 ==> #[trigger] grid@[y]@[x] == cell_value(self@, x, y),
    {
        let mut cells: [i8; 20] = [-1i8; 20];
        let n = self.pieces.len();
        let mut idx: usize = 0;
        while idx < n
            invariant
                n == self@.len(),
                idx <= n,
                all_fit(self@),
                forall|x: int, y: int|
                    0 <= x < 4 && 0 <= y < 5 ==> #[trigger] cells@[y * 4 + x] == cell_upto(
                        self@,
                        idx as int,
                        x,
                        y,
                    ),
            decreases n - idx,
        {
            let p = self.pieces[idx];
            assert(p.fits());
            let (w, h) = p.piece_type.dims();
            let t = idx as i8;
            assert(t == tag(idx as int));
            let mut dx: u8 = 0;
            while dx < w
                invariant
                    p == self@[idx as int],
                    p.fits(),
                    w == p.w(),
                    h == p.h(),
                    t == tag(idx as int),
                    idx < n,
                    n == self@.len(),
                    dx <= w,
                    forall|x: int, y: int|
                        0 <= x < 4 && 0 <= y < 5 ==> #[trigger] cells@[y * 4 + x] == if p.covers(x, y)
                            && x < p.x + dx {
                            t
                        } else {
                            cell_upto(self@, idx as int, x, y)
                        },
                decreases w - dx,
            {
                let mut dy: u8 = 0;
                while dy < h
                    invariant
                        p == self@[idx as int],
                        p.fits(),
                        w == p.w(),
                        h == p.h(),
                        t == tag(idx as int),
                        idx < n,
                        n == self@.len(),
                        dx < w,
                        dy <= h,
                        forall|x: int, y: int|
                            0 <= x < 4 && 0 <= y < 5 ==> #[trigger] cells@[y * 4 + x] == if p.covers(
                                x,
                                y,
                            ) && (x < p.x + dx || (x == p.x + dx && y < p.y + dy)) {
                                t
                            } else {
                                cell_upto(self@, idx as int, x, y)
                            },
                    decreases h - dy,
                {
                    let cx = p.x + dx;
                    let cy = p.y + dy;
                    let c = (cy as usize) * 4 + (cx as usize);
                    cells[c] = t;
                    proof {
                        assert forall|x: int, y: int| 0 <= x < 4 && 0 <= y < 5 implies #[trigger] cells@[y
                            * 4 + x] == if p.covers(x, y) && (x < p.x + dx || (x == p.x + dx && y < p.y
                            + dy + 1)) {
                            t
                        } else {
                            cell_upto(self@, idx as int, x, y)
                        } by {
                            if x == cx && y == cy {
                            } else {
                                assert(y * 4 + x != c);
                            }
                        }
                    }
                    dy += 1;
                }
                dx += 1;
            }
            idx += 1;
        }
        let grid: [[i8; 4]; 5] = [
            [cells[0], cells[1], cells[2], cells[3]],
            [cells[4], cells[5], cells[6], cells[7]],
            [cells[8], cells[9], cells[10], cells[11]],
            [cells[12], cells[13], cells[14], cells[15]],
            [cells[16], cells[17], cells[18], cells[19]],
        ];
        proof {
            assert forall|x: int, y: int| 0 <= x < 4 && 0 <= y < 5 implies #[trigger] grid@[y]@[x]
                == cell_value(self@, x, y) by {
                assert(cells@[y * 4 + x] == cell_upto(self@, n as int, x, y));
            }
        }
        grid
    }

    /// Whether the puzzle is solved: the first red block in the list is at column 1, row 3.
    pub fn is_goal(&self) -> (res: bool)
        ensures
            res == goal_reached(self@),
    {
        let n = self.pieces.len();
        let mut i: usize = 0;
        while i < n
            invariant
                n == self@.len(),
                i <= n,
                forall|j: int| 0 <= j < i ==> self@[j].piece_type != PieceType::Red2x2,
            decreases n - i,
        {
            let p = self.pieces[i];
            if p.piece_type == PieceType::Red2x2 {
                let res = p.x == 1 && p.y == 3;
                proof {
                    if !res {
                        assert forall|k: int|
                            0 <= k < self@.len() && self@[k].piece_type == PieceType::Red2x2 && (forall|j: int|
                                0 <= j < k ==> self@[j].piece_type != PieceType::Red2x2) implies !(self@[k].x
                            == 1 && self@[k].y == 3) by {
                            assert(k == i as int);
                        }
                    }
                }
                return res;
            }
            i += 1;
        }
        false
    }
}

} // verus!
