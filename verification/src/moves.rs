//! Legal moves: sliding one block by one cell into cells that are empty or its own.

use vstd::prelude::*;

use crate::board::{
    Board, all_fit, well_formed, goal_reached, owner, tag, cell_value, lemma_owner_range, lemma_owner_is_cover,
};
use crate::piece::{Piece, PieceType, lemma_overlap_witness};

verus! {

/// The four unit steps in the order the solver tries them: up, down, left, right.
pub open spec fn step(d: int) -> (int, int) {
    if d == 0 {
        (0, -1)
    } else if d == 1 {
        (0, 1)
    } else if d == 2 {
        (-1, 0)
    } else {
        (1, 0)
    }
}

/// The step that undoes step `d`.
pub open spec fn opposite(d: int) -> int {
    if d == 0 {
        1
    } else if d == 1 {
        0
    } else if d == 2 {
        3
    } else {
        2
    }
}

/// `(dx, dy)` is one of the four unit steps.
pub open spec fn is_unit_step(dx: int, dy: int) -> bool {
    ||| dx == 0 && (dy == 1 || dy == -1)
    ||| dy == 0 && (dx == 1 || dx == -1)
}

/// A grid entry that block `i` may move onto: empty, or already block `i`.
pub open spec fn free_for(c: i8, i: int) -> bool {
    c == -1i8 || c == tag(i)
}

/// Block `i` may be put with its top-left cell at `(nx, ny)`: the block then lies in the
/// tray and every cell it would cover is, in the grid of `s`, empty or block `i` itself.
pub open spec fn target_free(s: Seq<Piece>, i: int, nx: int, ny: int) -> bool {
    let p = s[i];
    &&& 0 <= nx
    &&& 0 <= ny
    &&& nx + p.w() <= 4
    &&& ny + p.h() <= 5
    &&& forall|cx: int, cy: int|
        nx <= cx < nx + p.w() && ny <= cy < ny + p.h() ==> free_for(
            #[trigger] cell_value(s, cx, cy),
            i,
        )
}

/// `s` with block `i` put at `(nx, ny)`.
pub open spec fn placed(s: Seq<Piece>, i: int, nx: int, ny: int) -> Seq<Piece> {
    s.update(i, Piece { piece_type: s[i].piece_type, x: nx as u8, y: ny as u8 })
}

/// Block `i` may slide by step `d`.
pub open spec fn can_slide(s: Seq<Piece>, i: int, d: int) -> bool {
    target_free(s, i, s[i].x + step(d).0, s[i].y + step(d).1)
}

/// `s` with block `i` slid by step `d`.
pub open spec fn slid(s: Seq<Piece>, i: int, d: int) -> Seq<Piece> {
    placed(s, i, s[i].x + step(d).0, s[i].y + step(d).1)
}

/// The moves of block `i` by the first `k` steps, in step order.
pub open spec fn piece_moves(s: Seq<Piece>, i: int, k: int) -> Seq<Seq<Piece>>
    decreases k,
{
    if k <= 0 {
        Seq::empty()
    } else {
        piece_moves(s, i, k - 1) + if can_slide(s, i, k - 1) {
            seq![slid(s, i, k - 1)]
        } else {
            Seq::empty()
        }
    }
}

/// The moves of the first `n` blocks, block by block.
pub open spec fn moves_upto(s: Seq<Piece>, n: int) -> Seq<Seq<Piece>>
    decreases n,
{
    if n <= 0 {
        Seq::empty()
    } else {
        moves_upto(s, n - 1) + piece_moves(s, n - 1, 4)
    }
}

/// Every position one move away from `s`, in the order the solver generates them.
pub open spec fn all_moves(s: Seq<Piece>) -> Seq<Seq<Piece>> {
    moves_upto(s, s.len() as int)
}

/// The positions held by a list of boards.
pub open spec fn views(v: Seq<Board>) -> Seq<Seq<Piece>> {
    v.map_values(|b: Board| b@)
}

/// Whether every cell of the `w` x `h` rectangle at `(nx, ny)` holds -1 or `t`.
fn region_free(grid: &[[i8; 4]; 5], t: i8, nx: i8, ny: i8, w: u8, h: u8) -> (res: bool)
    requires
        0 <= nx,
        0 <= ny,
        nx + w <= 4,
        ny + h <= 5,
    ensures
        res == forall|cx: int, cy: int|
            nx <= cx < nx + w && ny <= cy < ny + h ==> (#[trigger] grid@[cy]@[cx] == -1i8
                || grid@[cy]@[cx] == t),
{
    let mut ox: u8 = 0;
    while ox < w
        invariant
            0 <= nx,
            0 <= ny,
            nx + w <= 4,
            ny + h <= 5,
            ox <= w,
            forall|cx: int, cy: int|
                nx <= cx < nx + ox && ny <= cy < ny + h ==> (#[trigger] grid@[cy]@[cx] == -1i8
                    || grid@[cy]@[cx] == t),
        decreases w - ox,
    {
        let mut oy: u8 = 0;
        while oy < h
            invariant
                0 <= nx,
                0 <= ny,
                nx + w <= 4,
                ny + h <= 5,
                ox < w,
                oy <= h,
                forall|cx: int, cy: int|
                    (nx <= cx < nx + ox && ny <= cy < ny + h) || (cx == nx + ox && ny <= cy < ny
                        + oy) ==> (#[trigger] grid@[cy]@[cx] == -1i8 || grid@[cy]@[cx] == t),
            decreases h - oy,
        {
            let tx = nx + ox as i8;
            let ty = ny + oy as i8;
            let occupant = grid[ty as usize][tx as usize];
            if occupant != -1 && occupant != t {
                return false;
            }
            oy += 1;
        }
        ox += 1;
    }
    true
}

/// On a valid position a grid entry is free for block `i` exactly when no other block
/// covers the cell.
proof fn lemma_free_for_cell(s: Seq<Piece>, i: int, x: int, y: int)
    requires
        well_formed(s),
        0 <= i < s.len(),
    ensures
        free_for(cell_value(s, x, y), i) <==> (forall|j: int|
            0 <= j < s.len() && j != i ==> !#[trigger] s[j].covers(x, y)),
{
    let n = s.len() as int;
    lemma_owner_range(s, n, x, y);
    let o = owner(s, n, x, y);
    if free_for(cell_value(s, x, y), i) {
        assert forall|j: int| 0 <= j < s.len() && j != i implies !#[trigger] s[j].covers(x, y) by {
            if s[j].covers(x, y) {
                lemma_owner_is_cover(s, n, x, y, j);
                assert(o == j);
                assert(tag(j) == j as i8);
                assert(tag(i) == i as i8);
            }
        }
    }
    if forall|j: int| 0 <= j < s.len() && j != i ==> !#[trigger] s[j].covers(x, y) {
        if o >= 0 {
            assert(s[o].covers(x, y));
            assert(o == i);
        }
    }
}

/// Sliding a block keeps the position valid and keeps the number of blocks.
proof fn lemma_slide_keeps_wf(s: Seq<Piece>, i: int, d: int)
    requires
        well_formed(s),
        0 <= i < s.len(),
        can_slide(s, i, d),
    ensures
        well_formed(slid(s, i, d)),
        slid(s, i, d).len() == s.len(),
{
    let t = slid(s, i, d);
    let nx = s[i].x + step(d).0;
    let ny = s[i].y + step(d).1;
    assert(t[i].x == nx && t[i].y == ny);
    assert forall|a: int| 0 <= a < t.len() implies #[trigger] t[a].fits() by {
        if a != i {
            assert(t[a] == s[a]);
        }
    }
    assert forall|b: int| 0 <= b < t.len() && b != i implies t[i].apart(s[b]) by {
        if !t[i].apart(s[b]) {
            lemma_overlap_witness(t[i], s[b]);
            let cx = if t[i].x < s[b].x { s[b].x as int } else { t[i].x as int };
            let cy = if t[i].y < s[b].y { s[b].y as int } else { t[i].y as int };
            assert(free_for(cell_value(s, cx, cy), i));
            lemma_free_for_cell(s, i, cx, cy);
            assert(!s[b].covers(cx, cy));
        }
    }
    assert forall|a: int, b: int|
        0 <= a < t.len() && 0 <= b < t.len() && a != b implies #[trigger] t[a].apart(#[trigger] t[b]) by {
        if a == i {
            assert(t[b] == s[b]);
            assert(t[i].apart(s[b]));
        } else if b == i {
            assert(t[a] == s[a]);
            assert(t[i].apart(s[a]));
        } else {
            assert(t[a] == s[a] && t[b] == s[b]);
            assert(s[a].apart(s[b]));
        }
    }
}

/// Putting a block where `target_free` allows keeps the position valid.
proof fn lemma_placed_keeps_wf(s: Seq<Piece>, i: int, nx: int, ny: int)
    requires
        well_formed(s),
        0 <= i < s.len(),
        target_free(s, i, nx, ny),
    ensures
        well_formed(placed(s, i, nx, ny)),
{
    let t = placed(s, i, nx, ny);
    assert(t[i].x == nx && t[i].y == ny);
    assert forall|a: int| 0 <= a < t.len() implies #[trigger] t[a].fits() by {
        if a != i {
            assert(t[a] == s[a]);
        }
    }
    assert forall|b: int| 0 <= b < t.len() && b != i implies t[i].apart(s[b]) by {
        if !t[i].apart(s[b]) {
            lemma_overlap_witness(t[i], s[b]);
            let cx = if t[i].x < s[b].x { s[b].x as int } else { t[i].x as int };
            let cy = if t[i].y < s[b].y { s[b].y as int } else { t[i].y as int };
            assert(free_for(cell_value(s, cx, cy), i));
            lemma_free_for_cell(s, i, cx, cy);
            assert(!s[b].covers(cx, cy));
        }
    }
    assert forall|a: int, b: int|
        0 <= a < t.len() && 0 <= b < t.len() && a != b implies #[trigger] t[a].apart(#[trigger] t[b]) by {
        if a == i {
            assert(t[b] == s[b]);
            assert(t[i].apart(s[b]));
        } else if b == i {
            assert(t[a] == s[a]);
            assert(t[i].apart(s[a]));
        } else {
            assert(t[a] == s[a] && t[b] == s[b]);
            assert(s[a].apart(s[b]));
        }
    }
}

/// On a valid position, block `i` may be put with its top-left cell at `(nx, ny)` (both
/// non-negative) exactly when the result is again a valid position: the block lies in the
/// tray and shares no cell with any other block. A corner left of or above the tray is
/// never allowed.
pub proof fn lemma_target_free_iff_valid(s: Seq<Piece>, i: int, nx: int, ny: int)
    requires
        well_formed(s),
        0 <= i < s.len(),
    ensures
        nx < 0 || ny < 0 ==> !target_free(s, i, nx, ny),
        0 <= nx < 256 && 0 <= ny < 256 ==> (target_free(s, i, nx, ny) <==> well_formed(
            placed(s, i, nx, ny),
        )),
{
    if target_free(s, i, nx, ny) {
        lemma_placed_keeps_wf(s, i, nx, ny);
    }
    if 0 <= nx < 256 && 0 <= ny < 256 && well_formed(placed(s, i, nx, ny)) {
        let t = placed(s, i, nx, ny);
        let p = s[i];
        assert(t[i].x == nx && t[i].y == ny);
        assert(t[i].fits());
        assert forall|cx: int, cy: int|
            nx <= cx < nx + p.w() && ny <= cy < ny + p.h() implies free_for(
            #[trigger] cell_value(s, cx, cy),
            i,
        ) by {
            assert(t[i].covers(cx, cy));
            assert forall|j: int| 0 <= j < s.len() && j != i implies !#[trigger] s[j].covers(cx, cy) by {
                assert(t[j] == s[j]);
                assert(t[i].apart(t[j]));
            }
            lemma_free_for_cell(s, i, cx, cy);
        }
        assert(target_free(s, i, nx, ny));
    }
}

/// On a valid position, sliding a block by a unit step is one of the position's moves
/// whenever the slid block stays in the tray and shares no cell with any other block.
pub proof fn lemma_valid_slide_is_move(s: Seq<Piece>, i: int, d: int)
    requires
        well_formed(s),
        0 <= i < s.len(),
        0 <= d < 4,
        s[i].x + step(d).0 >= 0,
        s[i].y + step(d).1 >= 0,
        well_formed(slid(s, i, d)),
    ensures
        all_moves(s).contains(slid(s, i, d)),
{
    assert(s[i].fits());
    lemma_target_free_iff_valid(s, i, s[i].x + step(d).0, s[i].y + step(d).1);
    assert(can_slide(s, i, d));
    lemma_all_moves_are_slides(s, slid(s, i, d));
}

/// Sliding a block back by the opposite step is legal and restores the position.
proof fn lemma_slide_back(s: Seq<Piece>, i: int, d: int)
    requires
        well_formed(s),
        0 <= i < s.len(),
        0 <= d < 4,
        can_slide(s, i, d),
    ensures
        can_slide(slid(s, i, d), i, opposite(d)),
        slid(slid(s, i, d), i, opposite(d)) == s,
{
    let t = slid(s, i, d);
    lemma_slide_keeps_wf(s, i, d);
    let e = opposite(d);
    assert(t[i].x + step(e).0 == s[i].x);
    assert(t[i].y + step(e).1 == s[i].y);
    assert(t[i].piece_type == s[i].piece_type);
    assert(s[i].fits());
    let nx = t[i].x + step(e).0;
    let ny = t[i].y + step(e).1;
    assert forall|cx: int, cy: int|
        nx <= cx < nx + t[i].w() && ny <= cy < ny + t[i].h() implies free_for(
        #[trigger] cell_value(t, cx, cy),
        i,
    ) by {
        assert forall|j: int| 0 <= j < t.len() && j != i implies !#[trigger] t[j].covers(cx, cy) by {
            assert(t[j] == s[j]);
            assert(s[i].apart(s[j]));
            assert(s[i].covers(cx, cy));
        }
        lemma_free_for_cell(t, i, cx, cy);
    }
    assert(target_free(t, i, nx, ny));
    assert(slid(t, i, e) =~= s);
}

/// The moves of one block are exactly its legal slides.
proof fn lemma_piece_moves_contains(s: Seq<Piece>, i: int, k: int, t: Seq<Piece>)
    requires
        0 <= k,
    ensures
        piece_moves(s, i, k).contains(t) <==> exists|d: int|
            0 <= d < k && #[trigger] can_slide(s, i, d) && t == slid(s, i, d),
    decreases k,
{
    if k > 0 {
        lemma_piece_moves_contains(s, i, k - 1, t);
        let prev = piece_moves(s, i, k - 1);
        let last = if can_slide(s, i, k - 1) {
            seq![slid(s, i, k - 1)]
        } else {
            Seq::empty()
        };
        assert(piece_moves(s, i, k) == prev + last);
        if piece_moves(s, i, k).contains(t) {
            let m = choose|m: int| 0 <= m < (prev + last).len() && (prev + last)[m] == t;
            if m < prev.len() {
                assert(prev[m] == t);
                assert(prev.contains(t));
            } else {
                assert(last[m - prev.len()] == t);
                assert(can_slide(s, i, k - 1));
            }
        }
        if exists|d: int| 0 <= d < k && #[trigger] can_slide(s, i, d) && t == slid(s, i, d) {
            let d = choose|d: int| 0 <= d < k && #[trigger] can_slide(s, i, d) && t == slid(s, i, d);
            if d < k - 1 {
                assert(prev.contains(t));
                let m = choose|m: int| 0 <= m < prev.len() && prev[m] == t;
                assert((prev + last)[m] == t);
            } else {
                assert((prev + last)[prev.len() as int] == t);
            }
        }
    }
}

/// The moves of the first `n` blocks are exactly their legal slides.
proof fn lemma_moves_upto_contains(s: Seq<Piece>, n: int, t: Seq<Piece>)
    requires
        0 <= n,
    ensures
        moves_upto(s, n).contains(t) <==> exists|i: int, d: int|
            0 <= i < n && 0 <= d < 4 && #[trigger] can_slide(s, i, d) && t == slid(s, i, d),
    decreases n,
{
    if n > 0 {
        lemma_moves_upto_contains(s, n - 1, t);
        lemma_piece_moves_contains(s, n - 1, 4, t);
        let prev = moves_upto(s, n - 1);
        let last = piece_moves(s, n - 1, 4);
        assert(moves_upto(s, n) == prev + last);
        if moves_upto(s, n).contains(t) {
            let m = choose|m: int| 0 <= m < (prev + last).len() && (prev + last)[m] == t;
            if m < prev.len() {
                assert(prev[m] == t);
                assert(prev.contains(t));
            } else {
                assert(last[m - prev.len()] == t);
                assert(last.contains(t));
            }
        }
        if exists|i: int, d: int|
            0 <= i < n && 0 <= d < 4 && #[trigger] can_slide(s, i, d) && t == slid(s, i, d) {
            let (i, d) = choose|i: int, d: int|
                0 <= i < n && 0 <= d < 4 && #[trigger] can_slide(s, i, d) && t == slid(s, i, d);
            if i < n - 1 {
                assert(prev.contains(t));
                let m = choose|m: int| 0 <= m < prev.len() && prev[m] == t;
                assert((prev + last)[m] == t);
            } else {
                assert(last.contains(t));
                let m = choose|m: int| 0 <= m < last.len() && last[m] == t;
                assert((prev + last)[prev.len() + m] == t);
            }
        }
    }
}

/// A position is one move away from `s` exactly when it is `s` with one block slid by
/// one unit step into cells that are empty or its own.
pub proof fn lemma_all_moves_are_slides(s: Seq<Piece>, t: Seq<Piece>)
    ensures
        all_moves(s).contains(t) <==> exists|i: int, d: int|
            0 <= i < s.len() && 0 <= d < 4 && #[trigger] can_slide(s, i, d) && t == slid(s, i, d),
{
    lemma_moves_upto_contains(s, s.len() as int, t);
}

/// Every move of a valid position is a valid position with as many blocks.
pub proof fn lemma_moves_stay_valid(s: Seq<Piece>)
    requires
        well_formed(s),
    ensures
        forall|t: Seq<Piece>| #[trigger] all_moves(s).contains(t) ==> well_formed(t) && t.len() == s.len(),
{
    assert forall|t: Seq<Piece>| #[trigger] all_moves(s).contains(t) implies well_formed(t) && t.len()
        == s.len() by {
        lemma_all_moves_are_slides(s, t);
        let (i, d) = choose|i: int, d: int|
            0 <= i < s.len() && 0 <= d < 4 && #[trigger] can_slide(s, i, d) && t == slid(s, i, d);
        lemma_slide_keeps_wf(s, i, d);
    }
}

/// Every move of a valid position can be undone by a move.
pub proof fn lemma_moves_reversible(s: Seq<Piece>)
    requires
        well_formed(s),
    ensures
        forall|t: Seq<Piece>| #[trigger] all_moves(s).contains(t) ==> all_moves(t).contains(s),
{
    assert forall|t: Seq<Piece>| #[trigger] all_moves(s).contains(t) implies all_moves(t).contains(s) by {
        lemma_all_moves_are_slides(s, t);
        let (i, d) = choose|i: int, d: int|
            0 <= i < s.len() && 0 <= d < 4 && #[trigger] can_slide(s, i, d) && t == slid(s, i, d);
        lemma_slide_back(s, i, d);
        lemma_all_moves_are_slides(t, s);
        assert(can_slide(t, i, opposite(d)) && s == slid(t, i, opposite(d)));
    }
}

/// A slide by a unit step that `try_slide` accepts is one of the solver's moves.
pub proof fn lemma_unit_slide_is_move(s: Seq<Piece>, i: int, dx: int, dy: int)
    requires
        0 <= i < s.len(),
        is_unit_step(dx, dy),
        target_free(s, i, s[i].x + dx, s[i].y + dy),
    ensures
        all_moves(s).contains(placed(s, i, s[i].x + dx, s[i].y + dy)),
{
    let d = if dx == 0 && dy == -1 {
        0
    } else if dx == 0 && dy == 1 {
        1
    } else if dx == -1 {
        2
    } else {
        3
    };
    assert(step(d) == (dx, dy));
    assert(can_slide(s, i, d));
    lemma_all_moves_are_slides(s, placed(s, i, s[i].x + dx, s[i].y + dy));
}

/// A valid position holds each block once.
pub proof fn lemma_wf_no_duplicates(s: Seq<Piece>)
    requires
        well_formed(s),
    ensures
        s.no_duplicates(),
{
    assert forall|i: int, j: int| 0 <= i < s.len() && 0 <= j < s.len() && i != j implies s[i] != s[j] by {
        assert(s[i].apart(s[j]));
    }
}

/// If two valid positions hold the same blocks in some order, a slide in one is matched by
/// the same slide of the same block in the other, and the results again hold the same blocks.
proof fn lemma_slide_respects_blocks(a: Seq<Piece>, b: Seq<Piece>, i: int, d: int) -> (j: int)
    requires
        well_formed(a),
        well_formed(b),
        a.to_multiset() == b.to_multiset(),
        0 <= i < a.len(),
        0 <= d < 4,
        can_slide(a, i, d),
    ensures
        0 <= j < b.len(),
        b[j] == a[i],
        can_slide(b, j, d),
        slid(b, j, d).to_multiset() == slid(a, i, d).to_multiset(),
{
    broadcast use {vstd::seq_lib::group_to_multiset_ensures, vstd::multiset::group_multiset_axioms};

    lemma_wf_no_duplicates(b);
    assert(a.to_multiset().count(a[i]) > 0);
    assert(b.contains(a[i]));
    let j = choose|j: int| 0 <= j < b.len() && b[j] == a[i];
    let p = a[i];
    let nx = p.x + step(d).0;
    let ny = p.y + step(d).1;
    assert forall|cx: int, cy: int|
        nx <= cx < nx + p.w() && ny <= cy < ny + p.h() implies free_for(
        #[trigger] cell_value(b, cx, cy),
        j,
    ) by {
        assert(free_for(cell_value(a, cx, cy), i));
        lemma_free_for_cell(a, i, cx, cy);
        assert forall|k: int| 0 <= k < b.len() && k != j implies !#[trigger] b[k].covers(cx, cy) by {
            assert(b.to_multiset().count(b[k]) > 0);
            assert(a.contains(b[k]));
            let m = choose|m: int| 0 <= m < a.len() && a[m] == b[k];
            assert(b[k] != b[j]);
        }
        lemma_free_for_cell(b, j, cx, cy);
    }
    assert(can_slide(b, j, d));
    assert(slid(b, j, d)[j] == slid(a, i, d)[i]);
    j
}

/// If two valid positions hold the same blocks in some order, every move of the first is
/// matched by a move of the second that holds the same blocks.
pub proof fn lemma_moves_respect_blocks(a: Seq<Piece>, b: Seq<Piece>, a2: Seq<Piece>)
    requires
        well_formed(a),
        well_formed(b),
        a.to_multiset() == b.to_multiset(),
        all_moves(a).contains(a2),
    ensures
        exists|b2: Seq<Piece>| #[trigger] all_moves(b).contains(b2) && b2.to_multiset() == a2.to_multiset(),
{
    lemma_all_moves_are_slides(a, a2);
    let (i, d) = choose|i: int, d: int|
        0 <= i < a.len() && 0 <= d < 4 && #[trigger] can_slide(a, i, d) && a2 == slid(a, i, d);
    let j = lemma_slide_respects_blocks(a, b, i, d);
    lemma_all_moves_are_slides(b, slid(b, j, d));
    assert(all_moves(b).contains(slid(b, j, d)));
}

/// The block at index `r` is red and is the only red block.
pub open spec fn only_red_at(s: Seq<Piece>, r: int) -> bool {
    &&& 0 <= r < s.len()
    &&& s[r].piece_type == PieceType::Red2x2
    &&& forall|j: int| 0 <= j < s.len() && j != r ==> #[trigger] s[j].piece_type != PieceType::Red2x2
}

/// The position holds exactly one red block.
pub open spec fn single_red(s: Seq<Piece>) -> bool {
    exists|r: int| #[trigger] only_red_at(s, r)
}

/// With a single red block, the position is solved exactly when it holds the red block at
/// the exit, whatever the order of the list.
pub proof fn lemma_single_red_goal(s: Seq<Piece>)
    requires
        single_red(s),
    ensures
        goal_reached(s) <==> s.contains(Piece { piece_type: PieceType::Red2x2, x: 1, y: 3 }),
{
    let g = Piece { piece_type: PieceType::Red2x2, x: 1, y: 3 };
    let r = choose|r: int| #[trigger] only_red_at(s, r);
    if s.contains(g) {
        let i = choose|i: int| 0 <= i < s.len() && s[i] == g;
        assert(s[i].piece_type == PieceType::Red2x2);
        if i != r {
            assert(s[i].piece_type != PieceType::Red2x2);
        }
        assert(i == r);
        assert(forall|j: int| 0 <= j < i ==> s[j].piece_type != PieceType::Red2x2);
        assert(goal_reached(s));
    }
    if goal_reached(s) {
        let i = choose|i: int|
            #![trigger s[i]]
            0 <= i < s.len() && s[i].piece_type == PieceType::Red2x2 && (forall|j: int|
                0 <= j < i ==> s[j].piece_type != PieceType::Red2x2) && s[i].x == 1 && s[i].y == 3;
        assert(s[i] == g);
        assert(s.contains(g));
    }
}

/// Holding a single red block depends only on which blocks a valid position holds.
pub proof fn lemma_single_red_respects_blocks(a: Seq<Piece>, b: Seq<Piece>)
    requires
        well_formed(a),
        well_formed(b),
        a.to_multiset() == b.to_multiset(),
        single_red(a),
    ensures
        single_red(b),
{
    broadcast use {vstd::seq_lib::group_to_multiset_ensures, vstd::multiset::group_multiset_axioms};

    lemma_wf_no_duplicates(b);
    let r = choose|r: int| #[trigger] only_red_at(a, r);
    assert(a.to_multiset().count(a[r]) > 0);
    assert(b.contains(a[r]));
    let j = choose|j: int| 0 <= j < b.len() && b[j] == a[r];
    assert forall|x: int| 0 <= x < b.len() && x != j implies #[trigger] b[x].piece_type != PieceType::Red2x2 by {
        assert(b.to_multiset().count(b[x]) > 0);
        assert(a.contains(b[x]));
        let m = choose|m: int| 0 <= m < a.len() && a[m] == b[x];
        assert(b[x] != b[j]);
        assert(m != r);
    }
    assert(only_red_at(b, j));
}

/// The position holds at most one red block.
pub open spec fn at_most_one_red(s: Seq<Piece>) -> bool {
    forall|i: int, j: int|
        0 <= i < s.len() && 0 <= j < s.len() && #[trigger] s[i].piece_type == PieceType::Red2x2
            && #[trigger] s[j].piece_type == PieceType::Red2x2 ==> i == j
}

/// The position holds no red block.
pub open spec fn no_red(s: Seq<Piece>) -> bool {
    forall|i: int| 0 <= i < s.len() ==> #[trigger] s[i].piece_type != PieceType::Red2x2
}

/// A position with at most one red block holds exactly one or none.
pub proof fn lemma_one_red_or_none(s: Seq<Piece>)
    requires
        at_most_one_red(s),
    ensures
        single_red(s) || no_red(s),
{
    if !no_red(s) {
        let r = choose|r: int| 0 <= r < s.len() && #[trigger] s[r].piece_type == PieceType::Red2x2;
        assert(only_red_at(s, r));
    }
}

/// Moves keep the kinds of all blocks, so a position without red blocks stays so.
pub proof fn lemma_moves_keep_no_red(s: Seq<Piece>, t: Seq<Piece>)
    requires
        no_red(s),
        all_moves(s).contains(t),
    ensures
        no_red(t),
{
    lemma_all_moves_are_slides(s, t);
    let (i, d) = choose|i: int, d: int|
        0 <= i < s.len() && 0 <= d < 4 && #[trigger] can_slide(s, i, d) && t == slid(s, i, d);
    assert forall|k: int| 0 <= k < t.len() implies #[trigger] t[k].piece_type != PieceType::Red2x2 by {
        assert(t[k].piece_type == s[k].piece_type);
    }
}

/// Moves keep the kinds of all blocks, so a single red block stays single.
pub proof fn lemma_moves_keep_single_red(s: Seq<Piece>, t: Seq<Piece>)
    requires
        single_red(s),
        all_moves(s).contains(t),
    ensures
        single_red(t),
{
    lemma_all_moves_are_slides(s, t);
    let (i, d) = choose|i: int, d: int|
        0 <= i < s.len() && 0 <= d < 4 && #[trigger] can_slide(s, i, d) && t == slid(s, i, d);
    let r = choose|r: int| #[trigger] only_red_at(s, r);
    assert forall|k: int| 0 <= k < t.len() implies #[trigger] t[k].piece_type == s[k].piece_type by {}
    assert(only_red_at(t, r));
}

impl Board {
    /// Puts block `idx` at offset `(dx, dy)` when the target cells of the grid `grid` of
    /// this board are free for it.
    fn slide_on_grid(&self, grid: &[[i8; 4]; 5], idx: usize, dx: i8, dy: i8) -> (res: Option<
        Board,
    >)
        requires
            all_fit(self@),
            idx < self@.len(),
            -1 <= dx <= 1,
            -1 <= dy <= 1,
            forall|x: int, y: int|
                0 <= x < 4 && 0 <= y < 5 ==> #[trigger] grid@[y]@[x] == cell_value(self@, x, y),
        ensures
            (res is Some) == target_free(self@, idx as int, self@[idx as int].x + dx, self@[idx as int].y + dy),
            res matches Some(b) ==> b@ == placed(
                self@,
                idx as int,
                self@[idx as int].x + dx,
                self@[idx as int].y + dy,
            ),
    {
        let p = self.pieces[idx];
        assert(p.fits());
        let (w, h) = p.piece_type.dims();
        let nx = p.x as i8 + dx;
        let ny = p.y as i8 + dy;
        if nx >= 0 && ny >= 0 && nx + w as i8 <= 4 && ny + h as i8 <= 5 {
            let t = idx as i8;
            assert(t == tag(idx as int));
            let free = region_free(grid, t, nx, ny, w, h);
            proof {
                let s = self@;
                if free {
                    assert forall|cx: int, cy: int|
                        nx <= cx < nx + p.w() && ny <= cy < ny + p.h() implies free_for(
                        #[trigger] cell_value(s, cx, cy),
                        idx as int,
                    ) by {
                        assert(grid@[cy]@[cx] == -1i8 || grid@[cy]@[cx] == t);
                    }
                } else {
                    let (cx, cy) = choose|cx: int, cy: int|
                        nx <= cx < nx + w && ny <= cy < ny + h && !(#[trigger] grid@[cy]@[cx] == -1i8
                            || grid@[cy]@[cx] == t);
                    assert(!free_for(cell_value(s, cx, cy), idx as int));
                }
            }
            if free {
                let mut next = self.clone();
                next.pieces.set(idx, Piece { piece_type: p.piece_type, x: nx as u8, y: ny as u8 });
                proof {
                    assert(next@ =~= placed(self@, idx as int, nx as int, ny as int));
                }
                Some(next)
            } else {
                None
            }
        } else {
            None
        }
    }

    /// Every position reachable by sliding one block by one cell, block by block in list
    /// order and, for each block, up, down, left, right.
    pub fn get_moves(&self) -> (moves: Vec<Board>)
        requires
            all_fit(self@),
        ensures
            views(moves@) == all_moves(self@),
    {
        let grid = self.to_grid();
        let mut moves: Vec<Board> = Vec::new();
        let n = self.pieces.len();
        let dirs: [(i8, i8); 4] = [(0, -1), (0, 1), (-1, 0), (1, 0)];
        assert(dirs@[0] == (0i8, -1i8) && dirs@[1] == (0i8, 1i8) && dirs@[2] == (-1i8, 0i8) && dirs@[3]
            == (1i8, 0i8));
        let mut idx: usize = 0;
        while idx < n
            invariant
                n == self@.len(),
                idx <= n,
                all_fit(self@),
                dirs@[0] == (0i8, -1i8),
                dirs@[1] == (0i8, 1i8),
                dirs@[2] == (-1i8, 0i8),
                dirs@[3] == (1i8, 0i8),
                forall|x: int, y: int|
                    0 <= x < 4 && 0 <= y < 5 ==> #[trigger] grid@[y]@[x] == cell_value(self@, x, y),
                views(moves@) == moves_upto(self@, idx as int),
            decreases n - idx,
        {
            let mut d: usize = 0;
            while d < 4
                invariant
                    n == self@.len(),
                    idx < n,
                    d <= 4,
                    all_fit(self@),
                    dirs@[0] == (0i8, -1i8),
                    dirs@[1] == (0i8, 1i8),
                    dirs@[2] == (-1i8, 0i8),
                    dirs@[3] == (1i8, 0i8),
                    forall|x: int, y: int|
                        0 <= x < 4 && 0 <= y < 5 ==> #[trigger] grid@[y]@[x] == cell_value(
                            self@,
                            x,
                            y,
                        ),
                    views(moves@) == moves_upto(self@, idx as int) + piece_moves(
                        self@,
                        idx as int,
                        d as int,
                    ),
                decreases 4 - d,
            {
                let (dx, dy) = dirs[d];
                assert(dx == step(d as int).0 && dy == step(d as int).1);
                let ghost before = views(moves@);
                match self.slide_on_grid(&grid, idx, dx, dy) {
                    Some(b) => {
                        moves.push(b);
                        assert(views(moves@) =~= before.push(b@));
                    },
                    None => {},
                }
                assert(views(moves@) =~= moves_upto(self@, idx as int) + piece_moves(
                    self@,
                    idx as int,
                    d + 1,
                ));
                d += 1;
            }
            assert(views(moves@) =~= moves_upto(self@, idx + 1));
            idx += 1;
        }
        moves
    }

    /// Block `idx` slid by `(dx, dy)`, or `None` when the target cells are not in the tray
    /// or hold another block.
    pub fn try_slide(&self, idx: usize, dx: i8, dy: i8) -> (res: Option<Board>)
        requires
            all_fit(self@),
            idx < self@.len(),
            -1 <= dx <= 1,
            -1 <= dy <= 1,
        ensures
            (res is Some) == target_free(self@, idx as int, self@[idx as int].x + dx, self@[idx as int].y + dy),
            res matches Some(b) ==> b@ == placed(
                self@,
                idx as int,
                self@[idx as int].x + dx,
                self@[idx as int].y + dy,
            ),
    {
        let grid = self.to_grid();
        self.slide_on_grid(&grid, idx, dx, dy)
    }
}

} // verus!
