use klotski::board::Board;
use klotski::piece::{Piece, PieceType};
use klotski::viewer::{NavButton, SolutionPath};

fn p(piece_type: PieceType, x: u8, y: u8) -> Piece {
    Piece { piece_type, x, y }
}

fn three_steps() -> (Board, Vec<Board>) {
    let a = Board { pieces: vec![p(PieceType::Red2x2, 1, 1)] };
    let b = Board { pieces: vec![p(PieceType::Red2x2, 1, 2)] };
    let c = Board { pieces: vec![p(PieceType::Red2x2, 1, 3)] };
    (a.clone(), vec![a, b, c])
}

#[test]
fn new_viewer_shows_start() {
    let (start, steps) = three_steps();
    let v = SolutionPath::new(steps, start.clone());
    assert_eq!(v.current_idx, 0);
    assert!(!v.is_playing);
    assert_eq!(v.current_board, start);
    assert_eq!(v.dragging_piece, None);
}

#[test]
fn forward_and_back_step_through_solution() {
    let (start, steps) = three_steps();
    let mut v = SolutionPath::new(steps.clone(), start);
    v.press(NavButton::Forward);
    assert_eq!(v.current_idx, 1);
    assert_eq!(v.current_board, steps[1]);
    v.press(NavButton::Forward);
    v.press(NavButton::Forward);
    assert_eq!(v.current_idx, 2);
    assert_eq!(v.current_board, steps[2]);
    v.press(NavButton::Back);
    assert_eq!(v.current_idx, 1);
    assert_eq!(v.current_board, steps[1]);
    v.press(NavButton::Back);
    v.press(NavButton::Back);
    assert_eq!(v.current_idx, 0);
    assert_eq!(v.current_board, steps[0]);
}

#[test]
fn reset_returns_to_first_step() {
    let (start, steps) = three_steps();
    let mut v = SolutionPath::new(steps.clone(), start);
    v.press(NavButton::Forward);
    v.press(NavButton::Forward);
    v.press(NavButton::Reset);
    assert_eq!(v.current_idx, 0);
    assert_eq!(v.current_board, steps[0]);
    assert!(!v.is_playing);
}

#[test]
fn pick_empty_cell_drags_nothing() {
    let (start, steps) = three_steps();
    let mut v = SolutionPath::new(steps, start);
    v.pick_piece(0, 0);
    assert_eq!(v.dragging_piece, None);
}

#[test]
fn pick_block_then_drag_moves_it_and_locks_steps() {
    let (start, steps) = three_steps();
    let mut v = SolutionPath::new(steps, start);
    v.pick_piece(2, 2);
    assert_eq!(v.dragging_piece, Some(0));
    v.drag_piece(1, 0);
    assert_eq!(v.current_board.pieces[0], p(PieceType::Red2x2, 2, 1));
    assert!(v.is_playing);
    assert!(v.is_disabled(NavButton::Back));
    assert!(v.is_disabled(NavButton::Forward));
    assert!(!v.is_disabled(NavButton::Reset));
    let shown = v.current_board.clone();
    v.press(NavButton::Forward);
    assert_eq!(v.current_board, shown);
    assert_eq!(v.current_idx, 0);
    v.press(NavButton::Reset);
    assert!(!v.is_playing);
    assert_eq!(v.current_board.pieces[0], p(PieceType::Red2x2, 1, 1));
}

#[test]
fn drag_into_wall_does_nothing() {
    let (start, steps) = three_steps();
    let mut v = SolutionPath::new(steps, start.clone());
    v.pick_piece(1, 1);
    v.drag_piece(1, 0);
    v.drag_piece(1, 0);
    assert_eq!(v.current_board.pieces[0], p(PieceType::Red2x2, 2, 1));
    v.drag_piece(0, -1);
    v.drag_piece(0, -1);
    assert_eq!(v.current_board.pieces[0], p(PieceType::Red2x2, 2, 0));
}

#[test]
fn release_stops_dragging() {
    let (start, steps) = three_steps();
    let mut v = SolutionPath::new(steps, start.clone());
    v.pick_piece(1, 1);
    v.release_drag();
    assert_eq!(v.dragging_piece, None);
    v.drag_piece(1, 0);
    assert_eq!(v.current_board, start);
    assert!(!v.is_playing);
}

#[test]
fn drag_blocked_by_other_block() {
    let start = Board::new();
    let mut v = SolutionPath::new(vec![start.clone()], start.clone());
    v.pick_piece(1, 0);
    assert_eq!(v.dragging_piece, Some(0));
    v.drag_piece(0, 1);
    assert_eq!(v.current_board, start);
    assert!(!v.is_playing);
    v.pick_piece(1, 4);
    assert_eq!(v.dragging_piece, Some(8));
    v.drag_piece(-1, 0);
    assert_eq!(v.current_board.pieces[8], p(PieceType::Blue1x1, 0, 4));
    assert!(v.is_playing);
}
