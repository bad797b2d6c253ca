use klotski::board::Board;
use klotski::piece::{piece_leq, Piece, PieceType};

fn p(piece_type: PieceType, x: u8, y: u8) -> Piece {
    Piece { piece_type, x, y }
}

#[test]
fn start_layout_is_the_classic_opening() {
    let b = Board::new();
    assert_eq!(b.pieces.len(), 10);
    assert_eq!(b.pieces[0], p(PieceType::Red2x2, 1, 0));
    assert_eq!(b.pieces[5], p(PieceType::Yellow2x1, 1, 2));
    assert_eq!(b.pieces[9], p(PieceType::Blue1x1, 2, 4));
}

#[test]
fn grid_of_start_layout() {
    let b = Board::new();
    let g = b.to_grid();
    assert_eq!(
        g,
        [
            [1, 0, 0, 2],
            [1, 0, 0, 2],
            [3, 5, 5, 4],
            [3, 6, 7, 4],
            [-1, 8, 9, -1],
        ]
    );
}

#[test]
fn grid_later_block_drawn_over_earlier() {
    let b = Board {
        pieces: vec![p(PieceType::Red2x2, 0, 0), p(PieceType::Blue1x1, 1, 1)],
    };
    let g = b.to_grid();
    assert_eq!(g[0], [0, 0, -1, -1]);
    assert_eq!(g[1], [0, 1, -1, -1]);
    assert_eq!(g[4], [-1, -1, -1, -1]);
}

#[test]
fn empty_board_grid_is_all_empty() {
    let b = Board { pieces: vec![] };
    assert_eq!(b.to_grid(), [[-1i8; 4]; 5]);
}

#[test]
fn start_is_not_goal() {
    assert!(!Board::new().is_goal());
}

#[test]
fn red_at_exit_is_goal() {
    let b = Board {
        pieces: vec![p(PieceType::Blue1x1, 0, 0), p(PieceType::Red2x2, 1, 3)],
    };
    assert!(b.is_goal());
}

#[test]
fn no_red_block_is_not_goal() {
    let b = Board {
        pieces: vec![p(PieceType::Blue1x1, 1, 3)],
    };
    assert!(!b.is_goal());
}

#[test]
fn only_first_red_block_counts_for_goal() {
    let b = Board {
        pieces: vec![p(PieceType::Red2x2, 0, 0), p(PieceType::Red2x2, 1, 3)],
    };
    assert!(!b.is_goal());
    let c = Board {
        pieces: vec![p(PieceType::Red2x2, 1, 3), p(PieceType::Red2x2, 0, 0)],
    };
    assert!(c.is_goal());
}

#[test]
fn clone_keeps_blocks() {
    let b = Board::new();
    let c = b.clone();
    assert_eq!(b, c);
}

#[test]
fn piece_dims_and_rank() {
    assert_eq!(PieceType::Red2x2.dims(), (2, 2));
    assert_eq!(PieceType::Yellow1x2.dims(), (1, 2));
    assert_eq!(PieceType::Yellow2x1.dims(), (2, 1));
    assert_eq!(PieceType::Blue1x1.dims(), (1, 1));
    assert_eq!(PieceType::Red2x2.rank_of(), 0);
    assert_eq!(PieceType::Blue1x1.rank_of(), 3);
}

#[test]
fn piece_order_compares_kind_then_row_then_column() {
    assert!(piece_leq(&p(PieceType::Red2x2, 3, 3), &p(PieceType::Blue1x1, 0, 0)));
    assert!(!piece_leq(&p(PieceType::Blue1x1, 0, 0), &p(PieceType::Red2x2, 3, 3)));
    assert!(piece_leq(&p(PieceType::Blue1x1, 3, 0), &p(PieceType::Blue1x1, 0, 1)));
    assert!(piece_leq(&p(PieceType::Blue1x1, 1, 2), &p(PieceType::Blue1x1, 2, 2)));
    assert!(!piece_leq(&p(PieceType::Blue1x1, 2, 2), &p(PieceType::Blue1x1, 1, 2)));
    assert!(piece_leq(&p(PieceType::Blue1x1, 2, 2), &p(PieceType::Blue1x1, 2, 2)));
}
