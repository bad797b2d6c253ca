use klotski::board::Board;
use klotski::piece::{Piece, PieceType};

fn p(piece_type: PieceType, x: u8, y: u8) -> Piece {
    Piece { piece_type, x, y }
}

fn moved(b: &Board, idx: usize, x: u8, y: u8) -> Board {
    let mut c = b.clone();
    c.pieces[idx].x = x;
    c.pieces[idx].y = y;
    c
}

#[test]
fn moves_of_start_layout() {
    let b = Board::new();
    let moves = b.get_moves();
    assert_eq!(moves.len(), 4);
    assert_eq!(moves[0], moved(&b, 3, 0, 3));
    assert_eq!(moves[1], moved(&b, 4, 3, 3));
    assert_eq!(moves[2], moved(&b, 8, 0, 4));
    assert_eq!(moves[3], moved(&b, 9, 3, 4));
}

#[test]
fn lone_block_moves_in_all_open_directions_in_order() {
    let b = Board {
        pieces: vec![p(PieceType::Blue1x1, 1, 1)],
    };
    let moves = b.get_moves();
    assert_eq!(
        moves,
        vec![
            Board { pieces: vec![p(PieceType::Blue1x1, 1, 0)] },
            Board { pieces: vec![p(PieceType::Blue1x1, 1, 2)] },
            Board { pieces: vec![p(PieceType::Blue1x1, 0, 1)] },
            Board { pieces: vec![p(PieceType::Blue1x1, 2, 1)] },
        ]
    );
}

#[test]
fn corner_block_stays_in_tray() {
    let b = Board {
        pieces: vec![p(PieceType::Red2x2, 2, 3)],
    };
    let moves = b.get_moves();
    assert_eq!(
        moves,
        vec![
            Board { pieces: vec![p(PieceType::Red2x2, 2, 2)] },
            Board { pieces: vec![p(PieceType::Red2x2, 1, 3)] },
        ]
    );
}

#[test]
fn full_tray_has_no_moves() {
    let mut pieces = Vec::new();
    for y in 0..5u8 {
        for x in 0..4u8 {
            pieces.push(p(PieceType::Blue1x1, x, y));
        }
    }
    let b = Board { pieces };
    assert!(b.get_moves().is_empty());
}

#[test]
fn every_move_of_start_can_be_undone() {
    let b = Board::new();
    for m in b.get_moves() {
        assert!(m.get_moves().contains(&b));
    }
}

#[test]
fn moves_of_moves_stay_valid() {
    let b = Board::new();
    for m in b.get_moves() {
        for m2 in m.get_moves() {
            let g = m2.to_grid();
            let mut count = 0;
            for row in g.iter() {
                for c in row.iter() {
                    if *c != -1 {
                        count += 1;
                    }
                }
            }
            assert_eq!(count, 18);
        }
    }
}

#[test]
fn try_slide_into_empty_cell() {
    let b = Board::new();
    let r = b.try_slide(8, -1, 0);
    assert_eq!(r, Some(moved(&b, 8, 0, 4)));
}

#[test]
fn try_slide_onto_other_block_fails() {
    let b = Board::new();
    assert_eq!(b.try_slide(0, 0, 1), None);
}

#[test]
fn try_slide_out_of_tray_fails() {
    let b = Board::new();
    assert_eq!(b.try_slide(1, -1, 0), None);
    assert_eq!(b.try_slide(9, 0, 1), None);
}

#[test]
fn try_slide_agrees_with_moves() {
    let b = Board::new();
    let moves = b.get_moves();
    let dirs: [(i8, i8); 4] = [(0, -1), (0, 1), (-1, 0), (1, 0)];
    let mut found = Vec::new();
    for idx in 0..b.pieces.len() {
        for (dx, dy) in dirs {
            if let Some(n) = b.try_slide(idx, dx, dy) {
                found.push(n);
            }
        }
    }
    assert_eq!(found, moves);
}
