use klotski::board::Board;
use klotski::piece::{Piece, PieceType};

fn p(piece_type: PieceType, x: u8, y: u8) -> Piece {
    Piece { piece_type, x, y }
}

#[test]
fn start_layout_is_already_canonical() {
    let b = Board::new();
    let mut c = b.clone();
    c.canonicalize();
    assert_eq!(b, c);
}

#[test]
fn canonicalize_sorts_by_kind_row_column() {
    let mut b = Board {
        pieces: vec![
            p(PieceType::Blue1x1, 3, 4),
            p(PieceType::Blue1x1, 0, 4),
            p(PieceType::Yellow2x1, 1, 2),
            p(PieceType::Blue1x1, 2, 0),
            p(PieceType::Red2x2, 1, 0),
        ],
    };
    b.canonicalize();
    assert_eq!(
        b.pieces,
        vec![
            p(PieceType::Red2x2, 1, 0),
            p(PieceType::Yellow2x1, 1, 2),
            p(PieceType::Blue1x1, 2, 0),
            p(PieceType::Blue1x1, 0, 4),
            p(PieceType::Blue1x1, 3, 4),
        ]
    );
}

#[test]
fn canonical_form_ignores_listing_order() {
    let mut a = Board::new();
    let mut b = Board::new();
    b.pieces.reverse();
    a.canonicalize();
    b.canonicalize();
    assert_eq!(a, b);
}

#[test]
fn canonicalize_twice_is_once() {
    let mut b = Board {
        pieces: vec![p(PieceType::Blue1x1, 3, 4), p(PieceType::Yellow1x2, 0, 0), p(PieceType::Blue1x1, 0, 4)],
    };
    b.canonicalize();
    let once = b.clone();
    b.canonicalize();
    assert_eq!(b, once);
}

#[test]
fn key_of_start_layout() {
    let b = Board::new();
    // Codes: red at cell 1 -> 1, yellow 1x2 at cells 0, 3, 8, 11 -> 2,
    // yellow 2x1 at cell 9 -> 3, blue at cells 13, 14, 17, 18 -> 4.
    let mut expected: u64 = 0;
    let codes: [(u64, u64); 10] = [(1, 1), (0, 2), (3, 2), (8, 2), (11, 2), (9, 3), (13, 4), (14, 4), (17, 4), (18, 4)];
    for (cell, code) in codes {
        expected |= code << (3 * cell);
    }
    assert_eq!(b.state_key(), expected);
}

#[test]
fn key_ignores_listing_order_and_tells_moves_apart() {
    let a = Board::new();
    let mut b = Board::new();
    b.pieces.reverse();
    assert_eq!(a.state_key(), b.state_key());
    for m in a.get_moves() {
        assert_ne!(m.state_key(), a.state_key());
    }
}
