use std::collections::{HashSet, VecDeque};

use klotski::board::Board;
use klotski::piece::{Piece, PieceType};
use klotski::solver::{solve, solve_from};

fn p(piece_type: PieceType, x: u8, y: u8) -> Piece {
    Piece { piece_type, x, y }
}

fn check_solution(start: &Board, path: &[Board]) {
    assert!(!path.is_empty());
    assert_eq!(&path[0], start);
    assert!(path[path.len() - 1].is_goal());
    for k in 0..path.len() - 1 {
        assert!(!path[k].is_goal());
        assert!(path[k].get_moves().contains(&path[k + 1]));
    }
}

fn sorted(b: &Board) -> Vec<Piece> {
    let mut v = b.pieces.clone();
    v.sort();
    v
}

/// Number of moves of a shortest solution, found by a plain search over sorted block lists.
fn shortest_distance(start: &Board) -> Option<usize> {
    let mut seen = HashSet::new();
    let mut queue = VecDeque::new();
    seen.insert(sorted(start));
    queue.push_back((start.clone(), 0usize));
    while let Some((b, d)) = queue.pop_front() {
        if b.is_goal() {
            return Some(d);
        }
        for n in b.get_moves() {
            if seen.insert(sorted(&n)) {
                queue.push_back((n, d + 1));
            }
        }
    }
    None
}

#[test]
fn start_already_solved_gives_single_position() {
    let b = Board {
        pieces: vec![p(PieceType::Red2x2, 1, 3)],
    };
    let path = solve_from(&b);
    assert_eq!(path, vec![b]);
}

#[test]
fn one_move_from_goal() {
    let b = Board {
        pieces: vec![p(PieceType::Red2x2, 1, 2)],
    };
    let path = solve_from(&b);
    assert_eq!(
        path,
        vec![b, Board { pieces: vec![p(PieceType::Red2x2, 1, 3)] }]
    );
}

#[test]
fn lone_red_block_walks_down() {
    let b = Board {
        pieces: vec![p(PieceType::Red2x2, 1, 0)],
    };
    let path = solve_from(&b);
    assert_eq!(path.len(), 4);
    check_solution(&b, &path);
    assert_eq!(path[1].pieces[0], p(PieceType::Red2x2, 1, 1));
    assert_eq!(path[2].pieces[0], p(PieceType::Red2x2, 1, 2));
}

#[test]
fn stuck_position_has_no_solution() {
    let mut pieces = vec![p(PieceType::Red2x2, 0, 0)];
    for y in 0..5u8 {
        for x in 0..4u8 {
            if !(x < 2 && y < 2) {
                pieces.push(p(PieceType::Blue1x1, x, y));
            }
        }
    }
    let b = Board { pieces };
    assert!(solve_from(&b).is_empty());
}

#[test]
fn small_puzzle_solution_is_valid_and_shortest() {
    let b = Board {
        pieces: vec![
            p(PieceType::Red2x2, 1, 0),
            p(PieceType::Yellow2x1, 1, 2),
            p(PieceType::Blue1x1, 1, 3),
            p(PieceType::Blue1x1, 2, 4),
        ],
    };
    let path = solve_from(&b);
    check_solution(&b, &path);
    assert_eq!(Some(path.len() - 1), shortest_distance(&b));
}

#[test]
fn classic_puzzle_is_solved() {
    let start = Board::new();
    let path = solve();
    check_solution(&start, &path);
    assert_eq!(Some(path.len() - 1), shortest_distance(&start));
}

/// Number of moves of a shortest solution when positions are told apart by the exact order
/// of their block list.
fn shortest_distance_exact(start: &Board) -> Option<usize> {
    let mut seen = HashSet::new();
    let mut queue = VecDeque::new();
    seen.insert(start.pieces.clone());
    queue.push_back((start.clone(), 0usize));
    while let Some((b, d)) = queue.pop_front() {
        if b.is_goal() {
            return Some(d);
        }
        for n in b.get_moves() {
            if seen.insert(n.pieces.clone()) {
                queue.push_back((n, d + 1));
            }
        }
    }
    None
}

#[test]
fn no_red_block_has_no_solution() {
    let b = Board {
        pieces: vec![p(PieceType::Blue1x1, 1, 3), p(PieceType::Yellow1x2, 0, 0)],
    };
    assert!(solve_from(&b).is_empty());
}

#[test]
fn two_red_blocks_can_hide_a_solution() {
    // The list order decides which red block must reach the exit, but positions are only
    // told apart by their canonical form; every canonical class of a solved position is
    // first met through a position in which the other red block is at the exit.
    let b = Board {
        pieces: vec![p(PieceType::Red2x2, 1, 1), p(PieceType::Red2x2, 1, 3)],
    };
    assert!(solve_from(&b).is_empty());
    assert!(shortest_distance_exact(&b).is_some());
}

