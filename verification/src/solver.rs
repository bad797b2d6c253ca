//! Breadth-first search for a sequence of moves from a position to a solved one.

use vstd::prelude::*;

use std::collections::HashSet;
use std::collections::VecDeque;

use crate::board::{Board, well_formed, goal_reached, start_layout};
use crate::canonical::{
    board_key, lemma_canonical_idempotent, lemma_canonical_keeps_wf, lemma_key_identifies_canonical_form,
    lemma_canonical_ignores_order,
};
use crate::moves::{
    all_moves, views, lemma_moves_stay_valid, lemma_moves_respect_blocks, single_red, at_most_one_red, no_red,
    lemma_one_red_or_none, lemma_moves_keep_no_red,
    lemma_single_red_goal, lemma_single_red_respects_blocks, lemma_moves_keep_single_red,
};
use crate::piece::{Piece, PieceType, piece_order, lemma_piece_order_total};

verus! {

broadcast use vstd::std_specs::hash::group_hash_axioms;

/// `path` starts at `start`, each position after the first is a move of the one before it,
/// no position before the last is solved, and every position is valid with as many blocks
/// as `start`.
pub open spec fn is_move_sequence(start: Seq<Piece>, path: Seq<Seq<Piece>>) -> bool {
    &&& path.len() >= 1
    &&& path[0] == start
    &&& forall|k: int| 0 <= k < path.len() - 1 ==> !goal_reached(#[trigger] path[k])
    &&& forall|k: int| 0 <= k < path.len() - 1 ==> all_moves(#[trigger] path[k]).contains(path[k + 1])
    &&& forall|k: int| 0 <= k < path.len() ==> well_formed(#[trigger] path[k]) && path[k].len() == start.len()
}

/// `path` is a sequence of moves from `start` that ends in a solved position.
pub open spec fn is_solution(start: Seq<Piece>, path: Seq<Seq<Piece>>) -> bool {
    &&& is_move_sequence(start, path)
    &&& goal_reached(path.last())
}

/// `w` is a walk of moves that starts at `start`.
pub open spec fn is_walk(start: Seq<Piece>, w: Seq<Seq<Piece>>) -> bool {
    &&& w.len() >= 1
    &&& w[0] == start
    &&& forall|k: int| 0 <= k < w.len() - 1 ==> all_moves(#[trigger] w[k]).contains(w[k + 1])
}

/// Some walk of moves leads from `start` to a solved position.
pub open spec fn solvable(start: Seq<Piece>) -> bool {
    exists|w: Seq<Seq<Piece>>| is_walk(start, w) && goal_reached(#[trigger] w.last())
}

/// On valid positions equal keys mean the same blocks.
proof fn lemma_same_key_same_blocks(a: Seq<Piece>, b: Seq<Piece>)
    requires
        well_formed(a),
        well_formed(b),
        board_key(a) == board_key(b),
    ensures
        a.to_multiset() == b.to_multiset(),
{
    lemma_key_identifies_canonical_form(a, b);
    lemma_piece_order_total();
    a.lemma_sort_by_ensures(piece_order());
    b.lemma_sort_by_ensures(piece_order());
}

/// The canonical form of a valid position has the position's key.
proof fn lemma_canonical_key(s: Seq<Piece>)
    requires
        well_formed(s),
    ensures
        board_key(s.sort_by(piece_order())) == board_key(s),
{
    lemma_canonical_keeps_wf(s);
    lemma_canonical_idempotent(s);
    lemma_key_identifies_canonical_form(s.sort_by(piece_order()), s);
}

/// The positions the search has met are closed under moves up to the order of blocks, and
/// none of them is solved.
pub open spec fn closed_unsolved(all: Seq<Seq<Piece>>) -> bool {
    &&& forall|m: int| 0 <= m < all.len() ==> well_formed(#[trigger] all[m]) && !goal_reached(all[m])
    &&& forall|m: int, y: Seq<Piece>|
        0 <= m < all.len() && #[trigger] all_moves(all[m]).contains(y) ==> exists|m2: int|
            0 <= m2 < all.len() && #[trigger] board_key(all[m2]) == board_key(y)
}

/// Every position on a walk from `start` holds the same blocks as some position in `all`.
proof fn lemma_walk_stays_known(start: Seq<Piece>, all: Seq<Seq<Piece>>, w: Seq<Seq<Piece>>, k: int)
    requires
        well_formed(start),
        closed_unsolved(all),
        all.len() >= 1,
        all[0] == start,
        is_walk(start, w),
        0 <= k < w.len(),
    ensures
        well_formed(w[k]),
        exists|m: int| 0 <= m < all.len() && #[trigger] all[m].to_multiset() == w[k].to_multiset(),
    decreases k,
{
    if k == 0 {
        assert(all[0].to_multiset() == w[0].to_multiset());
    } else {
        lemma_walk_stays_known(start, all, w, k - 1);
        let m = choose|m: int| 0 <= m < all.len() && #[trigger] all[m].to_multiset() == w[k - 1].to_multiset();
        assert(all_moves(w[k - 1]).contains(w[k]));
        lemma_moves_stay_valid(w[k - 1]);
        assert(well_formed(all[m]));
        lemma_moves_respect_blocks(w[k - 1], all[m], w[k]);
        let y = choose|y: Seq<Piece>| #[trigger] all_moves(all[m]).contains(y) && y.to_multiset() == w[k].to_multiset();
        lemma_moves_stay_valid(all[m]);
        let m2 = choose|m2: int| 0 <= m2 < all.len() && #[trigger] board_key(all[m2]) == board_key(y);
        lemma_same_key_same_blocks(all[m2], y);
    }
}

/// Every position on a walk from a start with a single red block keeps a single red block.
proof fn lemma_walk_single_red(start: Seq<Piece>, w: Seq<Seq<Piece>>, k: int)
    requires
        single_red(start),
        is_walk(start, w),
        0 <= k < w.len(),
    ensures
        single_red(w[k]),
    decreases k,
{
    if k > 0 {
        lemma_walk_single_red(start, w, k - 1);
        assert(all_moves(w[k - 1]).contains(w[k]));
        lemma_moves_keep_single_red(w[k - 1], w[k]);
    }
}

/// Every position on a walk from a start without red blocks has none.
proof fn lemma_walk_no_red(start: Seq<Piece>, w: Seq<Seq<Piece>>, k: int)
    requires
        no_red(start),
        is_walk(start, w),
        0 <= k < w.len(),
    ensures
        no_red(w[k]),
    decreases k,
{
    if k > 0 {
        lemma_walk_no_red(start, w, k - 1);
        assert(all_moves(w[k - 1]).contains(w[k]));
        lemma_moves_keep_no_red(w[k - 1], w[k]);
    }
}

/// On valid positions the same blocks mean equal keys.
proof fn lemma_same_blocks_same_key(a: Seq<Piece>, b: Seq<Piece>)
    requires
        well_formed(a),
        well_formed(b),
        a.to_multiset() == b.to_multiset(),
    ensures
        board_key(a) == board_key(b),
{
    lemma_canonical_ignores_order(a, b);
    lemma_key_identifies_canonical_form(a, b);
}

/// Every position on a walk from a valid start is valid.
proof fn lemma_walk_wf(start: Seq<Piece>, w: Seq<Seq<Piece>>, k: int)
    requires
        well_formed(start),
        is_walk(start, w),
        0 <= k < w.len(),
    ensures
        well_formed(w[k]),
    decreases k,
{
    if k > 0 {
        lemma_walk_wf(start, w, k - 1);
        assert(all_moves(w[k - 1]).contains(w[k]));
        lemma_moves_stay_valid(w[k - 1]);
    }
}

/// If a walk from a start with at most one red block ends solved, every valid position with
/// the same key as its end is solved too.
proof fn lemma_goal_transfers(start: Seq<Piece>, w: Seq<Seq<Piece>>, x: Seq<Piece>)
    requires
        well_formed(start),
        at_most_one_red(start),
        is_walk(start, w),
        goal_reached(w.last()),
        well_formed(x),
        board_key(x) == board_key(w.last()),
    ensures
        goal_reached(x),
{
    let k = w.len() - 1;
    lemma_walk_wf(start, w, k);
    lemma_one_red_or_none(start);
    if no_red(start) {
        lemma_walk_no_red(start, w, k);
        assert(!goal_reached(w[k]));
    } else {
        lemma_walk_single_red(start, w, k);
        lemma_same_key_same_blocks(x, w[k]);
        lemma_single_red_respects_blocks(w[k], x);
        lemma_single_red_goal(w[k]);
        lemma_single_red_goal(x);
        let g = Piece { piece_type: PieceType::Red2x2, x: 1, y: 3 };
        broadcast use {vstd::seq_lib::group_to_multiset_ensures, vstd::multiset::group_multiset_axioms};
        assert(w[k].contains(g));
        assert(w[k].to_multiset().count(g) > 0);
        assert(x.contains(g));
    }
}

/// When the positions met from a start with at most one red block are closed under moves up
/// to the order of blocks and none is solved, no solved position is reachable.
proof fn lemma_closed_means_unsolvable(start: Seq<Piece>, all: Seq<Seq<Piece>>)
    requires
        well_formed(start),
        at_most_one_red(start),
        closed_unsolved(all),
        all.len() >= 1,
        all[0] == start,
    ensures
        !solvable(start),
{
    if solvable(start) {
        let w = choose|w: Seq<Seq<Piece>>| is_walk(start, w) && goal_reached(#[trigger] w.last());
        let k = w.len() - 1;
        lemma_walk_stays_known(start, all, w, k);
        let m = choose|m: int| 0 <= m < all.len() && #[trigger] all[m].to_multiset() == w[k].to_multiset();
        assert(well_formed(all[m]));
        lemma_same_blocks_same_key(all[m], w[k]);
        lemma_goal_transfers(start, w, all[m]);
    }
}

/// Every walk from `start` of at most `f` positions ends in a position whose key is that of
/// a met position reached by a path no longer than the walk.
pub open spec fn reach_bound(start: Seq<Piece>, all: Seq<Seq<Piece>>, lens: Seq<int>, f: int) -> bool {
    forall|w: Seq<Seq<Piece>>|
        #[trigger] is_walk(start, w) && w.len() <= f ==> exists|m: int|
            0 <= m < all.len() && #[trigger] board_key(all[m]) == board_key(w.last()) && lens[m] <= w.len()
}

/// `reach_bound` survives adding positions at the end of the met list.
proof fn lemma_reach_bound_extend(
    start: Seq<Piece>,
    all0: Seq<Seq<Piece>>,
    lens0: Seq<int>,
    all: Seq<Seq<Piece>>,
    lens: Seq<int>,
    f: int,
)
    requires
        reach_bound(start, all0, lens0, f),
        all0.len() <= all.len(),
        lens0.len() == all0.len(),
        forall|m: int| 0 <= m < all0.len() ==> all[m] == all0[m] && lens[m] == lens0[m],
    ensures
        reach_bound(start, all, lens, f),
{
    assert forall|w: Seq<Seq<Piece>>| #[trigger] is_walk(start, w) && w.len() <= f implies exists|m: int|
        0 <= m < all.len() && #[trigger] board_key(all[m]) == board_key(w.last()) && lens[m] <= w.len() by {
        let m = choose|m: int|
            0 <= m < all0.len() && #[trigger] board_key(all0[m]) == board_key(w.last()) && lens0[m] <= w.len();
        assert(all[m] == all0[m]);
    }
}

/// Once every met position with a path of at most `f` positions is expanded, and the moves
/// of expanded positions are met with paths at most one longer, `reach_bound` holds for `f + 1`.
proof fn lemma_reach_bound_step(
    start: Seq<Piece>,
    all: Seq<Seq<Piece>>,
    lens: Seq<int>,
    f: int,
    done: int,
)
    requires
        well_formed(start),
        reach_bound(start, all, lens, f),
        f >= 1,
        lens.len() == all.len(),
        0 <= done <= all.len(),
        forall|m: int| 0 <= m < all.len() ==> well_formed(#[trigger] all[m]),
        forall|m: int| 0 <= m < all.len() && lens[m] <= f ==> m < done,
        forall|m: int, y: Seq<Piece>|
            0 <= m < done && #[trigger] all_moves(all[m]).contains(y) ==> exists|m2: int|
                0 <= m2 < all.len() && #[trigger] board_key(all[m2]) == board_key(y) && lens[m2] <= lens[m] + 1,
    ensures
        reach_bound(start, all, lens, f + 1),
{
    assert forall|w: Seq<Seq<Piece>>| #[trigger] is_walk(start, w) && w.len() <= f + 1 implies exists|m: int|
        0 <= m < all.len() && #[trigger] board_key(all[m]) == board_key(w.last()) && lens[m] <= w.len() by {
        if w.len() == f + 1 {
            let w1 = w.drop_last();
            assert(is_walk(start, w1)) by {
                assert forall|k: int| 0 <= k < w1.len() - 1 implies all_moves(#[trigger] w1[k]).contains(w1[k + 1]) by {
                    assert(w1[k] == w[k] && w1[k + 1] == w[k + 1]);
                    assert(all_moves(w[k]).contains(w[k + 1]));
                }
            }
            let m = choose|m: int|
                0 <= m < all.len() && #[trigger] board_key(all[m]) == board_key(w1.last()) && lens[m] <= w1.len();
            assert(m < done);
            let k = w.len() - 2;
            assert(w1.last() == w[k]);
            lemma_walk_wf(start, w, k);
            lemma_walk_wf(start, w, k + 1);
            assert(all_moves(w[k]).contains(w[k + 1]));
            lemma_same_key_same_blocks(w[k], all[m]);
            lemma_moves_respect_blocks(w[k], all[m], w[k + 1]);
            let y = choose|y: Seq<Piece>| #[trigger] all_moves(all[m]).contains(y) && y.to_multiset() == w[k + 1].to_multiset();
            lemma_moves_stay_valid(all[m]);
            let m2 = choose|m2: int|
                0 <= m2 < all.len() && #[trigger] board_key(all[m2]) == board_key(y) && lens[m2] <= lens[m] + 1;
            lemma_same_blocks_same_key(y, w[k + 1]);
            assert(w.last() == w[k + 1]);
            assert(board_key(all[m2]) == board_key(w.last()) && lens[m2] <= w.len());
        }
    }
}

/// No walk to a solved position is shorter than the path of the first solved position taken
/// from the queue.
proof fn lemma_no_shorter_solution(start: Seq<Piece>, all: Seq<Seq<Piece>>, lens: Seq<int>, h: int)
    requires
        well_formed(start),
        at_most_one_red(start),
        0 <= h < all.len(),
        lens.len() == all.len(),
        reach_bound(start, all, lens, lens[h]),
        forall|m: int| 0 <= m < all.len() ==> well_formed(#[trigger] all[m]),
        forall|a: int, b: int| 0 <= a <= b < lens.len() ==> lens[a] <= lens[b],
        forall|m: int| 0 <= m < h ==> !goal_reached(#[trigger] all[m]),
    ensures
        forall|w: Seq<Seq<Piece>>|
            is_walk(start, w) && goal_reached(#[trigger] w.last()) ==> w.len() >= lens[h],
{
    assert forall|w: Seq<Seq<Piece>>| is_walk(start, w) && goal_reached(#[trigger] w.last()) implies w.len()
        >= lens[h] by {
        if w.len() < lens[h] {
            let m = choose|m: int|
                0 <= m < all.len() && #[trigger] board_key(all[m]) == board_key(w.last()) && lens[m] <= w.len();
            if m >= h {
                assert(lens[h] <= lens[m]);
            }
            lemma_goal_transfers(start, w, all[m]);
        }
    }
}

/// Searches breadth first from `start` for a solved position, never expanding a position
/// whose canonical form was met before. Returns the positions from `start` to the first
/// solved position taken from the queue, or an empty list when none is reachable.
pub fn solve_from(start: &Board) -> (path: Vec<Board>)
    requires
        start.wf(),
    ensures
        path.len() == 0 || is_solution(start@, views(path@)),
        goal_reached(start@) ==> path.len() == 1,
        path.len() == 0 && at_most_one_red(start@) ==> !solvable(start@),
        path.len() > 0 && at_most_one_red(start@) ==> forall|w: Seq<Seq<Piece>>|
            is_walk(start@, w) && goal_reached(#[trigger] w.last()) ==> w.len() >= path.len(),
{
    let mut queue: VecDeque<(Board, Vec<Board>)> = VecDeque::new();
    let mut first: Vec<Board> = Vec::new();
    first.push(start.clone());
    assert(views(first@) =~= seq![start@]);
    queue.push_back((start.clone(), first));

    let mut visited: HashSet<u64> = HashSet::new();
    let mut start_canon = start.clone();
    start_canon.canonicalize();
    proof {
        lemma_canonical_keeps_wf(start@);
        lemma_canonical_key(start@);
    }
    visited.insert(start_canon.state_key());
    assert(visited@.len() == visited.len());
    // The positions ever put in the queue, in order, with the lengths of their paths; those
    // before the queue's front have been expanded.
    let ghost mut all: Seq<Seq<Piece>> = seq![start@];
    let ghost mut lens: Seq<int> = seq![1int];
    assert(visited@ =~= set![board_key(start@)]);
    proof {
        assert forall|w: Seq<Seq<Piece>>| #[trigger] is_walk(start@, w) && w.len() <= 1 implies exists|m: int|
            0 <= m < all.len() && #[trigger] board_key(all[m]) == board_key(w.last()) && lens[m] <= w.len() by {
            assert(w.last() == w[0]);
            assert(board_key(all[0]) == board_key(w.last()));
        }
        assert(reach_bound(start@, all, lens, lens[0]));
        assert forall|k: u64| #[trigger] visited@.contains(k) implies exists|m: int|
            0 <= m < all.len() && #[trigger] board_key(all[m]) == k by {
            assert(board_key(all[0]) == k);
        }
    }

    let mut path: Vec<Board> = Vec::new();
    loop
        invariant_except_break
            path.len() == 0,
            well_formed(start@),
            visited@.finite(),
            visited@.len() <= usize::MAX,
            forall|e: int|
                0 <= e < queue@.len() ==> is_move_sequence(start@, views(#[trigger] queue@[e].1@))
                    && queue@[e].1@.last()@ == queue@[e].0@,
            goal_reached(start@) ==> queue@.len() > 0,
            all.len() >= 1,
            all[0] == start@,
            lens.len() == all.len(),
            queue@.len() <= all.len(),
            forall|e: int| 0 <= e < queue@.len() ==> #[trigger] queue@[e].0@ == all[all.len() - queue@.len() + e],
            forall|e: int| 0 <= e < queue@.len() ==> #[trigger] queue@[e].1@.len() == lens[all.len() - queue@.len() + e],
            forall|a: int, b: int| 0 <= a <= b < lens.len() ==> lens[a] <= lens[b],
            queue@.len() > 0 ==> lens[lens.len() - 1] <= lens[all.len() - queue@.len()] + 1,
            queue@.len() > 0 ==> reach_bound(start@, all, lens, lens[all.len() - queue@.len()]),
            forall|m: int| 0 <= m < all.len() ==> well_formed(#[trigger] all[m]),
            forall|m: int| 0 <= m < all.len() - queue@.len() ==> !goal_reached(#[trigger] all[m]),
            forall|m: int, y: Seq<Piece>|
                0 <= m < all.len() - queue@.len() && #[trigger] all_moves(all[m]).contains(y) ==> exists|m2: int|
                    0 <= m2 < all.len() && #[trigger] board_key(all[m2]) == board_key(y) && lens[m2] <= lens[m] + 1,
            forall|k: u64| #[trigger] visited@.contains(k) ==> exists|m: int|
                0 <= m < all.len() && #[trigger] board_key(all[m]) == k,
        ensures
            path.len() == 0 || is_solution(start@, views(path@)),
            goal_reached(start@) ==> path.len() == 1,
            path.len() == 0 && at_most_one_red(start@) ==> !solvable(start@),
            path.len() > 0 && at_most_one_red(start@) ==> forall|w: Seq<Seq<Piece>>|
                is_walk(start@, w) && goal_reached(#[trigger] w.last()) ==> w.len() >= path.len(),
        decreases usize::MAX - visited@.len(), queue@.len(),
    {
        let ghost q_before = queue@;
        match queue.pop_front() {
            None => {
                proof {
                    assert forall|m: int, y: Seq<Piece>|
                        0 <= m < all.len() && #[trigger] all_moves(all[m]).contains(y) implies exists|m2: int|
                        0 <= m2 < all.len() && #[trigger] board_key(all[m2]) == board_key(y) by {
                        let m2 = choose|m2: int|
                            0 <= m2 < all.len() && #[trigger] board_key(all[m2]) == board_key(y) && lens[m2] <= lens[m] + 1;
                    }
                    assert(closed_unsolved(all));
                    if at_most_one_red(start@) {
                        lemma_closed_means_unsolvable(start@, all);
                    }
                }
                break;
            },
            Some(entry) => {
                let (current, p) = entry;
                assert(q_before[0] == (current, p));
                let ghost h = all.len() - q_before.len();
                assert(current@ == all[h]);
                assert(p@.len() == lens[h]);
                assert(is_move_sequence(start@, views(p@)) && p@.last()@ == current@);
                let ghost pv = views(p@);
                assert(pv.last() == current@);
                assert(well_formed(current@));
                if current.is_goal() {
                    proof {
                        if goal_reached(start@) {
                            assert(pv.len() == 1) by {
                                if pv.len() > 1 {
                                    assert(!goal_reached(pv[0]));
                                }
                            }
                        }
                        if at_most_one_red(start@) {
                            lemma_no_shorter_solution(start@, all, lens, h);
                        }
                    }
                    path = p;
                    break;
                }
                proof {
                    if goal_reached(start@) {
                        if pv.len() > 1 {
                            assert(!goal_reached(pv[0]));
                        }
                        assert(pv.len() == 1);
                        assert(false);
                    }
                    lemma_moves_stay_valid(current@);
                    assert forall|e: int| 0 <= e < queue@.len() implies #[trigger] queue@[e].0@ == all[all.len()
                        - queue@.len() + e] by {
                        assert(queue@[e] == q_before[e + 1]);
                    }
                    assert forall|e: int| 0 <= e < queue@.len() implies #[trigger] queue@[e].1@.len() == lens[all.len()
                        - queue@.len() + e] by {
                        assert(queue@[e] == q_before[e + 1]);
                    }
                }
                let ghost all_pop = all;
                let ghost lens_pop = lens;
                let moves = current.get_moves();
                let n = moves.len();
                let ghost q_mid = queue@.len();
                let ghost v_mid = visited@.len();
                let mut k: usize = 0;
                while k < n
                    invariant
                        n == moves@.len(),
                        k <= n,
                        well_formed(start@),
                        well_formed(current@),
                        !goal_reached(current@),
                        is_move_sequence(start@, pv),
                        pv == views(p@),
                        pv.last() == current@,
                        views(moves@) == all_moves(current@),
                        forall|t: Seq<Piece>| #[trigger] all_moves(current@).contains(t) ==> well_formed(t)
                            && t.len() == current@.len(),
                        visited@.finite(),
                        visited@.len() <= usize::MAX,
                        visited@.len() >= v_mid,
                        queue@.len() - q_mid == visited@.len() - v_mid,
                        forall|e: int|
                            0 <= e < queue@.len() ==> is_move_sequence(start@, views(#[trigger] queue@[e].1@))
                                && queue@[e].1@.last()@ == queue@[e].0@,
                        all.len() >= 1,
                        all[0] == start@,
                        0 <= h < all_pop.len(),
                        lens_pop.len() == all_pop.len(),
                        all_pop.len() <= all.len(),
                        forall|m: int| 0 <= m < all_pop.len() ==> all[m] == all_pop[m] && lens[m] == lens_pop[m],
                        h + 1 == all.len() - queue@.len(),
                        all[h] == current@,
                        p@.len() == lens[h],
                        lens.len() == all.len(),
                        forall|e: int| 0 <= e < queue@.len() ==> #[trigger] queue@[e].0@ == all[all.len() - queue@.len() + e],
                        forall|e: int| 0 <= e < queue@.len() ==> #[trigger] queue@[e].1@.len() == lens[all.len() - queue@.len() + e],
                        forall|a: int, b: int| 0 <= a <= b < lens.len() ==> lens[a] <= lens[b],
                        lens[lens.len() - 1] <= lens[h] + 1,
                        forall|m: int| 0 <= m < all.len() ==> well_formed(#[trigger] all[m]),
                        forall|m: int| 0 <= m < h ==> !goal_reached(#[trigger] all[m]),
                        forall|m: int, y: Seq<Piece>|
                            0 <= m < h && #[trigger] all_moves(all[m]).contains(y) ==> exists|m2: int|
                                0 <= m2 < all.len() && #[trigger] board_key(all[m2]) == board_key(y) && lens[m2]
                                    <= lens[m] + 1,
                        forall|j: int| 0 <= j < k ==> exists|m2: int|
                            0 <= m2 < all.len() && #[trigger] board_key(all[m2]) == board_key(
                                #[trigger] views(moves@)[j],
                            ) && lens[m2] <= lens[h] + 1,
                        forall|key: u64| #[trigger] visited@.contains(key) ==> exists|m: int|
                            0 <= m < all.len() && #[trigger] board_key(all[m]) == key,
                    decreases n - k,
                {
                    let next = moves[k].clone();
                    proof {
                        assert(views(moves@)[k as int] == next@);
                        assert(all_moves(current@).contains(next@));
                    }
                    let mut next_canon = next.clone();
                    next_canon.canonicalize();
                    proof {
                        lemma_canonical_keeps_wf(next@);
                        lemma_canonical_key(next@);
                    }
                    let key = next_canon.state_key();
                    if !visited.contains(&key) {
                        let ghost v_old = visited@;
                        visited.insert(key);
                        assert(visited@.len() == visited.len());
                        let mut next_path = p.clone();
                        next_path.push(next.clone());
                        proof {
                            assert forall|j: int| 0 <= j < p@.len() implies next_path@[j]@ == p@[j]@ by {
                            }
                            let nv = views(next_path@);
                            assert(nv =~= pv.push(next@));
                            assert forall|j: int| 0 <= j < nv.len() - 1 implies all_moves(#[trigger] nv[j]).contains(
                                nv[j + 1],
                            ) by {
                                if j == nv.len() - 2 {
                                    assert(nv[j] == current@);
                                } else {
                                    assert(nv[j] == pv[j] && nv[j + 1] == pv[j + 1]);
                                }
                            }
                            assert forall|j: int| 0 <= j < nv.len() - 1 implies !goal_reached(#[trigger] nv[j]) by {
                                if j == nv.len() - 2 {
                                    assert(nv[j] == current@);
                                } else {
                                    assert(nv[j] == pv[j]);
                                }
                            }
                            assert forall|j: int| 0 <= j < nv.len() implies well_formed(#[trigger] nv[j])
                                && nv[j].len() == start@.len() by {
                                if j == nv.len() - 1 {
                                    assert(nv[j] == next@);
                                } else {
                                    assert(nv[j] == pv[j]);
                                }
                            }
                            assert(is_move_sequence(start@, nv));
                        }
                        let ghost q_old = queue@;
                        let ghost all_old = all;
                        let ghost lens_old = lens;
                        let ghost np_len = next_path@.len();
                        queue.push_back((next, next_path));
                        proof {
                            all = all.push(next@);
                            lens = lens.push(lens[h] + 1);
                            assert(np_len == lens[h] + 1);
                            assert forall|e: int|
                                0 <= e < queue@.len() implies is_move_sequence(
                                start@,
                                views(#[trigger] queue@[e].1@),
                            ) && queue@[e].1@.last()@ == queue@[e].0@ by {
                                if e < q_old.len() {
                                    assert(queue@[e] == q_old[e]);
                                }
                            }
                            assert forall|e: int| 0 <= e < queue@.len() implies #[trigger] queue@[e].0@
                                == all[all.len() - queue@.len() + e] && queue@[e].1@.len() == lens[all.len()
                                - queue@.len() + e] by {
                                let idx = all_old.len() - q_old.len() + e;
                                assert(all.len() - queue@.len() + e == idx);
                                if e < q_old.len() {
                                    assert(queue@[e] == q_old[e]);
                                    assert(q_old[e].0@ == all_old[idx]);
                                    assert(q_old[e].1@.len() == lens_old[idx]);
                                    assert(all[idx] == all_old[idx]);
                                    assert(lens[idx] == lens_old[idx]);
                                } else {
                                    assert(idx == all.len() - 1);
                                    assert(queue@[e].0@ == next@);
                                    assert(queue@[e].1@.len() == np_len);
                                }
                            }
                            assert forall|a: int, b: int| 0 <= a <= b < lens.len() implies lens[a] <= lens[b] by {
                                if b == lens.len() - 1 && a < b {
                                    assert(lens[a] == lens_old[a]);
                                    assert(lens_old[a] <= lens_old[lens_old.len() - 1]);
                                    assert(lens_old[h] == lens[h]);
                                    assert(lens_old[a] <= lens_old[h] + 1 || a <= h);
                                    if a > h {
                                        assert(lens_old[a] <= lens_old[lens_old.len() - 1]);
                                    } else {
                                        assert(lens_old[a] <= lens_old[h]);
                                    }
                                } else if b < lens.len() - 1 {
                                    assert(lens[a] == lens_old[a] && lens[b] == lens_old[b]);
                                }
                            }
                            assert forall|m: int| 0 <= m < all_pop.len() implies all[m] == all_pop[m] && lens[m]
                                == lens_pop[m] by {
                                assert(all[m] == all_old[m] && lens[m] == lens_old[m]);
                            }
                            assert forall|m: int| 0 <= m < all.len() implies well_formed(#[trigger] all[m]) by {
                                if m < all_old.len() {
                                    assert(all[m] == all_old[m]);
                                }
                            }
                            assert forall|m: int| 0 <= m < h implies !goal_reached(#[trigger] all[m]) by {
                                assert(all[m] == all_old[m]);
                            }
                            assert forall|m: int, y: Seq<Piece>|
                                0 <= m < h && #[trigger] all_moves(all[m]).contains(y) implies exists|m2: int|
                                0 <= m2 < all.len() && #[trigger] board_key(all[m2]) == board_key(y) && lens[m2]
                                    <= lens[m] + 1 by {
                                assert(all[m] == all_old[m]);
                                assert(all_moves(all_old[m]).contains(y));
                                let m2 = choose|m2: int|
                                    0 <= m2 < all_old.len() && #[trigger] board_key(all_old[m2]) == board_key(y)
                                        && lens_old[m2] <= lens_old[m] + 1;
                                assert(all[m2] == all_old[m2] && lens[m2] == lens_old[m2]);
                            }
                            assert forall|j: int| 0 <= j < k implies exists|m2: int|
                                0 <= m2 < all.len() && #[trigger] board_key(all[m2]) == board_key(
                                    #[trigger] views(moves@)[j],
                                ) && lens[m2] <= lens[h] + 1 by {
                                let m2 = choose|m2: int|
                                    0 <= m2 < all_old.len() && #[trigger] board_key(all_old[m2]) == board_key(
                                        #[trigger] views(moves@)[j],
                                    ) && lens_old[m2] <= lens_old[h] + 1;
                                assert(all[m2] == all_old[m2] && lens[m2] == lens_old[m2]);
                            }
                            assert forall|key2: u64| #[trigger] visited@.contains(key2) implies exists|m: int|
                                0 <= m < all.len() && #[trigger] board_key(all[m]) == key2 by {
                                if key2 == key {
                                    assert(board_key(all[all.len() - 1]) == key2);
                                } else {
                                    assert(v_old.contains(key2));
                                    let m = choose|m: int| 0 <= m < all_old.len() && #[trigger] board_key(all_old[m]) == key2;
                                    assert(all[m] == all_old[m]);
                                }
                            }
                            assert(all[h] == current@);
                            assert(all[0] == start@);
                            assert(board_key(all[all.len() - 1]) == board_key(views(moves@)[k as int]));
                        }
                    } else {
                        proof {
                            let m2 = choose|m2: int| 0 <= m2 < all.len() && #[trigger] board_key(all[m2]) == key;
                            assert(lens[m2] <= lens[lens.len() - 1]);
                            assert(board_key(all[m2]) == board_key(views(moves@)[k as int]));
                        }
                    }
                    k += 1;
                }
                proof {
                    assert forall|m: int, y: Seq<Piece>|
                        0 <= m < h + 1 && #[trigger] all_moves(all[m]).contains(y) implies exists|m2: int|
                        0 <= m2 < all.len() && #[trigger] board_key(all[m2]) == board_key(y) && lens[m2] <= lens[m] + 1 by {
                        if m == h {
                            let j = choose|j: int| 0 <= j < views(moves@).len() && views(moves@)[j] == y;
                            let m2 = choose|m2: int|
                                0 <= m2 < all.len() && #[trigger] board_key(all[m2]) == board_key(
                                    #[trigger] views(moves@)[j],
                                ) && lens[m2] <= lens[h] + 1;
                        }
                    }
                    assert forall|m: int| 0 <= m < h + 1 implies !goal_reached(#[trigger] all[m]) by {}
                    if queue@.len() > 0 {
                        let f = lens[h];
                        let h2 = h + 1;
                        assert(lens[h] <= lens[h2]);
                        assert(lens[h2] <= lens[lens.len() - 1]);
                        lemma_reach_bound_extend(start@, all_pop, lens_pop, all, lens, f);
                        if lens[h2] == f + 1 {
                            assert forall|m: int| 0 <= m < all.len() && lens[m] <= f implies m < h2 by {
                                if m >= h2 {
                                    assert(lens[h2] <= lens[m]);
                                }
                            }
                            lemma_reach_bound_step(start@, all, lens, f, h2);
                        }
                        assert(reach_bound(start@, all, lens, lens[all.len() - queue@.len()]));
                    }
                }
            },
        }
    }
    path
}

/// The starting layout holds one red block.
proof fn lemma_start_layout_one_red()
    ensures
        at_most_one_red(start_layout()),
{
    let s = start_layout();
    assert forall|i: int, j: int|
        0 <= i < s.len() && 0 <= j < s.len() && #[trigger] s[i].piece_type == PieceType::Red2x2
            && #[trigger] s[j].piece_type == PieceType::Red2x2 implies i == j by {
        assert forall|k: int| 1 <= k < s.len() implies s[k].piece_type != PieceType::Red2x2 by {
            assert(s[1].piece_type == PieceType::Yellow1x2);
            assert(s[2].piece_type == PieceType::Yellow1x2);
            assert(s[3].piece_type == PieceType::Yellow1x2);
            assert(s[4].piece_type == PieceType::Yellow1x2);
            assert(s[5].piece_type == PieceType::Yellow2x1);
            assert(s[6].piece_type == PieceType::Blue1x1);
            assert(s[7].piece_type == PieceType::Blue1x1);
            assert(s[8].piece_type == PieceType::Blue1x1);
            assert(s[9].piece_type == PieceType::Blue1x1);
        }
    }
}

/// Searches for a solution of the puzzle from its starting layout.
pub fn solve() -> (path: Vec<Board>)
    ensures
        path.len() == 0 || is_solution(start_layout(), views(path@)),
        path.len() == 0 ==> !solvable(start_layout()),
        forall|w: Seq<Seq<Piece>>|
            is_walk(start_layout(), w) && goal_reached(#[trigger] w.last()) ==> w.len() >= path.len(),
{
    let start = Board::new();
    proof {
        lemma_start_layout_one_red();
    }
    solve_from(&start)
}

} // verus!
