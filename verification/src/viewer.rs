//! The rules of the solution viewer: stepping back and forth through the solution with
//! buttons, and dragging blocks by hand, after which the step buttons stay disabled until
//! the viewer is reset.

use vstd::prelude::*;

use crate::board::{
    Board, well_formed, owner, cell_value, lemma_grid_marks_cover, lemma_owner_range, lemma_owner_is_cover,
};
use crate::moves::{
    views, target_free, placed, is_unit_step, all_moves, lemma_unit_slide_is_move, lemma_target_free_iff_valid,
};
use crate::piece::Piece;

verus! {

/// The buttons of the viewer.
#[derive(Clone, Copy, Debug, PartialEq, Eq, Structural)]
pub enum NavButton {
    Back,
    Forward,
    Reset,
}

/// The state of the viewer.
pub struct SolutionPath {
    /// The positions of the solution, from the start.
    pub steps: Vec<Board>,
    /// The step shown by the step buttons.
    pub current_idx: usize,
    /// The player has moved a block by hand since the last reset.
    pub is_playing: bool,
    /// The position on screen.
    pub current_board: Board,
    /// The index of the block being dragged, if any.
    pub dragging_piece: Option<usize>,
}

/// The viewer state as plain values.
pub struct ViewerState {
    pub steps: Seq<Seq<Piece>>,
    pub current_idx: int,
    pub is_playing: bool,
    pub current: Seq<Piece>,
    pub dragging: Option<int>,
}

impl View for SolutionPath {
    type V = ViewerState;

    open spec fn view(&self) -> ViewerState {
        ViewerState {
            steps: views(self.steps@),
            current_idx: self.current_idx as int,
            is_playing: self.is_playing,
            current: self.current_board@,
            dragging: match self.dragging_piece {
                Some(i) => Some(i as int),
                None => None,
            },
        }
    }
}

/// The invariant of the viewer: the shown position and every step are valid positions with
/// the same number of blocks, the step index lies in the solution, and a dragged block exists.
pub open spec fn viewer_ok(v: ViewerState) -> bool {
    &&& well_formed(v.current)
    &&& forall|k: int|
        0 <= k < v.steps.len() ==> well_formed(#[trigger] v.steps[k]) && v.steps[k].len()
            == v.current.len()
    &&& v.steps.len() == 0 ==> v.current_idx == 0
    &&& v.steps.len() > 0 ==> 0 <= v.current_idx < v.steps.len()
    &&& v.dragging matches Some(i) ==> 0 <= i < v.current.len()
}

/// A step button is disabled while the player is moving blocks by hand.
pub open spec fn nav_disabled(v: ViewerState, nav: NavButton) -> bool {
    v.is_playing && (nav == NavButton::Back || nav == NavButton::Forward)
}

/// Pressing a button never reads past the solution: a press of an enabled Forward or of
/// Reset needs at least one step.
pub open spec fn press_allowed(v: ViewerState, nav: NavButton) -> bool {
    !nav_disabled(v, nav) && (nav == NavButton::Forward || nav == NavButton::Reset) ==> v.steps.len()
        > 0
}

/// `v` showing step `i` of the solution.
pub open spec fn show_step(v: ViewerState, i: int) -> ViewerState {
    ViewerState {
        steps: v.steps,
        current_idx: i,
        is_playing: v.is_playing,
        current: v.steps[i],
        dragging: v.dragging,
    }
}

/// The viewer after a press of `nav`.
pub open spec fn after_press(v: ViewerState, nav: NavButton) -> ViewerState {
    if nav_disabled(v, nav) {
        v
    } else {
        match nav {
            NavButton::Back => if v.current_idx > 0 {
                show_step(v, v.current_idx - 1)
            } else {
                v
            },
            NavButton::Forward => if v.current_idx < v.steps.len() - 1 {
                show_step(v, v.current_idx + 1)
            } else {
                v
            },
            NavButton::Reset => ViewerState {
                steps: v.steps,
                current_idx: 0,
                is_playing: false,
                current: v.steps[0],
                dragging: v.dragging,
            },
        }
    }
}

/// The viewer after a click on cell `(gx, gy)`: the block covering the cell, if any,
/// becomes the dragged block.
pub open spec fn after_pick(v: ViewerState, gx: int, gy: int) -> ViewerState {
    let o = owner(v.current, v.current.len() as int, gx, gy);
    if o >= 0 {
        ViewerState {
            steps: v.steps,
            current_idx: v.current_idx,
            is_playing: v.is_playing,
            current: v.current,
            dragging: Some(o),
        }
    } else {
        v
    }
}

/// The viewer after the mouse button is released: nothing is dragged.
pub open spec fn after_release(v: ViewerState) -> ViewerState {
    ViewerState {
        steps: v.steps,
        current_idx: v.current_idx,
        is_playing: v.is_playing,
        current: v.current,
        dragging: None,
    }
}

/// The viewer after the dragged block is pulled by `(dx, dy)`: the block moves there when
/// the target cells are free for it, and the step buttons become disabled.
pub open spec fn after_drag(v: ViewerState, dx: int, dy: int) -> ViewerState {
    match v.dragging {
        Some(i) => {
            let nx = v.current[i].x + dx;
            let ny = v.current[i].y + dy;
            if target_free(v.current, i, nx, ny) {
                ViewerState {
                    steps: v.steps,
                    current_idx: v.current_idx,
                    is_playing: true,
                    current: placed(v.current, i, nx, ny),
                    dragging: v.dragging,
                }
            } else {
                v
            }
        },
        None => v,
    }
}

/// While the player has not moved blocks by hand, the screen shows the step the index names.
pub open spec fn in_step(v: ViewerState) -> bool {
    !v.is_playing && v.steps.len() > 0 ==> v.current == v.steps[v.current_idx]
}

/// Every press keeps the viewer invariant.
pub proof fn lemma_press_keeps_ok(v: ViewerState, nav: NavButton)
    requires
        viewer_ok(v),
        press_allowed(v, nav),
    ensures
        viewer_ok(after_press(v, nav)),
{
    let w = after_press(v, nav);
    if !nav_disabled(v, nav) {
        if nav == NavButton::Back && v.current_idx > 0 {
            assert(well_formed(v.steps[v.current_idx - 1]));
        } else if nav == NavButton::Forward && v.current_idx < v.steps.len() - 1 {
            assert(well_formed(v.steps[v.current_idx + 1]));
        } else if nav == NavButton::Reset {
            assert(well_formed(v.steps[0]));
        }
    }
}

/// Once the shown position is a step of the solution, pressing buttons keeps it so.
pub proof fn lemma_press_keeps_in_step(v: ViewerState, nav: NavButton)
    requires
        viewer_ok(v),
        press_allowed(v, nav),
        in_step(v),
    ensures
        in_step(after_press(v, nav)),
{
}

/// Reset always shows the first step with the step buttons enabled.
pub proof fn lemma_reset_shows_start(v: ViewerState)
    requires
        viewer_ok(v),
        v.steps.len() > 0,
    ensures
        after_press(v, NavButton::Reset).current_idx == 0,
        after_press(v, NavButton::Reset).current == v.steps[0],
        !after_press(v, NavButton::Reset).is_playing,
{
}

/// While the player moves blocks by hand, Back and Forward change nothing.
pub proof fn lemma_steps_locked_while_playing(v: ViewerState)
    requires
        v.is_playing,
    ensures
        after_press(v, NavButton::Back) == v,
        after_press(v, NavButton::Forward) == v,
{
}

/// Forward then Back returns to the step shown before, and Back then Forward too.
pub proof fn lemma_forward_back_round_trip(v: ViewerState)
    requires
        viewer_ok(v),
        !v.is_playing,
        v.steps.len() > 0,
    ensures
        v.current_idx < v.steps.len() - 1 ==> after_press(after_press(v, NavButton::Forward), NavButton::Back)
            == show_step(v, v.current_idx),
        v.current_idx > 0 ==> after_press(after_press(v, NavButton::Back), NavButton::Forward)
            == show_step(v, v.current_idx),
{
}

/// A block moved by hand by a unit step makes one of the solver's moves.
pub proof fn lemma_drag_is_move(v: ViewerState, dx: int, dy: int)
    requires
        viewer_ok(v),
        is_unit_step(dx, dy),
        after_drag(v, dx, dy).current != v.current,
    ensures
        all_moves(v.current).contains(after_drag(v, dx, dy).current),
{
    let i = v.dragging->0;
    lemma_unit_slide_is_move(v.current, i, dx, dy);
}

/// The step buttons: while no block was moved by hand, Back shows the previous step and
/// Forward the next one, each doing nothing at its end of the solution; Reset shows the first
/// step and unlocks the step buttons. Only Back and Forward are ever disabled, and only while
/// blocks are moved by hand. No press changes the solution or the dragged block.
pub proof fn lemma_step_buttons(v: ViewerState)
    requires
        viewer_ok(v),
        v.steps.len() > 0,
    ensures
        !nav_disabled(v, NavButton::Reset),
        !v.is_playing ==> !nav_disabled(v, NavButton::Back) && !nav_disabled(v, NavButton::Forward),
        !v.is_playing && v.current_idx > 0 ==> {
            let w = after_press(v, NavButton::Back);
            &&& w.current_idx == v.current_idx - 1
            &&& w.current == v.steps[v.current_idx - 1]
            &&& w.is_playing == v.is_playing
        },
        !v.is_playing && v.current_idx + 1 < v.steps.len() ==> {
            let w = after_press(v, NavButton::Forward);
            &&& w.current_idx == v.current_idx + 1
            &&& w.current == v.steps[v.current_idx + 1]
            &&& w.is_playing == v.is_playing
        },
        v.current_idx == 0 ==> after_press(v, NavButton::Back) == v,
        v.current_idx + 1 == v.steps.len() ==> after_press(v, NavButton::Forward) == v,
        after_press(v, NavButton::Reset).current_idx == 0,
        after_press(v, NavButton::Reset).current == v.steps[0],
        !after_press(v, NavButton::Reset).is_playing,
        forall|nav: NavButton|
            #![trigger after_press(v, nav)]
            after_press(v, nav).steps == v.steps && after_press(v, nav).dragging == v.dragging,
{
}

/// A pull of the dragged block by a unit step moves it exactly when the moved position is
/// valid (the block stays in the tray and shares no cell with any other block); it then locks
/// the step buttons, and otherwise nothing changes. Without a dragged block nothing changes.
pub proof fn lemma_drag_moves_when_legal(v: ViewerState, dx: int, dy: int)
    requires
        viewer_ok(v),
        is_unit_step(dx, dy),
    ensures
        v.dragging is None ==> after_drag(v, dx, dy) == v,
        v.dragging matches Some(i) ==> {
            let nx = v.current[i].x + dx;
            let ny = v.current[i].y + dy;
            let legal = nx >= 0 && ny >= 0 && well_formed(placed(v.current, i, nx, ny));
            &&& legal ==> after_drag(v, dx, dy) == (ViewerState {
                steps: v.steps,
                current_idx: v.current_idx,
                is_playing: true,
                current: placed(v.current, i, nx, ny),
                dragging: v.dragging,
            })
            &&& !legal ==> after_drag(v, dx, dy) == v
        },
{
    if v.dragging is Some {
        let i = v.dragging->0;
        assert(v.current[i].fits());
        lemma_target_free_iff_valid(v.current, i, v.current[i].x + dx, v.current[i].y + dy);
    }
}

/// A click on a cell of the tray starts dragging the block covering it; a click on an empty
/// cell changes nothing. Nothing else changes.
pub proof fn lemma_pick_takes_covering_block(v: ViewerState, gx: int, gy: int)
    requires
        viewer_ok(v),
        0 <= gx < 4,
        0 <= gy < 5,
    ensures
        forall|j: int|
            0 <= j < v.current.len() && #[trigger] v.current[j].covers(gx, gy) ==> after_pick(v, gx, gy)
                == (ViewerState {
                steps: v.steps,
                current_idx: v.current_idx,
                is_playing: v.is_playing,
                current: v.current,
                dragging: Some(j),
            }),
        (forall|j: int| 0 <= j < v.current.len() ==> !#[trigger] v.current[j].covers(gx, gy)) ==> after_pick(
            v,
            gx,
            gy,
        ) == v,
{
    let s = v.current;
    lemma_owner_range(s, s.len() as int, gx, gy);
    assert forall|j: int|
        0 <= j < s.len() && #[trigger] s[j].covers(gx, gy) implies owner(s, s.len() as int, gx, gy) == j by {
        lemma_owner_is_cover(s, s.len() as int, gx, gy, j);
    }
}

impl SolutionPath {
    /// A viewer on the solution `steps` showing `start`, with no block dragged.
    pub fn new(steps: Vec<Board>, start: Board) -> (res: SolutionPath)
        requires
            start.wf(),
            forall|k: int|
                0 <= k < steps@.len() ==> well_formed(#[trigger] steps@[k]@) && steps@[k]@.len()
                    == start@.len(),
        ensures
            res@ == (ViewerState {
                steps: views(steps@),
                current_idx: 0,
                is_playing: false,
                current: start@,
                dragging: None,
            }),
            viewer_ok(res@),
    {
        SolutionPath { steps, current_idx: 0, is_playing: false, current_board: start, dragging_piece: None }
    }

    /// Whether the button `nav` is disabled.
    pub fn is_disabled(&self, nav: NavButton) -> (res: bool)
        ensures
            res == nav_disabled(self@, nav),
    {
        self.is_playing && (nav == NavButton::Back || nav == NavButton::Forward)
    }

    /// Applies a press of `nav`: Back and Forward step through the solution unless disabled,
    /// Reset returns to the first step and enables them again.
    pub fn press(&mut self, nav: NavButton)
        requires
            viewer_ok(old(self)@),
            press_allowed(old(self)@, nav),
        ensures
            final(self)@ == after_press(old(self)@, nav),
            viewer_ok(final(self)@),
    {
        proof {
            lemma_press_keeps_ok(self@, nav);
        }
        if !self.is_disabled(nav) {
            match nav {
                NavButton::Back => {
                    if self.current_idx > 0 {
                        self.current_idx = self.current_idx - 1;
                        self.current_board = self.steps[self.current_idx].clone();
                    }
                },
                NavButton::Forward => {
                    if self.current_idx < self.steps.len() - 1 {
                        self.current_idx = self.current_idx + 1;
                        self.current_board = self.steps[self.current_idx].clone();
                    }
                },
                NavButton::Reset => {
                    self.current_idx = 0;
                    self.is_playing = false;
                    self.current_board = self.steps[0].clone();
                },
            }
        }
    }

    /// A click on cell `(gx, gy)`: starts dragging the block there, if any.
    pub fn pick_piece(&mut self, gx: u8, gy: u8)
        requires
            viewer_ok(old(self)@),
            gx < 4,
            gy < 5,
        ensures
            final(self)@ == after_pick(old(self)@, gx as int, gy as int),
            viewer_ok(final(self)@),
            final(self).dragging_piece != old(self).dragging_piece ==> (final(self).dragging_piece matches Some(i)
                && final(self)@.current[i as int].covers(gx as int, gy as int)),
    {
        let grid = self.current_board.to_grid();
        let occupant = grid[gy as usize][gx as usize];
        proof {
            let s = self@.current;
            lemma_owner_range(s, s.len() as int, gx as int, gy as int);
            lemma_grid_marks_cover(s, gx as int, gy as int);
            let o = owner(s, s.len() as int, gx as int, gy as int);
            assert(occupant == cell_value(s, gx as int, gy as int));
            if o >= 0 {
                assert(s[o].covers(gx as int, gy as int));
                assert(occupant == o);
            } else {
                assert(occupant == -1i8);
            }
        }
        if occupant != -1 {
            self.dragging_piece = Some(occupant as usize);
        }
    }

    /// The mouse button is released: nothing is dragged any more.
    pub fn release_drag(&mut self)
        requires
            viewer_ok(old(self)@),
        ensures
            final(self)@ == after_release(old(self)@),
            viewer_ok(final(self)@),
    {
        self.dragging_piece = None;
    }

    /// Pulls the dragged block by the unit step `(dx, dy)`: it moves when the target cells
    /// are free for it, and the step buttons are then disabled.
    pub fn drag_piece(&mut self, dx: i8, dy: i8)
        requires
            viewer_ok(old(self)@),
            is_unit_step(dx as int, dy as int),
        ensures
            final(self)@ == after_drag(old(self)@, dx as int, dy as int),
            viewer_ok(final(self)@),
    {
        if let Some(idx) = self.dragging_piece {
            match self.current_board.try_slide(idx, dx, dy) {
                Some(next) => {
                    proof {
                        lemma_unit_slide_is_move(self@.current, idx as int, dx as int, dy as int);
                        crate::moves::lemma_moves_stay_valid(self@.current);
                    }
                    self.current_board = next;
                    self.is_playing = true;
                },
                None => {},
            }
        }
    }
}

} // verus!
