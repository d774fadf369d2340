//! The standard play session: a game on the default board shape, plus the
//! interaction flags a front end polls. Drawing and input dispatch live
//! with the embedding application; only the session's state is here.
use vstd::prelude::*;

use crate::board::{is_dirt, is_uncovered, tile_at};
use crate::game::{Config, State, Status};
use crate::grid::{coords_in, Coords};

verus! {

/// Cells across the default board.
pub const GRID_WIDTH: usize = 12;

/// Rows of the default board: three quarters of the width.
pub const GRID_HEIGHT: usize = (GRID_WIDTH / 4) * 3;

/// Cells of the default board.
pub const GRID_AREA: usize = GRID_WIDTH * GRID_HEIGHT;

/// Mines on the default board: an eighth of its cells.
pub const N_MINES: usize = GRID_AREA / 8;

/// The settings screen of the front end; it holds no state of its own and
/// all its behavior is the front end's.
pub struct Configure {}

/// A play session: the game on the default board, whether the restart
/// button is held down, and whether the front end must redraw. The front
/// end reads and drives the game and the two flags directly.
pub struct Play {
    pub state: State,
    pub boop: bool,
    pub dirty: bool,
}

impl Play {
    /// Starts a session on the default board: a fresh random game, nothing
    /// held down, and a first redraw pending.
    pub fn new() -> (r: Play)
        ensures
            r.state.wf(),
            r.state.spec_status() == Status::Playing,
            r.state.spec_config().width == GRID_WIDTH,
            r.state.spec_config().height == GRID_HEIGHT,
            r.state.spec_config().n_mines == N_MINES,
            r.state.spec_flags() == N_MINES as int,
            forall|i: int|
                0 <= i < r.state.spec_board().len() ==> (#[trigger] r.state.spec_board()[i]).state
                    != crate::board::TileState::Covered(true),
            forall|i: int|
                0 <= i < r.state.spec_board().len() && is_uncovered(
                    #[trigger] r.state.spec_board()[i],
                ) ==> is_dirt(r.state.spec_board()[i]),
            (exists|c: Coords|
                coords_in(r.state.spec_w(), r.state.spec_h(), c) && is_dirt(
                    #[trigger] tile_at(r.state.spec_board(), r.state.spec_w(), c),
                ) && tile_at(r.state.spec_board(), r.state.spec_w(), c).n_near == 0) ==> (exists|
                c: Coords,
            |
                coords_in(r.state.spec_w(), r.state.spec_h(), c) && is_dirt(
                    #[trigger] tile_at(r.state.spec_board(), r.state.spec_w(), c),
                ) && tile_at(r.state.spec_board(), r.state.spec_w(), c).n_near == 0
                    && is_uncovered(tile_at(r.state.spec_board(), r.state.spec_w(), c))),
            !r.boop,
            r.dirty,
    {
        let config = Config { width: GRID_WIDTH, height: GRID_HEIGHT, n_mines: N_MINES, seed: None };
        let state = match State::new(config) {
            Ok(state) => state,
            Err(_) => vstd::pervasive::unreached(),
        };
        Play { state, boop: false, dirty: true }
    }
}

} // verus!
