//! The game state machine: board construction with seeded random mine
//! placement, digging with flood reveal, flagging with a bounded budget,
//! win/loss detection, and restart.
use vstd::prelude::*;

use crate::board::{
    adjacent, all_solved, count1, count_covered, count_flagged, count_mines, is_dirt, is_flagged,
    is_mine, is_uncovered, mines_near, nbrs_uncovered, near_counts_ok, no_uncovered_mines, path_ok,
    reaches, same_layout, solved, step_ok, tile_at, zero_closed, zero_closed_except, Tile,
    TileKind, TileState,
};
use crate::grid::{coords_in, row_major, Coords, Grid};
use crate::rng::{os_seed, rng_below, rng_from_seed};
use rand_pcg::Pcg32;

verus! {

/// Where the game stands. `Playing` is the initial status; `Won` and `Dead`
/// are terminal: no `dig` or `flag` leaves them.
#[derive(Clone, Copy, Debug, PartialEq, Eq, Structural)]
pub enum Status {
    Playing,
    Won,
    Dead,
}

/// The puzzle parameters: board dimensions, how many mines to place, and an
/// optional seed for reproducible boards. A board can be built only from a
/// valid configuration (see `valid_config`).
#[derive(Clone, Copy, Debug)]
pub struct Config {
    pub width: usize,
    pub height: usize,
    pub n_mines: usize,
    pub seed: Option<u64>,
}

/// The error `State::new` reports for a configuration that violates
/// `valid_config`: empty dimensions, a dimension beyond coordinate range, or
/// a mine count that leaves no room for a safe opening.
#[derive(Clone, Copy, Debug, PartialEq, Eq, Structural)]
pub struct ConfigError;

/// A configuration a board can be built from: positive dimensions that fit
/// the coordinate and index ranges, and a mine count strictly between zero
/// and the cell count.
pub open spec fn valid_config(c: Config) -> bool {
    &&& 0 < c.width as int
    &&& 0 < c.height as int
    &&& c.width as int <= i32::MAX as int
    &&& c.height as int <= i32::MAX as int
    &&& c.width as int * c.height as int <= usize::MAX as int
    &&& 0 < c.n_mines as int
    &&& (c.n_mines as int) < c.width as int * c.height as int
}

/// The status after the win check that follows every dig and flag: a running
/// game becomes `Won` exactly when every cell is solved; terminal statuses
/// stay as they are.
pub open spec fn after_win_check(st: Status, b: Seq<Tile>) -> Status {
    if st == Status::Playing && all_solved(b) {
        Status::Won
    } else {
        st
    }
}

/// The game state: the board, the configuration it was built from, the
/// current status, and the remaining flag budget.
pub struct State {
    config: Config,
    tiles: Grid<Tile>,
    status: Status,
    n_flags: usize,
}

impl State {
    /// The board's cells, row-major.
    pub closed spec fn spec_board(&self) -> Seq<Tile> {
        self.tiles@
    }

    /// The board's width.
    pub closed spec fn spec_w(&self) -> int {
        self.tiles.spec_width()
    }

    /// The board's height.
    pub closed spec fn spec_h(&self) -> int {
        self.tiles.spec_height()
    }

    /// The current status.
    pub closed spec fn spec_status(&self) -> Status {
        self.status
    }

    /// The remaining flag budget.
    pub closed spec fn spec_flags(&self) -> int {
        self.n_flags as int
    }

    /// The configuration the board was built from.
    pub closed spec fn spec_config(&self) -> Config {
        self.config
    }

    /// The game is over, in a win or a loss.
    pub open spec fn spec_done(&self) -> bool {
        self.spec_status() != Status::Playing
    }

    /// The state invariant, established by every constructor and preserved
    /// by every operation: the board matches the configuration's shape and
    /// mine count, every recorded neighbor count is the brute-force count,
    /// no flood reveal is left pending, the flag budget plus the flags on
    /// the board never exceed the mine count, and a running game has no
    /// uncovered mine.
    pub open spec fn wf(&self) -> bool {
        let b = self.spec_board();
        let w = self.spec_w();
        let h = self.spec_h();
        let cfg = self.spec_config();
        &&& w == cfg.width as int
        &&& h == cfg.height as int
        &&& b.len() == w * h
        &&& w <= i32::MAX as int
        &&& h <= i32::MAX as int
        &&& w * h <= usize::MAX as int
        &&& 0 < cfg.n_mines as int
        &&& (cfg.n_mines as int) < w * h
        &&& count_mines(b) == cfg.n_mines as int
        &&& near_counts_ok(b, w, h)
        &&& zero_closed(b, w, h)
        &&& 0 <= self.spec_flags()
        &&& self.spec_flags() + count_flagged(b) <= cfg.n_mines as int
        &&& (self.spec_status() == Status::Playing ==> no_uncovered_mines(b))
    }

    /// The current status.
    pub fn status(&self) -> (r: Status)
        ensures
            r == self.spec_status(),
    {
        self.status
    }

    /// Whether the game is over (won or lost).
    pub fn done(&self) -> (r: bool)
        ensures
            r == self.spec_done(),
    {
        self.status != Status::Playing
    }

    /// How many flags are left to place. Starts at the mine count; never
    /// negative, and together with the flags on the board never exceeds the
    /// mine count.
    pub fn flags_remaining(&self) -> (r: usize)
        ensures
            r as int == self.spec_flags(),
    {
        self.n_flags
    }

    /// The configuration the board was built from.
    pub fn config(&self) -> (r: Config)
        ensures
            r == self.spec_config(),
    {
        self.config
    }

    /// Every (coordinate, tile) pair of the board, row-major.
    pub fn enumerate_tiles(&self) -> (r: Vec<(Coords, Tile)>)
        requires
            self.wf(),
        ensures
            r@.len() == self.spec_board().len(),
            forall|k: int|
                0 <= k < r@.len() ==> coords_in(self.spec_w(), self.spec_h(), (#[trigger] r@[k]).0)
                    && row_major(self.spec_w(), r@[k].0) == k && r@[k].1 == self.spec_board()[k],
    {
        self.tiles.enumerate()
    }

    /// The win check run after every dig and flag: a running game whose
    /// every cell is solved becomes `Won`; nothing else changes.
    fn check_win(&mut self)
        requires
            old(self).wf(),
        ensures
            final(self).wf(),
            final(self).tiles == old(self).tiles,
            final(self).spec_board() == old(self).spec_board(),
            final(self).spec_w() == old(self).spec_w(),
            final(self).spec_h() == old(self).spec_h(),
            final(self).spec_flags() == old(self).spec_flags(),
            final(self).spec_config() == old(self).spec_config(),
            final(self).spec_status() == after_win_check(
                old(self).spec_status(),
                old(self).spec_board(),
            ),
    {
        if !self.done() {
            let n = self.tiles.len();
            let mut i: usize = 0;
            let mut unsolved = false;
            while i < n
                invariant
                    self == old(self),
                    n as int == self.spec_board().len(),
                    i <= n,
                    unsolved ==> exists|j: int|
                        0 <= j < i as int && !solved(#[trigger] self.spec_board()[j]),
                    !unsolved ==> forall|j: int|
                        0 <= j < i as int ==> solved(#[trigger] self.spec_board()[j]),
                decreases n - i,
            {
                let t = self.tiles.get_idx(i);
                let ok = match t.kind {
                    TileKind::Dirt => t.state == TileState::Uncovered,
                    TileKind::Mine => t.state == TileState::Covered(true),
                };
                if !ok {
                    unsolved = true;
                }
                i = i + 1;
            }
            if !unsolved {
                self.status = Status::Won;
            }
        }
    }

    /// Flags or unflags a covered cell. Placing a flag needs budget and
    /// spends one unit; removing one always returns its unit. Uncovered
    /// cells and finished games are untouched. The win check runs
    /// afterwards.
    pub fn flag(&mut self, c: Coords)
        requires
            old(self).wf(),
            old(self).spec_done() || coords_in(old(self).spec_w(), old(self).spec_h(), c),
        ensures
            final(self).wf(),
            final(self).spec_w() == old(self).spec_w(),
            final(self).spec_h() == old(self).spec_h(),
            final(self).spec_config() == old(self).spec_config(),
            old(self).spec_done() ==> *final(self) == *old(self),
            !old(self).spec_done() ==> {
                let b = old(self).spec_board();
                let w = old(self).spec_w();
                let t = tile_at(b, w, c);
                let b2 = final(self).spec_board();
                &&& (t.state == TileState::Covered(false) && old(self).spec_flags() > 0 ==> b2
                    == b.update(
                    row_major(w, c),
                    (Tile { state: TileState::Covered(true), ..t }),
                ) && final(self).spec_flags() == old(self).spec_flags() - 1)
                &&& (t.state == TileState::Covered(false) && old(self).spec_flags() == 0 ==> b2 == b
                    && final(self).spec_flags() == old(self).spec_flags())
                &&& (t.state == TileState::Covered(true) ==> b2 == b.update(
                    row_major(w, c),
                    (Tile { state: TileState::Covered(false), ..t }),
                ) && final(self).spec_flags() == old(self).spec_flags() + 1)
                &&& (t.state == TileState::Uncovered ==> b2 == b && final(self).spec_flags() == old(
                    self,
                ).spec_flags())
                &&& (t.state == TileState::Uncovered && !all_solved(b) ==> *final(self) == *old(
                    self,
                ))
                &&& final(self).spec_status() == after_win_check(Status::Playing, b2)
            },
    {
        if self.done() {
            return ;
        }
        let ghost b0 = self.spec_board();
        let ghost w = self.spec_w();
        let ghost h = self.spec_h();
        let t = self.tiles.get(c);
        match t.state {
            TileState::Covered(flagged) => {
                if !flagged {
                    if self.n_flags > 0 {
                        self.tiles.set(c, Tile { state: TileState::Covered(true), ..t });
                        self.n_flags = self.n_flags - 1;
                        proof {
                            flag_update_facts(
                                b0,
                                w,
                                h,
                                c,
                                (Tile { state: TileState::Covered(true), ..t }),
                            );
                        }
                    }
                } else {
                    proof {
                        crate::grid::lemma_row_major_in_range(w, h, c);
                        crate::board::lemma_count_flagged_at(b0, row_major(w, c));
                    }
                    self.tiles.set(c, Tile { state: TileState::Covered(false), ..t });
                    self.n_flags = self.n_flags + 1;
                    proof {
                        flag_update_facts(
                            b0,
                            w,
                            h,
                            c,
                            (Tile { state: TileState::Covered(false), ..t }),
                        );
                    }
                }
            },
            TileState::Uncovered => {},
        }
        self.check_win();
    }
}

/// Toggling the flag bit of a covered cell keeps the board's layout, its
/// neighbor counts, its flood closure and each cell's uncovered status, and
/// shifts the flag count by the change at that one cell.
proof fn flag_update_facts(b: Seq<Tile>, w: int, h: int, c: Coords, t: Tile)
    requires
        b.len() == w * h,
        w > 0,
        h > 0,
        coords_in(w, h, c),
        near_counts_ok(b, w, h),
        zero_closed(b, w, h),
        t.kind == tile_at(b, w, c).kind,
        t.n_near == tile_at(b, w, c).n_near,
        !is_uncovered(t),
        !is_uncovered(tile_at(b, w, c)),
    ensures
        same_layout(b, b.update(row_major(w, c), t)),
        near_counts_ok(b.update(row_major(w, c), t), w, h),
        zero_closed(b.update(row_major(w, c), t), w, h),
        count_flagged(b.update(row_major(w, c), t)) == count_flagged(b) - count1(
            is_flagged(tile_at(b, w, c)),
        ) + count1(is_flagged(t)),
        count_mines(b.update(row_major(w, c), t)) == count_mines(b),
        forall|i: int|
            0 <= i < b.len() ==> is_uncovered(#[trigger] b.update(row_major(w, c), t)[i])
                == is_uncovered(b[i]),
{
    crate::grid::lemma_row_major_in_range(w, h, c);
    let b2 = b.update(row_major(w, c), t);
    assert(same_layout(b, b2));
    crate::board::lemma_near_counts_same_layout(b, b2, w, h);
    crate::board::lemma_zero_closed_same_uncovered(b, b2, w, h);
    crate::board::lemma_count_flagged_update(b, row_major(w, c), t);
    crate::board::lemma_count_mines_same_layout(b, b2);
}

/// The invariant of the flood sweep, relative to the board `b0` the sweep
/// started from and the start cell: the layout is unchanged, cells only move
/// from covered to uncovered, newly uncovered cells are dirt on a flood path
/// from `start`, every queued cell is an uncovered zero-count dirt cell
/// reached from `start`, and every uncovered zero-count dirt cell other than
/// the exempt cell `ex` either is still queued or has all its dirt neighbors
/// uncovered. `ex` is the cell being processed; a sweep at rest exempts a
/// coordinate that is not on the board, so nothing is exempt.
spec fn flood_inv(
    b0: Seq<Tile>,
    w: int,
    h: int,
    start: Coords,
    tiles: Grid<Tile>,
    q: Seq<Coords>,
    ex: Coords,
) -> bool {
    &&& tiles.wf()
    &&& tiles.spec_width() == w
    &&& tiles.spec_height() == h
    &&& b0.len() == w * h
    &&& coords_in(w, h, start)
    &&& same_layout(b0, tiles@)
    &&& forall|i: int|
        0 <= i < b0.len() && is_uncovered(#[trigger] b0[i]) ==> is_uncovered(tiles@[i])
    &&& forall|i: int|
        0 <= i < b0.len() ==> tiles@[i].state == (#[trigger] b0[i]).state || (tiles@[i].state
            == TileState::Uncovered && is_dirt(b0[i]))
    &&& forall|d: Coords|
        #![trigger tile_at(tiles@, w, d)]
        coords_in(w, h, d) && is_uncovered(tile_at(tiles@, w, d)) && !is_uncovered(
            tile_at(b0, w, d),
        ) ==> reaches(b0, w, h, start, d)
    &&& forall|k: int|
        0 <= k < q.len() ==> coords_in(w, h, #[trigger] q[k]) && is_dirt(tile_at(tiles@, w, q[k]))
            && is_uncovered(tile_at(tiles@, w, q[k])) && tile_at(tiles@, w, q[k]).n_near == 0 && (
        q[k] == start || reaches(b0, w, h, start, q[k]))
    &&& forall|c: Coords|
        c != ex && coords_in(w, h, c) && is_dirt(tile_at(tiles@, w, c)) && is_uncovered(
            tile_at(tiles@, w, c),
        ) && tile_at(tiles@, w, c).n_near == 0 ==> q.contains(c) || #[trigger] nbrs_uncovered(
            tiles@,
            w,
            h,
            c,
        )
}

/// A coordinate that lies on no board, used to exempt nothing from the
/// sweep invariant's closure clause.
spec fn no_cell() -> Coords {
    Coords { x: -1 as i32, y: -1 as i32 }
}

/// One probe of the flood sweep at a neighbor `at` of the dequeued cell `p`:
/// if `at` is an in-bounds, still covered dirt cell it is uncovered -- the
/// flag bit on covered dirt is deliberately ignored here -- and enqueued
/// when its own neighbor count is zero. Maintains the sweep's invariant with
/// `p` exempt.
fn flood_visit(
    tiles: &mut Grid<Tile>,
    q: &mut Vec<Coords>,
    at: Coords,
    Ghost(b0): Ghost<Seq<Tile>>,
    Ghost(start): Ghost<Coords>,
    Ghost(p): Ghost<Coords>,
)
    requires
        flood_inv(
            b0,
            old(tiles).spec_width(),
            old(tiles).spec_height(),
            start,
            *old(tiles),
            old(q)@,
            p,
        ),
        adjacent(p, at),
        coords_in(old(tiles).spec_width(), old(tiles).spec_height(), p),
        is_dirt(tile_at(old(tiles)@, old(tiles).spec_width(), p)),
        is_uncovered(tile_at(old(tiles)@, old(tiles).spec_width(), p)),
        tile_at(old(tiles)@, old(tiles).spec_width(), p).n_near == 0,
        p == start || reaches(b0, old(tiles).spec_width(), old(tiles).spec_height(), start, p),
    ensures
        flood_inv(
            b0,
            old(tiles).spec_width(),
            old(tiles).spec_height(),
            start,
            *final(tiles),
            final(q)@,
            p,
        ),
        forall|i: int|
            0 <= i < old(tiles)@.len() && is_uncovered(#[trigger] old(tiles)@[i]) ==> is_uncovered(
                final(tiles)@[i],
            ),
        forall|i: int|
            0 <= i < old(tiles)@.len() && !is_uncovered(#[trigger] final(tiles)@[i])
                ==> final(tiles)@[i] == old(tiles)@[i],
        count_covered(final(tiles)@) <= count_covered(old(tiles)@),
        final(q)@.len() > old(q)@.len() ==> count_covered(final(tiles)@) < count_covered(
            old(tiles)@,
        ),
        final(q)@.len() >= old(q)@.len(),
        coords_in(old(tiles).spec_width(), old(tiles).spec_height(), at) && is_dirt(
            tile_at(old(tiles)@, old(tiles).spec_width(), at),
        ) ==> is_uncovered(tile_at(final(tiles)@, old(tiles).spec_width(), at)),
{
    let ghost w = tiles.spec_width();
    let ghost h = tiles.spec_height();
    let ghost b_pre = tiles@;
    let ghost q_pre = q@;
    if tiles.in_bounds(at) {
        let t = tiles.get(at);
        proof {
            crate::grid::lemma_row_major_in_range(w, h, at);
        }
        if t.kind == TileKind::Dirt && t.state != TileState::Uncovered {
            tiles.set(at, Tile { state: TileState::Uncovered, ..t });
            if t.n_near == 0 {
                q.push(at);
            }
            proof {
                let b2 = tiles@;
                let i_at = row_major(w, at);
                crate::board::lemma_count_covered_update(
                    b_pre,
                    i_at,
                    (Tile { state: TileState::Uncovered, ..t }),
                );
                // `at` was dirt in the starting board too, and is newly
                // uncovered there, reached through the zero cell `p`.
                assert(is_dirt(tile_at(b0, w, at)));
                assert(is_dirt(tile_at(b0, w, p)) && tile_at(b0, w, p).n_near == 0) by {
                    crate::grid::lemma_row_major_in_range(w, h, p);
                }
                assert(step_ok(b0, w, h, p, at));
                if p != start {
                    crate::board::lemma_reaches_step(b0, w, h, start, p, at);
                } else {
                    let ps = seq![start, at];
                    assert(ps[0] == start && ps.last() == at);
                    assert(forall|i: int|
                        0 <= i < ps.len() - 1 ==> step_ok(b0, w, h, #[trigger] ps[i], ps[i + 1]));
                    assert(path_ok(b0, w, h, ps));
                    assert(reaches(b0, w, h, start, at));
                }
                // Cells other than `at` are untouched.
                assert(forall|i: int|
                    0 <= i < b2.len() && i != i_at ==> b2[i] == #[trigger] b_pre[i]);
                assert(same_layout(b0, b2));
                // Newly uncovered cells are still reached from `start`.
                assert forall|d: Coords|
                    coords_in(w, h, d) && is_uncovered(#[trigger] tile_at(b2, w, d))
                        && !is_uncovered(tile_at(b0, w, d)) implies reaches(
                    b0,
                    w,
                    h,
                    start,
                    d,
                ) by {
                    crate::grid::lemma_row_major_in_range(w, h, d);
                    if row_major(w, d) == i_at {
                        crate::grid::lemma_row_major_injective(w, h, d, at);
                    } else {
                        assert(is_uncovered(tile_at(b_pre, w, d)));
                    }
                }
                // Queued cells are untouched, or are `at` itself.
                assert forall|k: int| 0 <= k < q@.len() implies coords_in(w, h, #[trigger] q@[k])
                    && is_dirt(tile_at(b2, w, q@[k])) && is_uncovered(tile_at(b2, w, q@[k]))
                    && tile_at(b2, w, q@[k]).n_near == 0 && (q@[k] == start || reaches(
                    b0,
                    w,
                    h,
                    start,
                    q@[k],
                )) by {
                    if k < q_pre.len() {
                        assert(q@[k] == q_pre[k]);
                        crate::grid::lemma_row_major_in_range(w, h, q_pre[k]);
                    } else {
                        assert(q@[k] == at);
                    }
                }
                // Closure with `p` exempt: uncovering a cell never covers
                // one, and the one new zero-count uncovered cell is queued.
                assert forall|c: Coords|
                    c != p && coords_in(w, h, c) && is_dirt(tile_at(b2, w, c)) && is_uncovered(
                        tile_at(b2, w, c),
                    ) && tile_at(b2, w, c).n_near == 0 implies q@.contains(c) || nbrs_uncovered(
                    b2,
                    w,
                    h,
                    c,
                ) by {
                    crate::grid::lemma_row_major_in_range(w, h, c);
                    if row_major(w, c) == i_at {
                        crate::grid::lemma_row_major_injective(w, h, c, at);
                        assert(c == at && t.n_near == 0);
                        assert(q@[q@.len() - 1] == at);
                        assert(q@.contains(c));
                    } else {
                        assert(is_dirt(tile_at(b_pre, w, c)) && is_uncovered(
                            tile_at(b_pre, w, c),
                        ) && tile_at(b_pre, w, c).n_near == 0);
                        if q_pre.contains(c) {
                            let k = choose|k: int| 0 <= k < q_pre.len() && q_pre[k] == c;
                            assert(q@[k] == c);
                            assert(q@.contains(c));
                        } else {
                            assert(nbrs_uncovered(b_pre, w, h, c));
                            assert forall|d: Coords|
                                #[trigger] adjacent(c, d) && coords_in(w, h, d) && is_dirt(
                                    tile_at(b2, w, d),
                                ) implies is_uncovered(tile_at(b2, w, d)) by {
                                crate::grid::lemma_row_major_in_range(w, h, d);
                                assert(is_dirt(tile_at(b_pre, w, d)));
                                assert(is_uncovered(tile_at(b_pre, w, d)));
                            }
                            assert(nbrs_uncovered(b2, w, h, c));
                        }
                    }
                }
            }
        }
    }
}

/// Sweeps the eight Moore neighbors of the dequeued cell `p`, restoring the
/// sweep invariant with nothing exempt: afterwards every in-bounds dirt
/// neighbor of `p` is uncovered.
fn flood_sweep_neighbors(
    tiles: &mut Grid<Tile>,
    q: &mut Vec<Coords>,
    p: Coords,
    Ghost(b0): Ghost<Seq<Tile>>,
    Ghost(start): Ghost<Coords>,
)
    requires
        flood_inv(
            b0,
            old(tiles).spec_width(),
            old(tiles).spec_height(),
            start,
            *old(tiles),
            old(q)@,
            p,
        ),
        coords_in(old(tiles).spec_width(), old(tiles).spec_height(), p),
        is_dirt(tile_at(old(tiles)@, old(tiles).spec_width(), p)),
        is_uncovered(tile_at(old(tiles)@, old(tiles).spec_width(), p)),
        tile_at(old(tiles)@, old(tiles).spec_width(), p).n_near == 0,
        p == start || reaches(b0, old(tiles).spec_width(), old(tiles).spec_height(), start, p),
    ensures
        flood_inv(
            b0,
            old(tiles).spec_width(),
            old(tiles).spec_height(),
            start,
            *final(tiles),
            final(q)@,
            no_cell(),
        ),
        count_covered(final(tiles)@) <= count_covered(old(tiles)@),
        count_covered(final(tiles)@) == count_covered(old(tiles)@) ==> final(q)@.len() == old(
            q,
        )@.len(),
{
    let ghost w = tiles.spec_width();
    let ghost h = tiles.spec_height();
    proof {
        crate::grid::lemma_row_major_in_range(w, h, p);
    }
    let n1 = Coords { x: p.x - 1, y: p.y };
    let n2 = Coords { x: p.x + 1, y: p.y };
    let n3 = Coords { x: p.x, y: p.y - 1 };
    let n4 = Coords { x: p.x, y: p.y + 1 };
    let n5 = Coords { x: p.x - 1, y: p.y - 1 };
    let n6 = Coords { x: p.x + 1, y: p.y - 1 };
    let n7 = Coords { x: p.x - 1, y: p.y + 1 };
    let n8 = Coords { x: p.x + 1, y: p.y + 1 };
    let ghost s0 = tiles@;
    flood_visit(tiles, q, n1, Ghost(b0), Ghost(start), Ghost(p));
    let ghost s1 = tiles@;
    flood_visit(tiles, q, n2, Ghost(b0), Ghost(start), Ghost(p));
    let ghost s2 = tiles@;
    flood_visit(tiles, q, n3, Ghost(b0), Ghost(start), Ghost(p));
    let ghost s3 = tiles@;
    flood_visit(tiles, q, n4, Ghost(b0), Ghost(start), Ghost(p));
    let ghost s4 = tiles@;
    flood_visit(tiles, q, n5, Ghost(b0), Ghost(start), Ghost(p));
    let ghost s5 = tiles@;
    flood_visit(tiles, q, n6, Ghost(b0), Ghost(start), Ghost(p));
    let ghost s6 = tiles@;
    flood_visit(tiles, q, n7, Ghost(b0), Ghost(start), Ghost(p));
    let ghost s7 = tiles@;
    flood_visit(tiles, q, n8, Ghost(b0), Ghost(start), Ghost(p));
    let ghost s8 = tiles@;
    proof {
        // Every in-bounds dirt neighbor of `p` is one of the eight probes,
        // was uncovered by it, and stays uncovered afterwards.
        assert forall|d: Coords|
            #[trigger] adjacent(p, d) && coords_in(w, h, d) && is_dirt(tile_at(s8, w, d)) implies is_uncovered(
            tile_at(s8, w, d),
        ) by {
            crate::grid::lemma_row_major_in_range(w, h, d);
            assert(is_dirt(tile_at(s0, w, d)));
            assert(d == n1 || d == n2 || d == n3 || d == n4 || d == n5 || d == n6 || d == n7 || d
                == n8);
            if d == n1 {
                assert(is_uncovered(tile_at(s1, w, d)));
                assert(is_uncovered(tile_at(s2, w, d)));
                assert(is_uncovered(tile_at(s3, w, d)));
                assert(is_uncovered(tile_at(s4, w, d)));
                assert(is_uncovered(tile_at(s5, w, d)));
                assert(is_uncovered(tile_at(s6, w, d)));
                assert(is_uncovered(tile_at(s7, w, d)));
            } else if d == n2 {
                assert(is_uncovered(tile_at(s2, w, d)));
                assert(is_uncovered(tile_at(s3, w, d)));
                assert(is_uncovered(tile_at(s4, w, d)));
                assert(is_uncovered(tile_at(s5, w, d)));
                assert(is_uncovered(tile_at(s6, w, d)));
                assert(is_uncovered(tile_at(s7, w, d)));
            } else if d == n3 {
                assert(is_uncovered(tile_at(s3, w, d)));
                assert(is_uncovered(tile_at(s4, w, d)));
                assert(is_uncovered(tile_at(s5, w, d)));
                assert(is_uncovered(tile_at(s6, w, d)));
                assert(is_uncovered(tile_at(s7, w, d)));
            } else if d == n4 {
                assert(is_uncovered(tile_at(s4, w, d)));
                assert(is_uncovered(tile_at(s5, w, d)));
                assert(is_uncovered(tile_at(s6, w, d)));
                assert(is_uncovered(tile_at(s7, w, d)));
            } else if d == n5 {
                assert(is_uncovered(tile_at(s5, w, d)));
                assert(is_uncovered(tile_at(s6, w, d)));
                assert(is_uncovered(tile_at(s7, w, d)));
            } else if d == n6 {
                assert(is_uncovered(tile_at(s6, w, d)));
                assert(is_uncovered(tile_at(s7, w, d)));
            } else if d == n7 {
                assert(is_uncovered(tile_at(s7, w, d)));
            }
        }
        assert(nbrs_uncovered(s8, w, h, p));
        assert forall|c: Coords|
            c != no_cell() && coords_in(w, h, c) && is_dirt(tile_at(s8, w, c)) && is_uncovered(
                tile_at(s8, w, c),
            ) && tile_at(s8, w, c).n_near == 0 implies q@.contains(c) || nbrs_uncovered(
            s8,
            w,
            h,
            c,
        ) by {
            if c == p {
                assert(nbrs_uncovered(s8, w, h, p));
            }
        }
    }
}

/// Worklist-driven expansion over the 8-connected grid from a freshly
/// uncovered zero-count dirt cell: every covered dirt cell swept over is
/// uncovered -- regardless of its flag bit -- and zero-count cells propagate
/// the sweep. Mines are never touched. Afterwards no reveal is pending
/// anywhere, and everything newly uncovered lies on a flood path from
/// `start`.
fn flood_clear(tiles: &mut Grid<Tile>, start: Coords)
    requires
        old(tiles).wf(),
        coords_in(old(tiles).spec_width(), old(tiles).spec_height(), start),
        is_dirt(tile_at(old(tiles)@, old(tiles).spec_width(), start)),
        is_uncovered(tile_at(old(tiles)@, old(tiles).spec_width(), start)),
        tile_at(old(tiles)@, old(tiles).spec_width(), start).n_near == 0,
        zero_closed_except(
            old(tiles)@,
            old(tiles).spec_width(),
            old(tiles).spec_height(),
            start,
        ),
    ensures
        final(tiles).wf(),
        final(tiles).spec_width() == old(tiles).spec_width(),
        final(tiles).spec_height() == old(tiles).spec_height(),
        same_layout(old(tiles)@, final(tiles)@),
        forall|i: int|
            0 <= i < old(tiles)@.len() && is_uncovered(#[trigger] old(tiles)@[i]) ==> is_uncovered(
                final(tiles)@[i],
            ),
        forall|i: int|
            0 <= i < old(tiles)@.len() ==> final(tiles)@[i].state == (#[trigger] old(
                tiles,
            )@[i]).state || (final(tiles)@[i].state == TileState::Uncovered && is_dirt(
                old(tiles)@[i],
            )),
        forall|d: Coords|
            #![trigger tile_at(final(tiles)@, old(tiles).spec_width(), d)]
            coords_in(old(tiles).spec_width(), old(tiles).spec_height(), d) && is_uncovered(
                tile_at(final(tiles)@, old(tiles).spec_width(), d),
            ) && !is_uncovered(tile_at(old(tiles)@, old(tiles).spec_width(), d)) ==> reaches(
                old(tiles)@,
                old(tiles).spec_width(),
                old(tiles).spec_height(),
                start,
                d,
            ),
        zero_closed(final(tiles)@, old(tiles).spec_width(), old(tiles).spec_height()),
{
    let ghost b0 = tiles@;
    let ghost w = tiles.spec_width();
    let ghost h = tiles.spec_height();
    let mut q: Vec<Coords> = Vec::new();
    q.push(start);
    proof {
        crate::grid::lemma_row_major_in_range(w, h, start);
        crate::board::lemma_counts_nonneg(tiles@);
        assert(q@[0] == start);
        assert forall|c: Coords|
            c != no_cell() && coords_in(w, h, c) && is_dirt(tile_at(tiles@, w, c)) && is_uncovered(
                tile_at(tiles@, w, c),
            ) && tile_at(tiles@, w, c).n_near == 0 implies q@.contains(c) || nbrs_uncovered(
            tiles@,
            w,
            h,
            c,
        ) by {
            if c == start {
                assert(q@.contains(c));
            } else {
                assert(nbrs_uncovered(tiles@, w, h, c));
            }
        }
        assert(flood_inv(b0, w, h, start, *tiles, q@, no_cell()));
    }
    while q.len() != 0
        invariant
            flood_inv(b0, w, h, start, *tiles, q@, no_cell()),
            count_covered(tiles@) >= 0,
        decreases count_covered(tiles@), q@.len(),
    {
        let ghost q_iter = q@;
        let p = match q.pop() {
            Some(p) => p,
            None => vstd::pervasive::unreached(),
        };
        proof {
            assert(q_iter[q_iter.len() - 1] == p);
            crate::grid::lemma_row_major_in_range(w, h, p);
            assert forall|k: int| 0 <= k < q@.len() implies coords_in(w, h, #[trigger] q@[k])
                && is_dirt(tile_at(tiles@, w, q@[k])) && is_uncovered(tile_at(tiles@, w, q@[k]))
                && tile_at(tiles@, w, q@[k]).n_near == 0 && (q@[k] == start || reaches(
                b0,
                w,
                h,
                start,
                q@[k],
            )) by {
                assert(q@[k] == q_iter[k]);
            }
            // The popped cell becomes the exempt one; everything else still
            // queued or closed stays so.
            assert forall|c: Coords|
                c != p && coords_in(w, h, c) && is_dirt(tile_at(tiles@, w, c)) && is_uncovered(
                    tile_at(tiles@, w, c),
                ) && tile_at(tiles@, w, c).n_near == 0 implies q@.contains(c) || nbrs_uncovered(
                tiles@,
                w,
                h,
                c,
            ) by {
                if q_iter.contains(c) {
                    let k = choose|k: int| 0 <= k < q_iter.len() && q_iter[k] == c;
                    assert(k < q_iter.len() - 1);
                    assert(q@[k] == c);
                    assert(q@.contains(c));
                } else {
                    assert(nbrs_uncovered(tiles@, w, h, c));
                }
            }
            assert(flood_inv(b0, w, h, start, *tiles, q@, p));
        }
        flood_sweep_neighbors(tiles, &mut q, p, Ghost(b0), Ghost(start));
        proof {
            crate::board::lemma_counts_nonneg(tiles@);
        }
    }
    proof {
        assert forall|c: Coords|
            coords_in(w, h, c) && is_dirt(tile_at(tiles@, w, c)) && is_uncovered(
                tile_at(tiles@, w, c),
            ) && tile_at(tiles@, w, c).n_near == 0 implies nbrs_uncovered(tiles@, w, h, c) by {
            assert(!q@.contains(c));
            assert(c != no_cell());
        }
    }
}

impl State {
    /// The single-cell reveal primitive. A flagged cell is protected and
    /// nothing happens. Otherwise the cell is uncovered: a mine ends the
    /// game, and a zero-count dirt cell triggers the flood sweep.
    fn uncover(&mut self, c: Coords)
        requires
            old(self).wf(),
            coords_in(old(self).spec_w(), old(self).spec_h(), c),
        ensures
            final(self).wf(),
            final(self).spec_w() == old(self).spec_w(),
            final(self).spec_h() == old(self).spec_h(),
            final(self).spec_config() == old(self).spec_config(),
            final(self).spec_flags() == old(self).spec_flags(),
            same_layout(old(self).spec_board(), final(self).spec_board()),
            forall|i: int|
                0 <= i < old(self).spec_board().len() && is_uncovered(
                    #[trigger] old(self).spec_board()[i],
                ) ==> is_uncovered(final(self).spec_board()[i]),
            forall|i: int|
                0 <= i < old(self).spec_board().len() ==> final(self).spec_board()[i].state == (
                #[trigger] old(self).spec_board()[i]).state || (final(self).spec_board()[i].state
                    == TileState::Uncovered && (is_dirt(old(self).spec_board()[i]) || i
                    == row_major(old(self).spec_w(), c))),
            final(self).spec_status() == old(self).spec_status() || final(self).spec_status()
                == Status::Dead,
            final(self).spec_status() == Status::Dead ==> old(self).spec_status() == Status::Dead
                || (is_mine(tile_at(old(self).spec_board(), old(self).spec_w(), c)) && tile_at(
                old(self).spec_board(),
                old(self).spec_w(),
                c,
            ).state != TileState::Covered(true)),
            ({
                let b = old(self).spec_board();
                let w = old(self).spec_w();
                let h = old(self).spec_h();
                let t = tile_at(b, w, c);
                let b2 = final(self).spec_board();
                &&& (t.state == TileState::Covered(true) ==> *final(self) == *old(self))
                &&& (t.state != TileState::Covered(true) ==> is_uncovered(tile_at(b2, w, c)))
                &&& (t.state != TileState::Covered(true) && is_mine(t) ==> b2 == b.update(
                    row_major(w, c),
                    (Tile { state: TileState::Uncovered, ..t }),
                ) && final(self).spec_status() == Status::Dead)
                &&& (t.state != TileState::Covered(true) && is_dirt(t) && t.n_near != 0 ==> b2
                    == b.update(row_major(w, c), (Tile { state: TileState::Uncovered, ..t }))
                    && final(self).spec_status() == old(self).spec_status())
                &&& (t.state != TileState::Covered(true) && is_dirt(t) && t.n_near == 0 ==> final(self).spec_status() == old(self).spec_status() && forall|d: Coords|
                    #![trigger tile_at(b2, w, d)]
                    coords_in(w, h, d) && is_uncovered(tile_at(b2, w, d)) && !is_uncovered(
                        tile_at(b, w, d),
                    ) ==> d == c || reaches(b, w, h, c, d))
            }),
    {
        let ghost b = self.spec_board();
        let ghost w = self.spec_w();
        let ghost h = self.spec_h();
        let t = self.tiles.get(c);
        if t.state == TileState::Covered(true) {
            return ;
        }
        proof {
            crate::grid::lemma_row_major_in_range(w, h, c);
        }
        let t2 = Tile { state: TileState::Uncovered, ..t };
        self.tiles.set(c, t2);
        proof {
            let b1 = self.spec_board();
            assert(same_layout(b, b1));
            crate::board::lemma_count_mines_same_layout(b, b1);
            crate::board::lemma_near_counts_same_layout(b, b1, w, h);
            crate::board::lemma_count_flagged_update(b, row_major(w, c), t2);
        }
        if t.kind == TileKind::Mine {
            self.status = Status::Dead;
            proof {
                uncover_zero_closed_still(b, self.spec_board(), w, h, c);
            }
        } else if t.n_near == 0 {
            proof {
                let b1 = self.spec_board();
                // Everything except the freshly uncovered start is still
                // closed: states elsewhere are unchanged and uncovering
                // never breaks a neighbor condition.
                assert forall|cc: Coords|
                    cc != c && coords_in(w, h, cc) && is_dirt(tile_at(b1, w, cc)) && is_uncovered(
                        tile_at(b1, w, cc),
                    ) && tile_at(b1, w, cc).n_near == 0 implies nbrs_uncovered(b1, w, h, cc) by {
                    crate::grid::lemma_row_major_in_range(w, h, cc);
                    if row_major(w, cc) == row_major(w, c) {
                        crate::grid::lemma_row_major_injective(w, h, cc, c);
                    }
                    assert(is_dirt(tile_at(b, w, cc)) && is_uncovered(tile_at(b, w, cc)) && tile_at(
                        b,
                        w,
                        cc,
                    ).n_near == 0);
                    assert(nbrs_uncovered(b, w, h, cc));
                    assert forall|d: Coords|
                        #[trigger] adjacent(cc, d) && coords_in(w, h, d) && is_dirt(
                            tile_at(b1, w, d),
                        ) implies is_uncovered(tile_at(b1, w, d)) by {
                        crate::grid::lemma_row_major_in_range(w, h, d);
                        assert(is_dirt(tile_at(b, w, d)));
                        assert(is_uncovered(tile_at(b, w, d)));
                    }
                }
                assert(zero_closed_except(self.spec_board(), w, h, c));
            }
            let ghost b1 = self.spec_board();
            flood_clear(&mut self.tiles, c);
            proof {
                let b2 = self.spec_board();
                assert(same_layout(b, b2));
                crate::board::lemma_count_mines_same_layout(b, b2);
                crate::board::lemma_near_counts_same_layout(b, b2, w, h);
                // Flags can only disappear under the sweep.
                assert forall|i: int|
                    0 <= i < b2.len() && is_flagged(#[trigger] b2[i]) implies is_flagged(b[i]) by {
                    assert(b2[i].state == b1[i].state || b2[i].state == TileState::Uncovered);
                }
                crate::board::lemma_count_flagged_le(b, b2);
                crate::board::lemma_counts_nonneg(b2);
                // Newly uncovered cells relative to the pre-dig board are
                // the start or reached from it.
                assert forall|d: Coords|
                    coords_in(w, h, d) && is_uncovered(#[trigger] tile_at(b2, w, d))
                        && !is_uncovered(tile_at(b, w, d)) implies d == c || reaches(
                    b,
                    w,
                    h,
                    c,
                    d,
                ) by {
                    crate::grid::lemma_row_major_in_range(w, h, d);
                    if d != c {
                        assert(is_uncovered(tile_at(b2, w, d)));
                        if row_major(w, d) == row_major(w, c) {
                            crate::grid::lemma_row_major_injective(w, h, d, c);
                        }
                        assert(!is_uncovered(tile_at(b1, w, d)));
                        assert(reaches(b1, w, h, c, d));
                        reaches_same_layout(b1, b, w, h, c, d);
                    }
                }
                // A running game still has no uncovered mine: everything
                // newly uncovered is dirt.
                if self.spec_status() == Status::Playing {
                    assert forall|i: int|
                        0 <= i < b2.len() && is_mine(#[trigger] b2[i]) implies !is_uncovered(
                        b2[i],
                    ) by {
                        assert(is_mine(b[i]));
                        assert(b2[i].state == b[i].state || (b2[i].state == TileState::Uncovered
                            && (is_dirt(b[i]) || i == row_major(w, c))));
                    }
                }
            }
        } else {
            proof {
                uncover_zero_closed_still(b, self.spec_board(), w, h, c);
            }
        }
    }
}

/// Uncovering one cell that is a mine or has a nonzero neighbor count
/// leaves the board closed: the cell itself is no zero-count dirt cell, and
/// everything else only gains uncovered neighbors.
proof fn uncover_zero_closed_still(b: Seq<Tile>, b2: Seq<Tile>, w: int, h: int, c: Coords)
    requires
        b.len() == w * h,
        w > 0,
        h > 0,
        coords_in(w, h, c),
        zero_closed(b, w, h),
        b2 == b.update(
            row_major(w, c),
            (Tile { state: TileState::Uncovered, ..b[row_major(w, c)] }),
        ),
        !(is_dirt(tile_at(b, w, c)) && tile_at(b, w, c).n_near == 0),
    ensures
        zero_closed(b2, w, h),
{
    crate::grid::lemma_row_major_in_range(w, h, c);
    assert forall|cc: Coords|
        coords_in(w, h, cc) && is_dirt(tile_at(b2, w, cc)) && is_uncovered(tile_at(b2, w, cc))
            && tile_at(b2, w, cc).n_near == 0 implies nbrs_uncovered(b2, w, h, cc) by {
        crate::grid::lemma_row_major_in_range(w, h, cc);
        if row_major(w, cc) == row_major(w, c) {
            crate::grid::lemma_row_major_injective(w, h, cc, c);
        }
        assert(cc != c);
        assert(is_dirt(tile_at(b, w, cc)) && is_uncovered(tile_at(b, w, cc)) && tile_at(
            b,
            w,
            cc,
        ).n_near == 0);
        assert(nbrs_uncovered(b, w, h, cc));
        assert forall|d: Coords|
            #[trigger] adjacent(cc, d) && coords_in(w, h, d) && is_dirt(tile_at(b2, w, d)) implies is_uncovered(
            tile_at(b2, w, d),
        ) by {
            crate::grid::lemma_row_major_in_range(w, h, d);
            assert(is_dirt(tile_at(b, w, d)));
            assert(is_uncovered(tile_at(b, w, d)));
        }
    }
}

/// A cell swept open during a chord around `c`: it lies in the flood
/// region of a covered, unflagged, zero-count dirt Moore neighbor of `c`.
pub open spec fn chord_swept(b0: Seq<Tile>, w: int, h: int, c: Coords, d: Coords) -> bool {
    exists|m: Coords|
        adjacent(c, m) && coords_in(w, h, m) && (#[trigger] tile_at(b0, w, m)).state
            == TileState::Covered(false) && is_dirt(tile_at(b0, w, m)) && tile_at(
            b0,
            w,
            m,
        ).n_near == 0 && reaches(b0, w, h, m, d)
}

/// The invariant of the chord sweep around an already uncovered cell `c` of
/// the state `orig` the sweep started from: shape, configuration and flag
/// budget are untouched, cells only move from covered to uncovered, any
/// uncovered mine is an unflagged covered Moore neighbor of `c` whose
/// reveal ended the game, and a lost status always has such a neighbor as
/// witness.
spec fn chord_inv(orig: State, c: Coords, s: State) -> bool {
    let b0 = orig.spec_board();
    let w = orig.spec_w();
    let h = orig.spec_h();
    &&& s.wf()
    &&& s.spec_w() == w
    &&& s.spec_h() == h
    &&& s.spec_config() == orig.spec_config()
    &&& s.spec_flags() == orig.spec_flags()
    &&& same_layout(b0, s.spec_board())
    &&& forall|i: int|
        0 <= i < b0.len() && is_uncovered(#[trigger] b0[i]) ==> is_uncovered(s.spec_board()[i])
    &&& forall|i: int|
        0 <= i < b0.len() ==> s.spec_board()[i].state == (#[trigger] b0[i]).state
            || s.spec_board()[i].state == TileState::Uncovered
    &&& forall|d: Coords|
        #![trigger tile_at(s.spec_board(), w, d)]
        coords_in(w, h, d) && is_mine(tile_at(b0, w, d)) && is_uncovered(
            tile_at(s.spec_board(), w, d),
        ) ==> adjacent(c, d) && tile_at(b0, w, d).state == TileState::Covered(false)
            && s.spec_status() == Status::Dead
    &&& forall|d: Coords|
        #![trigger tile_at(s.spec_board(), w, d)]
        coords_in(w, h, d) && is_uncovered(tile_at(s.spec_board(), w, d)) && !is_uncovered(
            tile_at(b0, w, d),
        ) ==> (adjacent(c, d) && tile_at(b0, w, d).state == TileState::Covered(false))
            || chord_swept(b0, w, h, c, d)
    &&& (s.spec_status() == orig.spec_status() || s.spec_status() == Status::Dead)
    &&& (s.spec_status() == Status::Dead ==> exists|d: Coords|
        adjacent(c, d) && coords_in(w, h, d) && is_mine(#[trigger] tile_at(b0, w, d)) && tile_at(
            b0,
            w,
            d,
        ).state == TileState::Covered(false))
}

impl State {
    /// One probe of the chord sweep: uncover the cell `d` near the chord
    /// center `c` if it lies on the board, with the single-cell guard (a
    /// flagged cell is protected) applying as usual.
    fn chord_visit(&mut self, d: Coords, Ghost(orig): Ghost<State>, Ghost(c): Ghost<Coords>)
        requires
            chord_inv(orig, c, *old(self)),
            orig.wf(),
            orig.spec_status() == Status::Playing,
            coords_in(orig.spec_w(), orig.spec_h(), c),
            is_uncovered(tile_at(orig.spec_board(), orig.spec_w(), c)),
            adjacent(c, d) || d == c,
        ensures
            chord_inv(orig, c, *final(self)),
            forall|i: int|
                0 <= i < old(self).spec_board().len() && is_uncovered(
                    #[trigger] old(self).spec_board()[i],
                ) ==> is_uncovered(final(self).spec_board()[i]),
            old(self).spec_status() == Status::Dead ==> final(self).spec_status() == Status::Dead,
            coords_in(orig.spec_w(), orig.spec_h(), d) && tile_at(
                orig.spec_board(),
                orig.spec_w(),
                d,
            ).state == TileState::Covered(false) ==> is_uncovered(
                tile_at(final(self).spec_board(), orig.spec_w(), d),
            ),
    {
        let ghost b0 = orig.spec_board();
        let ghost w = orig.spec_w();
        let ghost h = orig.spec_h();
        let ghost pre = *self;
        if self.tiles.in_bounds(d) {
            proof {
                crate::grid::lemma_row_major_in_range(w, h, d);
                crate::grid::lemma_row_major_in_range(w, h, c);
            }
            self.uncover(d);
            proof {
                let bp = pre.spec_board();
                let b2 = self.spec_board();
                let i_d = row_major(w, d);
                // The chord center is dirt: it is uncovered in a running
                // game, which has no uncovered mines.
                assert(!is_mine(tile_at(b0, w, c)));
                assert(same_layout(b0, b2));
                // Any uncovered mine is a covered, unflagged neighbor of
                // the center whose reveal set the game lost.
                assert forall|dd: Coords|
                    coords_in(w, h, dd) && is_mine(tile_at(b0, w, dd)) && is_uncovered(
                        #[trigger] tile_at(b2, w, dd),
                    ) implies adjacent(c, dd) && tile_at(b0, w, dd).state == TileState::Covered(
                    false,
                ) && self.spec_status() == Status::Dead by {
                    crate::grid::lemma_row_major_in_range(w, h, dd);
                    if is_uncovered(tile_at(bp, w, dd)) {
                        assert(pre.spec_status() == Status::Dead);
                    } else {
                        // Newly uncovered at this probe: it must be the
                        // probe's own target, a mine, so the reveal killed.
                        assert(!is_dirt(bp[row_major(w, dd)]));
                        assert(row_major(w, dd) == i_d);
                        crate::grid::lemma_row_major_injective(w, h, dd, d);
                        assert(dd == d);
                        assert(tile_at(bp, w, d).state != TileState::Covered(true));
                        assert(tile_at(bp, w, d).state == TileState::Covered(false));
                        assert(tile_at(b0, w, d).state == TileState::Covered(false));
                        assert(is_mine(tile_at(bp, w, d)));
                        assert(self.spec_status() == Status::Dead);
                        assert(d != c);
                    }
                }
                // Everything newly uncovered since the chord began is a
                // covered, unflagged neighbor of the center, or was swept
                // by the flood of such a neighbor that counts zero.
                assert forall|dd: Coords|
                    coords_in(w, h, dd) && is_uncovered(#[trigger] tile_at(b2, w, dd))
                        && !is_uncovered(tile_at(b0, w, dd)) implies (adjacent(c, dd) && tile_at(
                    b0,
                    w,
                    dd,
                ).state == TileState::Covered(false)) || chord_swept(b0, w, h, c, dd) by {
                    crate::grid::lemma_row_major_in_range(w, h, dd);
                    if is_uncovered(tile_at(bp, w, dd)) {
                        // Already accounted for by the sweep's invariant.
                        assert(tile_at(bp, w, dd) == tile_at(bp, w, dd));
                    } else {
                        // Newly uncovered at this probe.
                        let t = tile_at(bp, w, d);
                        assert(t.state != TileState::Covered(true));
                        if !(is_dirt(t) && t.n_near == 0) {
                            // The probe changed one cell: its own target.
                            if row_major(w, dd) != i_d {
                                assert(tile_at(b2, w, dd) == tile_at(bp, w, dd));
                            }
                            crate::grid::lemma_row_major_injective(w, h, dd, d);
                            assert(dd == d);
                            assert(tile_at(bp, w, d).state == TileState::Covered(false));
                            assert(tile_at(b0, w, d).state == TileState::Covered(false));
                            assert(d != c);
                        } else {
                            // The probe's target was zero-count dirt, so a
                            // flood ran from it.
                            if dd == d {
                                assert(tile_at(bp, w, d).state == TileState::Covered(false));
                                assert(tile_at(b0, w, d).state == TileState::Covered(false));
                                assert(d != c);
                            } else {
                                assert(reaches(bp, w, h, d, dd));
                                if is_uncovered(tile_at(bp, w, d)) {
                                    // The start was already uncovered, so the
                                    // board was already closed around it and
                                    // the flood revealed nothing new.
                                    let ps = choose|ps: Seq<Coords>|
                                        #[trigger] path_ok(bp, w, h, ps) && ps[0] == d
                                            && ps.last() == dd;
                                    crate::board::lemma_zero_closed_covers_region(bp, w, h, ps);
                                    assert(is_uncovered(tile_at(bp, w, dd)));
                                } else {
                                    // The target itself is the covered,
                                    // unflagged zero neighbor that swept `dd`.
                                    assert(tile_at(bp, w, d).state == TileState::Covered(false));
                                    assert(tile_at(b0, w, d).state == TileState::Covered(false));
                                    assert(d != c);
                                    assert(same_layout(bp, b0)) by {
                                        assert forall|i: int| 0 <= i < bp.len() implies (
                                        #[trigger] b0[i]).kind == bp[i].kind && b0[i].n_near
                                            == bp[i].n_near by {
                                            assert(bp[i].kind == b0[i].kind);
                                        }
                                    }
                                    reaches_same_layout(bp, b0, w, h, d, dd);
                                    assert(is_dirt(tile_at(b0, w, d)) && tile_at(
                                        b0,
                                        w,
                                        d,
                                    ).n_near == 0);
                                    assert(chord_swept(b0, w, h, c, dd));
                                }
                            }
                        }
                    }
                }
                // A lost game has a killing neighbor as witness.
                if self.spec_status() == Status::Dead && pre.spec_status() != Status::Dead {
                    assert(is_mine(tile_at(bp, w, d)) && tile_at(bp, w, d).state
                        != TileState::Covered(true));
                    assert(is_mine(tile_at(b0, w, d)));
                    if is_uncovered(tile_at(bp, w, d)) {
                        assert(pre.spec_status() == Status::Dead);
                    } else {
                        assert(tile_at(bp, w, d).state == TileState::Covered(false));
                        assert(tile_at(b0, w, d).state == TileState::Covered(false));
                        assert(d != c);
                        assert(adjacent(c, d) && coords_in(w, h, d) && is_mine(
                            tile_at(b0, w, d),
                        ) && tile_at(b0, w, d).state == TileState::Covered(false));
                    }
                }
                // A cell the chord's starting board held covered and
                // unflagged is uncovered after its own probe.
                if tile_at(b0, w, d).state == TileState::Covered(false) {
                    assert(tile_at(bp, w, d).state == TileState::Covered(false) || tile_at(
                        bp,
                        w,
                        d,
                    ).state == TileState::Uncovered);
                    assert(is_uncovered(tile_at(b2, w, d)));
                }
            }
        }
    }
}

impl State {
    /// Digs at a coordinate. On a covered, unflagged cell this is the
    /// single-cell reveal (which may end the game on a mine, or flood an
    /// empty region); on an already uncovered cell it is the chord action,
    /// revealing all Moore neighbors at once; a flagged cell and a finished
    /// game are untouched. The win check runs afterwards.
    pub fn dig(&mut self, c: Coords)
        requires
            old(self).wf(),
            old(self).spec_done() || coords_in(old(self).spec_w(), old(self).spec_h(), c),
        ensures
            final(self).wf(),
            final(self).spec_w() == old(self).spec_w(),
            final(self).spec_h() == old(self).spec_h(),
            final(self).spec_config() == old(self).spec_config(),
            final(self).spec_flags() == old(self).spec_flags(),
            old(self).spec_done() ==> *final(self) == *old(self),
            !old(self).spec_done() ==> same_layout(old(self).spec_board(), final(self).spec_board()),
            !old(self).spec_done() ==> ({
                let b = old(self).spec_board();
                let w = old(self).spec_w();
                let h = old(self).spec_h();
                let t = tile_at(b, w, c);
                let b2 = final(self).spec_board();
                let st2 = final(self).spec_status();
                &&& (t.state == TileState::Covered(true) ==> b2 == b && st2 == after_win_check(
                    Status::Playing,
                    b,
                ))
                &&& (t.state == TileState::Covered(false) && is_mine(t) ==> b2 == b.update(
                    row_major(w, c),
                    (Tile { state: TileState::Uncovered, ..t }),
                ) && st2 == Status::Dead)
                &&& (t.state == TileState::Covered(false) && is_dirt(t) && t.n_near != 0 ==> b2
                    == b.update(row_major(w, c), (Tile { state: TileState::Uncovered, ..t }))
                    && st2 == after_win_check(Status::Playing, b2))
                &&& (t.state == TileState::Covered(false) && is_dirt(t) && t.n_near == 0 ==> {
                    &&& is_uncovered(tile_at(b2, w, c))
                    &&& st2 == after_win_check(Status::Playing, b2)
                    &&& forall|i: int|
                        0 <= i < b.len() ==> (#[trigger] b2[i]).state == b[i].state || (
                        b2[i].state == TileState::Uncovered && is_dirt(b[i]))
                    &&& forall|d: Coords|
                        #![trigger tile_at(b2, w, d)]
                        coords_in(w, h, d) && is_uncovered(tile_at(b2, w, d)) && !is_uncovered(
                            tile_at(b, w, d),
                        ) ==> d == c || reaches(b, w, h, c, d)
                })
                &&& (t.state == TileState::Uncovered ==> {
                    &&& forall|i: int|
                        0 <= i < b.len() ==> (#[trigger] b2[i]).state == b[i].state || b2[i].state
                            == TileState::Uncovered
                    &&& forall|d: Coords|
                        #![trigger tile_at(b, w, d)]
                        adjacent(c, d) && coords_in(w, h, d) && tile_at(b, w, d).state
                            == TileState::Covered(false) ==> is_uncovered(tile_at(b2, w, d))
                    &&& forall|d: Coords|
                        #![trigger tile_at(b2, w, d)]
                        coords_in(w, h, d) && is_uncovered(tile_at(b2, w, d)) && !is_uncovered(
                            tile_at(b, w, d),
                        ) ==> (adjacent(c, d) && tile_at(b, w, d).state == TileState::Covered(
                            false,
                        )) || chord_swept(b, w, h, c, d)
                    &&& forall|d: Coords|
                        #![trigger tile_at(b2, w, d)]
                        coords_in(w, h, d) && is_mine(tile_at(b, w, d)) && is_uncovered(
                            tile_at(b2, w, d),
                        ) ==> adjacent(c, d) && tile_at(b, w, d).state == TileState::Covered(false)
                    &&& ((exists|d: Coords|
                        adjacent(c, d) && coords_in(w, h, d) && is_mine(
                            #[trigger] tile_at(b, w, d),
                        ) && tile_at(b, w, d).state == TileState::Covered(false)) <==> st2
                        == Status::Dead)
                    &&& (st2 != Status::Dead ==> st2 == after_win_check(Status::Playing, b2))
                })
            }),
    {
        if self.done() {
            return ;
        }
        let ghost orig = *self;
        let ghost b0 = self.spec_board();
        let ghost w = self.spec_w();
        let ghost h = self.spec_h();
        let t = self.tiles.get(c);
        match t.state {
            TileState::Covered(false) => {
                self.uncover(c);
            },
            TileState::Uncovered => {
                proof {
                    crate::grid::lemma_row_major_in_range(w, h, c);
                    assert forall|dd: Coords|
                        coords_in(w, h, dd) && is_mine(tile_at(b0, w, dd)) implies !is_uncovered(
                        #[trigger] tile_at(b0, w, dd),
                    ) by {
                        crate::grid::lemma_row_major_in_range(w, h, dd);
                    }
                    assert(chord_inv(orig, c, *self));
                }
                let s1 = Coords { x: c.x - 1, y: c.y - 1 };
                let s2 = Coords { x: c.x, y: c.y - 1 };
                let s3 = Coords { x: c.x + 1, y: c.y - 1 };
                let s4 = Coords { x: c.x - 1, y: c.y };
                let s5 = Coords { x: c.x, y: c.y };
                let s6 = Coords { x: c.x + 1, y: c.y };
                let s7 = Coords { x: c.x - 1, y: c.y + 1 };
                let s8 = Coords { x: c.x, y: c.y + 1 };
                let s9 = Coords { x: c.x + 1, y: c.y + 1 };
                self.chord_visit(s1, Ghost(orig), Ghost(c));
                let ghost g1 = self.spec_board();
                self.chord_visit(s2, Ghost(orig), Ghost(c));
                let ghost g2 = self.spec_board();
                self.chord_visit(s3, Ghost(orig), Ghost(c));
                let ghost g3 = self.spec_board();
                self.chord_visit(s4, Ghost(orig), Ghost(c));
                let ghost g4 = self.spec_board();
                self.chord_visit(s5, Ghost(orig), Ghost(c));
                let ghost g5 = self.spec_board();
                self.chord_visit(s6, Ghost(orig), Ghost(c));
                let ghost g6 = self.spec_board();
                self.chord_visit(s7, Ghost(orig), Ghost(c));
                let ghost g7 = self.spec_board();
                self.chord_visit(s8, Ghost(orig), Ghost(c));
                let ghost g8 = self.spec_board();
                self.chord_visit(s9, Ghost(orig), Ghost(c));
                let ghost g9 = self.spec_board();
                proof {
                    // Every covered, unflagged Moore neighbor was uncovered
                    // by its own probe and stays uncovered.
                    assert forall|d: Coords|
                        adjacent(c, d) && coords_in(w, h, d) && (#[trigger] tile_at(
                            b0,
                            w,
                            d,
                        )).state == TileState::Covered(false) implies is_uncovered(
                        tile_at(g9, w, d),
                    ) by {
                        crate::grid::lemma_row_major_in_range(w, h, d);
                        assert(d == s1 || d == s2 || d == s3 || d == s4 || d == s6 || d == s7 || d
                            == s8 || d == s9);
                        if d == s1 {
                            assert(is_uncovered(tile_at(g1, w, d)));
                            assert(is_uncovered(tile_at(g2, w, d)));
                            assert(is_uncovered(tile_at(g3, w, d)));
                            assert(is_uncovered(tile_at(g4, w, d)));
                            assert(is_uncovered(tile_at(g5, w, d)));
                            assert(is_uncovered(tile_at(g6, w, d)));
                            assert(is_uncovered(tile_at(g7, w, d)));
                            assert(is_uncovered(tile_at(g8, w, d)));
                        } else if d == s2 {
                            assert(is_uncovered(tile_at(g2, w, d)));
                            assert(is_uncovered(tile_at(g3, w, d)));
                            assert(is_uncovered(tile_at(g4, w, d)));
                            assert(is_uncovered(tile_at(g5, w, d)));
                            assert(is_uncovered(tile_at(g6, w, d)));
                            assert(is_uncovered(tile_at(g7, w, d)));
                            assert(is_uncovered(tile_at(g8, w, d)));
                        } else if d == s3 {
                            assert(is_uncovered(tile_at(g3, w, d)));
                            assert(is_uncovered(tile_at(g4, w, d)));
                            assert(is_uncovered(tile_at(g5, w, d)));
                            assert(is_uncovered(tile_at(g6, w, d)));
                            assert(is_uncovered(tile_at(g7, w, d)));
                            assert(is_uncovered(tile_at(g8, w, d)));
                        } else if d == s4 {
                            assert(is_uncovered(tile_at(g4, w, d)));
                            assert(is_uncovered(tile_at(g5, w, d)));
                            assert(is_uncovered(tile_at(g6, w, d)));
                            assert(is_uncovered(tile_at(g7, w, d)));
                            assert(is_uncovered(tile_at(g8, w, d)));
                        } else if d == s6 {
                            assert(is_uncovered(tile_at(g6, w, d)));
                            assert(is_uncovered(tile_at(g7, w, d)));
                            assert(is_uncovered(tile_at(g8, w, d)));
                        } else if d == s7 {
                            assert(is_uncovered(tile_at(g7, w, d)));
                            assert(is_uncovered(tile_at(g8, w, d)));
                        } else if d == s8 {
                            assert(is_uncovered(tile_at(g8, w, d)));
                        }
                    }
                    // The game is lost exactly when some covered, unflagged
                    // neighbor was a mine: its reveal is recorded by the
                    // sweep invariant's mine clause.
                    if exists|d: Coords|
                        adjacent(c, d) && coords_in(w, h, d) && is_mine(
                            #[trigger] tile_at(b0, w, d),
                        ) && tile_at(b0, w, d).state == TileState::Covered(false) {
                        let d = choose|d: Coords|
                            adjacent(c, d) && coords_in(w, h, d) && is_mine(
                                #[trigger] tile_at(b0, w, d),
                            ) && tile_at(b0, w, d).state == TileState::Covered(false);
                        assert(is_uncovered(tile_at(g9, w, d)));
                        assert(self.spec_status() == Status::Dead);
                    }
                }
            },
            TileState::Covered(true) => {},
        }
        self.check_win();
    }
}

/// Turns a row-major cell index back into its coordinate.
fn index_coords(tiles: &Grid<Tile>, idx: usize) -> (c: Coords)
    requires
        tiles.wf(),
        tiles.spec_width() > 0,
        idx < tiles@.len(),
    ensures
        coords_in(tiles.spec_width(), tiles.spec_height(), c),
        row_major(tiles.spec_width(), c) == idx as int,
{
    let w = tiles.width();
    let x = idx % w;
    let y = idx / w;
    proof {
        let wi = w as int;
        let hi = tiles.spec_height();
        vstd::arithmetic::div_mod::lemma_fundamental_div_mod(idx as int, wi);
        vstd::arithmetic::div_mod::lemma_mod_bound(idx as int, wi);
        assert(idx as int == wi * (y as int) + (x as int));
        assert((y as int) < hi) by (nonlinear_arith)
            requires
                wi > 0,
                (idx as int) < wi * hi,
                idx as int == wi * (y as int) + (x as int),
                0 <= x as int,
                (x as int) < wi,
                0 <= y as int,
        ;
        assert((y as int) * wi + (x as int) == idx as int) by (nonlinear_arith)
            requires
                idx as int == wi * (y as int) + (x as int),
        ;
    }
    Coords { x: x as i32, y: y as i32 }
}

/// Counts the mines among the up-to-8 in-bounds Moore neighbors of `c` by
/// probing each offset in turn.
#[verifier::rlimit(100)]
#[verifier::spinoff_prover]
fn mines_near_at(tiles: &Grid<Tile>, c: Coords) -> (cnt: usize)
    requires
        tiles.wf(),
        tiles.spec_in_bounds(c),
    ensures
        cnt as int == mines_near(tiles@, tiles.spec_width(), tiles.spec_height(), c),
{
    let ghost w = tiles.spec_width();
    let ghost h = tiles.spec_height();
    let d1 = Coords { x: c.x - 1, y: c.y - 1 };
    let m1 = tiles.in_bounds(d1) && matches!(tiles.get(d1).kind, TileKind::Mine);
    proof {
        if coords_in(w, h, d1) {
            crate::grid::lemma_row_major_in_range(w, h, d1);
        }
        assert(m1 == crate::board::mine_at(tiles@, w, h, c.x - 1, c.y - 1));
    }
    let d2 = Coords { x: c.x, y: c.y - 1 };
    let m2 = tiles.in_bounds(d2) && matches!(tiles.get(d2).kind, TileKind::Mine);
    proof {
        if coords_in(w, h, d2) {
            crate::grid::lemma_row_major_in_range(w, h, d2);
        }
        assert(m2 == crate::board::mine_at(tiles@, w, h, c.x as int, c.y - 1));
    }
    let d3 = Coords { x: c.x + 1, y: c.y - 1 };
    let m3 = tiles.in_bounds(d3) && matches!(tiles.get(d3).kind, TileKind::Mine);
    proof {
        if coords_in(w, h, d3) {
            crate::grid::lemma_row_major_in_range(w, h, d3);
        }
        assert(m3 == crate::board::mine_at(tiles@, w, h, c.x + 1, c.y - 1));
    }
    let d4 = Coords { x: c.x - 1, y: c.y };
    let m4 = tiles.in_bounds(d4) && matches!(tiles.get(d4).kind, TileKind::Mine);
    proof {
        if coords_in(w, h, d4) {
            crate::grid::lemma_row_major_in_range(w, h, d4);
        }
        assert(m4 == crate::board::mine_at(tiles@, w, h, c.x - 1, c.y as int));
    }
    let d5 = Coords { x: c.x + 1, y: c.y };
    let m5 = tiles.in_bounds(d5) && matches!(tiles.get(d5).kind, TileKind::Mine);
    proof {
        if coords_in(w, h, d5) {
            crate::grid::lemma_row_major_in_range(w, h, d5);
        }
        assert(m5 == crate::board::mine_at(tiles@, w, h, c.x + 1, c.y as int));
    }
    let d6 = Coords { x: c.x - 1, y: c.y + 1 };
    let m6 = tiles.in_bounds(d6) && matches!(tiles.get(d6).kind, TileKind::Mine);
    proof {
        if coords_in(w, h, d6) {
            crate::grid::lemma_row_major_in_range(w, h, d6);
        }
        assert(m6 == crate::board::mine_at(tiles@, w, h, c.x - 1, c.y + 1));
    }
    let d7 = Coords { x: c.x, y: c.y + 1 };
    let m7 = tiles.in_bounds(d7) && matches!(tiles.get(d7).kind, TileKind::Mine);
    proof {
        if coords_in(w, h, d7) {
            crate::grid::lemma_row_major_in_range(w, h, d7);
        }
        assert(m7 == crate::board::mine_at(tiles@, w, h, c.x as int, c.y + 1));
    }
    let d8 = Coords { x: c.x + 1, y: c.y + 1 };
    let m8 = tiles.in_bounds(d8) && matches!(tiles.get(d8).kind, TileKind::Mine);
    proof {
        if coords_in(w, h, d8) {
            crate::grid::lemma_row_major_in_range(w, h, d8);
        }
        assert(m8 == crate::board::mine_at(tiles@, w, h, c.x + 1, c.y + 1));
    }
    let cnt: usize = (if m1 { 1 } else { 0 }) + (if m2 { 1 } else { 0 }) + (if m3 { 1 } else { 0 }) + (if m4 { 1 } else { 0 }) + (if m5 { 1 } else { 0 }) + (if m6 { 1 } else { 0 }) + (if m7 { 1 } else { 0 }) + (if m8 { 1 } else { 0 });
    cnt
}

/// Turns `n_mines` distinct cells of a fresh board into mines, chosen
/// uniformly by a partial shuffle of the cell indices: a bounded direct
/// method in place of open-ended rejection sampling, so construction always
/// terminates and the mine count is exact by construction.
fn place_mines(tiles: &mut Grid<Tile>, rng: &mut Pcg32, n_mines: usize)
    requires
        old(tiles).wf(),
        0 < old(tiles)@.len(),
        n_mines as int <= old(tiles)@.len(),
        forall|i: int|
            0 <= i < old(tiles)@.len() ==> #[trigger] old(tiles)@[i] == (Tile {
                kind: TileKind::Dirt,
                state: TileState::Covered(false),
                n_near: 0,
            }),
    ensures
        final(tiles).wf(),
        final(tiles).spec_width() == old(tiles).spec_width(),
        final(tiles).spec_height() == old(tiles).spec_height(),
        count_mines(final(tiles)@) == n_mines as int,
        forall|i: int|
            0 <= i < final(tiles)@.len() ==> (#[trigger] final(tiles)@[i]).state
                == TileState::Covered(false) && final(tiles)@[i].n_near == 0,
{
    let n = tiles.len();
    let mut positions: Vec<usize> = Vec::new();
    let mut i: usize = 0;
    while i < n
        invariant
            positions@.len() == i as int,
            i <= n,
            forall|j: int| 0 <= j < i as int ==> #[trigger] positions@[j] == j,
        decreases n - i,
    {
        positions.push(i);
        i = i + 1;
    }
    proof {
        crate::board::lemma_counts_nonneg(tiles@);
        assert(count_mines(tiles@) == 0) by {
            count_mines_all_dirt(tiles@);
        }
    }
    let mut k: usize = 0;
    while k < n_mines
        invariant
            tiles.wf(),
            tiles.spec_width() == old(tiles).spec_width(),
            tiles.spec_height() == old(tiles).spec_height(),
            n as int == tiles@.len(),
            n_mines <= n,
            k <= n_mines,
            positions@.len() == n as int,
            forall|a: int| 0 <= a < n as int ==> 0 <= #[trigger] positions@[a] < n as int,
            forall|a: int, b: int|
                0 <= a < n as int && 0 <= b < n as int && a != b ==> #[trigger] positions@[a]
                    != #[trigger] positions@[b],
            forall|i: int|
                0 <= i < n as int ==> (is_mine(#[trigger] tiles@[i]) <==> exists|j: int|
                    0 <= j < k as int && #[trigger] positions@[j] == i),
            count_mines(tiles@) == k as int,
            forall|i: int|
                0 <= i < n as int ==> (#[trigger] tiles@[i]).state == TileState::Covered(false)
                    && tiles@[i].n_near == 0,
        decreases n_mines - k,
    {
        let r = rng_below(rng, n - k);
        let j = k + r;
        let ghost pos_pre = positions@;
        let pk = positions[k];
        let pj = positions[j];
        positions.set(k, pj);
        positions.set(j, pk);
        let ghost pos_mid = positions@;
        let p = pj;
        proof {
            // The swap keeps the entries a permutation, and the prefix of
            // already mined positions is untouched.
            assert forall|a: int, b: int|
                0 <= a < n as int && 0 <= b < n as int && a != b implies #[trigger] pos_mid[a]
                != #[trigger] pos_mid[b] by {}
            // The freshly drawn position is not among the mined prefix, so
            // the cell there is still dirt.
            assert(!is_mine(tiles@[p as int])) by {
                if exists|j0: int| 0 <= j0 < k as int && #[trigger] pos_pre[j0] == p as int {
                    let j0 = choose|j0: int|
                        0 <= j0 < k as int && #[trigger] pos_pre[j0] == p as int;
                    assert(pos_pre[j0] == pos_pre[j as int]);
                }
            }
        }
        let t = tiles.get_idx(p);
        let ghost b_pre = tiles@;
        tiles.set_idx(p, Tile { kind: TileKind::Mine, ..t });
        proof {
            crate::board::lemma_count_mines_update(b_pre, p as int, (Tile { kind: TileKind::Mine, ..t }));
            assert forall|i: int| 0 <= i < n as int implies (is_mine(#[trigger] tiles@[i])
                <==> exists|j0: int| 0 <= j0 < (k + 1) as int && #[trigger] positions@[j0] == i) by {
                if i == p as int {
                    assert(positions@[k as int] == i);
                } else {
                    assert(tiles@[i] == b_pre[i]);
                    if is_mine(tiles@[i]) {
                        let j0 = choose|j0: int|
                            0 <= j0 < k as int && #[trigger] pos_pre[j0] == i;
                        assert(positions@[j0] == i);
                    } else {
                        if exists|j0: int|
                            0 <= j0 < (k + 1) as int && #[trigger] positions@[j0] == i {
                            let j0 = choose|j0: int|
                                0 <= j0 < (k + 1) as int && #[trigger] positions@[j0] == i;
                            assert(j0 < k as int);
                            assert(pos_pre[j0] == i);
                        }
                    }
                }
            }
        }
        k = k + 1;
    }
}

/// A board of fresh cells holds no mines.
proof fn count_mines_all_dirt(b: Seq<Tile>)
    requires
        forall|i: int| 0 <= i < b.len() ==> is_dirt(#[trigger] b[i]),
    ensures
        count_mines(b) == 0,
    decreases b.len(),
{
    if b.len() > 0 {
        assert(forall|i: int| 0 <= i < b.len() - 1 ==> is_dirt(#[trigger] b.drop_last()[i]));
        count_mines_all_dirt(b.drop_last());
        assert(is_dirt(b.last()));
    }
}

/// Records the brute-force neighbor mine count in every cell.
fn compute_near_counts(tiles: &mut Grid<Tile>)
    requires
        old(tiles).wf(),
        old(tiles).spec_width() > 0,
        old(tiles).spec_height() > 0,
    ensures
        final(tiles).wf(),
        final(tiles).spec_width() == old(tiles).spec_width(),
        final(tiles).spec_height() == old(tiles).spec_height(),
        final(tiles)@.len() == old(tiles)@.len(),
        forall|i: int|
            0 <= i < old(tiles)@.len() ==> (#[trigger] final(tiles)@[i]).kind == old(tiles)@[i].kind
                && final(tiles)@[i].state == old(tiles)@[i].state,
        near_counts_ok(final(tiles)@, old(tiles).spec_width(), old(tiles).spec_height()),
{
    let ghost w = tiles.spec_width();
    let ghost h = tiles.spec_height();
    let ghost b0 = tiles@;
    let n = tiles.len();
    let mut idx: usize = 0;
    while idx < n
        invariant
            tiles.wf(),
            tiles.spec_width() == w,
            tiles.spec_height() == h,
            w > 0,
            h > 0,
            n as int == tiles@.len(),
            b0.len() == tiles@.len(),
            idx <= n,
            forall|i: int|
                0 <= i < n as int ==> (#[trigger] tiles@[i]).kind == b0[i].kind && tiles@[i].state
                    == b0[i].state,
            forall|c: Coords|
                coords_in(w, h, c) && row_major(w, c) < idx as int ==> (#[trigger] tile_at(
                    tiles@,
                    w,
                    c,
                )).n_near == mines_near(tiles@, w, h, c),
        decreases n - idx,
    {
        let c = index_coords(tiles, idx);
        let cnt = mines_near_at(tiles, c);
        let t = tiles.get_idx(idx);
        let ghost b_pre = tiles@;
        tiles.set_idx(idx, Tile { n_near: cnt, ..t });
        proof {
            // The update changes one neighbor record and no kind, so every
            // brute-force count on the board is unchanged.
            assert forall|d: Coords| coords_in(w, h, d) implies mines_near(tiles@, w, h, d)
                == mines_near(b_pre, w, h, d) by {
                crate::board::lemma_mines_near_same_kinds(b_pre, tiles@, w, h, d);
            }
            assert forall|d: Coords|
                coords_in(w, h, d) && row_major(w, d) < (idx + 1) as int implies (#[trigger] tile_at(
                tiles@,
                w,
                d,
            )).n_near == mines_near(tiles@, w, h, d) by {
                crate::grid::lemma_row_major_in_range(w, h, d);
                if row_major(w, d) == idx as int {
                    crate::grid::lemma_row_major_injective(w, h, d, c);
                    assert(tile_at(tiles@, w, d).n_near == cnt as int);
                } else {
                    assert(tile_at(tiles@, w, d) == tile_at(b_pre, w, d));
                }
            }
        }
        idx = idx + 1;
    }
    proof {
        assert forall|c: Coords| coords_in(w, h, c) implies (#[trigger] tile_at(
            tiles@,
            w,
            c,
        )).n_near == mines_near(tiles@, w, h, c) by {
            crate::grid::lemma_row_major_in_range(w, h, c);
        }
    }
}

/// The linear cell index `j` steps past `s`, wrapping at `n`.
spec fn cyc(s: int, n: int, j: int) -> int {
    if s + j < n {
        s + j
    } else {
        s + j - n
    }
}

/// Searches for a zero-count dirt cell, starting from a random position and
/// scanning the whole board cyclically: random where possible, but bounded,
/// and it fails only when no such cell exists at all.
fn find_opening(tiles: &Grid<Tile>, rng: &mut Pcg32) -> (r: Option<Coords>)
    requires
        tiles.wf(),
        tiles.spec_width() > 0,
        0 < tiles@.len(),
    ensures
        match r {
            Some(c) => coords_in(tiles.spec_width(), tiles.spec_height(), c) && is_dirt(
                tile_at(tiles@, tiles.spec_width(), c),
            ) && tile_at(tiles@, tiles.spec_width(), c).n_near == 0,
            None => forall|c: Coords|
                coords_in(tiles.spec_width(), tiles.spec_height(), c) ==> !(is_dirt(
                    #[trigger] tile_at(tiles@, tiles.spec_width(), c),
                ) && tile_at(tiles@, tiles.spec_width(), c).n_near == 0),
        },
{
    let ghost w = tiles.spec_width();
    let ghost h = tiles.spec_height();
    let n = tiles.len();
    let start = rng_below(rng, n);
    let mut i: usize = 0;
    while i < n
        invariant
            tiles.wf(),
            tiles.spec_width() == w,
            tiles.spec_height() == h,
            w > 0,
            n as int == tiles@.len(),
            start < n,
            i <= n,
            forall|j: int|
                0 <= j < i as int ==> !(is_dirt(#[trigger] tiles@[cyc(start as int, n as int, j)])
                    && tiles@[cyc(start as int, n as int, j)].n_near == 0),
        decreases n - i,
    {
        let idx = if i >= n - start {
            i - (n - start)
        } else {
            start + i
        };
        proof {
            assert(idx as int == cyc(start as int, n as int, i as int));
        }
        let t = tiles.get_idx(idx);
        if t.kind == TileKind::Dirt && t.n_near == 0 {
            let c = index_coords(tiles, idx);
            return Some(c);
        }
        i = i + 1;
    }
    proof {
        assert forall|c: Coords| coords_in(w, h, c) implies !(is_dirt(
            #[trigger] tile_at(tiles@, w, c),
        ) && tile_at(tiles@, w, c).n_near == 0) by {
            crate::grid::lemma_row_major_in_range(w, h, c);
            let idx = row_major(w, c);
            let j = if idx >= start as int {
                idx - start as int
            } else {
                idx + n as int - start as int
            };
            assert(0 <= j < n as int);
            assert(cyc(start as int, n as int, j) == idx);
            assert(!(is_dirt(tiles@[cyc(start as int, n as int, j)]) && tiles@[cyc(
                start as int,
                n as int,
                j,
            )].n_near == 0));
        }
    }
    None
}

impl State {
    /// Builds the board for a valid configuration from a resolved seed:
    /// fresh dirt, random mines, neighbor counts, and the automatic opening
    /// dig at a random zero-count dirt cell where the board has one.
    fn build_board(config: Config, seed: u64) -> (s: State)
        requires
            valid_config(config),
        ensures
            s.wf(),
            s.spec_config() == config,
            s.spec_status() == Status::Playing,
            s.spec_flags() == config.n_mines as int,
            forall|i: int|
                0 <= i < s.spec_board().len() ==> (#[trigger] s.spec_board()[i]).state
                    != TileState::Covered(true),
            forall|i: int|
                0 <= i < s.spec_board().len() && is_uncovered(#[trigger] s.spec_board()[i])
                    ==> is_dirt(s.spec_board()[i]),
            (exists|c: Coords|
                coords_in(s.spec_w(), s.spec_h(), c) && is_dirt(
                    #[trigger] tile_at(s.spec_board(), s.spec_w(), c),
                ) && tile_at(s.spec_board(), s.spec_w(), c).n_near == 0) ==> (exists|c: Coords|
                coords_in(s.spec_w(), s.spec_h(), c) && is_dirt(
                    #[trigger] tile_at(s.spec_board(), s.spec_w(), c),
                ) && tile_at(s.spec_board(), s.spec_w(), c).n_near == 0 && is_uncovered(
                    tile_at(s.spec_board(), s.spec_w(), c),
                )),
    {
        proof {
            assert(config.width as int * config.height as int > 0) by (nonlinear_arith)
                requires
                    config.width as int > 0,
                    config.height as int > 0,
            ;
        }
        let mut tiles: Grid<Tile> = Grid::new_fill(config.width, config.height, Tile::new());
        let mut rng = rng_from_seed(seed);
        place_mines(&mut tiles, &mut rng, config.n_mines);
        let ghost b_mined = tiles@;
        compute_near_counts(&mut tiles);
        proof {
            crate::board::lemma_count_mines_same_kinds(b_mined, tiles@);
        }
        let ghost b_built = tiles@;
        let opening = find_opening(&tiles, &mut rng);
        let mut s = State { config, tiles, status: Status::Playing, n_flags: config.n_mines };
        proof {
            let b = s.spec_board();
            let w = s.spec_w();
            let h = s.spec_h();
            assert(count_mines(b) == config.n_mines as int);
            assert(count_flagged(b) == 0) by {
                crate::board::lemma_count_flagged_zero(b);
            }
            assert(zero_closed(b, w, h)) by {
                assert forall|c: Coords|
                    coords_in(w, h, c) && is_dirt(tile_at(b, w, c)) && is_uncovered(
                        tile_at(b, w, c),
                    ) && tile_at(b, w, c).n_near == 0 implies nbrs_uncovered(b, w, h, c) by {
                    crate::grid::lemma_row_major_in_range(w, h, c);
                }
            }
            assert(no_uncovered_mines(b));
            assert(s.wf());
        }
        match opening {
            Some(c) => {
                let ghost b = s.spec_board();
                let ghost w = s.spec_w();
                let ghost h = s.spec_h();
                proof {
                    crate::grid::lemma_row_major_in_range(w, h, c);
                }
                s.dig(c);
                proof {
                    let b2 = s.spec_board();
                    // At least one mine is still covered and unflagged, so
                    // the opening dig cannot have won the game.
                    let i = crate::board::lemma_count_mines_pos(b2);
                    assert(b2[i].state == b[i].state || (b2[i].state == TileState::Uncovered
                        && is_dirt(b[i])));
                    assert(b2[i].state == TileState::Covered(false));
                    assert(!solved(b2[i]));
                    assert(!all_solved(b2));
                    assert(s.spec_status() == Status::Playing);
                    assert(is_uncovered(tile_at(b2, w, c)) && is_dirt(tile_at(b2, w, c))
                        && tile_at(b2, w, c).n_near == 0);
                }
            },
            None => {
                proof {
                    assert forall|i: int|
                        0 <= i < s.spec_board().len() implies (#[trigger] s.spec_board()[i]).state
                        == TileState::Covered(false) by {}
                }
            },
        }
        s
    }

    /// Builds a new game. The configuration is validated first and an
    /// invalid one is reported as an error; a valid one always yields a
    /// running game with the full flag budget, no flags placed, no mine
    /// uncovered, and — whenever the generated board has a zero-count dirt
    /// cell at all — an opening region already revealed around one.
    pub fn new(config: Config) -> (r: Result<State, ConfigError>)
        ensures
            r is Ok <==> valid_config(config),
            r matches Ok(s) ==> s.wf() && s.spec_config() == config && s.spec_status()
                == Status::Playing && s.spec_flags() == config.n_mines as int && (forall|i: int|
                0 <= i < s.spec_board().len() ==> (#[trigger] s.spec_board()[i]).state
                    != TileState::Covered(true)) && (forall|i: int|
                0 <= i < s.spec_board().len() && is_uncovered(#[trigger] s.spec_board()[i])
                    ==> is_dirt(s.spec_board()[i])) && ((exists|c: Coords|
                coords_in(s.spec_w(), s.spec_h(), c) && is_dirt(
                    #[trigger] tile_at(s.spec_board(), s.spec_w(), c),
                ) && tile_at(s.spec_board(), s.spec_w(), c).n_near == 0) ==> (exists|c: Coords|
                coords_in(s.spec_w(), s.spec_h(), c) && is_dirt(
                    #[trigger] tile_at(s.spec_board(), s.spec_w(), c),
                ) && tile_at(s.spec_board(), s.spec_w(), c).n_near == 0 && is_uncovered(
                    tile_at(s.spec_board(), s.spec_w(), c),
                ))),
    {
        if config.width == 0 || config.height == 0 {
            return Err(ConfigError);
        }
        if config.width > (i32::MAX as usize) || config.height > (i32::MAX as usize) {
            return Err(ConfigError);
        }
        let area = match config.width.checked_mul(config.height) {
            Some(a) => a,
            None => {
                return Err(ConfigError);
            },
        };
        if config.n_mines == 0 || config.n_mines >= area {
            return Err(ConfigError);
        }
        let seed = match config.seed {
            Some(s) => s,
            None => os_seed(),
        };
        Ok(Self::build_board(config, seed))
    }

    /// Builds a game directly from a prepared board of covered, unflagged
    /// cells whose mine count and recorded neighbor counts are consistent:
    /// the deterministic counterpart of `new`, with no opening dig made.
    pub fn from_grid(tiles: Grid<Tile>, n_mines: usize) -> (s: State)
        requires
            tiles.wf(),
            tiles.spec_width() > 0,
            tiles.spec_height() > 0,
            0 < n_mines as int,
            (n_mines as int) < tiles@.len(),
            count_mines(tiles@) == n_mines as int,
            near_counts_ok(tiles@, tiles.spec_width(), tiles.spec_height()),
            forall|i: int|
                0 <= i < tiles@.len() ==> (#[trigger] tiles@[i]).state == TileState::Covered(
                    false,
                ),
        ensures
            s.wf(),
            s.spec_board() == tiles@,
            s.spec_w() == tiles.spec_width(),
            s.spec_h() == tiles.spec_height(),
            s.spec_status() == Status::Playing,
            s.spec_flags() == n_mines as int,
            s.spec_config().width as int == tiles.spec_width(),
            s.spec_config().height as int == tiles.spec_height(),
            s.spec_config().n_mines == n_mines,
            s.spec_config().seed == Option::<u64>::None,
    {
        let width = tiles.width();
        let height = tiles.height();
        let config = Config { width, height, n_mines, seed: None };
        let s = State { config, tiles, status: Status::Playing, n_flags: n_mines };
        proof {
            let b = s.spec_board();
            let w = s.spec_w();
            let h = s.spec_h();
            assert(count_flagged(b) == 0) by {
                crate::board::lemma_count_flagged_zero(b);
            }
            assert(zero_closed(b, w, h)) by {
                assert forall|c: Coords|
                    coords_in(w, h, c) && is_dirt(tile_at(b, w, c)) && is_uncovered(
                        tile_at(b, w, c),
                    ) && tile_at(b, w, c).n_near == 0 implies nbrs_uncovered(b, w, h, c) by {
                    crate::grid::lemma_row_major_in_range(w, h, c);
                }
            }
            assert(no_uncovered_mines(b));
        }
        s
    }

    /// Rebuilds the board from the stored width, height and mine count,
    /// always under a fresh random seed — an explicit seed given at first
    /// construction is not reused — and returns the game to `Playing` with
    /// the full flag budget.
    pub fn restart(&mut self)
        requires
            old(self).wf(),
        ensures
            final(self).wf(),
            final(self).spec_config().width == old(self).spec_config().width,
            final(self).spec_config().height == old(self).spec_config().height,
            final(self).spec_config().n_mines == old(self).spec_config().n_mines,
            final(self).spec_config().seed == Option::<u64>::None,
            final(self).spec_w() == old(self).spec_w(),
            final(self).spec_h() == old(self).spec_h(),
            final(self).spec_status() == Status::Playing,
            final(self).spec_flags() == old(self).spec_config().n_mines as int,
            forall|i: int|
                0 <= i < final(self).spec_board().len()
                    ==> (#[trigger] final(self).spec_board()[i]).state != TileState::Covered(true),
            forall|i: int|
                0 <= i < final(self).spec_board().len() && is_uncovered(
                    #[trigger] final(self).spec_board()[i],
                ) ==> is_dirt(final(self).spec_board()[i]),
            (exists|c: Coords|
                coords_in(final(self).spec_w(), final(self).spec_h(), c) && is_dirt(
                    #[trigger] tile_at(final(self).spec_board(), final(self).spec_w(), c),
                ) && tile_at(final(self).spec_board(), final(self).spec_w(), c).n_near == 0) ==> (
            exists|c: Coords|
                coords_in(final(self).spec_w(), final(self).spec_h(), c) && is_dirt(
                    #[trigger] tile_at(final(self).spec_board(), final(self).spec_w(), c),
                ) && tile_at(final(self).spec_board(), final(self).spec_w(), c).n_near == 0
                    && is_uncovered(tile_at(final(self).spec_board(), final(self).spec_w(), c))),
    {
        let config = Config { seed: None, ..self.config };
        proof {
            assert(config.width as int > 0 && config.height as int > 0) by (nonlinear_arith)
                requires
                    0 < config.n_mines as int,
                    (config.n_mines as int) < config.width as int * config.height as int,
            ;
            assert(valid_config(config));
        }
        let seed = os_seed();
        *self = Self::build_board(config, seed);
    }
}

/// Flood paths read only the board's layout, so boards with the same layout
/// have the same flood regions.
proof fn reaches_same_layout(a: Seq<Tile>, b: Seq<Tile>, w: int, h: int, s: Coords, c: Coords)
    requires
        same_layout(a, b),
        a.len() == w * h,
        reaches(a, w, h, s, c),
    ensures
        reaches(b, w, h, s, c),
{
    let ps = choose|ps: Seq<Coords>| #[trigger] path_ok(a, w, h, ps) && ps[0] == s && ps.last()
        == c;
    assert forall|i: int| 0 <= i < ps.len() - 1 implies step_ok(b, w, h, #[trigger] ps[i], ps[i + 1]) by {
        assert(step_ok(a, w, h, ps[i], ps[i + 1]));
        crate::grid::lemma_row_major_in_range(w, h, ps[i]);
    }
    assert(coords_in(w, h, ps.last()));
    crate::grid::lemma_row_major_in_range(w, h, ps.last());
    assert(is_dirt(tile_at(b, w, ps.last())));
    assert(path_ok(b, w, h, ps));
}

/// In any well-formed game state no flood reveal is pending: along any
/// flood path of the board -- consecutive Moore neighbors whose interior
/// cells are zero-count dirt -- an uncovered first cell forces the last
/// cell, the path's boundary included, to be uncovered as well. Digging a
/// covered zero-count dirt cell therefore uncovers its entire connected
/// zero-region and that region's numbered boundary.
pub proof fn lemma_region_uncovered(s: State, ps: Seq<Coords>)
    requires
        s.wf(),
        path_ok(s.spec_board(), s.spec_w(), s.spec_h(), ps),
        is_uncovered(tile_at(s.spec_board(), s.spec_w(), ps[0])),
    ensures
        is_uncovered(tile_at(s.spec_board(), s.spec_w(), ps.last())),
{
    crate::board::lemma_zero_closed_covers_region(s.spec_board(), s.spec_w(), s.spec_h(), ps);
}

} // verus!
