//! The per-cell tile model and the mathematical vocabulary for boards:
//! neighborhoods, mine counts, the solved condition, and connected
//! zero-regions swept by the flood reveal.
use vstd::prelude::*;

use crate::grid::{coords_in, row_major, Coords};

verus! {

/// What a cell holds: safe dirt, or a mine. Fixed at board construction.
#[derive(Clone, Copy, Debug, PartialEq, Eq, Structural)]
pub enum TileKind {
    Dirt,
    Mine,
}

/// Whether a cell is still covered (and then whether it carries a flag) or
/// has been uncovered. The flag is meaningful only while covered.
#[derive(Clone, Copy, Debug, PartialEq, Eq, Structural)]
pub enum TileState {
    Covered(bool),
    Uncovered,
}

/// One cell of the board: its kind, its state, and the number of mines
/// among its up-to-8 Moore neighbors, fixed at construction.
#[derive(Clone, Copy, Debug, PartialEq, Eq, Structural)]
pub struct Tile {
    pub kind: TileKind,
    pub state: TileState,
    pub n_near: usize,
}

impl Tile {
    /// A fresh cell: covered, unflagged dirt with no recorded neighbors.
    pub fn new() -> (r: Tile)
        ensures
            r == (Tile { kind: TileKind::Dirt, state: TileState::Covered(false), n_near: 0 }),
    {
        Tile { kind: TileKind::Dirt, state: TileState::Covered(false), n_near: 0 }
    }
}

/// The tile a board `b` of width `w` holds at coordinate `c`.
pub open spec fn tile_at(b: Seq<Tile>, w: int, c: Coords) -> Tile {
    b[row_major(w, c)]
}

pub open spec fn is_mine(t: Tile) -> bool {
    t.kind == TileKind::Mine
}

pub open spec fn is_dirt(t: Tile) -> bool {
    t.kind == TileKind::Dirt
}

pub open spec fn is_uncovered(t: Tile) -> bool {
    t.state == TileState::Uncovered
}

pub open spec fn is_flagged(t: Tile) -> bool {
    t.state == TileState::Covered(true)
}

/// Two distinct coordinates within Chebyshev distance 1 of each other:
/// the Moore (8-cell) neighborhood relation.
pub open spec fn adjacent(a: Coords, b: Coords) -> bool {
    &&& a != b
    &&& -1 <= a.x - b.x <= 1
    &&& -1 <= a.y - b.y <= 1
}

/// Whether position (x, y) lies on the board and holds a mine.
pub open spec fn mine_at(b: Seq<Tile>, w: int, h: int, x: int, y: int) -> bool {
    &&& 0 <= x < w
    &&& 0 <= y < h
    &&& is_mine(b[y * w + x])
}

pub open spec fn count1(p: bool) -> int {
    if p {
        1
    } else {
        0
    }
}

/// The number of mines among the up-to-8 in-bounds Moore neighbors of `c`:
/// the brute-force sum over all eight offsets.
pub open spec fn mines_near(b: Seq<Tile>, w: int, h: int, c: Coords) -> int {
    count1(mine_at(b, w, h, c.x - 1, c.y - 1)) + count1(mine_at(b, w, h, c.x as int, c.y - 1)) + count1(
        mine_at(b, w, h, c.x + 1, c.y - 1),
    ) + count1(mine_at(b, w, h, c.x - 1, c.y as int)) + count1(mine_at(b, w, h, c.x + 1, c.y as int)) + count1(
        mine_at(b, w, h, c.x - 1, c.y + 1),
    ) + count1(mine_at(b, w, h, c.x as int, c.y + 1)) + count1(mine_at(b, w, h, c.x + 1, c.y + 1))
}

/// Every cell's recorded `n_near` equals the brute-force neighbor mine count.
pub open spec fn near_counts_ok(b: Seq<Tile>, w: int, h: int) -> bool {
    forall|c: Coords|
        coords_in(w, h, c) ==> (#[trigger] tile_at(b, w, c)).n_near == mines_near(b, w, h, c)
}

/// The number of mines on the board.
pub open spec fn count_mines(b: Seq<Tile>) -> int
    decreases b.len(),
{
    if b.len() == 0 {
        0
    } else {
        count_mines(b.drop_last()) + count1(is_mine(b.last()))
    }
}

/// The number of flagged cells on the board.
pub open spec fn count_flagged(b: Seq<Tile>) -> int
    decreases b.len(),
{
    if b.len() == 0 {
        0
    } else {
        count_flagged(b.drop_last()) + count1(is_flagged(b.last()))
    }
}

/// The number of cells not yet uncovered; the flood reveal strictly shrinks
/// it with every cell it sweeps.
pub open spec fn count_covered(b: Seq<Tile>) -> int
    decreases b.len(),
{
    if b.len() == 0 {
        0
    } else {
        count_covered(b.drop_last()) + count1(!is_uncovered(b.last()))
    }
}

/// No mine on the board is uncovered; holds whenever the game is still
/// running.
pub open spec fn no_uncovered_mines(b: Seq<Tile>) -> bool {
    forall|i: int| 0 <= i < b.len() && is_mine(#[trigger] b[i]) ==> !is_uncovered(b[i])
}

/// A cell in its winning configuration: dirt must be uncovered, a mine must
/// be covered and flagged.
pub open spec fn solved(t: Tile) -> bool {
    match t.kind {
        TileKind::Dirt => t.state == TileState::Uncovered,
        TileKind::Mine => t.state == TileState::Covered(true),
    }
}

/// Every cell of the board is in its winning configuration.
pub open spec fn all_solved(b: Seq<Tile>) -> bool {
    forall|i: int| 0 <= i < b.len() ==> solved(#[trigger] b[i])
}

/// The two boards agree on length and on every cell's kind and neighbor
/// count; only the cells' states may differ.
pub open spec fn same_layout(a: Seq<Tile>, b: Seq<Tile>) -> bool {
    &&& a.len() == b.len()
    &&& forall|i: int|
        0 <= i < a.len() ==> (#[trigger] b[i]).kind == a[i].kind && b[i].n_near == a[i].n_near
}

/// Every in-bounds dirt neighbor of `c` is uncovered.
pub open spec fn nbrs_uncovered(b: Seq<Tile>, w: int, h: int, c: Coords) -> bool {
    forall|d: Coords|
        #[trigger] adjacent(c, d) && coords_in(w, h, d) && is_dirt(tile_at(b, w, d))
            ==> is_uncovered(tile_at(b, w, d))
}

/// Every uncovered zero-count dirt cell has all its in-bounds dirt neighbors
/// uncovered: no flood reveal is left pending anywhere.
pub open spec fn zero_closed(b: Seq<Tile>, w: int, h: int) -> bool {
    forall|c: Coords|
        coords_in(w, h, c) && is_dirt(tile_at(b, w, c)) && is_uncovered(tile_at(b, w, c))
            && tile_at(b, w, c).n_near == 0 ==> #[trigger] nbrs_uncovered(b, w, h, c)
}

/// As `zero_closed`, except that the single cell `s` is exempt.
pub open spec fn zero_closed_except(b: Seq<Tile>, w: int, h: int, s: Coords) -> bool {
    forall|c: Coords|
        c != s && coords_in(w, h, c) && is_dirt(tile_at(b, w, c)) && is_uncovered(tile_at(b, w, c))
            && tile_at(b, w, c).n_near == 0 ==> #[trigger] nbrs_uncovered(b, w, h, c)
}

/// One step of a flood sweep: from an in-bounds zero-count dirt cell `p` to
/// a Moore neighbor `q`.
pub open spec fn step_ok(b: Seq<Tile>, w: int, h: int, p: Coords, q: Coords) -> bool {
    &&& adjacent(p, q)
    &&& coords_in(w, h, p)
    &&& is_dirt(tile_at(b, w, p))
    &&& tile_at(b, w, p).n_near == 0
}

/// A chain of flood steps whose interior cells are all zero-count dirt and
/// whose endpoint is an in-bounds dirt cell.
pub open spec fn path_ok(b: Seq<Tile>, w: int, h: int, ps: Seq<Coords>) -> bool {
    &&& ps.len() >= 1
    &&& forall|i: int| 0 <= i < ps.len() - 1 ==> step_ok(b, w, h, #[trigger] ps[i], ps[i + 1])
    &&& coords_in(w, h, ps.last())
    &&& is_dirt(tile_at(b, w, ps.last()))
}

/// The connected zero-region of `start` together with its numbered boundary:
/// the dirt cells a flood sweep starting at `start` may reach.
pub open spec fn reaches(b: Seq<Tile>, w: int, h: int, start: Coords, c: Coords) -> bool {
    exists|ps: Seq<Coords>| #[trigger] path_ok(b, w, h, ps) && ps[0] == start && ps.last() == c
}

/// A flood region grows by one step: whatever a zero cell `p` of the region
/// reaches through one more step is in the region.
pub proof fn lemma_reaches_step(b: Seq<Tile>, w: int, h: int, start: Coords, p: Coords, d: Coords)
    requires
        reaches(b, w, h, start, p),
        step_ok(b, w, h, p, d),
        coords_in(w, h, d),
        is_dirt(tile_at(b, w, d)),
    ensures
        reaches(b, w, h, start, d),
{
    let ps = choose|ps: Seq<Coords>|
        #[trigger] path_ok(b, w, h, ps) && ps[0] == start && ps.last() == p;
    let qs = ps.push(d);
    assert(qs.last() == d);
    assert(qs[0] == start);
    assert forall|i: int| 0 <= i < qs.len() - 1 implies #[trigger] step_ok(
        b,
        w,
        h,
        qs[i],
        qs[i + 1],
    ) by {
        if i < ps.len() - 1 {
            assert(qs[i] == ps[i]);
            assert(qs[i + 1] == ps[i + 1]);
            assert(step_ok(b, w, h, ps[i], ps[i + 1]));
        } else {
            assert(qs[i] == ps.last());
            assert(qs[i + 1] == d);
        }
    }
    assert(path_ok(b, w, h, qs));
}

/// The cell a path starts from is in bounds and is dirt.
pub proof fn lemma_path_first(b: Seq<Tile>, w: int, h: int, ps: Seq<Coords>)
    requires
        path_ok(b, w, h, ps),
    ensures
        coords_in(w, h, ps[0]),
        is_dirt(tile_at(b, w, ps[0])),
{
    if ps.len() == 1 {
        assert(ps[0] == ps.last());
    } else {
        assert(step_ok(b, w, h, ps[0], ps[1]));
    }
}

/// The flood law: on a board where no reveal is left pending, if the start
/// of a flood path is uncovered then so is its endpoint. Together with the
/// reveal's own contract this says a dig of a zero-count cell uncovers its
/// entire connected zero-region and that region's numbered boundary.
pub proof fn lemma_zero_closed_covers_region(b: Seq<Tile>, w: int, h: int, ps: Seq<Coords>)
    requires
        zero_closed(b, w, h),
        path_ok(b, w, h, ps),
        is_uncovered(tile_at(b, w, ps[0])),
    ensures
        is_uncovered(tile_at(b, w, ps.last())),
    decreases ps.len(),
{
    if ps.len() == 1 {
        assert(ps.last() == ps[0]);
    } else {
        assert(step_ok(b, w, h, ps[0], ps[1]));
        // ps[0] is uncovered zero-count dirt, so its dirt neighbors are
        // uncovered; ps[1] is one of them.
        let qs = ps.drop_first();
        assert forall|i: int| 0 <= i < qs.len() - 1 implies #[trigger] step_ok(
            b,
            w,
            h,
            qs[i],
            qs[i + 1],
        ) by {
            assert(qs[i] == ps[i + 1]);
            assert(qs[i + 1] == ps[i + 2]);
            assert(step_ok(b, w, h, ps[i + 1], ps[i + 2]));
        }
        assert(qs.last() == ps.last());
        assert(path_ok(b, w, h, qs));
        assert(coords_in(w, h, ps[1]) && is_dirt(tile_at(b, w, ps[1]))) by {
            lemma_path_first(b, w, h, qs);
            assert(qs[0] == ps[1]);
        }
        assert(nbrs_uncovered(b, w, h, ps[0]));
        assert(adjacent(ps[0], ps[1]));
        assert(is_uncovered(tile_at(b, w, ps[1])));
        lemma_zero_closed_covers_region(b, w, h, qs);
    }
}

/// Updating one cell shifts the board's mine count by the difference the
/// update makes at that cell.
pub proof fn lemma_count_mines_update(b: Seq<Tile>, i: int, t: Tile)
    requires
        0 <= i < b.len(),
    ensures
        count_mines(b.update(i, t)) == count_mines(b) - count1(is_mine(b[i])) + count1(is_mine(t)),
    decreases b.len(),
{
    let b2 = b.update(i, t);
    if i == b.len() - 1 {
        assert(b2.last() == t);
        assert(b2.drop_last() =~= b.drop_last());
    } else {
        assert(b2.last() == b.last());
        assert(b2.drop_last() =~= b.drop_last().update(i, t));
        lemma_count_mines_update(b.drop_last(), i, t);
    }
}

/// Updating one cell shifts the board's flag count by the difference the
/// update makes at that cell.
pub proof fn lemma_count_flagged_update(b: Seq<Tile>, i: int, t: Tile)
    requires
        0 <= i < b.len(),
    ensures
        count_flagged(b.update(i, t)) == count_flagged(b) - count1(is_flagged(b[i])) + count1(
            is_flagged(t),
        ),
    decreases b.len(),
{
    let b2 = b.update(i, t);
    if i == b.len() - 1 {
        assert(b2.last() == t);
        assert(b2.drop_last() =~= b.drop_last());
    } else {
        assert(b2.last() == b.last());
        assert(b2.drop_last() =~= b.drop_last().update(i, t));
        lemma_count_flagged_update(b.drop_last(), i, t);
    }
}

/// A board with at least one mine has a mine at some index.
pub proof fn lemma_count_mines_pos(b: Seq<Tile>) -> (i: int)
    requires
        count_mines(b) > 0,
    ensures
        0 <= i < b.len(),
        is_mine(b[i]),
    decreases b.len(),
{
    if is_mine(b.last()) {
        b.len() - 1
    } else {
        let i = lemma_count_mines_pos(b.drop_last());
        assert(b.drop_last()[i] == b[i]);
        i
    }
}

/// Boards that agree cell by cell on being flagged have the same flag count.
pub proof fn lemma_count_flagged_le(a: Seq<Tile>, b: Seq<Tile>)
    requires
        a.len() == b.len(),
        forall|i: int| 0 <= i < b.len() ==> is_flagged(#[trigger] b[i]) ==> is_flagged(a[i]),
    ensures
        count_flagged(b) <= count_flagged(a),
    decreases a.len(),
{
    if a.len() > 0 {
        assert(forall|i: int|
            0 <= i < b.len() - 1 ==> is_flagged(#[trigger] b.drop_last()[i]) ==> is_flagged(
                a.drop_last()[i],
            ));
        lemma_count_flagged_le(a.drop_last(), b.drop_last());
        assert(is_flagged(b.last()) ==> is_flagged(a.last()));
    }
}

/// Mine, flag and covered counts are never negative.
pub proof fn lemma_counts_nonneg(b: Seq<Tile>)
    ensures
        count_mines(b) >= 0,
        count_flagged(b) >= 0,
        count_covered(b) >= 0,
    decreases b.len(),
{
    if b.len() > 0 {
        lemma_counts_nonneg(b.drop_last());
    }
}

/// A board with a flagged cell has at least one flag on it.
pub proof fn lemma_count_flagged_at(b: Seq<Tile>, i: int)
    requires
        0 <= i < b.len(),
        is_flagged(b[i]),
    ensures
        count_flagged(b) >= 1,
    decreases b.len(),
{
    lemma_counts_nonneg(b.drop_last());
    if i < b.len() - 1 {
        assert(b.drop_last()[i] == b[i]);
        lemma_count_flagged_at(b.drop_last(), i);
    }
}

/// A board with no flagged cell carries zero flags.
pub proof fn lemma_count_flagged_zero(b: Seq<Tile>)
    requires
        forall|i: int| 0 <= i < b.len() ==> !is_flagged(#[trigger] b[i]),
    ensures
        count_flagged(b) == 0,
    decreases b.len(),
{
    if b.len() > 0 {
        assert(forall|i: int| 0 <= i < b.len() - 1 ==> !is_flagged(#[trigger] b.drop_last()[i]));
        lemma_count_flagged_zero(b.drop_last());
        assert(!is_flagged(b.last()));
    }
}

/// Updating one cell shifts the board's covered count by the difference the
/// update makes at that cell.
pub proof fn lemma_count_covered_update(b: Seq<Tile>, i: int, t: Tile)
    requires
        0 <= i < b.len(),
    ensures
        count_covered(b.update(i, t)) == count_covered(b) - count1(!is_uncovered(b[i])) + count1(
            !is_uncovered(t),
        ),
    decreases b.len(),
{
    let b2 = b.update(i, t);
    if i == b.len() - 1 {
        assert(b2.last() == t);
        assert(b2.drop_last() =~= b.drop_last());
    } else {
        assert(b2.last() == b.last());
        assert(b2.drop_last() =~= b.drop_last().update(i, t));
        lemma_count_covered_update(b.drop_last(), i, t);
    }
}

/// The mine count reads only the cells' kinds.
pub proof fn lemma_count_mines_same_kinds(a: Seq<Tile>, b: Seq<Tile>)
    requires
        a.len() == b.len(),
        forall|i: int| 0 <= i < a.len() ==> (#[trigger] b[i]).kind == a[i].kind,
    ensures
        count_mines(b) == count_mines(a),
    decreases a.len(),
{
    if a.len() > 0 {
        assert(forall|i: int|
            0 <= i < a.len() - 1 ==> (#[trigger] b.drop_last()[i]).kind == a.drop_last()[i].kind);
        lemma_count_mines_same_kinds(a.drop_last(), b.drop_last());
        assert(b.last().kind == a.last().kind);
    }
}

/// Boards with the same layout have the same mine count.
pub proof fn lemma_count_mines_same_layout(a: Seq<Tile>, b: Seq<Tile>)
    requires
        same_layout(a, b),
    ensures
        count_mines(b) == count_mines(a),
    decreases a.len(),
{
    if a.len() > 0 {
        assert(forall|i: int|
            0 <= i < a.len() - 1 ==> (#[trigger] b.drop_last()[i]).kind == a.drop_last()[i].kind
                && b.drop_last()[i].n_near == a.drop_last()[i].n_near);
        lemma_count_mines_same_layout(a.drop_last(), b.drop_last());
        assert(b.last().kind == a.last().kind);
    }
}

/// The neighbor mine count reads only the cells' kinds.
pub proof fn lemma_mines_near_same_kinds(a: Seq<Tile>, b: Seq<Tile>, w: int, h: int, c: Coords)
    requires
        a.len() == b.len(),
        forall|i: int| 0 <= i < a.len() ==> (#[trigger] b[i]).kind == a[i].kind,
        a.len() == w * h,
        w > 0,
        h > 0,
    ensures
        mines_near(b, w, h, c) == mines_near(a, w, h, c),
{
    assert forall|x: int, y: int| 0 <= x < w && 0 <= y < h implies (#[trigger] mine_at(
        b,
        w,
        h,
        x,
        y,
    )) == mine_at(a, w, h, x, y) by {
        assert(0 <= y * w + x < w * h) by (nonlinear_arith)
            requires
                0 <= x < w,
                0 <= y < h,
        ;
        assert(b[y * w + x].kind == a[y * w + x].kind);
    }
    assert(mine_at(b, w, h, c.x - 1, c.y - 1) == mine_at(a, w, h, c.x - 1, c.y - 1));
    assert(mine_at(b, w, h, c.x as int, c.y - 1) == mine_at(a, w, h, c.x as int, c.y - 1));
    assert(mine_at(b, w, h, c.x + 1, c.y - 1) == mine_at(a, w, h, c.x + 1, c.y - 1));
    assert(mine_at(b, w, h, c.x - 1, c.y as int) == mine_at(a, w, h, c.x - 1, c.y as int));
    assert(mine_at(b, w, h, c.x + 1, c.y as int) == mine_at(a, w, h, c.x + 1, c.y as int));
    assert(mine_at(b, w, h, c.x - 1, c.y + 1) == mine_at(a, w, h, c.x - 1, c.y + 1));
    assert(mine_at(b, w, h, c.x as int, c.y + 1) == mine_at(a, w, h, c.x as int, c.y + 1));
    assert(mine_at(b, w, h, c.x + 1, c.y + 1) == mine_at(a, w, h, c.x + 1, c.y + 1));
}

/// Boards with the same layout agree on every neighbor mine count.
pub proof fn lemma_mines_near_same_layout(a: Seq<Tile>, b: Seq<Tile>, w: int, h: int, c: Coords)
    requires
        same_layout(a, b),
        a.len() == w * h,
        w > 0,
        h > 0,
    ensures
        mines_near(b, w, h, c) == mines_near(a, w, h, c),
{
    assert forall|x: int, y: int| 0 <= x < w && 0 <= y < h implies (#[trigger] mine_at(b, w, h, x, y))
        == mine_at(a, w, h, x, y) by {
        assert(0 <= y * w + x < w * h) by (nonlinear_arith)
            requires
                0 <= x < w,
                0 <= y < h,
        ;
        assert(b[y * w + x].kind == a[y * w + x].kind);
    }
    assert(mine_at(b, w, h, c.x - 1, c.y - 1) == mine_at(a, w, h, c.x - 1, c.y - 1));
    assert(mine_at(b, w, h, c.x as int, c.y - 1) == mine_at(a, w, h, c.x as int, c.y - 1));
    assert(mine_at(b, w, h, c.x + 1, c.y - 1) == mine_at(a, w, h, c.x + 1, c.y - 1));
    assert(mine_at(b, w, h, c.x - 1, c.y as int) == mine_at(a, w, h, c.x - 1, c.y as int));
    assert(mine_at(b, w, h, c.x + 1, c.y as int) == mine_at(a, w, h, c.x + 1, c.y as int));
    assert(mine_at(b, w, h, c.x - 1, c.y + 1) == mine_at(a, w, h, c.x - 1, c.y + 1));
    assert(mine_at(b, w, h, c.x as int, c.y + 1) == mine_at(a, w, h, c.x as int, c.y + 1));
    assert(mine_at(b, w, h, c.x + 1, c.y + 1) == mine_at(a, w, h, c.x + 1, c.y + 1));
}

/// Recorded neighbor counts stay correct across any change that keeps the
/// board's layout.
pub proof fn lemma_near_counts_same_layout(a: Seq<Tile>, b: Seq<Tile>, w: int, h: int)
    requires
        same_layout(a, b),
        a.len() == w * h,
        w > 0,
        h > 0,
        near_counts_ok(a, w, h),
    ensures
        near_counts_ok(b, w, h),
{
    assert forall|c: Coords| coords_in(w, h, c) implies (#[trigger] tile_at(b, w, c)).n_near
        == mines_near(b, w, h, c) by {
        crate::grid::lemma_row_major_in_range(w, h, c);
        assert(tile_at(b, w, c).n_near == tile_at(a, w, c).n_near);
        lemma_mines_near_same_layout(a, b, w, h, c);
    }
}

/// A board stays flood-closed across any change that keeps its layout and
/// each cell's uncovered status.
pub proof fn lemma_zero_closed_same_uncovered(a: Seq<Tile>, b: Seq<Tile>, w: int, h: int)
    requires
        same_layout(a, b),
        forall|i: int| 0 <= i < a.len() ==> is_uncovered(#[trigger] b[i]) == is_uncovered(a[i]),
        a.len() == w * h,
        w > 0,
        h > 0,
        zero_closed(a, w, h),
    ensures
        zero_closed(b, w, h),
{
    assert forall|c: Coords|
        coords_in(w, h, c) && is_dirt(tile_at(b, w, c)) && is_uncovered(tile_at(b, w, c))
            && tile_at(b, w, c).n_near == 0 implies #[trigger] nbrs_uncovered(b, w, h, c) by {
        crate::grid::lemma_row_major_in_range(w, h, c);
        assert(is_dirt(tile_at(a, w, c)) && is_uncovered(tile_at(a, w, c)) && tile_at(
            a,
            w,
            c,
        ).n_near == 0);
        assert(nbrs_uncovered(a, w, h, c));
        assert forall|d: Coords|
            #[trigger] adjacent(c, d) && coords_in(w, h, d) && is_dirt(tile_at(b, w, d)) implies is_uncovered(
            tile_at(b, w, d),
        ) by {
            crate::grid::lemma_row_major_in_range(w, h, d);
            assert(is_dirt(tile_at(a, w, d)));
            assert(is_uncovered(tile_at(a, w, d)));
        }
    }
}

} // verus!
