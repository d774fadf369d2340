use minefield::board::{Tile, TileKind, TileState};
use minefield::game::{Config, State, Status};
use minefield::grid::{Coords, Grid};

/// Builds a covered, unflagged board with mines at the given coordinates
/// and consistent neighbor counts.
fn board(width: usize, height: usize, mines: &[(i32, i32)]) -> Grid<Tile> {
    let mut g: Grid<Tile> = Grid::new_fill(width, height, Tile::new());
    for &(x, y) in mines {
        let c = Coords::new(x, y);
        let t = g.get(c);
        g.set(c, Tile { kind: TileKind::Mine, ..t });
    }
    for y in 0..height as i32 {
        for x in 0..width as i32 {
            let mut near = 0;
            for dy in -1..=1 {
                for dx in -1..=1 {
                    if dx == 0 && dy == 0 {
                        continue;
                    }
                    let d = Coords::new(x + dx, y + dy);
                    if g.in_bounds(d) && g.get(d).kind == TileKind::Mine {
                        near += 1;
                    }
                }
            }
            let c = Coords::new(x, y);
            let t = g.get(c);
            g.set(c, Tile { n_near: near, ..t });
        }
    }
    g
}

fn tile_of(s: &State, x: i32, y: i32) -> Tile {
    let w = s.config().width as i32;
    let pairs = s.enumerate_tiles();
    pairs[(y * w + x) as usize].1
}

fn seeded(width: usize, height: usize, n_mines: usize, seed: u64) -> State {
    State::new(Config { width, height, n_mines, seed: Some(seed) }).unwrap()
}

#[test]
fn construction_places_exact_mine_count() {
    for seed in 0..5u64 {
        let s = seeded(8, 8, 10, seed);
        let mut mines = 0;
        let mut dirt = 0;
        for (_, t) in s.enumerate_tiles() {
            match t.kind {
                TileKind::Mine => mines += 1,
                TileKind::Dirt => dirt += 1,
            }
        }
        assert_eq!(mines, 10);
        assert_eq!(dirt, 54);
        assert_eq!(s.status(), Status::Playing);
        assert_eq!(s.flags_remaining(), 10);
    }
}

#[test]
fn construction_neighbor_counts_brute_force() {
    let s = seeded(8, 8, 10, 12345);
    let pairs = s.enumerate_tiles();
    let is_mine = |x: i32, y: i32| -> bool {
        if x < 0 || y < 0 || x >= 8 || y >= 8 {
            return false;
        }
        pairs[(y * 8 + x) as usize].1.kind == TileKind::Mine
    };
    for (c, t) in &pairs {
        let mut near = 0;
        for dy in -1..=1 {
            for dx in -1..=1 {
                if (dx != 0 || dy != 0) && is_mine(c.x + dx, c.y + dy) {
                    near += 1;
                }
            }
        }
        assert_eq!(t.n_near, near, "wrong count at ({}, {})", c.x, c.y);
    }
}

#[test]
fn construction_opens_a_zero_region() {
    for seed in 0..5u64 {
        let s = seeded(9, 7, 6, seed);
        let mut opened_zero = false;
        for (_, t) in s.enumerate_tiles() {
            if t.state == TileState::Uncovered {
                // Nothing uncovered at construction is a mine.
                assert_eq!(t.kind, TileKind::Dirt);
                if t.n_near == 0 {
                    opened_zero = true;
                }
            }
        }
        // A 9x7 board with 6 mines always has a zero-count cell.
        assert!(opened_zero);
    }
}

#[test]
fn dig_numbered_tile_uncovers_only_it() {
    // Mine in a corner; (1, 1) is its numbered neighbor.
    let s0 = State::from_grid(board(3, 3, &[(0, 0)]), 1);
    let mut s = s0;
    s.dig(Coords::new(1, 1));
    assert_eq!(s.status(), Status::Playing);
    for (c, t) in s.enumerate_tiles() {
        if (c.x, c.y) == (1, 1) {
            assert_eq!(t.state, TileState::Uncovered);
            assert_eq!(t.n_near, 1);
        } else {
            assert_eq!(t.state, TileState::Covered(false));
        }
    }
}

#[test]
fn dig_zero_tile_floods_region_and_boundary() {
    // One mine at the right end of a strip: the zero region is the left
    // part, its numbered boundary is (2, 0), and the mine stays covered.
    let mut s = State::from_grid(board(4, 1, &[(3, 0)]), 1);
    s.dig(Coords::new(0, 0));
    assert_eq!(s.status(), Status::Playing);
    assert_eq!(tile_of(&s, 0, 0).state, TileState::Uncovered);
    assert_eq!(tile_of(&s, 1, 0).state, TileState::Uncovered);
    assert_eq!(tile_of(&s, 2, 0).state, TileState::Uncovered);
    assert_eq!(tile_of(&s, 2, 0).n_near, 1);
    assert_eq!(tile_of(&s, 3, 0).state, TileState::Covered(false));
}

#[test]
fn flood_sweeps_over_flagged_dirt() {
    // The flood expansion deliberately ignores the flag bit on covered
    // dirt it sweeps over, unlike the single-cell reveal.
    let mut s = State::from_grid(board(4, 1, &[(3, 0)]), 1);
    s.flag(Coords::new(1, 0));
    assert_eq!(s.flags_remaining(), 0);
    s.dig(Coords::new(0, 0));
    assert_eq!(tile_of(&s, 1, 0).state, TileState::Uncovered);
    assert_eq!(s.flags_remaining(), 0);
}

#[test]
fn dig_flagged_tile_is_protected() {
    let mut s = State::from_grid(board(2, 1, &[(1, 0)]), 1);
    s.flag(Coords::new(1, 0));
    s.dig(Coords::new(1, 0));
    assert_eq!(tile_of(&s, 1, 0).state, TileState::Covered(true));
    assert_ne!(s.status(), Status::Dead);
}

#[test]
fn dig_mine_kills_and_freezes_the_game() {
    let mut s = State::from_grid(board(2, 2, &[(1, 1)]), 1);
    s.dig(Coords::new(1, 1));
    assert_eq!(s.status(), Status::Dead);
    assert_eq!(tile_of(&s, 1, 1).state, TileState::Uncovered);
    let frozen: Vec<(Coords, Tile)> = s.enumerate_tiles();
    let flags = s.flags_remaining();
    s.dig(Coords::new(0, 0));
    s.flag(Coords::new(0, 1));
    s.dig(Coords::new(100, -3));
    s.flag(Coords::new(-7, 100));
    assert_eq!(s.status(), Status::Dead);
    assert_eq!(s.flags_remaining(), flags);
    let after = s.enumerate_tiles();
    assert_eq!(frozen.len(), after.len());
    for (a, b) in frozen.iter().zip(after.iter()) {
        assert_eq!(a.1, b.1);
    }
}

#[test]
fn chord_uncovers_neighbors_and_hits_mines() {
    let mut s = State::from_grid(board(3, 3, &[(2, 2)]), 1);
    s.dig(Coords::new(0, 0));
    // The flood opened every dirt cell; the mine is still covered.
    assert_eq!(tile_of(&s, 1, 1).state, TileState::Uncovered);
    assert_eq!(tile_of(&s, 2, 2).state, TileState::Covered(false));
    assert_eq!(s.status(), Status::Playing);
    // Chording the numbered (1, 1) digs all its neighbors, the mine too.
    s.dig(Coords::new(1, 1));
    assert_eq!(s.status(), Status::Dead);
    assert_eq!(tile_of(&s, 2, 2).state, TileState::Uncovered);
}

#[test]
fn flag_budget_spends_and_returns() {
    let mut s = State::from_grid(board(2, 2, &[(0, 0)]), 1);
    assert_eq!(s.flags_remaining(), 1);
    s.flag(Coords::new(1, 0));
    assert_eq!(tile_of(&s, 1, 0).state, TileState::Covered(true));
    assert_eq!(s.flags_remaining(), 0);
    // No budget left: flagging another cell has no effect.
    s.flag(Coords::new(0, 1));
    assert_eq!(tile_of(&s, 0, 1).state, TileState::Covered(false));
    assert_eq!(s.flags_remaining(), 0);
    // Unflagging always returns the unit.
    s.flag(Coords::new(1, 0));
    assert_eq!(tile_of(&s, 1, 0).state, TileState::Covered(false));
    assert_eq!(s.flags_remaining(), 1);
}

#[test]
fn flag_on_uncovered_tile_is_a_no_op() {
    let mut s = State::from_grid(board(2, 1, &[(1, 0)]), 1);
    s.dig(Coords::new(0, 0));
    assert_eq!(tile_of(&s, 0, 0).state, TileState::Uncovered);
    s.flag(Coords::new(0, 0));
    assert_eq!(tile_of(&s, 0, 0).state, TileState::Uncovered);
    assert_eq!(s.flags_remaining(), 1);
}

#[test]
fn two_cell_scenario_dig_then_flag_wins() {
    let mut s = State::from_grid(board(2, 1, &[(1, 0)]), 1);
    assert_eq!(tile_of(&s, 0, 0).n_near, 1);
    s.dig(Coords::new(0, 0));
    assert_eq!(tile_of(&s, 0, 0).state, TileState::Uncovered);
    assert_eq!(tile_of(&s, 1, 0).state, TileState::Covered(false));
    assert_eq!(s.status(), Status::Playing);
    assert_eq!(s.flags_remaining(), 1);
    s.flag(Coords::new(1, 0));
    assert_eq!(tile_of(&s, 1, 0).state, TileState::Covered(true));
    assert_eq!(s.flags_remaining(), 0);
    assert_eq!(s.status(), Status::Won);
}

#[test]
fn under_flagging_blocks_the_win() {
    // Uncovering every dirt cell alone does not win: the mine must be
    // flagged too.
    let mut s = State::from_grid(board(3, 3, &[(2, 2)]), 1);
    s.dig(Coords::new(0, 0));
    assert_eq!(s.status(), Status::Playing);
    s.flag(Coords::new(2, 2));
    assert_eq!(s.status(), Status::Won);
}

#[test]
fn won_game_is_frozen() {
    let mut s = State::from_grid(board(2, 1, &[(1, 0)]), 1);
    s.dig(Coords::new(0, 0));
    s.flag(Coords::new(1, 0));
    assert_eq!(s.status(), Status::Won);
    let frozen = s.enumerate_tiles();
    s.dig(Coords::new(1, 0));
    s.flag(Coords::new(1, 0));
    s.dig(Coords::new(0, 0));
    s.flag(Coords::new(-5, 17));
    assert_eq!(s.status(), Status::Won);
    assert_eq!(s.flags_remaining(), 0);
    let after = s.enumerate_tiles();
    for (a, b) in frozen.iter().zip(after.iter()) {
        assert_eq!(a.1, b.1);
    }
}

#[test]
fn restart_keeps_shape_and_returns_to_playing() {
    let mut s = seeded(8, 8, 10, 77);
    s.dig(Coords::new(0, 0));
    s.flag(Coords::new(1, 1));
    s.restart();
    assert_eq!(s.status(), Status::Playing);
    assert_eq!(s.flags_remaining(), 10);
    let cfg = s.config();
    assert_eq!(cfg.width, 8);
    assert_eq!(cfg.height, 8);
    assert_eq!(cfg.n_mines, 10);
    assert_eq!(cfg.seed, None);
    let mut mines = 0;
    for (_, t) in s.enumerate_tiles() {
        if t.kind == TileKind::Mine {
            mines += 1;
        }
        assert_ne!(t.state, TileState::Covered(true));
    }
    assert_eq!(mines, 10);
}

#[test]
fn invalid_configs_are_rejected() {
    let bad = [
        Config { width: 0, height: 5, n_mines: 1, seed: None },
        Config { width: 5, height: 0, n_mines: 1, seed: None },
        Config { width: 5, height: 5, n_mines: 0, seed: None },
        Config { width: 5, height: 5, n_mines: 25, seed: None },
        Config { width: 5, height: 5, n_mines: 99, seed: None },
        Config { width: usize::MAX, height: usize::MAX, n_mines: 3, seed: None },
    ];
    for config in bad {
        assert!(State::new(config).is_err());
    }
    let ok = Config { width: 5, height: 5, n_mines: 24, seed: Some(3) };
    assert!(State::new(ok).is_ok());
}

#[test]
fn same_seed_reproduces_the_board() {
    let a = seeded(8, 8, 10, 424242);
    let b = seeded(8, 8, 10, 424242);
    let ta = a.enumerate_tiles();
    let tb = b.enumerate_tiles();
    assert_eq!(ta.len(), tb.len());
    for (x, y) in ta.iter().zip(tb.iter()) {
        assert_eq!(x.1, y.1);
    }
}

#[test]
fn restart_leaves_a_terminal_state() {
    let mut s = State::from_grid(board(2, 1, &[(1, 0)]), 1);
    s.dig(Coords::new(0, 0));
    s.flag(Coords::new(1, 0));
    assert_eq!(s.status(), Status::Won);
    s.restart();
    assert_eq!(s.status(), Status::Playing);
    assert_eq!(s.flags_remaining(), 1);
    assert_eq!(s.config().width, 2);
    assert_eq!(s.config().height, 1);
}

#[test]
fn play_session_defaults() {
    let p = minefield::play::Play::new();
    assert!(!p.boop);
    assert!(p.dirty);
    assert_eq!(p.state.status(), Status::Playing);
    let cfg = p.state.config();
    assert_eq!(cfg.width, minefield::play::GRID_WIDTH);
    assert_eq!(cfg.height, minefield::play::GRID_HEIGHT);
    assert_eq!(cfg.n_mines, minefield::play::N_MINES);
    assert_eq!(p.state.flags_remaining(), minefield::play::N_MINES);
}
