use mnswpr::board::{neighbours, Board, TileState, MINE_COUNT, SIDE, THE_BOMB};

fn layout(mines: &[(usize, usize)]) -> Vec<bool> {
    let mut v = vec![false; 64];
    for &(x, y) in mines {
        v[x * 8 + y] = true;
    }
    v
}

fn true_count(b: &Board, x: usize, y: usize) -> i8 {
    let mut c = 0;
    for a in 0..8i32 {
        for d in 0..8i32 {
            let (dx, dy) = (a - x as i32, d - y as i32);
            if (dx != 0 || dy != 0) && dx.abs() <= 1 && dy.abs() <= 1 && b.is_mine(a as usize, d as usize) {
                c += 1;
            }
        }
    }
    c
}

#[test]
fn generated_board_has_sixteen_mines_and_true_counts() {
    for _ in 0..50 {
        let b = Board::generate();
        let mut mines = 0;
        for x in 0..SIDE {
            for y in 0..SIDE {
                assert_eq!(b.tile(x, y), TileState::Concealed);
                if b.is_mine(x, y) {
                    mines += 1;
                    assert_eq!(b.adjacency(x, y), THE_BOMB);
                } else {
                    assert_eq!(b.adjacency(x, y), true_count(&b, x, y));
                }
            }
        }
        assert_eq!(mines, MINE_COUNT);
        assert!(!b.is_won());
    }
}

#[test]
fn counts_from_a_layout() {
    let b = Board::with_mines(&layout(&[(0, 0), (0, 1), (1, 0)]));
    assert_eq!(b.adjacency(1, 1), 3);
    assert_eq!(b.adjacency(0, 2), 1);
    assert_eq!(b.adjacency(2, 2), 0);
    assert_eq!(b.adjacency(0, 0), THE_BOMB);
    assert_eq!(b.adjacency(7, 7), 0);
}

#[test]
fn neighbours_of_corner_edge_and_middle() {
    assert_eq!(neighbours(0, 0), vec![(0, 1), (1, 0), (1, 1)]);
    assert_eq!(neighbours(0, 4), vec![(0, 3), (0, 5), (1, 3), (1, 4), (1, 5)]);
    assert_eq!(neighbours(7, 7), vec![(6, 6), (6, 7), (7, 6)]);
    assert_eq!(neighbours(3, 3), vec![(2, 2), (2, 3), (2, 4), (3, 2), (3, 4), (4, 2), (4, 3), (4, 4)]);
}

#[test]
fn draws_pick_the_kth_free_cell() {
    let draws: Vec<usize> = vec![0; 16];
    let b = Board::from_draws(&draws);
    for i in 0..64 {
        assert_eq!(b.is_mine(i / 8, i % 8), i < 16);
    }
    let draws: Vec<usize> = (0..16).map(|j| 63 - j).collect();
    let b = Board::from_draws(&draws);
    for i in 0..64 {
        assert_eq!(b.is_mine(i / 8, i % 8), i >= 48);
    }
    let mut draws: Vec<usize> = vec![0; 16];
    draws[0] = 10;
    draws[1] = 10;
    let b = Board::from_draws(&draws);
    assert!(b.is_mine(1, 2));
    assert!(b.is_mine(1, 3));
    assert!(b.is_mine(0, 0));
    assert!(b.is_mine(1, 7));
    assert!(b.is_mine(1, 4));
    assert!(!b.is_mine(2, 0));
    assert_eq!(b.adjacency(2, 0), 2);
}

#[test]
fn open_floods_from_a_stepped_zero_cell() {
    let mut b = Board::with_mines(&layout(&[(7, 7)]));
    b.toggle_flag(0, 0);
    b.toggle_flag(0, 0);
    assert!(!b.step_on(0, 0));
    let mut c = Board::with_mines(&layout(&[(7, 7)]));
    assert!(!c.step_on(5, 5));
    c.open(5, 5);
    for x in 0..8 {
        for y in 0..8 {
            assert_eq!(b.tile(x, y), c.tile(x, y));
        }
    }
}

#[test]
fn flood_stops_at_the_numbered_border() {
    let mines: Vec<(usize, usize)> = (0..8).map(|x| (x, 3)).collect();
    let mut b = Board::with_mines(&layout(&mines));
    assert!(!b.step_on(0, 0));
    for x in 0..8 {
        for y in 0..3 {
            assert_eq!(b.tile(x, y), TileState::Stepped);
        }
        for y in 3..8 {
            assert_eq!(b.tile(x, y), TileState::Concealed);
        }
    }
}

#[test]
fn flood_opens_whole_board_around_one_mine() {
    let mut b = Board::with_mines(&layout(&[(7, 7)]));
    assert!(!b.step_on(0, 0));
    for x in 0..8 {
        for y in 0..8 {
            let want = if (x, y) == (7, 7) { TileState::Concealed } else { TileState::Stepped };
            assert_eq!(b.tile(x, y), want);
        }
    }
    assert!(b.is_won());
}

#[test]
fn flood_leaves_flags_alone() {
    let mut b = Board::with_mines(&layout(&[(7, 7)]));
    b.flag(3, 3);
    assert!(!b.step_on(0, 0));
    assert_eq!(b.tile(3, 3), TileState::Flagged);
    assert_eq!(b.tile(4, 4), TileState::Stepped);
    assert!(!b.is_won());
}

#[test]
fn numbered_cell_opens_alone() {
    let mut b = Board::with_mines(&layout(&[(0, 0)]));
    assert!(!b.step_on(1, 1));
    assert_eq!(b.tile(1, 1), TileState::Stepped);
    assert_eq!(b.tile(2, 2), TileState::Concealed);
}

#[test]
fn stepping_a_mine_detonates_it_and_shows_the_rest() {
    let mut b = Board::with_mines(&layout(&[(0, 0), (4, 4), (7, 7)]));
    assert!(b.step_on(4, 4));
    assert_eq!(b.tile(4, 4), TileState::Detonated);
    assert_eq!(b.tile(0, 0), TileState::Revealed);
    assert_eq!(b.tile(7, 7), TileState::Revealed);
    assert_eq!(b.tile(1, 1), TileState::Concealed);
    assert!(!b.is_won());
}

#[test]
fn stepping_an_open_tile_does_nothing() {
    let mut b = Board::with_mines(&layout(&[(0, 0)]));
    b.flag(0, 0);
    assert!(!b.step_on(0, 0));
    assert_eq!(b.tile(0, 0), TileState::Flagged);
}

#[test]
fn toggle_twice_restores_concealed() {
    let mut b = Board::with_mines(&layout(&[(0, 0)]));
    b.toggle_flag(2, 5);
    assert_eq!(b.tile(2, 5), TileState::Flagged);
    b.toggle_flag(2, 5);
    assert_eq!(b.tile(2, 5), TileState::Concealed);
}

#[test]
fn flag_and_unflag_only_where_they_apply() {
    let mut b = Board::with_mines(&layout(&[(0, 0)]));
    b.unflag(1, 1);
    assert_eq!(b.tile(1, 1), TileState::Concealed);
    b.flag(1, 1);
    b.flag(1, 1);
    assert_eq!(b.tile(1, 1), TileState::Flagged);
    b.unflag(1, 1);
    assert_eq!(b.tile(1, 1), TileState::Concealed);
    b.step_on(1, 1);
    b.flag(1, 1);
    b.toggle_flag(1, 1);
    assert_eq!(b.tile(1, 1), TileState::Stepped);
}

#[test]
fn all_bombs_skips_the_given_cell() {
    let mut b = Board::with_mines(&layout(&[(0, 0), (5, 5)]));
    b.all_bombs(0, TileState::Detonated);
    assert_eq!(b.tile(0, 0), TileState::Concealed);
    assert_eq!(b.tile(5, 5), TileState::Detonated);
    assert!(b.any_detonated());
}

#[test]
fn win_needs_every_safe_cell_and_no_detonation() {
    let mut b = Board::with_mines(&layout(&[(0, 0)]));
    assert!(!b.is_won());
    assert!(!b.all_closed_or_flagged_tiles_are_mines());
    b.step_on(7, 7);
    assert!(b.all_closed_or_flagged_tiles_are_mines());
    assert!(b.is_won());
    assert!(!b.any_detonated());
}
