use minefield::board::Board;
use minefield::game::{Game, PlacementError, Tile, TileState, TileValue};
use minefield::placement::{capacity, eligible_cells, SafeZone};

/// Uncovers every tile and returns the values, row by row.
fn uncover_all(g: &mut Game) -> Vec<Vec<TileValue>> {
    let mut rows = Vec::new();
    for y in 0..g.get_height() {
        let mut row = Vec::new();
        for x in 0..g.get_width() {
            row.push(g.uncover(x, y).expect("a fresh tile is hidden"));
        }
        rows.push(row);
    }
    rows
}

fn brute_count(rows: &Vec<Vec<TileValue>>, x: usize, y: usize) -> u8 {
    let h = rows.len() as i64;
    let w = rows[0].len() as i64;
    let mut n = 0;
    for dy in -1i64..=1 {
        for dx in -1i64..=1 {
            if dx == 0 && dy == 0 {
                continue;
            }
            let nx = x as i64 + dx;
            let ny = y as i64 + dy;
            if nx >= 0 && ny >= 0 && nx < w && ny < h && rows[ny as usize][nx as usize] == TileValue::Bomb {
                n += 1;
            }
        }
    }
    n
}

fn check_layout(rows: &Vec<Vec<TileValue>>, bombs: usize) {
    let mut seen = 0;
    for y in 0..rows.len() {
        for x in 0..rows[0].len() {
            match rows[y][x] {
                TileValue::Bomb => seen += 1,
                TileValue::Safe(n) => {
                    assert!(n <= 8);
                    assert_eq!(n, brute_count(rows, x, y));
                }
            }
        }
    }
    assert_eq!(seen, bombs);
}

fn bomb_layout(g: &mut Game) -> Vec<bool> {
    uncover_all(g).into_iter().flatten().map(|v| v == TileValue::Bomb).collect()
}

#[test]
fn board_starts_with_defaults_and_keeps_writes() {
    let mut b: Board<u32> = Board::new(3, 2);
    assert_eq!(b.get_width(), 3);
    assert_eq!(b.get_height(), 2);
    for y in 0..2 {
        for x in 0..3 {
            assert_eq!(*b.get(x, y), 0);
        }
    }
    b.set(2, 1, 7);
    *b.get_mut(0, 1) = 5;
    assert_eq!(*b.get(2, 1), 7);
    assert_eq!(*b.get(0, 1), 5);
    assert_eq!(*b.get(1, 1), 0);
    assert_eq!(*b.get(2, 0), 0);
}

#[test]
fn tile_defaults() {
    assert_eq!(TileValue::default(), TileValue::Safe(0));
    assert_eq!(TileState::default(), TileState::Hidden);
    let t = Tile::default();
    assert_eq!(t.value, TileValue::Safe(0));
    assert_eq!(t.state, TileState::Hidden);
    let u = Tile::new(TileValue::Bomb, TileState::Flag);
    assert_eq!(u.value, TileValue::Bomb);
    assert_eq!(u.state, TileState::Flag);
}

#[test]
fn single_tile_without_bombs() {
    let mut g = Game::new(1, 1, 0).unwrap();
    assert_eq!(g.get(0, 0), (&TileState::Hidden, None));
    assert_eq!(g.uncover(0, 0), Some(TileValue::Safe(0)));
    assert_eq!(g.get(0, 0), (&TileState::Open, Some(&TileValue::Safe(0))));
}

#[test]
fn center_click_on_three_by_three_is_infeasible() {
    assert_eq!(Game::new_safe_zero(3, 3, 1, 1, 1).err(), Some(PlacementError::Infeasible));
    assert_eq!(
        Game::new_safe_zero_seeded(3, 3, 1, 1, 1, 42).err(),
        Some(PlacementError::Infeasible)
    );
    assert!(Game::new_safe_zero(3, 3, 0, 1, 1).is_ok());
}

#[test]
fn too_many_bombs_is_infeasible() {
    assert_eq!(Game::new(2, 2, 5).err(), Some(PlacementError::Infeasible));
    assert_eq!(Game::new_safe(2, 2, 4, 0, 0).err(), Some(PlacementError::Infeasible));
    let mut full = Game::new(2, 2, 4).unwrap();
    check_layout(&uncover_all(&mut full), 4);
    let mut almost = Game::new_safe(2, 2, 3, 1, 0).unwrap();
    let rows = uncover_all(&mut almost);
    assert_eq!(rows[0][1], TileValue::Safe(3));
    check_layout(&rows, 3);
}

#[test]
fn random_layouts_have_exact_bombs_and_counts() {
    for _ in 0..20 {
        let mut g = Game::new(10, 8, 20).unwrap();
        check_layout(&uncover_all(&mut g), 20);
    }
    let mut empty = Game::new(0, 5, 0).unwrap();
    assert_eq!(empty.get_width(), 0);
    assert_eq!(uncover_all(&mut empty).len(), 5);
}

#[test]
fn first_click_is_never_a_bomb() {
    for i in 0..30 {
        let (cx, cy) = (i % 4, i % 3);
        let mut g = Game::new_safe(4, 3, 11, cx, cy).unwrap();
        assert!(matches!(g.uncover(cx, cy), Some(TileValue::Safe(_))));
        let mut h = Game::new_safe(4, 3, 8, cx, cy).unwrap();
        let rows = uncover_all(&mut h);
        assert_ne!(rows[cy][cx], TileValue::Bomb);
        check_layout(&rows, 8);
    }
}

#[test]
fn first_click_opens_a_zero() {
    for i in 0..30 {
        let (cx, cy) = (i % 6, i % 5);
        let mut g = Game::new_safe_zero(6, 5, 10, cx, cy).unwrap();
        let rows = uncover_all(&mut g);
        assert_eq!(rows[cy][cx], TileValue::Safe(0));
        for y in cy.saturating_sub(1)..(cy + 2).min(5) {
            for x in cx.saturating_sub(1)..(cx + 2).min(6) {
                assert_ne!(rows[y][x], TileValue::Bomb);
            }
        }
        check_layout(&rows, 10);
    }
}

#[test]
fn seeded_layouts_repeat() {
    let mut a = Game::new_safe_zero_seeded(30, 16, 99, 5, 5, 1234).unwrap();
    let mut b = Game::new_safe_zero_seeded(30, 16, 99, 5, 5, 1234).unwrap();
    let mut c = Game::new_safe_zero_seeded(30, 16, 99, 5, 5, 4321).unwrap();
    let la = bomb_layout(&mut a);
    assert_eq!(la, bomb_layout(&mut b));
    assert_ne!(la, bomb_layout(&mut c));
    let mut d = Game::new_safe_zero_seeded(30, 16, 99, 5, 5, 1234).unwrap();
    let rows = uncover_all(&mut d);
    assert_eq!(rows[5][5], TileValue::Safe(0));
    check_layout(&rows, 99);
}

#[test]
fn uncover_opens_once() {
    let mut g = Game::from_draws(3, 1, SafeZone::Nowhere, &vec![1]);
    assert_eq!(g.uncover(0, 0), Some(TileValue::Safe(1)));
    assert_eq!(g.get(0, 0), (&TileState::Open, Some(&TileValue::Safe(1))));
    assert_eq!(g.uncover(0, 0), None);
    assert_eq!(g.get(0, 0), (&TileState::Open, Some(&TileValue::Safe(1))));
    assert_eq!(g.uncover(1, 0), Some(TileValue::Bomb));
    assert_eq!(g.uncover(1, 0), None);
}

#[test]
fn flag_toggles_and_open_tiles_ignore_it() {
    let mut g = Game::from_draws(3, 1, SafeZone::Nowhere, &vec![1]);
    g.flag(0, 0);
    assert_eq!(g.get(0, 0), (&TileState::Flag, None));
    assert_eq!(g.uncover(0, 0), None);
    assert_eq!(g.get(0, 0), (&TileState::Flag, None));
    g.flag(0, 0);
    assert_eq!(g.get(0, 0), (&TileState::Hidden, None));
    g.uncover(0, 0);
    g.flag(0, 0);
    assert_eq!(g.get(0, 0), (&TileState::Open, Some(&TileValue::Safe(1))));
}

#[test]
fn set_flag_sets_directly() {
    let mut g = Game::from_draws(3, 1, SafeZone::Nowhere, &vec![1]);
    g.set_flag(2, 0, true);
    assert_eq!(g.get(2, 0), (&TileState::Flag, None));
    g.set_flag(2, 0, true);
    assert_eq!(g.get(2, 0), (&TileState::Flag, None));
    g.set_flag(2, 0, false);
    assert_eq!(g.get(2, 0), (&TileState::Hidden, None));
    g.set_flag(2, 0, false);
    assert_eq!(g.get(2, 0), (&TileState::Hidden, None));
    g.uncover(2, 0);
    g.set_flag(2, 0, true);
    assert_eq!(g.get(2, 0), (&TileState::Open, Some(&TileValue::Safe(1))));
    g.set_flag(2, 0, false);
    assert_eq!(g.get(2, 0), (&TileState::Open, Some(&TileValue::Safe(1))));
}

#[test]
fn get_hides_values_until_open() {
    let mut g = Game::from_draws(3, 1, SafeZone::Nowhere, &vec![1]);
    assert_eq!(g.get(1, 0), (&TileState::Hidden, None));
    g.flag(1, 0);
    assert_eq!(g.get(1, 0), (&TileState::Flag, None));
    g.flag(1, 0);
    g.uncover(1, 0);
    assert_eq!(g.get(1, 0), (&TileState::Open, Some(&TileValue::Bomb)));
}

#[test]
fn draws_pick_among_free_cells() {
    // Cells 0, 1, 2: the first draw takes cell 2, leaving 0 and 1; the second takes cell 0.
    let mut g = Game::from_draws(3, 1, SafeZone::Nowhere, &vec![2, 0]);
    let rows = uncover_all(&mut g);
    assert_eq!(rows[0], vec![TileValue::Bomb, TileValue::Safe(2), TileValue::Bomb]);
    // On a 3 by 2 grid with (0, 0) and its neighbours kept clear, cell 2 of row 0 is the only choice.
    let mut h = Game::from_draws(3, 2, SafeZone::Around(0, 0), &vec![0]);
    let rows = uncover_all(&mut h);
    assert_eq!(rows[0], vec![TileValue::Safe(0), TileValue::Safe(1), TileValue::Bomb]);
    assert_eq!(rows[1], vec![TileValue::Safe(0), TileValue::Safe(1), TileValue::Safe(1)]);
}

#[test]
fn capacity_counts_allowed_cells() {
    assert_eq!(capacity(3, 3, SafeZone::Around(1, 1)), 0);
    assert_eq!(capacity(4, 4, SafeZone::Around(0, 0)), 12);
    assert_eq!(capacity(4, 4, SafeZone::Cell(1, 2)), 15);
    assert_eq!(capacity(4, 4, SafeZone::Cell(5, 5)), 16);
    assert_eq!(capacity(4, 4, SafeZone::Nowhere), 16);
    assert_eq!(eligible_cells(3, 2, SafeZone::Cell(1, 0)), vec![0, 2, 3, 4, 5]);
    assert_eq!(eligible_cells(0, 7, SafeZone::Nowhere), Vec::<usize>::new());
}

#[test]
fn zone_allows() {
    assert!(SafeZone::Nowhere.allows(3, 3));
    assert!(!SafeZone::Cell(2, 1).allows(2, 1));
    assert!(SafeZone::Cell(2, 1).allows(1, 2));
    assert!(!SafeZone::Around(2, 2).allows(1, 3));
    assert!(SafeZone::Around(2, 2).allows(0, 2));
    assert!(SafeZone::Around(2, 2).allows(2, 4));
}
