use game_of_life::GameOfLife;

fn live_cells(grid: &GameOfLife) -> Vec<(usize, usize)> {
    let mut cells = Vec::new();
    for y in 0..grid.height() {
        for x in 0..grid.width() {
            if grid.is_alive(x, y) {
                cells.push((x, y));
            }
        }
    }
    cells
}

fn grid_with(width: usize, height: usize, cells: &[(usize, usize)]) -> GameOfLife {
    let mut grid = GameOfLife::new(width, height);
    for &(x, y) in cells {
        grid.set_alive(x, y, true);
    }
    grid
}

fn snapshot(grid: &GameOfLife) -> Vec<Vec<bool>> {
    (0..grid.height())
        .map(|y| (0..grid.width()).map(|x| grid.is_alive(x, y)).collect())
        .collect()
}

/// One generation computed cell by cell, with explicit bounds checks.
fn naive_step(board: &[Vec<bool>]) -> Vec<Vec<bool>> {
    let height = board.len() as i64;
    let width = board[0].len() as i64;
    let mut next = vec![vec![false; width as usize]; height as usize];
    for y in 0..height {
        for x in 0..width {
            let mut neighbours = 0;
            for dy in -1i64..=1 {
                for dx in -1i64..=1 {
                    if dx == 0 && dy == 0 {
                        continue;
                    }
                    let (nx, ny) = (x + dx, y + dy);
                    if nx >= 0 && nx < width && ny >= 0 && ny < height
                        && board[ny as usize][nx as usize]
                    {
                        neighbours += 1;
                    }
                }
            }
            let alive = board[y as usize][x as usize];
            next[y as usize][x as usize] = neighbours == 3 || (alive && neighbours == 2);
        }
    }
    next
}

fn sorted(mut cells: Vec<(usize, usize)>) -> Vec<(usize, usize)> {
    cells.sort();
    cells
}

#[test]
fn new_grid_is_all_dead() {
    let grid = GameOfLife::new(130, 7);
    assert_eq!(grid.width(), 130);
    assert_eq!(grid.height(), 7);
    assert!(live_cells(&grid).is_empty());
    assert_eq!(grid.parity(), 0);
}

#[test]
fn dead_grid_stays_dead() {
    let mut grid = GameOfLife::new(63, 5);
    grid.tick();
    assert!(live_cells(&grid).is_empty());
    assert_eq!(grid.parity(), 0);
}

#[test]
fn set_alive_sets_and_clears_one_cell() {
    let mut grid = GameOfLife::new(125, 4);
    grid.set_alive(61, 2, true);
    grid.set_alive(62, 3, true);
    grid.set_alive(124, 0, true);
    assert_eq!(sorted(live_cells(&grid)), vec![(61, 2), (62, 3), (124, 0)]);
    grid.set_alive(62, 3, false);
    grid.set_alive(0, 0, false);
    assert_eq!(sorted(live_cells(&grid)), vec![(61, 2), (124, 0)]);
}

#[test]
fn set_alive_stores_cell_k_in_bit_k_plus_one() {
    let mut grid = GameOfLife::new(62, 1);
    grid.set_alive(0, 0, true);
    assert_eq!(grid.parity(), 0b10);
    grid.set_alive(61, 0, true);
    assert_eq!(grid.parity(), 1 << 62 | 0b10);
}

#[test]
fn set_word_stores_lanes_and_drops_halo_bits() {
    let mut grid = GameOfLife::new(124, 2);
    grid.set_word(1, 1, u64::MAX);
    for x in 0..124 {
        assert_eq!(grid.is_alive(x, 1), x >= 62);
        assert!(!grid.is_alive(x, 0));
    }
    assert_eq!(grid.parity(), 0x7FFF_FFFF_FFFF_FFFE);
}

#[test]
fn set_word_drops_lanes_beyond_the_width() {
    let mut grid = GameOfLife::new(70, 3);
    grid.set_word(1, 2, u64::MAX);
    grid.set_word(0, 0, 0b1011);
    assert_eq!(grid.parity(), 0b1_1111_1110 ^ 0b1010);
    assert_eq!(
        sorted(live_cells(&grid)),
        vec![(0, 0), (2, 0), (62, 2), (63, 2), (64, 2), (65, 2), (66, 2), (67, 2), (68, 2), (69, 2)]
    );
}

#[test]
fn set_word_replaces_what_the_word_held() {
    let mut grid = GameOfLife::new(10, 1);
    grid.set_word(0, 0, 0b1111_0);
    grid.set_word(0, 0, 0b0101_0);
    assert_eq!(live_cells(&grid), vec![(0, 0), (2, 0)]);
}

#[test]
fn block_is_still() {
    let block = [(5, 5), (6, 5), (5, 6), (6, 6)];
    let mut grid = grid_with(20, 12, &block);
    for _ in 0..10 {
        grid.tick();
        assert_eq!(sorted(live_cells(&grid)), sorted(block.to_vec()));
    }
}

#[test]
fn block_across_two_packed_columns_is_still() {
    let block = [(61, 3), (62, 3), (61, 4), (62, 4)];
    let mut grid = grid_with(130, 8, &block);
    for _ in 0..10 {
        grid.tick();
        assert_eq!(sorted(live_cells(&grid)), sorted(block.to_vec()));
    }
}

#[test]
fn blinker_has_period_two() {
    let flat = [(4, 5), (5, 5), (6, 5)];
    let upright = [(5, 4), (5, 5), (5, 6)];
    let mut grid = grid_with(11, 11, &flat);
    grid.tick();
    assert_eq!(sorted(live_cells(&grid)), sorted(upright.to_vec()));
    grid.tick();
    assert_eq!(sorted(live_cells(&grid)), sorted(flat.to_vec()));
}

#[test]
fn blinker_across_two_packed_columns_has_period_two() {
    let flat = [(61, 5), (62, 5), (63, 5)];
    let upright = [(62, 4), (62, 5), (62, 6)];
    let mut grid = grid_with(200, 11, &flat);
    grid.tick();
    assert_eq!(sorted(live_cells(&grid)), sorted(upright.to_vec()));
    grid.tick();
    assert_eq!(sorted(live_cells(&grid)), sorted(flat.to_vec()));
}

#[test]
fn glider_moves_one_cell_diagonally_in_four_generations() {
    let glider = [(1, 0), (2, 1), (0, 2), (1, 2), (2, 2)];
    let mut grid = grid_with(80, 20, &glider);
    grid.advance(4);
    let moved: Vec<(usize, usize)> = glider.iter().map(|&(x, y)| (x + 1, y + 1)).collect();
    assert_eq!(sorted(live_cells(&grid)), sorted(moved));
}

#[test]
fn glider_crosses_from_one_packed_column_into_the_next() {
    let glider = [(58, 0), (59, 1), (57, 2), (58, 2), (59, 2)];
    let mut grid = grid_with(80, 20, &glider);
    grid.advance(4 * 6);
    let moved: Vec<(usize, usize)> = glider.iter().map(|&(x, y)| (x + 6, y + 6)).collect();
    assert_eq!(sorted(live_cells(&grid)), sorted(moved));
}

#[test]
fn cells_on_the_border_see_a_dead_outside() {
    // A full 3x3 grid: the corners have three neighbours and live, the rest
    // are overcrowded.
    let mut grid = GameOfLife::new(3, 3);
    for y in 0..3 {
        for x in 0..3 {
            grid.set_alive(x, y, true);
        }
    }
    grid.tick();
    assert_eq!(sorted(live_cells(&grid)), vec![(0, 0), (0, 2), (2, 0), (2, 2)]);
}

#[test]
fn single_cell_grid_dies() {
    let mut grid = grid_with(1, 1, &[(0, 0)]);
    grid.tick();
    assert!(!grid.is_alive(0, 0));
    assert_eq!(grid.parity(), 0);
}

#[test]
fn one_row_grid_keeps_only_the_middle_of_a_triple() {
    let mut grid = grid_with(64, 1, &[(60, 0), (61, 0), (62, 0)]);
    grid.tick();
    assert_eq!(live_cells(&grid), vec![(61, 0)]);
}

#[test]
fn width_seventy_never_fills_its_padding_lanes() {
    // Three cells stacked in the last valid column would give birth to a
    // cell at x = 70 if the grid went on.
    let mut grid = grid_with(70, 5, &[(69, 1), (69, 2), (69, 3)]);
    grid.tick();
    assert_eq!(sorted(live_cells(&grid)), vec![(68, 2), (69, 2)]);
    // Column 0 holds x = 68 in no lane; the second column holds lanes 7 and 8.
    assert_eq!(grid.parity(), 0b1_1000_0000);
    grid.tick();
    assert!(live_cells(&grid).is_empty());
    assert_eq!(grid.parity(), 0);
}

#[test]
fn width_seventy_carries_influence_across_the_packed_column_boundary() {
    // x = 61 is the last lane of the first packed column, x = 62 the first
    // of the second.
    let mut grid = grid_with(70, 5, &[(61, 1), (61, 2), (61, 3)]);
    grid.tick();
    assert_eq!(sorted(live_cells(&grid)), vec![(60, 2), (61, 2), (62, 2)]);
    grid.tick();
    assert_eq!(sorted(live_cells(&grid)), vec![(61, 1), (61, 2), (61, 3)]);

    let mut grid = grid_with(70, 5, &[(62, 1), (62, 2), (62, 3)]);
    grid.tick();
    assert_eq!(sorted(live_cells(&grid)), vec![(61, 2), (62, 2), (63, 2)]);
}

#[test]
fn width_of_exactly_one_packed_column_uses_every_lane() {
    let mut grid = grid_with(62, 3, &[(61, 0), (61, 1), (61, 2)]);
    grid.tick();
    assert_eq!(sorted(live_cells(&grid)), vec![(60, 1), (61, 1)]);
    assert_eq!(grid.parity(), 0b11 << 61);
}

#[test]
fn width_of_exactly_two_packed_columns_uses_every_lane() {
    let mut grid = grid_with(124, 3, &[(123, 0), (123, 1), (123, 2), (61, 1), (62, 1), (63, 1)]);
    grid.tick();
    assert_eq!(
        sorted(live_cells(&grid)),
        vec![(62, 0), (62, 1), (62, 2), (122, 1), (123, 1)]
    );
}

#[test]
fn tick_matches_a_cell_by_cell_reference_on_random_grids() {
    for &(width, height, seed) in &[
        (1usize, 1usize, 1u128),
        (1, 9, 2),
        (9, 1, 3),
        (61, 4, 4),
        (62, 5, 5),
        (63, 6, 6),
        (70, 7, 7),
        (124, 8, 8),
        (125, 3, 9),
        (200, 13, 10),
        (130, 1, 11),
        (187, 2, 12),
        (248, 5, 13),
    ] {
        let mut grid = GameOfLife::new(width, height);
        grid.randomize(seed);
        let mut expected = snapshot(&grid);
        for generation in 0..12 {
            grid.tick();
            expected = naive_step(&expected);
            assert_eq!(snapshot(&grid), expected, "{width}x{height}, generation {generation}");
        }
    }
}

#[test]
fn advance_is_repeated_tick() {
    let mut stepped = GameOfLife::new(90, 9);
    stepped.randomize(42);
    let mut advanced = GameOfLife::new(90, 9);
    advanced.randomize(42);
    for _ in 0..5 {
        stepped.tick();
    }
    advanced.advance(5);
    assert_eq!(snapshot(&stepped), snapshot(&advanced));
    assert_eq!(stepped.parity(), advanced.parity());
    advanced.advance(0);
    assert_eq!(snapshot(&stepped), snapshot(&advanced));
}

#[test]
fn parity_is_the_exclusive_or_of_the_words() {
    let mut grid = GameOfLife::new(70, 2);
    grid.set_word(0, 0, 0b0110);
    grid.set_word(0, 1, 0b1100);
    grid.set_word(1, 0, 0b1000);
    grid.set_word(1, 1, 0b10000);
    assert_eq!(grid.parity(), 0b0110 ^ 0b1100 ^ 0b1000 ^ 0b10000);
}

#[test]
fn try_new_refuses_zero_and_unaddressable_sizes() {
    assert!(GameOfLife::try_new(0, 5).is_none());
    assert!(GameOfLife::try_new(5, 0).is_none());
    assert!(GameOfLife::try_new(0, 0).is_none());
    assert!(GameOfLife::try_new(usize::MAX, usize::MAX).is_none());
    assert!(GameOfLife::try_new(63, usize::MAX / 2 + 1).is_none());
    let grid = GameOfLife::try_new(63, 2).unwrap();
    assert_eq!((grid.width(), grid.height()), (63, 2));
    assert!(live_cells(&grid).is_empty());
}
