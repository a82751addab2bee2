use game_of_life::GameOfLife;

fn picture(grid: &GameOfLife) -> String {
    grid.render().into_iter().collect()
}

#[test]
fn picture_of_a_dead_grid_is_an_empty_frame() {
    let grid = GameOfLife::new(3, 2);
    assert_eq!(picture(&grid), "┌───┐\n│   │\n│   │\n└───┘\n");
}

#[test]
fn picture_shows_live_cells_as_full_blocks() {
    let mut grid = GameOfLife::new(4, 3);
    grid.set_alive(0, 0, true);
    grid.set_alive(3, 1, true);
    grid.set_alive(1, 2, true);
    grid.set_alive(2, 2, true);
    assert_eq!(picture(&grid), "┌────┐\n│█   │\n│   █│\n│ ██ │\n└────┘\n");
}

#[test]
fn picture_of_a_single_cell() {
    let mut grid = GameOfLife::new(1, 1);
    grid.set_alive(0, 0, true);
    assert_eq!(picture(&grid), "┌─┐\n│█│\n└─┘\n");
}

#[test]
fn picture_spans_packed_columns() {
    let mut grid = GameOfLife::new(64, 1);
    grid.set_alive(61, 0, true);
    grid.set_alive(62, 0, true);
    let text = picture(&grid);
    let rows: Vec<&str> = text.lines().collect();
    assert_eq!(rows.len(), 3);
    let cells: Vec<char> = rows[1].chars().collect();
    assert_eq!(cells.len(), 66);
    for (k, &c) in cells[1..65].iter().enumerate() {
        assert_eq!(c == '█', k == 61 || k == 62);
    }
    assert_eq!(rows[0].chars().count(), 66);
    assert_eq!(rows[2].chars().count(), 66);
}
