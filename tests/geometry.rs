use minesweeper::{calculate_mine_count, neighbor_index, square_width, try_get_tile};

#[test]
fn square_widths() {
    assert_eq!(square_width(0), Some(0));
    assert_eq!(square_width(1), Some(1));
    assert_eq!(square_width(25), Some(5));
    assert_eq!(square_width(49), Some(7));
    assert_eq!(square_width(20), None);
    assert_eq!(square_width(2), None);
    assert_eq!(square_width(65536), Some(256));
    assert_eq!(square_width(65537), None);
}

#[test]
fn neighbor_indices_on_a_five_by_five_grid() {
    // centre cell (row 2, column 2)
    assert_eq!(neighbor_index(5, 12, 0, -1), Some(7));
    assert_eq!(neighbor_index(5, 12, 1, -1), Some(8));
    assert_eq!(neighbor_index(5, 12, 1, 0), Some(13));
    assert_eq!(neighbor_index(5, 12, 1, 1), Some(18));
    assert_eq!(neighbor_index(5, 12, 0, 1), Some(17));
    assert_eq!(neighbor_index(5, 12, -1, 1), Some(16));
    assert_eq!(neighbor_index(5, 12, -1, 0), Some(11));
    assert_eq!(neighbor_index(5, 12, -1, -1), Some(6));
    // corners and edges clip
    assert_eq!(neighbor_index(5, 0, -1, 0), None);
    assert_eq!(neighbor_index(5, 0, 0, -1), None);
    assert_eq!(neighbor_index(5, 4, 1, 0), None);
    assert_eq!(neighbor_index(5, 20, 0, 1), None);
    assert_eq!(neighbor_index(5, 24, 1, 1), None);
    assert_eq!(neighbor_index(5, 5, -1, 0), None);
    assert_eq!(neighbor_index(5, 9, 1, 0), None);
}

#[test]
fn tiles_off_the_grid_read_empty() {
    let g: Vec<char> = "XXXXXXXXX".chars().collect();
    assert_eq!(try_get_tile(&g, 3, 0, -1, -1), '-');
    assert_eq!(try_get_tile(&g, 3, 0, 1, 1), 'X');
    assert_eq!(try_get_tile(&g, 3, 8, 1, 0), '-');
}

#[test]
fn mine_counts() {
    let g: Vec<char> = "X-X-X-X-X".chars().collect();
    assert_eq!(calculate_mine_count(&g, 3, 4), 4);
    assert_eq!(calculate_mine_count(&g, 3, 1), 3);
    assert_eq!(calculate_mine_count(&g, 3, 0), 1);
}
