use minesweeper::{
    expand_surrounding_0s, generate_board, is_win, minesweeper, place_mines, process_move,
    reveal_tile, MoveError, RevealOutcome,
};

fn grid(s: &str) -> Vec<char> {
    s.chars().filter(|c| !c.is_whitespace()).collect()
}

fn scenario_solution() -> Vec<char> {
    minesweeper(&grid("----- ----- XX--- ----- ----X")).unwrap()
}

#[test]
fn revealing_a_corner_zero_floods_the_top() {
    let solution = scenario_solution();
    let mut board = vec!['-'; 25];
    assert_eq!(reveal_tile(&mut board, &solution, 0), RevealOutcome::RevealedSafe);
    assert_eq!(board, grid("00000 22100 --100 --111 -----"));
}

#[test]
fn revealing_the_lower_zeros_stops_at_their_border() {
    let solution = scenario_solution();
    let mut board = vec!['-'; 25];
    assert_eq!(reveal_tile(&mut board, &solution, 20), RevealOutcome::RevealedSafe);
    assert_eq!(board, grid("----- ----- ----- 2211- 0001-"));
}

#[test]
fn revealing_a_count_uncovers_only_that_cell() {
    let solution = scenario_solution();
    let mut board = vec!['-'; 25];
    assert_eq!(reveal_tile(&mut board, &solution, 5), RevealOutcome::RevealedSafe);
    assert_eq!(board, grid("----- 2---- ----- ----- -----"));
}

#[test]
fn revealing_a_mine_reports_it() {
    let solution = scenario_solution();
    let mut board = vec!['-'; 25];
    assert_eq!(reveal_tile(&mut board, &solution, 24), RevealOutcome::HitMine);
    assert_eq!(board, grid("----- ----- ----- ----- ----X"));
}

#[test]
fn revealing_an_uncovered_cell_changes_nothing() {
    let solution = scenario_solution();
    let mut board = grid("0---- ----- ----- ----- -----");
    assert_eq!(reveal_tile(&mut board, &solution, 0), RevealOutcome::RevealedSafe);
    assert_eq!(board, grid("0---- ----- ----- ----- -----"));
}

#[test]
fn flood_follows_the_north_west_diagonal() {
    let solution = grid("011 101 111");
    let mut board = vec!['-'; 9];
    assert_eq!(reveal_tile(&mut board, &solution, 4), RevealOutcome::RevealedSafe);
    assert_eq!(board, solution);
}

#[test]
fn expansion_from_an_uncovered_zero() {
    let solution = grid("000 011 01X");
    let mut board = grid("0-- --- ---");
    assert_eq!(expand_surrounding_0s(&mut board, &solution, 3, 0), 5);
    assert_eq!(board, grid("000 011 01-"));
}

#[test]
fn expansion_scans_each_zero_once() {
    let solution = minesweeper(&vec!['-'; 16]).unwrap();
    let mut board = vec!['-'; 16];
    board[5] = '0';
    assert_eq!(expand_surrounding_0s(&mut board, &solution, 4, 5), 16);
    assert_eq!(board, solution);
}

#[test]
fn flood_on_an_empty_board_uncovers_everything() {
    let solution = minesweeper(&vec!['-'; 25]).unwrap();
    let mut board = vec!['-'; 25];
    reveal_tile(&mut board, &solution, 12);
    assert_eq!(board, solution);
    assert!(is_win(&board, &solution));
}

#[test]
fn win_needs_every_safe_cell() {
    let solution = scenario_solution();
    let mut board = vec!['-'; 25];
    assert!(!is_win(&board, &solution));
    reveal_tile(&mut board, &solution, 0);
    assert!(!is_win(&board, &solution));
    reveal_tile(&mut board, &solution, 20);
    assert!(is_win(&board, &solution));
    assert_eq!(board, grid("00000 22100 --100 22111 0001-"));
}

#[test]
fn win_allows_uncovered_mines_but_not_wrong_values() {
    let solution = grid("X1 11");
    assert!(is_win(&grid("-1 11"), &solution));
    assert!(is_win(&grid("X1 11"), &solution));
    assert!(!is_win(&grid("21 11"), &solution));
    assert!(!is_win(&grid("-1 1-"), &solution));
    assert!(!is_win(&grid("-1 1"), &solution));
}

#[test]
fn moves_are_one_based_and_bounded() {
    let solution = scenario_solution();
    let mut board = vec!['-'; 25];
    assert_eq!(process_move(&mut board, &solution, 0, 1), Err(MoveError::OutOfBounds));
    assert_eq!(process_move(&mut board, &solution, 1, 0), Err(MoveError::OutOfBounds));
    assert_eq!(process_move(&mut board, &solution, 6, 1), Err(MoveError::OutOfBounds));
    assert_eq!(process_move(&mut board, &solution, 1, 6), Err(MoveError::OutOfBounds));
    assert_eq!(board, vec!['-'; 25]);
    assert_eq!(process_move(&mut board, &solution, 2, 3), Ok(RevealOutcome::HitMine));
    assert_eq!(board[11], 'X');
    assert_eq!(process_move(&mut board, &solution, 5, 4), Ok(RevealOutcome::RevealedSafe));
    assert_eq!(board[19], '1');
}

#[test]
fn placed_mines_land_where_asked() {
    assert_eq!(place_mines(3, &vec![0, 4, 4, 8]), grid("X--- X---X"));
    assert_eq!(place_mines(2, &vec![]), grid("----"));
    assert_eq!(place_mines(0, &vec![]), Vec::<char>::new());
}

#[test]
fn generated_boards_hold_at_most_the_mines_asked() {
    for _ in 0..20 {
        let board = generate_board(5, 3);
        assert_eq!(board.len(), 25);
        let mines = board.iter().filter(|c| **c == 'X').count();
        assert!(mines >= 1 && mines <= 3);
        assert!(board.iter().all(|c| *c == 'X' || *c == '-'));
    }
    assert_eq!(generate_board(4, 0), vec!['-'; 16]);
    assert_eq!(generate_board(0, 5), Vec::<char>::new());
    assert_eq!(generate_board(1, 2), vec!['X']);
}
