use minesweeper::{minesweeper, BoardError};

fn grid(s: &str) -> Vec<char> {
    s.chars().filter(|c| !c.is_whitespace()).collect()
}

#[test]
fn test_valid_board_1() {
    let input: Vec<char> = vec![
        '-', '-', '-', '-', '-',
        '-', '-', '-', '-', '-',
        'X', 'X', '-', '-', '-',
        '-', '-', '-', '-', '-',
        '-', '-', '-', '-', 'X'
    ];

    assert_eq!(minesweeper(&input).unwrap(),
    [
        '0', '0', '0', '0', '0',
        '2', '2', '1', '0', '0',
        'X', 'X', '1', '0', '0',
        '2', '2', '1', '1', '1',
        '0', '0', '0', '1', 'X'
    ]);
}

#[test]
fn test_valid_board_2() {
    let input: Vec<char> = vec![
        '-', 'X', '-', '-', '-',
        '-', '-', 'X', '-', '-',
        'X', 'X', '-', '-', '-',
        '-', '-', 'X', '-', '-',
        '-', '-', 'X', '-', 'X'
    ];

    assert_eq!(minesweeper(&input).unwrap(),
    [
        '1', 'X', '2', '1', '0',
        '3', '4', 'X', '1', '0',
        'X', 'X', '3', '2', '0',
        '2', '4', 'X', '3', '1',
        '0', '2', 'X', '3', 'X'
    ]);
}

#[test]
fn test_valid_board_3() {
    let input: Vec<char> = vec![
        '-', '-', '-', '-', '-',
        '-', '-', '-', '-', '-',
        '-', '-', '-', '-', '-',
        '-', '-', '-', '-', '-',
        '-', '-', '-', '-', '-'
    ];

    assert_eq!(minesweeper(&input).unwrap(),
    [
        '0', '0', '0', '0', '0',
        '0', '0', '0', '0', '0',
        '0', '0', '0', '0', '0',
        '0', '0', '0', '0', '0',
        '0', '0', '0', '0', '0'
    ]);
}

#[test]
fn test_valid_board_4() {
    let input: Vec<char> = vec![
        'X', 'X', 'X', 'X', 'X',
        'X', 'X', 'X', 'X', 'X',
        'X', 'X', 'X', 'X', 'X',
        'X', 'X', 'X', 'X', 'X',
        'X', 'X', 'X', 'X', 'X'
    ];

    assert_eq!(minesweeper(&input).unwrap(),
    [
        'X', 'X', 'X', 'X', 'X',
        'X', 'X', 'X', 'X', 'X',
        'X', 'X', 'X', 'X', 'X',
        'X', 'X', 'X', 'X', 'X',
        'X', 'X', 'X', 'X', 'X'
    ]);
}

#[test]
fn test_valid_board_5() {
    let input: Vec<char> = vec![
        '-', 'X', '-', '-', 'X', 'X', 'X',
        '-', '-', 'X', '-', 'X', '-', 'X',
        'X', 'X', '-', '-', 'X', 'X', 'X',
        '-', '-', 'X', '-', '-', '-', '-',
        '-', '-', 'X', '-', 'X', '-', '-',
        '-', 'X', '-', '-', '-', 'X', '-',
        '-', '-', '-', '-', 'X', '-', '-'
    ];

    assert_eq!(minesweeper(&input).unwrap(),
    [
        '1', 'X', '2', '3', 'X', 'X', 'X',
        '3', '4', 'X', '4', 'X', '8', 'X',
        'X', 'X', '3', '4', 'X', 'X', 'X',
        '2', '4', 'X', '4', '3', '4', '2',
        '1', '3', 'X', '3', 'X', '2', '1',
        '1', 'X', '2', '3', '3', 'X', '1',
        '1', '1', '1', '1', 'X', '2', '1'
    ]);
}

#[test]
fn test_board_with_invalid_characters() {
    let input: Vec<char> = vec![
        '-', 'X', '-', '-', '-',
        '-', '-', 'X', '-', '-',
        'X', '~', '-', '-', '-',
        '-', '-', 'X', '-', '-',
        '-', '-', 'X', '-', 'X'
    ];

    assert_eq!(minesweeper(&input), Err(BoardError::InvalidCell));
}

#[test]
fn test_board_with_nonsquare_dimensions() {
    let input: Vec<char> = vec![
        '-', 'X', '-', '-',
        '-', '-', 'X', '-',
        'X', 'X', '-', '-',
        '-', '-', 'X', '-',
        '-', '-', 'X', '-',
    ];

    assert_eq!(minesweeper(&input), Err(BoardError::InvalidShape));
}

#[test]
fn annotating_twice_gives_the_same_grid() {
    let input = grid("-X--- --X-- XX--- --X-- --X-X");
    assert_eq!(minesweeper(&input), minesweeper(&input));
}

#[test]
fn empty_layout_annotates_to_empty_grid() {
    assert_eq!(minesweeper(&Vec::new()), Ok(Vec::new()));
}

#[test]
fn single_cells_annotate() {
    assert_eq!(minesweeper(&vec!['-']), Ok(vec!['0']));
    assert_eq!(minesweeper(&vec!['X']), Ok(vec!['X']));
}

#[test]
fn mine_surrounded_by_mines_counts_eight() {
    let input = grid("XXX X-X XXX");
    assert_eq!(minesweeper(&input).unwrap(), grid("XXX X8X XXX"));
}

#[test]
fn counts_stay_within_eight_and_cells_keep_mines() {
    let input = grid("X-X- -XX- X--X ----");
    let solved = minesweeper(&input).unwrap();
    assert_eq!(solved, grid("X4X2 3XX3 X33X 1111"));
    for (l, s) in input.iter().zip(solved.iter()) {
        assert_eq!(*l == 'X', *s == 'X');
        assert!(*s == 'X' || ('0'..='8').contains(s));
    }
}

#[test]
fn non_square_lengths_are_rejected() {
    for len in [2usize, 3, 5, 8, 20, 24, 26] {
        let input = vec!['-'; len];
        assert_eq!(minesweeper(&input), Err(BoardError::InvalidShape));
    }
}

#[test]
fn shape_is_checked_before_cells() {
    let input = vec!['?'; 20];
    assert_eq!(minesweeper(&input), Err(BoardError::InvalidShape));
}
