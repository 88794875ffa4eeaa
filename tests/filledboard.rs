use sudoku_engine::filledboard::FilledBoard;
use sudoku_engine::positions::House;

type HouseGroup = [House; 9];

/// Blocks, in horizontal order.
const BLOCKS: HouseGroup = [
    [0, 1, 2, 9, 10, 11, 18, 19, 20],
    [3, 4, 5, 12, 13, 14, 21, 22, 23],
    [6, 7, 8, 15, 16, 17, 24, 25, 26],
    [27, 28, 29, 36, 37, 38, 45, 46, 47],
    [30, 31, 32, 39, 40, 41, 48, 49, 50],
    [33, 34, 35, 42, 43, 44, 51, 52, 53],
    [54, 55, 56, 63, 64, 65, 72, 73, 74],
    [57, 58, 59, 66, 67, 68, 75, 76, 77],
    [60, 61, 62, 69, 70, 71, 78, 79, 80],
];

const ROWS: HouseGroup = [
    [0, 1, 2, 3, 4, 5, 6, 7, 8],
    [9, 10, 11, 12, 13, 14, 15, 16, 17],
    [18, 19, 20, 21, 22, 23, 24, 25, 26],
    [27, 28, 29, 30, 31, 32, 33, 34, 35],
    [36, 37, 38, 39, 40, 41, 42, 43, 44],
    [45, 46, 47, 48, 49, 50, 51, 52, 53],
    [54, 55, 56, 57, 58, 59, 60, 61, 62],
    [63, 64, 65, 66, 67, 68, 69, 70, 71],
    [72, 73, 74, 75, 76, 77, 78, 79, 80],
];

const COLS: HouseGroup = [
    [0, 9, 18, 27, 36, 45, 54, 63, 72],
    [1, 10, 19, 28, 37, 46, 55, 64, 73],
    [2, 11, 20, 29, 38, 47, 56, 65, 74],
    [3, 12, 21, 30, 39, 48, 57, 66, 75],
    [4, 13, 22, 31, 40, 49, 58, 67, 76],
    [5, 14, 23, 32, 41, 50, 59, 68, 77],
    [6, 15, 24, 33, 42, 51, 60, 69, 78],
    [7, 16, 25, 34, 43, 52, 61, 70, 79],
    [8, 17, 26, 35, 44, 53, 62, 71, 80],
];

const SWAPPED_BOARD0: FilledBoard = FilledBoard {
    data: [
        6,9,1,4,8,3,5,2,7,
        2,1,3,7,9,5,4,6,8,
        5,8,7,6,2,4,9,3,1,
        3,5,8,2,7,1,6,9,4,
        1,2,6,4,3,9,8,7,5,
        7,4,9,8,5,6,2,1,3,
        4,7,2,9,1,8,3,5,6,
        8,3,1,5,6,2,7,4,9,
        9,6,5,3,4,7,1,8,2,
    ],
};

const SWAPPED_BOARD1: FilledBoard = FilledBoard {
    data: [
        3,5,6,2,9,4,8,7,1,
        1,7,8,6,5,3,4,9,2,
        4,2,9,7,8,1,3,6,5,
        8,1,2,5,4,9,6,3,8,
        6,9,5,1,3,7,2,4,7,
        7,3,4,8,6,2,1,5,9,
        2,6,3,9,7,8,5,1,4,
        9,4,1,3,2,5,7,8,6,
        5,8,7,4,1,6,9,2,3,
    ],
};

#[test]
fn test_parse_single_board() {
    assert_eq!(
        SWAPPED_BOARD0,
        FilledBoard::from_str(
            "6,9,1,4,8,3,5,2,7
        2,1,3,7,9,5,4,6,8
        5,8,7,6,2,4,9,3,1
        3,5,8,2,7,1,6,9,4
        1,2,6,4,3,9,8,7,5
        7,4,9,8,5,6,2,1,3
        4,7,2,9,1,8,3,5,6
        8,3,1,5,6,2,7,4,9
        9,6,5,3,4,7,1,8,2"
        )
        .unwrap()
    );
    assert_eq!(
        SWAPPED_BOARD1,
        FilledBoard::from_str(
            "3,5,6,2,9,4,8,7,1
        1,7,8,6,5,3,4,9,2
        4,2,9,7,8,1,3,6,5
        8,1,2,5,4,9,6,3,8
        6,9,5,1,3,7,2,4,7
        7,3,4,8,6,2,1,5,9
        2,6,3,9,7,8,5,1,4
        9,4,1,3,2,5,7,8,6
        5,8,7,4,1,6,9,2,3"
        )
        .unwrap()
    );
}

#[test]
fn test_parse_board_file() {
    let board_file_string = String::from(
        "B1-1,Bad,incorrect
6,9,1,4,8,3,5,2,7
2,1,3,7,9,5,4,6,8
5,8,7,6,2,4,9,3,1
3,5,8,2,7,1,6,9,4
1,2,6,4,3,9,8,7,5
7,4,9,8,5,6,2,1,3
4,7,2,9,1,8,3,5,6
8,3,1,5,6,2,7,4,9
9,6,5,3,4,7,1,8,2

B3-1,UGLY!,incorrect
3,5,6,2,9,4,8,7,1
1,7,8,6,5,3,4,9,2
4,2,9,7,8,1,3,6,5
8,1,2,5,4,9,6,3,8
6,9,5,1,3,7,2,4,7
7,3,4,8,6,2,1,5,9
2,6,3,9,7,8,5,1,4
9,4,1,3,2,5,7,8,6
5,8,7,4,1,6,9,2,3
",
    );

    let boards = FilledBoard::from_buf(&board_file_string).unwrap();

    assert_eq!(2, boards.len());
    assert_eq!(SWAPPED_BOARD0, boards[0]);
    assert_eq!(SWAPPED_BOARD1, boards[1]);
}

#[test]
fn valid_rule_group() {
    let b = SWAPPED_BOARD0;
    assert!(ROWS.iter().all(|row| b.is_valid_on_rule(row)));
    assert!((2..9).map(|i| BLOCKS[i]).all(|rule| b.is_valid_on_rule(&rule)));
    assert!((0..2)
        .chain(4..9)
        .map(|i| COLS[i])
        .all(|rule| b.is_valid_on_rule(&rule)));

    assert!(![0, 1]
        .iter()
        .map(|i| BLOCKS[*i])
        .all(|rule| b.is_valid_on_rule(&rule)));
    assert!(![2, 3]
        .iter()
        .map(|i| COLS[*i])
        .all(|rule| b.is_valid_on_rule(&rule)));
}

#[test]
fn filled_board_rejects_wrong_count() {
    let e = FilledBoard::from_str("1,2,3").unwrap_err();
    assert_eq!(e, "Expected 81 numbers in board, got 3");
}

#[test]
fn filled_board_rejects_zero_and_empty_marker() {
    let mut text = String::from("0");
    for _ in 0..80 {
        text.push_str(",5");
    }
    assert_eq!(FilledBoard::from_str(&text).unwrap_err(), "Expected digits 1 to 9 in board, got 0");
    let text = text.replacen('0', "_", 1);
    assert_eq!(FilledBoard::from_str(&text).unwrap_err(), "Expected digits 1 to 9 in board, got _");
}

#[test]
fn from_buf_needs_a_board_after_the_header() {
    let e = FilledBoard::from_buf("only a header\n\n").unwrap_err();
    assert_eq!(e, "Expected a header line followed by a board");
    assert_eq!(FilledBoard::from_buf("  \n\n \n").unwrap().len(), 0);
}

#[test]
fn distribution_of_a_column_with_a_repeat() {
    let b = SWAPPED_BOARD0;
    let distr = b.get_distr(&COLS[2]);
    // column 2 holds 1,3,7,8,6,9,2,1,5: the value 1 twice
    assert_eq!(distr.len(), 8);
    assert_eq!(distr[&1], vec![2, 65]);
    assert_eq!(distr[&7], vec![20]);
    assert!(!distr.contains_key(&4));
}

#[test]
fn house_with_wrong_sum_is_invalid() {
    let mut b = SWAPPED_BOARD1;
    // undo the exchange of cells 35 and 44: the board is then solved
    b.data[35] = 7;
    b.data[44] = 8;
    assert!(b.is_solved());
    // a 4 in place of the 3 in cell 0: row 0 sums to 46
    b.data[0] = 4;
    assert_eq!(ROWS[0].iter().map(|p| b.data[*p] as u32).sum::<u32>(), 46);
    assert!(!b.is_valid_on_rule(&ROWS[0]));
    assert!(!b.is_solved());
}

#[test]
fn house_order_does_not_change_the_verdict() {
    let b = SWAPPED_BOARD0;
    let mut reversed = BLOCKS[0];
    reversed.reverse();
    assert_eq!(b.is_valid_on_rule(&BLOCKS[0]), b.is_valid_on_rule(&reversed));
    let mut row = ROWS[5];
    row.rotate_left(4);
    assert_eq!(b.is_valid_on_rule(&ROWS[5]), b.is_valid_on_rule(&row));
    assert!(b.is_valid_on_rule(&row));
}
