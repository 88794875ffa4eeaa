use sudoku_engine::filledboard::FilledBoard;
use sudoku_engine::swap::SwapError;

const SWAPPED_BOARD0: FilledBoard = FilledBoard {
    data: [
        6,9,1,4,8,3,5,2,7,
        2,1,3,7,9,5,4,6,8,
        5,8,7,6,2,4,9,3,1,
        3,5,8,2,7,1,6,9,4,
        1,2,6,4,3,9,8,7,5,
        7,4,9,8,5,6,2,1,3,
        4,7,2,9,1,8,3,5,6,
        8,3,1,5,6,2,7,4,9,
        9,6,5,3,4,7,1,8,2,
    ],
};

const SWAPPED_BOARD1: FilledBoard = FilledBoard {
    data: [
        3,5,6,2,9,4,8,7,1,
        1,7,8,6,5,3,4,9,2,
        4,2,9,7,8,1,3,6,5,
        8,1,2,5,4,9,6,3,8,
        6,9,5,1,3,7,2,4,7,
        7,3,4,8,6,2,1,5,9,
        2,6,3,9,7,8,5,1,4,
        9,4,1,3,2,5,7,8,6,
        5,8,7,4,1,6,9,2,3,
    ],
};

const SOLVED: FilledBoard = FilledBoard {
    data: [
        6,9,4,1,8,3,5,2,7,
        2,1,3,7,9,5,4,6,8,
        5,8,7,6,2,4,9,3,1,
        3,5,8,2,7,1,6,9,4,
        1,2,6,4,3,9,8,7,5,
        7,4,9,8,5,6,2,1,3,
        4,7,2,9,1,8,3,5,6,
        8,3,1,5,6,2,7,4,9,
        9,6,5,3,4,7,1,8,2,
    ],
};

#[test]
fn test_swap_pair() {
    let swapped_b0_0_17 = FilledBoard {
        data: [
            8,9,1,4,8,3,5,2,7,
            2,1,3,7,9,5,4,6,6,
            5,8,7,6,2,4,9,3,1,
            3,5,8,2,7,1,6,9,4,
            1,2,6,4,3,9,8,7,5,
            7,4,9,8,5,6,2,1,3,
            4,7,2,9,1,8,3,5,6,
            8,3,1,5,6,2,7,4,9,
            9,6,5,3,4,7,1,8,2,
        ],
    };
    assert_eq!(swapped_b0_0_17, SWAPPED_BOARD0.swap_pair(&0, &17));
}

#[test]
fn test_solution() {
    assert_eq!(Ok((35, 44)), SWAPPED_BOARD1.check_swap());
    assert_eq!(Ok((2, 3)), SWAPPED_BOARD0.check_swap());
}

#[test]
fn solved_board_has_no_swap() {
    assert!(SOLVED.is_solved());
    assert_eq!(Err(SwapError::UnexpectedHouseFailureCount(0)), SOLVED.check_swap());
}

#[test]
fn swap_sharing_no_house_is_found() {
    // cells 0 (row 0, column 0, block 0) and 80 (row 8, column 8, block 8) hold 6 and 2
    let b = SOLVED.swap_pair(&80, &0);
    assert!(!b.is_solved());
    assert_eq!(Ok((0, 80)), b.check_swap());
}

#[test]
fn swap_sharing_one_house_is_found() {
    // cells 1 and 7 share row 0 only; they hold 9 and 2
    let b = SOLVED.swap_pair(&1, &7);
    assert_eq!(Ok((1, 7)), b.check_swap());
}

#[test]
fn swap_sharing_two_houses_is_found() {
    // cells 9 and 11 share row 1 and block 0; they hold 2 and 3
    let b = SOLVED.swap_pair(&11, &9);
    assert_eq!(Ok((9, 11)), b.check_swap());
}

#[test]
fn three_cells_changed_is_refused() {
    let mut b = SOLVED;
    b.data[0] = 7;
    assert_eq!(Err(SwapError::UnexpectedHouseFailureCount(3)), b.check_swap());
}

#[test]
fn tied_vote_still_finds_the_exchange() {
    // cells 0 and 6 share row 0 only and hold 6 and 5. Cell 18 holds 5 and lies in
    // both column 0 and block 0, so it ties with cells 0 and 6 in the vote; only
    // exchanging 0 and 6 solves the board.
    let b = SOLVED.swap_pair(&0, &6);
    assert_eq!(Ok((0, 6)), b.check_swap());
}

#[test]
fn every_single_exchange_is_located_or_ambiguous() {
    let mut located = 0;
    for i in 0..81usize {
        for j in (i + 1)..81usize {
            if SOLVED.data[i] == SOLVED.data[j] {
                continue;
            }
            let b = SOLVED.swap_pair(&i, &j);
            match b.check_swap() {
                Ok(p) if p == (i, j) => located += 1,
                Ok((a, c)) => {
                    // another exchange repairs this board too
                    assert!(a < c && b.swap_pair(&a, &c).is_solved());
                }
                Err(e) => panic!("exchange of {} and {} not located: {:?}", i, j, e),
            }
        }
    }
    assert!(located > 2800);
}
