use sudoku_engine::board::{parse_board_list, Board};
use sudoku_engine::naive::{find_possibles, recursive_solve};
use sudoku_engine::positions::{house, House};
use sudoku_engine::smart::{fill_naked_singles, smart_solve};

fn board_a1() -> Board {
    Board::from_str(
        "_,_,4,1,_,_,5,2,7
            2,1,3,7,_,_,_,_,_
            _,_,7,6,2,4,_,_,_
            3,5,_,2,7,_,_,_,_
            _,_,_,_,3,_,8,7,5
            _,4,_,_,_,6,_,1,3
            4,7,2,_,1,_,_,5,_
            _,3,1,_,6,2,_,_,9
            9,_,_,_,_,_,1,8,_",
    )
    .unwrap()
}

fn board_a2() -> Board {
    Board::from_str(
        "2,_,_,6,_,_,_,_,_
        6,_,_,_,5,1,_,4,_
        _,7,_,_,_,_,_,_,_
        _,_,_,_,3,_,_,1,4
        _,_,5,_,6,_,_,_,_
        _,1,9,_,4,_,_,5,_
        _,_,6,_,_,_,_,2,5
        _,_,_,9,_,_,_,8,_
        8,9,_,_,_,_,4,_,_",
    )
    .unwrap()
}

fn board_a3() -> Board {
    Board::from_str(
        "_,_,6,_,9,_,_,_,_
    1,7,_,_,_,3,_,9,_
    _,_,_,7,_,_,_,_,5
    _,_,_,5,_,_,6,_,_
    _,9,_,_,3,_,2,_,_
    _,_,4,_,_,2,1,_,_
    _,_,_,9,7,8,_,_,_
    _,4,_,_,_,5,_,8,_
    _,_,_,_,_,6,_,_,_",
    )
    .unwrap()
}

fn solution_a1() -> Board {
    Board::from_str(
        "6,9,4,1,8,3,5,2,7
    2,1,3,7,9,5,4,6,8
    5,8,7,6,2,4,9,3,1
    3,5,8,2,7,1,6,9,4
    1,2,6,4,3,9,8,7,5
    7,4,9,8,5,6,2,1,3
    4,7,2,9,1,8,3,5,6
    8,3,1,5,6,2,7,4,9
    9,6,5,3,4,7,1,8,2",
    )
    .unwrap()
}

fn solution_a2() -> Board {
    Board::from_str(
        "2,5,4,6,9,7,8,3,1
        6,8,3,2,5,1,7,4,9
        9,7,1,4,8,3,5,6,2
        7,6,8,5,3,9,2,1,4
        4,2,5,1,6,8,3,9,7
        3,1,9,7,4,2,6,5,8
        1,3,6,8,7,4,9,2,5
        5,4,7,9,2,6,1,8,3
        8,9,2,3,1,5,4,7,6",
    )
    .unwrap()
}

fn solution_a3() -> Board {
    Board::from_str(
        "3,5,6,2,9,4,8,7,1
    1,7,8,6,5,3,4,9,2
    4,2,9,7,8,1,3,6,5
    8,1,2,5,4,9,6,3,7
    6,9,5,1,3,7,2,4,8
    7,3,4,8,6,2,1,5,9
    2,6,3,9,7,8,5,1,4
    9,4,1,3,2,5,7,8,6
    5,8,7,4,1,6,9,2,3",
    )
    .unwrap()
}

#[test]
fn test_parse_board() {
    board_a1();
    board_a2();
    board_a3();
}

#[test]
fn test_solve() {
    let res1 = recursive_solve(board_a1());
    let res2 = recursive_solve(board_a2());
    let res3 = recursive_solve(board_a3());
    assert_eq!(solution_a1(), res1.solved.unwrap());
    assert_eq!(solution_a2(), res2.solved.unwrap());
    assert_eq!(solution_a3(), res3.solved.unwrap());

    println!("{},{},{}", res1.nbacktracks, res2.nbacktracks, res3.nbacktracks);
    println!("Total: {}", res1.nbacktracks + res2.nbacktracks + res3.nbacktracks);
}

#[test]
fn regress_weird_board() {
    let b = Board::from_str(
        "6,9,4,1,8,3,5,2,7,
    2,1,3,7,5,9,6,4,8,
    5,8,7,6,2,4,9,3,1,
    3,5,9,2,7,1,4,6,_,
    _,_,_,_,3,_,8,7,5,
    _,4,_,_,_,6,_,1,3,
    4,7,2,_,1,_,_,5,_,
    _,3,1,_,6,2,_,_,9,
    9,_,_,_,_,_,1,8,_,",
    )
    .unwrap();
    println!("{:?}", recursive_solve(b));
}

#[test]
fn smart_solve_matches_recursive_solve() {
    let res = smart_solve(board_a2());
    assert_eq!(solution_a2(), res.solved.unwrap());
    let res = smart_solve(board_a3());
    assert_eq!(solution_a3(), res.solved.unwrap());
}

#[test]
fn solved_record_is_filled_but_not_solved() {
    // the record's cells 2 and 3 are exchanged relative to a solution: column 2 holds 1 twice
    let b = Board::from_str(
        "6,9,1,4,8,3,5,2,7\n2,1,3,7,9,5,4,6,8\n5,8,7,6,2,4,9,3,1\n3,5,8,2,7,1,6,9,4\n1,2,6,4,3,9,8,7,5\n7,4,9,8,5,6,2,1,3\n4,7,2,9,1,8,3,5,6\n8,3,1,5,6,2,7,4,9\n9,6,5,3,4,7,1,8,2",
    )
    .unwrap();
    assert!(b.is_filled());
    assert!(!b.is_solved());
    let res = recursive_solve(b);
    assert_eq!(res.nbacktracks, 1);
    assert!(res.solved.is_none());
}

#[test]
fn complete_solution_takes_no_backtracks() {
    let b = solution_a1();
    assert!(b.is_filled() && b.is_solved());
    let res = recursive_solve(b);
    assert_eq!(res.nbacktracks, 0);
    assert_eq!(res.solved.unwrap(), solution_a1());
}

#[test]
fn single_gap_is_filled_by_naked_singles() {
    let text = solution_a1().to_string().replacen('4', "_", 1);
    let b = Board::from_str(&text).unwrap();
    assert!(!b.is_filled());
    assert_eq!(find_possibles(&b, 2), vec![4]);
    let filled = fill_naked_singles(b);
    assert!(filled.is_filled() && filled.is_solved());
    assert_eq!(filled, solution_a1());
    let res = smart_solve(b);
    assert_eq!(res.nbacktracks, 0);
    assert_eq!(res.solved.unwrap(), solution_a1());
}

#[test]
fn wrong_sum_house_is_not_solved() {
    // a 3 in place of the 6 in cell 0: row 0 sums to 42
    let text = solution_a1().to_string().replacen('6', "3", 1);
    let b = Board::from_str(&text).unwrap();
    assert!(b.is_filled());
    assert!(!b.is_valid_on_house(&house(0)));
    assert!(!b.is_solved());
}

#[test]
fn unsatisfiable_puzzle_reports_no_solution() {
    // cell 0 can hold nothing: its row holds 1-8 and its column holds 9
    let mut text = String::from("_,1,2,3,4,5,6,7,8,\n9,");
    for _ in 0..71 {
        text.push_str("_,");
    }
    let b = Board::from_str(&text).unwrap();
    assert_eq!(find_possibles(&b, 0), Vec::<u8>::new());
    let res = recursive_solve(b);
    assert!(res.solved.is_none());
}

#[test]
fn candidates_are_ascending_and_exclude_neighbours() {
    let b = board_a1();
    // cell 0: row 0 holds 4,1,5,2,7; column 0 holds 2,3,4,9; block 0 holds 4,2,1,3,7
    assert_eq!(find_possibles(&b, 0), vec![6, 8]);
}

#[test]
fn render_and_parse_round_trip() {
    for b in [board_a1(), board_a2(), solution_a3()] {
        let text = b.to_string();
        assert_eq!(Board::from_str(&text).unwrap(), b);
    }
    let text = board_a1().to_string();
    assert!(text.starts_with("_,_,4,1,_,_,5,2,7,\n2,1,3,7,_,"));
    assert_eq!(text.lines().count(), 9);
}

#[test]
fn board_parse_errors() {
    assert_eq!(Board::from_str("1,2,_").unwrap_err(), "Expected 81 numbers in board, got 3");
    let mut text = String::from("0");
    for _ in 0..80 {
        text.push_str(",_");
    }
    assert_eq!(Board::from_str(&text).unwrap_err(), "Expected digits 1 to 9 in board, got 0");
    let long = "1".repeat(123);
    assert_eq!(Board::from_str(&long).unwrap_err(), "Expected 81 numbers in board, got 123");
}

#[test]
fn house_order_is_irrelevant() {
    let b = solution_a2();
    let h: House = house(20);
    let mut reversed = h;
    reversed.reverse();
    assert!(b.is_valid_on_house(&h));
    assert!(b.is_valid_on_house(&reversed));
    let a = board_a2();
    assert!(!a.is_valid_on_house(&h));
    assert!(!a.is_valid_on_house(&reversed));
}

#[test]
fn parse_list_with_headers() {
    let text = format!(
        "\n  A1,Easy,unsolved\n{}\n\n\nA2,Hard,solved,extra\n{}\n\n",
        board_a1().to_string(),
        solution_a2().to_string()
    );
    let boards = parse_board_list(&text).unwrap();
    assert_eq!(boards.len(), 2);
    assert_eq!(boards[0].id, "A1");
    assert_eq!(boards[0].src, "Easy");
    assert_eq!(boards[0].status, "unsolved");
    assert_eq!(boards[0].board, board_a1());
    assert_eq!(boards[1].id, "A2");
    assert_eq!(boards[1].status, "solved");
    assert_eq!(boards[1].board, solution_a2());
}

#[test]
fn parse_list_errors() {
    let bad_header = format!("A1,Easy\n{}", board_a1().to_string());
    assert_eq!(
        parse_board_list(&bad_header).err().unwrap(),
        "Expected a header of three comma-separated fields"
    );
    assert_eq!(
        parse_board_list("A1,Easy,x").err().unwrap(),
        "Expected a header line followed by a board"
    );
    assert_eq!(
        parse_board_list("A1,Easy,x\n1,2").err().unwrap(),
        "Expected 81 numbers in board, got 2"
    );
}

#[test]
fn solutions_keep_the_clues() {
    for puzzle in [board_a1(), board_a2(), board_a3()] {
        let solved = smart_solve(puzzle).solved.unwrap();
        assert!(solved.is_filled() && solved.is_solved());
        for (given, found) in puzzle.data.iter().zip(solved.data.iter()) {
            if given.value.is_some() {
                assert_eq!(given.value, found.value);
            }
        }
    }
}

#[test]
fn both_solvers_keep_the_first_solution() {
    let empty = Board::from_str(&"_,".repeat(81)).unwrap();
    let a = recursive_solve(empty).solved.unwrap();
    let b = smart_solve(empty).solved.unwrap();
    assert_eq!(a, b);
    assert!(a.is_filled() && a.is_solved());
    assert!(a.to_string().starts_with("1,2,3,4,5,6,7,8,9,\n4,5,6,7,8,9,1,2,3,\n"));
}
