use sudoku::candidates::CandidateSet;
use sudoku::game::{solve, Game, InvalidInputError};
use sudoku::grid::Outcome;
use sudoku::token::Token;

fn game_1() -> Game {
    Game::new([
        [8, 0, 5, 4, 0, 0, 0, 0, 0],
        [0, 0, 2, 0, 0, 0, 0, 4, 5],
        [0, 0, 0, 0, 6, 0, 2, 9, 0],
        [9, 4, 6, 0, 0, 0, 0, 1, 0],
        [0, 7, 0, 0, 9, 0, 0, 0, 0],
        [0, 2, 0, 7, 0, 5, 0, 3, 0],
        [0, 5, 0, 0, 0, 4, 7, 0, 2],
        [0, 8, 0, 0, 1, 0, 4, 0, 0],
        [4, 6, 0, 0, 5, 0, 3, 0, 0],
    ])
    .unwrap()
}

fn game_2() -> Game {
    Game::new([
        [0, 0, 0, 1, 0, 5, 0, 7, 0],
        [2, 0, 0, 0, 0, 6, 0, 3, 0],
        [0, 0, 3, 0, 0, 8, 0, 4, 0],
        [0, 0, 5, 8, 0, 2, 0, 0, 3],
        [8, 0, 2, 0, 0, 4, 7, 0, 0],
        [1, 9, 6, 0, 0, 0, 4, 8, 0],
        [3, 7, 8, 0, 6, 0, 5, 1, 0],
        [4, 2, 0, 5, 0, 0, 3, 0, 0],
        [0, 6, 0, 4, 7, 3, 0, 2, 9],
    ])
    .unwrap()
}

const SOLUTION_1: [[u8; 9]; 9] = [
    [8, 1, 5, 4, 2, 9, 6, 7, 3],
    [6, 9, 2, 3, 7, 8, 1, 4, 5],
    [7, 3, 4, 5, 6, 1, 2, 9, 8],
    [9, 4, 6, 8, 3, 2, 5, 1, 7],
    [5, 7, 3, 1, 9, 6, 8, 2, 4],
    [1, 2, 8, 7, 4, 5, 9, 3, 6],
    [3, 5, 1, 9, 8, 4, 7, 6, 2],
    [2, 8, 7, 6, 1, 3, 4, 5, 9],
    [4, 6, 9, 2, 5, 7, 3, 8, 1],
];

fn set_of(tokens: &[Token]) -> CandidateSet {
    let mut s = CandidateSet::empty();
    for t in tokens {
        s = s.union(&CandidateSet::only(*t));
    }
    s
}

fn all_units_hold_each_value_once(game: &Game) -> bool {
    for k in 0..9 {
        let (mut row, mut column, mut block) =
            (CandidateSet::empty(), CandidateSet::empty(), CandidateSet::empty());
        for j in 0..9 {
            for (set, (x, y)) in [
                (&mut row, (j, k)),
                (&mut column, (k, j)),
                (&mut block, (k % 3 * 3 + j % 3, k / 3 * 3 + j / 3)),
            ] {
                let c = game.cell(x, y);
                if c.len() != 1 || !c.intersection(set).is_empty() {
                    return false;
                }
                *set = set.union(&c);
            }
        }
        if row.len() != 9 || column.len() != 9 || block.len() != 9 {
            return false;
        }
    }
    true
}

#[test]
fn row_for() {
    let game = game_1();
    assert_eq!(game.row_union(0), set_of(&[Token::_8, Token::_5, Token::_4]));
}

#[test]
fn column_for() {
    let game = game_1();
    assert_eq!(game.column_union(0), set_of(&[Token::_8, Token::_9, Token::_4]));
}

#[test]
fn block_for() {
    let game = game_1();
    assert_eq!(game.block_union(0, 0), set_of(&[Token::_8, Token::_5, Token::_2]));
    assert_eq!(game.block_union(3, 3), set_of(&[Token::_9, Token::_7, Token::_5]));
}

#[test]
fn test_1() {
    let solution = Game::new(SOLUTION_1).unwrap();
    let mut game = game_1();
    solve(&mut game);
    assert_eq!(game.cells(), solution.cells());
}

#[test]
fn test_2() {
    let solution = Game::new([
        [9, 8, 4, 1, 3, 5, 2, 7, 6],
        [2, 5, 7, 9, 4, 6, 1, 3, 8],
        [6, 1, 3, 7, 2, 8, 9, 4, 5],
        [7, 4, 5, 8, 1, 2, 6, 9, 3],
        [8, 3, 2, 6, 9, 4, 7, 5, 1],
        [1, 9, 6, 3, 5, 7, 4, 8, 2],
        [3, 7, 8, 2, 6, 9, 5, 1, 4],
        [4, 2, 9, 5, 8, 1, 3, 6, 7],
        [5, 6, 1, 4, 7, 3, 8, 2, 9],
    ])
    .unwrap();
    let mut game = game_2();
    solve(&mut game);
    assert_eq!(game.cells(), solution.cells());
}

#[test]
fn easy_puzzles_report_solved() {
    let mut game = game_1();
    assert_eq!(solve(&mut game), Outcome::Solved);
    let first_row: Vec<u8> = (0..9).map(|x| digit_of(game.cell(x, 0))).collect();
    assert_eq!(first_row, vec![8, 1, 5, 4, 2, 9, 6, 7, 3]);
    let mut game = game_2();
    assert_eq!(solve(&mut game), Outcome::Solved);
    let first_row: Vec<u8> = (0..9).map(|x| digit_of(game.cell(x, 0))).collect();
    assert_eq!(first_row, vec![9, 8, 4, 1, 3, 5, 2, 7, 6]);
}

fn digit_of(c: CandidateSet) -> u8 {
    assert_eq!(c.len(), 1);
    let tokens = [
        Token::_1, Token::_2, Token::_3, Token::_4, Token::_5, Token::_6, Token::_7, Token::_8,
        Token::_9,
    ];
    tokens.iter().find(|t| c.contains(**t)).unwrap().to_u8()
}

#[test]
fn blank_grid_stalls_with_all_candidates() {
    let mut game = Game::new([[0; 9]; 9]).unwrap();
    assert_eq!(solve(&mut game), Outcome::Stalled);
    for y in 0..9 {
        for x in 0..9 {
            assert_eq!(game.cell(x, y), CandidateSet::all());
            assert_eq!(game.cell(x, y).len(), 9);
        }
    }
    assert!(!game.is_complete());
}

#[test]
fn duplicate_in_a_row_is_a_contradiction() {
    let mut game = Game::new([
        [8, 0, 5, 4, 0, 0, 0, 0, 8],
        [0, 0, 2, 0, 0, 0, 0, 4, 5],
        [0, 0, 0, 0, 6, 0, 2, 9, 0],
        [9, 4, 6, 0, 0, 0, 0, 1, 0],
        [0, 7, 0, 0, 9, 0, 0, 0, 0],
        [0, 2, 0, 7, 0, 5, 0, 3, 0],
        [0, 5, 0, 0, 0, 4, 7, 0, 2],
        [0, 8, 0, 0, 1, 0, 4, 0, 0],
        [4, 6, 0, 0, 5, 0, 3, 0, 0],
    ])
    .unwrap();
    assert_eq!(solve(&mut game), Outcome::Contradiction);
}

#[test]
fn emptied_cell_is_a_contradiction() {
    // The top-left cell sees 1 to 8 in its row and 9 in its column.
    let mut matrix = [[0u8; 9]; 9];
    for x in 1..9 {
        matrix[0][x] = x as u8;
    }
    matrix[1][0] = 9;
    let mut game = Game::new(matrix).unwrap();
    assert_eq!(solve(&mut game), Outcome::Contradiction);
    assert!(game.cell(0, 0).is_empty());
}

#[test]
fn solved_input_is_solved_at_once() {
    let mut game = Game::new(SOLUTION_1).unwrap();
    assert!(game.is_complete());
    assert_eq!(game.outcome(), Outcome::Solved);
    assert_eq!(solve(&mut game), Outcome::Solved);
    assert_eq!(game.cells(), Game::new(SOLUTION_1).unwrap().cells());
}

#[test]
fn digit_above_nine_is_refused() {
    let mut matrix = SOLUTION_1;
    matrix[4][6] = 10;
    matrix[7][2] = 200;
    match Game::new(matrix) {
        Err(e) => assert_eq!(e, InvalidInputError { x: 6, y: 4, digit: 10 }),
        Ok(_) => panic!("a digit above nine was accepted"),
    }
}

#[test]
fn digits_and_tokens_correspond() {
    for n in 1..=9u8 {
        assert_eq!(Token::from_u8(n).to_u8(), n);
    }
    assert_eq!(Token::from_u8(1), Token::_1);
    assert_eq!(Token::from_u8(9), Token::_9);
    assert_eq!(Token::_5.mask(), 16);
}

#[test]
fn candidate_set_operations() {
    let a = set_of(&[Token::_1, Token::_2, Token::_3]);
    let b = set_of(&[Token::_3, Token::_4]);
    assert_eq!(a.len(), 3);
    assert_eq!(a.union(&b), set_of(&[Token::_1, Token::_2, Token::_3, Token::_4]));
    assert_eq!(a.difference(&b), set_of(&[Token::_1, Token::_2]));
    assert_eq!(a.intersection(&b), CandidateSet::only(Token::_3));
    assert!(a.contains(Token::_2));
    assert!(!a.contains(Token::_9));
    assert!(CandidateSet::empty().is_empty());
    assert_eq!(CandidateSet::empty().len(), 0);
    assert_eq!(CandidateSet::all().len(), 9);
    assert_eq!(CandidateSet::all().difference(&CandidateSet::all()), CandidateSet::empty());
}

#[test]
fn a_pass_never_adds_candidates() {
    let mut game = game_2();
    loop {
        let before = game.cells();
        let progress = game.play();
        let after = game.cells();
        for i in 0..81 {
            assert!(after[i].len() <= before[i].len());
            assert_eq!(after[i].difference(&before[i]), CandidateSet::empty());
        }
        if !progress {
            break;
        }
    }
}

#[test]
fn a_pass_at_the_fixed_point_changes_nothing() {
    for mut game in [game_1(), Game::new([[0; 9]; 9]).unwrap()] {
        solve(&mut game);
        let settled = game.cells();
        assert!(!game.play());
        assert_eq!(game.cells(), settled);
    }
}

#[test]
fn unions_follow_the_solved_cells() {
    let mut game = game_1();
    for _ in 0..3 {
        game.play();
        for k in 0..9 {
            let (mut row, mut column) = (CandidateSet::empty(), CandidateSet::empty());
            for j in 0..9 {
                if game.cell(j, k).len() == 1 {
                    row = row.union(&game.cell(j, k));
                }
                if game.cell(k, j).len() == 1 {
                    column = column.union(&game.cell(k, j));
                }
            }
            assert_eq!(game.row_union(k), row);
            assert_eq!(game.column_union(k), column);
        }
    }
    // After one pass the first cell of the grid's second row is narrowed.
    assert!(game.cell(0, 1).len() < 9);
}

#[test]
fn solved_grids_hold_each_value_once_per_unit() {
    let mut game = game_2();
    assert_eq!(solve(&mut game), Outcome::Solved);
    assert!(all_units_hold_each_value_once(&game));
}

#[test]
fn repeated_solves_agree() {
    let (mut a, mut b) = (game_1(), game_1());
    assert_eq!(solve(&mut a), solve(&mut b));
    assert_eq!(a.cells(), b.cells());
    let (mut c, mut d) = (Game::new([[0; 9]; 9]).unwrap(), Game::new([[0; 9]; 9]).unwrap());
    assert_eq!(solve(&mut c), solve(&mut d));
    assert_eq!(c.cells(), d.cells());
}
