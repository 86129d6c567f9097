use sudoku::{eval, eval_counted, eval_first_free, Game, ParseGameError, ShowKinds};

const PUZZLE: &str =
    "53..7....6..195....98....6.8...6...34..8.3..17...2...6.6....28....419..5....8..79";
const SOLUTION: &str =
    "534678912672195348198342567859761423426853791713924856961537284287419635345286179";
const MINIMAL: &str =
    "000000010400000000020000000000050407008000300001090000300400200050100000000806000";

fn houses() -> Vec<Vec<usize>> {
    let mut hs = Vec::new();
    for r in 0..9 {
        hs.push((0..9).map(|c| r * 9 + c).collect());
    }
    for c in 0..9 {
        hs.push((0..9).map(|r| r * 9 + c).collect());
    }
    for b in 0..9 {
        hs.push((0..9).map(|p| (b / 3 * 3 + p / 3) * 9 + b % 3 * 3 + p % 3).collect());
    }
    hs
}

fn is_valid_solution(s: &str) -> bool {
    let cells: Vec<char> = s.chars().collect();
    if cells.len() != 81 {
        return false;
    }
    houses().iter().all(|h| {
        (1..=9).all(|d| {
            let ch = char::from_digit(d, 10).unwrap();
            h.iter().filter(|&&i| cells[i] == ch).count() == 1
        })
    })
}

fn extends(s: &str, givens: &str) -> bool {
    s.chars()
        .zip(givens.chars())
        .all(|(a, g)| g == '.' || g == '0' || a == g)
}

#[test]
fn empty_grid_gets_a_valid_completion() {
    let empty = ".".repeat(81);
    let mut g = Game::parse(&empty).unwrap();
    assert!(eval(&mut g).is_ok());
    let out = g.to_string();
    assert!(is_valid_solution(&out));
}

#[test]
fn single_forced_cell_gets_its_value() {
    let mut text: Vec<char> = SOLUTION.chars().collect();
    text[40] = '.';
    let text: String = text.into_iter().collect();
    let mut g = Game::parse(&text).unwrap();
    assert_eq!(g.free_cells(), 1);
    assert!(eval(&mut g).is_ok());
    let out = g.to_string();
    assert_eq!(out.chars().nth(40), Some('5'));
    assert_eq!(out, SOLUTION);
}

#[test]
fn duplicate_in_a_row_fails_before_any_placement() {
    let mut text: Vec<char> = ".".repeat(81).chars().collect();
    text[0] = '5';
    text[7] = '5';
    let text: String = text.into_iter().collect();
    let mut g = Game::parse(&text).unwrap();
    assert!(matches!(g.showbestfree(), ShowKinds::FAILED));
    let mut nodes: u64 = 0;
    assert!(eval_counted(&mut g, &mut nodes).is_err());
    assert_eq!(nodes, 1);
    assert_eq!(g.to_string(), text);
}

#[test]
fn eighty_characters_is_incorrect_length() {
    let text = "1".repeat(80);
    assert!(matches!(Game::parse(&text), Err(ParseGameError::IncorrectLength)));
}

#[test]
fn eighty_two_characters_is_incorrect_length() {
    let text = ".".repeat(82);
    assert!(matches!(Game::parse(&text), Err(ParseGameError::IncorrectLength)));
    assert!(matches!(Game::parse(""), Err(ParseGameError::IncorrectLength)));
}

#[test]
fn letter_x_is_an_illegal_character() {
    let mut text: Vec<char> = PUZZLE.chars().collect();
    text[10] = 'x';
    let text: String = text.into_iter().collect();
    assert_eq!(
        Game::parse(&text).err(),
        Some(ParseGameError::IllegalCharacter('x'))
    );
}

#[test]
fn first_illegal_character_wins_over_length() {
    assert_eq!(
        Game::parse("12a4b").err(),
        Some(ParseGameError::IllegalCharacter('a'))
    );
    assert_eq!(
        Game::parse("é").err(),
        Some(ParseGameError::IllegalCharacter('é'))
    );
}

#[test]
fn zero_and_dot_both_mean_empty() {
    let zeros = PUZZLE.replace('.', "0");
    let a = Game::parse(PUZZLE).unwrap();
    let b = Game::parse(&zeros).unwrap();
    assert!(a == b);
    assert_eq!(b.to_string(), PUZZLE);
    assert_eq!(a.free_cells(), 51);
}

#[test]
fn from_str_matches_parse() {
    let g: Game = PUZZLE.parse().unwrap();
    assert_eq!(g.to_string(), PUZZLE);
    let e: Result<Game, ParseGameError> = "x".parse();
    assert!(matches!(e, Err(ParseGameError::IllegalCharacter('x'))));
}

#[test]
fn classic_puzzle_solves_to_its_unique_solution() {
    let mut g = Game::parse(PUZZLE).unwrap();
    assert!(eval(&mut g).is_ok());
    assert_eq!(g.to_string(), SOLUTION);
    assert_eq!(g.free_cells(), 0);
    assert!(matches!(g.showbestfree(), ShowKinds::SOLVED));
}

#[test]
fn minimal_puzzle_solves_validly() {
    let mut g = Game::parse(MINIMAL).unwrap();
    assert!(eval(&mut g).is_ok());
    let out = g.to_string();
    assert!(is_valid_solution(&out));
    assert!(extends(&out, MINIMAL));
}

#[test]
fn selection_by_fewest_options_explores_fewer_nodes() {
    let mut g = Game::parse(MINIMAL).unwrap();
    let mut best: u64 = 0;
    assert!(eval_counted(&mut g, &mut best).is_ok());
    assert!(best >= 64);
    let limit = best * 10;
    let mut h = Game::parse(MINIMAL).unwrap();
    let before = h.clone();
    let mut naive: u64 = 0;
    match eval_first_free(&mut h, &mut naive, limit) {
        None => {
            assert!(naive >= limit);
            assert!(h == before);
        }
        Some(r) => {
            assert!(r.is_ok());
            assert!(naive > best);
        }
    }
}

#[test]
fn first_free_search_solves_with_enough_budget() {
    let mut g = Game::parse(PUZZLE).unwrap();
    let mut nodes: u64 = 0;
    assert!(matches!(eval_first_free(&mut g, &mut nodes, u64::MAX), Some(Ok(()))));
    assert_eq!(g.to_string(), SOLUTION);
    assert!(nodes >= 51);
}

#[test]
fn first_free_search_gives_up_at_its_budget() {
    let mut g = Game::parse(PUZZLE).unwrap();
    let mut nodes: u64 = 0;
    assert!(eval_first_free(&mut g, &mut nodes, 5).is_none());
    assert_eq!(nodes, 5);
    assert_eq!(g.to_string(), PUZZLE);
}

#[test]
fn place_then_unplace_restores_everything() {
    let g = Game::parse(PUZZLE).unwrap();
    let mut h = g.clone();
    match h.showbestfree() {
        ShowKinds::PICKIDX(idx, c) => {
            let val = c.trailing_zeros() as usize;
            h.unsafe_choose(idx, val);
            assert!(h != g);
            h.unsafe_unchoose(idx);
        }
        ShowKinds::PICKVAL(vt, c) => {
            let p = c.trailing_zeros() as usize;
            let idx = h.unsafe_choose_alt(vt, p);
            assert!(h != g);
            h.unsafe_unchoose(idx);
        }
        _ => panic!("the classic puzzle has open decision points"),
    }
    assert!(h == g);
}

#[test]
fn free_count_moves_by_one() {
    let mut g = Game::parse(PUZZLE).unwrap();
    assert_eq!(g.free_cells(), 51);
    g.unsafe_choose(2, 3);
    assert_eq!(g.free_cells(), 50);
    assert_eq!(g.to_string().chars().nth(2), Some('4'));
    g.unsafe_unchoose(2);
    assert_eq!(g.free_cells(), 51);
    g.unsafe_unchoose(0);
    assert_eq!(g.free_cells(), 52);
    assert_eq!(g.to_string().chars().next(), Some('.'));
}

#[test]
fn choose_alt_writes_the_slot_digit_at_the_position() {
    let mut text: Vec<char> = SOLUTION.chars().collect();
    text[0] = '.';
    let text: String = text.into_iter().collect();
    let mut g = Game::parse(&text).unwrap();
    // digit 5 in column 0 (house type 1, house 0), position 0
    let idx = g.unsafe_choose_alt([1, 4], 0);
    assert_eq!(idx, 0);
    assert_eq!(g.to_string(), SOLUTION);
    // digit 6 in box 4 (house type 2), position 4: the centre cell
    let mut text: Vec<char> = SOLUTION.chars().collect();
    text[40] = '.';
    let text: String = text.into_iter().collect();
    let mut g = Game::parse(&text).unwrap();
    let idx = g.unsafe_choose_alt([2, 4 * 9 + 4], 4);
    assert_eq!(idx, 40);
    assert_eq!(g.to_string(), SOLUTION);
}

#[test]
fn single_gap_is_picked_with_one_option() {
    let mut text: Vec<char> = SOLUTION.chars().collect();
    text[0] = '.';
    let text: String = text.into_iter().collect();
    let g = Game::parse(&text).unwrap();
    match g.showbestfree() {
        ShowKinds::PICKIDX(idx, c) => {
            assert_eq!(idx, 0);
            assert_eq!(c, 1 << 4);
        }
        ShowKinds::PICKVAL(vt, c) => {
            assert_eq!(vt[1] % 9, 4);
            assert_eq!(c.count_ones(), 1);
        }
        _ => panic!("one open cell remains"),
    }
}

#[test]
fn dead_cell_anywhere_reports_failed() {
    // the last cell sees 1..8 in its row and 9 in its column
    let mut text: Vec<char> = ".".repeat(81).chars().collect();
    for (k, d) in "12345678".chars().enumerate() {
        text[72 + k] = d;
    }
    text[71] = '9';
    let text: String = text.into_iter().collect();
    let mut g = Game::parse(&text).unwrap();
    assert!(matches!(g.showbestfree(), ShowKinds::FAILED));
    assert!(eval(&mut g).is_err());
    assert_eq!(g.to_string(), text);
}

#[test]
fn picked_point_has_the_fewest_options() {
    let g = Game::parse(PUZZLE).unwrap();
    let weight = match g.showbestfree() {
        ShowKinds::PICKIDX(_, c) => c.count_ones(),
        ShowKinds::PICKVAL(_, c) => c.count_ones(),
        _ => panic!("the classic puzzle has open decision points"),
    };
    // count the options of every free cell by trial placement
    let cells: Vec<char> = PUZZLE.chars().collect();
    let hs = houses();
    for i in 0..81 {
        if cells[i] != '.' {
            continue;
        }
        let mut options = 0;
        for d in '1'..='9' {
            let clash = hs
                .iter()
                .filter(|h| h.contains(&i))
                .any(|h| h.iter().any(|&j| cells[j] == d));
            if !clash {
                options += 1;
            }
        }
        assert!(options >= weight);
    }
    assert!(weight >= 1);
}

#[test]
fn first_free_picks_the_lowest_empty_cell() {
    let g = Game::parse(PUZZLE).unwrap();
    match g.first_free() {
        ShowKinds::PICKIDX(idx, c) => {
            assert_eq!(idx, 2);
            // row 0 holds 5,3,7; column 2 holds 8; box 0 holds 5,3,6,9,8
            assert_eq!(c, (1 << 0) | (1 << 1) | (1 << 3));
        }
        _ => panic!("cell 2 is free"),
    }
}

#[test]
fn first_free_search_stops_exactly_at_its_node_count() {
    let mut g = Game::parse(PUZZLE).unwrap();
    let mut total: u64 = 0;
    assert!(eval_first_free(&mut g, &mut total, u64::MAX).is_some());
    let mut g = Game::parse(PUZZLE).unwrap();
    let mut nodes: u64 = 0;
    assert!(matches!(eval_first_free(&mut g, &mut nodes, total), Some(Ok(()))));
    assert_eq!(nodes, total);
    let mut g = Game::parse(PUZZLE).unwrap();
    let mut nodes: u64 = 0;
    assert!(eval_first_free(&mut g, &mut nodes, total - 1).is_none());
    assert_eq!(g.to_string(), PUZZLE);
    let mut g = Game::parse(PUZZLE).unwrap();
    let mut nodes: u64 = 7;
    assert!(eval_first_free(&mut g, &mut nodes, total + 7).is_some());
    assert_eq!(nodes, total + 7);
}

#[test]
fn clashing_board_counts_one_node() {
    let mut text: Vec<char> = ".".repeat(81).chars().collect();
    text[0] = '5';
    text[7] = '5';
    let text: String = text.into_iter().collect();
    let mut g = Game::parse(&text).unwrap();
    let mut nodes: u64 = 0;
    assert!(matches!(eval_first_free(&mut g, &mut nodes, 10), Some(Err(()))));
    assert_eq!(nodes, 1);
}

#[test]
fn formatting_then_parsing_gives_the_same_game() {
    let mut text: Vec<char> = PUZZLE.chars().collect();
    text[2] = '5';
    let clashing: String = text.into_iter().collect();
    for t in [PUZZLE, SOLUTION, clashing.as_str()] {
        let g = Game::parse(t).unwrap();
        let h = Game::parse(&g.to_string()).unwrap();
        assert!(g == h);
    }
}

#[test]
fn counted_search_adds_the_same_count_from_any_start() {
    let mut g = Game::parse(MINIMAL).unwrap();
    let mut a: u64 = 0;
    assert!(eval_counted(&mut g, &mut a).is_ok());
    let mut h = Game::parse(MINIMAL).unwrap();
    let mut b: u64 = 1000;
    assert!(eval_counted(&mut h, &mut b).is_ok());
    assert_eq!(b - 1000, a);
    assert!(g == h);
    let mut k = Game::parse(MINIMAL).unwrap();
    let mut c: u64 = u64::MAX - 1;
    assert!(eval_counted(&mut k, &mut c).is_ok());
    assert_eq!(c, u64::MAX);
}
