use cube_game::feasibility::{calculate as possible_sum, game_was_possible, standard_constraints, sum_of_possible_ids};
use cube_game::game::{decode_round, parse_games, parse_line, split_lines, CalculationError, Game, LineError};
use cube_game::power::{calculate as power_sum, sum_of_powers, MinimumPossibleCubeSet};
use cube_game::round::{ColourMap, ParseError, Round};

const EXAMPLE: &str = "Game 1: 3 red, 4 blue; 1 red, 2 green, 6 blue; 2 green
Game 2: 1 blue, 2 green; 3 green, 4 blue, 1 red; 1 green, 1 blue
Game 3: 8 green, 6 blue, 20 red; 5 blue, 4 red, 13 green; 5 green, 1 red
";

fn round(red: u32, green: u32, blue: u32) -> Round {
    Round { red, green, blue }
}

#[test]
fn example_one_is_possible_with_power_36() {
    let game = parse_line("Game 1: 3 red, 4 blue; 1 red, 2 green, 6 blue; 2 green", 1).unwrap();
    assert_eq!(game.game_id, 1);
    assert_eq!(game.rounds, vec![round(3, 0, 4), round(1, 2, 6), round(0, 2, 0)]);
    assert!(game_was_possible(&game, &standard_constraints()));
    let set = MinimumPossibleCubeSet::of_game(&game);
    assert_eq!(set, MinimumPossibleCubeSet { red: 3, green: 2, blue: 6 });
    assert_eq!(set.power(), 36);
}

#[test]
fn example_two_is_possible_with_power_12() {
    let game = parse_line("Game 2: 1 blue, 2 green; 3 green, 4 blue, 1 red; 1 green, 1 blue", 2).unwrap();
    assert_eq!(game.game_id, 2);
    assert!(game_was_possible(&game, &standard_constraints()));
    let set = MinimumPossibleCubeSet::of_game(&game);
    assert_eq!(set, MinimumPossibleCubeSet { red: 1, green: 3, blue: 4 });
    assert_eq!(set.power(), 12);
}

#[test]
fn example_three_is_impossible_but_has_power() {
    let game = parse_line("Game 3: 8 green, 6 blue, 20 red; 5 blue, 4 red, 13 green; 5 green, 1 red", 3).unwrap();
    assert!(!game_was_possible(&game, &standard_constraints()));
    assert_eq!(MinimumPossibleCubeSet::of_game(&game).power(), 1560);
}

#[test]
fn whole_log_gives_both_answers() {
    assert_eq!(possible_sum(EXAMPLE, &standard_constraints()), Ok(3));
    assert_eq!(power_sum(EXAMPLE), Ok(36 + 12 + 1560));
}

#[test]
fn three_fields_in_a_token_fail_the_run() {
    assert_eq!(parse_line("Game 3: 3 red blue", 1), Err(ParseError::MalformedToken));
    let text = "Game 1: 3 red\nGame 3: 3 red blue\n";
    let expected = LineError { line: 2, error: ParseError::MalformedToken };
    assert_eq!(parse_games(text), Err(expected));
    assert_eq!(possible_sum(text, &standard_constraints()), Err(CalculationError::Parse(expected)));
    assert_eq!(power_sum(text), Err(CalculationError::Parse(expected)));
}

#[test]
fn one_field_token_is_malformed() {
    assert_eq!(parse_line("Game 1: ", 1), Err(ParseError::MalformedToken));
    assert_eq!(parse_line("Game 1: 3red", 1), Err(ParseError::MalformedToken));
    assert_eq!(parse_line("Game 1: 3  red", 1), Err(ParseError::MalformedToken));
}

#[test]
fn missing_separator_is_an_error() {
    assert_eq!(parse_line("Game 1 3 red", 1), Err(ParseError::MissingSeparator));
    assert_eq!(parse_line("Game 1:3 red", 1), Err(ParseError::MissingSeparator));
}

#[test]
fn colon_in_rounds_is_an_error() {
    assert_eq!(parse_line("Game 1: 3 red: 4 blue", 1), Err(ParseError::UnexpectedColon));
    assert_eq!(parse_line("Game 1: 2: 3 red", 1), Err(ParseError::UnexpectedColon));
}

#[test]
fn bad_counts_are_errors() {
    assert_eq!(parse_line("Game 1: x red", 1), Err(ParseError::InvalidCount));
    assert_eq!(parse_line("Game 1: -1 red", 1), Err(ParseError::InvalidCount));
    assert_eq!(parse_line("Game 1: + red", 1), Err(ParseError::InvalidCount));
    assert_eq!(parse_line("Game 1: 4294967296 red", 1), Err(ParseError::InvalidCount));
}

#[test]
fn largest_count_and_plus_sign_are_read() {
    let game = parse_line("Game 1: 4294967295 red, +7 blue", 1).unwrap();
    assert_eq!(game.rounds, vec![round(4294967295, 0, 7)]);
    let game = parse_line("Game 1: 007 green", 1).unwrap();
    assert_eq!(game.rounds, vec![round(0, 7, 0)]);
}

#[test]
fn duplicate_colour_is_an_error() {
    assert_eq!(parse_line("Game 1: 3 red, 4 red", 1), Err(ParseError::DuplicateColour));
    assert_eq!(parse_line("Game 1: 1 blue; 3 pink, 4 pink", 1), Err(ParseError::DuplicateColour));
}

#[test]
fn unknown_colour_is_an_error() {
    assert_eq!(parse_line("Game 1: 3 pink", 1), Err(ParseError::UnknownColour));
    assert_eq!(parse_line("Game 1: 3 red, 2 Red", 1), Err(ParseError::UnknownColour));
}

#[test]
fn missing_colours_read_as_zero() {
    assert_eq!(decode_round(b"5 green"), Ok(round(0, 5, 0)));
    assert_eq!(decode_round(b"2 blue, 1 red"), Ok(round(1, 0, 2)));
    assert_eq!(decode_round(b"1 red, 2 green, 3 blue"), Ok(round(1, 2, 3)));
}

#[test]
fn colour_names_are_trimmed() {
    assert_eq!(decode_round(b"5 green\t"), Ok(round(0, 5, 0)));
    let game = parse_line("Game 1:   1 red; 2 blue  ", 1).unwrap();
    assert_eq!(game.rounds, vec![round(1, 0, 0), round(0, 0, 2)]);
}

#[test]
fn label_is_not_the_identifier() {
    let game = parse_line("Game 77: 1 red", 5).unwrap();
    assert_eq!(game.game_id, 5);
}

#[test]
fn blank_lines_do_not_take_an_identifier() {
    let text = "\nGame 1: 1 red\n   \nGame 2: 20 red\r\nGame 3: 2 blue";
    let games = parse_games(text).unwrap();
    let ids: Vec<u64> = games.iter().map(|g| g.game_id).collect();
    assert_eq!(ids, vec![1, 2, 3]);
    assert_eq!(possible_sum(text, &standard_constraints()), Ok(4));
    assert_eq!(power_sum(text), Ok(0));
}

#[test]
fn error_names_the_raw_line() {
    let text = "Game 1: 1 red\n\nGame 2: 1 pink\n";
    assert_eq!(parse_games(text), Err(LineError { line: 3, error: ParseError::UnknownColour }));
}

#[test]
fn empty_log_sums_to_zero() {
    assert_eq!(possible_sum("", &standard_constraints()), Ok(0));
    assert_eq!(power_sum("\n\n"), Ok(0));
    assert_eq!(parse_games("").unwrap().len(), 0);
}

#[test]
fn lines_follow_str_lines() {
    let text = b"a\r\nb\n\nc\r";
    let lines: Vec<&[u8]> = split_lines(text);
    assert_eq!(lines, vec![&b"a"[..], &b"b"[..], &b""[..], &b"c\r"[..]]);
    assert_eq!(split_lines(b"x\n").len(), 1);
}

#[test]
fn constraints_are_checked_per_colour() {
    let limits = standard_constraints();
    assert_eq!(limits, round(12, 13, 14));
    assert!(round(12, 13, 14).satisfies_constraints(&limits));
    assert!(!round(13, 0, 0).satisfies_constraints(&limits));
    assert!(!round(0, 14, 0).satisfies_constraints(&limits));
    assert!(!round(0, 0, 15).satisfies_constraints(&limits));
}

#[test]
fn total_check_agrees_with_colour_checks() {
    let limits = round(5, 5, 5);
    assert!(round(5, 5, 5).satisfies_constraints(&limits));
    assert!(round(0, 5, 5).satisfies_constraints(&limits));
    assert!(!round(6, 0, 0).satisfies_constraints(&limits));
}

#[test]
fn total_cubes_does_not_overflow() {
    assert_eq!(round(1, 2, 3).total_cubes(), 6);
    assert_eq!(round(u32::MAX, u32::MAX, u32::MAX).total_cubes(), 3 * (u32::MAX as u64));
}

#[test]
fn custom_constraints_change_the_sum() {
    assert_eq!(possible_sum(EXAMPLE, &round(20, 13, 6)), Ok(1 + 2 + 3));
    assert_eq!(possible_sum(EXAMPLE, &round(0, 0, 0)), Ok(0));
    let games = parse_games(EXAMPLE).unwrap();
    assert_eq!(sum_of_possible_ids(&games, &round(3, 3, 6)), Some(1 + 2));
}

#[test]
fn power_does_not_depend_on_round_order() {
    let a = parse_line("Game 1: 3 red, 4 blue; 1 red, 2 green, 6 blue; 2 green", 1).unwrap();
    let b = parse_line("Game 1: 2 green; 3 red, 4 blue; 1 red, 2 green, 6 blue", 1).unwrap();
    let c = parse_line("Game 1: 1 red, 2 green, 6 blue; 2 green; 3 red, 4 blue", 1).unwrap();
    let pa = MinimumPossibleCubeSet::of_game(&a).power();
    assert_eq!(pa, 36);
    assert_eq!(MinimumPossibleCubeSet::of_game(&b).power(), pa);
    assert_eq!(MinimumPossibleCubeSet::of_game(&c).power(), pa);
}

#[test]
fn power_is_exact_for_the_largest_counts() {
    let set = MinimumPossibleCubeSet { red: u32::MAX, green: u32::MAX, blue: u32::MAX };
    let m = u32::MAX as u128;
    assert_eq!(set.power(), m * m * m);
    let zero = MinimumPossibleCubeSet { red: 0, green: 7, blue: 9 };
    assert_eq!(zero.power(), 0);
}

#[test]
fn sums_of_powers_add_up() {
    let games = parse_games(EXAMPLE).unwrap();
    assert_eq!(sum_of_powers(&games), Some(1608));
    let single = vec![Game { game_id: 1, rounds: vec![round(2, 3, 4), round(5, 1, 1)] }];
    assert_eq!(sum_of_powers(&single), Some(5 * 3 * 4));
}

#[test]
fn colour_map_reads_back_counts() {
    let red: &[u8] = b"red";
    let blue: &[u8] = b"blue";
    let mut map = ColourMap::new();
    assert_eq!(map.insert(red, 4), Ok(()));
    assert_eq!(map.insert(blue, 9), Ok(()));
    assert_eq!(map.insert(red, 1), Err(ParseError::DuplicateColour));
    assert_eq!(map.get(b"red"), Some(4));
    assert_eq!(map.get(b"green"), None);
    assert!(map.only_known_colours());
    assert_eq!(Round::from_hash_map(&map), Ok(round(4, 0, 9)));
    let pink: &[u8] = b"pink";
    assert_eq!(map.insert(pink, 2), Ok(()));
    assert!(!map.only_known_colours());
    assert_eq!(Round::from_hash_map(&map), Err(ParseError::UnknownColour));
}

#[test]
fn empty_colour_map_is_a_zero_round() {
    let map = ColourMap::new();
    assert_eq!(Round::from_hash_map(&map), Ok(round(0, 0, 0)));
}

#[test]
fn rendered_round_reads_back_listed_counts() {
    assert_eq!(decode_round(b"7 blue, 0 red"), Ok(round(0, 0, 7)));
    assert_eq!(decode_round(b"4294967295 green, 12 red, 3 blue"), Ok(round(12, 4294967295, 3)));
    assert_eq!(decode_round(b"10 red"), Ok(round(10, 0, 0)));
}

#[test]
fn rewritten_game_parses_to_same_rounds() {
    let game = parse_line("Game 4: 1 green, 3 red, 6 blue; 3 green, 6 red; 3 green, 15 blue, 14 red", 4).unwrap();
    let texts: Vec<String> = game
        .rounds
        .iter()
        .map(|r| format!("{} red, {} green, {} blue", r.red, r.green, r.blue))
        .collect();
    let line = format!("Game 4: {}", texts.join("; "));
    assert_eq!(line, "Game 4: 3 red, 1 green, 6 blue; 6 red, 3 green, 0 blue; 14 red, 3 green, 15 blue");
    let again = parse_line(&line, 4).unwrap();
    assert_eq!(again, game);
}
