use scrabble::checked::CheckedAisleSquare;
use scrabble::cross_checks::CrossChecks;
use scrabble::scoring::{letter_value, score_play, ScoreModifier};
use scrabble::{Direction, Position, ScrabbleError, ScrabbleRack};

fn empty_aisle() -> Vec<CheckedAisleSquare> {
    vec![CheckedAisleSquare { tile: None, cross_checks: None, is_anchor: false }; 15]
}

#[test]
fn letter_values_follow_the_table() {
    assert_eq!(letter_value('a'), 1);
    assert_eq!(letter_value('d'), 2);
    assert_eq!(letter_value('c'), 3);
    assert_eq!(letter_value('h'), 4);
    assert_eq!(letter_value('k'), 5);
    assert_eq!(letter_value('x'), 8);
    assert_eq!(letter_value('q'), 10);
    assert_eq!(letter_value('_'), 0);
}

#[test]
fn premium_squares_follow_the_pattern() {
    let at = |row, col| ScoreModifier::at(Position { row, col });
    assert_eq!(at(0, 0), ScoreModifier::TripleWord);
    assert_eq!(at(7, 7), ScoreModifier::DoubleWord);
    assert_eq!(at(6, 6), ScoreModifier::DoubleLetter);
    assert_eq!(at(5, 5), ScoreModifier::TripleLetter);
    assert_eq!(at(0, 3), ScoreModifier::DoubleLetter);
    assert_eq!(at(0, 7), ScoreModifier::Plain);
    assert_eq!(at(1, 5), ScoreModifier::TripleLetter);
    assert_eq!(at(2, 6), ScoreModifier::DoubleLetter);
    assert_eq!(at(7, 8), ScoreModifier::Plain);
    assert_eq!(ScoreModifier::TripleWord.word_multiplier(), 3);
    assert_eq!(ScoreModifier::TripleWord.letter_multiplier(), 1);
    assert_eq!(ScoreModifier::DoubleLetter.letter_multiplier(), 2);
    assert_eq!(ScoreModifier::DoubleLetter.as_char(), '2');
    assert_eq!(ScoreModifier::Plain.as_char(), ' ');
}

#[test]
fn seven_placed_tiles_earn_the_bingo_bonus() {
    let squares = empty_aisle();
    let seven: Vec<char> = "abcdefg".chars().collect();
    let six: Vec<char> = "abcdef".chars().collect();
    // Row 4 from column 4: double word squares at columns 4 and 10, plain between.
    let seven_score = score_play(&squares, Direction::Horizontal, 4, 4, &seven);
    let six_score = score_play(&squares, Direction::Horizontal, 4, 4, &six);
    assert_eq!(six_score, (1 + 3 + 3 + 2 + 1 + 4) * 2);
    assert_eq!(seven_score, (1 + 3 + 3 + 2 + 1 + 4 + 2) * 4 + 50);
}

#[test]
fn tiles_already_placed_get_no_premium_and_count_no_tile() {
    let mut squares = empty_aisle();
    squares[7].tile = Some('h');
    let word: Vec<char> = "ah".chars().collect();
    // Row 7: column 6 is plain, column 7 held the tile.
    assert_eq!(score_play(&squares, Direction::Horizontal, 7, 6, &word), 1 + 4);
}

#[test]
fn cross_words_add_their_points() {
    let mut squares = empty_aisle();
    let mut checks = CrossChecks::default();
    checks.set_allowed('a');
    checks.cross_sum = 4;
    squares[7].cross_checks = Some(checks);
    let word: Vec<char> = "a".chars().collect();
    // Row 6, column 7 is plain: the word scores 1 and the cross-word 4 + 1.
    assert_eq!(score_play(&squares, Direction::Horizontal, 6, 7, &word), 1 + 5);
    // Row 7, column 7 is a double word: both words double.
    assert_eq!(score_play(&squares, Direction::Horizontal, 7, 7, &word), 2 + 10);
}

#[test]
fn racks_take_letters_then_blanks() {
    let mut rack = ScrabbleRack::new("ab_").unwrap();
    assert_eq!(rack.take_tile('a'), Ok('a'));
    assert_eq!(rack.take_tile('a'), Ok('_'));
    assert_eq!(rack.take_tile('a'), Err(()));
    assert_eq!(rack.take_tile('b'), Ok('b'));
    rack.add_tile('_');
    assert_eq!(rack.take_tile('z'), Ok('_'));
    assert_eq!(rack.tile_counts.iter().sum::<usize>(), 0);
}

#[test]
fn invalid_racks_are_rejected() {
    assert!(matches!(ScrabbleRack::new("ab1"), Err(ScrabbleError::InvalidRack)));
    assert!(matches!(ScrabbleRack::new("A"), Err(ScrabbleError::InvalidRack)));
    assert!(ScrabbleRack::new("").is_ok());
}
