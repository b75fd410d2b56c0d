//! Letter values, premium squares and the scoring of a placement.
use crate::checked::CheckedAisleSquare;
use crate::util::{aisle_cross, Direction, Position, BOARD_SIZE};
use vstd::prelude::*;

verus! {

/// The points of a letter; zero for the blank and for anything that is not a letter.
pub open spec fn letter_points(c: char) -> nat {
    if c == 'a' || c == 'e' || c == 'i' || c == 'l' || c == 'n' || c == 'o' || c == 'r' || c
        == 's' || c == 't' || c == 'u' {
        1
    } else if c == 'd' || c == 'g' {
        2
    } else if c == 'b' || c == 'c' || c == 'm' || c == 'p' {
        3
    } else if c == 'f' || c == 'h' || c == 'v' || c == 'w' || c == 'y' {
        4
    } else if c == 'k' {
        5
    } else if c == 'j' || c == 'x' {
        8
    } else if c == 'q' || c == 'z' {
        10
    } else {
        0
    }
}

/// The total points of the letters of `s`.
pub open spec fn points(s: Seq<char>) -> nat
    decreases s.len(),
{
    if s.len() == 0 {
        0
    } else {
        points(s.drop_last()) + letter_points(s.last())
    }
}

pub proof fn lemma_points_bound(s: Seq<char>)
    ensures
        points(s) <= 10 * s.len(),
    decreases s.len(),
{
    if s.len() > 0 {
        lemma_points_bound(s.drop_last());
    }
}

pub fn letter_value(letter: char) -> (r: u32)
    ensures
        r == letter_points(letter),
        r <= 10,
{
    match letter {
        'a' | 'e' | 'i' | 'l' | 'n' | 'o' | 'r' | 's' | 't' | 'u' => 1,
        'd' | 'g' => 2,
        'b' | 'c' | 'm' | 'p' => 3,
        'f' | 'h' | 'v' | 'w' | 'y' => 4,
        'k' => 5,
        'j' | 'x' => 8,
        'q' | 'z' => 10,
        _ => 0,
    }
}

#[derive(Debug, Clone, Copy, PartialEq, Eq, Structural)]
pub enum ScoreModifier {
    Plain,
    DoubleLetter,
    TripleLetter,
    DoubleWord,
    TripleWord,
}

/// The distance of a board coordinate from the centre line.
pub open spec fn from_centre(i: int) -> int {
    if i <= 7 {
        7 - i
    } else {
        i - 7
    }
}

/// The premium of the square at (`row`, `col`), from its distances to the centre lines.
pub open spec fn modifier_at(row: int, col: int) -> ScoreModifier {
    let x = from_centre(row);
    let y = from_centre(col);
    if x == y {
        if x == 1 {
            ScoreModifier::DoubleLetter
        } else if x == 2 {
            ScoreModifier::TripleLetter
        } else if x == 7 {
            ScoreModifier::TripleWord
        } else {
            ScoreModifier::DoubleWord
        }
    } else if x % 7 == 0 || y % 7 == 0 {
        if (x + y) % 7 == 4 {
            ScoreModifier::DoubleLetter
        } else {
            ScoreModifier::Plain
        }
    } else if x - y == 4 || y - x == 4 {
        if (x + y) % 7 == 1 {
            ScoreModifier::TripleLetter
        } else {
            ScoreModifier::DoubleLetter
        }
    } else {
        ScoreModifier::Plain
    }
}

impl ScoreModifier {
    pub open spec fn spec_word_multiplier(&self) -> nat {
        match self {
            ScoreModifier::DoubleWord => 2,
            ScoreModifier::TripleWord => 3,
            _ => 1,
        }
    }

    pub open spec fn spec_letter_multiplier(&self) -> nat {
        match self {
            ScoreModifier::DoubleLetter => 2,
            ScoreModifier::TripleLetter => 3,
            _ => 1,
        }
    }

    pub fn word_multiplier(&self) -> (r: u32)
        ensures
            r == self.spec_word_multiplier(),
    {
        match self {
            ScoreModifier::DoubleWord => 2,
            ScoreModifier::TripleWord => 3,
            _ => 1,
        }
    }

    pub fn letter_multiplier(&self) -> (r: u32)
        ensures
            r == self.spec_letter_multiplier(),
    {
        match self {
            ScoreModifier::DoubleLetter => 2,
            ScoreModifier::TripleLetter => 3,
            _ => 1,
        }
    }

    /// The character that shows this premium on an empty square.
    pub fn as_char(&self) -> (r: char)
        ensures
            r == match self {
                ScoreModifier::Plain => ' ',
                ScoreModifier::DoubleLetter => '2',
                ScoreModifier::TripleLetter => '3',
                ScoreModifier::DoubleWord => '4',
                ScoreModifier::TripleWord => '6',
            },
    {
        match self {
            ScoreModifier::Plain => ' ',
            ScoreModifier::DoubleLetter => '2',
            ScoreModifier::TripleLetter => '3',
            ScoreModifier::DoubleWord => '4',
            ScoreModifier::TripleWord => '6',
        }
    }

    /// The premium of a square of the board.
    pub fn at(position: Position) -> (r: ScoreModifier)
        requires
            position.row < BOARD_SIZE,
            position.col < BOARD_SIZE,
        ensures
            r == modifier_at(position.row as int, position.col as int),
    {
        let x: usize = if position.row <= 7 { 7 - position.row } else { position.row - 7 };
        let y: usize = if position.col <= 7 { 7 - position.col } else { position.col - 7 };
        if x == y {
            if x == 1 {
                ScoreModifier::DoubleLetter
            } else if x == 2 {
                ScoreModifier::TripleLetter
            } else if x == 7 {
                ScoreModifier::TripleWord
            } else {
                ScoreModifier::DoubleWord
            }
        } else if x % 7 == 0 || y % 7 == 0 {
            if (x + y) % 7 == 4 {
                ScoreModifier::DoubleLetter
            } else {
                ScoreModifier::Plain
            }
        } else if x + 4 == y || y + 4 == x {
            if (x + y) % 7 == 1 {
                ScoreModifier::TripleLetter
            } else {
                ScoreModifier::DoubleLetter
            }
        } else {
            ScoreModifier::Plain
        }
    }
}

/// The points for completing a play with all seven rack tiles.
pub const BINGO_BONUS: u64 = 50;

/// The premium that applies to a square of a play: none where a tile already lay.
pub open spec fn play_premium(sq: CheckedAisleSquare, pos: Position) -> ScoreModifier {
    if sq.tile is Some {
        ScoreModifier::Plain
    } else {
        modifier_at(pos.row as int, pos.col as int)
    }
}

/// The points of one letter of a play, its letter premium applied.
pub open spec fn letter_score(sq: CheckedAisleSquare, pos: Position, ch: char) -> nat {
    play_premium(sq, pos).spec_letter_multiplier() * letter_points(ch)
}

/// The points of the cross-word that a letter of a play forms, if any.
pub open spec fn cross_word_score(sq: CheckedAisleSquare, pos: Position, ch: char) -> nat {
    match sq.cross_checks {
        Some(x) => ((x.cross_sum + letter_score(sq, pos, ch)) * play_premium(
            sq,
            pos,
        ).spec_word_multiplier()) as nat,
        None => 0,
    }
}

/// The square and position of letter `i` of a play that starts at `start` on an aisle.
pub open spec fn play_square(squares: Seq<CheckedAisleSquare>, start: int, i: int) -> CheckedAisleSquare {
    squares[start + i]
}

pub open spec fn play_position(direction: Direction, aisle: usize, start: int, i: int) -> Position {
    aisle_cross(direction, aisle, (start + i) as usize)
}

/// The letter points of the first `n` letters of the primary word.
pub open spec fn primary_sum(
    squares: Seq<CheckedAisleSquare>,
    direction: Direction,
    aisle: usize,
    start: int,
    word: Seq<char>,
    n: nat,
) -> nat
    decreases n,
{
    if n == 0 {
        0
    } else {
        primary_sum(squares, direction, aisle, start, word, (n - 1) as nat) + letter_score(
            play_square(squares, start, n - 1),
            play_position(direction, aisle, start, n - 1),
            word[n - 1],
        )
    }
}

/// The product of the word premiums of the first `n` letters.
pub open spec fn word_multiplier_of(
    squares: Seq<CheckedAisleSquare>,
    direction: Direction,
    aisle: usize,
    start: int,
    n: nat,
) -> nat
    decreases n,
{
    if n == 0 {
        1
    } else {
        word_multiplier_of(squares, direction, aisle, start, (n - 1) as nat) * play_premium(
            play_square(squares, start, n - 1),
            play_position(direction, aisle, start, n - 1),
        ).spec_word_multiplier()
    }
}

/// The cross-word points of the first `n` letters.
pub open spec fn cross_sum_of(
    squares: Seq<CheckedAisleSquare>,
    direction: Direction,
    aisle: usize,
    start: int,
    word: Seq<char>,
    n: nat,
) -> nat
    decreases n,
{
    if n == 0 {
        0
    } else {
        cross_sum_of(squares, direction, aisle, start, word, (n - 1) as nat) + cross_word_score(
            play_square(squares, start, n - 1),
            play_position(direction, aisle, start, n - 1),
            word[n - 1],
        )
    }
}

/// How many of the first `n` squares of a play were empty, that is received a tile.
pub open spec fn tiles_placed(squares: Seq<CheckedAisleSquare>, start: int, n: nat) -> nat
    decreases n,
{
    if n == 0 {
        0
    } else {
        tiles_placed(squares, start, (n - 1) as nat) + if play_square(squares, start, n - 1).tile is None {
            1nat
        } else {
            0nat
        }
    }
}

/// The score of placing `word` from `start` on an aisle: the cross-words, the primary word
/// with its word premiums, and the bonus for seven placed tiles.
pub open spec fn play_score(
    squares: Seq<CheckedAisleSquare>,
    direction: Direction,
    aisle: usize,
    start: int,
    word: Seq<char>,
) -> nat {
    cross_sum_of(squares, direction, aisle, start, word, word.len()) + primary_sum(
        squares,
        direction,
        aisle,
        start,
        word,
        word.len(),
    ) * word_multiplier_of(squares, direction, aisle, start, word.len()) + if tiles_placed(
        squares,
        start,
        word.len(),
    ) == 7 {
        50nat
    } else {
        0nat
    }
}

pub open spec fn pow3(n: nat) -> nat
    decreases n,
{
    if n == 0 {
        1
    } else {
        3 * pow3((n - 1) as nat)
    }
}

proof fn lemma_pow3_bound(n: nat)
    requires
        n <= 15,
    ensures
        pow3(n) <= pow3(15),
        pow3(15) == 14348907,
    decreases 15 - n,
{
    reveal_with_fuel(pow3, 16);
    if n < 15 {
        lemma_pow3_bound(n + 1);
    }
}

/// The word multiplier, letter score and cross-word score of one letter of a play.
fn letter_terms(square: &CheckedAisleSquare, position: Position, ch: char) -> (r: (u64, u64, u64))
    requires
        position.row < BOARD_SIZE,
        position.col < BOARD_SIZE,
    ensures
        r.0 == play_premium(*square, position).spec_word_multiplier(),
        r.1 == letter_score(*square, position, ch),
        r.2 == cross_word_score(*square, position, ch),
        r.0 <= 3,
        r.1 <= 30,
        r.2 <= 13000000000,
{
    let modifier = if square.tile.is_some() {
        ScoreModifier::Plain
    } else {
        ScoreModifier::at(position)
    };
    let word_mult = modifier.word_multiplier() as u64;
    let letter = (modifier.letter_multiplier() * letter_value(ch)) as u64;
    let cross: u64 = match &square.cross_checks {
        Some(checks) => {
            proof {
                assert((checks.cross_sum + letter) * word_mult <= 13000000000) by (nonlinear_arith)
                    requires
                        checks.cross_sum <= u32::MAX,
                        letter <= 30,
                        word_mult <= 3,
                ;
            }
            (checks.cross_sum as u64 + letter) * word_mult
        },
        None => 0,
    };
    (word_mult, letter, cross)
}

/// The score of placing `word` from `start_word_index` on the aisle of `squares`.
pub fn score_play(
    squares: &Vec<CheckedAisleSquare>,
    direction: Direction,
    aisle: usize,
    start_word_index: usize,
    word: &Vec<char>,
) -> (r: u64)
    requires
        squares@.len() == BOARD_SIZE,
        aisle < BOARD_SIZE,
        start_word_index + word@.len() <= BOARD_SIZE,
    ensures
        r == play_score(squares@, direction, aisle, start_word_index as int, word@),
{
    let ghost sq = squares@;
    let ghost st = start_word_index as int;
    let mut cross_total: u64 = 0;
    let mut primary: u64 = 0;
    let mut multiplier: u64 = 1;
    let mut placed: usize = 0;
    let mut i: usize = 0;
    while i < word.len()
        invariant
            squares@.len() == BOARD_SIZE,
            aisle < BOARD_SIZE,
            start_word_index + word@.len() <= BOARD_SIZE,
            0 <= i <= word@.len(),
            cross_total == cross_sum_of(sq, direction, aisle, st, word@, i as nat),
            primary == primary_sum(sq, direction, aisle, st, word@, i as nat),
            multiplier == word_multiplier_of(sq, direction, aisle, st, i as nat),
            placed == tiles_placed(sq, st, i as nat),
            cross_total <= i * 13000000000,
            primary <= 30 * i,
            multiplier <= pow3(i as nat),
            placed <= i,
            sq == squares@,
            st == start_word_index,
        decreases word@.len() - i,
    {
        let index = start_word_index + i;
        let square = &squares[index];
        let position = Position::from_aisle_cross(direction, aisle, index);
        let (word_mult, letter, cross) = letter_terms(square, position, word[i]);
        if square.tile.is_none() {
            placed += 1;
        }
        primary = primary + letter;
        proof {
            lemma_pow3_bound(i as nat);
            assert(multiplier * word_mult <= pow3(i as nat) * 3) by (nonlinear_arith)
                requires
                    multiplier <= pow3(i as nat),
                    word_mult <= 3,
            ;
        }
        multiplier = multiplier * word_mult;
        cross_total = cross_total + cross;
        i += 1;
    }
    proof {
        lemma_pow3_bound(i as nat);
        assert(primary * multiplier <= 450 * 14348907) by (nonlinear_arith)
            requires
                primary <= 450,
                multiplier <= 14348907,
        ;
    }
    let mut total = cross_total + primary * multiplier;
    if placed == 7 {
        total = total + BINGO_BONUS;
    }
    total
}

} // verus!
