//! The board, and the checked board that annotates each empty square with its
//! cross-checks and anchor flag.
use crate::error::ScrabbleError;
use crate::generation::ScrabblePlay;
use crate::scoring::{modifier_at, ScoreModifier};
use crate::util::{chars_of, string_from_chars, Direction, Position, BOARD_SIZE, EMPTY_SQUARE_CHAR};
use vstd::prelude::*;

verus! {

/// The number of squares of the board.
pub const N_SQUARES: usize = 225;

/// The index of a square in a row-major array of squares.
pub open spec fn square_index(row: int, col: int) -> int {
    row * 15 + col
}

/// The square of a row-major sequence of squares at `cross` along aisle `aisle`.
pub open spec fn aisle_square<T>(squares: Seq<T>, direction: Direction, aisle: int, cross: int) -> T {
    match direction {
        Direction::Horizontal => squares[square_index(aisle, cross)],
        Direction::Vertical => squares[square_index(cross, aisle)],
    }
}

/// The letters directly before `cross` on its aisle, up to the first empty square.
pub open spec fn run_before(
    squares: Seq<Option<char>>,
    direction: Direction,
    aisle: int,
    cross: int,
) -> Seq<char>
    decreases cross,
{
    if cross <= 0 {
        Seq::empty()
    } else {
        match aisle_square(squares, direction, aisle, cross - 1) {
            Some(c) => run_before(squares, direction, aisle, cross - 1).push(c),
            None => Seq::empty(),
        }
    }
}

/// The letters directly after `cross` on its aisle, up to the first empty square.
pub open spec fn run_after(
    squares: Seq<Option<char>>,
    direction: Direction,
    aisle: int,
    cross: int,
) -> Seq<char>
    decreases 15 - cross,
{
    if cross + 1 >= 15 {
        Seq::empty()
    } else {
        match aisle_square(squares, direction, aisle, cross + 1) {
            Some(c) => seq![c] + run_after(squares, direction, aisle, cross + 1),
            None => Seq::empty(),
        }
    }
}

pub proof fn lemma_run_before_len(
    squares: Seq<Option<char>>,
    direction: Direction,
    aisle: int,
    cross: int,
)
    ensures
        run_before(squares, direction, aisle, cross).len() <= if cross < 0 {
            0
        } else {
            cross
        },
    decreases cross,
{
    if cross > 0 {
        lemma_run_before_len(squares, direction, aisle, cross - 1);
    }
}

pub proof fn lemma_run_after_len(
    squares: Seq<Option<char>>,
    direction: Direction,
    aisle: int,
    cross: int,
)
    requires
        0 <= cross,
    ensures
        run_after(squares, direction, aisle, cross).len() <= if cross >= 14 {
            0
        } else {
            14 - cross
        },
    decreases 15 - cross,
{
    if cross + 1 < 15 {
        lemma_run_after_len(squares, direction, aisle, cross + 1);
    }
}

pub proof fn lemma_square_index_injective(r1: int, c1: int, r2: int, c2: int)
    requires
        0 <= c1 < 15,
        0 <= c2 < 15,
        r1 != r2 || c1 != c2,
    ensures
        square_index(r1, c1) != square_index(r2, c2),
{
    if r1 != r2 {
        assert(r1 * 15 + c1 != r2 * 15 + c2) by (nonlinear_arith)
            requires
                0 <= c1 < 15,
                0 <= c2 < 15,
                r1 != r2,
        ;
    }
}

/// The squares after placing `word` from `start` along `direction`.
pub open spec fn with_word(
    squares: Seq<Option<char>>,
    word: Seq<char>,
    start: Position,
    direction: Direction,
) -> Seq<Option<char>> {
    Seq::new(
        squares.len(),
        |i: int|
            {
                let p = Position { row: (i / 15) as usize, col: (i % 15) as usize };
                if p.spec_aisle(direction) == start.spec_aisle(direction) && start.spec_cross(
                    direction,
                ) <= p.spec_cross(direction) < start.spec_cross(direction) + word.len() {
                    Some(word[p.spec_cross(direction) - start.spec_cross(direction)])
                } else {
                    squares[i]
                }
            },
    )
}

pub proof fn lemma_square_index_split(i: int)
    requires
        0 <= i < 225,
    ensures
        0 <= i / 15 < 15,
        0 <= i % 15 < 15,
        square_index(i / 15, i % 15) == i,
{
}

/// A board with no tile.
pub open spec fn empty_squares() -> Seq<Option<char>> {
    Seq::new(225, |i: int| None)
}

/// The play lies within the board.
pub open spec fn play_fits(p: ScrabblePlay) -> bool {
    &&& p.start.row < 15
    &&& p.start.col < 15
    &&& p.start.spec_cross(p.direction) + p.word@.len() <= 15
}

/// The squares after placing the words of `plays` in order.
pub open spec fn after_plays(squares: Seq<Option<char>>, plays: Seq<ScrabblePlay>) -> Seq<Option<char>>
    decreases plays.len(),
{
    if plays.len() == 0 {
        squares
    } else {
        let p = plays.last();
        with_word(after_plays(squares, plays.drop_last()), p.word@, p.start, p.direction)
    }
}

/// The square (`row`, `col`) lies on aisle `aisle` of the given axis.
pub open spec fn on_aisle(direction: Direction, aisle: int, row: int, col: int) -> bool {
    match direction {
        Direction::Horizontal => row == aisle,
        Direction::Vertical => col == aisle,
    }
}

/// Some square that shares a side with (`row`, `col`) holds a tile.
pub open spec fn has_neighbour(squares: Seq<Option<char>>, row: int, col: int) -> bool {
    ||| row > 0 && squares[square_index(row - 1, col)] is Some
    ||| row < 14 && squares[square_index(row + 1, col)] is Some
    ||| col > 0 && squares[square_index(row, col - 1)] is Some
    ||| col < 14 && squares[square_index(row, col + 1)] is Some
}

/// No square holds a tile.
pub open spec fn all_empty(squares: Seq<Option<char>>) -> bool {
    forall|i: int| 0 <= i < squares.len() ==> (#[trigger] squares[i]) is None
}

/// What a textual board's characters describe: a letter is a tile, a space an empty square,
/// and a newline nothing.
pub open spec fn parsed_squares(s: Seq<char>) -> Seq<Option<char>>
    decreases s.len(),
{
    if s.len() == 0 {
        Seq::empty()
    } else if s.last() == '\n' {
        parsed_squares(s.drop_last())
    } else if s.last() == ' ' {
        parsed_squares(s.drop_last()).push(None)
    } else {
        parsed_squares(s.drop_last()).push(Some(s.last()))
    }
}

/// Each character of a textual board is a lowercase letter, a space or a newline.
pub open spec fn board_text_chars(s: Seq<char>) -> bool {
    forall|i: int|
        0 <= i < s.len() ==> ('a' <= #[trigger] s[i] <= 'z' || s[i] == ' ' || s[i] == '\n')
}

/// The character that shows a square: its letter, else its premium when modifiers are shown,
/// else a space.
pub open spec fn square_char(squares: Seq<Option<char>>, row: int, col: int, show_modifiers: bool) -> char {
    match squares[square_index(row, col)] {
        Some(c) => c,
        None => if show_modifiers {
            modifier_char(modifier_at(row, col))
        } else {
            ' '
        },
    }
}

pub open spec fn modifier_char(m: ScoreModifier) -> char {
    match m {
        ScoreModifier::Plain => ' ',
        ScoreModifier::DoubleLetter => '2',
        ScoreModifier::TripleLetter => '3',
        ScoreModifier::DoubleWord => '4',
        ScoreModifier::TripleWord => '6',
    }
}

/// The first `cols` characters of row `row`.
pub open spec fn row_text(squares: Seq<Option<char>>, row: int, cols: nat, show_modifiers: bool) -> Seq<char>
    decreases cols,
{
    if cols == 0 {
        Seq::empty()
    } else {
        row_text(squares, row, (cols - 1) as nat, show_modifiers).push(
            square_char(squares, row, cols - 1, show_modifiers),
        )
    }
}

/// The text of the first `rows` rows, each followed by a newline when asked.
pub open spec fn board_text(
    squares: Seq<Option<char>>,
    rows: nat,
    show_modifiers: bool,
    newlines: bool,
) -> Seq<char>
    decreases rows,
{
    if rows == 0 {
        Seq::empty()
    } else {
        board_text(squares, (rows - 1) as nat, show_modifiers, newlines) + row_text(
            squares,
            rows - 1,
            15,
            show_modifiers,
        ) + if newlines {
            seq!['\n']
        } else {
            Seq::empty()
        }
    }
}

/// A 15 by 15 grid of squares, row-major, each empty or holding a letter.
#[derive(Debug, Clone)]
pub struct ScrabbleBoard {
    pub squares: Vec<Option<char>>,
}

impl ScrabbleBoard {
    pub open spec fn wf(&self) -> bool {
        self.squares@.len() == N_SQUARES
    }

    pub open spec fn tile(&self, row: int, col: int) -> Option<char> {
        self.squares@[square_index(row, col)]
    }

    /// The board with every square empty.
    pub fn default() -> (r: ScrabbleBoard)
        ensures
            r.wf(),
            all_empty(r.squares@),
            r.squares@ == empty_squares(),
    {
        let mut squares: Vec<Option<char>> = Vec::new();
        let mut i: usize = 0;
        while i < N_SQUARES
            invariant
                i <= N_SQUARES,
                squares@.len() == i,
                all_empty(squares@),
            decreases N_SQUARES - i,
        {
            squares.push(None);
            i += 1;
        }
        proof {
            assert(squares@ =~= empty_squares());
        }
        ScrabbleBoard { squares }
    }

    /// Places the word of a play on the board.
    pub fn add_play(&mut self, play: &ScrabblePlay)
        requires
            old(self).wf(),
            play_fits(*play),
        ensures
            final(self).wf(),
            final(self).squares@ == with_word(
                old(self).squares@,
                play.word@,
                play.start,
                play.direction,
            ),
    {
        self.add_word(play.word.as_str(), play.start, play.direction);
    }

    /// The tile on a square.
    pub fn get(&self, position: Position) -> (r: Option<char>)
        requires
            self.wf(),
            position.row < BOARD_SIZE,
            position.col < BOARD_SIZE,
        ensures
            r == self.tile(position.row as int, position.col as int),
    {
        self.squares[position.row * BOARD_SIZE + position.col]
    }

    /// Parses 15 lines of 15 characters, a lowercase letter for a tile and a space for an
    /// empty square; newlines are skipped.
    pub fn from_contents(contents: &str) -> (r: Result<ScrabbleBoard, ScrabbleError>)
        ensures
            r is Ok <==> board_text_chars(contents@) && parsed_squares(contents@).len()
                == N_SQUARES,
            r matches Ok(b) ==> b.wf() && b.squares@ == parsed_squares(contents@),
            r is Err ==> r == Err::<ScrabbleBoard, ScrabbleError>(
                ScrabbleError::InvalidBoardContent,
            ),
    {
        let chars = chars_of(contents);
        let mut squares: Vec<Option<char>> = Vec::new();
        let mut i: usize = 0;
        while i < chars.len()
            invariant
                chars@ == contents@,
                0 <= i <= chars@.len(),
                board_text_chars(chars@.subrange(0, i as int)),
                squares@ == parsed_squares(chars@.subrange(0, i as int)),
            decreases chars@.len() - i,
        {
            let ch = chars[i];
            proof {
                let s = chars@.subrange(0, i + 1);
                assert(s.drop_last() =~= chars@.subrange(0, i as int));
                assert(s.last() == ch);
            }
            if ch == '\n' {
            } else if ch == EMPTY_SQUARE_CHAR {
                squares.push(None);
            } else if 'a' <= ch && ch <= 'z' {
                squares.push(Some(ch));
            } else {
                proof {
                    assert(chars@[i as int] == ch);
                }
                return Err(ScrabbleError::InvalidBoardContent);
            }
            i += 1;
            proof {
                let s = chars@.subrange(0, i as int);
                assert forall|k: int| 0 <= k < s.len() implies ('a' <= #[trigger] s[k] <= 'z' || s[k]
                    == ' ' || s[k] == '\n') by {
                    if k < i - 1 {
                        assert(s[k] == chars@.subrange(0, i - 1)[k]);
                    }
                }
            }
        }
        proof {
            assert(chars@.subrange(0, i as int) =~= chars@);
        }
        if squares.len() != N_SQUARES {
            return Err(ScrabbleError::InvalidBoardContent);
        }
        Ok(ScrabbleBoard { squares })
    }
    fn render(&self, show_modifiers: bool, include_newlines: bool) -> (r: String)
        requires
            self.wf(),
        ensures
            r@ == board_text(self.squares@, 15, show_modifiers, include_newlines),
    {
        let mut result: Vec<char> = Vec::new();
        let mut row: usize = 0;
        while row < BOARD_SIZE
            invariant
                self.wf(),
                row <= BOARD_SIZE,
                result@ == board_text(self.squares@, row as nat, show_modifiers, include_newlines),
            decreases BOARD_SIZE - row,
        {
            let ghost before = result@;
            let mut col: usize = 0;
            while col < BOARD_SIZE
                invariant
                    self.wf(),
                    row < BOARD_SIZE,
                    col <= BOARD_SIZE,
                    result@ == before + row_text(self.squares@, row as int, col as nat, show_modifiers),
                decreases BOARD_SIZE - col,
            {
                let position = Position { row, col };
                let next_char = match self.get(position) {
                    Some(ch) => ch,
                    None => if show_modifiers {
                        ScoreModifier::at(position).as_char()
                    } else {
                        EMPTY_SQUARE_CHAR
                    },
                };
                result.push(next_char);
                col += 1;
                proof {
                    assert(result@ =~= before + row_text(self.squares@, row as int, col as nat, show_modifiers));
                }
            }
            if include_newlines {
                result.push('\n');
            }
            row += 1;
            proof {
                assert(result@ =~= board_text(self.squares@, row as nat, show_modifiers, include_newlines));
            }
        }
        string_from_chars(&result)
    }

    /// The squares as 225 characters, a letter or a space each, without newlines.
    pub fn contents(&self) -> (r: String)
        requires
            self.wf(),
        ensures
            r@ == board_text(self.squares@, 15, false, false),
    {
        self.render(false, false)
    }

    /// Fifteen lines, each square shown by its letter or, when empty, by its premium.
    pub fn display(&self) -> (r: String)
        requires
            self.wf(),
        ensures
            r@ == board_text(self.squares@, 15, true, true),
    {
        self.render(true, true)
    }

    /// The board with rows and columns exchanged.
    pub fn transposed(&self) -> (r: ScrabbleBoard)
        requires
            self.wf(),
        ensures
            r.wf(),
            forall|row: int, col: int|
                0 <= row < 15 && 0 <= col < 15 ==> #[trigger] r.tile(row, col) == self.tile(col, row),
    {
        let mut squares: Vec<Option<char>> = Vec::new();
        let mut row: usize = 0;
        while row < BOARD_SIZE
            invariant
                self.wf(),
                row <= BOARD_SIZE,
                squares@.len() == row * 15,
                forall|i: int, j: int|
                    0 <= i < row && 0 <= j < 15 ==> #[trigger] squares@[square_index(i, j)]
                        == self.tile(j, i),
            decreases BOARD_SIZE - row,
        {
            let mut col: usize = 0;
            while col < BOARD_SIZE
                invariant
                    self.wf(),
                    row < BOARD_SIZE,
                    col <= BOARD_SIZE,
                    squares@.len() == row * 15 + col,
                    forall|i: int, j: int|
                        0 <= i < row && 0 <= j < 15 ==> #[trigger] squares@[square_index(i, j)]
                            == self.tile(j, i),
                    forall|j: int|
                        0 <= j < col ==> #[trigger] squares@[square_index(row as int, j)]
                            == self.tile(j, row as int),
                decreases BOARD_SIZE - col,
            {
                let tile = self.get(Position { row: col, col: row });
                squares.push(tile);
                col += 1;
            }
            row += 1;
        }
        ScrabbleBoard { squares }
    }

    /// Whether no square holds a tile.
    pub fn is_empty(&self) -> (r: bool)
        requires
            self.wf(),
        ensures
            r == all_empty(self.squares@),
    {
        let mut i: usize = 0;
        while i < N_SQUARES
            invariant
                self.wf(),
                i <= N_SQUARES,
                forall|k: int| 0 <= k < i ==> (#[trigger] self.squares@[k]) is None,
            decreases N_SQUARES - i,
        {
            if self.squares[i].is_some() {
                return false;
            }
            i += 1;
        }
        true
    }

    /// The tile at `cross` on aisle `aisle` of the given axis.
    pub fn aisle_tile(&self, direction: Direction, aisle: usize, cross: usize) -> (r: Option<char>)
        requires
            self.wf(),
            aisle < BOARD_SIZE,
            cross < BOARD_SIZE,
        ensures
            r == aisle_square(self.squares@, direction, aisle as int, cross as int),
    {
        self.get(Position::from_aisle_cross(direction, aisle, cross))
    }

    /// The letters directly before `position` along the given axis.
    pub fn preceding_letters(&self, position: Position, direction: Direction) -> (r: Vec<char>)
        requires
            self.wf(),
            position.row < BOARD_SIZE,
            position.col < BOARD_SIZE,
        ensures
            r@ == run_before(
                self.squares@,
                direction,
                position.spec_aisle(direction) as int,
                position.spec_cross(direction) as int,
            ),
    {
        let aisle = position.aisle(direction);
        let cross = position.cross(direction);
        let ghost sq = self.squares@;
        let mut start: usize = cross;
        while start > 0 && self.aisle_tile(direction, aisle, start - 1).is_some()
            invariant
                self.wf(),
                aisle < BOARD_SIZE,
                cross < BOARD_SIZE,
                sq == self.squares@,
                start <= cross,
                run_before(sq, direction, aisle as int, cross as int) == run_before(
                    sq,
                    direction,
                    aisle as int,
                    start as int,
                ) + Seq::new(
                    (cross - start) as nat,
                    |k: int| aisle_square(sq, direction, aisle as int, start + k)->0,
                ),
                forall|k: int|
                    start <= k < cross ==> aisle_square(sq, direction, aisle as int, k) is Some,
            decreases start,
        {
            proof {
                let c = aisle_square(sq, direction, aisle as int, start - 1)->0;
                let tail = Seq::new(
                    (cross - start) as nat,
                    |k: int| aisle_square(sq, direction, aisle as int, start + k)->0,
                );
                let tail2 = Seq::new(
                    (cross - (start - 1)) as nat,
                    |k: int| aisle_square(sq, direction, aisle as int, start - 1 + k)->0,
                );
                assert(tail2 =~= seq![c] + tail);
                assert(run_before(sq, direction, aisle as int, start as int) == run_before(
                    sq,
                    direction,
                    aisle as int,
                    start - 1,
                ).push(c));
                assert(run_before(sq, direction, aisle as int, start - 1).push(c) + tail
                    =~= run_before(sq, direction, aisle as int, start - 1) + tail2);
            }
            start -= 1;
        }
        proof {
            assert(run_before(sq, direction, aisle as int, start as int) =~= Seq::empty());
        }
        let mut result: Vec<char> = Vec::new();
        let mut k: usize = start;
        while k < cross
            invariant
                self.wf(),
                aisle < BOARD_SIZE,
                cross < BOARD_SIZE,
                sq == self.squares@,
                start <= k <= cross,
                forall|j: int|
                    start <= j < cross ==> aisle_square(sq, direction, aisle as int, j) is Some,
                result@ == Seq::new(
                    (k - start) as nat,
                    |j: int| aisle_square(sq, direction, aisle as int, start + j)->0,
                ),
            decreases cross - k,
        {
            let tile = self.aisle_tile(direction, aisle, k);
            if let Some(ch) = tile {
                result.push(ch);
            }
            k += 1;
            proof {
                assert(result@ =~= Seq::new(
                    (k - start) as nat,
                    |j: int| aisle_square(sq, direction, aisle as int, start + j)->0,
                ));
            }
        }
        proof {
            assert(result@ =~= run_before(sq, direction, aisle as int, cross as int));
        }
        result
    }

    /// The letters directly after `position` along the given axis.
    pub fn following_letters(&self, position: Position, direction: Direction) -> (r: Vec<char>)
        requires
            self.wf(),
            position.row < BOARD_SIZE,
            position.col < BOARD_SIZE,
        ensures
            r@ == run_after(
                self.squares@,
                direction,
                position.spec_aisle(direction) as int,
                position.spec_cross(direction) as int,
            ),
    {
        let aisle = position.aisle(direction);
        let cross = position.cross(direction);
        let ghost sq = self.squares@;
        let mut result: Vec<char> = Vec::new();
        let mut k: usize = cross + 1;
        while k < BOARD_SIZE && self.aisle_tile(direction, aisle, k).is_some()
            invariant
                self.wf(),
                aisle < BOARD_SIZE,
                cross < BOARD_SIZE,
                sq == self.squares@,
                cross < k <= BOARD_SIZE,
                run_after(sq, direction, aisle as int, cross as int) == result@ + run_after(
                    sq,
                    direction,
                    aisle as int,
                    k - 1,
                ),
            decreases BOARD_SIZE - k,
        {
            let tile = self.aisle_tile(direction, aisle, k);
            if let Some(ch) = tile {
                proof {
                    assert(run_after(sq, direction, aisle as int, k - 1) == seq![ch] + run_after(
                        sq,
                        direction,
                        aisle as int,
                        k as int,
                    ));
                    assert(result@ + (seq![ch] + run_after(sq, direction, aisle as int, k as int))
                        =~= result@.push(ch) + run_after(sq, direction, aisle as int, k as int));
                }
                result.push(ch);
            }
            k += 1;
        }
        proof {
            assert(run_after(sq, direction, aisle as int, k - 1) =~= Seq::empty());
            assert(result@ + Seq::<char>::empty() =~= result@);
        }
        result
    }

    /// The letters directly before `position` along the given axis, if any.
    pub fn preceding(&self, position: Position, direction: Direction) -> (r: Option<String>)
        requires
            self.wf(),
            position.row < BOARD_SIZE,
            position.col < BOARD_SIZE,
        ensures
            ({
                let run = run_before(
                    self.squares@,
                    direction,
                    position.spec_aisle(direction) as int,
                    position.spec_cross(direction) as int,
                );
                if run.len() == 0 {
                    r is None
                } else {
                    r matches Some(s) && s@ == run
                }
            }),
    {
        let letters = self.preceding_letters(position, direction);
        if letters.len() == 0 {
            None
        } else {
            Some(string_from_chars(&letters))
        }
    }

    /// The letters directly after `position` along the given axis, if any.
    pub fn following(&self, position: Position, direction: Direction) -> (r: Option<String>)
        requires
            self.wf(),
            position.row < BOARD_SIZE,
            position.col < BOARD_SIZE,
        ensures
            ({
                let run = run_after(
                    self.squares@,
                    direction,
                    position.spec_aisle(direction) as int,
                    position.spec_cross(direction) as int,
                );
                if run.len() == 0 {
                    r is None
                } else {
                    r matches Some(s) && s@ == run
                }
            }),
    {
        let letters = self.following_letters(position, direction);
        if letters.len() == 0 {
            None
        } else {
            Some(string_from_chars(&letters))
        }
    }

    /// Places the letters of `word` from `start` onwards along the given axis.
    pub fn add_word(&mut self, word: &str, start: Position, direction: Direction)
        requires
            old(self).wf(),
            start.row < BOARD_SIZE,
            start.col < BOARD_SIZE,
            start.spec_cross(direction) + word@.len() <= BOARD_SIZE,
        ensures
            final(self).wf(),
            final(self).squares@ == with_word(old(self).squares@, word@, start, direction),
            forall|k: int|
                0 <= k < 15 ==> #[trigger] aisle_square(
                    final(self).squares@,
                    direction,
                    start.spec_aisle(direction) as int,
                    k,
                ) == if start.spec_cross(direction) <= k < start.spec_cross(direction) + word@.len() {
                    Some(word@[k - start.spec_cross(direction)])
                } else {
                    aisle_square(old(self).squares@, direction, start.spec_aisle(direction) as int, k)
                },
            forall|row: int, col: int|
                0 <= row < 15 && 0 <= col < 15 && !on_aisle(
                    direction,
                    start.spec_aisle(direction) as int,
                    row,
                    col,
                ) ==> #[trigger] final(self).tile(row, col) == old(self).tile(row, col),
    {
        let letters = chars_of(word);
        let aisle = start.aisle(direction);
        let first = start.cross(direction);
        let mut i: usize = 0;
        while i < letters.len()
            invariant
                self.wf(),
                letters@ == word@,
                aisle < BOARD_SIZE,
                aisle == start.spec_aisle(direction),
                first == start.spec_cross(direction),
                first + letters@.len() <= BOARD_SIZE,
                0 <= i <= letters@.len(),
                forall|k: int|
                    0 <= k < 15 ==> #[trigger] aisle_square(self.squares@, direction, aisle as int, k)
                        == if first <= k < first + i {
                        Some(word@[k - first])
                    } else {
                        aisle_square(old(self).squares@, direction, aisle as int, k)
                    },
                forall|row: int, col: int|
                    0 <= row < 15 && 0 <= col < 15 && !on_aisle(direction, aisle as int, row, col)
                        ==> #[trigger] self.squares@[square_index(row, col)] == old(
                        self,
                    ).squares@[square_index(row, col)],
            decreases letters@.len() - i,
        {
            let position = Position::from_aisle_cross(direction, aisle, first + i);
            let index = position.row * BOARD_SIZE + position.col;
            let ghost prev = self.squares@;
            self.squares.set(index, Some(letters[i]));
            proof {
                assert forall|row: int, col: int|
                    0 <= row < 15 && 0 <= col < 15 && (row != position.row || col != position.col)
                        implies #[trigger] self.tile(row, col) == prev[square_index(row, col)] by {
                    lemma_square_index_injective(row, col, position.row as int, position.col as int);
                }
                assert(on_aisle(direction, aisle as int, position.row as int, position.col as int));
                assert forall|row: int, col: int|
                    0 <= row < 15 && 0 <= col < 15 && !on_aisle(direction, aisle as int, row, col)
                        implies #[trigger] self.squares@[square_index(row, col)] == old(
                        self,
                    ).squares@[square_index(row, col)] by {
                    assert(row != position.row || col != position.col);
                    assert(self.tile(row, col) == prev[square_index(row, col)]);
                }
                assert forall|k: int| 0 <= k < 15 implies #[trigger] aisle_square(
                    self.squares@,
                    direction,
                    aisle as int,
                    k,
                ) == if first <= k < first + i + 1 {
                    Some(word@[k - first])
                } else {
                    aisle_square(old(self).squares@, direction, aisle as int, k)
                } by {
                    if k != first + i {
                        assert(aisle_square(prev, direction, aisle as int, k) == aisle_square(
                            self.squares@,
                            direction,
                            aisle as int,
                            k,
                        ));
                    }
                }
            }
            i += 1;
        }
        proof {
            let w = with_word(old(self).squares@, word@, start, direction);
            assert forall|j: int| 0 <= j < 225 implies #[trigger] self.squares@[j] == w[j] by {
                lemma_square_index_split(j);
                let row = j / 15;
                let col = j % 15;
                let p = Position { row: row as usize, col: col as usize };
                if on_aisle(direction, aisle as int, row, col) {
                    let k = p.spec_cross(direction) as int;
                    assert(aisle_square(self.squares@, direction, aisle as int, k) == self.squares@[j]);
                    assert(aisle_square(old(self).squares@, direction, aisle as int, k) == old(self).squares@[j]);
                } else {
                    assert(self.squares@[square_index(row, col)] == old(self).squares@[square_index(row, col)]);
                }
            }
            assert(self.squares@ =~= w);
        }
    }
}

} // verus!
