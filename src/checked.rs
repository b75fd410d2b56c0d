//! The checked board: each square with its tile, its cross-checks on both axes and its
//! anchor flag.
use crate::board::{
    all_empty, aisle_square, has_neighbour, lemma_run_after_len, lemma_run_before_len, run_after,
    run_before, square_index, ScrabbleBoard, N_SQUARES,
};
use crate::cross_checks::{cross_allowed, letter_allowed, CrossChecks};
use crate::dawg::{Dawg, DawgEdge};
use crate::scoring::points;
use crate::util::{Direction, Position, BOARD_SIZE};
use vstd::prelude::*;

verus! {

/// `checks` are the cross-checks of a square with `preceding` and `following` letters on
/// the perpendicular axis: absent when there are none, else the mask and sum of those letters.
pub open spec fn checks_for(
    checks: Option<CrossChecks>,
    edges: Seq<DawgEdge>,
    preceding: Seq<char>,
    following: Seq<char>,
) -> bool {
    if preceding.len() == 0 && following.len() == 0 {
        checks is None
    } else {
        checks matches Some(x) && (forall|c: char|
            letter_allowed(x.allowed, c) <==> cross_allowed(edges, preceding, following, c))
            && x.cross_sum == points(preceding + following)
    }
}

#[derive(Debug, Clone, Copy)]
pub struct CheckedBoardSquare {
    pub tile: Option<char>,
    /// The checks that constrain a horizontal play through this square, from its vertical
    /// neighbours.
    pub horizontal_cross_checks: Option<CrossChecks>,
    /// The checks that constrain a vertical play through this square, from its horizontal
    /// neighbours.
    pub vertical_cross_checks: Option<CrossChecks>,
    /// The square is empty and touches a tile, or is the centre of an empty board.
    pub is_anchor: bool,
}

/// The square (`row`, `col`) of the checked board built from `squares` with the dictionary
/// `edges`.
pub open spec fn square_checked(
    sq: CheckedBoardSquare,
    squares: Seq<Option<char>>,
    edges: Seq<DawgEdge>,
    row: int,
    col: int,
) -> bool {
    &&& sq.tile == squares[square_index(row, col)]
    &&& sq.tile is Some ==> sq.horizontal_cross_checks is None && sq.vertical_cross_checks is None
        && !sq.is_anchor
    &&& sq.tile is None ==> {
        &&& checks_for(
            sq.horizontal_cross_checks,
            edges,
            run_before(squares, Direction::Vertical, col, row),
            run_after(squares, Direction::Vertical, col, row),
        )
        &&& checks_for(
            sq.vertical_cross_checks,
            edges,
            run_before(squares, Direction::Horizontal, row, col),
            run_after(squares, Direction::Horizontal, row, col),
        )
        &&& sq.is_anchor == (has_neighbour(squares, row, col) || (all_empty(squares) && row == 7
            && col == 7))
    }
}

/// A square as seen from one aisle: the cross-checks are those for plays along it.
#[derive(Debug, Clone, Copy)]
pub struct CheckedAisleSquare {
    pub tile: Option<char>,
    pub cross_checks: Option<CrossChecks>,
    pub is_anchor: bool,
}

impl CheckedBoardSquare {
    pub open spec fn spec_checks(&self, direction: Direction) -> Option<CrossChecks> {
        match direction {
            Direction::Horizontal => self.horizontal_cross_checks,
            Direction::Vertical => self.vertical_cross_checks,
        }
    }

    pub open spec fn spec_aisle_square(&self, direction: Direction) -> CheckedAisleSquare {
        CheckedAisleSquare {
            tile: self.tile,
            cross_checks: self.spec_checks(direction),
            is_anchor: self.is_anchor,
        }
    }

    /// An empty square with no tile, checks or anchor flag.
    pub fn default() -> (r: CheckedBoardSquare)
        ensures
            r.tile is None,
            r.horizontal_cross_checks is None,
            r.vertical_cross_checks is None,
            !r.is_anchor,
    {
        CheckedBoardSquare {
            tile: None,
            horizontal_cross_checks: None,
            vertical_cross_checks: None,
            is_anchor: false,
        }
    }

    /// The checks that constrain plays along the given axis.
    pub fn checks(&self, direction: Direction) -> (r: &Option<CrossChecks>)
        ensures
            *r == self.spec_checks(direction),
    {
        match direction {
            Direction::Horizontal => &self.horizontal_cross_checks,
            Direction::Vertical => &self.vertical_cross_checks,
        }
    }

    /// The checks that constrain plays along the given axis, to be replaced.
    pub fn checks_mut(&mut self, direction: Direction) -> (r: &mut Option<CrossChecks>)
        ensures
            *r == old(self).spec_checks(direction),
            final(self).tile == old(self).tile,
            final(self).is_anchor == old(self).is_anchor,
            final(self).spec_checks(direction) == *final(r),
            final(self).spec_checks(direction.spec_other()) == old(self).spec_checks(
                direction.spec_other(),
            ),
    {
        match direction {
            Direction::Horizontal => &mut self.horizontal_cross_checks,
            Direction::Vertical => &mut self.vertical_cross_checks,
        }
    }

    /// This square as seen from an aisle of the given axis.
    pub fn to_checked_row_square(&self, direction: Direction) -> (r: CheckedAisleSquare)
        ensures
            r == self.spec_aisle_square(direction),
    {
        let cross_checks = match direction {
            Direction::Horizontal => self.horizontal_cross_checks,
            Direction::Vertical => self.vertical_cross_checks,
        };
        CheckedAisleSquare { tile: self.tile, cross_checks, is_anchor: self.is_anchor }
    }
}

impl CheckedAisleSquare {
    pub open spec fn spec_is_compatible(&self, letter: char) -> bool {
        match self.cross_checks {
            Some(x) => letter_allowed(x.allowed, letter),
            None => true,
        }
    }

    /// Whether `letter` may be placed here: always when there are no cross-checks.
    pub fn is_compatible(&self, letter: char) -> (r: bool)
        ensures
            r == self.spec_is_compatible(letter),
    {
        match &self.cross_checks {
            Some(checks) => checks.allows(letter),
            None => true,
        }
    }

    pub fn is_anchor(&self) -> (r: bool)
        ensures
            r == self.is_anchor,
    {
        self.is_anchor
    }
}

#[derive(Debug, Clone)]
pub struct CheckedScrabbleBoard {
    pub squares: Vec<CheckedBoardSquare>,
}

impl CheckedScrabbleBoard {
    pub open spec fn wf(&self) -> bool {
        self.squares@.len() == N_SQUARES
    }

    /// This is the checked board of `board` with the dictionary `edges`.
    pub open spec fn checks_board(&self, board: Seq<Option<char>>, edges: Seq<DawgEdge>) -> bool {
        &&& self.wf()
        &&& board.len() == N_SQUARES
        &&& forall|row: int, col: int|
            0 <= row < 15 && 0 <= col < 15 ==> #[trigger] square_checked(
                self.squares@[square_index(row, col)],
                board,
                edges,
                row,
                col,
            )
    }

    /// Aisle `index` of the given axis, square by square.
    pub fn aisle(&self, direction: Direction, index: usize) -> (r: Vec<CheckedAisleSquare>)
        requires
            self.wf(),
            index < BOARD_SIZE,
        ensures
            r@.len() == BOARD_SIZE,
            forall|k: int|
                0 <= k < 15 ==> #[trigger] r@[k] == aisle_square(
                    self.squares@,
                    direction,
                    index as int,
                    k,
                ).spec_aisle_square(direction),
    {
        let mut aisle_contents: Vec<CheckedAisleSquare> = Vec::new();
        let mut cross: usize = 0;
        while cross < BOARD_SIZE
            invariant
                self.wf(),
                index < BOARD_SIZE,
                cross <= BOARD_SIZE,
                aisle_contents@.len() == cross,
                forall|k: int|
                    0 <= k < cross ==> #[trigger] aisle_contents@[k] == aisle_square(
                        self.squares@,
                        direction,
                        index as int,
                        k,
                    ).spec_aisle_square(direction),
            decreases BOARD_SIZE - cross,
        {
            let position = Position::from_aisle_cross(direction, index, cross);
            let square = &self.squares[position.row * BOARD_SIZE + position.col];
            aisle_contents.push(square.to_checked_row_square(direction));
            cross += 1;
        }
        aisle_contents
    }
}

impl ScrabbleBoard {
    /// Whether a square that shares a side with (`row`, `col`) holds a tile.
    fn touches_tile(&self, row: usize, col: usize) -> (r: bool)
        requires
            self.wf(),
            row < BOARD_SIZE,
            col < BOARD_SIZE,
        ensures
            r == has_neighbour(self.squares@, row as int, col as int),
    {
        (row > 0 && self.get(Position { row: row - 1, col }).is_some()) || (row < BOARD_SIZE - 1
            && self.get(Position { row: row + 1, col }).is_some()) || (col > 0 && self.get(
            Position { row, col: col - 1 },
        ).is_some()) || (col < BOARD_SIZE - 1 && self.get(Position { row, col: col + 1 }).is_some())
    }

    /// The cross-checks of an empty square from its neighbours along `neighbours`.
    fn checks_along(&self, dawg: &Dawg, position: Position, neighbours: Direction) -> (r: Option<
        CrossChecks,
    >)
        requires
            self.wf(),
            position.row < BOARD_SIZE,
            position.col < BOARD_SIZE,
        ensures
            checks_for(
                r,
                dawg.edges@,
                run_before(
                    self.squares@,
                    neighbours,
                    position.spec_aisle(neighbours) as int,
                    position.spec_cross(neighbours) as int,
                ),
                run_after(
                    self.squares@,
                    neighbours,
                    position.spec_aisle(neighbours) as int,
                    position.spec_cross(neighbours) as int,
                ),
            ),
    {
        let preceding = self.preceding(position, neighbours);
        let following = self.following(position, neighbours);
        if preceding.is_some() || following.is_some() {
            proof {
                lemma_run_before_len(
                    self.squares@,
                    neighbours,
                    position.spec_aisle(neighbours) as int,
                    position.spec_cross(neighbours) as int,
                );
                lemma_run_after_len(
                    self.squares@,
                    neighbours,
                    position.spec_aisle(neighbours) as int,
                    position.spec_cross(neighbours) as int,
                );
            }
            let preceding = CrossChecks::unwrap_or_empty(preceding.as_ref());
            let following = CrossChecks::unwrap_or_empty(following.as_ref());
            Some(CrossChecks::create(dawg, preceding, following))
        } else {
            None
        }
    }

    /// Annotates each empty square with its cross-checks on both axes and its anchor flag.
    pub fn to_checked_board(&self, dawg: &Dawg) -> (r: CheckedScrabbleBoard)
        requires
            self.wf(),
        ensures
            r.checks_board(self.squares@, dawg.edges@),
    {
        let board_empty = self.is_empty();
        let mut squares: Vec<CheckedBoardSquare> = Vec::new();
        let mut row: usize = 0;
        while row < BOARD_SIZE
            invariant
                self.wf(),
                board_empty == all_empty(self.squares@),
                row <= BOARD_SIZE,
                squares@.len() == row * 15,
                forall|i: int, j: int|
                    0 <= i < row && 0 <= j < 15 ==> #[trigger] square_checked(
                        squares@[square_index(i, j)],
                        self.squares@,
                        dawg.edges@,
                        i,
                        j,
                    ),
            decreases BOARD_SIZE - row,
        {
            let mut col: usize = 0;
            while col < BOARD_SIZE
                invariant
                    self.wf(),
                    board_empty == all_empty(self.squares@),
                    row < BOARD_SIZE,
                    col <= BOARD_SIZE,
                    squares@.len() == row * 15 + col,
                    forall|i: int, j: int|
                        0 <= i < row && 0 <= j < 15 ==> #[trigger] square_checked(
                            squares@[square_index(i, j)],
                            self.squares@,
                            dawg.edges@,
                            i,
                            j,
                        ),
                    forall|j: int|
                        0 <= j < col ==> #[trigger] square_checked(
                            squares@[square_index(row as int, j)],
                            self.squares@,
                            dawg.edges@,
                            row as int,
                            j,
                        ),
                decreases BOARD_SIZE - col,
            {
                let position = Position { row, col };
                let tile = self.get(position);
                let square = if tile.is_some() {
                    CheckedBoardSquare {
                        tile,
                        horizontal_cross_checks: None,
                        vertical_cross_checks: None,
                        is_anchor: false,
                    }
                } else {
                    let horizontal_cross_checks = self.checks_along(
                        dawg,
                        position,
                        Direction::Vertical,
                    );
                    let vertical_cross_checks = self.checks_along(
                        dawg,
                        position,
                        Direction::Horizontal,
                    );
                    let is_anchor = self.touches_tile(row, col) || (board_empty && row == 7 && col
                        == 7);
                    CheckedBoardSquare {
                        tile,
                        horizontal_cross_checks,
                        vertical_cross_checks,
                        is_anchor,
                    }
                };
                squares.push(square);
                proof {
                    assert(squares@[square_index(row as int, col as int)] == square);
                }
                col += 1;
            }
            row += 1;
        }
        CheckedScrabbleBoard { squares }
    }
}

} // verus!
