//! Board coordinates, axes and text helpers.
use vstd::prelude::*;

verus! {

/// The side length of the board.
pub const BOARD_SIZE: usize = 15;

/// The character that marks a blank tile in a rack.
pub const BLANK_TILE_CHAR: char = '_';

/// The character that marks an empty square in a textual board.
pub const EMPTY_SQUARE_CHAR: char = ' ';

#[derive(Debug, Clone, Copy, PartialEq, Eq, Structural)]
pub enum Direction {
    Horizontal,
    Vertical,
}

impl Direction {
    /// Both axes, horizontal first.
    pub fn iterator() -> (r: [Direction; 2])
        ensures
            r@ == seq![Direction::Horizontal, Direction::Vertical],
    {
        let r = [Direction::Horizontal, Direction::Vertical];
        proof {
            assert(r@ =~= seq![Direction::Horizontal, Direction::Vertical]);
        }
        r
    }

    /// The other axis.
    pub open spec fn spec_other(&self) -> Direction {
        match self {
            Direction::Horizontal => Direction::Vertical,
            Direction::Vertical => Direction::Horizontal,
        }
    }
}

/// A square of the board.
#[derive(Debug, Clone, Copy, PartialEq, Eq, Structural)]
pub struct Position {
    pub row: usize,
    pub col: usize,
}

/// The position at `cross` along aisle `aisle` of the given axis: a horizontal aisle is a
/// row, a vertical one a column.
pub open spec fn aisle_cross(direction: Direction, aisle: usize, cross: usize) -> Position {
    match direction {
        Direction::Horizontal => Position { row: aisle, col: cross },
        Direction::Vertical => Position { row: cross, col: aisle },
    }
}

impl Position {
    pub open spec fn spec_aisle(&self, direction: Direction) -> usize {
        match direction {
            Direction::Horizontal => self.row,
            Direction::Vertical => self.col,
        }
    }

    pub open spec fn spec_cross(&self, direction: Direction) -> usize {
        match direction {
            Direction::Horizontal => self.col,
            Direction::Vertical => self.row,
        }
    }

    pub fn from_aisle_cross(direction: Direction, aisle: usize, cross: usize) -> (r: Position)
        ensures
            r == aisle_cross(direction, aisle, cross),
    {
        match direction {
            Direction::Horizontal => Position { row: aisle, col: cross },
            Direction::Vertical => Position { row: cross, col: aisle },
        }
    }

    /// The index of the aisle of the given axis that holds this position.
    pub fn aisle(&self, direction: Direction) -> (r: usize)
        ensures
            r == self.spec_aisle(direction),
    {
        match direction {
            Direction::Horizontal => self.row,
            Direction::Vertical => self.col,
        }
    }

    /// The index of this position along its aisle of the given axis.
    pub fn cross(&self, direction: Direction) -> (r: usize)
        ensures
            r == self.spec_cross(direction),
    {
        match direction {
            Direction::Horizontal => self.col,
            Direction::Vertical => self.row,
        }
    }

    pub fn set_aisle(&mut self, direction: Direction, value: usize)
        ensures
            final(self).spec_aisle(direction) == value,
            final(self).spec_cross(direction) == old(self).spec_cross(direction),
    {
        match direction {
            Direction::Horizontal => self.row = value,
            Direction::Vertical => self.col = value,
        }
    }

    pub fn set_cross(&mut self, direction: Direction, value: usize)
        ensures
            final(self).spec_cross(direction) == value,
            final(self).spec_aisle(direction) == old(self).spec_aisle(direction),
    {
        match direction {
            Direction::Horizontal => self.col = value,
            Direction::Vertical => self.row = value,
        }
    }

    /// The next position along the given axis.
    pub fn step(&self, direction: Direction) -> (r: Position)
        requires
            self.spec_cross(direction) < usize::MAX,
        ensures
            r.spec_aisle(direction) == self.spec_aisle(direction),
            r.spec_cross(direction) == self.spec_cross(direction) + 1,
    {
        match direction {
            Direction::Horizontal => Position { row: self.row, col: self.col + 1 },
            Direction::Vertical => Position { row: self.row + 1, col: self.col },
        }
    }

    /// The position `steps` squares further along the given axis (backwards when negative).
    pub fn step_multi(&self, direction: Direction, steps: isize) -> (r: Position)
        requires
            0 <= self.spec_cross(direction) + steps <= isize::MAX,
        ensures
            r.spec_aisle(direction) == self.spec_aisle(direction),
            r.spec_cross(direction) == self.spec_cross(direction) + steps,
    {
        let cross = self.cross(direction);
        let moved: usize = if steps >= 0 {
            cross + steps as usize
        } else {
            cross - ((0 - (steps + 1)) as usize) - 1
        };
        Position::from_aisle_cross(direction, self.aisle(direction), moved)
    }
}

/// The characters of `s`, in order.
pub fn chars_of(s: &str) -> (r: Vec<char>)
    ensures
        r@ == s@,
{
    let n = s.unicode_len();
    let mut v: Vec<char> = Vec::new();
    let mut i: usize = 0;
    while i < n
        invariant
            n == s@.len(),
            0 <= i <= n,
            v@ == s@.subrange(0, i as int),
        decreases n - i,
    {
        v.push(s.get_char(i));
        i += 1;
    }
    proof {
        assert(v@ =~= s@);
    }
    v
}

/// Relies on `String`'s `FromIterator<char>`: the string holds the characters in order.
#[verifier::external_body]
pub(crate) fn string_from_chars(chars: &Vec<char>) -> (r: String)
    ensures
        r@ == chars@,
{
    chars.iter().collect()
}

} // verus!
