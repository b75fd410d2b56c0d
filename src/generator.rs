//! Play generation over a whole board: every anchor of every row and column, and what the
//! plays found there mean for the board.
use crate::board::{all_empty, aisle_square, has_neighbour, run_after, run_before, square_index};
use crate::checked::{square_checked, CheckedBoardSquare, CheckedScrabbleBoard};
use crate::cross_checks::{cross_allowed, lemma_cross_allowed_is_word, letter_allowed};
use crate::dawg::{is_word, letters_distinct, Dawg, DawgEdge};
use crate::checked::CheckedAisleSquare;
use crate::generation::{GenerationAisle, GenerationAnchor, ScoredScrabblePlay, ScrabblePlay};
use crate::placement::{
    aisle_wf, clear_at, distinct_plays, has_play, legal_from_anchor, legal_play, placed_letters,
    lemma_distinct_concat, lemma_first_anchor, lemma_one_anchor_per_placement, same_placement,
    sound_play,
};
use crate::rack::{drawn_from, ScrabbleRack};
use crate::util::{aisle_cross, Direction, Position, BOARD_SIZE};
use vstd::prelude::*;

verus! {

/// Aisle `index` of the given axis as the checked board `squares` shows it.
pub open spec fn aisle_of(squares: Seq<CheckedBoardSquare>, direction: Direction, index: int) -> Seq<
    CheckedAisleSquare,
> {
    Seq::new(15, |k: int| aisle_square(squares, direction, index, k).spec_aisle_square(direction))
}

/// `squares` is the checked board of `board` with the dictionary `edges`.
pub open spec fn checked_from(
    squares: Seq<CheckedBoardSquare>,
    board: Seq<Option<char>>,
    edges: Seq<DawgEdge>,
) -> bool {
    &&& squares.len() == 225
    &&& board.len() == 225
    &&& forall|row: int, col: int|
        0 <= row < 15 && 0 <= col < 15 ==> #[trigger] square_checked(
            squares[square_index(row, col)],
            board,
            edges,
            row,
            col,
        )
}

/// `p` is a play on the checked board `squares`, sound for some anchor of its aisle and for a
/// rack with the tile counts `rack`.
pub open spec fn board_play_sound(
    p: ScoredScrabblePlay,
    edges: Seq<DawgEdge>,
    squares: Seq<CheckedBoardSquare>,
    rack: Seq<usize>,
) -> bool {
    let d = p.play.direction;
    let index = p.play.start.spec_aisle(d);
    &&& index < 15
    &&& exists|anchor: int|
        0 <= anchor < 15 && (#[trigger] aisle_of(squares, d, index as int)[anchor]).is_anchor
            && sound_play(p, edges, aisle_of(squares, d, index as int), d, index, anchor, rack)
}

/// Every aisle of a checked board is well formed: an empty square that is no anchor touches
/// no tile, so it has no cross-checks and no tile beside it.
pub proof fn lemma_checked_aisles_wf(
    squares: Seq<CheckedBoardSquare>,
    board: Seq<Option<char>>,
    edges: Seq<DawgEdge>,
    direction: Direction,
    index: int,
)
    requires
        checked_from(squares, board, edges),
        0 <= index < 15,
    ensures
        aisle_wf(aisle_of(squares, direction, index)),
{
    let a = aisle_of(squares, direction, index);
    assert forall|k: int| 0 <= k < 15 && (#[trigger] a[k]).is_anchor implies a[k].tile is None by {
        let (row, col) = match direction {
            Direction::Horizontal => (index, k),
            Direction::Vertical => (k, index),
        };
        assert(square_checked(squares[square_index(row, col)], board, edges, row, col));
        assert(a[k] == squares[square_index(row, col)].spec_aisle_square(direction));
    }
    assert forall|k: int|
        0 <= k < 15 && (#[trigger] a[k]).tile is None && !a[k].is_anchor implies a[k].cross_checks
        is None && clear_at(a, k - 1) && clear_at(a, k + 1) by {
        let (row, col) = match direction {
            Direction::Horizontal => (index, k),
            Direction::Vertical => (k, index),
        };
        assert(square_checked(squares[square_index(row, col)], board, edges, row, col));
        assert(a[k] == squares[square_index(row, col)].spec_aisle_square(direction));
        assert(!has_neighbour(board, row, col));
        assert(run_before(board, Direction::Vertical, col, row) =~= Seq::<char>::empty());
        assert(run_after(board, Direction::Vertical, col, row) =~= Seq::<char>::empty());
        assert(run_before(board, Direction::Horizontal, row, col) =~= Seq::<char>::empty());
        assert(run_after(board, Direction::Horizontal, row, col) =~= Seq::<char>::empty());
        if k > 0 {
            let (r2, c2) = match direction {
                Direction::Horizontal => (index, k - 1),
                Direction::Vertical => (k - 1, index),
            };
            assert(square_checked(squares[square_index(r2, c2)], board, edges, r2, c2));
        }
        if k < 14 {
            let (r2, c2) = match direction {
                Direction::Horizontal => (index, k + 1),
                Direction::Vertical => (k + 1, index),
            };
            assert(square_checked(squares[square_index(r2, c2)], board, edges, r2, c2));
        }
    }
}

/// Some play of `plays` places `x` from index `s` of aisle `index` along `direction`.
pub open spec fn places(
    plays: Seq<ScoredScrabblePlay>,
    direction: Direction,
    index: int,
    s: int,
    x: Seq<char>,
) -> bool {
    exists|k: int|
        0 <= k < plays.len() && (#[trigger] plays[k]).play.direction == direction
            && plays[k].play.start == aisle_cross(direction, index as usize, s as usize)
            && plays[k].play.word@ == x
}

/// The position of aisle `index` of `direction` in the order the generator takes them.
pub open spec fn aisle_order(direction: Direction, index: int) -> int {
    2 * index + if direction == Direction::Horizontal {
        0int
    } else {
        1int
    }
}

/// `p` lies on aisle `a`.
pub open spec fn from_aisle(p: ScoredScrabblePlay, a: GenerationAisle) -> bool {
    &&& p.play.direction == a.direction
    &&& p.play.start.spec_aisle(a.direction) == a.index
}

/// `p` lies on one of the first `i` aisles of `aisles`.
pub open spec fn from_earlier(p: ScoredScrabblePlay, aisles: Seq<GenerationAisle>, i: int) -> bool {
    exists|t: int| 0 <= t < i && from_aisle(p, #[trigger] aisles[t])
}

/// The move generator over a checked board, for one rack.
pub struct PlayGenerator<'a> {
    pub dawg: &'a Dawg,
    pub checked_board: CheckedScrabbleBoard,
    pub rack: ScrabbleRack,
}

impl<'a> PlayGenerator<'a> {
    pub open spec fn wf(&self) -> bool {
        &&& self.checked_board.wf()
        &&& self.rack.wf()
        &&& forall|d: Direction, index: int|
            0 <= index < 15 ==> aisle_wf(#[trigger] aisle_of(self.checked_board.squares@, d, index))
    }

    /// The aisles of the board: each row and each column.
    pub fn generation_aisles(&self) -> (r: Vec<GenerationAisle>)
        requires
            self.wf(),
        ensures
            r@.len() == 30,
            forall|i: int|
                0 <= i < 30 ==> (#[trigger] r@[i]).wf() && r@[i].squares@ == aisle_of(
                    self.checked_board.squares@,
                    r@[i].direction,
                    r@[i].index as int,
                ),
            forall|i: int, j: int|
                0 <= i < j < 30 ==> (#[trigger] r@[i]).direction != (#[trigger] r@[j]).direction
                    || r@[i].index != r@[j].index,
            forall|t: int| 0 <= t < 30 ==> aisle_order((#[trigger] r@[t]).direction, r@[t].index as int) == t,
    {
        let mut aisles: Vec<GenerationAisle> = Vec::new();
        let directions = Direction::iterator();
        let mut index: usize = 0;
        while index < BOARD_SIZE
            invariant
                self.wf(),
                directions@ == seq![Direction::Horizontal, Direction::Vertical],
                index <= BOARD_SIZE,
                aisles@.len() == 2 * index,
                forall|t: int|
                    0 <= t < aisles@.len() ==> (#[trigger] aisles@[t]).index == t / 2
                        && aisles@[t].direction == directions@[t % 2],
                forall|i: int|
                    0 <= i < aisles@.len() ==> (#[trigger] aisles@[i]).wf() && aisles@[i].squares@
                        == aisle_of(
                        self.checked_board.squares@,
                        aisles@[i].direction,
                        aisles@[i].index as int,
                    ),
            decreases BOARD_SIZE - index,
        {
            let mut d: usize = 0;
            while d < 2
                invariant
                    self.wf(),
                    directions@ == seq![Direction::Horizontal, Direction::Vertical],
                    index < BOARD_SIZE,
                    d <= 2,
                    aisles@.len() == 2 * index + d,
                    forall|t: int|
                        0 <= t < aisles@.len() ==> (#[trigger] aisles@[t]).index == t / 2
                            && aisles@[t].direction == directions@[t % 2],
                    forall|i: int|
                        0 <= i < aisles@.len() ==> (#[trigger] aisles@[i]).wf() && aisles@[i].squares@
                            == aisle_of(
                            self.checked_board.squares@,
                            aisles@[i].direction,
                            aisles@[i].index as int,
                        ),
                decreases 2 - d,
            {
                let direction = directions[d];
                let squares = self.checked_board.aisle(direction, index);
                proof {
                    assert(squares@ =~= aisle_of(self.checked_board.squares@, direction, index as int));
                }
                aisles.push(GenerationAisle { direction, index, squares });
                d += 1;
            }
            index += 1;
        }
        proof {
            assert forall|t: int| 0 <= t < 30 implies aisle_order(
                (#[trigger] aisles@[t]).direction,
                aisles@[t].index as int,
            ) == t by {
                if t % 2 == 0 {
                    assert(aisles@[t].direction == Direction::Horizontal);
                } else {
                    assert(aisles@[t].direction == Direction::Vertical);
                }
            }
            assert forall|i: int, j: int| 0 <= i < j < 30 implies (#[trigger] aisles@[i]).direction
                != (#[trigger] aisles@[j]).direction || aisles@[i].index != aisles@[j].index by {
                if i / 2 == j / 2 {
                    assert(i % 2 != j % 2);
                }
            }
        }
        aisles
    }

    /// Every play found from every anchor of every aisle.
    #[verifier::rlimit(100)]
    pub fn plays(&self) -> (r: Vec<ScoredScrabblePlay>)
        requires
            self.wf(),
        ensures
            forall|k: int|
                0 <= k < r@.len() ==> board_play_sound(
                    #[trigger] r@[k],
                    self.dawg.edges@,
                    self.checked_board.squares@,
                    self.rack.tile_counts@,
                ),
            distinct_plays(r@),
            forall|d: Direction, index: int, s: int, x: Seq<char>|
                0 <= index < 15 && #[trigger] legal_play(
                    aisle_of(self.checked_board.squares@, d, index),
                    self.dawg.edges@,
                    self.rack.tile_counts@,
                    s,
                    x,
                ) ==> places(r@, d, index, s, x),
    {
        let ghost cb = self.checked_board.squares@;
        let ghost edges = self.dawg.edges@;
        let ghost counts = self.rack.tile_counts@;
        let mut plays: Vec<ScoredScrabblePlay> = Vec::new();
        let mut rack = self.rack.copied();
        let aisles = self.generation_aisles();
        let mut i: usize = 0;
        while i < aisles.len()
            invariant
                self.wf(),
                rack.wf(),
                rack.tile_counts@ == self.rack.tile_counts@,
                aisles@.len() == 30,
                forall|j: int|
                    0 <= j < 30 ==> (#[trigger] aisles@[j]).wf() && aisles@[j].squares@ == aisle_of(
                        self.checked_board.squares@,
                        aisles@[j].direction,
                        aisles@[j].index as int,
                    ),
                forall|k: int|
                    0 <= k < plays@.len() ==> board_play_sound(
                        #[trigger] plays@[k],
                        self.dawg.edges@,
                        self.checked_board.squares@,
                        self.rack.tile_counts@,
                    ),
                forall|a: int, b: int|
                    0 <= a < b < 30 ==> (#[trigger] aisles@[a]).direction != (#[trigger] aisles@[b]).direction
                        || aisles@[a].index != aisles@[b].index,
                i <= 30,
                distinct_plays(plays@),
                forall|k: int| 0 <= k < plays@.len() ==> from_earlier(#[trigger] plays@[k], aisles@, i as int),
                cb == self.checked_board.squares@,
                edges == self.dawg.edges@,
                counts == self.rack.tile_counts@,
                forall|t: int| 0 <= t < 30 ==> aisle_order((#[trigger] aisles@[t]).direction, aisles@[t].index as int) == t,
                forall|d: Direction, index: int, s: int, x: Seq<char>, a: int|
                    0 <= index < 15 && 0 <= a < 15 && aisle_order(d, index) < i && aisle_of(
                        cb,
                        d,
                        index,
                    )[a].is_anchor && #[trigger] legal_from_anchor(
                        aisle_of(cb, d, index),
                        edges,
                        counts,
                        a,
                        s,
                        x,
                    ) ==> places(plays@, d, index, s, x),
            decreases aisles@.len() - i,
        {
            let aisle = &aisles[i];
            let mut anchor_index: usize = 0;
            while anchor_index < BOARD_SIZE
                invariant
                    self.wf(),
                    rack.wf(),
                    rack.tile_counts@ == self.rack.tile_counts@,
                    aisle.wf(),
                    aisle.squares@ == aisle_of(
                        self.checked_board.squares@,
                        aisle.direction,
                        aisle.index as int,
                    ),
                    forall|k: int|
                        0 <= k < plays@.len() ==> board_play_sound(
                            #[trigger] plays@[k],
                            self.dawg.edges@,
                            self.checked_board.squares@,
                            self.rack.tile_counts@,
                        ),
                    i < 30,
                    *aisle == aisles@[i as int],
                    forall|a: int, b: int|
                        0 <= a < b < 30 ==> (#[trigger] aisles@[a]).direction != (#[trigger] aisles@[b]).direction
                            || aisles@[a].index != aisles@[b].index,
                    anchor_index <= BOARD_SIZE,
                    cb == self.checked_board.squares@,
                    edges == self.dawg.edges@,
                    counts == self.rack.tile_counts@,
                    aisle_order(aisle.direction, aisle.index as int) == i,
                    forall|d: Direction, index: int, s: int, x: Seq<char>, a: int|
                        0 <= index < 15 && 0 <= a < 15 && (aisle_order(d, index) < i || (aisle_order(
                            d,
                            index,
                        ) == i && a < anchor_index)) && aisle_of(cb, d, index)[a].is_anchor
                            && #[trigger] legal_from_anchor(
                            aisle_of(cb, d, index),
                            edges,
                            counts,
                            a,
                            s,
                            x,
                        ) ==> places(plays@, d, index, s, x),
                    distinct_plays(plays@),
                    forall|k: int|
                        0 <= k < plays@.len() ==> from_earlier(#[trigger] plays@[k], aisles@, i as int)
                            || (from_aisle(plays@[k], *aisle) && exists|a2: int|
                            0 <= a2 < anchor_index && aisle.squares@[a2].is_anchor && sound_play(
                                plays@[k],
                                self.dawg.edges@,
                                aisle.squares@,
                                aisle.direction,
                                aisle.index,
                                a2,
                                self.rack.tile_counts@,
                            )),
                decreases BOARD_SIZE - anchor_index,
            {
                if aisle.squares[anchor_index].is_anchor {
                    let anchor = GenerationAnchor { dawg: self.dawg, aisle, anchor_index };
                    let mut found = anchor.scored_plays(&mut rack);
                    let ghost prev = plays@;
                    let ghost new_plays = found@;
                    plays.append(&mut found);
                    proof {
                        assert forall|k: int| 0 <= k < plays@.len() implies board_play_sound(
                            #[trigger] plays@[k],
                            self.dawg.edges@,
                            self.checked_board.squares@,
                            self.rack.tile_counts@,
                        ) by {
                            if k >= prev.len() {
                                let p = new_plays[k - prev.len()];
                                assert(plays@[k] == p);
                                assert(anchor.sound(p, self.rack.tile_counts@));
                                reveal(sound_play);
                                let d = p.play.direction;
                                assert(d == aisle.direction);
                                assert(p.play.start.spec_aisle(d) == aisle.index);
                                assert(aisle_of(self.checked_board.squares@, d, aisle.index as int)[anchor_index as int].is_anchor);
                            } else {
                                assert(plays@[k] == prev[k]);
                            }
                        }
                        reveal(sound_play);
                        assert forall|a: int, b: int|
                            0 <= a < prev.len() && 0 <= b < new_plays.len() implies !same_placement(
                            #[trigger] prev[a],
                            #[trigger] new_plays[b],
                        ) by {
                            let p = new_plays[b];
                            let q = prev[a];
                            assert(anchor.sound(p, self.rack.tile_counts@));
                            assert(from_aisle(p, *aisle));
                            if same_placement(q, p) {
                                if from_earlier(q, aisles@, i as int) {
                                    let t = choose|t: int| 0 <= t < i && from_aisle(q, #[trigger] aisles@[t]);
                                    assert(aisles@[t].direction != aisles@[i as int].direction
                                        || aisles@[t].index != aisles@[i as int].index);
                                } else {
                                    let a2 = choose|a2: int|
                                        0 <= a2 < anchor_index && aisle.squares@[a2].is_anchor && sound_play(
                                            q,
                                            self.dawg.edges@,
                                            aisle.squares@,
                                            aisle.direction,
                                            aisle.index,
                                            a2,
                                            self.rack.tile_counts@,
                                        );
                                    lemma_one_anchor_per_placement(
                                        q,
                                        p,
                                        self.dawg.edges@,
                                        aisle.squares@,
                                        aisle.direction,
                                        aisle.index,
                                        self.rack.tile_counts@,
                                        a2,
                                        anchor_index as int,
                                    );
                                }
                            }
                        }
                        lemma_distinct_concat(prev, new_plays);
                        assert(plays@ == prev + new_plays);
                        assert forall|d: Direction, index: int, s: int, x: Seq<char>, a: int|
                            0 <= index < 15 && 0 <= a < 15 && (aisle_order(d, index) < i || (aisle_order(
                                d,
                                index,
                            ) == i && a < anchor_index + 1)) && aisle_of(cb, d, index)[a].is_anchor
                                && #[trigger] legal_from_anchor(
                                aisle_of(cb, d, index),
                                edges,
                                counts,
                                a,
                                s,
                                x,
                            ) implies places(plays@, d, index, s, x) by {
                            if aisle_order(d, index) == i && a == anchor_index {
                                assert(d == aisle.direction && index == aisle.index);
                                assert(aisle_of(cb, d, index) == anchor.aisle.squares@);
                                assert(legal_from_anchor(
                                    anchor.aisle.squares@,
                                    anchor.dawg.edges@,
                                    counts,
                                    anchor.anchor_index as int,
                                    s,
                                    x,
                                ));
                                assert(has_play(new_plays, d, s, x));
                                let k = choose|k: int|
                                    0 <= k < new_plays.len() && (#[trigger] new_plays[k]).play.start.spec_cross(d)
                                        == s && new_plays[k].play.word@ == x;
                                assert(anchor.sound(new_plays[k], counts));
                                assert(plays@[prev.len() + k] == new_plays[k]);
                            } else {
                                let k = choose|k: int|
                                    0 <= k < prev.len() && (#[trigger] prev[k]).play.direction == d
                                        && prev[k].play.start == aisle_cross(d, index as usize, s as usize)
                                        && prev[k].play.word@ == x;
                                assert(plays@[k] == prev[k]);
                            }
                        }
                        assert forall|k: int|
                            0 <= k < plays@.len() implies from_earlier(#[trigger] plays@[k], aisles@, i as int)
                                || (from_aisle(plays@[k], *aisle) && exists|a2: int|
                                0 <= a2 < anchor_index + 1 && aisle.squares@[a2].is_anchor && sound_play(
                                    plays@[k],
                                    self.dawg.edges@,
                                    aisle.squares@,
                                    aisle.direction,
                                    aisle.index,
                                    a2,
                                    self.rack.tile_counts@,
                                )) by {
                            if k >= prev.len() {
                                let p = new_plays[k - prev.len()];
                                assert(anchor.sound(p, self.rack.tile_counts@));
                                assert(plays@[k] == p);
                            } else {
                                assert(plays@[k] == prev[k]);
                            }
                        }
                    }
                }
                anchor_index += 1;
            }
            proof {
                assert forall|d: Direction, index: int, s: int, x: Seq<char>, a: int|
                    0 <= index < 15 && 0 <= a < 15 && aisle_order(d, index) < i + 1 && aisle_of(
                        cb,
                        d,
                        index,
                    )[a].is_anchor && #[trigger] legal_from_anchor(
                        aisle_of(cb, d, index),
                        edges,
                        counts,
                        a,
                        s,
                        x,
                    ) implies places(plays@, d, index, s, x) by {}
                assert forall|k: int| 0 <= k < plays@.len() implies from_earlier(
                    #[trigger] plays@[k],
                    aisles@,
                    i + 1,
                ) by {
                    if from_earlier(plays@[k], aisles@, i as int) {
                        let t = choose|t: int| 0 <= t < i && from_aisle(plays@[k], #[trigger] aisles@[t]);
                        assert(from_aisle(plays@[k], aisles@[t]));
                    } else {
                        assert(from_aisle(plays@[k], aisles@[i as int]));
                    }
                }
            }
            i += 1;
        }
        proof {
            assert forall|d: Direction, index: int, s: int, x: Seq<char>|
                0 <= index < 15 && #[trigger] legal_play(aisle_of(cb, d, index), edges, counts, s, x)
                    implies places(plays@, d, index, s, x) by {
                let sq = aisle_of(cb, d, index);
                lemma_first_anchor(sq, edges, counts, s, x, s);
                let a = choose|a: int|
                    0 <= a < 15 && sq[a].is_anchor && #[trigger] legal_from_anchor(
                        sq,
                        edges,
                        counts,
                        a,
                        s,
                        x,
                    );
                assert(aisle_order(d, index) < 30);
            }
        }
        plays
    }
}

/// The letters before position `p` on the axis across `direction`.
pub open spec fn across_before(board: Seq<Option<char>>, direction: Direction, p: Position) -> Seq<char> {
    match direction {
        Direction::Horizontal => run_before(board, Direction::Vertical, p.col as int, p.row as int),
        Direction::Vertical => run_before(board, Direction::Horizontal, p.row as int, p.col as int),
    }
}

/// The letters after position `p` on the axis across `direction`.
pub open spec fn across_after(board: Seq<Option<char>>, direction: Direction, p: Position) -> Seq<char> {
    match direction {
        Direction::Horizontal => run_after(board, Direction::Vertical, p.col as int, p.row as int),
        Direction::Vertical => run_after(board, Direction::Horizontal, p.row as int, p.col as int),
    }
}

/// Letter `i` of `x`, placed from index `s` of aisle `index` along `d`, either matches the
/// tile on its square, or is a letter placed on an empty square where, with the letters
/// around it across the play, it forms a word (when there are any such letters).
pub open spec fn letter_fits(
    board: Seq<Option<char>>,
    edges: Seq<DawgEdge>,
    d: Direction,
    index: usize,
    s: int,
    x: Seq<char>,
    i: int,
) -> bool {
    let p = aisle_cross(d, index, (s + i) as usize);
    match board[square_index(p.row as int, p.col as int)] {
        Some(t) => x[i] == t,
        None => ('a' <= x[i] <= 'z') && ((across_before(board, d, p).len() > 0 || across_after(
            board,
            d,
            p,
        ).len() > 0) ==> is_word(
            edges,
            across_before(board, d, p) + seq![x[i]] + across_after(board, d, p),
        )),
    }
}

/// Letter `i` of the play fits the board.
pub open spec fn letter_fits_board(
    board: Seq<Option<char>>,
    edges: Seq<DawgEdge>,
    play: ScrabblePlay,
    i: int,
) -> bool {
    let d = play.direction;
    letter_fits(board, edges, d, play.start.spec_aisle(d), play.start.spec_cross(d) as int, play.word@, i)
}

/// Square `k` of aisle `index` along `d` is off the board or empty.
pub open spec fn board_clear_at(board: Seq<Option<char>>, d: Direction, index: usize, k: int) -> bool {
    k < 0 || k >= 15 || aisle_square(board, d, index as int, k) is None
}

/// A play that keeps the board's tiles, places letters that each form a word across it, is
/// bounded by empty squares or the edges, spells a word, covers an empty square beside a
/// tile (or the centre of an empty board), and whose placed letters the rack yields, is a
/// legal play of its aisle of the checked board, and so one that the generator finds.
pub proof fn lemma_board_play_is_legal(
    checked: Seq<CheckedBoardSquare>,
    board: Seq<Option<char>>,
    edges: Seq<DawgEdge>,
    counts: Seq<usize>,
    d: Direction,
    index: usize,
    s: int,
    x: Seq<char>,
)
    requires
        letters_distinct(edges),
        checked_from(checked, board, edges),
        index < 15,
        0 <= s < s + x.len() <= 15,
        forall|i: int| 0 <= i < x.len() ==> #[trigger] letter_fits(board, edges, d, index, s, x, i),
        board_clear_at(board, d, index, s - 1),
        board_clear_at(board, d, index, s + x.len()),
        is_word(edges, x),
        exists|k: int|
            s <= k < s + x.len() && #[trigger] aisle_square(board, d, index as int, k) is None && ({
                let p = aisle_cross(d, index, k as usize);
                has_neighbour(board, p.row as int, p.col as int) || (all_empty(board) && p.row == 7
                    && p.col == 7)
            }),
        drawn_from(placed_letters(aisle_of(checked, d, index as int), x, s + x.len()), counts),
    ensures
        legal_play(aisle_of(checked, d, index as int), edges, counts, s, x),
{
    let a = aisle_of(checked, d, index as int);
    let end = s + x.len();
    assert forall|i: int| 0 <= i < x.len() implies match (#[trigger] a[end - x.len() + i]).tile {
        Some(c) => x[i] == c,
        None => 'a' <= x[i] <= 'z' && a[end - x.len() + i].spec_is_compatible(x[i]),
    } by {
        assert(letter_fits(board, edges, d, index, s, x, i));
        let pos = aisle_cross(d, index, (s + i) as usize);
        let row = pos.row as int;
        let col = pos.col as int;
        assert(square_checked(checked[square_index(row, col)], board, edges, row, col));
        assert(a[s + i] == checked[square_index(row, col)].spec_aisle_square(d));
        assert(end - x.len() + i == s + i);
        if board[square_index(row, col)] is None {
            let c = x[i];
            let pre = across_before(board, d, pos);
            let fol = across_after(board, d, pos);
            if pre.len() > 0 || fol.len() > 0 {
                lemma_cross_allowed_is_word(edges, pre, fol, c);
            }
        }
    }
    if s > 0 {
        let pos = aisle_cross(d, index, (s - 1) as usize);
        assert(square_checked(
            checked[square_index(pos.row as int, pos.col as int)],
            board,
            edges,
            pos.row as int,
            pos.col as int,
        ));
    }
    if end < 15 {
        let pos = aisle_cross(d, index, end as usize);
        assert(square_checked(
            checked[square_index(pos.row as int, pos.col as int)],
            board,
            edges,
            pos.row as int,
            pos.col as int,
        ));
    }
    let k = choose|k: int|
        s <= k < s + x.len() && #[trigger] aisle_square(board, d, index as int, k) is None && ({
            let p = aisle_cross(d, index, k as usize);
            has_neighbour(board, p.row as int, p.col as int) || (all_empty(board) && p.row == 7
                && p.col == 7)
        });
    let pos = aisle_cross(d, index, k as usize);
    assert(square_checked(
        checked[square_index(pos.row as int, pos.col as int)],
        board,
        edges,
        pos.row as int,
        pos.col as int,
    ));
    assert(a[k].is_anchor);
}

/// A play that the generator finds on the checked board of `board` spells a word of the
/// dictionary, keeps the tiles it crosses, and each letter it places forms a word with
/// the tiles beside it across the play.
pub proof fn lemma_sound_play_forms_words(
    p: ScoredScrabblePlay,
    edges: Seq<DawgEdge>,
    checked: Seq<CheckedBoardSquare>,
    board: Seq<Option<char>>,
    rack: Seq<usize>,
)
    requires
        letters_distinct(edges),
        checked_from(checked, board, edges),
        board_play_sound(p, edges, checked, rack),
    ensures
        is_word(edges, p.play.word@),
        forall|i: int|
            0 <= i < p.play.word@.len() ==> #[trigger] letter_fits_board(board, edges, p.play, i),
{
    reveal(sound_play);
    let d = p.play.direction;
    let index = p.play.start.spec_aisle(d);
    let a = aisle_of(checked, d, index as int);
    let anchor = choose|anchor: int|
        0 <= anchor < 15 && (#[trigger] aisle_of(checked, d, index as int)[anchor]).is_anchor
            && sound_play(p, edges, aisle_of(checked, d, index as int), d, index, anchor, rack);
    let s = p.play.start.spec_cross(d) as int;
    let w = p.play.word@;
    assert forall|i: int| 0 <= i < w.len() implies #[trigger] letter_fits_board(
        board,
        edges,
        p.play,
        i,
    ) by {
        let pos = aisle_cross(d, index, (s + i) as usize);
        let row = pos.row as int;
        let col = pos.col as int;
        assert(square_checked(checked[square_index(row, col)], board, edges, row, col));
        assert(a[s + i] == checked[square_index(row, col)].spec_aisle_square(d));
        let sq = a[w.len() + s - w.len() + i];
        assert(sq == a[s + i]);
        if board[square_index(row, col)] is None {
            let c = w[i];
            let pre = across_before(board, d, pos);
            let fol = across_after(board, d, pos);
            if pre.len() > 0 || fol.len() > 0 {
                lemma_cross_allowed_is_word(edges, pre, fol, c);
                assert(letter_allowed(sq.cross_checks->0.allowed, c));
                assert(cross_allowed(edges, pre, fol, c));
            }
        }
    }
}

} // verus!
