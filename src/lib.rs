//! Move generation for a Scrabble-like word game: a packed word graph, per-square
//! cross-checks, anchor-based play generation and scoring.

pub mod board;
pub mod checked;
pub mod cross_checks;
pub mod dawg;
pub mod error;
pub mod generation;
pub mod generator;
pub mod loading;
pub mod placement;
pub mod rack;
pub mod ranking;
pub mod scoring;
pub mod trie;
pub mod util;

pub use crate::board::ScrabbleBoard;
pub use crate::checked::{CheckedAisleSquare, CheckedBoardSquare, CheckedScrabbleBoard};
pub use crate::cross_checks::CrossChecks;
pub use crate::dawg::{Dawg, DawgEdge, DawgNodeIndex};
pub use crate::error::ScrabbleError;
pub use crate::generation::{ScoredScrabblePlay, ScrabblePlay};
pub use crate::generator::PlayGenerator;
pub use crate::loading::load_dawg;
pub use crate::rack::ScrabbleRack;
pub use crate::util::{Direction, Position, BOARD_SIZE};

use crate::board::{after_plays, empty_squares, play_fits, parsed_squares, board_text_chars, N_SQUARES};
use crate::placement::{aisle_wf, distinct_plays, legal_play};
use crate::generator::{aisle_of, board_play_sound, checked_from, lemma_checked_aisles_wf, places};
use crate::ranking::{best_of, stable_picks, top_plays};
use vstd::prelude::*;

verus! {

/// Parses a textual board: 15 lines of 15 characters, a letter or a space each.
pub fn board_from_contents(contents: &str) -> (r: Result<ScrabbleBoard, ScrabbleError>)
    ensures
        r is Ok <==> board_text_chars(contents@) && parsed_squares(contents@).len() == N_SQUARES,
        r matches Ok(b) ==> b.wf() && b.squares@ == parsed_squares(contents@),
        r is Err ==> r == Err::<ScrabbleBoard, ScrabbleError>(ScrabbleError::InvalidBoardContent),
{
    ScrabbleBoard::from_contents(contents)
}

/// The board on which the words of `plays` were placed in order.
pub fn board_from_plays(plays: &Vec<ScrabblePlay>) -> (r: ScrabbleBoard)
    requires
        forall|i: int| 0 <= i < plays@.len() ==> play_fits(#[trigger] plays@[i]),
    ensures
        r.wf(),
        r.squares@ == after_plays(empty_squares(), plays@),
{
    let mut board = ScrabbleBoard::default();
    let mut i: usize = 0;
    while i < plays.len()
        invariant
            forall|j: int| 0 <= j < plays@.len() ==> play_fits(#[trigger] plays@[j]),
            0 <= i <= plays@.len(),
            board.wf(),
            board.squares@ == after_plays(empty_squares(), plays@.subrange(0, i as int)),
        decreases plays@.len() - i,
    {
        proof {
            let s = plays@.subrange(0, i + 1);
            assert(s.drop_last() =~= plays@.subrange(0, i as int));
        }
        board.add_play(&plays[i]);
        i += 1;
    }
    proof {
        assert(plays@.subrange(0, i as int) =~= plays@);
    }
    board
}

/// The best `max_n_plays` plays for `rack` on `board`, by descending score and, among equal
/// scores, in the order found, among all the plays
/// that the generator finds on the board's checked board: those are sound there, every legal
/// play of a row or column is among them, and none places the same word from the same square
/// along the same axis as another.
pub fn generate_plays(
    dawg: &Dawg,
    rack: &ScrabbleRack,
    board: &ScrabbleBoard,
    max_n_plays: usize,
) -> (r: Vec<ScoredScrabblePlay>)
    requires
        rack.wf(),
        board.wf(),
    ensures
        exists|checked: Seq<CheckedBoardSquare>, all: Seq<ScoredScrabblePlay>|
            {
                &&& checked_from(checked, board.squares@, dawg.edges@)
                &&& best_of(r@, all, max_n_plays as int)
                &&& exists|order: Seq<int>| stable_picks(r@, all, order)
                &&& distinct_plays(all)
                &&& forall|k: int|
                    0 <= k < all.len() ==> board_play_sound(
                        #[trigger] all[k],
                        dawg.edges@,
                        checked,
                        rack.tile_counts@,
                    )
                &&& forall|d: Direction, index: int, s: int, x: Seq<char>|
                    0 <= index < 15 && #[trigger] legal_play(
                        aisle_of(checked, d, index),
                        dawg.edges@,
                        rack.tile_counts@,
                        s,
                        x,
                    ) ==> places(all, d, index, s, x)
            },
{
    let checked_board = board.to_checked_board(dawg);
    proof {
        assert forall|d: Direction, index: int| 0 <= index < 15 implies aisle_wf(
            #[trigger] aisle_of(checked_board.squares@, d, index),
        ) by {
            lemma_checked_aisles_wf(checked_board.squares@, board.squares@, dawg.edges@, d, index);
        }
    }
    let ghost checked = checked_board.squares@;
    let generator = PlayGenerator { dawg, checked_board, rack: rack.copied() };
    let plays = generator.plays();
    let best = top_plays(plays, max_n_plays);
    proof {
        assert(checked_from(checked, board.squares@, dawg.edges@));
        assert(best_of(best@, plays@, max_n_plays as int));
        assert(generator.rack.tile_counts@ == rack.tile_counts@);
        assert(generator.checked_board.squares@ == checked);
        assert forall|d: Direction, index: int, s: int, x: Seq<char>|
            0 <= index < 15 && #[trigger] legal_play(
                aisle_of(checked, d, index),
                dawg.edges@,
                rack.tile_counts@,
                s,
                x,
            ) implies places(plays@, d, index, s, x) by {
            assert(legal_play(
                aisle_of(generator.checked_board.squares@, d, index),
                generator.dawg.edges@,
                generator.rack.tile_counts@,
                s,
                x,
            ));
        }
    }
    best
}

} // verus!
