//! Anchor-based play generation: left parts drawn from the rack below each anchor's
//! limit, then right extensions through the dictionary, filtered by the rack and the
//! cross-checks.
use crate::checked::CheckedAisleSquare;
use crate::dawg::{
    block, block_end, is_word, lemma_block_end, lemma_leaving_in_block, leaving_from,
    letters_distinct, walk, Dawg, DawgEdge, DawgNodeIndex, NULL_DAWG_NODE_INDEX,
};
use crate::placement::{
    added, aisle_wf, clear_at, distinct_plays, extends_plays, found_before, has_play, laid,
    left_goal, legal_from_anchor, lemma_added_concat, lemma_child_is_leaving, lemma_distinct_concat,
    lemma_extends_none, lemma_extends_shorter, lemma_has_play_grows, lemma_laid_push,
    lemma_laid_rest, lemma_laid_tiles_unique, lemma_leaving_letter, lemma_left_region,
    lemma_placed_all_empty, lemma_placed_all_tiles, lemma_placed_are_letters, lemma_placed_first,
    lemma_placed_split, lemma_rack_accounts_take, lemma_reaches_step, lemma_word_prefix_walks,
    lemma_words_differ, no_anchor_between, placed_letters, rack_accounts, reaches, right_goal,
    same_placement, sound_play,
};
use crate::rack::{
    drawn_from, greedy_takes, lemma_greedy_suffices, occurrences, tiles_match, ScrabbleRack,
};
use crate::scoring::{play_score, score_play};
use crate::util::{aisle_cross, string_from_chars, Direction, Position, BOARD_SIZE};
use vstd::prelude::*;

verus! {

#[derive(Debug, Clone, PartialEq, Eq)]
pub struct ScrabblePlay {
    pub start: Position,
    pub direction: Direction,
    pub word: String,
}

#[derive(Debug, Clone, PartialEq, Eq)]
pub struct ScoredScrabblePlay {
    pub play: ScrabblePlay,
    pub score: u64,
}

/// One aisle of the checked board.
#[derive(Debug)]
pub struct GenerationAisle {
    pub direction: Direction,
    pub index: usize,
    pub squares: Vec<CheckedAisleSquare>,
}

impl GenerationAisle {
    pub open spec fn wf(&self) -> bool {
        &&& self.index < BOARD_SIZE
        &&& aisle_wf(self.squares@)
    }

    /// The board position of index `cross` of this aisle.
    pub fn position(&self, cross: usize) -> (r: Position)
        ensures
            r == aisle_cross(self.direction, self.index, cross),
    {
        Position::from_aisle_cross(self.direction, self.index, cross)
    }

    /// The play of `word` from index `start_word_index`, with its score.
    pub fn scored_play(&self, start_word_index: usize, word: &Vec<char>) -> (r: ScoredScrabblePlay)
        requires
            self.wf(),
            start_word_index + word@.len() <= BOARD_SIZE,
        ensures
            r.play.start == aisle_cross(self.direction, self.index, start_word_index),
            r.play.direction == self.direction,
            r.play.word@ == word@,
            r.score == play_score(
                self.squares@,
                self.direction,
                self.index,
                start_word_index as int,
                word@,
            ),
    {
        let start = self.position(start_word_index);
        let score = score_play(&self.squares, self.direction, self.index, start_word_index, word);
        let play = ScrabblePlay { start, direction: self.direction, word: string_from_chars(word) };
        ScoredScrabblePlay { play, score }
    }
}

/// The search for the plays whose leftmost anchor is `anchor_index` of an aisle.
pub struct GenerationAnchor<'a> {
    pub dawg: &'a Dawg,
    pub aisle: &'a GenerationAisle,
    pub anchor_index: usize,
}

impl<'a> GenerationAnchor<'a> {
    pub open spec fn wf(&self) -> bool {
        &&& self.aisle.wf()
        &&& self.anchor_index < BOARD_SIZE
    }

    /// Whether the edge at `index` is the one that the scan of `node` finds for its letter,
    /// as every edge of the block is when the letters of each block are distinct.
    fn is_first_with_letter(&self, node: DawgNodeIndex, index: usize, edge: &DawgEdge) -> (r: bool)
        requires
            index < self.dawg.edges@.len(),
            self.dawg.edges@[index as int] == *edge,
        ensures
            r <==> leaving_from(self.dawg.edges@, node.0 as int, edge.letter) == Some(index as int),
            letters_distinct(self.dawg.edges@) && node.0 <= index < block_end(
                self.dawg.edges@,
                node.0 as int,
            ) ==> r,
    {
        proof {
            if letters_distinct(self.dawg.edges@) && node.0 <= index < block_end(
                self.dawg.edges@,
                node.0 as int,
            ) {
                lemma_block_end(self.dawg.edges@, node.0 as int);
                lemma_child_is_leaving(self.dawg.edges@, node.0 as int, index - node.0);
            }
        }
        match self.dawg.leaving_index(node, edge.letter) {
            Some(found) => found == index,
            None => false,
        }
    }

    pub open spec fn sound(&self, p: ScoredScrabblePlay, rack: Seq<usize>) -> bool {
        sound_play(
            p,
            self.dawg.edges@,
            self.aisle.squares@,
            self.aisle.direction,
            self.aisle.index,
            self.anchor_index as int,
            rack,
        )
    }

    pub open spec fn all_sound(&self, plays: Seq<ScoredScrabblePlay>, rack: Seq<usize>) -> bool {
        forall|k: int| 0 <= k < plays.len() ==> self.sound(#[trigger] plays[k], rack)
    }

    /// Records the play of `partial_word` ending before `next_square_index` when it is a
    /// word that covers the anchor and no tile follows it.
    #[verifier::rlimit(100)]
    fn check_add_play(
        &self,
        plays: &mut Vec<ScoredScrabblePlay>,
        partial_word: &Vec<char>,
        edge: &DawgEdge,
        next_square_index: usize,
        taken: Ghost<Seq<char>>,
        init: Ghost<Seq<usize>>,
    )
        requires
            self.wf(),
            self.all_sound(old(plays)@, init@),
            tiles_match(
                taken@,
                placed_letters(self.aisle.squares@, partial_word@, next_square_index as int),
            ),
            forall|slot: int| 0 <= slot < 27 ==> #[trigger] occurrences(taken@, slot) <= init@[slot],
            partial_word@.len() <= next_square_index <= BOARD_SIZE,
            next_square_index - partial_word@.len() <= self.anchor_index,
            walk(self.dawg.edges@, 0, partial_word@) matches Some(e) && self.dawg.edges@[e]
                == *edge,
            laid(self.aisle.squares@, partial_word@, next_square_index as int),
            clear_at(
                self.aisle.squares@,
                next_square_index - partial_word@.len() - 1,
            ),
            no_anchor_between(
                self.aisle.squares@,
                next_square_index - partial_word@.len(),
                self.anchor_index as int,
            ),
        ensures
            self.all_sound(final(plays)@, init@),
            extends_plays(
                old(plays)@,
                final(plays)@,
                self.aisle.direction,
                partial_word@,
                0,
                next_square_index - partial_word@.len(),
                next_square_index - partial_word@.len(),
            ),
            forall|k: int|
                0 <= k < added(old(plays)@, final(plays)@).len() ==> (#[trigger] added(
                    old(plays)@,
                    final(plays)@,
                )[k]).play.word@ == partial_word@,
            next_square_index > self.anchor_index && clear_at(
                self.aisle.squares@,
                next_square_index as int,
            ) && is_word(self.dawg.edges@, partial_word@) ==> has_play(
                final(plays)@,
                self.aisle.direction,
                next_square_index - partial_word@.len(),
                partial_word@,
            ),
    {
        proof {
            assert(plays@.subrange(0, plays@.len() as int) =~= plays@);
            assert(added(plays@, plays@) =~= Seq::<ScoredScrabblePlay>::empty());
        }
        if next_square_index < BOARD_SIZE && self.aisle.squares[next_square_index].tile.is_some() {
            return;
        }
        if next_square_index < self.anchor_index + 1 {
            return;
        }
        if edge.word_terminator {
            let start = next_square_index - partial_word.len();
            let play = self.aisle.scored_play(start, partial_word);
            proof {
                reveal(sound_play);
                assert(play.play.start.spec_cross(self.aisle.direction) == start);
                assert(drawn_from(
                    placed_letters(self.aisle.squares@, partial_word@, next_square_index as int),
                    init@,
                ));
                assert(self.sound(play, init@));
            }
            plays.push(play);
            proof {
                assert forall|k: int| 0 <= k < plays@.len() implies self.sound(
                    #[trigger] plays@[k],
                    init@,
                ) by {
                    if k < plays@.len() - 1 {
                        assert(plays@[k] == old(plays)@[k]);
                    }
                }
                assert(plays@.subrange(0, old(plays)@.len() as int) =~= old(plays)@);
                assert(added(old(plays)@, plays@) =~= seq![play]);
                assert(play.play.word@.subrange(0, partial_word@.len() as int) =~= partial_word@);
                assert(plays@[plays@.len() - 1] == play);
            }
        }
    }
    /// Places the letter of `edge` at `placement_index`, records the play if it ends a
    /// word there, and extends further right.
    #[verifier::rlimit(100)]
    fn extend_using_edge(
        &self,
        plays: &mut Vec<ScoredScrabblePlay>,
        rack: &mut ScrabbleRack,
        partial_word: &mut Vec<char>,
        placement_index: usize,
        edge: &DawgEdge,
        taken: Ghost<Seq<char>>,
        init: Ghost<Seq<usize>>,
    )
        requires
            self.wf(),
            old(rack).wf(),
            self.all_sound(old(plays)@, init@),
            rack_accounts(old(rack).tile_counts@, taken@, init@),
            placement_index < BOARD_SIZE,
            old(partial_word)@.len() <= placement_index,
            placement_index - old(partial_word)@.len() <= self.anchor_index,
            walk(self.dawg.edges@, 0, old(partial_word)@.push(edge.letter)) matches Some(e)
                && self.dawg.edges@[e] == *edge,
            laid(
                self.aisle.squares@,
                old(partial_word)@.push(edge.letter),
                placement_index + 1,
            ),
            clear_at(self.aisle.squares@, placement_index - old(partial_word)@.len() - 1),
            no_anchor_between(
                self.aisle.squares@,
                placement_index - old(partial_word)@.len(),
                self.anchor_index as int,
            ),
            tiles_match(
                taken@,
                placed_letters(
                    self.aisle.squares@,
                    old(partial_word)@.push(edge.letter),
                    placement_index + 1,
                ),
            ),
        ensures
            final(rack).wf(),
            final(rack).tile_counts@ == old(rack).tile_counts@,
            final(partial_word)@ == old(partial_word)@,
            self.all_sound(final(plays)@, init@),
            extends_plays(
                old(plays)@,
                final(plays)@,
                self.aisle.direction,
                old(partial_word)@.push(edge.letter),
                0,
                placement_index - old(partial_word)@.len(),
                placement_index - old(partial_word)@.len(),
            ),
            placement_index + 1 > self.anchor_index && clear_at(
                self.aisle.squares@,
                placement_index + 1,
            ) && is_word(self.dawg.edges@, old(partial_word)@.push(edge.letter)) ==> has_play(
                final(plays)@,
                self.aisle.direction,
                placement_index - old(partial_word)@.len(),
                old(partial_word)@.push(edge.letter),
            ),
            forall|v: Seq<char>|
                #[trigger] right_goal(
                    self.aisle.squares@,
                    self.dawg.edges@,
                    old(rack).tile_counts@,
                    old(partial_word)@.push(edge.letter),
                    placement_index + 1,
                    self.anchor_index as int,
                    v,
                ) ==> has_play(
                    final(plays)@,
                    self.aisle.direction,
                    placement_index - old(partial_word)@.len(),
                    old(partial_word)@.push(edge.letter) + v,
                ),
        decreases 61 - 4 * placement_index,
    {
        let ghost start_plays = plays@;
        partial_word.push(edge.letter);
        proof {
            assert forall|slot: int| 0 <= slot < 27 implies #[trigger] occurrences(taken@, slot)
                <= init@[slot] by {
                assert(rack.tile_counts@[slot] + occurrences(taken@, slot) == init@[slot]);
            }
        }
        self.check_add_play(plays, partial_word, edge, placement_index + 1, taken, init);
        let ghost mid = plays@;
        if edge.target.is_some() {
            self.extend_right(
                plays,
                rack,
                partial_word,
                edge.target,
                placement_index + 1,
                taken,
                init,
            );
        }
        partial_word.pop();
        proof {
            assert(partial_word@ =~= old(partial_word)@);
            let w = old(partial_word)@.push(edge.letter);
            if plays@ == mid {
                assert(plays@.subrange(0, mid.len() as int) =~= mid);
                assert(added(mid, plays@) =~= Seq::<ScoredScrabblePlay>::empty());
            }
            lemma_added_concat(start_plays, mid, plays@);
            let x = added(start_plays, mid);
            let y = added(mid, plays@);
            assert forall|i: int, j: int|
                0 <= i < x.len() && 0 <= j < y.len() implies !same_placement(
                #[trigger] x[i],
                #[trigger] y[j],
            ) by {
                assert(x[i].play.word@ == w);
                assert(y[j].play.word@.len() >= w.len() + 1);
            }
            lemma_distinct_concat(x, y);
            let z = added(start_plays, plays@);
            assert forall|k: int| 0 <= k < z.len() implies {
                let q = #[trigger] z[k];
                &&& w.len() + 0 <= q.play.word@.len()
                &&& q.play.word@.subrange(0, w.len() as int) == w
                &&& placement_index - old(partial_word)@.len() <= q.play.start.spec_cross(
                    self.aisle.direction,
                ) <= placement_index - old(partial_word)@.len()
            } by {
                if k < x.len() {
                    assert(z[k] == x[k]);
                } else {
                    assert(z[k] == y[k - x.len()]);
                }
            }
            let start = placement_index - old(partial_word)@.len();
            let d = self.aisle.direction;
            if placement_index + 1 > self.anchor_index && clear_at(
                self.aisle.squares@,
                placement_index + 1,
            ) && is_word(self.dawg.edges@, w) {
                assert(has_play(mid, d, start, w));
                lemma_has_play_grows(mid, plays@, d, start, w);
            }
            assert forall|v: Seq<char>|
                #[trigger] right_goal(
                    self.aisle.squares@,
                    self.dawg.edges@,
                    old(rack).tile_counts@,
                    w,
                    placement_index + 1,
                    self.anchor_index as int,
                    v,
                ) implies has_play(plays@, d, start, w + v) by {
                lemma_word_prefix_walks(self.dawg.edges@, w, v);
            }
        }
    }

    /// Extends the partial word to the right from `next_tile_index`: through the tile
    /// there, or with each rack letter that the dictionary and the cross-checks allow.
    #[verifier::rlimit(100)]
    fn extend_right(
        &self,
        plays: &mut Vec<ScoredScrabblePlay>,
        rack: &mut ScrabbleRack,
        partial_word: &mut Vec<char>,
        node: DawgNodeIndex,
        next_tile_index: usize,
        taken: Ghost<Seq<char>>,
        init: Ghost<Seq<usize>>,
    )
        requires
            self.wf(),
            old(rack).wf(),
            self.all_sound(old(plays)@, init@),
            rack_accounts(old(rack).tile_counts@, taken@, init@),
            old(partial_word)@.len() <= next_tile_index <= BOARD_SIZE,
            next_tile_index - old(partial_word)@.len() <= self.anchor_index,
            reaches(self.dawg.edges@, old(partial_word)@, node.0),
            laid(self.aisle.squares@, old(partial_word)@, next_tile_index as int),
            clear_at(self.aisle.squares@, next_tile_index - old(partial_word)@.len() - 1),
            no_anchor_between(
                self.aisle.squares@,
                next_tile_index - old(partial_word)@.len(),
                self.anchor_index as int,
            ),
            tiles_match(
                taken@,
                placed_letters(self.aisle.squares@, old(partial_word)@, next_tile_index as int),
            ),
        ensures
            final(rack).wf(),
            final(rack).tile_counts@ == old(rack).tile_counts@,
            final(partial_word)@ == old(partial_word)@,
            self.all_sound(final(plays)@, init@),
            extends_plays(
                old(plays)@,
                final(plays)@,
                self.aisle.direction,
                old(partial_word)@,
                1,
                next_tile_index - old(partial_word)@.len(),
                next_tile_index - old(partial_word)@.len(),
            ),
            forall|v: Seq<char>|
                #[trigger] right_goal(
                    self.aisle.squares@,
                    self.dawg.edges@,
                    old(rack).tile_counts@,
                    old(partial_word)@,
                    next_tile_index as int,
                    self.anchor_index as int,
                    v,
                ) ==> has_play(
                    final(plays)@,
                    self.aisle.direction,
                    next_tile_index - old(partial_word)@.len(),
                    old(partial_word)@ + v,
                ),
        decreases 64 - 4 * next_tile_index,
    {
        let ghost start = next_tile_index - old(partial_word)@.len();
        let ghost d = self.aisle.direction;
        proof {
            lemma_extends_none(plays@, d, partial_word@, 1, start, start);
        }
        if next_tile_index >= BOARD_SIZE {
            return;
        }
        let square = self.aisle.squares[next_tile_index];
        let ghost w = partial_word@;
        let ghost sq = self.aisle.squares@;
        let ghost counts = rack.tile_counts@;
        let ghost edges = self.dawg.edges@;
        let ghost anchor = self.anchor_index as int;
        if let Some(ch) = square.tile {
            if let Some(edge) = self.dawg.leaving_edge(node, ch) {
                proof {
                    lemma_reaches_step(self.dawg.edges@, w, node.0, ch);
                    lemma_leaving_letter(self.dawg.edges@, node.0 as int, ch);
                    lemma_laid_push(sq, w, next_tile_index as int, ch);
                    assert(w.push(ch).drop_last() =~= w);
                }
                self.extend_using_edge(plays, rack, partial_word, next_tile_index, edge, taken, init);
                proof {
                    lemma_extends_shorter(old(plays)@, plays@, d, w, ch, 0, start, start);
                    assert forall|v: Seq<char>|
                        #[trigger] right_goal(sq, edges, counts, w, next_tile_index as int, anchor, v)
                            implies has_play(plays@, d, start, w + v) by {
                        let end = next_tile_index + v.len();
                        assert(sq[end - (w + v).len() + w.len()].tile == Some(ch));
                        assert((w + v)[w.len() as int] == v[0]);
                        assert(v[0] == ch);
                        let rest = v.drop_first();
                        lemma_laid_rest(sq, w, v, end);
                        assert(w.push(ch) + rest =~= w + v);
                        lemma_placed_first(sq, v, end);
                        assert(Seq::<char>::empty() + placed_letters(sq, rest, end) =~= placed_letters(sq, rest, end));
                        if rest.len() > 0 {
                            assert(right_goal(sq, edges, counts, w.push(ch), next_tile_index + 1, anchor, rest));
                        } else {
                            assert(w.push(ch) =~= w + v);
                        }
                    }
                }
            } else {
                proof {
                    assert forall|v: Seq<char>|
                        #[trigger] right_goal(sq, edges, counts, w, next_tile_index as int, anchor, v)
                            implies has_play(plays@, d, start, w + v) by {
                        let end = next_tile_index + v.len();
                        assert(sq[end - (w + v).len() + w.len()].tile == Some(ch));
                        assert((w + v)[w.len() as int] == v[0]);
                        assert(w.push(ch) + v.drop_first() =~= w + v);
                        lemma_word_prefix_walks(edges, w.push(ch), v.drop_first());
                        lemma_reaches_step(edges, w, node.0, ch);
                    }
                }
            }
        } else {
            self.extend_right_over_children(
                plays,
                rack,
                partial_word,
                node,
                next_tile_index,
                taken,
                init,
            );
        }
    }
    /// Extends the partial word through the empty square `next_tile_index` with each child
    /// of `node` that the rack and the cross-checks allow.
    #[verifier::rlimit(100)]
    fn extend_right_over_children(
        &self,
        plays: &mut Vec<ScoredScrabblePlay>,
        rack: &mut ScrabbleRack,
        partial_word: &mut Vec<char>,
        node: DawgNodeIndex,
        next_tile_index: usize,
        taken: Ghost<Seq<char>>,
        init: Ghost<Seq<usize>>,
    )
        requires
            self.wf(),
            old(rack).wf(),
            self.all_sound(old(plays)@, init@),
            rack_accounts(old(rack).tile_counts@, taken@, init@),
            old(partial_word)@.len() <= next_tile_index < BOARD_SIZE,
            self.aisle.squares@[next_tile_index as int].tile is None,
            next_tile_index - old(partial_word)@.len() <= self.anchor_index,
            reaches(self.dawg.edges@, old(partial_word)@, node.0),
            laid(self.aisle.squares@, old(partial_word)@, next_tile_index as int),
            clear_at(self.aisle.squares@, next_tile_index - old(partial_word)@.len() - 1),
            no_anchor_between(
                self.aisle.squares@,
                next_tile_index - old(partial_word)@.len(),
                self.anchor_index as int,
            ),
            tiles_match(
                taken@,
                placed_letters(self.aisle.squares@, old(partial_word)@, next_tile_index as int),
            ),
        ensures
            final(rack).wf(),
            final(rack).tile_counts@ == old(rack).tile_counts@,
            final(partial_word)@ == old(partial_word)@,
            self.all_sound(final(plays)@, init@),
            extends_plays(
                old(plays)@,
                final(plays)@,
                self.aisle.direction,
                old(partial_word)@,
                1,
                next_tile_index - old(partial_word)@.len(),
                next_tile_index - old(partial_word)@.len(),
            ),
            forall|v: Seq<char>|
                #[trigger] right_goal(
                    self.aisle.squares@,
                    self.dawg.edges@,
                    old(rack).tile_counts@,
                    old(partial_word)@,
                    next_tile_index as int,
                    self.anchor_index as int,
                    v,
                ) ==> has_play(
                    final(plays)@,
                    self.aisle.direction,
                    next_tile_index - old(partial_word)@.len(),
                    old(partial_word)@ + v,
                ),
        decreases 63 - 4 * next_tile_index,
    {
        let square = self.aisle.squares[next_tile_index];
        let ghost w = partial_word@;
        let ghost sq = self.aisle.squares@;
        let ghost counts = rack.tile_counts@;
        let ghost edges = self.dawg.edges@;
        let ghost anchor = self.anchor_index as int;
        let ghost start = next_tile_index - old(partial_word)@.len();
        let ghost d = self.aisle.direction;
        proof {
            lemma_extends_none(plays@, d, partial_word@, 1, start, start);
        }
        let children = self.dawg.child_edges(node);
        proof {
            if children@.len() > 0 {
                lemma_block_end(self.dawg.edges@, node.0 as int);
            }
            assert forall|v: Seq<char>|
                #[trigger] right_goal(sq, edges, counts, w, next_tile_index as int, anchor, v)
                    && found_before(edges, node.0 as int, v[0], node.0 + 0) implies has_play(
                    plays@,
                    d,
                    start,
                    w + v,
                ) by {
                lemma_leaving_letter(edges, node.0 as int, v[0]);
            }
        }
        let n_edges = self.dawg.edges.len();
        let mut j: usize = 0;
        while j < children.len()
            invariant
                j <= children@.len(),
                self.wf(),
                rack.wf(),
                rack.tile_counts@ == old(rack).tile_counts@,
                partial_word@ == w,
                w == old(partial_word)@,
                sq == self.aisle.squares@,
                self.all_sound(plays@, init@),
                rack_accounts(rack.tile_counts@, taken@, init@),
                tiles_match(taken@, placed_letters(sq, w, next_tile_index as int)),
                children@ == block(self.dawg.edges@, node.0 as int),
                square == sq[next_tile_index as int],
                square.tile is None,
                w.len() <= next_tile_index < BOARD_SIZE,
                next_tile_index - w.len() <= self.anchor_index,
                reaches(self.dawg.edges@, w, node.0),
                laid(sq, w, next_tile_index as int),
                clear_at(sq, next_tile_index - w.len() - 1),
                no_anchor_between(sq, next_tile_index - w.len(), self.anchor_index as int),
                start == next_tile_index - w.len(),
                d == self.aisle.direction,
                children@.len() > 0 ==> 0 <= node.0 < self.dawg.edges@.len() && children@.len()
                    == block_end(self.dawg.edges@, node.0 as int) - node.0 && block_end(
                    self.dawg.edges@,
                    node.0 as int,
                ) <= self.dawg.edges@.len(),
                n_edges == self.dawg.edges@.len(),
                extends_plays(old(plays)@, plays@, d, w, 1, start, start),
                forall|k: int|
                    0 <= k < added(old(plays)@, plays@).len() ==> found_before(
                        self.dawg.edges@,
                        node.0 as int,
                        (#[trigger] added(old(plays)@, plays@)[k]).play.word@[w.len() as int],
                        node.0 + j,
                    ),
                counts == old(rack).tile_counts@,
                edges == self.dawg.edges@,
                anchor == self.anchor_index,
                forall|v: Seq<char>|
                    #[trigger] right_goal(sq, edges, counts, w, next_tile_index as int, anchor, v)
                        && found_before(edges, node.0 as int, v[0], node.0 + j) ==> has_play(
                        plays@,
                        d,
                        start,
                        w + v,
                    ),
            decreases children@.len() - j,
        {
            let edge = &children[j];
            let ghost before = plays@;
            let index = node.0 as usize + j;
            proof {
                assert(children@[j as int] == self.dawg.edges@[index as int]);
            }
            if self.is_first_with_letter(node, index, edge) {
                self.extend_right_with_edge(
                    plays,
                    rack,
                    partial_word,
                    node,
                    next_tile_index,
                    edge,
                    taken,
                    init,
                );
                proof {
                    let c = edge.letter;
                    lemma_added_concat(old(plays)@, before, plays@);
                    let x = added(old(plays)@, before);
                    let y = added(before, plays@);
                    assert forall|k: int| 0 <= k < y.len() implies (#[trigger] y[k]).play.word@[w.len() as int] == c by {
                        assert(y[k].play.word@.subrange(0, (w.len() + 1) as int) == w.push(c));
                        assert(y[k].play.word@.subrange(0, (w.len() + 1) as int)[w.len() as int] == c);
                    }
                    assert forall|a: int, b: int|
                        0 <= a < x.len() && 0 <= b < y.len() implies !same_placement(
                        #[trigger] x[a],
                        #[trigger] y[b],
                    ) by {
                        assert(found_before(self.dawg.edges@, node.0 as int, x[a].play.word@[w.len() as int], node.0 + j));
                        assert(y[b].play.word@[w.len() as int] == c);
                        assert(x[a].play.word@[w.len() as int] != c);
                        lemma_words_differ(x[a].play.word@, y[b].play.word@, w.len() as int);
                    }
                    lemma_distinct_concat(x, y);
                    lemma_extends_shorter(before, plays@, d, w, c, 0, start, start);
                    let z = added(old(plays)@, plays@);
                    assert forall|k: int| 0 <= k < z.len() implies {
                        let q = #[trigger] z[k];
                        &&& w.len() + 1 <= q.play.word@.len()
                        &&& q.play.word@.subrange(0, w.len() as int) == w
                        &&& start <= q.play.start.spec_cross(d) <= start
                    } by {
                        if k < x.len() {
                            assert(z[k] == x[k]);
                        } else {
                            assert(z[k] == y[k - x.len()]);
                        }
                    }
                    assert forall|k: int|
                        0 <= k < z.len() implies found_before(
                        self.dawg.edges@,
                        node.0 as int,
                        (#[trigger] z[k]).play.word@[w.len() as int],
                        node.0 + j + 1,
                    ) by {
                        if k < x.len() {
                            assert(z[k] == x[k]);
                        } else {
                            assert(z[k] == y[k - x.len()]);
                        }
                    }
                    assert forall|v: Seq<char>|
                        #[trigger] right_goal(sq, edges, counts, w, next_tile_index as int, anchor, v)
                            && found_before(edges, node.0 as int, v[0], node.0 + j + 1) implies has_play(
                            plays@,
                            d,
                            start,
                            w + v,
                        ) by {
                        if found_before(edges, node.0 as int, v[0], node.0 + j) {
                            lemma_has_play_grows(before, plays@, d, start, w + v);
                        } else {
                            lemma_leaving_letter(edges, node.0 as int, v[0]);
                            assert(v[0] == edge.letter);
                        }
                    }
                }
            } else {
                proof {
                    assert forall|v: Seq<char>|
                        #[trigger] right_goal(sq, edges, counts, w, next_tile_index as int, anchor, v)
                            && found_before(edges, node.0 as int, v[0], node.0 + j + 1) implies has_play(
                            plays@,
                            d,
                            start,
                            w + v,
                        ) by {
                        if !found_before(edges, node.0 as int, v[0], node.0 + j) {
                            lemma_leaving_letter(edges, node.0 as int, v[0]);
                            assert(leaving_from(edges, node.0 as int, v[0]) == Some(node.0 + j));
                            assert(edges[node.0 + j] == *edge);
                            assert(v[0] == edge.letter);
                            assert(false);
                        }
                    }
                }
            }
            j += 1;
        }
        proof {
            assert forall|v: Seq<char>|
                #[trigger] right_goal(sq, edges, counts, w, next_tile_index as int, anchor, v)
                    implies has_play(plays@, d, start, w + v) by {
                let c = v[0];
                assert(w.push(c) + v.drop_first() =~= w + v);
                lemma_word_prefix_walks(edges, w.push(c), v.drop_first());
                lemma_reaches_step(edges, w, node.0, c);
                lemma_leaving_letter(edges, node.0 as int, c);
                lemma_leaving_in_block(edges, node.0 as int, c);
                lemma_block_end(edges, node.0 as int);
                assert(children@.len() == block_end(edges, node.0 as int) - node.0);
                assert(j == children@.len());
                assert(found_before(edges, node.0 as int, c, node.0 + j));
            }
        }
    }

    /// Places the letter of `edge`, a child of `node`, on the empty square
    /// `next_tile_index` when the rack and the cross-checks allow it, and extends further.
    #[verifier::rlimit(100)]
    fn extend_right_with_edge(
        &self,
        plays: &mut Vec<ScoredScrabblePlay>,
        rack: &mut ScrabbleRack,
        partial_word: &mut Vec<char>,
        node: DawgNodeIndex,
        next_tile_index: usize,
        edge: &DawgEdge,
        taken: Ghost<Seq<char>>,
        init: Ghost<Seq<usize>>,
    )
        requires
            self.wf(),
            old(rack).wf(),
            self.all_sound(old(plays)@, init@),
            rack_accounts(old(rack).tile_counts@, taken@, init@),
            old(partial_word)@.len() <= next_tile_index < BOARD_SIZE,
            next_tile_index - old(partial_word)@.len() <= self.anchor_index,
            self.aisle.squares@[next_tile_index as int].tile is None,
            reaches(self.dawg.edges@, old(partial_word)@, node.0),
            leaving_from(self.dawg.edges@, node.0 as int, edge.letter) matches Some(k)
                && self.dawg.edges@[k] == *edge,
            laid(self.aisle.squares@, old(partial_word)@, next_tile_index as int),
            clear_at(self.aisle.squares@, next_tile_index - old(partial_word)@.len() - 1),
            no_anchor_between(
                self.aisle.squares@,
                next_tile_index - old(partial_word)@.len(),
                self.anchor_index as int,
            ),
            tiles_match(
                taken@,
                placed_letters(self.aisle.squares@, old(partial_word)@, next_tile_index as int),
            ),
        ensures
            final(rack).wf(),
            final(rack).tile_counts@ == old(rack).tile_counts@,
            final(partial_word)@ == old(partial_word)@,
            self.all_sound(final(plays)@, init@),
            extends_plays(
                old(plays)@,
                final(plays)@,
                self.aisle.direction,
                old(partial_word)@.push(edge.letter),
                0,
                next_tile_index - old(partial_word)@.len(),
                next_tile_index - old(partial_word)@.len(),
            ),
            forall|v: Seq<char>|
                #[trigger] right_goal(
                    self.aisle.squares@,
                    self.dawg.edges@,
                    old(rack).tile_counts@,
                    old(partial_word)@,
                    next_tile_index as int,
                    self.anchor_index as int,
                    v,
                ) && v[0] == edge.letter ==> has_play(
                    final(plays)@,
                    self.aisle.direction,
                    next_tile_index - old(partial_word)@.len(),
                    old(partial_word)@ + v,
                ),
        decreases 62 - 4 * next_tile_index,
    {
        let letter = edge.letter;
        let square = &self.aisle.squares[next_tile_index];
        let ghost w = partial_word@;
        let ghost sq = self.aisle.squares@;
        let ghost counts = rack.tile_counts@;
        let ghost edges = self.dawg.edges@;
        let ghost anchor = self.anchor_index as int;
        let ghost start = next_tile_index - w.len();
        let ghost d = self.aisle.direction;
        let ghost next = next_tile_index as int;
        proof {
            lemma_extends_none(
                plays@,
                self.aisle.direction,
                partial_word@.push(letter),
                0,
                next_tile_index - partial_word@.len(),
                next_tile_index - partial_word@.len(),
            );
        }
        if 'a' <= letter && letter <= 'z' && square.is_compatible(letter) {
            let ghost before = rack.tile_counts@;
            match rack.take_tile(letter) {
                Ok(tile) => {
                    let ghost now_taken = taken@.push(tile);
                    proof {
                        lemma_reaches_step(self.dawg.edges@, partial_word@, node.0, letter);
                        lemma_laid_push(
                            self.aisle.squares@,
                            partial_word@,
                            next_tile_index as int,
                            letter,
                        );
                        lemma_rack_accounts_take(before, taken@, init@, tile);
                        assert(partial_word@.push(letter).drop_last() =~= partial_word@);
                        let placed = placed_letters(
                            self.aisle.squares@,
                            partial_word@,
                            next_tile_index as int,
                        );
                        assert(placed_letters(
                            self.aisle.squares@,
                            partial_word@.push(letter),
                            next_tile_index + 1,
                        ) == placed.push(letter));
                        assert(tiles_match(now_taken, placed.push(letter)));
                    }
                    let ghost taken_counts = rack.tile_counts@;
                    self.extend_using_edge(
                        plays,
                        rack,
                        partial_word,
                        next_tile_index,
                        edge,
                        Ghost(now_taken),
                        init,
                    );
                    rack.add_tile(tile);
                    proof {
                        assert(rack.tile_counts@ =~= before);
                        assert forall|v: Seq<char>|
                            #[trigger] right_goal(sq, edges, counts, w, next, anchor, v) && v[0]
                                == letter implies has_play(plays@, d, start, w + v) by {
                            let end = next + v.len();
                            let rest = v.drop_first();
                            lemma_laid_rest(sq, w, v, end);
                            assert(w.push(letter) + rest =~= w + v);
                            lemma_placed_first(sq, v, end);
                            assert(sq[end - v.len()].tile is None);
                            let p = placed_letters(sq, rest, end);
                            assert(placed_letters(sq, v, end) == seq![letter] + p);
                            assert((seq![letter] + p)[0] == letter);
                            assert((seq![letter] + p).drop_first() =~= p);
                            if rest.len() > 0 {
                                assert(right_goal(
                                    sq,
                                    edges,
                                    taken_counts,
                                    w.push(letter),
                                    next + 1,
                                    anchor,
                                    rest,
                                ));
                            } else {
                                assert(w.push(letter) =~= w + v);
                            }
                        }
                    }
                },
                Err(_) => {
                    proof {
                        assert forall|v: Seq<char>|
                            #[trigger] right_goal(sq, edges, counts, w, next, anchor, v) && v[0]
                                == letter implies has_play(plays@, d, start, w + v) by {
                            let end = next + v.len();
                            lemma_placed_first(sq, v, end);
                            assert(sq[end - v.len()].tile is None);
                            let p = placed_letters(sq, v.drop_first(), end);
                            assert(placed_letters(sq, v, end) == seq![letter] + p);
                            assert((seq![letter] + p)[0] == letter);
                        }
                    }
                },
            }
        } else {
            proof {
                assert forall|v: Seq<char>|
                    #[trigger] right_goal(sq, edges, counts, w, next, anchor, v) && v[0] == letter
                        implies has_play(plays@, d, start, w + v) by {
                    let end = next + v.len();
                    assert(sq[end - (w + v).len() + w.len()] == sq[next]);
                    assert((w + v)[w.len() as int] == v[0]);
                }
            }
        }
    }
    /// The number of empty squares before the anchor, back to the previous anchor, tile or
    /// board edge: how far left fresh tiles may reach.
    fn initial_limit(&self) -> (r: usize)
        requires
            self.wf(),
        ensures
            r <= self.anchor_index,
            forall|k: int|
                self.anchor_index - r <= k < self.anchor_index ==> (#[trigger] self.aisle.squares@[k]).tile
                    is None && !self.aisle.squares@[k].is_anchor,
            r < self.anchor_index ==> self.aisle.squares@[self.anchor_index - r - 1].tile is Some
                || self.aisle.squares@[self.anchor_index - r - 1].is_anchor,
    {
        let mut limit: usize = 0;
        while limit < self.anchor_index
            invariant
                self.wf(),
                limit <= self.anchor_index,
                forall|k: int|
                    self.anchor_index - limit <= k < self.anchor_index ==> (#[trigger] self.aisle.squares@[k]).tile
                        is None && !self.aisle.squares@[k].is_anchor,
            decreases self.anchor_index - limit,
        {
            let square = &self.aisle.squares[self.anchor_index - (limit + 1)];
            if square.tile.is_some() || square.is_anchor {
                return limit;
            }
            limit += 1;
        }
        limit
    }

    /// The index of the first of the tiles directly before the anchor.
    fn left_part_start_index(&self) -> (r: usize)
        requires
            self.wf(),
        ensures
            r <= self.anchor_index,
            forall|k: int| r <= k < self.anchor_index ==> (#[trigger] self.aisle.squares@[k]).tile is Some,
            clear_at(self.aisle.squares@, r - 1),
    {
        let mut first: usize = self.anchor_index;
        while first > 0 && self.aisle.squares[first - 1].tile.is_some()
            invariant
                self.wf(),
                first <= self.anchor_index,
                forall|k: int| first <= k < self.anchor_index ==> (#[trigger] self.aisle.squares@[k]).tile is Some,
            decreases first,
        {
            first -= 1;
        }
        first
    }

    /// The tiles from `left_part_start_index` to the anchor, and the node that they lead to;
    /// none when they lead nowhere in the dictionary.
    fn initial_left_part(&self, left_part_start_index: usize) -> (r: Option<(Vec<char>, DawgNodeIndex)>)
        requires
            self.wf(),
            left_part_start_index <= self.anchor_index,
            forall|k: int|
                left_part_start_index <= k < self.anchor_index ==> (#[trigger] self.aisle.squares@[k]).tile is Some,
        ensures
            r matches Some((w, n)) ==> w@.len() == self.anchor_index - left_part_start_index
                && reaches(self.dawg.edges@, w@, n.0) && laid(
                self.aisle.squares@,
                w@,
                self.anchor_index as int,
            ),
            left_part_start_index == self.anchor_index ==> r is Some,
            r is None ==> forall|x: Seq<char>|
                x.len() > self.anchor_index - left_part_start_index && laid(
                    self.aisle.squares@,
                    x.subrange(0, self.anchor_index - left_part_start_index),
                    self.anchor_index as int,
                ) ==> !#[trigger] is_word(self.dawg.edges@, x),
    {
        let mut partial_word: Vec<char> = Vec::new();
        let mut index: usize = left_part_start_index;
        while index < self.anchor_index
            invariant
                self.wf(),
                left_part_start_index <= index <= self.anchor_index,
                forall|k: int|
                    left_part_start_index <= k < self.anchor_index ==> (#[trigger] self.aisle.squares@[k]).tile is Some,
                partial_word@.len() == index - left_part_start_index,
                laid(self.aisle.squares@, partial_word@, index as int),
            decreases self.anchor_index - index,
        {
            if let Some(ch) = self.aisle.squares[index].tile {
                proof {
                    lemma_laid_push(self.aisle.squares@, partial_word@, index as int, ch);
                }
                partial_word.push(ch);
            }
            index += 1;
        }
        if partial_word.len() == 0 {
            return Some((partial_word, self.dawg.root()));
        }
        let found = self.dawg.walk_letters(self.dawg.root(), partial_word.as_slice());
        proof {
            let w = partial_word@;
            let len = self.anchor_index - left_part_start_index;
            assert forall|x: Seq<char>|
                x.len() > len && laid(self.aisle.squares@, x.subrange(0, len), self.anchor_index as int)
                    && #[trigger] is_word(self.dawg.edges@, x) implies found is Some
                && found->0.target.0 != NULL_DAWG_NODE_INDEX by {
                assert forall|i: int| 0 <= i < w.len() implies (#[trigger] self.aisle.squares@[self.anchor_index
                    - w.len() + i]).tile is Some by {
                    assert(left_part_start_index <= self.anchor_index - w.len() + i);
                }
                lemma_laid_tiles_unique(
                    self.aisle.squares@,
                    w,
                    x.subrange(0, len),
                    self.anchor_index as int,
                );
                assert(w + x.subrange(len, x.len() as int) =~= x);
                lemma_word_prefix_walks(self.dawg.edges@, w, x.subrange(len, x.len() as int));
            }
        }
        match found {
            Some(edge) => {
                if edge.target.is_some() {
                    Some((partial_word, edge.target))
                } else {
                    None
                }
            },
            None => None,
        }
    }

    /// Builds left parts of up to `limit` rack letters before the anchor, and extends each
    /// of them (the empty one included) to the right.
    #[verifier::rlimit(100)]
    fn add_plays_for_left(
        &self,
        plays: &mut Vec<ScoredScrabblePlay>,
        rack: &mut ScrabbleRack,
        partial_word: &mut Vec<char>,
        node: DawgNodeIndex,
        limit: usize,
        taken: Ghost<Seq<char>>,
        init: Ghost<Seq<usize>>,
    )
        requires
            self.wf(),
            old(rack).wf(),
            self.all_sound(old(plays)@, init@),
            rack_accounts(old(rack).tile_counts@, taken@, init@),
            old(partial_word)@.len() + limit <= self.anchor_index,
            reaches(self.dawg.edges@, old(partial_word)@, node.0),
            laid(self.aisle.squares@, old(partial_word)@, self.anchor_index as int),
            clear_at(self.aisle.squares@, self.anchor_index - old(partial_word)@.len() - 1),
            no_anchor_between(
                self.aisle.squares@,
                self.anchor_index - old(partial_word)@.len(),
                self.anchor_index as int,
            ),
            tiles_match(
                taken@,
                placed_letters(self.aisle.squares@, old(partial_word)@, self.anchor_index as int),
            ),
            limit > 0 ==> forall|k: int|
                self.anchor_index - old(partial_word)@.len() - limit <= k < self.anchor_index
                    ==> (#[trigger] self.aisle.squares@[k]).tile is None
                    && !self.aisle.squares@[k].is_anchor,
        ensures
            final(rack).wf(),
            final(rack).tile_counts@ == old(rack).tile_counts@,
            final(partial_word)@ == old(partial_word)@,
            self.all_sound(final(plays)@, init@),
            extends_plays(
                old(plays)@,
                final(plays)@,
                self.aisle.direction,
                old(partial_word)@,
                1,
                self.anchor_index - old(partial_word)@.len() - limit,
                self.anchor_index - old(partial_word)@.len(),
            ),
            forall|u: Seq<char>, v: Seq<char>|
                #[trigger] left_goal(
                    self.aisle.squares@,
                    self.dawg.edges@,
                    old(rack).tile_counts@,
                    old(partial_word)@,
                    self.anchor_index as int,
                    limit as int,
                    u,
                    v,
                ) ==> has_play(
                    final(plays)@,
                    self.aisle.direction,
                    self.anchor_index - old(partial_word)@.len() - u.len(),
                    old(partial_word)@ + u + v,
                ),
        decreases 2 * limit + 1,
    {
        let ghost w = partial_word@;
        let ghost d = self.aisle.direction;
        let ghost top = self.anchor_index - w.len();
        let ghost sq = self.aisle.squares@;
        let ghost edges = self.dawg.edges@;
        let ghost counts = rack.tile_counts@;
        let ghost anchor = self.anchor_index as int;
        self.extend_right(plays, rack, partial_word, node, self.anchor_index, taken, init);
        let ghost mid = plays@;
        proof {
            assert forall|u: Seq<char>, v: Seq<char>|
                #[trigger] left_goal(sq, edges, counts, w, anchor, limit as int, u, v) && u.len() == 0
                    implies has_play(mid, d, top - u.len(), w + u + v) by {
                assert(w + u + v =~= w + v);
                assert(u + placed_letters(sq, v, anchor + v.len()) =~= placed_letters(
                    sq,
                    v,
                    anchor + v.len(),
                ));
                assert(right_goal(sq, edges, counts, w, anchor, anchor, v));
            }
        }
        proof {
            lemma_extends_none(mid, d, w, 1, top - limit, top - 1);
        }
        if limit > 0 {
            let children = self.dawg.child_edges(node);
            proof {
                if children@.len() > 0 {
                    lemma_block_end(self.dawg.edges@, node.0 as int);
                }
                assert forall|u: Seq<char>, v: Seq<char>|
                    #[trigger] left_goal(sq, edges, counts, w, anchor, limit as int, u, v) && u.len()
                        > 0 && found_before(edges, node.0 as int, u[0], node.0 + 0) implies has_play(
                        plays@,
                        d,
                        top - u.len(),
                        w + u + v,
                    ) by {
                    lemma_leaving_letter(edges, node.0 as int, u[0]);
                }
            }
            let n_edges = self.dawg.edges.len();
            let mut j: usize = 0;
            while j < children.len()
                invariant
                    self.wf(),
                    rack.wf(),
                    rack.tile_counts@ == old(rack).tile_counts@,
                    partial_word@ == old(partial_word)@,
                    self.all_sound(plays@, init@),
                    rack_accounts(rack.tile_counts@, taken@, init@),
                    tiles_match(
                        taken@,
                        placed_letters(
                            self.aisle.squares@,
                            old(partial_word)@,
                            self.anchor_index as int,
                        ),
                    ),
                    j <= children@.len(),
                    children@ == block(self.dawg.edges@, node.0 as int),
                    limit > 0,
                    old(partial_word)@.len() + limit <= self.anchor_index,
                    reaches(self.dawg.edges@, old(partial_word)@, node.0),
                    laid(self.aisle.squares@, old(partial_word)@, self.anchor_index as int),
                    forall|k: int|
                        self.anchor_index - old(partial_word)@.len() - limit <= k < self.anchor_index
                            ==> (#[trigger] self.aisle.squares@[k]).tile is None
                            && !self.aisle.squares@[k].is_anchor,
                    w == old(partial_word)@,
                    d == self.aisle.direction,
                    top == self.anchor_index - w.len(),
                    children@.len() > 0 ==> 0 <= node.0 < self.dawg.edges@.len() && children@.len()
                        == block_end(self.dawg.edges@, node.0 as int) - node.0 && block_end(
                        self.dawg.edges@,
                        node.0 as int,
                    ) <= self.dawg.edges@.len(),
                    n_edges == self.dawg.edges@.len(),
                    extends_plays(old(plays)@, mid, d, w, 1, top, top),
                    extends_plays(mid, plays@, d, w, 1, top - limit, top - 1),
                    forall|k: int|
                        0 <= k < added(mid, plays@).len() ==> found_before(
                            self.dawg.edges@,
                            node.0 as int,
                            (#[trigger] added(mid, plays@)[k]).play.word@[w.len() as int],
                            node.0 + j,
                        ),
                    sq == self.aisle.squares@,
                    edges == self.dawg.edges@,
                    counts == old(rack).tile_counts@,
                    anchor == self.anchor_index,
                    forall|u: Seq<char>, v: Seq<char>|
                        #[trigger] left_goal(sq, edges, counts, w, anchor, limit as int, u, v)
                            && u.len() == 0 ==> has_play(mid, d, top - u.len(), w + u + v),
                    forall|u: Seq<char>, v: Seq<char>|
                        #[trigger] left_goal(sq, edges, counts, w, anchor, limit as int, u, v)
                            && u.len() > 0 && found_before(edges, node.0 as int, u[0], node.0 + j)
                            ==> has_play(plays@, d, top - u.len(), w + u + v),
                decreases children@.len() - j,
            {
                let edge = &children[j];
                let ghost before = plays@;
                let index = node.0 as usize + j;
                proof {
                    assert(children@[j as int] == self.dawg.edges@[index as int]);
                }
                if self.is_first_with_letter(node, index, edge) {
                    self.extend_left_with_edge(
                        plays,
                        rack,
                        partial_word,
                        node,
                        limit,
                        edge,
                        taken,
                        init,
                    );
                    proof {
                        let c = edge.letter;
                        lemma_added_concat(mid, before, plays@);
                        let x = added(mid, before);
                        let y = added(before, plays@);
                        assert forall|k: int| 0 <= k < y.len() implies (#[trigger] y[k]).play.word@[w.len() as int] == c by {
                            assert(y[k].play.word@.subrange(0, (w.len() + 1) as int) == w.push(c));
                            assert(y[k].play.word@.subrange(0, (w.len() + 1) as int)[w.len() as int] == c);
                        }
                        assert forall|a: int, b: int|
                            0 <= a < x.len() && 0 <= b < y.len() implies !same_placement(
                            #[trigger] x[a],
                            #[trigger] y[b],
                        ) by {
                            assert(found_before(self.dawg.edges@, node.0 as int, x[a].play.word@[w.len() as int], node.0 + j));
                            assert(y[b].play.word@[w.len() as int] == c);
                            lemma_words_differ(x[a].play.word@, y[b].play.word@, w.len() as int);
                        }
                        lemma_distinct_concat(x, y);
                        lemma_extends_shorter(before, plays@, d, w, c, 1, top - limit, top - 1);
                        let z = added(mid, plays@);
                        assert forall|k: int| 0 <= k < z.len() implies {
                            let q = #[trigger] z[k];
                            &&& w.len() + 1 <= q.play.word@.len()
                            &&& q.play.word@.subrange(0, w.len() as int) == w
                            &&& top - limit <= q.play.start.spec_cross(d) <= top - 1
                        } by {
                            if k < x.len() {
                                assert(z[k] == x[k]);
                            } else {
                                assert(z[k] == y[k - x.len()]);
                            }
                        }
                        assert forall|k: int|
                            0 <= k < z.len() implies found_before(
                            self.dawg.edges@,
                            node.0 as int,
                            (#[trigger] z[k]).play.word@[w.len() as int],
                            node.0 + j + 1,
                        ) by {
                            if k < x.len() {
                                assert(z[k] == x[k]);
                            } else {
                                assert(z[k] == y[k - x.len()]);
                            }
                        }
                        assert forall|u: Seq<char>, v: Seq<char>|
                            #[trigger] left_goal(sq, edges, counts, w, anchor, limit as int, u, v)
                                && u.len() > 0 && found_before(edges, node.0 as int, u[0], node.0 + j + 1)
                                implies has_play(plays@, d, top - u.len(), w + u + v) by {
                            if found_before(edges, node.0 as int, u[0], node.0 + j) {
                                lemma_has_play_grows(before, plays@, d, top - u.len(), w + u + v);
                            } else {
                                lemma_leaving_letter(edges, node.0 as int, u[0]);
                                assert(u[0] == c);
                            }
                        }
                        assert forall|u: Seq<char>, v: Seq<char>|
                            #[trigger] left_goal(sq, edges, counts, w, anchor, limit as int, u, v)
                                && u.len() == 0 implies has_play(mid, d, top - u.len(), w + u + v) by {}
                    }
                } else {
                    proof {
                        assert forall|u: Seq<char>, v: Seq<char>|
                            #[trigger] left_goal(sq, edges, counts, w, anchor, limit as int, u, v)
                                && u.len() > 0 && found_before(edges, node.0 as int, u[0], node.0 + j + 1)
                                implies has_play(plays@, d, top - u.len(), w + u + v) by {
                            if !found_before(edges, node.0 as int, u[0], node.0 + j) {
                                lemma_leaving_letter(edges, node.0 as int, u[0]);
                                assert(leaving_from(edges, node.0 as int, u[0]) == Some(node.0 + j));
                                assert(edges[node.0 + j] == *edge);
                                assert(u[0] == edge.letter);
                                assert(false);
                            }
                        }
                    }
                }
                j += 1;
            }
            proof {
                assert forall|u: Seq<char>, v: Seq<char>|
                    #[trigger] left_goal(sq, edges, counts, w, anchor, limit as int, u, v)
                        implies has_play(plays@, d, top - u.len(), w + u + v) by {
                    if u.len() == 0 {
                        lemma_has_play_grows(mid, plays@, d, top - u.len(), w + u + v);
                    } else {
                        let c = u[0];
                        assert(w.push(c) + (u.drop_first() + v) =~= w + u + v);
                        lemma_word_prefix_walks(edges, w.push(c), u.drop_first() + v);
                        lemma_reaches_step(edges, w, node.0, c);
                        lemma_leaving_letter(edges, node.0 as int, c);
                        lemma_leaving_in_block(edges, node.0 as int, c);
                        lemma_block_end(edges, node.0 as int);
                        assert(children@.len() == block_end(edges, node.0 as int) - node.0);
                        assert(found_before(edges, node.0 as int, c, node.0 + j));
                    }
                }
            }
        } else {
            proof {
                assert(plays@ == mid);
                assert forall|u: Seq<char>, v: Seq<char>|
                    #[trigger] left_goal(sq, edges, counts, w, anchor, limit as int, u, v)
                        implies has_play(plays@, d, top - u.len(), w + u + v) by {}
            }
        }
        proof {
            lemma_added_concat(old(plays)@, mid, plays@);
            let x = added(old(plays)@, mid);
            let y = added(mid, plays@);
            assert forall|a: int, b: int|
                0 <= a < x.len() && 0 <= b < y.len() implies !same_placement(
                #[trigger] x[a],
                #[trigger] y[b],
            ) by {
                assert(x[a].play.start.spec_cross(d) == top);
                assert(y[b].play.start.spec_cross(d) <= top - 1);
            }
            lemma_distinct_concat(x, y);
            let z = added(old(plays)@, plays@);
            assert forall|k: int| 0 <= k < z.len() implies {
                let q = #[trigger] z[k];
                &&& w.len() + 1 <= q.play.word@.len()
                &&& q.play.word@.subrange(0, w.len() as int) == w
                &&& top - limit <= q.play.start.spec_cross(d) <= top
            } by {
                if k < x.len() {
                    assert(z[k] == x[k]);
                } else {
                    assert(z[k] == y[k - x.len()]);
                }
            }
        }
    }

    /// Takes the letter of `edge`, a child of `node`, from the rack as one more letter of
    /// the left part, and goes on building left parts from its target.
    #[verifier::rlimit(100)]
    fn extend_left_with_edge(
        &self,
        plays: &mut Vec<ScoredScrabblePlay>,
        rack: &mut ScrabbleRack,
        partial_word: &mut Vec<char>,
        node: DawgNodeIndex,
        limit: usize,
        edge: &DawgEdge,
        taken: Ghost<Seq<char>>,
        init: Ghost<Seq<usize>>,
    )
        requires
            self.wf(),
            old(rack).wf(),
            self.all_sound(old(plays)@, init@),
            rack_accounts(old(rack).tile_counts@, taken@, init@),
            limit > 0,
            old(partial_word)@.len() + limit <= self.anchor_index,
            reaches(self.dawg.edges@, old(partial_word)@, node.0),
            leaving_from(self.dawg.edges@, node.0 as int, edge.letter) matches Some(k)
                && self.dawg.edges@[k] == *edge,
            laid(self.aisle.squares@, old(partial_word)@, self.anchor_index as int),
            tiles_match(
                taken@,
                placed_letters(self.aisle.squares@, old(partial_word)@, self.anchor_index as int),
            ),
            forall|k: int|
                self.anchor_index - old(partial_word)@.len() - limit <= k < self.anchor_index
                    ==> (#[trigger] self.aisle.squares@[k]).tile is None
                    && !self.aisle.squares@[k].is_anchor,
        ensures
            final(rack).wf(),
            final(rack).tile_counts@ == old(rack).tile_counts@,
            final(partial_word)@ == old(partial_word)@,
            self.all_sound(final(plays)@, init@),
            extends_plays(
                old(plays)@,
                final(plays)@,
                self.aisle.direction,
                old(partial_word)@.push(edge.letter),
                1,
                self.anchor_index - old(partial_word)@.len() - limit,
                self.anchor_index - old(partial_word)@.len() - 1,
            ),
            forall|u: Seq<char>, v: Seq<char>|
                #[trigger] left_goal(
                    self.aisle.squares@,
                    self.dawg.edges@,
                    old(rack).tile_counts@,
                    old(partial_word)@,
                    self.anchor_index as int,
                    limit as int,
                    u,
                    v,
                ) && u.len() > 0 && u[0] == edge.letter ==> has_play(
                    final(plays)@,
                    self.aisle.direction,
                    self.anchor_index - old(partial_word)@.len() - u.len(),
                    old(partial_word)@ + u + v,
                ),
        decreases 2 * limit,
    {
        let letter = edge.letter;
        proof {
            lemma_extends_none(
                plays@,
                self.aisle.direction,
                partial_word@.push(letter),
                1,
                self.anchor_index - partial_word@.len() - limit,
                self.anchor_index - partial_word@.len() - 1,
            );
        }
        let ghost w0 = partial_word@;
        let ghost sq0 = self.aisle.squares@;
        let ghost edges = self.dawg.edges@;
        let ghost counts = rack.tile_counts@;
        let ghost d = self.aisle.direction;
        let ghost anchor0 = self.anchor_index as int;
        proof {
            // What every left part through this edge needs: a letter on a free square, and an
            // edge that leads on.
            assert forall|u: Seq<char>, v: Seq<char>|
                #[trigger] left_goal(sq0, edges, counts, w0, anchor0, limit as int, u, v) && u.len()
                    > 0 && u[0] == letter implies 'a' <= letter <= 'z' && edge.target.0
                    != NULL_DAWG_NODE_INDEX && greedy_takes(
                    counts,
                    u + placed_letters(sq0, v, anchor0 + v.len()),
                ) by {
                let x = w0 + u + v;
                let end = anchor0 + v.len();
                assert(x[w0.len() as int] == letter);
                assert(sq0[end - x.len() + w0.len()].tile is None);
                assert(w0.push(letter) + (u.drop_first() + v) =~= x);
                lemma_word_prefix_walks(edges, w0.push(letter), u.drop_first() + v);
                lemma_reaches_step(edges, w0, node.0, letter);
            }
        }
        if edge.target.is_some() && 'a' <= letter && letter <= 'z' {
            let ghost before = rack.tile_counts@;
            match rack.take_tile(letter) {
                Ok(tile) => {
                    let ghost taken_counts = rack.tile_counts@;
                    let ghost w = partial_word@;
                    let ghost sq = self.aisle.squares@;
                    let ghost anchor = self.anchor_index as int;
                    let ghost now_taken = taken@.push(tile);
                    proof {
                        lemma_reaches_step(self.dawg.edges@, w, node.0, letter);
                        lemma_rack_accounts_take(before, taken@, init@, tile);
                        assert forall|i: int| 0 <= i < w.len() implies (#[trigger] sq[anchor
                            - w.len() + i]).tile is None by {
                            assert(sq[anchor - w.len() + i].tile is None);
                        }
                        lemma_placed_all_empty(sq, w, anchor);
                    }
                    partial_word.push(letter);
                    proof {
                        let v = partial_word@;
                        assert forall|i: int| 0 <= i < v.len() implies match (#[trigger] sq[anchor - v.len() + i]).tile {
                            Some(t) => v[i] == t,
                            None => 'a' <= v[i] <= 'z' && sq[anchor - v.len() + i].spec_is_compatible(v[i]),
                        } by {
                            let k = anchor - v.len() + i;
                            assert(sq[k].tile is None && !sq[k].is_anchor);
                            assert(sq[k].cross_checks is None);
                            if i < w.len() {
                                assert(sq[anchor - w.len() + i].tile is None);
                                assert(v[i] == w[i]);
                            }
                        }
                        let k = anchor - v.len();
                        assert(sq[k].tile is None && !sq[k].is_anchor);
                        assert(clear_at(sq, k - 1));
                        assert forall|i: int| 0 <= i < v.len() implies (#[trigger] sq[anchor
                            - v.len() + i]).tile is None by {
                            assert(sq[anchor - v.len() + i].tile is None);
                        }
                        lemma_placed_all_empty(sq, v, anchor);
                        assert(tiles_match(now_taken, v));
                    }
                    self.add_plays_for_left(
                        plays,
                        rack,
                        partial_word,
                        edge.target,
                        limit - 1,
                        Ghost(now_taken),
                        init,
                    );
                    partial_word.pop();
                    rack.add_tile(tile);
                    proof {
                        assert(partial_word@ =~= w);
                        assert(rack.tile_counts@ =~= before);
                        assert forall|u: Seq<char>, v: Seq<char>|
                            #[trigger] left_goal(sq0, edges, counts, w0, anchor0, limit as int, u, v)
                                && u.len() > 0 && u[0] == letter implies has_play(
                                plays@,
                                d,
                                anchor0 - w0.len() - u.len(),
                                w0 + u + v,
                            ) by {
                            let rest = u.drop_first();
                            let p = placed_letters(sq0, v, anchor0 + v.len());
                            assert((u + p)[0] == letter);
                            assert((u + p).drop_first() =~= rest + p);
                            assert(w0.push(letter) + rest + v =~= w0 + u + v);
                            assert(left_goal(
                                sq0,
                                edges,
                                taken_counts,
                                w0.push(letter),
                                anchor0,
                                limit - 1,
                                rest,
                                v,
                            ));
                        }
                    }
                },
                Err(_) => {
                    proof {
                        assert forall|u: Seq<char>, v: Seq<char>|
                            #[trigger] left_goal(sq0, edges, counts, w0, anchor0, limit as int, u, v)
                                && u.len() > 0 && u[0] == letter implies has_play(
                                plays@,
                                d,
                                anchor0 - w0.len() - u.len(),
                                w0 + u + v,
                            ) by {
                            let p = placed_letters(sq0, v, anchor0 + v.len());
                            assert((u + p)[0] == letter);
                        }
                    }
                },
            }
        }
    }

    /// The plays whose leftmost anchor this is, drawing on `rack`, each found once; the rack
    /// is restored.
    #[verifier::rlimit(100)]
    pub fn scored_plays(&self, rack: &mut ScrabbleRack) -> (r: Vec<ScoredScrabblePlay>)
        requires
            self.wf(),
            old(rack).wf(),
        ensures
            final(rack).wf(),
            final(rack).tile_counts@ == old(rack).tile_counts@,
            self.all_sound(r@, old(rack).tile_counts@),
            distinct_plays(r@),
            forall|s: int, x: Seq<char>|
                #[trigger] legal_from_anchor(
                    self.aisle.squares@,
                    self.dawg.edges@,
                    old(rack).tile_counts@,
                    self.anchor_index as int,
                    s,
                    x,
                ) ==> has_play(r@, self.aisle.direction, s, x),
    {
        let ghost init = rack.tile_counts@;
        let ghost sq = self.aisle.squares@;
        let ghost edges = self.dawg.edges@;
        let ghost anchor = self.anchor_index as int;
        let ghost d = self.aisle.direction;
        let mut plays: Vec<ScoredScrabblePlay> = Vec::new();
        let start = self.left_part_start_index();
        if let Some((mut partial_word, node)) = self.initial_left_part(start) {
            let ghost old_partial = partial_word@;
            let limit = if partial_word.len() > 0 {
                0
            } else {
                self.initial_limit()
            };
            proof {
                let w = partial_word@;
                let sq = self.aisle.squares@;
                let anchor = self.anchor_index as int;
                assert forall|i: int| 0 <= i < w.len() implies (#[trigger] sq[anchor - w.len()
                    + i]).tile is Some by {
                    assert(start <= anchor - w.len() + i < anchor);
                }
                lemma_placed_all_tiles(sq, w, anchor);
                let none = Seq::<char>::empty();
                assert(tiles_match(none, placed_letters(sq, w, anchor)));
                assert forall|slot: int| 0 <= slot < 27 implies #[trigger] rack.tile_counts@[slot]
                    + occurrences(none, slot) == init[slot] by {}
            }
            self.add_plays_for_left(
                &mut plays,
                rack,
                &mut partial_word,
                node,
                limit,
                Ghost(Seq::empty()),
                Ghost(init),
            );
            proof {
                assert(added(Seq::<ScoredScrabblePlay>::empty(), plays@) =~= plays@);
                let w0 = old_partial;
                assert forall|s: int, x: Seq<char>|
                    #[trigger] legal_from_anchor(sq, edges, init, anchor, s, x) implies has_play(
                        plays@,
                        d,
                        s,
                        x,
                    ) by {
                    lemma_left_region(sq, s, anchor);
                    let len = anchor - s;
                    let end = s + x.len();
                    let front = x.subrange(0, len);
                    let v = x.subrange(len, x.len() as int);
                    assert(front + v =~= x);
                    lemma_laid_rest(sq, front, v, end);
                    lemma_placed_split(sq, front, v, end);
                    lemma_placed_are_letters(sq, x, end);
                    lemma_greedy_suffices(init, placed_letters(sq, x, end));
                    if s < anchor && sq[anchor - 1].tile is Some {
                        assert(forall|k: int| s <= k < anchor ==> (#[trigger] sq[k]).tile is Some);
                        if start < s {
                            assert(sq[s - 1].tile is Some);
                        }
                        if start > s {
                            assert(sq[start - 1].tile is Some);
                        }
                        assert(start == s);
                        assert forall|i: int| 0 <= i < front.len() implies (#[trigger] sq[anchor
                            - front.len() + i]).tile is Some by {}
                        lemma_laid_tiles_unique(sq, w0, front, anchor);
                        lemma_placed_all_tiles(sq, front, anchor);
                        let none = Seq::<char>::empty();
                        assert(none + placed_letters(sq, v, end) =~= placed_letters(sq, x, end));
                        assert(w0 + none + v =~= x);
                        assert(left_goal(sq, edges, init, w0, anchor, limit as int, none, v));
                    } else {
                        if start < anchor {
                            assert(sq[anchor - 1].tile is Some);
                            assert(s == anchor);
                        }
                        assert(start == anchor);
                        assert(w0.len() == 0);
                        assert forall|i: int| 0 <= i < front.len() implies (#[trigger] sq[anchor
                            - front.len() + i]).tile is None by {
                            assert(s <= anchor - front.len() + i < anchor);
                        }
                        lemma_placed_all_empty(sq, front, anchor);
                        if limit < len {
                            assert(s <= anchor - limit - 1 < anchor);
                        }
                        assert(w0 + front + v =~= x);
                        assert(left_goal(sq, edges, init, w0, anchor, limit as int, front, v));
                    }
                }
            }
        } else {
            proof {
                assert forall|s: int, x: Seq<char>|
                    #[trigger] legal_from_anchor(sq, edges, init, anchor, s, x) implies has_play(
                        plays@,
                        d,
                        s,
                        x,
                    ) by {
                    lemma_left_region(sq, s, anchor);
                    let len = anchor - s;
                    let end = s + x.len();
                    let front = x.subrange(0, len);
                    let v = x.subrange(len, x.len() as int);
                    assert(front + v =~= x);
                    lemma_laid_rest(sq, front, v, end);
                    assert(start < anchor);
                    assert(sq[anchor - 1].tile is Some);
                    assert(s < anchor);
                    assert(forall|k: int| s <= k < anchor ==> (#[trigger] sq[k]).tile is Some);
                    if start < s {
                        assert(sq[s - 1].tile is Some);
                    }
                    if start > s {
                        assert(sq[start - 1].tile is Some);
                    }
                    assert(x.subrange(0, anchor - start) == front);
                    assert(!is_word(edges, x));
                }
            }
        }
        plays
    }
}

} // verus!
