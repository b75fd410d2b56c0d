//! The rack: counts of the tiles a player holds, 26 letters and the blank.
use crate::error::ScrabbleError;
use crate::util::{chars_of, BLANK_TILE_CHAR};
use vstd::prelude::*;

verus! {

pub const N_LETTERS: usize = 26;

pub const N_TILES: usize = 27;

pub const BLANK_TILE_INDEX: usize = 26;

/// A letter `a..z` or the blank.
pub open spec fn is_tile(c: char) -> bool {
    ('a' <= c <= 'z') || c == '_'
}

/// The count slot of a tile: 0 to 25 for the letters, 26 for the blank.
pub open spec fn tile_slot(c: char) -> int {
    if c == '_' {
        26
    } else {
        c as int - 97
    }
}

/// Every character of `s` is a tile.
pub open spec fn all_tiles(s: Seq<char>) -> bool {
    forall|i: int| 0 <= i < s.len() ==> is_tile(#[trigger] s[i])
}

/// The number of tiles of `s` that go to count slot `slot`.
pub open spec fn occurrences(s: Seq<char>, slot: int) -> nat
    decreases s.len(),
{
    if s.len() == 0 {
        0
    } else {
        occurrences(s.drop_last(), slot) + if is_tile(s.last()) && tile_slot(s.last()) == slot {
            1nat
        } else {
            0nat
        }
    }
}

pub proof fn lemma_occurrences_bound(s: Seq<char>, slot: int)
    ensures
        occurrences(s, slot) <= s.len(),
    decreases s.len(),
{
    if s.len() > 0 {
        lemma_occurrences_bound(s.drop_last(), slot);
    }
}

/// 1 when `c` is a tile of count slot `slot`, else 0.
pub open spec fn counts_as(c: char, slot: int) -> nat {
    if is_tile(c) && tile_slot(c) == slot {
        1
    } else {
        0
    }
}

pub proof fn lemma_occurrences_first(s: Seq<char>, slot: int)
    requires
        s.len() > 0,
    ensures
        occurrences(s, slot) == occurrences(s.drop_first(), slot) + counts_as(s[0], slot),
    decreases s.len(),
{
    if s.len() > 1 {
        lemma_occurrences_first(s.drop_last(), slot);
        assert(s.drop_last().drop_first() =~= s.drop_first().drop_last());
        assert(s.drop_first().last() == s.last());
    } else {
        assert(s.drop_first() =~= Seq::<char>::empty());
        assert(s.drop_last() =~= Seq::<char>::empty());
    }
}

pub proof fn lemma_occurrences_update(s: Seq<char>, m: int, x: char, slot: int)
    requires
        0 <= m < s.len(),
    ensures
        occurrences(s.update(m, x), slot) + counts_as(s[m], slot) == occurrences(s, slot)
            + counts_as(x, slot),
    decreases s.len(),
{
    let u = s.update(m, x);
    if m == s.len() - 1 {
        assert(u.drop_last() =~= s.drop_last());
    } else {
        assert(u.drop_last() =~= s.drop_last().update(m, x));
        lemma_occurrences_update(s.drop_last(), m, x, slot);
    }
}

pub proof fn lemma_occurrences_none(s: Seq<char>, slot: int)
    requires
        forall|j: int| 0 <= j < s.len() ==> counts_as(#[trigger] s[j], slot) == 0,
    ensures
        occurrences(s, slot) == 0,
    decreases s.len(),
{
    if s.len() > 0 {
        assert(counts_as(s[s.len() - 1], slot) == 0);
        lemma_occurrences_none(s.drop_last(), slot);
    }
}

/// Taking the tiles for `letters` in order from a rack with the tile counts `counts`, each
/// letter as itself while the rack holds it and as a blank otherwise, never runs out.
pub open spec fn greedy_takes(counts: Seq<usize>, letters: Seq<char>) -> bool
    decreases letters.len(),
{
    if letters.len() == 0 {
        true
    } else {
        let s = tile_slot(letters[0]);
        if counts[s] > 0 {
            greedy_takes(counts.update(s, (counts[s] - 1) as usize), letters.drop_first())
        } else if counts[26] > 0 {
            greedy_takes(counts.update(26, (counts[26] - 1) as usize), letters.drop_first())
        } else {
            false
        }
    }
}

/// `taken` are rack tiles that stand for `letters`, one for one: each the letter itself or
/// a blank.
pub open spec fn tiles_match(taken: Seq<char>, letters: Seq<char>) -> bool {
    &&& taken.len() == letters.len()
    &&& forall|j: int| 0 <= j < taken.len() ==> #[trigger] taken[j] == letters[j] || taken[j] == '_'
}

/// The letters can be drawn from a rack with the tile counts `counts`, a blank standing for
/// any letter.
pub open spec fn drawn_from(letters: Seq<char>, counts: Seq<usize>) -> bool {
    exists|taken: Seq<char>|
        tiles_match(taken, letters) && forall|slot: int|
            0 <= slot < 27 ==> #[trigger] occurrences(taken, slot) <= counts[slot]
}

/// Whenever some choice of tiles covers the letters, taking each letter itself while the rack
/// holds it, and a blank otherwise, covers them too.
pub proof fn lemma_greedy_suffices(counts: Seq<usize>, letters: Seq<char>)
    requires
        counts.len() == 27,
        forall|j: int| 0 <= j < letters.len() ==> 'a' <= #[trigger] letters[j] <= 'z',
        drawn_from(letters, counts),
    ensures
        greedy_takes(counts, letters),
    decreases letters.len(),
{
    if letters.len() > 0 {
        let taken = choose|taken: Seq<char>|
            tiles_match(taken, letters) && forall|slot: int|
                0 <= slot < 27 ==> #[trigger] occurrences(taken, slot) <= counts[slot];
        let c = letters[0];
        let s = tile_slot(c);
        let rest = letters.drop_first();
        assert('a' <= c <= 'z');
        assert(taken[0] == c || taken[0] == '_');
        assert forall|j: int| 0 <= j < rest.len() implies 'a' <= #[trigger] rest[j] <= 'z' by {
            assert(rest[j] == letters[j + 1]);
        }
        let t1 = taken.drop_first();
        assert forall|slot: int| 0 <= slot < 27 implies occurrences(taken, slot) == occurrences(
            t1,
            slot,
        ) + counts_as(taken[0], slot) by {
            lemma_occurrences_first(taken, slot);
        }
        if counts[s] > 0 {
            let next = counts.update(s, (counts[s] - 1) as usize);
            if taken[0] == c {
                assert(tiles_match(t1, rest)) by {
                    assert forall|j: int| 0 <= j < t1.len() implies #[trigger] t1[j] == rest[j]
                        || t1[j] == '_' by {
                        assert(t1[j] == taken[j + 1]);
                    }
                }
                assert forall|slot: int| 0 <= slot < 27 implies #[trigger] occurrences(t1, slot)
                    <= next[slot] by {
                    assert(occurrences(taken, slot) <= counts[slot]);
                    assert(occurrences(taken, slot) == occurrences(t1, slot) + counts_as(c, slot));
                    if slot == s {
                        assert(counts_as(c, s) == 1);
                    }
                }
                lemma_greedy_suffices(next, rest);
            } else if exists|m: int| 0 <= m < t1.len() && t1[m] == c {
                let m = choose|m: int| 0 <= m < t1.len() && t1[m] == c;
                let t2 = t1.update(m, '_');
                assert(tiles_match(t2, rest)) by {
                    assert forall|j: int| 0 <= j < t2.len() implies #[trigger] t2[j] == rest[j]
                        || t2[j] == '_' by {
                        if j != m {
                            assert(t2[j] == taken[j + 1]);
                        }
                    }
                }
                assert forall|slot: int| 0 <= slot < 27 implies #[trigger] occurrences(t2, slot)
                    <= next[slot] by {
                    lemma_occurrences_update(t1, m, '_', slot);
                    assert(occurrences(taken, slot) <= counts[slot]);
                    assert(occurrences(taken, slot) == occurrences(t1, slot) + counts_as('_', slot));
                    assert(t1[m] == c);
                    if slot == s {
                        assert(counts_as(c, s) == 1);
                    }
                }
                lemma_greedy_suffices(next, rest);
            } else {
                assert(tiles_match(t1, rest)) by {
                    assert forall|j: int| 0 <= j < t1.len() implies #[trigger] t1[j] == rest[j]
                        || t1[j] == '_' by {
                        assert(t1[j] == taken[j + 1]);
                    }
                }
                assert forall|j: int| 0 <= j < t1.len() implies counts_as(#[trigger] t1[j], s) == 0 by {
                    assert(t1[j] == taken[j + 1]);
                    assert(t1[j] != c);
                    if is_tile(t1[j]) && tile_slot(t1[j]) == s {
                        assert(t1[j] != '_');
                        assert(t1[j] as int == c as int);
                    }
                }
                lemma_occurrences_none(t1, s);
                assert forall|slot: int| 0 <= slot < 27 implies #[trigger] occurrences(t1, slot)
                    <= next[slot] by {
                    assert(occurrences(taken, slot) <= counts[slot]);
                    assert(occurrences(taken, slot) == occurrences(t1, slot) + counts_as('_', slot));
                }
                lemma_greedy_suffices(next, rest);
            }
        } else {
            assert(taken[0] != c) by {
                if taken[0] == c {
                    assert(occurrences(taken, s) >= 1);
                }
            }
            assert(occurrences(taken, 26) >= 1);
            let next = counts.update(26, (counts[26] - 1) as usize);
            assert(tiles_match(t1, rest)) by {
                assert forall|j: int| 0 <= j < t1.len() implies #[trigger] t1[j] == rest[j]
                    || t1[j] == '_' by {
                    assert(t1[j] == taken[j + 1]);
                }
            }
            assert forall|slot: int| 0 <= slot < 27 implies #[trigger] occurrences(t1, slot)
                <= next[slot] by {
                assert(occurrences(taken, slot) <= counts[slot]);
                assert(occurrences(taken, slot) == occurrences(t1, slot) + counts_as('_', slot));
            }
            lemma_greedy_suffices(next, rest);
        }
    }
}

#[derive(Debug, Clone)]
pub struct ScrabbleRack {
    /// The count of each tile, by count slot.
    pub tile_counts: Vec<usize>,
}

impl ScrabbleRack {
    pub open spec fn wf(&self) -> bool {
        self.tile_counts@.len() == N_TILES
    }

    /// How many of tile `c` the rack holds.
    pub open spec fn count(&self, c: char) -> nat {
        self.tile_counts@[tile_slot(c)] as nat
    }

    /// A rack holding the tiles of `tiles`: letters `a..z` and `_` for the blank.
    pub fn new(tiles: &str) -> (r: Result<ScrabbleRack, ScrabbleError>)
        ensures
            r is Ok <==> all_tiles(tiles@),
            r is Err ==> r == Err::<ScrabbleRack, ScrabbleError>(ScrabbleError::InvalidRack),
            r matches Ok(rack) ==> rack.wf() && forall|slot: int|
                0 <= slot < 27 ==> #[trigger] rack.tile_counts@[slot] == occurrences(tiles@, slot),
    {
        let chars = chars_of(tiles);
        let mut i: usize = 0;
        while i < chars.len()
            invariant
                chars@ == tiles@,
                0 <= i <= chars@.len(),
                forall|k: int| 0 <= k < i ==> is_tile(#[trigger] chars@[k]),
            decreases chars@.len() - i,
        {
            let ch = chars[i];
            if !(('a' <= ch && ch <= 'z') || ch == BLANK_TILE_CHAR) {
                return Err(ScrabbleError::InvalidRack);
            }
            i += 1;
        }
        let mut tile_counts: Vec<usize> = Vec::new();
        let mut slot: usize = 0;
        while slot < N_TILES
            invariant
                slot <= N_TILES,
                tile_counts@.len() == slot,
                forall|k: int| 0 <= k < slot ==> #[trigger] tile_counts@[k] == 0,
            decreases N_TILES - slot,
        {
            tile_counts.push(0);
            slot += 1;
        }
        let mut rack = ScrabbleRack { tile_counts };
        proof {
            assert forall|k: int| 0 <= k < 27 implies #[trigger] rack.tile_counts@[k]
                == occurrences(chars@.subrange(0, 0), k) by {}
        }
        rack.add_tiles(&chars);
        proof {
            assert(chars@.subrange(0, chars@.len() as int) =~= chars@);
        }
        Ok(rack)
    }

    fn tile_index(tile: char) -> (r: usize)
        requires
            is_tile(tile),
        ensures
            r == tile_slot(tile),
            r < N_TILES,
    {
        if tile == BLANK_TILE_CHAR {
            BLANK_TILE_INDEX
        } else {
            ((tile as u32) - ('a' as u32)) as usize
        }
    }

    /// Puts one tile on the rack.
    pub fn add_tile(&mut self, tile: char)
        requires
            old(self).wf(),
            is_tile(tile),
            old(self).count(tile) < usize::MAX,
        ensures
            final(self).wf(),
            final(self).tile_counts@ == old(self).tile_counts@.update(
                tile_slot(tile),
                (old(self).count(tile) + 1) as usize,
            ),
    {
        let index = ScrabbleRack::tile_index(tile);
        let count = self.tile_counts[index];
        self.tile_counts.set(index, count + 1);
    }

    /// Puts the tiles of `tiles` on the rack, the prefix before `tiles` having been added.
    fn add_tiles(&mut self, tiles: &Vec<char>)
        requires
            old(self).wf(),
            all_tiles(tiles@),
            forall|k: int|
                0 <= k < 27 ==> #[trigger] old(self).tile_counts@[k] == occurrences(
                    tiles@.subrange(0, 0),
                    k,
                ),
        ensures
            final(self).wf(),
            forall|k: int|
                0 <= k < 27 ==> #[trigger] final(self).tile_counts@[k] == occurrences(
                    tiles@.subrange(0, tiles@.len() as int),
                    k,
                ),
    {
        let mut i: usize = 0;
        while i < tiles.len()
            invariant
                self.wf(),
                all_tiles(tiles@),
                0 <= i <= tiles@.len(),
                forall|k: int|
                    0 <= k < 27 ==> #[trigger] self.tile_counts@[k] == occurrences(
                        tiles@.subrange(0, i as int),
                        k,
                    ),
            decreases tiles@.len() - i,
        {
            let tile = tiles[i];
            proof {
                assert(is_tile(tiles@[i as int]));
                let s = tiles@.subrange(0, i + 1);
                assert(s.drop_last() =~= tiles@.subrange(0, i as int));
                lemma_occurrences_bound(tiles@.subrange(0, i as int), tile_slot(tile));
            }
            self.add_tile(tile);
            i += 1;
        }
    }

    /// Takes `tile` from the rack, or a blank in its place when there is none; returns what
    /// was taken.
    pub fn take_tile(&mut self, tile: char) -> (r: Result<char, ()>)
        requires
            old(self).wf(),
            is_tile(tile),
        ensures
            final(self).wf(),
            old(self).count(tile) > 0 ==> r == Ok::<char, ()>(tile) && final(self).tile_counts@
                == old(self).tile_counts@.update(
                tile_slot(tile),
                (old(self).count(tile) - 1) as usize,
            ),
            old(self).count(tile) == 0 && old(self).count('_') > 0 ==> r == Ok::<char, ()>('_')
                && final(self).tile_counts@ == old(self).tile_counts@.update(
                26,
                (old(self).count('_') - 1) as usize,
            ),
            old(self).count(tile) == 0 && old(self).count('_') == 0 ==> r == Err::<char, ()>(())
                && final(self).tile_counts@ == old(self).tile_counts@,
    {
        let index = ScrabbleRack::tile_index(tile);
        let count = self.tile_counts[index];
        if count > 0 {
            self.tile_counts.set(index, count - 1);
            Ok(tile)
        } else if self.tile_counts[BLANK_TILE_INDEX] > 0 {
            let blanks = self.tile_counts[BLANK_TILE_INDEX];
            self.tile_counts.set(BLANK_TILE_INDEX, blanks - 1);
            Ok(BLANK_TILE_CHAR)
        } else {
            Err(())
        }
    }
    /// A rack with the same counts.
    pub fn copied(&self) -> (r: ScrabbleRack)
        requires
            self.wf(),
        ensures
            r.wf(),
            r.tile_counts@ == self.tile_counts@,
    {
        let mut tile_counts: Vec<usize> = Vec::new();
        let mut i: usize = 0;
        while i < N_TILES
            invariant
                self.wf(),
                i <= N_TILES,
                tile_counts@ == self.tile_counts@.subrange(0, i as int),
            decreases N_TILES - i,
        {
            tile_counts.push(self.tile_counts[i]);
            i += 1;
            proof {
                assert(tile_counts@ =~= self.tile_counts@.subrange(0, i as int));
            }
        }
        proof {
            assert(tile_counts@ =~= self.tile_counts@);
        }
        ScrabbleRack { tile_counts }
    }
}

} // verus!
