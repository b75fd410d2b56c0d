//! What a placement on one aisle is: a word laid over tiles and cross-checks, the rack
//! tiles it takes, the plays that must be found, and the facts that the search relies on.
use crate::checked::CheckedAisleSquare;
use crate::dawg::{
    block, is_word, lemma_block_end, lemma_leaving_in_block, lemma_walk_concat,
    leaving_from, letters_distinct, walk, DawgEdge, NULL_DAWG_NODE_INDEX,
};
use crate::generation::ScoredScrabblePlay;
use crate::rack::{drawn_from, greedy_takes, is_tile, occurrences, tile_slot};
use crate::scoring::play_score;
use crate::util::{aisle_cross, Direction};
use vstd::prelude::*;

verus! {

/// `node` is where the walk of `w` from the root leads: the root for the empty word, else
/// the target of the walk's last edge.
pub open spec fn reaches(edges: Seq<DawgEdge>, w: Seq<char>, node: u32) -> bool {
    if w.len() == 0 {
        node == 0
    } else {
        walk(edges, 0, w) matches Some(e) && edges[e].target.0 == node && node
            != NULL_DAWG_NODE_INDEX
    }
}

/// `w` lies on the aisle ending just before `end`: each letter matches the tile already
/// on its square, or is a letter that the empty square's cross-checks allow.
pub open spec fn laid(squares: Seq<CheckedAisleSquare>, w: Seq<char>, end: int) -> bool {
    forall|i: int|
        0 <= i < w.len() ==> match (#[trigger] squares[end - w.len() + i]).tile {
            Some(c) => w[i] == c,
            None => 'a' <= w[i] <= 'z' && squares[end - w.len() + i].spec_is_compatible(w[i]),
        }
}

/// The letters of `w`, laid to end just before `end`, that go on empty squares: the tiles
/// that the play takes from the rack, each as itself or as a blank.
pub open spec fn placed_letters(squares: Seq<CheckedAisleSquare>, w: Seq<char>, end: int) -> Seq<char>
    decreases w.len(),
{
    if w.len() == 0 {
        Seq::empty()
    } else if squares[end - 1].tile is None {
        placed_letters(squares, w.drop_last(), end - 1).push(w.last())
    } else {
        placed_letters(squares, w.drop_last(), end - 1)
    }
}

/// The rack `counts` are what remains of `init` after the tiles `taken`.
pub open spec fn rack_accounts(counts: Seq<usize>, taken: Seq<char>, init: Seq<usize>) -> bool {
    &&& counts.len() == 27
    &&& init.len() == 27
    &&& forall|slot: int|
        0 <= slot < 27 ==> #[trigger] counts[slot] + occurrences(taken, slot) == init[slot]
}

/// Taking one more tile `t` keeps the account.
pub proof fn lemma_rack_accounts_take(
    counts: Seq<usize>,
    taken: Seq<char>,
    init: Seq<usize>,
    t: char,
)
    requires
        rack_accounts(counts, taken, init),
        is_tile(t),
        0 <= tile_slot(t) < 27,
        counts[tile_slot(t)] > 0,
    ensures
        rack_accounts(
            counts.update(tile_slot(t), (counts[tile_slot(t)] - 1) as usize),
            taken.push(t),
            init,
        ),
{
    assert(taken.push(t).drop_last() =~= taken);
    assert forall|slot: int| 0 <= slot < 27 implies #[trigger] counts.update(
        tile_slot(t),
        (counts[tile_slot(t)] - 1) as usize,
    )[slot] + occurrences(taken.push(t), slot) == init[slot] by {
        assert(occurrences(taken.push(t), slot) == occurrences(taken, slot) + if tile_slot(t)
            == slot {
            1nat
        } else {
            0nat
        });
    }
}

/// On a stretch of empty squares every letter is placed.
pub proof fn lemma_placed_all_empty(squares: Seq<CheckedAisleSquare>, w: Seq<char>, end: int)
    requires
        forall|i: int| 0 <= i < w.len() ==> (#[trigger] squares[end - w.len() + i]).tile is None,
    ensures
        placed_letters(squares, w, end) == w,
    decreases w.len(),
{
    if w.len() > 0 {
        let v = w.drop_last();
        assert forall|i: int| 0 <= i < v.len() implies (#[trigger] squares[end - 1 - v.len() + i]).tile
            is None by {
            assert(squares[end - w.len() + i].tile is None);
        }
        lemma_placed_all_empty(squares, v, end - 1);
        assert(squares[end - w.len() + (w.len() - 1)].tile is None);
        assert(v.push(w.last()) =~= w);
    }
}

/// On a stretch of tiles no letter is placed.
pub proof fn lemma_placed_all_tiles(squares: Seq<CheckedAisleSquare>, w: Seq<char>, end: int)
    requires
        forall|i: int| 0 <= i < w.len() ==> (#[trigger] squares[end - w.len() + i]).tile is Some,
    ensures
        placed_letters(squares, w, end) == Seq::<char>::empty(),
    decreases w.len(),
{
    if w.len() > 0 {
        let v = w.drop_last();
        assert forall|i: int| 0 <= i < v.len() implies (#[trigger] squares[end - 1 - v.len() + i]).tile
            is Some by {
            assert(squares[end - w.len() + i].tile is Some);
        }
        lemma_placed_all_tiles(squares, v, end - 1);
        assert(squares[end - w.len() + (w.len() - 1)].tile is Some);
    }
}

/// No square from `lo` up to `hi` is an empty anchor: each holds a tile or is no anchor.
pub open spec fn no_anchor_between(squares: Seq<CheckedAisleSquare>, lo: int, hi: int) -> bool {
    forall|k: int| lo <= k < hi ==> (#[trigger] squares[k]).tile is Some || !squares[k].is_anchor
}

/// Some play of `plays` places `word` from index `start` along `direction`.
pub open spec fn has_play(
    plays: Seq<ScoredScrabblePlay>,
    direction: Direction,
    start: int,
    word: Seq<char>,
) -> bool {
    exists|k: int|
        0 <= k < plays.len() && (#[trigger] plays[k]).play.start.spec_cross(direction) == start
            && plays[k].play.word@ == word
}

pub proof fn lemma_has_play_grows(
    a: Seq<ScoredScrabblePlay>,
    b: Seq<ScoredScrabblePlay>,
    direction: Direction,
    start: int,
    word: Seq<char>,
)
    requires
        a.len() <= b.len(),
        b.subrange(0, a.len() as int) == a,
        has_play(a, direction, start, word),
    ensures
        has_play(b, direction, start, word),
{
    let k = choose|k: int|
        0 <= k < a.len() && (#[trigger] a[k]).play.start.spec_cross(direction) == start
            && a[k].play.word@ == word;
    assert(b[k] == b.subrange(0, a.len() as int)[k]);
}

/// Continuing the partial word `w`, laid to end just before `next`, with the letters `v` is
/// a play to be found: `v` lies on the aisle with its tiles and cross-checks, stops before an
/// empty square or the edge, completes a word, reaches past the anchor, and the rack `counts`
/// yields the letters it places, each as itself while it can and as a blank otherwise.
pub open spec fn right_goal(
    squares: Seq<CheckedAisleSquare>,
    edges: Seq<DawgEdge>,
    counts: Seq<usize>,
    w: Seq<char>,
    next: int,
    anchor: int,
    v: Seq<char>,
) -> bool {
    &&& v.len() > 0
    &&& next + v.len() <= 15
    &&& laid(squares, w + v, next + v.len())
    &&& clear_at(squares, next + v.len())
    &&& is_word(edges, w + v)
    &&& next + v.len() > anchor
    &&& greedy_takes(counts, placed_letters(squares, v, next + v.len()))
}

/// A left part `u` of at most `limit` rack letters between the partial word `w` (laid to end
/// before the anchor) and the anchor, followed by the letters `v` from the anchor on, is a play
/// to be found: it lies on the aisle, stops before an empty square or the edge, is a word,
/// and the rack `counts` yields the letters of `u` and the letters that `v` places.
pub open spec fn left_goal(
    squares: Seq<CheckedAisleSquare>,
    edges: Seq<DawgEdge>,
    counts: Seq<usize>,
    w: Seq<char>,
    anchor: int,
    limit: int,
    u: Seq<char>,
    v: Seq<char>,
) -> bool {
    &&& u.len() <= limit
    &&& v.len() > 0
    &&& anchor + v.len() <= 15
    &&& laid(squares, w + u + v, anchor + v.len())
    &&& clear_at(squares, anchor + v.len())
    &&& is_word(edges, w + u + v)
    &&& greedy_takes(counts, u + placed_letters(squares, v, anchor + v.len()))
}

/// `x`, placed from index `s`, is a legal play of the aisle that covers `anchor` and no anchor
/// before it: it lies on the aisle with its tiles and cross-checks, is bounded by empty
/// squares or the edges, is a word, and its placed letters can be drawn from `counts`.
pub open spec fn legal_from_anchor(
    squares: Seq<CheckedAisleSquare>,
    edges: Seq<DawgEdge>,
    counts: Seq<usize>,
    anchor: int,
    s: int,
    x: Seq<char>,
) -> bool {
    &&& 0 <= s <= anchor < s + x.len() <= 15
    &&& laid(squares, x, s + x.len())
    &&& clear_at(squares, s - 1)
    &&& clear_at(squares, s + x.len())
    &&& is_word(edges, x)
    &&& drawn_from(placed_letters(squares, x, s + x.len()), counts)
    &&& no_anchor_between(squares, s, anchor)
}

/// `x`, placed from index `s`, is a legal play of the aisle: it lies on the aisle with its
/// tiles and cross-checks, is bounded by empty squares or the edges, is a word, covers an
/// anchor, and its placed letters can be drawn from `counts`.
pub open spec fn legal_play(
    squares: Seq<CheckedAisleSquare>,
    edges: Seq<DawgEdge>,
    counts: Seq<usize>,
    s: int,
    x: Seq<char>,
) -> bool {
    &&& 0 <= s < s + x.len() <= 15
    &&& laid(squares, x, s + x.len())
    &&& clear_at(squares, s - 1)
    &&& clear_at(squares, s + x.len())
    &&& is_word(edges, x)
    &&& drawn_from(placed_letters(squares, x, s + x.len()), counts)
    &&& exists|k: int| s <= k < s + x.len() && (#[trigger] squares[k]).is_anchor
}

/// A legal play is legal from the first anchor that it covers.
pub proof fn lemma_first_anchor(
    squares: Seq<CheckedAisleSquare>,
    edges: Seq<DawgEdge>,
    counts: Seq<usize>,
    s: int,
    x: Seq<char>,
    from: int,
)
    requires
        legal_play(squares, edges, counts, s, x),
        s <= from <= s + x.len(),
        no_anchor_between(squares, s, from),
        exists|k: int| from <= k < s + x.len() && (#[trigger] squares[k]).is_anchor,
    ensures
        exists|a: int|
            0 <= a < 15 && squares[a].is_anchor && #[trigger] legal_from_anchor(
                squares,
                edges,
                counts,
                a,
                s,
                x,
            ),
    decreases s + x.len() - from,
{
    if squares[from].is_anchor {
        assert(legal_from_anchor(squares, edges, counts, from, s, x));
    } else {
        assert forall|k: int| s <= k < from + 1 implies (#[trigger] squares[k]).tile is Some
            || !squares[k].is_anchor by {
            if k < from {
                assert(squares[k].tile is Some || !squares[k].is_anchor);
            }
        }
        let k = choose|k: int| from <= k < s + x.len() && (#[trigger] squares[k]).is_anchor;
        assert(k != from);
        lemma_first_anchor(squares, edges, counts, s, x, from + 1);
    }
}

/// The placed letters of a word split where the word is split.
pub proof fn lemma_placed_split(squares: Seq<CheckedAisleSquare>, a: Seq<char>, b: Seq<char>, end: int)
    ensures
        placed_letters(squares, a + b, end) == placed_letters(squares, a, end - b.len())
            + placed_letters(squares, b, end),
    decreases b.len(),
{
    if b.len() == 0 {
        assert(a + b =~= a);
        assert(placed_letters(squares, a, end) + Seq::<char>::empty() =~= placed_letters(squares, a, end));
    } else {
        assert((a + b).drop_last() =~= a + b.drop_last());
        assert((a + b).last() == b.last());
        lemma_placed_split(squares, a, b.drop_last(), end - 1);
        let pa = placed_letters(squares, a, end - b.len());
        let pb = placed_letters(squares, b.drop_last(), end - 1);
        if squares[end - 1].tile is None {
            assert((pa + pb).push(b.last()) =~= pa + pb.push(b.last()));
        }
    }
}

/// The placed letters of a laid word are letters.
pub proof fn lemma_placed_are_letters(squares: Seq<CheckedAisleSquare>, x: Seq<char>, end: int)
    requires
        laid(squares, x, end),
    ensures
        forall|j: int|
            0 <= j < placed_letters(squares, x, end).len() ==> 'a' <= #[trigger] placed_letters(
                squares,
                x,
                end,
            )[j] <= 'z',
    decreases x.len(),
{
    if x.len() > 0 {
        let y = x.drop_last();
        assert forall|i: int| 0 <= i < y.len() implies match (#[trigger] squares[end - 1 - y.len() + i]).tile {
            Some(c) => y[i] == c,
            None => 'a' <= y[i] <= 'z' && squares[end - 1 - y.len() + i].spec_is_compatible(y[i]),
        } by {
            assert(squares[end - x.len() + i] == squares[end - 1 - y.len() + i]);
            assert(x[i] == y[i]);
        }
        lemma_placed_are_letters(squares, y, end - 1);
        assert(squares[end - x.len() + (x.len() - 1)] == squares[end - 1]);
        let py = placed_letters(squares, y, end - 1);
        if squares[end - 1].tile is None {
            assert('a' <= x[x.len() - 1] <= 'z');
            assert(placed_letters(squares, x, end) == py.push(x.last()));
            assert forall|j: int| 0 <= j < py.len() + 1 implies 'a' <= #[trigger] py.push(x.last())[j]
                <= 'z' by {
                if j < py.len() {
                    assert(py.push(x.last())[j] == py[j]);
                }
            }
        } else {
            assert(placed_letters(squares, x, end) == py);
        }
    }
}

/// Laid over tiles only, a word is the tiles.
pub proof fn lemma_laid_tiles_unique(squares: Seq<CheckedAisleSquare>, a: Seq<char>, b: Seq<char>, end: int)
    requires
        laid(squares, a, end),
        laid(squares, b, end),
        a.len() == b.len(),
        forall|i: int| 0 <= i < a.len() ==> (#[trigger] squares[end - a.len() + i]).tile is Some,
    ensures
        a == b,
{
    assert forall|i: int| 0 <= i < a.len() implies a[i] == b[i] by {
        assert(squares[end - a.len() + i].tile is Some);
        assert(squares[end - b.len() + i] == squares[end - a.len() + i]);
    }
    assert(a =~= b);
}

/// Before the first anchor that a play covers, its squares hold tiles or lie empty, not both:
/// an empty square that is no anchor has no tile beside it.
pub proof fn lemma_left_region(squares: Seq<CheckedAisleSquare>, s: int, anchor: int)
    requires
        aisle_wf(squares),
        0 <= s <= anchor < 15,
        no_anchor_between(squares, s, anchor),
    ensures
        (forall|k: int| s <= k < anchor ==> (#[trigger] squares[k]).tile is Some) || (forall|k: int|
            s <= k < anchor ==> (#[trigger] squares[k]).tile is None && !squares[k].is_anchor),
    decreases anchor - s,
{
    if s < anchor {
        lemma_left_region(squares, s + 1, anchor);
        if squares[s].tile is Some {
            if exists|k: int| s + 1 <= k < anchor && (#[trigger] squares[k]).tile is None {
                // Then all of them are empty, the square after `s` included, which cannot
                // be beside a tile without being an anchor.
                assert(squares[s + 1].tile is None || s + 1 == anchor);
                if s + 1 < anchor {
                    assert(!squares[s + 1].is_anchor);
                    assert(clear_at(squares, s));
                }
            }
        } else {
            assert(!squares[s].is_anchor);
            assert(clear_at(squares, s + 1));
            if s + 1 < anchor {
                assert(squares[s + 1].tile is None);
            }
        }
    }
}

/// The placed letters of `v` are those of its first square, then those of the rest.
pub proof fn lemma_placed_first(squares: Seq<CheckedAisleSquare>, v: Seq<char>, end: int)
    requires
        v.len() > 0,
    ensures
        placed_letters(squares, v, end) == (if squares[end - v.len()].tile is None {
            seq![v[0]]
        } else {
            Seq::<char>::empty()
        }) + placed_letters(squares, v.drop_first(), end),
    decreases v.len(),
{
    let head = if squares[end - v.len()].tile is None {
        seq![v[0]]
    } else {
        Seq::<char>::empty()
    };
    if v.len() == 1 {
        assert(v.drop_first() =~= Seq::<char>::empty());
        assert(v.drop_last() =~= Seq::<char>::empty());
        assert(placed_letters(squares, v.drop_last(), end - 1) == Seq::<char>::empty());
        assert(placed_letters(squares, v.drop_first(), end) == Seq::<char>::empty());
        assert(seq![v[0]] =~= Seq::<char>::empty().push(v.last()));
        assert(head + Seq::<char>::empty() =~= head);
    } else {
        lemma_placed_first(squares, v.drop_last(), end - 1);
        let vd = v.drop_first();
        assert(v.drop_last().drop_first() =~= vd.drop_last());
        assert(vd.last() == v.last());
        assert(v.drop_last()[0] == v[0]);
        let p = placed_letters(squares, vd.drop_last(), end - 1);
        assert(placed_letters(squares, v.drop_last(), end - 1) == head + p);
        if squares[end - 1].tile is None {
            assert(placed_letters(squares, vd, end) == p.push(vd.last()));
            assert(placed_letters(squares, v, end) == (head + p).push(v.last()));
            assert((head + p).push(v.last()) =~= head + p.push(v.last()));
        } else {
            assert(placed_letters(squares, vd, end) == p);
            assert(placed_letters(squares, v, end) == head + p);
        }
    }
}

/// A laid word is laid without its first letter, ending at the same square.
pub proof fn lemma_laid_rest(squares: Seq<CheckedAisleSquare>, w: Seq<char>, v: Seq<char>, end: int)
    requires
        laid(squares, w + v, end),
        v.len() > 0,
    ensures
        laid(squares, w.push(v[0]) + v.drop_first(), end),
        laid(squares, w, end - v.len()),
{
    assert(w.push(v[0]) + v.drop_first() =~= w + v);
    let u = w + v;
    assert forall|i: int| 0 <= i < w.len() implies match (#[trigger] squares[end - v.len() - w.len() + i]).tile {
        Some(c) => w[i] == c,
        None => 'a' <= w[i] <= 'z' && squares[end - v.len() - w.len() + i].spec_is_compatible(w[i]),
    } by {
        assert(squares[end - u.len() + i] == squares[end - v.len() - w.len() + i]);
        assert(u[i] == w[i]);
    }
}

/// A non-empty beginning `u` of a word walks from the root, and on to a target when more
/// letters follow.
pub proof fn lemma_word_prefix_walks(edges: Seq<DawgEdge>, u: Seq<char>, x: Seq<char>)
    requires
        is_word(edges, u + x),
        u.len() > 0,
    ensures
        walk(edges, 0, u) is Some,
        x.len() > 0 ==> edges[walk(edges, 0, u)->0].target.0 != NULL_DAWG_NODE_INDEX,
{
    if x.len() == 0 {
        assert(u + x =~= u);
    } else {
        lemma_walk_concat(edges, 0, u, x);
    }
}

/// The plays that `new` holds after the first `old.len()`, which it keeps.
pub open spec fn added(old: Seq<ScoredScrabblePlay>, new: Seq<ScoredScrabblePlay>) -> Seq<
    ScoredScrabblePlay,
> {
    new.subrange(old.len() as int, new.len() as int)
}

/// `p` and `q` place the same word from the same square along the same axis.
pub open spec fn same_placement(p: ScoredScrabblePlay, q: ScoredScrabblePlay) -> bool {
    &&& p.play.start == q.play.start
    &&& p.play.direction == q.play.direction
    &&& p.play.word@ == q.play.word@
}

/// No two plays of `plays` place the same word from the same square along the same axis.
pub open spec fn distinct_plays(plays: Seq<ScoredScrabblePlay>) -> bool {
    forall|i: int, j: int|
        0 <= i < j < plays.len() ==> !same_placement(#[trigger] plays[i], #[trigger] plays[j])
}

/// `new` keeps the plays of `old` and adds distinct plays whose words begin with `w` and
/// are at least `extra` letters longer, starting at index `lo` to `hi` along `direction`.
pub open spec fn extends_plays(
    old: Seq<ScoredScrabblePlay>,
    new: Seq<ScoredScrabblePlay>,
    direction: Direction,
    w: Seq<char>,
    extra: int,
    lo: int,
    hi: int,
) -> bool {
    &&& old.len() <= new.len()
    &&& new.subrange(0, old.len() as int) == old
    &&& distinct_plays(added(old, new))
    &&& forall|k: int|
        0 <= k < added(old, new).len() ==> {
            let q = #[trigger] added(old, new)[k];
            &&& w.len() + extra <= q.play.word@.len()
            &&& q.play.word@.subrange(0, w.len() as int) == w
            &&& lo <= q.play.start.spec_cross(direction) <= hi
        }
}

/// Plays added in two steps are the plays of the first step, then those of the second.
pub proof fn lemma_added_concat(
    a: Seq<ScoredScrabblePlay>,
    b: Seq<ScoredScrabblePlay>,
    c: Seq<ScoredScrabblePlay>,
)
    requires
        a.len() <= b.len() <= c.len(),
        b.subrange(0, a.len() as int) == a,
        c.subrange(0, b.len() as int) == b,
    ensures
        c.subrange(0, a.len() as int) == a,
        added(a, c) == added(a, b) + added(b, c),
{
    assert(c.subrange(0, a.len() as int) =~= c.subrange(0, b.len() as int).subrange(0, a.len() as int));
    assert(added(a, c) =~= added(a, b) + added(b, c));
}

/// Two lists of distinct plays, no play of one placing the word of the other from the same
/// square, make one list of distinct plays.
pub proof fn lemma_distinct_concat(x: Seq<ScoredScrabblePlay>, y: Seq<ScoredScrabblePlay>)
    requires
        distinct_plays(x),
        distinct_plays(y),
        forall|i: int, j: int|
            0 <= i < x.len() && 0 <= j < y.len() ==> !same_placement(#[trigger] x[i], #[trigger] y[j]),
    ensures
        distinct_plays(x + y),
{
    let z = x + y;
    assert forall|i: int, j: int| 0 <= i < j < z.len() implies !same_placement(
        #[trigger] z[i],
        #[trigger] z[j],
    ) by {
        if j < x.len() {
            assert(z[i] == x[i] && z[j] == x[j]);
        } else if i >= x.len() {
            assert(z[i] == y[i - x.len()] && z[j] == y[j - x.len()]);
        } else {
            assert(z[i] == x[i] && z[j] == y[j - x.len()]);
        }
    }
}

/// Plays whose words begin with `w` and one more letter begin with `w`, one letter longer.
pub proof fn lemma_extends_shorter(
    old: Seq<ScoredScrabblePlay>,
    new: Seq<ScoredScrabblePlay>,
    direction: Direction,
    w: Seq<char>,
    c: char,
    extra: int,
    lo: int,
    hi: int,
)
    requires
        extends_plays(old, new, direction, w.push(c), extra, lo, hi),
        extra >= 0,
    ensures
        extends_plays(old, new, direction, w, extra + 1, lo, hi),
{
    let a = added(old, new);
    assert forall|k: int| 0 <= k < a.len() implies {
        let q = #[trigger] a[k];
        &&& w.len() + (extra + 1) <= q.play.word@.len()
        &&& q.play.word@.subrange(0, w.len() as int) == w
        &&& lo <= q.play.start.spec_cross(direction) <= hi
    } by {
        let v = a[k].play.word@;
        assert(v.subrange(0, (w.len() + 1) as int).subrange(0, w.len() as int) =~= v.subrange(0, w.len() as int));
        assert(w.push(c).subrange(0, w.len() as int) =~= w);
    }
}

/// Nothing added.
pub proof fn lemma_extends_none(
    plays: Seq<ScoredScrabblePlay>,
    direction: Direction,
    w: Seq<char>,
    extra: int,
    lo: int,
    hi: int,
)
    ensures
        extends_plays(plays, plays, direction, w, extra, lo, hi),
{
    assert(plays.subrange(0, plays.len() as int) =~= plays);
    assert(added(plays, plays) =~= Seq::<ScoredScrabblePlay>::empty());
}

/// The scan of `node` for `c` finds an edge before index `bound`.
pub open spec fn found_before(edges: Seq<DawgEdge>, node: int, c: char, bound: int) -> bool {
    leaving_from(edges, node, c) matches Some(e) && e < bound
}

/// Words that differ at one index differ.
pub proof fn lemma_words_differ(u: Seq<char>, v: Seq<char>, i: int)
    requires
        0 <= i < u.len(),
        0 <= i < v.len(),
        u[i] != v[i],
    ensures
        u != v,
{
}

/// Square `k` is off the board or empty.
pub open spec fn clear_at(squares: Seq<CheckedAisleSquare>, k: int) -> bool {
    k < 0 || k >= 15 || squares[k].tile is None
}

/// Aisle squares as a checked board gives them: an anchor is empty, and an empty square
/// that is no anchor has no cross-checks and no tile beside it.
pub open spec fn aisle_wf(squares: Seq<CheckedAisleSquare>) -> bool {
    &&& squares.len() == 15
    &&& forall|k: int| 0 <= k < 15 && (#[trigger] squares[k]).is_anchor ==> squares[k].tile is None
    &&& forall|k: int|
        0 <= k < 15 && (#[trigger] squares[k]).tile is None && !squares[k].is_anchor
            ==> squares[k].cross_checks is None && clear_at(squares, k - 1) && clear_at(
            squares,
            k + 1,
        )
}

/// `p` places `w = p.play.word` on aisle `aisle` of `direction` from index `s`, covering
/// the anchor: `w` is a word, it agrees with the tiles and cross-checks of its squares, it
/// is bounded by empty squares or the edges, its score is that of the placement, and the
/// letters it places can be drawn from the rack; no anchor lies before this one under it.
#[verifier::opaque]
pub open spec fn sound_play(
    p: ScoredScrabblePlay,
    edges: Seq<DawgEdge>,
    squares: Seq<CheckedAisleSquare>,
    direction: Direction,
    aisle: usize,
    anchor: int,
    rack: Seq<usize>,
) -> bool {
    let s = p.play.start.spec_cross(direction) as int;
    let w = p.play.word@;
    &&& p.play.direction == direction
    &&& p.play.start == aisle_cross(direction, aisle, s as usize)
    &&& s <= anchor < s + w.len() <= 15
    &&& is_word(edges, w)
    &&& laid(squares, w, s + w.len())
    &&& clear_at(squares, s - 1)
    &&& clear_at(squares, s + w.len())
    &&& p.score == play_score(squares, direction, aisle, s, w)
    &&& drawn_from(placed_letters(squares, w, s + w.len()), rack)
    &&& no_anchor_between(squares, s, anchor)
}

/// With distinct letters per block, the edge at position `j` of a block is the one that the
/// scan for its letter finds.
pub proof fn lemma_child_is_leaving(edges: Seq<DawgEdge>, n: int, j: int)
    requires
        letters_distinct(edges),
        0 <= j < block(edges, n).len(),
    ensures
        0 <= n < edges.len(),
        block(edges, n)[j] == edges[n + j],
        leaving_from(edges, n, edges[n + j].letter) == Some(n + j),
{
    reveal(letters_distinct);
    lemma_block_end(edges, n);
    let c = edges[n + j].letter;
    lemma_leaving_in_block(edges, n, c);
    assert(edges[n + j].letter == c);
    let k = leaving_from(edges, n, c)->0;
    if k < n + j {
        assert(edges[k].letter != edges[n + j].letter);
    } else if k > n + j {
        assert(edges[n + j].letter != edges[k].letter);
    }
}

/// Taking a letter one step further from the node that `w` reaches.
pub proof fn lemma_reaches_step(edges: Seq<DawgEdge>, w: Seq<char>, node: u32, c: char)
    requires
        reaches(edges, w, node),
    ensures
        walk(edges, 0, w.push(c)) == leaving_from(edges, node as int, c),
{
    if w.len() == 0 {
        assert(w.push(c) =~= seq![c]);
    } else {
        assert(w.push(c) =~= w + seq![c]);
        lemma_walk_concat(edges, 0, w, seq![c]);
        assert(seq![c].drop_first() =~= Seq::<char>::empty());
    }
}

/// The scan for a letter only finds edges with that letter.
pub proof fn lemma_leaving_letter(edges: Seq<DawgEdge>, n: int, c: char)
    ensures
        leaving_from(edges, n, c) matches Some(k) ==> 0 <= k < edges.len() && edges[k].letter == c
            && n <= k,
    decreases edges.len() - n,
{
    if 0 <= n < edges.len() && edges[n].letter != c && !edges[n].node_terminator {
        lemma_leaving_letter(edges, n + 1, c);
    }
}

/// A laid word stays laid when a letter that fits the next square is appended.
pub proof fn lemma_laid_push(squares: Seq<CheckedAisleSquare>, w: Seq<char>, end: int, c: char)
    requires
        laid(squares, w, end),
        match squares[end].tile {
            Some(t) => c == t,
            None => 'a' <= c <= 'z' && squares[end].spec_is_compatible(c),
        },
    ensures
        laid(squares, w.push(c), end + 1),
{
    let v = w.push(c);
    assert forall|i: int| 0 <= i < v.len() implies match (#[trigger] squares[end + 1 - v.len() + i]).tile {
        Some(t) => v[i] == t,
        None => 'a' <= v[i] <= 'z' && squares[end + 1 - v.len() + i].spec_is_compatible(v[i]),
    } by {
        if i < w.len() {
            assert(squares[end - w.len() + i] == squares[end + 1 - v.len() + i]);
            assert(v[i] == w[i]);
        }
    }
}

/// Plays that place the same word from the same square are found from one anchor at most:
/// the first anchor that the word covers.
pub proof fn lemma_one_anchor_per_placement(
    p: ScoredScrabblePlay,
    q: ScoredScrabblePlay,
    edges: Seq<DawgEdge>,
    squares: Seq<CheckedAisleSquare>,
    direction: Direction,
    aisle: usize,
    rack: Seq<usize>,
    a1: int,
    a2: int,
)
    requires
        aisle_wf(squares),
        0 <= a1 < 15,
        0 <= a2 < 15,
        squares[a1].is_anchor,
        squares[a2].is_anchor,
        sound_play(p, edges, squares, direction, aisle, a1, rack),
        sound_play(q, edges, squares, direction, aisle, a2, rack),
        same_placement(p, q),
    ensures
        a1 == a2,
{
    reveal(sound_play);
    if a1 < a2 {
        assert(squares[a1].tile is Some || !squares[a1].is_anchor);
    } else if a2 < a1 {
        assert(squares[a2].tile is Some || !squares[a2].is_anchor);
    }
}

} // verus!
