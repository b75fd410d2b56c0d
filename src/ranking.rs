//! Ordering plays by score and keeping the best of them.
use crate::generation::ScoredScrabblePlay;
use vstd::prelude::*;

verus! {

/// Scores never increase along `s`.
pub open spec fn sorted_by_score(s: Seq<ScoredScrabblePlay>) -> bool {
    forall|i: int, j: int| 0 <= i < j < s.len() ==> (#[trigger] s[i]).score >= (#[trigger] s[j]).score
}

/// Play `i` of `picked` is play `order[i]` of `all`, no play of `all` is picked twice, and
/// plays of equal score are picked in the order that they have in `all`.
pub open spec fn stable_picks(
    picked: Seq<ScoredScrabblePlay>,
    all: Seq<ScoredScrabblePlay>,
    order: Seq<int>,
) -> bool {
    &&& order.len() == picked.len()
    &&& forall|i: int|
        0 <= i < picked.len() ==> 0 <= #[trigger] order[i] < all.len() && picked[i] == all[order[i]]
    &&& forall|i: int, j: int| 0 <= i < j < picked.len() ==> #[trigger] order[i] != #[trigger] order[j]
    &&& forall|i: int, j: int|
        0 <= i < j < picked.len() && (#[trigger] picked[i]).score == (#[trigger] picked[j]).score
            ==> order[i] < order[j]
}

/// The plays by descending score; plays of equal score keep their order.
pub fn sort_by_score(plays: Vec<ScoredScrabblePlay>) -> (r: Vec<ScoredScrabblePlay>)
    ensures
        r@.to_multiset() == plays@.to_multiset(),
        sorted_by_score(r@),
        r@.len() == plays@.len(),
        exists|order: Seq<int>| stable_picks(r@, plays@, order),
{
    broadcast use vstd::multiset::group_multiset_axioms, vstd::seq_lib::group_to_multiset_ensures;

    let ghost all = plays@;
    let mut rest = plays;
    proof {
        assert(Seq::<ScoredScrabblePlay>::empty().to_multiset().add(all.to_multiset()) =~= all.to_multiset());
    }
    let mut sorted: Vec<ScoredScrabblePlay> = Vec::new();
    let ghost mut order: Seq<int> = Seq::empty();
    proof {
        assert(rest@.subrange(0, all.len() as int) =~= rest@);
    }
    while rest.len() > 0
        invariant
            sorted@.to_multiset().add(rest@.to_multiset()) == all.to_multiset(),
            sorted_by_score(sorted@),
            sorted@.len() + rest@.len() == all.len(),
            rest@ == all.subrange(sorted@.len() as int, all.len() as int),
            stable_picks(sorted@, all, order),
            forall|i: int| 0 <= i < order.len() ==> #[trigger] order[i] < sorted@.len(),
        decreases rest@.len(),
    {
        let ghost taken = sorted@.len() as int;
        let ghost before = rest@;
        let play = rest.remove(0);
        let mut pos: usize = 0;
        while pos < sorted.len() && sorted[pos].score >= play.score
            invariant
                pos <= sorted@.len(),
                forall|i: int| 0 <= i < pos ==> (#[trigger] sorted@[i]).score >= play.score,
            decreases sorted@.len() - pos,
        {
            pos += 1;
        }
        let ghost prev = sorted@;
        let ghost prev_order = order;
        sorted.insert(pos, play);
        proof {
            order = prev_order.insert(pos as int, taken);
            assert(play == all[taken]);
            assert(rest@ =~= all.subrange(sorted@.len() as int, all.len() as int));
            assert forall|i: int|
                0 <= i < sorted@.len() implies 0 <= #[trigger] order[i] < all.len() && sorted@[i]
                == all[order[i]] by {
                if i < pos {
                    assert(sorted@[i] == prev[i] && order[i] == prev_order[i]);
                } else if i > pos {
                    assert(sorted@[i] == prev[i - 1] && order[i] == prev_order[i - 1]);
                }
            }
            assert forall|i: int| 0 <= i < order.len() implies #[trigger] order[i] < sorted@.len() by {
                if i < pos {
                    assert(order[i] == prev_order[i]);
                } else if i > pos {
                    assert(order[i] == prev_order[i - 1]);
                }
            }
            assert forall|i: int, j: int| 0 <= i < j < sorted@.len() implies #[trigger] order[i]
                != #[trigger] order[j] by {
                if i < pos && j > pos {
                    assert(order[i] == prev_order[i] && order[j] == prev_order[j - 1]);
                } else if i > pos {
                    assert(order[i] == prev_order[i - 1] && order[j] == prev_order[j - 1]);
                } else if j < pos {
                    assert(order[i] == prev_order[i] && order[j] == prev_order[j]);
                } else if i == pos {
                    assert(order[j] == prev_order[j - 1]);
                } else {
                    assert(order[i] == prev_order[i]);
                }
            }
            assert forall|i: int, j: int|
                0 <= i < j < sorted@.len() && (#[trigger] sorted@[i]).score == (
                #[trigger] sorted@[j]).score implies order[i] < order[j] by {
                if pos < prev.len() {
                    assert(prev[pos as int].score < play.score);
                }
                if i < pos && j > pos {
                    assert(order[i] == prev_order[i] && order[j] == prev_order[j - 1]);
                    assert(sorted@[i] == prev[i] && sorted@[j] == prev[j - 1]);
                } else if i > pos {
                    assert(order[i] == prev_order[i - 1] && order[j] == prev_order[j - 1]);
                    assert(sorted@[i] == prev[i - 1] && sorted@[j] == prev[j - 1]);
                } else if j < pos {
                    assert(order[i] == prev_order[i] && order[j] == prev_order[j]);
                    assert(sorted@[i] == prev[i] && sorted@[j] == prev[j]);
                } else if i == pos {
                    assert(sorted@[j] == prev[j - 1]);
                    assert(prev[pos as int].score >= prev[j - 1].score);
                } else {
                    assert(order[i] == prev_order[i]);
                }
            }
            vstd::seq_lib::to_multiset_remove(before, 0);
            vstd::seq_lib::to_multiset_insert(prev, pos as int, play);
            assert(before[0] == play);
            assert(before.contains(play));
            vstd::seq_lib::to_multiset_contains(before, play);
            assert(before.to_multiset().count(play) > 0);
            assert(rest@.to_multiset() == before.to_multiset().remove(play));
            assert(sorted@.to_multiset() == prev.to_multiset().insert(play));
            assert(sorted@.to_multiset().add(rest@.to_multiset()) =~= all.to_multiset());
            assert forall|i: int, j: int| 0 <= i < j < sorted@.len() implies (#[trigger] sorted@[i]).score
                >= (#[trigger] sorted@[j]).score by {
                if pos < prev.len() {
                    assert(prev[pos as int].score < play.score);
                }
                if i < pos && j > pos {
                    assert(sorted@[i] == prev[i]);
                    assert(sorted@[j] == prev[j - 1]);
                } else if i > pos {
                    assert(sorted@[i] == prev[i - 1]);
                    assert(sorted@[j] == prev[j - 1]);
                } else if j < pos {
                    assert(sorted@[i] == prev[i]);
                } else if i == pos {
                    assert(sorted@[j] == prev[j - 1]);
                    if pos < prev.len() {
                        assert(prev[pos as int].score >= prev[j - 1].score);
                    }
                }
            }
        }
    }
    proof {
        assert(stable_picks(sorted@, all, order));
        assert(rest@ =~= Seq::<ScoredScrabblePlay>::empty());
        assert(rest@.to_multiset() =~= vstd::multiset::Multiset::empty());
        assert(sorted@.to_multiset().add(vstd::multiset::Multiset::empty()) =~= sorted@.to_multiset());
    }
    sorted
}

/// `best` holds `k` plays of `all` (all of them when there are fewer), by descending score,
/// and no play of `all` that it leaves out scores more than one that it holds.
pub open spec fn best_of(best: Seq<ScoredScrabblePlay>, all: Seq<ScoredScrabblePlay>, k: int) -> bool {
    &&& best.len() == if k < all.len() {
        k
    } else {
        all.len() as int
    }
    &&& sorted_by_score(best)
    &&& forall|q: ScoredScrabblePlay| best.contains(q) ==> all.contains(q)
    &&& forall|q: ScoredScrabblePlay, i: int|
        #[trigger] all.contains(q) && !best.contains(q) && 0 <= i < best.len() ==> q.score
            <= (#[trigger] best[i]).score
}

/// The `k` best plays: the plays by descending score, ties in the order they came in, cut
/// after the first `k`.
pub fn top_plays(plays: Vec<ScoredScrabblePlay>, k: usize) -> (r: Vec<ScoredScrabblePlay>)
    ensures
        best_of(r@, plays@, k as int),
        exists|order: Seq<int>| stable_picks(r@, plays@, order),
{
    let ghost all = plays@;
    let mut sorted = sort_by_score(plays);
    let ghost full = sorted@;
    sorted.truncate(k);
    proof {
        let order = choose|order: Seq<int>| stable_picks(full, all, order);
        let m = sorted@.len() as int;
        assert(stable_picks(sorted@, all, order.subrange(0, m)));
        vstd::seq_lib::to_multiset_len(full);
        vstd::seq_lib::to_multiset_len(all);
        assert forall|q: ScoredScrabblePlay| full.contains(q) <==> all.contains(q) by {
            vstd::seq_lib::to_multiset_contains(full, q);
            vstd::seq_lib::to_multiset_contains(all, q);
        }
        assert forall|q: ScoredScrabblePlay| sorted@.contains(q) implies all.contains(q) by {
            let i = choose|i: int| 0 <= i < sorted@.len() && sorted@[i] == q;
            assert(full[i] == q);
        }
        assert forall|q: ScoredScrabblePlay, i: int|
            #[trigger] all.contains(q) && !sorted@.contains(q) && 0 <= i < sorted@.len() implies q.score
                <= (#[trigger] sorted@[i]).score by {
            assert(full.contains(q));
            let j = choose|j: int| 0 <= j < full.len() && full[j] == q;
            if j < sorted@.len() {
                assert(sorted@[j] == q);
            }
            assert(sorted@[i] == full[i]);
        }
    }
    sorted
}

} // verus!
