//! Per-square letter masks that fuse the board with the dictionary.
use crate::dawg::{
    block, completes_edge, edge_to_root, is_word, lemma_block_letter_walk, lemma_walk_concat,
    letters_distinct, walk, Dawg, DawgEdge, NULL_DAWG_NODE_INDEX,
};
use crate::scoring::{letter_value, points, lemma_points_bound};
use crate::util::{chars_of, string_from_chars};
use vstd::prelude::*;

verus! {

/// The bit of a letter in a mask.
pub open spec fn letter_bit(c: char) -> u32 {
    ((c as u32) - ('a' as u32)) as u32
}

/// `c` is a letter whose bit is set in `mask`.
pub open spec fn letter_allowed(mask: u32, c: char) -> bool {
    &&& 'a' <= c <= 'z'
    &&& (mask >> letter_bit(c)) & 1u32 == 1u32
}

/// The node whose edges may follow `preceding`: the root when it is empty, else the
/// target of its walk from the root.
pub open spec fn prior_node(edges: Seq<DawgEdge>, preceding: Seq<char>) -> Option<int> {
    if preceding.len() == 0 {
        Some(0)
    } else {
        match walk(edges, 0, preceding) {
            Some(e) => if edges[e].target.0 == NULL_DAWG_NODE_INDEX {
                None
            } else {
                Some(edges[e].target.0 as int)
            },
            None => None,
        }
    }
}

/// The letter `c` may stand between `preceding` and `following`: an edge with letter `c`
/// of the node after `preceding` continues through `following` to a word.
pub open spec fn cross_allowed(
    edges: Seq<DawgEdge>,
    preceding: Seq<char>,
    following: Seq<char>,
    c: char,
) -> bool {
    &&& 'a' <= c <= 'z'
    &&& prior_node(edges, preceding) is Some
    &&& exists|j: int|
        0 <= j < block(edges, prior_node(edges, preceding)->0).len() && (#[trigger] block(
            edges,
            prior_node(edges, preceding)->0,
        )[j]).letter == c && completes_edge(
            edges,
            block(edges, prior_node(edges, preceding)->0)[j],
            following,
        )
}

proof fn lemma_cross_allowed_at(
    edges: Seq<DawgEdge>,
    preceding: Seq<char>,
    following: Seq<char>,
    c: char,
    n: int,
)
    requires
        prior_node(edges, preceding) == Some(n),
        'a' <= c <= 'z',
    ensures
        cross_allowed(edges, preceding, following, c) <==> exists|j: int|
            0 <= j < block(edges, n).len() && (#[trigger] block(edges, n)[j]).letter == c
                && completes_edge(edges, block(edges, n)[j], following),
{
    if exists|j: int|
        0 <= j < block(edges, n).len() && (#[trigger] block(edges, n)[j]).letter == c
            && completes_edge(edges, block(edges, n)[j], following) {
        let j = choose|j: int|
            0 <= j < block(edges, n).len() && (#[trigger] block(edges, n)[j]).letter == c
                && completes_edge(edges, block(edges, n)[j], following);
        assert(block(edges, prior_node(edges, preceding)->0)[j] == block(edges, n)[j]);
    }
}

/// With distinct letters in each block, a letter may stand between `preceding` and
/// `following` exactly when the three together spell a word of the dictionary.
pub proof fn lemma_cross_allowed_is_word(
    edges: Seq<DawgEdge>,
    preceding: Seq<char>,
    following: Seq<char>,
    c: char,
)
    requires
        letters_distinct(edges),
        'a' <= c <= 'z',
    ensures
        cross_allowed(edges, preceding, following, c) <==> is_word(
            edges,
            preceding + seq![c] + following,
        ),
{
    let rest = seq![c] + following;
    if preceding.len() == 0 {
        assert(preceding + seq![c] + following =~= rest);
        lemma_block_letter_walk(edges, 0, c, following);
        lemma_cross_allowed_at(edges, preceding, following, c, 0);
    } else {
        assert(preceding + seq![c] + following =~= preceding + rest);
        lemma_walk_concat(edges, 0, preceding, rest);
        match walk(edges, 0, preceding) {
            Some(e) => {
                if edges[e].target.0 != NULL_DAWG_NODE_INDEX {
                    lemma_block_letter_walk(edges, edges[e].target.0 as int, c, following);
                    lemma_cross_allowed_at(
                        edges,
                        preceding,
                        following,
                        c,
                        edges[e].target.0 as int,
                    );
                }
            },
            None => {},
        }
    }
}

/// The letters of `mask` among the first `n` of the alphabet, in order.
pub open spec fn mask_letters(mask: u32, n: nat) -> Seq<char>
    decreases n,
{
    if n == 0 {
        Seq::empty()
    } else {
        let c = ((97 + n - 1) as u8) as char;
        if letter_allowed(mask, c) {
            mask_letters(mask, (n - 1) as nat).push(c)
        } else {
            mask_letters(mask, (n - 1) as nat)
        }
    }
}

proof fn lemma_set_bit(m: u32, o: u32, k: u32)
    requires
        o < 26,
        k < 32,
    ensures
        (((m | (1u32 << o)) >> k) & 1u32 == 1u32) == (((m >> k) & 1u32 == 1u32) || k == o),
{
    assert((((m | (1u32 << o)) >> k) & 1u32 == 1u32) == (((m >> k) & 1u32 == 1u32) || k == o))
        by (bit_vector)
        requires
            o < 26,
            k < 32,
    ;
}

#[derive(Debug, Clone, Copy)]
pub struct CrossChecks {
    /// A bitmask of the letters that are valid for the square, bit 0 for `a`.
    pub allowed: u32,
    /// The points of the neighbouring letters, for scoring the cross-word.
    pub cross_sum: u32,
}

impl CrossChecks {
    /// No letter allowed and no points.
    pub fn default() -> (r: CrossChecks)
        ensures
            r.allowed == 0,
            r.cross_sum == 0,
            forall|c: char| !letter_allowed(r.allowed, c),
    {
        let r = CrossChecks { allowed: 0, cross_sum: 0 };
        assert(forall|k: u32| (0u32 >> k) & 1u32 == 0u32) by (bit_vector);
        r
    }

    pub fn set_allowed(&mut self, ch: char)
        requires
            'a' <= ch <= 'z',
        ensures
            final(self).cross_sum == old(self).cross_sum,
            forall|c: char|
                letter_allowed(final(self).allowed, c) <==> (letter_allowed(old(self).allowed, c)
                    || c == ch),
    {
        let offset: u32 = (ch as u32) - ('a' as u32);
        let old_mask = self.allowed;
        self.allowed = self.allowed | (1u32 << offset);
        let new_mask = self.allowed;
        assert forall|c: char|
            letter_allowed(new_mask, c) <==> (letter_allowed(old_mask, c) || c == ch) by {
            if 'a' <= c <= 'z' {
                assert(letter_bit(c) < 32);
                let k = letter_bit(c);
                assert(new_mask == old_mask | (1u32 << offset));
                lemma_set_bit(old_mask, offset, k);
                if letter_bit(c) == offset {
                    assert(c as u32 == ch as u32);
                }
            }
        }
    }

    pub fn allows(&self, ch: char) -> (r: bool)
        ensures
            r == letter_allowed(self.allowed, ch),
    {
        if ch < 'a' || ch > 'z' {
            return false;
        }
        let offset: u32 = (ch as u32) - ('a' as u32);
        (self.allowed >> offset) & 1 == 1
    }

    /// The string held, or the empty string.
    pub fn unwrap_or_empty(string: Option<&String>) -> (r: &str)
        ensures
            r@ == match string {
                Some(s) => s@,
                None => Seq::<char>::empty(),
            },
    {
        if let Some(string) = string {
            string.as_str()
        } else {
            proof {
                reveal_strlit("");
            }
            ""
        }
    }

    /// The checks of an empty square with `preceding` letters before it and `following`
    /// letters after it on one axis.
    pub fn create(dawg: &Dawg, preceding: &str, following: &str) -> (r: CrossChecks)
        requires
            10 * (preceding@.len() + following@.len()) <= u32::MAX,
        ensures
            forall|c: char|
                letter_allowed(r.allowed, c) <==> cross_allowed(
                    dawg.edges@,
                    preceding@,
                    following@,
                    c,
                ),
            r.cross_sum == points(preceding@ + following@),
    {
        let pre = chars_of(preceding);
        let fol = chars_of(following);
        let mut checks = CrossChecks::default();
        let root_edge = edge_to_root();
        let maybe_prior: Option<DawgEdge> = if pre.len() == 0 {
            Some(root_edge)
        } else {
            match dawg.walk_letters(dawg.root(), pre.as_slice()) {
                Some(e) => Some(*e),
                None => None,
            }
        };
        if let Some(prior) = maybe_prior {
            if prior.target.is_some() {
                let node = prior.target;
                let children = dawg.child_edges(node);
                proof {
                    assert(prior_node(dawg.edges@, preceding@) == Some(node.0 as int));
                }
                let mut i: usize = 0;
                while i < children.len()
                    invariant
                        children@ == block(dawg.edges@, node.0 as int),
                        prior_node(dawg.edges@, preceding@) == Some(node.0 as int),
                        fol@ == following@,
                        0 <= i <= children@.len(),
                        forall|c: char|
                            letter_allowed(checks.allowed, c) <==> ('a' <= c <= 'z' && exists|
                                j: int,
                            |
                                0 <= j < i && (#[trigger] children@[j]).letter == c
                                    && completes_edge(dawg.edges@, children@[j], following@)),
                    decreases children@.len() - i,
                {
                    let edge = &children[i];
                    let done = match dawg.walk_after_letters(edge, fol.as_slice()) {
                        Some(final_edge) => final_edge.word_terminator,
                        None => false,
                    };
                    let ghost before = checks.allowed;
                    if done && 'a' <= edge.letter && edge.letter <= 'z' {
                        checks.set_allowed(edge.letter);
                    }
                    proof {
                        assert forall|c: char|
                            letter_allowed(checks.allowed, c) <==> ('a' <= c <= 'z' && exists|
                                j: int,
                            |
                                0 <= j < i + 1 && (#[trigger] children@[j]).letter == c
                                    && completes_edge(
                                    dawg.edges@,
                                    children@[j],
                                    following@,
                                )) by {
                            if 'a' <= c <= 'z' && letter_allowed(before, c) {
                                let j = choose|j: int|
                                    0 <= j < i && (#[trigger] children@[j]).letter == c
                                        && completes_edge(dawg.edges@, children@[j], following@);
                                assert(0 <= j < i + 1);
                            }
                            if 'a' <= c <= 'z' && c == edge.letter && done {
                                assert(children@[i as int].letter == c);
                            }
                            if exists|j: int|
                                0 <= j < i + 1 && (#[trigger] children@[j]).letter == c
                                    && completes_edge(dawg.edges@, children@[j], following@) {
                                let j = choose|j: int|
                                    0 <= j < i + 1 && (#[trigger] children@[j]).letter == c
                                        && completes_edge(dawg.edges@, children@[j], following@);
                                if j < i {
                                    assert(letter_allowed(before, c) || !('a' <= c <= 'z'));
                                }
                            }
                        }
                    }
                    i += 1;
                }
                proof {
                    assert forall|c: char|
                        letter_allowed(checks.allowed, c) <==> cross_allowed(
                            dawg.edges@,
                            preceding@,
                            following@,
                            c,
                        ) by {
                        if letter_allowed(checks.allowed, c) {
                            let j = choose|j: int|
                                0 <= j < i && (#[trigger] children@[j]).letter == c
                                    && completes_edge(dawg.edges@, children@[j], following@);
                            let n = prior_node(dawg.edges@, preceding@)->0;
                            assert(block(dawg.edges@, n)[j] == children@[j]);
                            assert(cross_allowed(dawg.edges@, preceding@, following@, c));
                        }
                        if cross_allowed(dawg.edges@, preceding@, following@, c) {
                            let j = choose|j: int|
                                0 <= j < block(dawg.edges@, node.0 as int).len() && (#[trigger] block(
                                    dawg.edges@,
                                    node.0 as int,
                                )[j]).letter == c && completes_edge(
                                    dawg.edges@,
                                    block(dawg.edges@, node.0 as int)[j],
                                    following@,
                                );
                            assert(children@[j].letter == c);
                        }
                    }
                }
            } else {
                proof {
                    assert(prior_node(dawg.edges@, preceding@) is None);
                }
            }
        } else {
            proof {
                assert(prior_node(dawg.edges@, preceding@) is None);
            }
        }
        checks.cross_sum = CrossChecks::cross_sum(&pre, &fol);
        checks
    }

    /// The points of the letters before and after a square.
    pub fn cross_sum(preceding: &Vec<char>, following: &Vec<char>) -> (r: u32)
        requires
            10 * (preceding@.len() + following@.len()) <= u32::MAX,
        ensures
            r == points(preceding@ + following@),
    {
        let all: Vec<char> = {
            let mut v = preceding.clone();
            let mut i: usize = 0;
            while i < following.len()
                invariant
                    0 <= i <= following@.len(),
                    v@ == preceding@ + following@.subrange(0, i as int),
                decreases following@.len() - i,
            {
                v.push(following[i]);
                i += 1;
            }
            assert(following@.subrange(0, i as int) =~= following@);
            v
        };
        let mut sum: u32 = 0;
        let mut i: usize = 0;
        while i < all.len()
            invariant
                all@ == preceding@ + following@,
                10 * all@.len() <= u32::MAX,
                0 <= i <= all@.len(),
                sum == points(all@.subrange(0, i as int)),
            decreases all@.len() - i,
        {
            proof {
                let s = all@.subrange(0, i + 1);
                assert(s.drop_last() =~= all@.subrange(0, i as int));
                lemma_points_bound(all@.subrange(0, i as int));
            }
            sum = sum + letter_value(all[i]);
            i += 1;
        }
        assert(all@.subrange(0, i as int) =~= all@);
        sum
    }

    /// The allowed letters in alphabetical order.
    pub fn letters(&self) -> (r: String)
        ensures
            r@ == mask_letters(self.allowed, 26),
    {
        let mut letters: Vec<char> = Vec::new();
        let mut n: u8 = 0;
        while n < 26
            invariant
                n <= 26,
                letters@ == mask_letters(self.allowed, n as nat),
            decreases 26 - n,
        {
            let c = (97u8 + n) as char;
            if self.allows(c) {
                letters.push(c);
            }
            n += 1;
        }
        string_from_chars(&letters)
    }
}

} // verus!
