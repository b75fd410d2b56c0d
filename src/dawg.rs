//! The dictionary as a directed acyclic word graph packed into an edge array.
use crate::util::chars_of;
use vstd::prelude::*;

verus! {

/// The target index that marks an edge without a target node.
pub const NULL_DAWG_NODE_INDEX: u32 = 0xFFFF_FFFF;

/// A node is the index of the first edge of its edge block.
#[derive(Debug, Clone, Copy, PartialEq, Eq, Structural)]
pub struct DawgNodeIndex(pub u32);

impl DawgNodeIndex {
    pub fn is_null(&self) -> (r: bool)
        ensures
            r == (self.0 == NULL_DAWG_NODE_INDEX),
    {
        self.0 == NULL_DAWG_NODE_INDEX
    }

    pub fn is_some(&self) -> (r: bool)
        ensures
            r == (self.0 != NULL_DAWG_NODE_INDEX),
    {
        self.0 != NULL_DAWG_NODE_INDEX
    }
}

#[derive(Debug, Clone, Copy, PartialEq, Eq, Structural)]
pub struct DawgEdge {
    pub letter: char,
    /// The path from the root through this edge spells a complete word.
    pub word_terminator: bool,
    /// This is the last edge of its node's edge block.
    pub node_terminator: bool,
    pub target: DawgNodeIndex,
}

/// A synthetic edge whose target is the root, used to start a walk with no letters.
pub open spec fn spec_edge_to_root() -> DawgEdge {
    DawgEdge {
        letter: 'a',
        word_terminator: false,
        node_terminator: false,
        target: DawgNodeIndex(0),
    }
}

pub fn edge_to_root() -> (r: DawgEdge)
    ensures
        r == spec_edge_to_root(),
{
    DawgEdge { letter: 'a', word_terminator: false, node_terminator: false, target: DawgNodeIndex(0) }
}

/// The index of the edge with letter `ch` in the block scanned from `i`: the scan stops
/// after the first node terminator or at the end of the array.
pub open spec fn leaving_from(edges: Seq<DawgEdge>, i: int, ch: char) -> Option<int>
    decreases edges.len() - i,
{
    if i < 0 || i >= edges.len() {
        None
    } else if edges[i].letter == ch {
        Some(i)
    } else if edges[i].node_terminator {
        None
    } else {
        leaving_from(edges, i + 1, ch)
    }
}

/// The index of the edge reached by following `letters` from `node`; none when a letter
/// has no edge, when an edge without a target must be left, or when `letters` is empty.
pub open spec fn walk(edges: Seq<DawgEdge>, node: int, letters: Seq<char>) -> Option<int>
    decreases letters.len(),
{
    if letters.len() == 0 {
        None
    } else {
        match leaving_from(edges, node, letters[0]) {
            None => None,
            Some(e) => if letters.len() == 1 {
                Some(e)
            } else if edges[e].target.0 == NULL_DAWG_NODE_INDEX {
                None
            } else {
                walk(edges, edges[e].target.0 as int, letters.drop_first())
            },
        }
    }
}

/// The walk that continues from the edge with index `e` through `rest`.
pub open spec fn walk_after(edges: Seq<DawgEdge>, e: int, rest: Seq<char>) -> Option<int> {
    if rest.len() == 0 {
        Some(e)
    } else if edges[e].target.0 == NULL_DAWG_NODE_INDEX {
        None
    } else {
        walk(edges, edges[e].target.0 as int, rest)
    }
}

/// The edge reached by continuing from `prior` (which need not be stored) through `rest`.
pub open spec fn walk_from_edge(edges: Seq<DawgEdge>, prior: DawgEdge, rest: Seq<char>) -> Option<
    DawgEdge,
> {
    if rest.len() == 0 {
        Some(prior)
    } else if prior.target.0 == NULL_DAWG_NODE_INDEX {
        None
    } else {
        match walk(edges, prior.target.0 as int, rest) {
            Some(i) => Some(edges[i]),
            None => None,
        }
    }
}

/// `w` is a word of the dictionary: its walk from the root ends on a word terminator.
pub open spec fn is_word(edges: Seq<DawgEdge>, w: Seq<char>) -> bool {
    match walk(edges, 0, w) {
        Some(i) => edges[i].word_terminator,
        None => false,
    }
}

/// The index just past the edge block scanned from `i`.
pub open spec fn block_end(edges: Seq<DawgEdge>, i: int) -> int
    decreases edges.len() - i,
{
    if i < 0 || i >= edges.len() {
        i
    } else if edges[i].node_terminator {
        i + 1
    } else {
        block_end(edges, i + 1)
    }
}

/// The edges of the node at `node`, in order.
pub open spec fn block(edges: Seq<DawgEdge>, node: int) -> Seq<DawgEdge> {
    if 0 <= node < edges.len() {
        edges.subrange(node, block_end(edges, node))
    } else {
        Seq::empty()
    }
}

/// No two edges of one block carry the same letter.
#[verifier::opaque]
pub open spec fn letters_distinct(edges: Seq<DawgEdge>) -> bool {
    forall|i: int, j: int|
        0 <= i < j < edges.len() && (forall|m: int| i <= m < j ==> !(#[trigger] edges[m]).node_terminator)
            ==> (#[trigger] edges[i]).letter != (#[trigger] edges[j]).letter
}

/// A block is non-empty, ends within the array, and only its last edge may be a node
/// terminator.
pub proof fn lemma_block_end(edges: Seq<DawgEdge>, n: int)
    requires
        0 <= n < edges.len(),
    ensures
        n < block_end(edges, n) <= edges.len(),
        forall|m: int| n <= m < block_end(edges, n) - 1 ==> !(#[trigger] edges[m]).node_terminator,
    decreases edges.len() - n,
{
    if !edges[n].node_terminator && n + 1 < edges.len() {
        lemma_block_end(edges, n + 1);
        assert(block_end(edges, n) == block_end(edges, n + 1));
    } else if !edges[n].node_terminator {
        assert(block_end(edges, n + 1) == n + 1);
        assert(block_end(edges, n) == n + 1);
    } else {
        assert(block_end(edges, n) == n + 1);
    }
}

/// The scan for a letter finds the first edge of the block with that letter.
pub proof fn lemma_leaving_in_block(edges: Seq<DawgEdge>, n: int, c: char)
    requires
        0 <= n < edges.len(),
    ensures
        leaving_from(edges, n, c) matches Some(k) ==> n <= k < block_end(edges, n)
            && edges[k].letter == c,
        (exists|k: int| n <= k < block_end(edges, n) && (#[trigger] edges[k]).letter == c)
            ==> leaving_from(edges, n, c) is Some,
    decreases edges.len() - n,
{
    lemma_block_end(edges, n);
    if edges[n].letter != c && !edges[n].node_terminator && n + 1 < edges.len() {
        lemma_leaving_in_block(edges, n + 1, c);
        assert(block_end(edges, n) == block_end(edges, n + 1));
        if exists|k: int| n <= k < block_end(edges, n) && (#[trigger] edges[k]).letter == c {
            let k = choose|k: int| n <= k < block_end(edges, n) && (#[trigger] edges[k]).letter == c;
            assert(n + 1 <= k);
        }
    } else if edges[n].letter != c && !edges[n].node_terminator {
        assert(block_end(edges, n + 1) == n + 1);
    }
}

/// Walking a concatenation is walking its first part, then continuing with the rest.
pub proof fn lemma_walk_concat(edges: Seq<DawgEdge>, n: int, s: Seq<char>, t: Seq<char>)
    requires
        s.len() > 0,
    ensures
        walk(edges, n, s + t) == match walk(edges, n, s) {
            Some(e) => walk_after(edges, e, t),
            None => None,
        },
    decreases s.len(),
{
    assert((s + t)[0] == s[0]);
    if s.len() > 1 {
        match leaving_from(edges, n, s[0]) {
            Some(e) => {
                if edges[e].target.0 != NULL_DAWG_NODE_INDEX {
                    assert((s + t).drop_first() =~= s.drop_first() + t);
                    lemma_walk_concat(edges, edges[e].target.0 as int, s.drop_first(), t);
                }
            },
            None => {},
        }
    } else {
        assert((s + t).drop_first() =~= t);
    }
}

/// With distinct letters per block, some edge of the block at `n` with letter `c` continues
/// through `f` to a word exactly when the walk of `c` followed by `f` from `n` ends on a
/// word terminator.
pub proof fn lemma_block_letter_walk(edges: Seq<DawgEdge>, n: int, c: char, f: Seq<char>)
    requires
        letters_distinct(edges),
    ensures
        (exists|j: int|
            0 <= j < block(edges, n).len() && (#[trigger] block(edges, n)[j]).letter == c
                && completes_edge(edges, block(edges, n)[j], f)) <==> (walk(edges, n, seq![c] + f)
            is Some && edges[walk(edges, n, seq![c] + f)->0].word_terminator),
{
    reveal(letters_distinct);
    let w = seq![c] + f;
    assert(w[0] == c);
    assert(w.drop_first() =~= f);
    if 0 <= n < edges.len() {
        lemma_block_end(edges, n);
        lemma_leaving_in_block(edges, n, c);
        let b = block(edges, n);
        if exists|j: int| 0 <= j < b.len() && (#[trigger] b[j]).letter == c && completes_edge(edges, b[j], f) {
            let j = choose|j: int| 0 <= j < b.len() && (#[trigger] b[j]).letter == c && completes_edge(edges, b[j], f);
            assert(b[j] == edges[n + j]);
            assert(edges[n + j].letter == c);
            let k = leaving_from(edges, n, c)->0;
            if k != n + j {
                if k < n + j {
                    assert(edges[k].letter != edges[n + j].letter);
                } else {
                    assert(edges[n + j].letter != edges[k].letter);
                }
            }
        }
        if walk(edges, n, w) is Some && edges[walk(edges, n, w)->0].word_terminator {
            let k = leaving_from(edges, n, c)->0;
            assert(b[k - n] == edges[k]);
        }
    }
}

/// Continuing from `edge` through `f` ends on a word terminator.
pub open spec fn completes_edge(edges: Seq<DawgEdge>, edge: DawgEdge, f: Seq<char>) -> bool {
    match walk_from_edge(edges, edge, f) {
        Some(x) => x.word_terminator,
        None => false,
    }
}

pub struct Dawg {
    pub edges: Vec<DawgEdge>,
}

impl Dawg {
    /// Every target is either absent or the index of an edge.
    pub open spec fn wf(&self) -> bool {
        forall|i: int|
            0 <= i < self.edges@.len() ==> (#[trigger] self.edges@[i]).target.0
                == NULL_DAWG_NODE_INDEX || (self.edges@[i].target.0 as int) < self.edges@.len()
    }

    pub fn root(&self) -> (r: DawgNodeIndex)
        ensures
            r.0 == 0,
    {
        DawgNodeIndex(0)
    }

    pub fn leaving_edge(&self, node: DawgNodeIndex, ch: char) -> (r: Option<&DawgEdge>)
        ensures
            r is Some == leaving_from(self.edges@, node.0 as int, ch) is Some,
            r is Some ==> *r->0 == self.edges@[leaving_from(self.edges@, node.0 as int, ch)->0],
    {
        let mut i: usize = node.0 as usize;
        while i < self.edges.len()
            invariant
                node.0 <= i,
                leaving_from(self.edges@, node.0 as int, ch) == leaving_from(
                    self.edges@,
                    i as int,
                    ch,
                ),
            decreases self.edges@.len() - i,
        {
            let edge = &self.edges[i];
            if edge.letter == ch {
                return Some(edge);
            }
            if edge.node_terminator {
                return None;
            }
            i += 1;
        }
        None
    }
    /// The index of the edge with letter `ch` in the block at `node`.
    pub fn leaving_index(&self, node: DawgNodeIndex, ch: char) -> (r: Option<usize>)
        ensures
            r matches Some(i) ==> leaving_from(self.edges@, node.0 as int, ch) == Some(i as int),
            r is None ==> leaving_from(self.edges@, node.0 as int, ch) is None,
    {
        let mut i: usize = node.0 as usize;
        while i < self.edges.len()
            invariant
                node.0 <= i,
                leaving_from(self.edges@, node.0 as int, ch) == leaving_from(
                    self.edges@,
                    i as int,
                    ch,
                ),
            decreases self.edges@.len() - i,
        {
            if self.edges[i].letter == ch {
                return Some(i);
            }
            if self.edges[i].node_terminator {
                return None;
            }
            i += 1;
        }
        None
    }

    /// Follows `letters` from `start` and returns the last edge taken.
    pub fn walk_letters<'a>(&'a self, start: DawgNodeIndex, letters: &[char]) -> (r: Option<
        &'a DawgEdge,
    >)
        ensures
            r is Some == walk(self.edges@, start.0 as int, letters@) is Some,
            r is Some ==> *r->0 == self.edges@[walk(self.edges@, start.0 as int, letters@)->0],
    {
        let mut node = start;
        let mut result: Option<&DawgEdge> = None;
        let ghost mut gi: int = 0;
        let mut i: usize = 0;
        while i < letters.len()
            invariant
                0 <= i <= letters@.len(),
                i == 0 ==> node == start && result is None,
                i > 0 ==> result is Some && *result->0 == self.edges@[gi] && node
                    == self.edges@[gi].target && walk(self.edges@, start.0 as int, letters@)
                    == walk_after(self.edges@, gi, letters@.skip(i as int)),
            decreases letters@.len() - i,
        {
            if i > 0 && node.is_null() {
                return None;
            }
            let ch = letters[i];
            proof {
                assert(letters@.skip(i as int)[0] == ch);
                assert(letters@.skip(i as int).drop_first() =~= letters@.skip(i + 1));
                if i == 0 {
                    assert(letters@.skip(0) =~= letters@);
                }
            }
            match self.leaving_edge(node, ch) {
                None => {
                    return None;
                },
                Some(edge) => {
                    proof {
                        gi = leaving_from(self.edges@, node.0 as int, ch)->0;
                    }
                    node = edge.target;
                    result = Some(edge);
                },
            }
            i += 1;
        }
        proof {
            if i > 0 {
                assert(letters@.skip(i as int).len() == 0);
            }
        }
        result
    }

    pub fn walk_from_node<'a>(&'a self, start: DawgNodeIndex, letters: &str) -> (r: Option<
        &'a DawgEdge,
    >)
        ensures
            r is Some == walk(self.edges@, start.0 as int, letters@) is Some,
            r is Some ==> *r->0 == self.edges@[walk(self.edges@, start.0 as int, letters@)->0],
    {
        let chars = chars_of(letters);
        self.walk_letters(start, chars.as_slice())
    }

    /// Continues from `prior_edge` through `letters`; with no letters the result is
    /// Continues from `prior` through `letters`; with no letters the result is `prior`.
    pub fn walk_after_letters<'a>(&'a self, prior: &'a DawgEdge, letters: &[char]) -> (r: Option<
        &'a DawgEdge,
    >)
        ensures
            r is Some == walk_from_edge(self.edges@, *prior, letters@) is Some,
            r is Some ==> *r->0 == walk_from_edge(self.edges@, *prior, letters@)->0,
    {
        if letters.len() == 0 {
            return Some(prior);
        }
        if prior.target.is_some() {
            self.walk_letters(prior.target, letters)
        } else {
            None
        }
    }

    /// `prior_edge` itself.
    pub fn walk_from_prior_edge<'a>(&'a self, prior_edge: &'a DawgEdge, letters: &str) -> (r:
        Option<&'a DawgEdge>)
        ensures
            r is Some == walk_from_edge(self.edges@, *prior_edge, letters@) is Some,
            r is Some ==> *r->0 == walk_from_edge(self.edges@, *prior_edge, letters@)->0,
    {
        let chars = chars_of(letters);
        self.walk_after_letters(prior_edge, chars.as_slice())
    }

    /// Whether `word` is a word of the dictionary, that is whether its walk from the root
    /// ends on an edge with the word terminator set.
    pub fn contains(&self, word: &str) -> (r: bool)
        ensures
            r == is_word(self.edges@, word@),
            r == (walk(self.edges@, 0, word@) is Some && self.edges@[walk(
                self.edges@,
                0,
                word@,
            )->0].word_terminator),
    {
        match self.walk_from_node(self.root(), word) {
            Some(edge) => edge.word_terminator,
            None => false,
        }
    }

    /// The edges of the block at `node`, in order.
    pub fn child_edges(&self, node: DawgNodeIndex) -> (r: Vec<DawgEdge>)
        ensures
            r@ == block(self.edges@, node.0 as int),
    {
        let mut r: Vec<DawgEdge> = Vec::new();
        let start: usize = node.0 as usize;
        if start >= self.edges.len() {
            return r;
        }
        let mut i: usize = start;
        loop
            invariant
                start == node.0,
                start <= i < self.edges@.len(),
                block_end(self.edges@, start as int) == block_end(self.edges@, i as int),
                r@ == self.edges@.subrange(start as int, i as int),
            decreases self.edges@.len() - i,
        {
            let edge = self.edges[i];
            r.push(edge);
            if edge.node_terminator || i >= self.edges.len() - 1 {
                proof {
                    if !edge.node_terminator {
                        assert(block_end(self.edges@, i + 1) == i + 1);
                    }
                    assert(block_end(self.edges@, i as int) == i + 1);
                    assert(r@ =~= self.edges@.subrange(start as int, i + 1));
                    assert(block_end(self.edges@, start as int) == i + 1);
                    assert(r@ == block(self.edges@, start as int));
                }
                return r;
            }
            proof {
                assert(r@ =~= self.edges@.subrange(start as int, i + 1));
            }
            i += 1;
        }
    }

    /// Calls `f` on each edge of the block at `node`, in order.
    pub fn apply_to_child_edges<F>(&self, node: DawgNodeIndex, mut f: F)
        where
            F: FnMut(&DawgEdge),
        requires
            forall|e: &DawgEdge| f.requires((e,)),
    {
        let children = self.child_edges(node);
        let mut i: usize = 0;
        while i < children.len()
            invariant
                forall|e: &DawgEdge| f.requires((e,)),
            decreases children@.len() - i,
        {
            f(&children[i]);
            i += 1;
        }
    }
}

} // verus!
