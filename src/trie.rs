//! A prefix tree of words, each node holding its outgoing letters.
use crate::util::chars_of;
use vstd::prelude::*;

verus! {

#[derive(Debug)]
pub struct TrieNode {
    /// Each child: its letter and the index of its node.
    pub children: Vec<(char, usize)>,
    /// The path from the root to this node spells a word.
    pub terminal: bool,
}

impl TrieNode {
    fn new() -> (r: TrieNode)
        ensures
            r.children@.len() == 0,
            !r.terminal,
    {
        TrieNode { children: Vec::new(), terminal: false }
    }
}

/// The node that the first child with letter `c` leads to.
pub open spec fn find_child(children: Seq<(char, usize)>, c: char) -> Option<usize>
    decreases children.len(),
{
    if children.len() == 0 {
        None
    } else if children[0].0 == c {
        Some(children[0].1)
    } else {
        find_child(children.drop_first(), c)
    }
}

/// The node reached from node `n` by following `w`.
pub open spec fn trie_walk(nodes: Seq<TrieNode>, n: int, w: Seq<char>) -> Option<int>
    decreases w.len(),
{
    if w.len() == 0 {
        Some(n)
    } else if 0 <= n < nodes.len() {
        match find_child(nodes[n].children@, w[0]) {
            Some(m) => trie_walk(nodes, m as int, w.drop_first()),
            None => None,
        }
    } else {
        None
    }
}

/// `w` leads from the root to a terminal node.
pub open spec fn trie_has(nodes: Seq<TrieNode>, w: Seq<char>) -> bool {
    trie_walk(nodes, 0, w) matches Some(m) && 0 <= m < nodes.len() && nodes[m].terminal
}

/// The node of the first child with letter `c`.
fn find_child_index(children: &Vec<(char, usize)>, c: char) -> (r: Option<usize>)
    ensures
        r == find_child(children@, c),
{
    let mut k: usize = 0;
    proof {
        assert(children@.skip(0) =~= children@);
    }
    while k < children.len()
        invariant
            0 <= k <= children@.len(),
            find_child(children@, c) == find_child(children@.skip(k as int), c),
        decreases children@.len() - k,
    {
        proof {
            assert(children@.skip(k as int)[0] == children@[k as int]);
            assert(children@.skip(k as int).drop_first() =~= children@.skip(k + 1));
        }
        if children[k].0 == c {
            return Some(children[k].1);
        }
        k += 1;
    }
    proof {
        assert(children@.skip(k as int) =~= Seq::<(char, usize)>::empty());
    }
    None
}

proof fn lemma_find_child_in(children: Seq<(char, usize)>, c: char)
    ensures
        find_child(children, c) matches Some(m) ==> exists|k: int|
            0 <= k < children.len() && #[trigger] children[k] == (c, m),
    decreases children.len(),
{
    if children.len() > 0 && children[0].0 != c {
        lemma_find_child_in(children.drop_first(), c);
        if find_child(children, c) is Some {
            let m = find_child(children, c)->0;
            let k = choose|k: int|
                0 <= k < children.drop_first().len() && #[trigger] children.drop_first()[k] == (c, m);
            assert(children[k + 1] == (c, m));
        }
    }
}

proof fn lemma_find_child_push(children: Seq<(char, usize)>, c: char, m: usize, d: char)
    requires
        find_child(children, c) is None,
    ensures
        find_child(children.push((c, m)), d) == if d == c {
            Some(m)
        } else {
            find_child(children, d)
        },
    decreases children.len(),
{
    if children.len() == 0 {
        assert(children.push((c, m)).drop_first() =~= Seq::<(char, usize)>::empty());
    } else {
        assert(children.push((c, m)).drop_first() =~= children.drop_first().push((c, m)));
        if children[0].0 != d && children[0].0 != c {
            lemma_find_child_push(children.drop_first(), c, m, d);
        } else if children[0].0 != c {
            lemma_find_child_push(children.drop_first(), c, m, d);
        }
    }
}

/// The labels of the nodes: the word that leads from the root to each of them.
pub open spec fn labels_ok(nodes: Seq<TrieNode>, labels: Seq<Seq<char>>) -> bool {
    &&& nodes.len() == labels.len()
    &&& nodes.len() >= 1
    &&& labels[0] == Seq::<char>::empty()
    &&& forall|n: int, k: int|
        0 <= n < nodes.len() && 0 <= k < nodes[n].children@.len() ==> {
            let (c, m) = #[trigger] nodes[n].children@[k];
            &&& (m as int) < nodes.len()
            &&& labels[m as int] == labels[n].push(c)
        }
    &&& forall|n: int| 0 <= n < nodes.len() ==> trie_walk(nodes, 0, #[trigger] labels[n]) == Some(n)
}

proof fn lemma_walk_label(nodes: Seq<TrieNode>, labels: Seq<Seq<char>>, j: int, v: Seq<char>)
    requires
        labels_ok(nodes, labels),
        0 <= j < nodes.len(),
    ensures
        trie_walk(nodes, j, v) matches Some(m) ==> 0 <= m < nodes.len() && labels[m] == labels[j]
            + v,
    decreases v.len(),
{
    if v.len() == 0 {
        assert(labels[j] + v =~= labels[j]);
    } else {
        lemma_find_child_in(nodes[j].children@, v[0]);
        if let Some(m) = find_child(nodes[j].children@, v[0]) {
            let k = choose|k: int|
                0 <= k < nodes[j].children@.len() && #[trigger] nodes[j].children@[k] == (v[0], m);
            assert(nodes[j].children@[k] == (v[0], m));
            lemma_walk_label(nodes, labels, m as int, v.drop_first());
            assert(labels[j].push(v[0]) + v.drop_first() =~= labels[j] + v);
        }
    }
}

proof fn lemma_walk_push(nodes: Seq<TrieNode>, n: int, v: Seq<char>, c: char)
    ensures
        trie_walk(nodes, n, v.push(c)) == match trie_walk(nodes, n, v) {
            Some(j) => trie_walk(nodes, j, seq![c]),
            None => None,
        },
    decreases v.len(),
{
    if v.len() > 0 {
        assert(v.push(c).drop_first() =~= v.drop_first().push(c));
        assert(v.push(c)[0] == v[0]);
        if 0 <= n < nodes.len() {
            if let Some(m) = find_child(nodes[n].children@, v[0]) {
                lemma_walk_push(nodes, m as int, v.drop_first(), c);
            }
        }
    } else {
        assert(v.push(c) =~= seq![c]);
    }
}

/// Adding a child with a new letter to node `j`, and its node at the end, keeps every walk.
proof fn lemma_walk_after_new_child(
    nodes: Seq<TrieNode>,
    grown: Seq<TrieNode>,
    j: int,
    c: char,
    n: int,
    v: Seq<char>,
)
    requires
        0 <= j < nodes.len(),
        grown.len() == nodes.len() + 1,
        find_child(nodes[j].children@, c) is None,
        grown[j].children@ == nodes[j].children@.push((c, nodes.len() as usize)),
        forall|i: int| 0 <= i < nodes.len() && i != j ==> (#[trigger] grown[i]).children@ == nodes[i].children@,
    ensures
        trie_walk(nodes, n, v) is Some ==> trie_walk(grown, n, v) == trie_walk(nodes, n, v),
    decreases v.len(),
{
    if v.len() > 0 && 0 <= n < nodes.len() {
        if n == j {
            lemma_find_child_push(nodes[j].children@, c, nodes.len() as usize, v[0]);
        }
        if let Some(m) = find_child(nodes[n].children@, v[0]) {
            lemma_walk_after_new_child(nodes, grown, j, c, m as int, v.drop_first());
        }
    }
}

/// Walks only read the children.
proof fn lemma_walk_same_children(nodes: Seq<TrieNode>, other: Seq<TrieNode>, n: int, v: Seq<char>)
    requires
        nodes.len() == other.len(),
        forall|i: int| 0 <= i < nodes.len() ==> (#[trigger] other[i]).children@ == nodes[i].children@,
    ensures
        trie_walk(other, n, v) == trie_walk(nodes, n, v),
    decreases v.len(),
{
    if v.len() > 0 && 0 <= n < nodes.len() {
        assert(other[n].children@ == nodes[n].children@);
        if let Some(m) = find_child(nodes[n].children@, v[0]) {
            lemma_walk_same_children(nodes, other, m as int, v.drop_first());
        }
    }
}

#[derive(Debug)]
pub struct Trie {
    pub nodes: Vec<TrieNode>,
}

impl Trie {
    /// The trie of `words`.
    pub fn new(words: Vec<&str>) -> (r: Trie)
        ensures
            r.nodes@.len() >= 1,
            forall|w: Seq<char>|
                trie_has(r.nodes@, w) <==> exists|i: int|
                    0 <= i < words@.len() && (#[trigger] words@[i])@ == w,
    {
        let mut nodes: Vec<TrieNode> = Vec::new();
        nodes.push(TrieNode::new());
        let ghost mut labels: Seq<Seq<char>> = seq![Seq::<char>::empty()];
        proof {
            assert(trie_walk(nodes@, 0, Seq::<char>::empty()) == Some(0int));
        }
        let mut i: usize = 0;
        while i < words.len()
            invariant
                0 <= i <= words@.len(),
                labels_ok(nodes@, labels),
                forall|n: int|
                    0 <= n < nodes@.len() ==> ((#[trigger] nodes@[n]).terminal <==> exists|k: int|
                        0 <= k < i && (#[trigger] words@[k])@ == labels[n]),
                forall|k: int|
                    0 <= k < i ==> exists|n: int|
                        0 <= n < nodes@.len() && labels[n] == (#[trigger] words@[k])@,
            decreases words@.len() - i,
        {
            let word = chars_of(words[i]);
            let mut node: usize = 0;
            let mut j: usize = 0;
            while j < word.len()
                invariant
                    0 <= i < words@.len(),
                    word@ == words@[i as int]@,
                    0 <= j <= word@.len(),
                    labels_ok(nodes@, labels),
                    node < nodes@.len(),
                    labels[node as int] == word@.subrange(0, j as int),
                    forall|n: int|
                        0 <= n < nodes@.len() ==> ((#[trigger] nodes@[n]).terminal <==> exists|k: int|
                            0 <= k < i && (#[trigger] words@[k])@ == labels[n]),
                    forall|k: int|
                        0 <= k < i ==> exists|n: int|
                            0 <= n < nodes@.len() && labels[n] == (#[trigger] words@[k])@,
                decreases word@.len() - j,
            {
                let c = word[j];
                let ghost children = nodes@[node as int].children@;
                let found = find_child_index(&nodes[node].children, c);
                let ghost prefix = word@.subrange(0, j as int);
                let ghost next_label = word@.subrange(0, j + 1);
                proof {
                    assert(prefix.push(c) =~= next_label);
                    lemma_walk_push(nodes@, 0, prefix, c);
                    assert(seq![c][0] == c);
                    assert(seq![c].drop_first() =~= Seq::<char>::empty());
                    assert(trie_walk(nodes@, node as int, seq![c]) == match find_child(children, c) {
                        Some(m) => trie_walk(nodes@, m as int, Seq::<char>::empty()),
                        None => None,
                    });
                }
                match found {
                    Some(child) => {
                        proof {
                            lemma_find_child_in(children, c);
                            let kk = choose|kk: int|
                                0 <= kk < children.len() && #[trigger] children[kk] == (c, child);
                            assert(nodes@[node as int].children@[kk] == (c, child));
                        }
                        node = child;
                    },
                    None => {
                        let ghost old_nodes = nodes@;
                        let ghost old_labels = labels;
                        let fresh = nodes.len();
                        nodes.push(TrieNode::new());
                        nodes[node].children.push((c, fresh));
                        proof {
                            labels = labels.push(next_label);
                            assert(nodes@.len() == old_nodes.len() + 1);
                            assert(nodes@[node as int].children@ == children.push((c, fresh)));
                            assert(forall|x: int|
                                0 <= x < old_nodes.len() && x != node ==> (#[trigger] nodes@[x]).children@
                                    == old_nodes[x].children@);
                            assert(find_child(children, c) is None);
                            assert forall|n: int| 0 <= n < nodes@.len() implies trie_walk(
                                nodes@,
                                0,
                                #[trigger] labels[n],
                            ) == Some(n) by {
                                if n < old_nodes.len() {
                                    assert(trie_walk(old_nodes, 0, old_labels[n]) == Some(n));
                                    lemma_walk_after_new_child(
                                        old_nodes,
                                        nodes@,
                                        node as int,
                                        c,
                                        0,
                                        old_labels[n],
                                    );
                                } else {
                                    assert(n == fresh);
                                    assert(labels[n] == prefix.push(c));
                                    assert(trie_walk(old_nodes, 0, prefix) == Some(node as int));
                                    lemma_walk_after_new_child(old_nodes, nodes@, node as int, c, 0, prefix);
                                    assert(trie_walk(nodes@, 0, prefix) == Some(node as int));
                                    lemma_walk_push(nodes@, 0, prefix, c);
                                    lemma_find_child_push(children, c, fresh, c);
                                    assert(seq![c][0] == c);
                                    assert(seq![c].drop_first() =~= Seq::<char>::empty());
                                    assert(find_child(nodes@[node as int].children@, c) == Some(fresh));
                                    assert(trie_walk(nodes@, fresh as int, Seq::<char>::empty()) == Some(fresh as int));
                                    assert(trie_walk(nodes@, fresh as int, seq![c].drop_first()) == Some(fresh as int));
                                    assert(trie_walk(nodes@, node as int, seq![c]) == Some(fresh as int));
                                }
                            }
                            assert forall|n: int, kk: int|
                                0 <= n < nodes@.len() && 0 <= kk < nodes@[n].children@.len() implies {
                                let (ch, m) = #[trigger] nodes@[n].children@[kk];
                                &&& (m as int) < nodes@.len()
                                &&& labels[m as int] == labels[n].push(ch)
                            } by {
                                if n < old_nodes.len() && !(n == node && kk == children.len()) {
                                    assert(nodes@[n].children@[kk] == old_nodes[n].children@[kk]);
                                }
                            }
                            // The new label is no word yet: no node carried it before.
                            assert forall|n: int|
                                0 <= n < nodes@.len() implies ((#[trigger] nodes@[n]).terminal <==> exists|k: int|
                                    0 <= k < i && (#[trigger] words@[k])@ == labels[n]) by {
                                if n == fresh {
                                    if exists|k: int| 0 <= k < i && (#[trigger] words@[k])@ == labels[n] {
                                        let k = choose|k: int| 0 <= k < i && (#[trigger] words@[k])@ == labels[n];
                                        let n2 = choose|n2: int|
                                            0 <= n2 < old_nodes.len() && old_labels[n2] == (#[trigger] words@[k])@;
                                        assert(trie_walk(old_nodes, 0, old_labels[n2]) == Some(n2));
                                        assert(old_labels[n2] == next_label);
                                        assert(trie_walk(old_nodes, 0, next_label) is None);
                                    }
                                } else {
                                    assert(nodes@[n].terminal == old_nodes[n].terminal);
                                }
                            }
                            assert forall|k: int|
                                0 <= k < i implies exists|n: int|
                                    0 <= n < nodes@.len() && labels[n] == (#[trigger] words@[k])@ by {
                                let n2 = choose|n2: int|
                                    0 <= n2 < old_nodes.len() && old_labels[n2] == (#[trigger] words@[k])@;
                                assert(labels[n2] == old_labels[n2]);
                            }
                        }
                        node = fresh;
                    },
                }
                j += 1;
            }
            let ghost before = nodes@;
            nodes[node].terminal = true;
            proof {
                assert(word@.subrange(0, j as int) =~= word@);
                assert forall|n: int| 0 <= n < nodes@.len() implies trie_walk(
                    nodes@,
                    0,
                    #[trigger] labels[n],
                ) == Some(n) by {
                    lemma_walk_same_children(before, nodes@, 0, labels[n]);
                }
                assert forall|n: int|
                    0 <= n < nodes@.len() implies ((#[trigger] nodes@[n]).terminal <==> exists|k: int|
                        0 <= k < i + 1 && (#[trigger] words@[k])@ == labels[n]) by {
                    if n != node {
                        if labels[n] == words@[i as int]@ {
                            assert(trie_walk(nodes@, 0, labels[n]) == Some(n));
                            assert(trie_walk(nodes@, 0, labels[node as int]) == Some(node as int));
                        }
                        if exists|k: int| 0 <= k < i + 1 && (#[trigger] words@[k])@ == labels[n] {
                            let k = choose|k: int| 0 <= k < i + 1 && (#[trigger] words@[k])@ == labels[n];
                            if k < i {
                                assert(before[n].terminal);
                            }
                        }
                    } else {
                        assert(words@[i as int]@ == labels[n]);
                    }
                }
                assert forall|k: int|
                    0 <= k < i + 1 implies exists|n: int|
                        0 <= n < nodes@.len() && labels[n] == (#[trigger] words@[k])@ by {
                    if k == i {
                        assert(labels[node as int] == words@[k]@);
                    }
                }
            }
            i += 1;
        }
        let trie = Trie { nodes };
        proof {
            assert forall|w: Seq<char>|
                trie_has(trie.nodes@, w) <==> exists|i: int|
                    0 <= i < words@.len() && (#[trigger] words@[i])@ == w by {
                lemma_walk_label(trie.nodes@, labels, 0, w);
                assert(labels[0] + w =~= w);
                if exists|i: int| 0 <= i < words@.len() && (#[trigger] words@[i])@ == w {
                    let k = choose|k: int| 0 <= k < words@.len() && (#[trigger] words@[k])@ == w;
                    let n = choose|n: int| 0 <= n < trie.nodes@.len() && labels[n] == (#[trigger] words@[k])@;
                    assert(trie_walk(trie.nodes@, 0, labels[n]) == Some(n));
                }
            }
        }
        trie
    }

    /// The root node.
    pub fn root(&self) -> (r: &TrieNode)
        requires
            self.nodes@.len() >= 1,
        ensures
            *r == self.nodes@[0],
    {
        &self.nodes[0]
    }

    /// Whether `letters` is one of the words of the trie.
    pub fn contains(&self, letters: &str) -> (r: bool)
        ensures
            r == trie_has(self.nodes@, letters@),
    {
        let word = chars_of(letters);
        let mut node: usize = 0;
        let mut i: usize = 0;
        proof {
            assert(letters@.skip(0) =~= letters@);
        }
        while i < word.len()
            invariant
                word@ == letters@,
                0 <= i <= word@.len(),
                trie_walk(self.nodes@, 0, letters@) == trie_walk(
                    self.nodes@,
                    node as int,
                    letters@.skip(i as int),
                ),
            decreases word@.len() - i,
        {
            if node >= self.nodes.len() {
                return false;
            }
            let c = word[i];
            let next = find_child_index(&self.nodes[node].children, c);
            proof {
                assert(letters@.skip(i as int)[0] == c);
                assert(letters@.skip(i as int).drop_first() =~= letters@.skip(i + 1));
            }
            match next {
                Some(m) => {
                    node = m;
                },
                None => {
                    return false;
                },
            }
            i += 1;
        }
        proof {
            assert(letters@.skip(i as int) =~= Seq::<char>::empty());
        }
        node < self.nodes.len() && self.nodes[node].terminal
    }
}

} // verus!
