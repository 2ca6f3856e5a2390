//! The keyword trie with its suffix links and output links.
use std::collections::HashMap;
use std::collections::VecDeque;
use vstd::prelude::*;
use vstd::std_specs::iter::IteratorSpec;
use vstd::utf8::char_u32_cast;
use vstd::utf8::encode_utf8;

use crate::model::{
    bfs_enqueued, bfs_state, is_output_link, is_prefix, is_suffix, is_suffix_link, is_word,
    lemma_bfs_done, lemma_bfs_front, lemma_bfs_pop, lemma_bfs_push, lemma_bfs_reached, lemma_empty_suffix, lemma_output_from_suffix_link,
    lemma_transition_fail, lemma_transition_found, lemma_transition_root, lemma_transition_start,
    transition_search, word_tree, lemma_prefix_is_word, keyword_set, prefix_closure, outputs_wf,
    add_prefixes, trie_words, lemma_output_link_unique, lemma_suffix_link_unique,
};

verus! {

broadcast use vstd::std_specs::hash::group_hash_axioms;

/// Index of a node in a [`Trie`]; the root is node 0.
pub type NodeId = usize;

/// One node of the trie.
#[derive(Debug)]
pub struct TrieNode {
    /// The children of the node, keyed by the scalar value (`char as u32`) of
    /// the character on the edge to the child.
    pub children: HashMap<u32, NodeId>,
    /// The length in bytes of the keyword that ends at this node, if one does.
    pub end_length: Option<usize>,
}

impl Default for TrieNode {
    fn default() -> (node: Self)
        ensures
            node.children@ == Map::<u32, NodeId>::empty(),
            node.end_length is None,
    {
        TrieNode { children: HashMap::new(), end_length: None }
    }
}

impl Clone for TrieNode {
    fn clone(&self) -> (node: Self)
        ensures
            node.children@ == self.children@,
            node.end_length == self.end_length,
    {
        TrieNode { children: self.children.clone(), end_length: self.end_length }
    }
}

impl TrieNode {
    fn add_child(&mut self, character: char, child_id: NodeId)
        ensures
            final(self).children@ == old(self).children@.insert(character as u32, child_id),
            final(self).end_length == old(self).end_length,
    {
        self.children.insert(character as u32, child_id);
    }
}

/// An optional node index as an optional natural number.
pub open spec fn opt_nat(o: Option<NodeId>) -> Option<nat> {
    match o {
        Some(x) => Some(x as nat),
        None => None,
    }
}

/// A trie of keywords with the links of the Aho-Corasick automaton.
///
/// Node `i` spells the word `node_words()[i]`: the characters on the path from
/// the root to it. The words are the empty word and every prefix of a keyword.
pub struct Trie {
    trie_nodes: Vec<TrieNode>,
    suffix_links: Vec<NodeId>,
    output_links: Vec<Option<NodeId>>,
    words: Ghost<Seq<Seq<char>>>,
    parents: Ghost<Seq<nat>>,
}

impl Trie {
    /// The word that each node spells.
    pub closed spec fn node_words(&self) -> Seq<Seq<char>> {
        self.words@
    }

    /// The parent of each node (the root is its own parent).
    pub closed spec fn node_parents(&self) -> Seq<nat> {
        self.parents@
    }

    /// The number of nodes.
    pub closed spec fn node_count(&self) -> nat {
        self.words@.len()
    }

    /// The keywords: the words of the nodes where a keyword ends.
    pub closed spec fn keywords(&self) -> Set<Seq<char>> {
        Set::new(
            |w: Seq<char>|
                exists|i: int|
                    0 <= i < self.words@.len() && self.words@[i] == w
                        && self.trie_nodes@[i].end_length is Some,
        )
    }

    /// The suffix link of each node.
    pub closed spec fn suffix_link_of(&self, i: int) -> nat {
        self.suffix_links@[i] as nat
    }

    /// The output link of each node.
    pub closed spec fn output_links_view(&self) -> Seq<Option<nat>> {
        self.output_links@.map_values(|o: Option<NodeId>| opt_nat(o))
    }

    /// The children maps and the parents agree: each entry of a node's map leads to
    /// a node whose parent it is and whose word ends with the entry's character,
    /// and each node other than the root is in its parent's map under its last
    /// character.
    spec fn children_consistent(&self) -> bool {
        let n = self.words@.len();
        &&& forall|i: int, key: u32|
            0 <= i < n && #[trigger] self.trie_nodes@[i].children@.contains_key(key) ==> {
                let j = self.trie_nodes@[i].children@[key] as int;
                &&& 0 < j < n
                &&& self.parents@[j] == i
                &&& (self.words@[j].last() as u32) == key
            }
        &&& forall|j: int|
            #![trigger self.words@[j]]
            0 < j < n ==> {
                let p = self.parents@[j] as int;
                let key = self.words@[j].last() as u32;
                &&& self.trie_nodes@[p].children@.contains_key(key)
                &&& self.trie_nodes@[p].children@[key] == j
            }
    }

    /// The sizes of the parts of the trie agree and node 0 is the root.
    spec fn sizes_ok(&self) -> bool {
        let n = self.words@.len();
        &&& n > 0
        &&& self.trie_nodes@.len() == n
        &&& self.suffix_links@.len() == n
        &&& self.output_links@.len() == n
        &&& self.parents@.len() == n
        &&& self.words@[0].len() == 0
    }

    /// The words, the children maps and the keyword lengths agree.
    #[verifier::opaque]
    spec fn shape_wf(&self) -> bool {
        let n = self.words@.len();
        &&& word_tree(self.words@, self.parents@)
        &&& self.children_consistent()
        &&& forall|i: int|
            #![trigger self.trie_nodes@[i].end_length]
            0 <= i < n ==> match self.trie_nodes@[i].end_length {
                Some(l) => self.words@[i].len() > 0 && l == encode_utf8(self.words@[i]).len(),
                None => true,
            }
    }

    /// The shape of the trie is well formed.
    pub closed spec fn structure_wf(&self) -> bool {
        self.sizes_ok() && self.shape_wf()
    }

    /// No link has been computed yet.
    pub closed spec fn links_reset(&self) -> bool {
        &&& forall|i: int| 0 <= i < self.suffix_links@.len() ==> self.suffix_links@[i] == 0
        &&& forall|i: int| 0 <= i < self.output_links@.len() ==> self.output_links@[i] is None
    }

    /// The suffix and output links are those of the Aho-Corasick automaton.
    spec fn links_wf(&self) -> bool {
        let n = self.words@.len();
        &&& forall|i: int|
            #![trigger self.suffix_links@[i]]
            0 <= i < n ==> self.suffix_links@[i] < n && is_suffix_link(
                self.words@,
                i,
                self.suffix_links@[i] as int,
            )
        &&& forall|i: int|
            #![trigger self.output_links@[i]]
            0 <= i < n ==> is_output_link(
                self.words@,
                self.keywords(),
                i,
                self.output_links_view()[i],
            )
    }

    /// The trie is well formed.
    pub closed spec fn wf(&self) -> bool {
        self.structure_wf() && self.links_wf()
    }

    /// Looking up the child for `c` finds the node whose word extends node `i`'s by `c`.
    proof fn lemma_child_lookup(&self, i: int, c: char)
        requires
            self.structure_wf(),
            0 <= i < self.words@.len(),
        ensures
            self.trie_nodes@[i].children@.contains_key(c as u32) <==> is_word(
                self.words@,
                self.words@[i].push(c),
            ),
            self.trie_nodes@[i].children@.contains_key(c as u32) ==> {
                let j = self.trie_nodes@[i].children@[c as u32] as int;
                &&& 0 < j < self.words@.len()
                &&& self.words@[j] == self.words@[i].push(c)
            },
    {
        reveal(Trie::shape_wf);
        let words = self.words@;
        let key = c as u32;
        if self.trie_nodes@[i].children@.contains_key(key) {
            let j = self.trie_nodes@[i].children@[key] as int;
            assert(words[j].len() > 0);
            let last = words[j].last();
            char_u32_cast(last, key);
            char_u32_cast(c, key);
            assert(words[j] =~= words[j].drop_last().push(last));
            assert(words[j] == words[i].push(c));
        }
        if is_word(words, words[i].push(c)) {
            let k = choose|k: int| 0 <= k < words.len() && words[k] == words[i].push(c);
            assert(words[k].len() > 0);
            assert(k != 0);
            let p = self.parents@[k] as int;
            assert(words[p] == words[k].drop_last());
            assert(words[k].drop_last() =~= words[i]);
            assert(words[k].last() == c);
        }
    }

    /// Adds a node for `child_character` below `parent_id`.
    fn add_new_node(&mut self, parent_id: NodeId, child_character: char) -> (new_id: NodeId)
        requires
            old(self).structure_wf(),
            old(self).links_reset(),
            parent_id < old(self).words@.len(),
            !is_word(old(self).words@, old(self).words@[parent_id as int].push(child_character)),
        ensures
            final(self).structure_wf(),
            final(self).links_reset(),
            new_id == old(self).words@.len(),
            final(self).words@ == old(self).words@.push(
                old(self).words@[parent_id as int].push(child_character),
            ),
            final(self).parents@ == old(self).parents@.push(parent_id as nat),
            forall|i: int|
                0 <= i < old(self).words@.len() ==> (#[trigger] final(self).trie_nodes@[i]).end_length
                    == old(self).trie_nodes@[i].end_length,
            final(self).trie_nodes@[new_id as int].end_length is None,
    {
        proof {
            reveal(Trie::shape_wf);
            self.lemma_child_lookup(parent_id as int, child_character);
        }
        let ghost old_words = self.words@;
        let ghost old_parents = self.parents@;
        let ghost w = old_words[parent_id as int].push(child_character);
        self.trie_nodes.push(TrieNode::default());
        self.suffix_links.push(0);
        self.output_links.push(None);
        let new_id = self.trie_nodes.len() - 1;
        self.words = Ghost(old_words.push(w));
        self.parents = Ghost(old_parents.push(parent_id as nat));
        let parent = &mut self.trie_nodes[parent_id];
        parent.add_child(child_character, new_id);
        proof {
            let words = self.words@;
            let parents = self.parents@;
            assert(w.drop_last() =~= old_words[parent_id as int]);
            assert(w.last() == child_character);
            assert forall|i: int, j: int|
                0 <= i < words.len() && 0 <= j < words.len() && #[trigger] words[i]
                    == #[trigger] words[j] implies i == j by {
                if i == new_id && j != new_id {
                    assert(is_word(old_words, w));
                }
                if j == new_id && i != new_id {
                    assert(is_word(old_words, w));
                }
            }
            assert forall|i: int| 0 < i < words.len() implies {
                &&& parents[i] < i
                &&& (#[trigger] words[i]).len() > 0
                &&& words[parents[i] as int] == words[i].drop_last()
            } by {
                if i < new_id {
                    assert(words[i] == old_words[i]);
                    assert(parents[i] == old_parents[i]);
                    assert(old_words[i].len() > 0);
                    assert(words[parents[i] as int] == old_words[old_parents[i] as int]);
                } else {
                    assert(i == new_id);
                    assert(parents[i] == parent_id);
                    assert(words[i] == w);
                    assert(words[parent_id as int] == old_words[parent_id as int]);
                    assert(words[parents[i] as int] == words[i].drop_last());
                }
            }
            assert forall|i: int| 0 < i < words.len() implies #[trigger] parents[i] < i by {
                if i < new_id {
                    assert(parents[i] == old_parents[i]);
                    assert(old_words[i].len() > 0);
                }
            }
            assert(words[0] == old_words[0]);
            assert(words.len() == parents.len());
            assert(words.len() > 0);
            assert(words[0].len() == 0);
            assert(word_tree(words, parents));
            reveal(Trie::shape_wf);
            assert(old(self).children_consistent());
            assert forall|i: int| 0 <= i < old_words.len() && i != parent_id implies (
            #[trigger] self.trie_nodes@[i]).children@ == old(self).trie_nodes@[i].children@ by {}
            assert(self.children_consistent());
        }
        new_id
    }
}

impl Trie {
    /// Adds `keyword` to the trie; an empty keyword is ignored.
    ///
    /// Existing nodes keep their ids; each prefix of `keyword` that the trie does
    /// not spell yet gets a new node, shortest first, and the node of `keyword`
    /// records its length in bytes.
    fn add_keyword(&mut self, keyword: &str)
        requires
            old(self).structure_wf(),
            old(self).links_reset(),
        ensures
            final(self).structure_wf(),
            final(self).links_reset(),
            forall|w: Seq<char>|
                #![trigger is_word(final(self).words@, w)]
                is_word(final(self).words@, w) <==> (is_word(old(self).words@, w) || (
                keyword@.len() > 0 && is_prefix(w, keyword@))),
            final(self).keywords() == if keyword@.len() > 0 {
                old(self).keywords().insert(keyword@)
            } else {
                old(self).keywords()
            },
            final(self).words@ == add_prefixes(old(self).words@, keyword@, keyword@.len()),
            forall|i: int|
                0 <= i < old(self).parents@.len() ==> #[trigger] final(self).parents@[i] == old(
                    self,
                ).parents@[i],
            forall|i: int|
                0 <= i < final(self).words@.len() ==> (#[trigger] final(self).trie_nodes@[i]).end_length
                    == if keyword@.len() > 0 && final(self).words@[i] == keyword@ {
                    Some(encode_utf8(keyword@).len() as usize)
                } else if i < old(self).words@.len() {
                    old(self).trie_nodes@[i].end_length
                } else {
                    None
                },
            keyword@.len() == 0 ==> *final(self) == *old(self),
    {
        if keyword.is_empty() {
            return ;
        }
        let ghost old_n = self.words@.len();
        let ghost old_words = self.words@;
        let mut node_id: NodeId = 0;
        proof {
            assert(keyword@.take(0) =~= self.words@[0]);
        }
        for character in it: keyword.chars()
            invariant
                it.seq() == keyword@,
                self.structure_wf(),
                self.links_reset(),
                node_id < self.words@.len(),
                self.words@[node_id as int] == keyword@.take(it.index() as int),
                self.words@.len() >= old_n,
                old_n == old(self).words@.len(),
                old_words == old(self).words@,
                forall|i: int| 0 <= i < old_n ==> #[trigger] self.words@[i] == old_words[i],
                forall|i: int|
                    0 <= i < old_n ==> (#[trigger] self.trie_nodes@[i]).end_length == old(
                        self,
                    ).trie_nodes@[i].end_length,
                forall|i: int|
                    old_n <= i < self.words@.len() ==> (#[trigger] self.trie_nodes@[i]).end_length
                        is None && is_prefix(self.words@[i], keyword@.take(it.index() as int)),
                forall|j: int|
                    0 <= j <= it.index() ==> is_word(self.words@, #[trigger] keyword@.take(j)),
                self.words@ == add_prefixes(old_words, keyword@, it.index() as nat),
                forall|i: int|
                    0 <= i < old_n ==> #[trigger] self.parents@[i] == old(self).parents@[i],
        {
            let ghost k = it.index() as int;
            let ghost pre_words = self.words@;
            let key = character as u32;
            let found = match self.trie_nodes[node_id].children.get(&key) {
                Some(child) => Some(*child),
                None => None,
            };
            let ghost pre_parents = self.parents@;
            proof {
                self.lemma_child_lookup(node_id as int, character);
                assert(keyword@.take(k + 1) =~= keyword@.take(k).push(character));
            }
            node_id =
            match found {
                Some(child) => child,
                None => self.add_new_node(node_id, character),
            };
            proof {
                assert(self.words@ == add_prefixes(old_words, keyword@, (k + 1) as nat));
                assert forall|i: int| 0 <= i < old_n implies #[trigger] self.parents@[i] == old(
                    self,
                ).parents@[i] by {
                    assert(self.parents@[i] == pre_parents[i]);
                }
                assert forall|i: int|
                    old_n <= i < self.words@.len() implies (#[trigger] self.trie_nodes@[i]).end_length
                        is None && is_prefix(self.words@[i], keyword@.take(k + 1)) by {
                    if i < pre_words.len() {
                        assert(is_prefix(pre_words[i], keyword@.take(k)));
                        assert(keyword@.take(k + 1).take(pre_words[i].len() as int)
                            =~= keyword@.take(k).take(pre_words[i].len() as int));
                    } else {
                        assert(self.words@[i] == keyword@.take(k + 1));
                        assert(keyword@.take(k + 1).take(self.words@[i].len() as int)
                            =~= keyword@.take(k + 1));
                    }
                }
                assert forall|j: int| 0 <= j <= k + 1 implies is_word(
                    self.words@,
                    #[trigger] keyword@.take(j),
                ) by {
                    if j <= k {
                        assert(is_word(pre_words, keyword@.take(j)));
                        let i = choose|i: int|
                            0 <= i < pre_words.len() && pre_words[i] == keyword@.take(j);
                        assert(self.words@[i] == pre_words[i]);
                    } else {
                        assert(self.words@[node_id as int] == keyword@.take(j));
                    }
                }
            }
        }
        assert(keyword@.take(keyword@.len() as int) =~= keyword@);
        let len = keyword.as_bytes().len();
        let ghost pre_trie: Trie = *self;
        self.trie_nodes[node_id].end_length = Some(len);
        proof {
            let words = self.words@;
            Trie::lemma_mark_end(pre_trie, *self, node_id as int, len);
            assert forall|w: Seq<char>|
                #![trigger is_word(self.words@, w)]
                #![trigger is_word(old(self).words@, w)]
                is_word(self.words@, w) <==> (is_word(old(self).words@, w) || (keyword@.len() > 0
                    && is_prefix(w, keyword@))) by {
                if is_word(self.words@, w) {
                    let i = choose|i: int| 0 <= i < words.len() && words[i] == w;
                    if i < old_n {
                        assert(old_words[i] == w);
                    } else {
                        assert(pre_trie.trie_nodes@[i].end_length is None);
                        assert(is_prefix(words[i], keyword@));
                    }
                }
                if is_word(old(self).words@, w) {
                    let i = choose|i: int| 0 <= i < old_words.len() && old_words[i] == w;
                    assert(words[i] == w);
                }
                if is_prefix(w, keyword@) {
                    assert(keyword@.take(w.len() as int) == w);
                    assert(is_word(words, keyword@.take(w.len() as int)));
                }
            }
            assert forall|w: Seq<char>|
                pre_trie.keywords().contains(w) <==> old(self).keywords().contains(w) by {
                if pre_trie.keywords().contains(w) {
                    let i = choose|i: int|
                        0 <= i < words.len() && words[i] == w
                            && pre_trie.trie_nodes@[i].end_length is Some;
                    assert(i < old_n);
                    assert(old_words[i] == w);
                }
                if old(self).keywords().contains(w) {
                    let i = choose|i: int|
                        0 <= i < old_words.len() && old_words[i] == w
                            && old(self).trie_nodes@[i].end_length is Some;
                    assert(words[i] == w);
                    assert(pre_trie.trie_nodes@[i].end_length is Some);
                }
            }
            assert(pre_trie.keywords() =~= old(self).keywords());
            self.lemma_shape();
            assert forall|i: int| 0 <= i < words.len() implies (#[trigger] self.trie_nodes@[i]).end_length
                == if keyword@.len() > 0 && words[i] == keyword@ {
                Some(encode_utf8(keyword@).len() as usize)
            } else if i < old_n {
                old(self).trie_nodes@[i].end_length
            } else {
                None
            } by {
                if words[i] == keyword@ {
                    assert(words[i] == words[node_id as int]);
                }
            }
        }
    }

    /// Marking a node as the end of a keyword adds its word to the keywords.
    proof fn lemma_mark_end(pre: Trie, post: Trie, node: int, len: usize)
        requires
            pre.structure_wf(),
            0 <= node < pre.words@.len(),
            pre.words@[node].len() > 0,
            len == encode_utf8(pre.words@[node]).len(),
            post.words == pre.words,
            post.parents == pre.parents,
            post.suffix_links == pre.suffix_links,
            post.output_links == pre.output_links,
            post.trie_nodes@ == pre.trie_nodes@.update(
                node,
                TrieNode { end_length: Some(len), ..pre.trie_nodes@[node] },
            ),
        ensures
            post.structure_wf(),
            post.keywords() == pre.keywords().insert(pre.words@[node]),
    {
        reveal(Trie::shape_wf);
        let words = pre.words@;
        assert(pre.children_consistent());
        assert forall|i: int| 0 <= i < words.len() implies (#[trigger] post.trie_nodes@[i]).children@
            == pre.trie_nodes@[i].children@ by {}
        assert(post.children_consistent());
        assert forall|w: Seq<char>|
            post.keywords().contains(w) <==> pre.keywords().insert(words[node]).contains(w) by {
            if post.keywords().contains(w) {
                let i = choose|i: int|
                    0 <= i < words.len() && words[i] == w && post.trie_nodes@[i].end_length is Some;
                if i != node {
                    assert(pre.trie_nodes@[i].end_length is Some);
                }
            }
            if pre.keywords().contains(w) {
                let i = choose|i: int|
                    0 <= i < words.len() && words[i] == w && pre.trie_nodes@[i].end_length is Some;
                assert(post.trie_nodes@[i].end_length is Some);
            }
            if w == words[node] {
                assert(post.trie_nodes@[node].end_length is Some);
            }
        }
        assert(post.keywords() =~= pre.keywords().insert(words[node]));
    }
}

impl Default for Trie {
    /// A trie with the root alone.
    fn default() -> (trie: Self)
        ensures
            trie.wf(),
            trie.structure_wf(),
            trie.links_reset(),
            trie.node_words() == seq![Seq::<char>::empty()],
            trie.keywords() == Set::<Seq<char>>::empty(),
    {
        let trie = Trie {
            trie_nodes: vec![TrieNode::default()],
            suffix_links: vec![0],
            output_links: vec![None],
            words: Ghost(Seq::<Seq<char>>::empty().push(Seq::<char>::empty())),
            parents: Ghost(Seq::<nat>::empty().push(0nat)),
        };
        proof {
            reveal(Trie::shape_wf);
            assert(trie.keywords() =~= Set::<Seq<char>>::empty());
            assert(is_suffix_link(trie.words@, 0, 0));
            assert(is_output_link(trie.words@, trie.keywords(), 0, trie.output_links_view()[0]));
        }
        trie
    }
}

impl Trie {
    /// The parts of the shape that the traversal needs.
    proof fn lemma_shape(&self)
        requires
            self.structure_wf(),
        ensures
            word_tree(self.words@, self.parents@),
            forall|i: int|
                0 <= i < self.words@.len() ==> (self.keywords().contains(#[trigger] self.words@[i])
                    <==> self.trie_nodes@[i].end_length is Some),
            forall|w: Seq<char>| #[trigger]
                self.keywords().contains(w) ==> w.len() > 0 && is_word(self.words@, w),
    {
        reveal(Trie::shape_wf);
        let words = self.words@;
        assert forall|i: int|
            0 <= i < words.len() implies (self.keywords().contains(#[trigger] words[i])
            <==> self.trie_nodes@[i].end_length is Some) by {
            if self.keywords().contains(words[i]) {
                let k = choose|k: int|
                    0 <= k < words.len() && words[k] == words[i]
                        && self.trie_nodes@[k].end_length is Some;
                assert(k == i);
            }
        }
    }

    /// The children of node `u` are exactly the nodes whose parent is `u`.
    proof fn lemma_children(&self, u: int)
        requires
            self.structure_wf(),
            0 <= u < self.words@.len(),
        ensures
            forall|key: u32|
                #[trigger] self.trie_nodes@[u].children@.contains_key(key) ==> {
                    let j = self.trie_nodes@[u].children@[key] as int;
                    &&& 0 < j < self.words@.len()
                    &&& self.parents@[j] == u
                    &&& (self.words@[j].last() as u32) == key
                },
            forall|j: int|
                0 < j < self.words@.len() && #[trigger] self.parents@[j] == u ==> {
                    let key = self.words@[j].last() as u32;
                    &&& self.trie_nodes@[u].children@.contains_key(key)
                    &&& self.trie_nodes@[u].children@[key] == j
                },
    {
        reveal(Trie::shape_wf);
        assert forall|j: int|
            0 < j < self.words@.len() && #[trigger] self.parents@[j] == u implies {
                let key = self.words@[j].last() as u32;
                &&& self.trie_nodes@[u].children@.contains_key(key)
                &&& self.trie_nodes@[u].children@[key] == j
            } by {}
    }

    /// Tries with the same nodes have the same shape.
    proof fn lemma_same_shape(a: Trie, b: Trie)
        requires
            a.structure_wf(),
            b.trie_nodes == a.trie_nodes,
            b.words == a.words,
            b.parents == a.parents,
            b.suffix_links@.len() == a.suffix_links@.len(),
            b.output_links@.len() == a.output_links@.len(),
        ensures
            b.structure_wf(),
            b.keywords() == a.keywords(),
    {
        reveal(Trie::shape_wf);
        assert(b.keywords() =~= a.keywords());
    }

    /// Computes the suffix links and output links by a breadth-first traversal.
    #[verifier::rlimit(60)]
    ///
    /// The links are computed afresh, so a trie whose links are already those of
    /// the automaton is left as it is.
    fn build_suffix_links(&mut self)
        requires
            old(self).structure_wf(),
            old(self).links_reset() || old(self).links_wf(),
        ensures
            final(self).wf(),
            final(self).trie_nodes == old(self).trie_nodes,
            final(self).words == old(self).words,
            final(self).parents == old(self).parents,
            old(self).links_wf() ==> final(self).suffix_links@ == old(self).suffix_links@
                && final(self).output_links@ == old(self).output_links@,
    {
        let ghost words = self.words@;
        let ghost parents = self.parents@;
        let ghost kws = old(self).keywords();
        let ghost n = words.len();
        proof {
            old(self).lemma_shape();
        }
        let mut deque: VecDeque<NodeId> = VecDeque::new();
        deque.push_back(0);
        let ghost mut popped: Set<int> = Set::empty();
        proof {
            assert(deque@[0] == 0);
            assert(bfs_enqueued(popped, deque@, 0));
            assert forall|j: int| 0 < j < n implies (bfs_enqueued(popped, deque@, j)
                <==> popped.contains(#[trigger] parents[j] as int)) by {
                if bfs_enqueued(popped, deque@, j) {
                    let a = choose|a: int| 0 <= a < deque@.len() && deque@[a] as int == j;
                    assert(a == 0);
                }
            }
        }
        loop
            invariant
                self.trie_nodes == old(self).trie_nodes,
                self.words == old(self).words,
                self.parents == old(self).parents,
                words == self.words@,
                parents == self.parents@,
                n == words.len(),
                kws == old(self).keywords(),
                old(self).structure_wf(),
                self.suffix_links@.len() == n,
                self.output_links@.len() == n,
                word_tree(words, parents),
                forall|i: int|
                    0 <= i < n ==> (kws.contains(#[trigger] words[i])
                        <==> old(self).trie_nodes@[i].end_length is Some),
                forall|w: Seq<char>| #[trigger] kws.contains(w) ==> w.len() > 0,
                bfs_state(words, parents, popped, deque@),
                popped.finite(),
                popped.len() <= n,
                forall|j: int|
                    0 <= j < n && bfs_enqueued(popped, deque@, j) ==> self.suffix_links@[j] < n
                        && is_suffix_link(words, j, #[trigger] self.suffix_links@[j] as int),
                forall|j: int|
                    0 <= j < n && !bfs_enqueued(popped, deque@, j) ==> #[trigger] self.suffix_links@[j]
                        == old(self).suffix_links@[j],
                old(self).links_reset() || old(self).links_wf(),
                forall|j: int|
                    0 <= j < n && popped.contains(j) ==> is_output_link(
                        words,
                        kws,
                        j,
                        opt_nat(#[trigger] self.output_links@[j]),
                    ),
                forall|j: int|
                    0 <= j < n && !popped.contains(j) ==> #[trigger] self.output_links@[j]
                        == old(self).output_links@[j],
            ensures
                deque@.len() == 0,
            decreases n - popped.len(),
        {
            let ghost q0 = deque@;
            let this_id = match deque.pop_front() {
                Some(x) => x,
                None => break,
            };
            let ghost u = this_id as int;
            let ghost du = words[u].len();
            proof {
                assert(q0[0] == this_id);
                assert forall|y: int| 0 <= y < n && words[y].len() <= du implies bfs_enqueued(
                    popped,
                    q0,
                    y,
                ) by {
                    lemma_bfs_reached(words, parents, popped, q0, y);
                }
                assert forall|x: int| 0 <= x < n && words[x].len() < du implies popped.contains(
                    x,
                ) by {
                    lemma_bfs_front(words, parents, popped, q0, x);
                }
                assert(bfs_enqueued(popped, q0, u));
                vstd::set_lib::lemma_int_range(0, n as int);
                vstd::set_lib::lemma_len_subset(
                    popped.insert(u),
                    vstd::set_lib::set_int_range(0, n as int),
                );
                popped = popped.insert(u);
            }
            let suffix_id = self.suffix_links[this_id];
            let ghost s = suffix_id as int;
            let ghost outs = self.output_links@;
            let out = match self.trie_nodes[suffix_id].end_length {
                Some(_) => Some(suffix_id),
                None => self.output_links[suffix_id],
            };
            proof {
                if u != 0 {
                    assert(is_suffix(words[s], words[u].drop_first()));
                    assert(words[s].len() < du);
                    assert(popped.contains(s));
                }
                lemma_output_from_suffix_link(words, parents, kws, u, s, opt_nat(outs[s]));
            }
            self.output_links.set(this_id, out);
            let ghost q1 = deque@;
            proof {
                assert(q1 == q0.subrange(1, q0.len() as int));
                assert forall|y: int| 0 <= y < n implies #[trigger] bfs_enqueued(popped, q1, y)
                    == bfs_enqueued(popped.remove(u), q0, y) by {
                    lemma_bfs_pop(popped.remove(u), q0, y);
                    assert(popped.remove(u).insert(u) =~= popped);
                }
                assert(popped.remove(u).insert(u) =~= popped);
                assert(!popped.remove(u).contains(u));
                assert forall|j: int|
                    0 <= j < n && words[j].len() <= du implies self.suffix_links@[j] < n
                        && is_suffix_link(words, j, #[trigger] self.suffix_links@[j] as int) by {
                    assert(bfs_enqueued(popped.remove(u), q0, j));
                }
                assert forall|a: int|
                    0 <= a < q1.len() implies du <= words[#[trigger] q1[a] as int].len() <= du
                    + 1 by {
                    assert(q1[a] == q0[a + 1]);
                    assert(words[q0[0] as int].len() <= words[q0[a + 1] as int].len());
                }
                assert forall|j: int|
                    0 < j < n && #[trigger] parents[j] == u implies !bfs_enqueued(
                        popped,
                        q1,
                        j,
                    ) by {
                    assert(!popped.remove(u).contains(u));
                    assert(j != u);
                }
            }
            let children = &self.trie_nodes[this_id].children;
            let ghost entries = vstd::std_specs::hash::spec_hash_map_iter(children).remaining();
            let ghost mut cnt: int = 0;
            for entry in it: children.iter()
                invariant
                    self.trie_nodes == old(self).trie_nodes,
                    self.words == old(self).words,
                    self.parents == old(self).parents,
                    words == self.words@,
                    parents == self.parents@,
                    n == words.len(),
                    kws == old(self).keywords(),
                    old(self).structure_wf(),
                    *children == old(self).trie_nodes@[u].children,
                    it.seq().no_duplicates(),
                    it.seq() == entries,
                    cnt == it.index(),
                    self.suffix_links@[u] == s,
                    self.suffix_links@.len() == n,
                    self.output_links@.len() == n,
                    word_tree(words, parents),
                    0 <= u < n,
                    u == this_id,
                    du == words[u].len(),
                    s == suffix_id,
                    s < n,
                    popped.contains(u),
                    popped.finite(),
                    popped.len() <= n,
                    deque@.len() >= q1.len(),
                    deque@.subrange(0, q1.len() as int) == q1,
                    forall|x: int| popped.contains(x) ==> 0 <= x < n && words[x].len() <= du,
                    forall|a: int|
                        0 <= a < deque@.len() ==> (#[trigger] deque@[a]) < n && !popped.contains(
                            deque@[a] as int,
                        ) && du <= words[deque@[a] as int].len() <= du + 1,
                    deque@.no_duplicates(),
                    forall|a: int, b: int|
                        0 <= a <= b < deque@.len() ==> words[#[trigger] deque@[a] as int].len()
                            <= words[#[trigger] deque@[b] as int].len(),
                    bfs_enqueued(popped, deque@, 0),
                    forall|j: int|
                        0 < j < n && parents[j] != u ==> (bfs_enqueued(popped, deque@, j)
                            <==> popped.contains(#[trigger] parents[j] as int)),
                    forall|j: int|
                        0 < j < n && #[trigger] parents[j] == u ==> (bfs_enqueued(
                            popped,
                            deque@,
                            j,
                        ) <==> exists|a: int| 0 <= a < cnt && *entries[a].1 == j),
                    forall|j: int|
                        0 <= j < n && words[j].len() <= du ==> self.suffix_links@[j] < n
                            && is_suffix_link(words, j, #[trigger] self.suffix_links@[j] as int),
                    forall|j: int|
                        0 <= j < n && bfs_enqueued(popped, deque@, j) ==> self.suffix_links@[j] < n
                            && is_suffix_link(words, j, #[trigger] self.suffix_links@[j] as int),
                    forall|j: int|
                        0 <= j < n && !bfs_enqueued(popped, deque@, j) ==> #[trigger] self.suffix_links@[j]
                            == old(self).suffix_links@[j],
                    old(self).links_reset() || old(self).links_wf(),
                    forall|j: int|
                        0 <= j < n && popped.contains(j) ==> is_output_link(
                            words,
                            kws,
                            j,
                            opt_nat(#[trigger] self.output_links@[j]),
                        ),
                    forall|j: int|
                        0 <= j < n && !popped.contains(j) ==> #[trigger] self.output_links@[j]
                            == old(self).output_links@[j],
            {
                let ghost k = it.index();
                let ghost pre_deque = deque@;
                let ghost pre_links = self.suffix_links@;
                let ghost pre_outs = self.output_links@;
                let ghost m = old(self).trie_nodes@[u].children@;
                proof {
                    let v = vstd::std_specs::hash::spec_hash_map_iter(children).remaining();
                    assert(it.seq() == v);
                    assert(entry == v[k]);
                    assert(m.contains_key(*v[k].0));
                }
                let (character, id) = entry;
                let character: u32 = *character;
                let id: NodeId = *id;
                let ghost c = words[id as int].last();
                proof {
                    let v = it.seq();
                    old(self).lemma_children(u);
                    assert(m[character] == id);
                    assert(0 < id < n && parents[id as int] == u && (c as u32) == character);
                    assert(words[id as int].len() > 0);
                    assert(words[id as int] =~= words[u].push(c));
                    assert(words[id as int].len() == du + 1);
                    if exists|a: int| 0 <= a < k && *v[a].1 == id {
                        let a = choose|a: int| 0 <= a < k && *v[a].1 == id;
                        assert(m.contains_key(*v[a].0));
                        assert(m[*v[a].0] == *v[a].1);
                        assert(*v[a].0 == character);
                        assert(v[a] == v[k]);
                        assert(v.no_duplicates());
                    }
                    assert(!bfs_enqueued(popped, deque@, id as int));
                    assert(pre_links[id as int] == old(self).suffix_links@[id as int]);
                }
                deque.push_back(id);
                if this_id != 0 {
                    let ghost sctx = words[u].drop_first();
                    proof {
                        assert(words[u].len() > 0);
                        assert(is_suffix_link(words, u, s));
                        lemma_transition_start(words, sctx, c, s);
                    }
                    let mut this_suffix_id = suffix_id;
                    loop
                        invariant_except_break
                            self.suffix_links@ == pre_links,
                            transition_search(words, sctx, c, this_suffix_id as int),
                        invariant
                            self.trie_nodes == old(self).trie_nodes,
                            self.words == old(self).words,
                            self.parents == old(self).parents,
                            self.output_links@ == pre_outs,
                            words == self.words@,
                            parents == self.parents@,
                            n == words.len(),
                            old(self).structure_wf(),
                            word_tree(words, parents),
                            self.suffix_links@.len() == n,
                            pre_links.len() == n,
                            pre_links[id as int] == old(self).suffix_links@[id as int],
                            old(self).links_reset() || old(self).links_wf(),
                            old(self).suffix_links@.len() == n,
                            this_suffix_id < n,
                            0 < id < n,
                            0 < u < n,
                            words[id as int] == words[u].push(c),
                            (c as u32) == character,
                            sctx == words[u].drop_first(),
                            words[u].len() == du,
                            forall|j: int|
                                0 <= j < n && words[j].len() <= du ==> pre_links[j] < n
                                    && is_suffix_link(words, j, #[trigger] pre_links[j] as int),
                        ensures
                            self.suffix_links@.len() == n,
                            self.output_links@ == pre_outs,
                            forall|j: int|
                                0 <= j < n && j != id ==> #[trigger] self.suffix_links@[j]
                                    == pre_links[j],
                            self.suffix_links@[id as int] < n && is_suffix_link(
                                words,
                                id as int,
                                self.suffix_links@[id as int] as int,
                            ),
                        decreases words[this_suffix_id as int].len(),
                    {
                        let ghost q = this_suffix_id as int;
                        proof {
                            old(self).lemma_child_lookup(q, c);
                            assert(sctx.push(c) =~= words[id as int].drop_first());
                        }
                        match self.trie_nodes[this_suffix_id].children.get(&character) {
                            Some(next_suffix) => {
                                proof {
                                    lemma_transition_found(
                                        words,
                                        parents,
                                        sctx,
                                        c,
                                        q,
                                        *next_suffix as int,
                                    );
                                }
                                self.suffix_links.set(id, *next_suffix);
                                break ;
                            },
                            None => {
                                if this_suffix_id == 0 {
                                    proof {
                                        lemma_transition_root(words, parents, sctx, c);
                                        if old(self).links_wf() {
                                            assert(old(self).suffix_links@[id as int] < n
                                                && is_suffix_link(
                                                words,
                                                id as int,
                                                old(self).suffix_links@[id as int] as int,
                                            ));
                                        }
                                    }
                                    break ;
                                } else {
                                    proof {
                                        assert(words[q].len() <= sctx.len());
                                        assert(words[q].len() <= du);
                                        lemma_transition_fail(
                                            words,
                                            parents,
                                            sctx,
                                            c,
                                            q,
                                            pre_links[q] as int,
                                        );
                                        assert(words[q].len() > 0);
                                        assert(is_suffix(
                                            words[pre_links[q] as int],
                                            words[q].drop_first(),
                                        ));
                                    }
                                    this_suffix_id = self.suffix_links[this_suffix_id];
                                }
                            },
                        }
                    }
                } else {
                    proof {
                        assert(words[id as int].drop_first() =~= words[0]);
                        lemma_empty_suffix(words[0], words[id as int].drop_first());
                        assert(is_suffix_link(words, id as int, 0));
                        if old(self).links_wf() {
                            assert(old(self).suffix_links@[id as int] < n && is_suffix_link(
                                words,
                                id as int,
                                old(self).suffix_links@[id as int] as int,
                            ));
                        }
                    }
                }
                proof {
                    assert(deque@ == pre_deque.push(id));
                    assert forall|y: int| 0 <= y < n implies #[trigger] bfs_enqueued(
                        popped,
                        deque@,
                        y,
                    ) == (bfs_enqueued(popped, pre_deque, y) || y == id) by {
                        lemma_bfs_push(popped, pre_deque, id, y);
                    }
                    assert(deque@.subrange(0, q1.len() as int) =~= q1);
                    assert(entries[k].1 == id);
                    assert(it.seq()[k].1 == id);
                    cnt = cnt + 1;
                }
            }
            proof {
                assert(cnt == entries.len());
                old(self).lemma_children(u);
                let m = old(self).trie_nodes@[u].children@;
                assert forall|j: int|
                    0 < j < n && #[trigger] parents[j] == u implies exists|a: int|
                        0 <= a < cnt && *entries[a].1 == j by {
                    let key = words[j].last() as u32;
                    assert(m.contains_key(key));
                    assert(entries.contains((&key, &m[key])));
                    let a = choose|a: int| 0 <= a < entries.len() && entries[a] == (&key, &m[key]);
                    assert(*entries[a].1 == j);
                }
                assert forall|j: int| 0 < j < n implies (bfs_enqueued(popped, deque@, j)
                    <==> popped.contains(#[trigger] parents[j] as int)) by {
                    if parents[j] == u {
                        assert(exists|a: int| 0 <= a < cnt && *entries[a].1 == j);
                    }
                }
                assert(bfs_state(words, parents, popped, deque@));
            }
        }
        proof {
            Trie::lemma_same_shape(*old(self), *self);
            assert forall|j: int| 0 <= j < n implies popped.contains(j) by {
                lemma_bfs_done(words, parents, popped, deque@, j);
            }
            assert forall|i: int| 0 <= i < n implies is_output_link(
                words,
                self.keywords(),
                i,
                #[trigger] self.output_links_view()[i],
            ) by {
                assert(self.output_links_view()[i] == opt_nat(self.output_links@[i]));
            }
            assert(self.links_wf());
            if old(self).links_wf() {
                assert forall|j: int| 0 <= j < n implies self.suffix_links@[j] == old(
                    self,
                ).suffix_links@[j] by {
                    lemma_suffix_link_unique(
                        words,
                        parents,
                        j,
                        self.suffix_links@[j] as int,
                        old(self).suffix_links@[j] as int,
                    );
                }
                assert forall|j: int| 0 <= j < n implies self.output_links@[j] == old(
                    self,
                ).output_links@[j] by {
                    assert(self.output_links_view()[j] == opt_nat(self.output_links@[j]));
                    assert(old(self).output_links_view()[j] == opt_nat(old(self).output_links@[j]));
                    lemma_output_link_unique(
                        words,
                        parents,
                        kws,
                        j,
                        opt_nat(self.output_links@[j]),
                        opt_nat(old(self).output_links@[j]),
                    );
                }
                assert(self.suffix_links@ =~= old(self).suffix_links@);
                assert(self.output_links@ =~= old(self).output_links@);
            }
        }
    }
}

impl Trie {
    /// Builds the trie of `keywords` and its links; empty keywords are ignored.
    ///
    /// The nodes spell the empty word and every prefix of a keyword, and the
    /// keywords are exactly the nonempty strings among `keywords`. Nodes are
    /// numbered in the order they are created: node 0 is the root, then each
    /// keyword in turn adds, shortest first, the prefixes not yet in the trie.
    pub fn build_trie(keywords: &[&str]) -> (trie: Self)
        ensures
            trie.wf(),
            trie.keywords() == keyword_set(keywords@.map_values(|k: &str| k@)),
            forall|w: Seq<char>|
                is_word(trie.node_words(), w) <==> prefix_closure(
                    keyword_set(keywords@.map_values(|k: &str| k@)),
                ).contains(w),
            trie.node_words() == trie_words(keywords@.map_values(|k: &str| k@)),
            forall|k: Seq<char>|
                #[trigger] trie.keywords().contains(k) <==> (k.len() > 0 && keywords@.map_values(
                    |s: &str| s@,
                ).contains(k)),
            forall|w: Seq<char>|
                (exists|i: int| 0 <= i < trie.node_words().len() && #[trigger] trie.node_words()[i]
                    == w) <==> (w.len() == 0 || exists|j: int|
                    0 <= j < keywords@.len() && w.len() <= (#[trigger] keywords@[j])@.len()
                        && keywords@[j]@.take(w.len() as int) == w),
    {
        let ghost ks = keywords@.map_values(|k: &str| k@);
        let mut trie = Self::default();
        proof {
            assert(ks.take(0).len() == 0);
            assert(trie.node_words() == trie_words(ks.take(0)));
            assert(keyword_set(ks.take(0)) =~= Set::<Seq<char>>::empty());
            assert forall|w: Seq<char>|
                is_word(trie.node_words(), w) <==> prefix_closure(
                    keyword_set(ks.take(0)),
                ).contains(w) by {
                if is_word(trie.node_words(), w) {
                    let i = choose|i: int|
                        0 <= i < trie.node_words().len() && trie.node_words()[i] == w;
                    assert(i == 0);
                }
                if w.len() == 0 {
                    assert(w =~= trie.node_words()[0]);
                }
            }
        }
        for i in 0..keywords.len()
            invariant
                ks == keywords@.map_values(|k: &str| k@),
                trie.structure_wf(),
                trie.links_reset(),
                trie.keywords() == keyword_set(ks.take(i as int)),
                trie.node_words() == trie_words(ks.take(i as int)),
                forall|w: Seq<char>|
                    is_word(trie.node_words(), w) <==> prefix_closure(
                        keyword_set(ks.take(i as int)),
                    ).contains(w),
        {
            let ghost pre = trie.node_words();
            trie.add_keyword(keywords[i]);
            proof {
                let k = keywords@[i as int]@;
                assert(ks[i as int] == k);
                let before = keyword_set(ks.take(i as int));
                let after = keyword_set(ks.take(i + 1));
                assert(ks.take(i + 1) =~= ks.take(i as int).push(k));
                assert(ks.take(i + 1).drop_last() =~= ks.take(i as int));
                assert(trie.node_words() == trie_words(ks.take(i + 1)));
                assert forall|w: Seq<char>| after.contains(w) <==> (before.contains(w) || (k.len() > 0
                    && w == k)) by {
                    let t0 = ks.take(i as int);
                    let t1 = ks.take(i + 1);
                    if after.contains(w) && w != k {
                        let j = choose|j: int| 0 <= j < t1.len() && #[trigger] t1[j] == w;
                        assert(t0[j] == w);
                    }
                    if before.contains(w) {
                        let j = choose|j: int| 0 <= j < t0.len() && #[trigger] t0[j] == w;
                        assert(t1[j] == w);
                    }
                    if w == k {
                        assert(ks.take(i + 1)[i as int] == w);
                    }
                }
                if k.len() > 0 {
                    assert(after =~= before.insert(k));
                } else {
                    assert(after =~= before);
                }
                assert forall|w: Seq<char>|
                    is_word(trie.node_words(), w) <==> prefix_closure(after).contains(w) by {
                    assert(is_word(pre, w) == prefix_closure(before).contains(w));
                    assert(is_word(trie.node_words(), w) == (is_word(pre, w) || (k.len() > 0
                        && is_prefix(w, k))));
                    if prefix_closure(after).contains(w) && w.len() > 0 {
                        let kk = choose|kk: Seq<char>| after.contains(kk) && is_prefix(w, kk);
                        if kk != k {
                            assert(prefix_closure(before).contains(w));
                        }
                    }
                    if prefix_closure(before).contains(w) && w.len() > 0 {
                        let kk = choose|kk: Seq<char>| before.contains(kk) && is_prefix(w, kk);
                        assert(after.contains(kk));
                    }
                    if k.len() > 0 && is_prefix(w, k) {
                        assert(after.contains(k));
                    }
                }
            }
        }
        proof {
            assert(ks.take(keywords@.len() as int) =~= ks);
        }
        let ghost pre_trie = trie;
        trie.build_suffix_links();
        proof {
            Trie::lemma_same_shape(pre_trie, trie);
            assert forall|w: Seq<char>|
                is_word(trie.node_words(), w) <==> prefix_closure(keyword_set(ks)).contains(w) by {
                assert(is_word(pre_trie.node_words(), w) <==> prefix_closure(
                    keyword_set(ks.take(keywords@.len() as int)),
                ).contains(w));
            }
            assert forall|k: Seq<char>|
                #[trigger] trie.keywords().contains(k) <==> (k.len() > 0 && ks.contains(k)) by {
                assert(keyword_set(ks).contains(k) == (k.len() > 0 && ks.contains(k)));
            }
            assert forall|w: Seq<char>|
                (exists|i: int| 0 <= i < trie.node_words().len() && #[trigger] trie.node_words()[i]
                    == w) <==> (w.len() == 0 || exists|j: int|
                    0 <= j < keywords@.len() && w.len() <= (#[trigger] keywords@[j])@.len()
                        && keywords@[j]@.take(w.len() as int) == w) by {
                let pc = prefix_closure(keyword_set(ks));
                assert(is_word(trie.node_words(), w) <==> pc.contains(w));
                if pc.contains(w) && w.len() > 0 {
                    let kk = choose|kk: Seq<char>| keyword_set(ks).contains(kk) && is_prefix(w, kk);
                    let j = choose|j: int| 0 <= j < ks.len() && ks[j] == kk;
                    assert(keywords@[j]@ == kk);
                }
                if w.len() > 0 && exists|j: int|
                    0 <= j < keywords@.len() && w.len() <= (#[trigger] keywords@[j])@.len()
                        && keywords@[j]@.take(w.len() as int) == w {
                    let j = choose|j: int|
                        0 <= j < keywords@.len() && w.len() <= (#[trigger] keywords@[j])@.len()
                            && keywords@[j]@.take(w.len() as int) == w;
                    let kk = keywords@[j]@;
                    assert(ks[j] == kk);
                    assert(kk.len() > 0);
                    assert(keyword_set(ks).contains(kk));
                    assert(is_prefix(w, kk));
                }
                if w.len() == 0 {
                    assert(pc.contains(w));
                }
            }
        }
        trie
    }

    /// The node with the given id.
    pub fn get_node(&self, node_id: NodeId) -> (node: &TrieNode)
        requires
            self.wf(),
            node_id < self.node_count(),
        ensures
            forall|c: char|
                #![trigger node.children@.contains_key(c as u32)]
                node.children@.contains_key(c as u32) <==> is_word(
                    self.node_words(),
                    self.node_words()[node_id as int].push(c),
                ),
            forall|c: char|
                #![trigger node.children@[c as u32]]
                node.children@.contains_key(c as u32) ==> node.children@[c as u32]
                    < self.node_count() && self.node_words()[node.children@[c as u32] as int]
                    == self.node_words()[node_id as int].push(c),
            forall|key: u32|
                #[trigger] node.children@.contains_key(key) ==> node.children@[key]
                    < self.node_count() && (self.node_words()[node.children@[key] as int].last()
                    as u32) == key,
            node.end_length is Some <==> self.keywords().contains(
                self.node_words()[node_id as int],
            ),
            node.end_length matches Some(l) ==> l == encode_utf8(
                self.node_words()[node_id as int],
            ).len(),
    {
        let node = &self.trie_nodes[node_id];
        proof {
            self.lemma_shape();
            reveal(Trie::shape_wf);
            assert forall|c: char| node.children@.contains_key(c as u32) <==> is_word(
                self.node_words(),
                self.node_words()[node_id as int].push(c),
            ) by {
                self.lemma_child_lookup(node_id as int, c);
            }
            assert forall|c: char| node.children@.contains_key(c as u32) implies node.children@[c
                as u32] < self.node_count() && self.node_words()[node.children@[c as u32] as int]
                == self.node_words()[node_id as int].push(c) by {
                self.lemma_child_lookup(node_id as int, c);
            }

        }
        node
    }

    /// The child of node `node_id` for `character`, if it has one.
    pub fn character_at_node(&self, node_id: NodeId, character: char) -> (child: Option<&NodeId>)
        requires
            self.wf(),
            node_id < self.node_count(),
        ensures
            child is Some <==> is_word(
                self.node_words(),
                self.node_words()[node_id as int].push(character),
            ),
            child matches Some(j) ==> *j < self.node_count() && self.node_words()[*j as int]
                == self.node_words()[node_id as int].push(character),
    {
        self.get_node(node_id).children.get(&(character as u32))
    }

    /// The suffix link of node `node_id`: the node of the longest proper suffix
    /// of its word that the trie spells.
    pub fn get_suffix(&self, node_id: NodeId) -> (suffix: NodeId)
        requires
            self.wf(),
            node_id < self.node_count(),
        ensures
            suffix < self.node_count(),
            is_suffix_link(self.node_words(), node_id as int, suffix as int),
    {
        self.suffix_links[node_id]
    }

    /// The length in bytes of the keyword that ends at node `node_id`, if one does.
    pub fn get_end(&self, node_id: NodeId) -> (end: Option<usize>)
        requires
            self.wf(),
            node_id < self.node_count(),
        ensures
            end is Some <==> self.keywords().contains(self.node_words()[node_id as int]),
            end matches Some(l) ==> l == encode_utf8(self.node_words()[node_id as int]).len(),
    {
        self.get_node(node_id).end_length
    }

    /// The output link of node `node_id`: the node of the longest proper suffix
    /// of its word that is a keyword, if there is one.
    pub fn get_output(&self, node_id: NodeId) -> (output: Option<NodeId>)
        requires
            self.wf(),
            node_id < self.node_count(),
        ensures
            opt_nat(output) == self.output_links_view()[node_id as int],
            is_output_link(self.node_words(), self.keywords(), node_id as int, opt_nat(output)),
            output matches Some(o) ==> o < self.node_count(),
    {
        self.output_links[node_id]
    }

    /// The node reached from the root by following the characters of `path`, if
    /// the trie spells `path`.
    pub fn follow(&self, path: &str) -> (node: Option<NodeId>)
        requires
            self.wf(),
        ensures
            node is Some <==> is_word(self.node_words(), path@),
            node matches Some(i) ==> i < self.node_count() && self.node_words()[i as int]
                == path@,
    {
        let mut id: NodeId = 0;
        proof {
            self.lemma_shape();
            assert(path@.take(0) =~= self.node_words()[0]);
        }
        for character in it: path.chars()
            invariant
                it.seq() == path@,
                self.wf(),
                id < self.node_count(),
                self.node_words()[id as int] == path@.take(it.index() as int),
        {
            let ghost k = it.index();
            proof {
                assert(path@.take(k + 1) =~= path@.take(k as int).push(character));
            }
            match self.character_at_node(id, character) {
                Some(next) => {
                    id = *next;
                },
                None => {
                    proof {
                        self.lemma_shape();
                        if is_word(self.node_words(), path@) {
                            lemma_prefix_is_word(
                                self.node_words(),
                                self.node_parents(),
                                path@,
                                k + 1,
                            );
                        }
                    }
                    return None;
                },
            }
        }
        proof {
            assert(path@.take(path@.len() as int) =~= path@);
        }
        Some(id)
    }

    /// The facts about a well-formed trie that a search relies on.
    pub proof fn lemma_wf(&self)
        requires
            self.wf(),
        ensures
            outputs_wf(self.node_words(), self.node_parents(), self.keywords(), self.output_links_view()),
            self.node_count() == self.node_words().len(),
    {
        self.lemma_shape();
        assert forall|i: int| 0 <= i < self.words@.len() implies is_output_link(
            self.words@,
            self.keywords(),
            i,
            #[trigger] self.output_links_view()[i],
        ) by {
            assert(self.output_links_view()[i] == opt_nat(self.output_links@[i]));
        }
    }
}

impl Clone for Trie {
    /// A copy of the trie, with the same nodes, words and links.
    fn clone(&self) -> (trie: Self)
        ensures
            trie.node_words() == self.node_words(),
            trie.node_parents() == self.node_parents(),
            self.wf() ==> trie.wf() && trie.keywords() == self.keywords(),
    {
        let trie = Trie {
            trie_nodes: self.trie_nodes.clone(),
            suffix_links: self.suffix_links.clone(),
            output_links: self.output_links.clone(),
            words: self.words,
            parents: self.parents,
        };
        proof {
            assert forall|i: int| 0 <= i < self.trie_nodes@.len() implies (#[trigger] trie.trie_nodes@[i]).children@
                == self.trie_nodes@[i].children@ && trie.trie_nodes@[i].end_length
                == self.trie_nodes@[i].end_length by {
                assert(vstd::pervasive::cloned(self.trie_nodes[i], trie.trie_nodes[i]));
            }
            assert(trie.suffix_links@ =~= self.suffix_links@);
            assert(trie.output_links@ =~= self.output_links@);

            if self.structure_wf() {
                reveal(Trie::shape_wf);
                assert(trie.children_consistent());
                assert forall|w: Seq<char>| trie.keywords().contains(w) <==> self.keywords().contains(
                    w,
                ) by {
                    if trie.keywords().contains(w) {
                        let i = choose|i: int|
                            0 <= i < trie.words@.len() && trie.words@[i] == w
                                && trie.trie_nodes@[i].end_length is Some;
                        assert(self.trie_nodes@[i].end_length is Some);
                    }
                    if self.keywords().contains(w) {
                        let i = choose|i: int|
                            0 <= i < self.words@.len() && self.words@[i] == w
                                && self.trie_nodes@[i].end_length is Some;
                        assert(trie.trie_nodes@[i].end_length is Some);
                    }
                }
                assert(trie.keywords() =~= self.keywords());
            }
            assert(trie.output_links_view() =~= self.output_links_view());
        }
        trie
    }
}

} // verus!
