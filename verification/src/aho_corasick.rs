//! The searcher: a set of keywords that can be searched for in any text.
use vstd::prelude::*;

use crate::matches::Matches;
use crate::model::keyword_set;
use crate::trie::Trie;

verus! {

/// A set of keywords that can be searched for in any text.
///
/// Build once with [`AhoCorasick::new`]. Call [`AhoCorasick::find_matches`] to
/// search a text; each call of [`Matches::next`] gives the next match.
pub struct AhoCorasick {
    trie: Trie,
}

impl AhoCorasick {
    /// The searcher's automaton is well formed.
    #[verifier::type_invariant]
    spec fn inv(&self) -> bool {
        self.trie.wf()
    }

    /// The keywords searched for.
    pub closed spec fn keywords(&self) -> Set<Seq<char>> {
        self.trie.keywords()
    }

    /// Builds the automaton from a set of keywords.
    ///
    /// Construction is O(m) where m is the total length of all keywords.
    /// Empty keywords are ignored.
    pub fn new(keywords: &[&str]) -> (ac: Self)
        ensures
            ac.keywords() == keyword_set(keywords@.map_values(|k: &str| k@)),
            forall|k: Seq<char>|
                #[trigger] ac.keywords().contains(k) <==> (k.len() > 0 && keywords@.map_values(
                    |s: &str| s@,
                ).contains(k)),
    {
        let trie = Trie::build_trie(keywords);
        Self { trie }
    }

    /// Returns the search of `corpus` for the keywords.
    ///
    /// Matches are given in the order their final character appears in the
    /// text. If multiple keywords end at the same position, the longest match
    /// is given first followed by shorter ones.
    pub fn find_matches<'a>(&self, corpus: &'a str) -> (matches: Matches<'a, '_>)
        ensures
            matches.wf(),
            matches.text() == corpus@,
            matches.keywords() == self.keywords(),
            matches.emitted() == 0,
    {
        proof {
            use_type_invariant(self);
        }
        Matches::new(corpus, &self.trie)
    }
}

impl Clone for AhoCorasick {
    fn clone(&self) -> (ac: Self)
        ensures
            ac.keywords() == self.keywords(),
    {
        proof {
            use_type_invariant(self);
        }
        AhoCorasick { trie: self.trie.clone() }
    }
}

} // verus!
