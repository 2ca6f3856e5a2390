//! Matches of keywords in a text, produced one at a time.
use vstd::prelude::*;
use vstd::string::StringSliceAdditionalSpecFns;
use vstd::utf8::encode_utf8;

use crate::model::{
    all_matches, is_longest_word_suffix, is_output_link, is_suffix, lemma_matches_at_node,
    lemma_matches_prefix, lemma_suffix_trans, lemma_suffix_of_drop_first, lemma_transition_fail,
    lemma_transition_found, lemma_transition_root, lemma_transition_start, matches_ending_at,
    matches_up_to, output_chain, outputs_wf, transition_search,
};
use crate::trie::{NodeId, Trie};
use crate::utf8::{
    byte_offset, lemma_byte_offset_mono, lemma_byte_offset_step, lemma_encode_injective,
    lemma_char_width_bounds, lemma_encode_split, lemma_offset_diff, lemma_offset_is_char_boundary,
    utf8_width, char_width,
};

verus! {

broadcast use vstd::string::group_string_axioms;

/// The characters `i..j` of `text` are the match that `from_match_end` cuts out:
/// they end `char_width(character)` bytes after byte offset `end`, and they take
/// `length` bytes.
pub open spec fn is_match_end(
    text: Seq<char>,
    i: int,
    j: int,
    length: usize,
    end: usize,
    character: char,
) -> bool {
    &&& 0 <= i < j <= text.len()
    &&& byte_offset(text, j) == end + char_width(character)
    &&& byte_offset(text, j) - byte_offset(text, i) == length
}

/// A match found in the search corpus.
#[derive(Clone, Debug)]
pub struct Match<'a> {
    /// The byte offset of the first character of the match within the corpus.
    ///
    /// For ASCII text this equals the character index but for text containing
    /// multi-byte UTF-8 characters the byte offset and character index will be different.
    pub start: usize,
    /// The matched text (borrowed from the corpus).
    pub text: &'a str,
}

impl<'a> Match<'a> {
    /// The match of `length` bytes whose last character is `character`, found at
    /// byte offset `end` of `corpus`: the bytes from `end + character.len_utf8() - length`
    /// up to `end + character.len_utf8()`.
    pub fn from_match_end(corpus: &'a str, length: usize, end: usize, character: char) -> (m: Self)
        requires
            encode_utf8(corpus@).len() <= usize::MAX,
            exists|i: int, j: int| is_match_end(corpus@, i, j, length, end, character),
        ensures
            forall|i: int, j: int|
                is_match_end(corpus@, i, j, length, end, character) ==> m.start == byte_offset(
                    corpus@,
                    i,
                ) && m.text@ == corpus@.subrange(i, j),
    {
        let ghost t = corpus@;
        let ghost end_at = end;
        let ghost (i, j) = choose|i: int, j: int| is_match_end(t, i, j, length, end, character);
        proof {
            lemma_byte_offset_mono(t, i, j);
            lemma_byte_offset_mono(t, j, t.len() as int);
            lemma_char_width_bounds(character);
        }
        let end = end + utf8_width(character) - 1;
        let start = end - (length - 1);
        proof {
            assert(start == byte_offset(t, i));
            lemma_offset_is_char_boundary(t, i);
            lemma_encode_split(t, i);
        }
        let (_, rest) = corpus.split_at(start);
        proof {
            assert(rest.spec_bytes() == encode_utf8(t.skip(i)));
            lemma_encode_injective(rest@, t.skip(i));
            lemma_offset_diff(t, i, j);
            lemma_offset_is_char_boundary(t.skip(i), j - i);
            lemma_encode_split(t.skip(i), j - i);
            assert(t.skip(i).take(j - i) =~= t.subrange(i, j));
        }
        let (text, _) = rest.split_at(end + 1 - start);
        proof {
            assert(text.spec_bytes() == encode_utf8(t.subrange(i, j)));
            lemma_encode_injective(text@, t.subrange(i, j));
            assert forall|i2: int, j2: int|
                is_match_end(t, i2, j2, length, end_at, character) implies i2 == i && j2 == j by {
                lemma_match_end_unique(t, i, j, i2, j2, length, end_at, character);
            }
        }
        Self { start, text }
    }
}

/// The character range of a match is determined by its end and its length.
proof fn lemma_match_end_unique(
    t: Seq<char>,
    i: int,
    j: int,
    i2: int,
    j2: int,
    length: usize,
    end: usize,
    character: char,
)
    requires
        is_match_end(t, i, j, length, end, character),
        is_match_end(t, i2, j2, length, end, character),
    ensures
        i == i2,
        j == j2,
{
    if j < j2 {
        lemma_byte_offset_mono(t, j, j2);
    }
    if j2 < j {
        lemma_byte_offset_mono(t, j2, j);
    }
    if i < i2 {
        lemma_byte_offset_mono(t, i, i2);
    }
    if i2 < i {
        lemma_byte_offset_mono(t, i2, i);
    }
}

/// The matches of the nodes on an output chain, all ending at character index `e`.
pub open spec fn chain_matches(
    words: Seq<Seq<char>>,
    outs: Seq<Option<nat>>,
    q: int,
    e: int,
) -> Seq<(int, int)> {
    output_chain(words, outs, q).map_values(|o: int| (e - words[o].len(), e))
}

/// A search through a text for the keywords of a trie.
///
/// Each call of [`Matches::next`] gives the next match, in the order of
/// [`all_matches`]: by where the match ends, longest first among matches that
/// end at the same character.
#[derive(Clone)]
pub struct Matches<'a, 'b> {
    corpus: &'a str,
    trie: &'b Trie,
    /// Byte offset of the next character to read.
    byte_pos: usize,
    pointer: NodeId,
    pending_output: Option<(NodeId, usize, char)>,
    /// Number of characters read.
    position: Ghost<nat>,
    /// Number of matches returned.
    emitted: Ghost<nat>,
}

impl<'a, 'b> Matches<'a, 'b> {
    /// The text searched.
    pub closed spec fn text(&self) -> Seq<char> {
        self.corpus@
    }

    /// The keywords searched for.
    pub closed spec fn keywords(&self) -> Set<Seq<char>> {
        self.trie.keywords()
    }

    /// The number of matches returned so far.
    pub closed spec fn emitted(&self) -> nat {
        self.emitted@
    }

    /// The reading position agrees with the text and the trie.
    spec fn base_ok(&self) -> bool {
        let t = self.corpus@;
        &&& self.trie.wf()
        &&& encode_utf8(t).len() <= usize::MAX
        &&& self.position@ <= t.len()
        &&& self.byte_pos == byte_offset(t, self.position@ as int)
    }

    /// Node `p` is the longest trie word that ends where the reading position is.
    spec fn pointer_ok(&self, p: int) -> bool {
        is_longest_word_suffix(
            self.trie.node_words(),
            self.corpus@.take(self.position@ as int),
            p,
        )
    }

    /// The matches returned so far, and the pending output chain, account for all
    /// matches that end at or before the reading position.
    spec fn pending_ok(&self) -> bool {
        let t = self.corpus@;
        let kws = self.trie.keywords();
        let pos = self.position@;
        let upto = matches_up_to(t, kws, pos);
        match self.pending_output {
            None => self.emitted@ == upto.len(),
            Some((q, tp, ch)) => {
                &&& pos > 0
                &&& q < self.trie.node_count()
                &&& tp == byte_offset(t, pos - 1)
                &&& ch == t[pos - 1]
                &&& is_suffix(self.trie.node_words()[q as int], t.take(pos as int))
                &&& self.emitted@ <= upto.len()
                &&& upto.skip(self.emitted@ as int) == chain_matches(
                    self.trie.node_words(),
                    self.trie.output_links_view(),
                    q as int,
                    pos as int,
                )
            },
        }
    }

    /// The search state is consistent.
    pub closed spec fn wf(&self) -> bool {
        &&& self.base_ok()
        &&& self.pointer_ok(self.pointer as int)
        &&& self.pending_ok()
    }

    /// Starts a search of `corpus` for the keywords of `trie`.
    pub fn new(corpus: &'a str, trie: &'b Trie) -> (m: Self)
        requires
            trie.wf(),
        ensures
            m.wf(),
            m.text() == corpus@,
            m.keywords() == trie.keywords(),
            m.emitted() == 0,
    {
        let byte_len = corpus.as_bytes().len();
        let m = Self {
            corpus,
            trie,
            byte_pos: 0,
            pointer: 0,
            pending_output: None,
            position: Ghost(0),
            emitted: Ghost(0),
        };
        proof {
            assert(byte_len == encode_utf8(corpus@).len());
            assert(corpus@.take(0) =~= Seq::<char>::empty());
            trie.lemma_wf();
            let words = trie.node_words();
            vstd::utf8::encode_utf8_valid_utf8(corpus@);
            assert(words[0].len() == 0);
            crate::model::lemma_empty_suffix(words[0], corpus@.take(0));
        }
        m
    }
}

impl<'a, 'b> Matches<'a, 'b> {
    /// Reads the next character of the corpus with its byte offset.
    fn next_char_index(&mut self) -> (next: Option<(usize, char)>)
        requires
            old(self).base_ok(),
        ensures
            final(self).base_ok(),
            final(self).corpus == old(self).corpus,
            final(self).trie == old(self).trie,
            final(self).pointer == old(self).pointer,
            final(self).pending_output == old(self).pending_output,
            final(self).emitted == old(self).emitted,
            old(self).position@ < old(self).corpus@.len() ==> {
                &&& final(self).position@ == old(self).position@ + 1
                &&& next == Some(
                    (
                        byte_offset(old(self).corpus@, old(self).position@ as int) as usize,
                        old(self).corpus@[old(self).position@ as int],
                    ),
                )
            },
            old(self).position@ >= old(self).corpus@.len() ==> {
                &&& final(self).position@ == old(self).position@
                &&& next is None
            },
    {
        let ghost t = self.corpus@;
        let ghost pos = self.position@ as int;
        let total = self.corpus.as_bytes().len();
        proof {
            lemma_byte_offset_mono(t, pos, t.len() as int);
            assert(t.take(t.len() as int) =~= t);
        }
        if self.byte_pos < total {
            proof {
                if pos >= t.len() {
                    assert(pos == t.len());
                }
                lemma_offset_is_char_boundary(t, pos);
                lemma_encode_split(t, pos);
            }
            let (_, rest) = self.corpus.split_at(self.byte_pos);
            proof {
                assert(rest.spec_bytes() == encode_utf8(t.skip(pos)));
                lemma_encode_injective(rest@, t.skip(pos));
            }
            let mut chars = rest.chars();
            match chars.next() {
                Some(character) => {
                    let at = self.byte_pos;
                    proof {
                        assert(character == t[pos]);
                        lemma_byte_offset_step(t, pos);
                        lemma_byte_offset_mono(t, pos + 1, t.len() as int);
                    }
                    self.byte_pos = at + utf8_width(character);
                    self.position = Ghost((pos + 1) as nat);
                    Some((at, character))
                },
                None => None,
            }
        } else {
            None
        }
    }
}

/// An occurrence of the nonempty word `w` that ends at character `pos` is a
/// match whose last character `pos - 1` sits at byte offset `tp`.
proof fn lemma_occurrence_match_end(t: Seq<char>, pos: int, w: Seq<char>, length: usize, tp: usize)
    requires
        0 < w.len(),
        0 < pos <= t.len(),
        is_suffix(w, t.take(pos)),
        length == encode_utf8(w).len(),
        tp == byte_offset(t, pos - 1),
    ensures
        is_match_end(t, pos - w.len(), pos, length, tp, t[pos - 1]),
        w == t.subrange(pos - w.len(), pos),
{
    assert(t.take(pos).skip(pos - w.len()) =~= t.subrange(pos - w.len(), pos));
    lemma_offset_diff(t, pos - w.len(), pos);
    lemma_byte_offset_step(t, pos - 1);
}

impl<'a, 'b> Matches<'a, 'b> {
    /// The match for the keyword at node `pointer`, ending with the character
    /// just read, if a keyword ends at that node.
    fn get_output(&self, pointer: NodeId, text_pointer: usize, character: char) -> (found: Option<
        Match<'a>,
    >)
        requires
            self.base_ok(),
            pointer < self.trie.node_count(),
            self.position@ > 0,
            text_pointer == byte_offset(self.corpus@, self.position@ - 1),
            character == self.corpus@[self.position@ - 1],
            is_suffix(self.trie.node_words()[pointer as int], self.corpus@.take(self.position@ as int)),
        ensures
            found is Some <==> self.trie.keywords().contains(self.trie.node_words()[pointer as int]),
            found matches Some(m) ==> {
                let pos = self.position@ as int;
                let l = self.trie.node_words()[pointer as int].len() as int;
                &&& m.start == byte_offset(self.corpus@, pos - l)
                &&& m.text@ == self.corpus@.subrange(pos - l, pos)
            },
    {
        let length = self.trie.get_end(pointer)?;
        proof {
            self.trie.lemma_wf();
            lemma_occurrence_match_end(
                self.corpus@,
                self.position@ as int,
                self.trie.node_words()[pointer as int],
                length,
                text_pointer,
            );
        }
        Some(Match::from_match_end(self.corpus, length, text_pointer, character))
    }

    /// Gives the next match on the pending output chain, if there is one.
    fn next_pending(&mut self) -> (found: Option<Match<'a>>)
        requires
            old(self).base_ok(),
            old(self).pending_ok(),
        ensures
            final(self).base_ok(),
            final(self).pending_ok(),
            final(self).corpus == old(self).corpus,
            final(self).trie == old(self).trie,
            final(self).byte_pos == old(self).byte_pos,
            final(self).pointer == old(self).pointer,
            final(self).position == old(self).position,
            ({
                let t = old(self).corpus@;
                let upto = matches_up_to(t, old(self).trie.keywords(), old(self).position@);
                let k = old(self).emitted@;
                if k < upto.len() {
                    &&& final(self).emitted@ == k + 1
                    &&& found matches Some(m)
                    &&& m.start == byte_offset(t, upto[k as int].0)
                    &&& m.text@ == t.subrange(upto[k as int].0, upto[k as int].1)
                } else {
                    &&& final(self).emitted@ == k
                    &&& found is None
                    &&& final(self).pending_output is None
                }
            }),
            match old(self).pending_output {
                None => final(self).pending_output is None && found is None,
                Some((q, tp, ch)) => match old(self).trie.output_links_view()[q as int] {
                    None => final(self).pending_output is None && found is None,
                    Some(o) => final(self).pending_output == Some((o as NodeId, tp, ch))
                        && found is Some,
                },
            },
    {
        let ghost t = self.corpus@;
        let ghost pos = self.position@ as int;
        let ghost k = self.emitted@ as int;
        let ghost upto = matches_up_to(t, self.trie.keywords(), pos as nat);
        let ghost words = self.trie.node_words();
        let ghost outs = self.trie.output_links_view();
        proof {
            self.trie.lemma_wf();
        }
        let (output_id, text_pointer, character) = self.pending_output.take()?;
        let ghost q = output_id as int;
        let next_output = match self.trie.get_output(output_id) {
            Some(o) => o,
            None => {
                proof {
                    assert(output_chain(words, outs, q) =~= Seq::<int>::empty());
                    assert(upto.skip(k) =~= Seq::<(int, int)>::empty());
                    assert(upto.skip(k).len() == upto.len() - k);
                }
                return None;
            },
        };
        let ghost o = next_output as int;
        proof {
            assert(is_output_link(words, self.trie.keywords(), q, Some(o as nat)));
            assert(words[q].len() > 0);
            lemma_suffix_of_drop_first(words[o], words[q]);
            lemma_suffix_trans(words[o], words[q], t.take(pos));
            assert(output_chain(words, outs, q) == seq![o] + output_chain(words, outs, o));
            assert(chain_matches(words, outs, q, pos)[0] == (pos - words[o].len(), pos));
            assert(chain_matches(words, outs, q, pos).len() >= 1);
            assert(upto.skip(k).len() == upto.len() - k);
            assert(k < upto.len());
            assert(upto.skip(k)[0] == upto[k]);
            assert(upto.skip(k + 1) =~= upto.skip(k).skip(1));
            assert(chain_matches(words, outs, q, pos).skip(1) =~= chain_matches(words, outs, o, pos));
        }
        self.pending_output = Some((next_output, text_pointer, character));
        self.emitted = Ghost((k + 1) as nat);
        self.get_output(next_output, text_pointer, character)
    }
}

impl<'a, 'b> Matches<'a, 'b> {
    /// Returns the next match, or `None` once every match has been returned.
    ///
    /// Matches come in the order of [`all_matches`]: by the position of their
    /// last character, and longest first among matches that end together.
    pub fn next(&mut self) -> (found: Option<Match<'a>>)
        requires
            old(self).wf(),
        ensures
            final(self).wf(),
            final(self).text() == old(self).text(),
            final(self).keywords() == old(self).keywords(),
            final(self).emitted() <= all_matches(final(self).text(), final(self).keywords()).len(),
            ({
                let t = old(self).text();
                let all = all_matches(t, old(self).keywords());
                let k = old(self).emitted();
                if k < all.len() {
                    &&& final(self).emitted() == k + 1
                    &&& found matches Some(m)
                    &&& m.start == byte_offset(t, all[k as int].0)
                    &&& m.text@ == t.subrange(all[k as int].0, all[k as int].1)
                } else {
                    &&& final(self).emitted() == k
                    &&& found is None
                }
            }),
    {
        let ghost t = self.corpus@;
        let ghost kws = self.trie.keywords();
        let ghost words = self.trie.node_words();
        let ghost parents = self.trie.node_parents();
        let ghost outs = self.trie.output_links_view();
        let ghost all = all_matches(t, kws);
        let ghost k = self.emitted@ as int;
        proof {
            self.trie.lemma_wf();
            lemma_matches_prefix(t, kws, self.position@, t.len());
        }
        if let Some(found_match) = self.next_pending() {
            return Some(found_match);
        }
        let mut found_match: Option<Match<'a>> = None;
        let mut pointer = self.pointer;
        loop
            invariant_except_break
                self.pending_output is None,
                self.emitted@ == k,
                found_match is None,
            invariant
                self.base_ok(),
                self.corpus@ == t,
                self.trie.keywords() == kws,
                self.trie.node_words() == words,
                self.trie.node_parents() == parents,
                self.trie.output_links_view() == outs,
                outputs_wf(words, parents, kws, outs),
                self.trie.node_count() == words.len(),
                all == all_matches(t, kws),
                pointer < self.trie.node_count(),
                self.pointer_ok(pointer as int),
                self.pending_ok(),
                self.pending_output is None ==> self.emitted@ == matches_up_to(
                    t,
                    kws,
                    self.position@,
                ).len(),
                k <= all.len(),
            ensures
                found_match is None ==> self.emitted@ == k && k == all.len(),
                found_match matches Some(m) ==> {
                    &&& k < all.len()
                    &&& self.emitted@ == k + 1
                    &&& m.start == byte_offset(t, all[k].0)
                    &&& m.text@ == t.subrange(all[k].0, all[k].1)
                },
            decreases t.len() - self.position@,
        {
            let ghost pos0 = self.position@ as int;
            let (text_pointer, character) = match self.next_char_index() {
                Some(x) => x,
                None => {
                    proof {
                        assert(pos0 == t.len());
                        assert(all == matches_up_to(t, kws, pos0 as nat));
                    }
                    break ;
                },
            };
            let ghost pos = pos0 + 1;
            let ghost prev_text = t.take(pos0);
            proof {
                assert(prev_text.push(character) =~= t.take(pos));
                lemma_transition_start(words, prev_text, character, pointer as int);
            }
            loop
                invariant_except_break
                    transition_search(words, prev_text, character, pointer as int),
                invariant
                    self.base_ok(),
                    self.trie.node_words() == words,
                    self.trie.node_count() == words.len(),
                    outputs_wf(words, parents, kws, outs),
                    pointer < self.trie.node_count(),
                ensures
                    pointer < self.trie.node_count(),
                    is_longest_word_suffix(words, prev_text.push(character), pointer as int),
                decreases words[pointer as int].len(),
            {
                if let Some(node_id) = self.trie.character_at_node(pointer, character) {
                    proof {
                        lemma_transition_found(
                            words,
                            parents,
                            prev_text,
                            character,
                            pointer as int,
                            *node_id as int,
                        );
                    }
                    pointer = *node_id;
                    break ;
                }
                if pointer == 0 {
                    proof {
                        lemma_transition_root(words, parents, prev_text, character);
                    }
                    break ;
                };
                let ghost q = pointer as int;
                pointer = self.trie.get_suffix(pointer);
                proof {
                    lemma_transition_fail(words, parents, prev_text, character, q, pointer as int);
                    assert(words[q].len() > 0);
                    assert(is_suffix(words[pointer as int], words[q].drop_first()));
                }
            }
            let ghost p = pointer as int;
            let ghost upto0 = matches_up_to(t, kws, pos0 as nat);
            let ghost upto = matches_up_to(t, kws, pos as nat);
            let ghost here = (if kws.contains(words[p]) {
                seq![(pos - words[p].len(), pos)]
            } else {
                Seq::<(int, int)>::empty()
            }) + chain_matches(words, outs, p, pos);
            proof {
                lemma_matches_at_node(words, parents, kws, outs, t.take(pos), p);
                assert(t.take(pos).len() == pos);
                assert(matches_ending_at(t, kws, pos as nat) =~= here);
                assert(upto == upto0 + here);
                lemma_matches_prefix(t, kws, pos as nat, t.len());
                assert(upto.len() <= all.len());
            }
            if self.trie.get_output(pointer).is_some() {
                self.pending_output = Some((pointer, text_pointer, character));
                proof {
                    assert(upto.skip(k) =~= here);
                }
            } else {
                proof {
                    assert(output_chain(words, outs, p) =~= Seq::<int>::empty());
                    assert(chain_matches(words, outs, p, pos) =~= Seq::<(int, int)>::empty());
                }
            }
            if let Some(length) = self.trie.get_end(pointer) {
                proof {
                    lemma_occurrence_match_end(t, pos, words[p], length, text_pointer);
                    assert(upto[k] == here[0]);
                    assert(all[k] == upto[k]);
                    assert(upto.skip(k + 1) =~= here.skip(1));
                    assert(here.skip(1) =~= chain_matches(words, outs, p, pos));
                }
                found_match = Some(Match::from_match_end(self.corpus, length, text_pointer, character));
                self.emitted = Ghost((k + 1) as nat);
                break ;
            }
            proof {
                assert(here =~= chain_matches(words, outs, p, pos));
            }
            if let Some(m) = self.next_pending() {
                proof {
                    assert(all[k] == upto[k]);
                }
                found_match = Some(m);
                break ;
            }
        }
        self.pointer = pointer;
        found_match
    }
}

} // verus!
