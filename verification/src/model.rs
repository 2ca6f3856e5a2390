//! The mathematical model of keyword search.
//!
//! Strings are sequences of `char`s. A trie is modelled by the word that spells
//! the path to each node (`words[i]` for node `i`) and the parent of each node.
//! Everything the search promises is stated here over plain sequences and sets.
use vstd::prelude::*;

verus! {

/// `x` is a suffix of `s`.
pub open spec fn is_suffix(x: Seq<char>, s: Seq<char>) -> bool {
    x.len() <= s.len() && s.skip(s.len() - x.len()) == x
}

/// `x` is a prefix of `s`.
pub open spec fn is_prefix(x: Seq<char>, s: Seq<char>) -> bool {
    x.len() <= s.len() && s.take(x.len() as int) == x
}

/// The keywords that a search looks for: the nonempty ones among `ks`.
pub open spec fn keyword_set(ks: Seq<Seq<char>>) -> Set<Seq<char>> {
    Set::new(|w: Seq<char>| w.len() > 0 && ks.contains(w))
}

/// The words a trie built from `kws` spells: the empty word and every prefix of a keyword.
pub open spec fn prefix_closure(kws: Set<Seq<char>>) -> Set<Seq<char>> {
    Set::new(|w: Seq<char>| w.len() == 0 || exists|k: Seq<char>| kws.contains(k) && is_prefix(w, k))
}

/// The node words after the prefixes of `k` of lengths `1..=n` are added, in
/// order of length, to a trie whose nodes spell `words`: each prefix that has no
/// node yet gets the next node id.
pub open spec fn add_prefixes(words: Seq<Seq<char>>, k: Seq<char>, n: nat) -> Seq<Seq<char>>
    decreases n,
{
    if n == 0 {
        words
    } else {
        let w = add_prefixes(words, k, (n - 1) as nat);
        if w.contains(k.take(n as int)) {
            w
        } else {
            w.push(k.take(n as int))
        }
    }
}

/// The node words of the trie built from the keywords `ks` in order: node 0 is
/// the root, and the other nodes are numbered in the order they are created.
pub open spec fn trie_words(ks: Seq<Seq<char>>) -> Seq<Seq<char>>
    decreases ks.len(),
{
    if ks.len() == 0 {
        seq![Seq::<char>::empty()]
    } else {
        add_prefixes(trie_words(ks.drop_last()), ks.last(), ks.last().len())
    }
}

/// The lengths `l <= n` for which the last `l` characters of `s` form a keyword,
/// longest first.
pub open spec fn suffix_keyword_lens(s: Seq<char>, kws: Set<Seq<char>>, n: nat) -> Seq<nat>
    decreases n,
{
    if n == 0 {
        Seq::empty()
    } else {
        let rest = suffix_keyword_lens(s, kws, (n - 1) as nat);
        if n <= s.len() && kws.contains(s.skip(s.len() - n)) {
            seq![n].add(rest)
        } else {
            rest
        }
    }
}

/// The occurrences of keywords in `t` that end just before character index `e`,
/// as character ranges `(start, end)`, longest first.
pub open spec fn matches_ending_at(t: Seq<char>, kws: Set<Seq<char>>, e: nat) -> Seq<(int, int)> {
    suffix_keyword_lens(t.take(e as int), kws, e).map_values(|l: nat| (e - l, e as int))
}

/// The occurrences of keywords in `t` that end at or before character index `e`,
/// ordered by where they end, and longest first among those that end together.
pub open spec fn matches_up_to(t: Seq<char>, kws: Set<Seq<char>>, e: nat) -> Seq<(int, int)>
    decreases e,
{
    if e == 0 {
        Seq::empty()
    } else {
        matches_up_to(t, kws, (e - 1) as nat) + matches_ending_at(t, kws, e)
    }
}

/// Every occurrence of a keyword in `t`, in the order a search reports them.
pub open spec fn all_matches(t: Seq<char>, kws: Set<Seq<char>>) -> Seq<(int, int)> {
    matches_up_to(t, kws, t.len())
}

/// Node `i` of a trie is the node of word `w`.
pub open spec fn is_word(words: Seq<Seq<char>>, w: Seq<char>) -> bool {
    exists|i: int| 0 <= i < words.len() && words[i] == w
}

/// `words` and `parents` describe a trie: node 0 is the root with the empty word,
/// every other node extends its parent's word by one character, and no two
/// nodes have the same word.
pub open spec fn word_tree(words: Seq<Seq<char>>, parents: Seq<nat>) -> bool {
    &&& words.len() == parents.len()
    &&& words.len() > 0
    &&& words[0].len() == 0
    &&& forall|i: int|
        0 < i < words.len() ==> {
            &&& parents[i] < i
            &&& (#[trigger] words[i]).len() > 0
            &&& words[parents[i] as int] == words[i].drop_last()
        }
    &&& forall|i: int, j: int|
        0 <= i < words.len() && 0 <= j < words.len() && #[trigger] words[i] == #[trigger] words[j]
            ==> i == j
}

/// In a trie whose nodes spell distinct words, a node has one suffix link.
pub proof fn lemma_suffix_link_unique(words: Seq<Seq<char>>, parents: Seq<nat>, j: int, a: int, b: int)
    requires
        word_tree(words, parents),
        0 <= j < words.len(),
        is_suffix_link(words, j, a),
        is_suffix_link(words, j, b),
    ensures
        a == b,
{
    if j != 0 {
        lemma_suffix_same_len(words[a], words[b], words[j].drop_first());
    }
}

/// In a trie whose nodes spell distinct words, a node has one output link.
pub proof fn lemma_output_link_unique(
    words: Seq<Seq<char>>,
    parents: Seq<nat>,
    kws: Set<Seq<char>>,
    j: int,
    a: Option<nat>,
    b: Option<nat>,
)
    requires
        word_tree(words, parents),
        0 <= j < words.len(),
        is_output_link(words, kws, j, a),
        is_output_link(words, kws, j, b),
    ensures
        a == b,
{
    if a is Some && b is Some {
        let x = a->0 as int;
        let y = b->0 as int;
        assert(words[x].len() == words[y].len());
        lemma_suffix_same_len(words[x], words[y], words[j].drop_first());
    }
}

/// Node `r` spells the longest word of the trie that is a suffix of `s`.
pub open spec fn is_longest_word_suffix(words: Seq<Seq<char>>, s: Seq<char>, r: int) -> bool {
    &&& 0 <= r < words.len()
    &&& is_suffix(words[r], s)
    &&& forall|i: int|
        0 <= i < words.len() && is_suffix(#[trigger] words[i], s) ==> words[i].len()
            <= words[r].len()
}

/// Node `r` is the suffix link of node `j`: the node of the longest proper suffix
/// of `j`'s word that the trie spells (the root for the root).
pub open spec fn is_suffix_link(words: Seq<Seq<char>>, j: int, r: int) -> bool {
    if j == 0 {
        r == 0
    } else {
        is_longest_word_suffix(words, words[j].drop_first(), r)
    }
}

/// `o` is the output link of node `j`: the node of the longest proper suffix of
/// `j`'s word that is a keyword, if there is one.
pub open spec fn is_output_link(
    words: Seq<Seq<char>>,
    kws: Set<Seq<char>>,
    j: int,
    o: Option<nat>,
) -> bool {
    match o {
        Some(o) => {
            &&& j != 0
            &&& o < words.len()
            &&& kws.contains(words[o as int])
            &&& is_suffix(words[o as int], words[j].drop_first())
            &&& forall|i: int|
                0 <= i < words.len() && kws.contains(#[trigger] words[i]) && is_suffix(
                    words[i],
                    words[j].drop_first(),
                ) ==> words[i].len() <= words[o as int].len()
        },
        None => j != 0 ==> forall|i: int|
            0 <= i < words.len() && kws.contains(#[trigger] words[i]) ==> !is_suffix(
                words[i],
                words[j].drop_first(),
            ),
    }
}

/// The loop that follows suffix links from node `q`, looking for a node with a
/// child for `c`, has not yet passed the answer for the text `s` followed by `c`.
pub open spec fn transition_search(words: Seq<Seq<char>>, s: Seq<char>, c: char, q: int) -> bool {
    &&& 0 <= q < words.len()
    &&& is_suffix(words[q], s)
    &&& forall|i: int|
        0 <= i < words.len() && is_suffix(#[trigger] words[i], s) && is_word(
            words,
            words[i].push(c),
        ) ==> words[i].len() <= words[q].len()
}

// ---------------------------------------------------------------------------
// Suffix algebra
// ---------------------------------------------------------------------------
/// Two suffixes of the same text: the shorter is a suffix of the longer.
pub proof fn lemma_suffix_of_suffix(x: Seq<char>, y: Seq<char>, s: Seq<char>)
    requires
        is_suffix(x, s),
        is_suffix(y, s),
        x.len() <= y.len(),
    ensures
        is_suffix(x, y),
{
    assert(y.skip(y.len() - x.len()) =~= s.skip(s.len() - x.len()));
}

/// A suffix of a suffix is a suffix.
pub proof fn lemma_suffix_trans(x: Seq<char>, y: Seq<char>, s: Seq<char>)
    requires
        is_suffix(x, y),
        is_suffix(y, s),
    ensures
        is_suffix(x, s),
{
    assert(s.skip(s.len() - x.len()) =~= y.skip(y.len() - x.len()));
}

/// Two suffixes of the same length are equal.
pub proof fn lemma_suffix_same_len(x: Seq<char>, y: Seq<char>, s: Seq<char>)
    requires
        is_suffix(x, s),
        is_suffix(y, s),
        x.len() == y.len(),
    ensures
        x == y,
{
}

/// A suffix shorter than `s` is a suffix of `s` without its first character.
pub proof fn lemma_proper_suffix(x: Seq<char>, s: Seq<char>)
    requires
        is_suffix(x, s),
        x.len() < s.len(),
    ensures
        is_suffix(x, s.drop_first()),
{
    assert(s.drop_first().skip(s.drop_first().len() - x.len()) =~= s.skip(s.len() - x.len()));
}

/// A suffix of `s` without its first character is a suffix of `s`.
pub proof fn lemma_suffix_of_drop_first(x: Seq<char>, s: Seq<char>)
    requires
        s.len() > 0,
        is_suffix(x, s.drop_first()),
    ensures
        is_suffix(x, s),
        x.len() < s.len(),
{
    assert(s.drop_first().skip(s.drop_first().len() - x.len()) =~= s.skip(s.len() - x.len()));
}

/// Extending a suffix and its text by the same character keeps it a suffix.
pub proof fn lemma_suffix_push(x: Seq<char>, s: Seq<char>, c: char)
    requires
        is_suffix(x, s),
    ensures
        is_suffix(x.push(c), s.push(c)),
{
    assert(s.push(c).skip(s.push(c).len() - x.push(c).len()) =~= x.push(c));
}

/// A nonempty suffix of `s` followed by `c` is a suffix of `s` followed by its last character.
pub proof fn lemma_suffix_pop(y: Seq<char>, s: Seq<char>, c: char)
    requires
        is_suffix(y, s.push(c)),
        y.len() > 0,
    ensures
        is_suffix(y.drop_last(), s),
        y.last() == c,
        y == y.drop_last().push(c),
{
    assert(s.skip(s.len() - y.drop_last().len()) =~= y.drop_last());
    assert(y =~= y.drop_last().push(c));
}

/// The empty word is a suffix of everything.
pub proof fn lemma_empty_suffix(x: Seq<char>, s: Seq<char>)
    requires
        x.len() == 0,
    ensures
        is_suffix(x, s),
{
    assert(s.skip(s.len() - x.len()) =~= x);
}

// ---------------------------------------------------------------------------
// Tries
// ---------------------------------------------------------------------------
/// Only the root spells the empty word.
pub proof fn lemma_root_only_empty(words: Seq<Seq<char>>, parents: Seq<nat>, i: int)
    requires
        word_tree(words, parents),
        0 <= i < words.len(),
        words[i].len() == 0,
    ensures
        i == 0,
{
    if i != 0 {
        assert(words[i].len() > 0);
    }
}

/// The words of a trie are closed under taking prefixes.
pub proof fn lemma_drop_last_is_word(words: Seq<Seq<char>>, parents: Seq<nat>, i: int)
    requires
        word_tree(words, parents),
        0 <= i < words.len(),
        words[i].len() > 0,
    ensures
        is_word(words, words[i].drop_last()),
        0 <= parents[i] < words.len(),
        words[parents[i] as int] == words[i].drop_last(),
{
    assert(i != 0);
    let p = parents[i] as int;
    assert(words[p] == words[i].drop_last());
}

/// The words of a trie are closed under taking prefixes.
pub proof fn lemma_prefix_is_word(words: Seq<Seq<char>>, parents: Seq<nat>, w: Seq<char>, k: int)
    requires
        word_tree(words, parents),
        is_word(words, w),
        0 <= k <= w.len(),
    ensures
        is_word(words, w.take(k)),
    decreases w.len() - k,
{
    if k == w.len() {
        assert(w.take(k) =~= w);
    } else {
        let i = choose|i: int| 0 <= i < words.len() && words[i] == w;
        lemma_drop_last_is_word(words, parents, i);
        lemma_prefix_is_word(words, parents, w.drop_last(), k);
        assert(w.drop_last().take(k) =~= w.take(k));
    }
}

/// The longest trie word that is a suffix of `s` is where a search starts.
pub proof fn lemma_transition_start(words: Seq<Seq<char>>, s: Seq<char>, c: char, p: int)
    requires
        is_longest_word_suffix(words, s, p),
    ensures
        transition_search(words, s, c, p),
{
}

/// One step of the argument for [`lemma_transition_fail`]: a candidate shorter
/// than the current node is bounded by the current node's suffix link.
proof fn lemma_transition_fail_one(
    wq: Seq<char>,
    x: Seq<char>,
    s: Seq<char>,
)
    requires
        wq.len() > 0,
        is_suffix(wq, s),
        is_suffix(x, s),
        x.len() <= wq.len(),
        x != wq,
    ensures
        is_suffix(x, wq.drop_first()),
{
    if x.len() == wq.len() {
        lemma_suffix_same_len(x, wq, s);
    }
    lemma_suffix_of_suffix(x, wq, s);
    lemma_proper_suffix(x, wq);
}

/// Following a suffix link keeps the search on track when the current node has
/// no child for `c`.
pub proof fn lemma_transition_fail(
    words: Seq<Seq<char>>,
    parents: Seq<nat>,
    s: Seq<char>,
    c: char,
    q: int,
    r: int,
)
    requires
        word_tree(words, parents),
        transition_search(words, s, c, q),
        !is_word(words, words[q].push(c)),
        q != 0,
        is_suffix_link(words, q, r),
    ensures
        transition_search(words, s, c, r),
{
    let wq = words[q];
    assert(wq.len() > 0);
    let wr = words[r];
    assert(is_longest_word_suffix(words, wq.drop_first(), r));
    lemma_suffix_of_drop_first(wr, wq);
    lemma_suffix_trans(wr, wq, s);
    assert forall|i: int|
        0 <= i < words.len() && is_suffix(#[trigger] words[i], s) && is_word(
            words,
            words[i].push(c),
        ) implies words[i].len() <= wr.len() by {
        let x = words[i];
        assert(x.len() <= wq.len());
        if x == wq {
            assert(is_word(words, wq.push(c)));
        }
        lemma_transition_fail_one(wq, x, s);
        assert(is_suffix(words[i], wq.drop_first()));
    }
}

/// Finding a child for `c` ends the search with the longest trie word that is a
/// suffix of `s` followed by `c`.
pub proof fn lemma_transition_found(
    words: Seq<Seq<char>>,
    parents: Seq<nat>,
    s: Seq<char>,
    c: char,
    q: int,
    k: int,
)
    requires
        word_tree(words, parents),
        transition_search(words, s, c, q),
        0 <= k < words.len(),
        words[k] == words[q].push(c),
    ensures
        is_longest_word_suffix(words, s.push(c), k),
{
    lemma_suffix_push(words[q], s, c);
    assert forall|i: int|
        0 <= i < words.len() && is_suffix(#[trigger] words[i], s.push(c)) implies words[i].len()
        <= words[k].len() by {
        let y = words[i];
        if y.len() > 0 {
            lemma_suffix_pop(y, s, c);
            lemma_drop_last_is_word(words, parents, i);
            let p = parents[i] as int;
            assert(words[p].push(c) == y);
            assert(is_word(words, words[p].push(c)));
            assert(words[p].len() <= words[q].len());
        }
    }
}

/// Reaching the root without a child for `c` leaves the root as the answer.
pub proof fn lemma_transition_root(
    words: Seq<Seq<char>>,
    parents: Seq<nat>,
    s: Seq<char>,
    c: char,
)
    requires
        word_tree(words, parents),
        transition_search(words, s, c, 0),
        !is_word(words, words[0].push(c)),
    ensures
        is_longest_word_suffix(words, s.push(c), 0),
{
    lemma_empty_suffix(words[0], s.push(c));
    assert forall|i: int|
        0 <= i < words.len() && is_suffix(#[trigger] words[i], s.push(c)) implies words[i].len()
        <= words[0].len() by {
        let y = words[i];
        if y.len() > 0 {
            lemma_suffix_pop(y, s, c);
            lemma_drop_last_is_word(words, parents, i);
            let p = parents[i] as int;
            assert(words[p].push(c) == y);
            assert(is_word(words, words[p].push(c)));
            assert(words[p].len() == 0);
            lemma_root_only_empty(words, parents, p);
            assert(words[0].push(c) == y);
        }
    }
}

/// The output link of a node follows from its suffix link `s` and the output link
/// `out_s` of that node: `s` itself if it is a keyword, else `s`'s output link.
pub proof fn lemma_output_from_suffix_link(
    words: Seq<Seq<char>>,
    parents: Seq<nat>,
    kws: Set<Seq<char>>,
    u: int,
    s: int,
    out_s: Option<nat>,
)
    requires
        word_tree(words, parents),
        0 <= u < words.len(),
        0 <= s < words.len(),
        forall|w: Seq<char>| kws.contains(w) ==> w.len() > 0,
        is_suffix_link(words, u, s),
        u != 0 ==> is_output_link(words, kws, s, out_s),
        u == 0 ==> out_s is None,
    ensures
        is_output_link(
            words,
            kws,
            u,
            if kws.contains(words[s]) {
                Some(s as nat)
            } else {
                out_s
            },
        ),
{
    if u != 0 {
        let wu = words[u];
        let ws = words[s];
        assert(wu.len() > 0);
        assert(is_longest_word_suffix(words, wu.drop_first(), s));
        if kws.contains(ws) {
        } else {
            assert forall|i: int|
                0 <= i < words.len() && kws.contains(#[trigger] words[i]) && is_suffix(
                    words[i],
                    wu.drop_first(),
                ) implies words[i].len() < ws.len() && is_suffix(words[i], ws.drop_first()) by {
                let x = words[i];
                assert(x.len() <= ws.len());
                if x.len() == ws.len() {
                    lemma_suffix_same_len(x, ws, wu.drop_first());
                }
                lemma_suffix_of_suffix(x, ws, wu.drop_first());
                lemma_proper_suffix(x, ws);
            }
            match out_s {
                Some(o) => {
                    let wo = words[o as int];
                    assert(s != 0);
                    lemma_suffix_of_drop_first(wo, ws);
                    lemma_suffix_trans(wo, ws, wu.drop_first());
                },
                None => {
                    if s == 0 {
                        assert forall|i: int|
                            0 <= i < words.len() && kws.contains(#[trigger] words[i]) implies !is_suffix(
                                words[i],
                                wu.drop_first(),
                            ) by {
                            assert(words[i].len() > 0);
                        }
                    }
                },
            }
        }
    }
}

// ---------------------------------------------------------------------------
// Breadth-first traversal
// ---------------------------------------------------------------------------
/// Node `j` has been put on the queue at some point: it was popped or is waiting.
pub open spec fn bfs_enqueued(popped: Set<int>, queue: Seq<usize>, j: int) -> bool {
    popped.contains(j) || exists|a: int| 0 <= a < queue.len() && queue[a] as int == j
}

/// The state of a breadth-first traversal of the trie: the popped nodes, and the
/// queue, which is ordered by depth and spans at most two depths; a node has been
/// enqueued exactly when its parent has been popped.
pub open spec fn bfs_state(
    words: Seq<Seq<char>>,
    parents: Seq<nat>,
    popped: Set<int>,
    queue: Seq<usize>,
) -> bool {
    &&& forall|x: int| popped.contains(x) ==> 0 <= x < words.len()
    &&& forall|a: int|
        0 <= a < queue.len() ==> (#[trigger] queue[a]) < words.len() && !popped.contains(
            queue[a] as int,
        )
    &&& queue.no_duplicates()
    &&& forall|a: int, b: int|
        0 <= a <= b < queue.len() ==> words[#[trigger] queue[a] as int].len() <= words[
            #[trigger] queue[b] as int].len() <= words[queue[a] as int].len() + 1
    &&& forall|x: int, a: int|
        popped.contains(x) && 0 <= a < queue.len() ==> (#[trigger] words[x]).len() <= words[
            #[trigger] queue[a] as int].len()
    &&& bfs_enqueued(popped, queue, 0)
    &&& forall|j: int|
        0 < j < words.len() ==> (bfs_enqueued(popped, queue, j) <==> popped.contains(
            #[trigger] parents[j] as int,
        ))
}

/// When the front of the queue is popped, every shallower node has been popped already.
pub proof fn lemma_bfs_front(
    words: Seq<Seq<char>>,
    parents: Seq<nat>,
    popped: Set<int>,
    queue: Seq<usize>,
    x: int,
)
    requires
        word_tree(words, parents),
        bfs_state(words, parents, popped, queue),
        queue.len() > 0,
        0 <= x < words.len(),
        words[x].len() < words[queue[0] as int].len(),
    ensures
        popped.contains(x),
    decreases words[x].len(),
{
    if x != 0 {
        assert(words[x].len() > 0);
        let p = parents[x] as int;
        assert(words[p].len() == words[x].len() - 1);
        lemma_bfs_front(words, parents, popped, queue, p);
    }
    if exists|a: int| 0 <= a < queue.len() && queue[a] as int == x {
        let a = choose|a: int| 0 <= a < queue.len() && queue[a] as int == x;
        assert(words[queue[0] as int].len() <= words[queue[a] as int].len());
    }
}

/// When the front of the queue is popped, every node at most as deep has been enqueued.
pub proof fn lemma_bfs_reached(
    words: Seq<Seq<char>>,
    parents: Seq<nat>,
    popped: Set<int>,
    queue: Seq<usize>,
    y: int,
)
    requires
        word_tree(words, parents),
        bfs_state(words, parents, popped, queue),
        queue.len() > 0,
        0 <= y < words.len(),
        words[y].len() <= words[queue[0] as int].len(),
    ensures
        bfs_enqueued(popped, queue, y),
{
    if y != 0 {
        let p = parents[y] as int;
        assert(words[p].len() == words[y].len() - 1);
        lemma_bfs_front(words, parents, popped, queue, p);
    }
}

/// Popping the front of the queue moves it to the popped nodes: the enqueued nodes stay the same.
pub proof fn lemma_bfs_pop(popped: Set<int>, queue: Seq<usize>, y: int)
    requires
        queue.len() > 0,
    ensures
        bfs_enqueued(popped, queue, y) <==> bfs_enqueued(
            popped.insert(queue[0] as int),
            queue.subrange(1, queue.len() as int),
            y,
        ),
{
    let rest = queue.subrange(1, queue.len() as int);
    if exists|a: int| 0 <= a < queue.len() && queue[a] as int == y {
        let a = choose|a: int| 0 <= a < queue.len() && queue[a] as int == y;
        if a > 0 {
            assert(rest[a - 1] as int == y);
        }
    }
    if exists|a: int| 0 <= a < rest.len() && rest[a] as int == y {
        let a = choose|a: int| 0 <= a < rest.len() && rest[a] as int == y;
        assert(queue[a + 1] as int == y);
    }
}

/// Pushing `v` onto the queue enqueues `v` and nothing else.
pub proof fn lemma_bfs_push(popped: Set<int>, queue: Seq<usize>, v: usize, y: int)
    ensures
        bfs_enqueued(popped, queue.push(v), y) <==> (bfs_enqueued(popped, queue, y) || y
            == v as int),
{
    let q2 = queue.push(v);
    if exists|a: int| 0 <= a < queue.len() && queue[a] as int == y {
        let a = choose|a: int| 0 <= a < queue.len() && queue[a] as int == y;
        assert(q2[a] as int == y);
    }
    if y == v as int {
        assert(q2[queue.len() as int] as int == y);
    }
    if exists|a: int| 0 <= a < q2.len() && q2[a] as int == y {
        let a = choose|a: int| 0 <= a < q2.len() && q2[a] as int == y;
        if a < queue.len() {
            assert(queue[a] as int == y);
        }
    }
}

/// When the queue is empty, every node has been popped.
pub proof fn lemma_bfs_done(
    words: Seq<Seq<char>>,
    parents: Seq<nat>,
    popped: Set<int>,
    queue: Seq<usize>,
    x: int,
)
    requires
        word_tree(words, parents),
        bfs_state(words, parents, popped, queue),
        queue.len() == 0,
        0 <= x < words.len(),
    ensures
        popped.contains(x),
    decreases words[x].len(),
{
    if x != 0 {
        let p = parents[x] as int;
        assert(words[p].len() == words[x].len() - 1);
        lemma_bfs_done(words, parents, popped, queue, p);
    }
}

// ---------------------------------------------------------------------------
// Keyword suffixes
// ---------------------------------------------------------------------------
/// Lengths in `(m, n]` that name no keyword suffix can be dropped.
pub proof fn lemma_lens_skip(s: Seq<char>, kws: Set<Seq<char>>, m: nat, n: nat)
    requires
        m <= n,
        forall|l: nat| m < l <= n && l <= s.len() ==> !kws.contains(#[trigger] s.skip(s.len() - l)),
    ensures
        suffix_keyword_lens(s, kws, n) == suffix_keyword_lens(s, kws, m),
    decreases n,
{
    if m < n {
        lemma_lens_skip(s, kws, m, (n - 1) as nat);
    }
}

/// The keyword lengths up to `n` only depend on the last `n` characters.
pub proof fn lemma_lens_shared_tail(s1: Seq<char>, s2: Seq<char>, kws: Set<Seq<char>>, n: nat)
    requires
        n <= s1.len(),
        n <= s2.len(),
        s1.skip(s1.len() - n) == s2.skip(s2.len() - n),
    ensures
        suffix_keyword_lens(s1, kws, n) == suffix_keyword_lens(s2, kws, n),
    decreases n,
{
    if n > 0 {
        let m = (n - 1) as nat;
        assert(s1.skip(s1.len() - m) =~= s1.skip(s1.len() - n).skip(1));
        assert(s2.skip(s2.len() - m) =~= s2.skip(s2.len() - n).skip(1));
        lemma_lens_shared_tail(s1, s2, kws, m);
    }
}

/// Every length listed is at most `n`, and the list is strictly decreasing.
pub proof fn lemma_lens_bounds(s: Seq<char>, kws: Set<Seq<char>>, n: nat)
    ensures
        forall|a: int|
            0 <= a < suffix_keyword_lens(s, kws, n).len() ==> 0 < #[trigger] suffix_keyword_lens(
                s,
                kws,
                n,
            )[a] <= n && suffix_keyword_lens(s, kws, n)[a] <= s.len(),
        forall|a: int, b: int|
            0 <= a < b < suffix_keyword_lens(s, kws, n).len() ==> #[trigger] suffix_keyword_lens(
                s,
                kws,
                n,
            )[a] > #[trigger] suffix_keyword_lens(s, kws, n)[b],
        suffix_keyword_lens(s, kws, n).len() <= n,
    decreases n,
{
    if n > 0 {
        lemma_lens_bounds(s, kws, (n - 1) as nat);
    }
}

/// A length is listed exactly when the suffix of that length is a keyword.
pub proof fn lemma_lens_members(s: Seq<char>, kws: Set<Seq<char>>, n: nat, l: nat)
    ensures
        suffix_keyword_lens(s, kws, n).contains(l) <==> (0 < l <= n && l <= s.len()
            && kws.contains(s.skip(s.len() - l))),
    decreases n,
{
    lemma_lens_bounds(s, kws, n);
    if n > 0 {
        lemma_lens_members(s, kws, (n - 1) as nat, l);
        let rest = suffix_keyword_lens(s, kws, (n - 1) as nat);
        if n <= s.len() && kws.contains(s.skip(s.len() - n)) {
            let full = seq![n].add(rest);
            if rest.contains(l) {
                let k = choose|k: int| 0 <= k < rest.len() && rest[k] == l;
                assert(full[k + 1] == l);
            }
            if full.contains(l) && l != n {
                let k = choose|k: int| 0 <= k < full.len() && full[k] == l;
                assert(rest[k - 1] == l);
            }
            if l == n {
                assert(full[0] == l);
            }
        }
    }
}

// ---------------------------------------------------------------------------
// Output links
// ---------------------------------------------------------------------------
/// The nodes reached from node `q` by following output links, in order.
pub open spec fn output_chain(words: Seq<Seq<char>>, outs: Seq<Option<nat>>, q: int) -> Seq<int>
    decreases words[q].len(),
{
    if 0 <= q < words.len() && q < outs.len() {
        match outs[q] {
            Some(o) => if o < words.len() && words[o as int].len() < words[q].len() {
                seq![o as int] + output_chain(words, outs, o as int)
            } else {
                Seq::empty()
            },
            None => Seq::empty(),
        }
    } else {
        Seq::empty()
    }
}

/// The lengths of the words of the given nodes.
pub open spec fn word_lens(words: Seq<Seq<char>>, nodes: Seq<int>) -> Seq<nat> {
    nodes.map_values(|o: int| words[o].len())
}

/// The facts about a trie's keywords and output links that searching relies on.
pub open spec fn outputs_wf(
    words: Seq<Seq<char>>,
    parents: Seq<nat>,
    kws: Set<Seq<char>>,
    outs: Seq<Option<nat>>,
) -> bool {
    &&& word_tree(words, parents)
    &&& outs.len() == words.len()
    &&& forall|i: int| 0 <= i < words.len() ==> is_output_link(words, kws, i, #[trigger] outs[i])
    &&& forall|w: Seq<char>| #[trigger] kws.contains(w) ==> w.len() > 0 && is_word(words, w)
}

/// Following output links from a node lists the keywords that are proper suffixes
/// of its word, longest first.
pub proof fn lemma_output_chain(
    words: Seq<Seq<char>>,
    parents: Seq<nat>,
    kws: Set<Seq<char>>,
    outs: Seq<Option<nat>>,
    q: int,
)
    requires
        outputs_wf(words, parents, kws, outs),
        0 < q < words.len(),
    ensures
        word_lens(words, output_chain(words, outs, q)) == suffix_keyword_lens(
            words[q],
            kws,
            (words[q].len() - 1) as nat,
        ),
    decreases words[q].len(),
{
    let w = words[q];
    assert(w.len() > 0);
    let top = (w.len() - 1) as nat;
    assert(is_output_link(words, kws, q, outs[q]));
    match outs[q] {
        Some(o) => {
            let o = o as int;
            let wo = words[o];
            let m = wo.len();
            assert(m > 0);
            lemma_suffix_of_drop_first(wo, w);
            assert forall|l: nat| m < l <= top && l <= w.len() implies !kws.contains(
                #[trigger] w.skip(w.len() - l),
            ) by {
                if kws.contains(w.skip(w.len() - l)) {
                    let x = w.skip(w.len() - l);
                    let i = choose|i: int| 0 <= i < words.len() && words[i] == x;
                    assert(is_suffix(x, w));
                    lemma_proper_suffix(x, w);
                    assert(words[i].len() <= m);
                }
            }
            lemma_lens_skip(w, kws, m, top);
            assert(w.skip(w.len() - m) == wo);
            let mm = (m - 1) as nat;
            assert(w.skip(w.len() - mm) =~= wo.skip(wo.len() - mm));
            lemma_lens_shared_tail(w, wo, kws, mm);
            if o == 0 {
                assert(words[0].len() == 0);
            }
            lemma_output_chain(words, parents, kws, outs, o);
            assert(output_chain(words, outs, q) == seq![o] + output_chain(words, outs, o));
            assert(word_lens(words, output_chain(words, outs, q)) =~= seq![m].add(
                word_lens(words, output_chain(words, outs, o)),
            ));
        },
        None => {
            assert forall|l: nat| 0 < l <= top && l <= w.len() implies !kws.contains(
                #[trigger] w.skip(w.len() - l),
            ) by {
                if kws.contains(w.skip(w.len() - l)) {
                    let x = w.skip(w.len() - l);
                    let i = choose|i: int| 0 <= i < words.len() && words[i] == x;
                    assert(is_suffix(x, w));
                    lemma_proper_suffix(x, w);
                }
            }
            lemma_lens_skip(w, kws, 0, top);
            assert(word_lens(words, output_chain(words, outs, q)) =~= Seq::<nat>::empty());
        },
    }
}

/// The keywords that end where a text's longest trie suffix ends: the node's own
/// word if it is a keyword, then the keywords on its output chain.
pub proof fn lemma_matches_at_node(
    words: Seq<Seq<char>>,
    parents: Seq<nat>,
    kws: Set<Seq<char>>,
    outs: Seq<Option<nat>>,
    t: Seq<char>,
    p: int,
)
    requires
        outputs_wf(words, parents, kws, outs),
        is_longest_word_suffix(words, t, p),
    ensures
        suffix_keyword_lens(t, kws, t.len()) == (if kws.contains(words[p]) {
            seq![words[p].len()]
        } else {
            Seq::<nat>::empty()
        }) + word_lens(words, output_chain(words, outs, p)),
{
    let wp = words[p];
    let m = wp.len();
    assert forall|l: nat| m < l <= t.len() && l <= t.len() implies !kws.contains(
        #[trigger] t.skip(t.len() - l),
    ) by {
        if kws.contains(t.skip(t.len() - l)) {
            let x = t.skip(t.len() - l);
            let i = choose|i: int| 0 <= i < words.len() && words[i] == x;
            assert(is_suffix(x, t));
        }
    }
    lemma_lens_skip(t, kws, m, t.len());
    assert(t.skip(t.len() - m) =~= wp.skip(wp.len() - m));
    lemma_lens_shared_tail(t, wp, kws, m);
    if m == 0 {
        lemma_root_only_empty(words, parents, p);
        assert(!kws.contains(wp));
        assert(outs[0] is None);
        assert(output_chain(words, outs, p) =~= Seq::<int>::empty());
        assert(word_lens(words, output_chain(words, outs, p)) =~= Seq::<nat>::empty());
    } else {
        assert(p != 0);
        lemma_output_chain(words, parents, kws, outs, p);
        assert(wp.skip(0) =~= wp);
        let rest = suffix_keyword_lens(wp, kws, (m - 1) as nat);
        if kws.contains(wp) {
            assert(suffix_keyword_lens(wp, kws, m) == seq![m].add(rest));
        } else {
            assert(suffix_keyword_lens(wp, kws, m) == rest);
            assert(Seq::<nat>::empty() + rest =~= rest);
        }
    }
}

// ---------------------------------------------------------------------------
// The list of all matches
// ---------------------------------------------------------------------------
/// Matches that end earlier come first: the list up to `e1` is a prefix of the
/// list up to `e2`.
pub proof fn lemma_matches_prefix(t: Seq<char>, kws: Set<Seq<char>>, e1: nat, e2: nat)
    requires
        e1 <= e2,
    ensures
        matches_up_to(t, kws, e1).len() <= matches_up_to(t, kws, e2).len(),
        matches_up_to(t, kws, e2).take(matches_up_to(t, kws, e1).len() as int) == matches_up_to(
            t,
            kws,
            e1,
        ),
    decreases e2,
{
    if e1 < e2 {
        lemma_matches_prefix(t, kws, e1, (e2 - 1) as nat);
        let a = matches_up_to(t, kws, e1);
        let b = matches_up_to(t, kws, (e2 - 1) as nat);
        let c = matches_up_to(t, kws, e2);
        assert(c.take(b.len() as int) =~= b);
        assert(c.take(a.len() as int) =~= b.take(a.len() as int));
    } else {
        assert(matches_up_to(t, kws, e2).take(matches_up_to(t, kws, e1).len() as int)
            =~= matches_up_to(t, kws, e1));
    }
}

/// Each listed match names a keyword occurrence and lies within the first `e` characters.
pub proof fn lemma_matches_sound(t: Seq<char>, kws: Set<Seq<char>>, e: nat)
    requires
        e <= t.len(),
    ensures
        forall|a: int|
            0 <= a < matches_up_to(t, kws, e).len() ==> {
                let (i, j) = #[trigger] matches_up_to(t, kws, e)[a];
                &&& 0 <= i < j <= e
                &&& kws.contains(t.subrange(i, j))
            },
    decreases e,
{
    if e > 0 {
        lemma_matches_sound(t, kws, (e - 1) as nat);
        let prev = matches_up_to(t, kws, (e - 1) as nat);
        let s = t.take(e as int);
        let lens = suffix_keyword_lens(s, kws, e);
        lemma_lens_bounds(s, kws, e);
        assert forall|a: int| 0 <= a < matches_up_to(t, kws, e).len() implies {
            let (i, j) = #[trigger] matches_up_to(t, kws, e)[a];
            &&& 0 <= i < j <= e
            &&& kws.contains(t.subrange(i, j))
        } by {
            if a >= prev.len() {
                let b = a - prev.len();
                let l = lens[b];
                assert(lens.contains(l));
                lemma_lens_members(s, kws, e, l);
                assert(s.skip(s.len() - l) =~= t.subrange(e - l, e as int));
            }
        }
    }
}

/// The list of all matches holds exactly the occurrences of keywords in `t`:
/// a range `(i, j)` is listed if and only if the characters `i..j` form a keyword.
pub proof fn lemma_all_matches_complete(t: Seq<char>, kws: Set<Seq<char>>, i: int, j: int)
    ensures
        all_matches(t, kws).contains((i, j)) <==> (0 <= i < j <= t.len() && kws.contains(
            t.subrange(i, j),
        )),
{
    lemma_matches_sound(t, kws, t.len());
    if 0 <= i < j <= t.len() && kws.contains(t.subrange(i, j)) {
        let e = j as nat;
        let l = (j - i) as nat;
        let s = t.take(j);
        assert(s.skip(s.len() - l) =~= t.subrange(i, j));
        lemma_lens_members(s, kws, e, l);
        let lens = suffix_keyword_lens(s, kws, e);
        let k = choose|k: int| 0 <= k < lens.len() && lens[k] == l;
        let prev = matches_up_to(t, kws, (e - 1) as nat);
        let here = matches_up_to(t, kws, e);
        assert(here[prev.len() + k] == (i, j));
        lemma_matches_prefix(t, kws, e, t.len());
        assert(all_matches(t, kws)[prev.len() + k] == (i, j));
    }
}

/// The ends of the listed matches never decrease, and matches that end together are
/// listed longest first; in particular no occurrence is listed twice.
pub proof fn lemma_all_matches_ordered(t: Seq<char>, kws: Set<Seq<char>>, a: int, b: int)
    requires
        0 <= a < b < all_matches(t, kws).len(),
    ensures
        all_matches(t, kws)[a].1 < all_matches(t, kws)[b].1 || (all_matches(t, kws)[a].1
            == all_matches(t, kws)[b].1 && all_matches(t, kws)[a].0 < all_matches(t, kws)[b].0),
{
    lemma_matches_ordered(t, kws, t.len(), a, b);
}

proof fn lemma_matches_ordered(t: Seq<char>, kws: Set<Seq<char>>, e: nat, a: int, b: int)
    requires
        0 <= a < b < matches_up_to(t, kws, e).len(),
    ensures
        matches_up_to(t, kws, e)[a].1 < matches_up_to(t, kws, e)[b].1 || (matches_up_to(
            t,
            kws,
            e,
        )[a].1 == matches_up_to(t, kws, e)[b].1 && matches_up_to(t, kws, e)[a].0 < matches_up_to(
            t,
            kws,
            e,
        )[b].0),
    decreases e,
{
    let prev = matches_up_to(t, kws, (e - 1) as nat);
    let s = t.take(e as int);
    lemma_lens_bounds(s, kws, e);
    lemma_matches_ends(t, kws, (e - 1) as nat);
    if b < prev.len() {
        lemma_matches_ordered(t, kws, (e - 1) as nat, a, b);
    }
}

/// Every match listed up to `e` ends at or before `e`.
proof fn lemma_matches_ends(t: Seq<char>, kws: Set<Seq<char>>, e: nat)
    ensures
        forall|a: int|
            0 <= a < matches_up_to(t, kws, e).len() ==> (#[trigger] matches_up_to(t, kws, e)[a]).1
                <= e,
    decreases e,
{
    if e > 0 {
        lemma_matches_ends(t, kws, (e - 1) as nat);
        let prev = matches_up_to(t, kws, (e - 1) as nat);
        let here = matches_ending_at(t, kws, e);
        assert forall|a: int| 0 <= a < matches_up_to(t, kws, e).len() implies (#[trigger] matches_up_to(t, kws, e)[a]).1 <= e by {
            if a >= prev.len() {
                assert(matches_up_to(t, kws, e)[a] == here[a - prev.len()]);
            } else {
                assert(matches_up_to(t, kws, e)[a] == prev[a]);
            }
        }
    }
}

} // verus!

verus! {

/// The keywords searched for are the nonempty strings of the list, and only those.
pub proof fn lemma_keyword_set_members(ks: Seq<Seq<char>>, k: Seq<char>)
    ensures
        keyword_set(ks).contains(k) <==> (k.len() > 0 && exists|j: int|
            0 <= j < ks.len() && #[trigger] ks[j] == k),
{
}

/// Adding the prefixes of `k` keeps every node that was there, in place, and adds
/// only prefixes of `k`, each new one once.
proof fn lemma_add_prefixes(words: Seq<Seq<char>>, k: Seq<char>, n: nat)
    requires
        n <= k.len(),
    ensures
        add_prefixes(words, k, n).len() >= words.len(),
        forall|i: int| 0 <= i < words.len() ==> #[trigger] add_prefixes(words, k, n)[i] == words[i],
        forall|w: Seq<char>|
            #[trigger] add_prefixes(words, k, n).contains(w) <==> (words.contains(w) || exists|
                l: int,
            | 1 <= l <= n && #[trigger] k.take(l) == w),
        words.no_duplicates() ==> add_prefixes(words, k, n).no_duplicates(),
    decreases n,
{
    if n > 0 {
        lemma_add_prefixes(words, k, (n - 1) as nat);
        let prev = add_prefixes(words, k, (n - 1) as nat);
        let p = k.take(n as int);
        assert forall|w: Seq<char>|
            add_prefixes(words, k, n).contains(w) <==> (words.contains(w) || exists|l: int|
                1 <= l <= n && #[trigger] k.take(l) == w) by {
            if add_prefixes(words, k, n).contains(w) && !prev.contains(w) {
                assert(w == p);
                assert(k.take(n as int) == w);
            }
            if prev.contains(w) {
                let i = choose|i: int| 0 <= i < prev.len() && prev[i] == w;
                if !prev.contains(p) {
                    assert(add_prefixes(words, k, n)[i] == w);
                }
            }
            if exists|l: int| 1 <= l <= n && #[trigger] k.take(l) == w {
                let l = choose|l: int| 1 <= l <= n && #[trigger] k.take(l) == w;
                if l < n {
                    assert(exists|l2: int| 1 <= l2 <= n - 1 && #[trigger] k.take(l2) == w);
                    assert(prev.contains(w));
                    let i = choose|i: int| 0 <= i < prev.len() && prev[i] == w;
                    if !prev.contains(p) {
                        assert(add_prefixes(words, k, n)[i] == w);
                    }
                } else if !prev.contains(p) {
                    assert(add_prefixes(words, k, n)[prev.len() as int] == w);
                }
            }
            if words.contains(w) {
                let i = choose|i: int| 0 <= i < words.len() && words[i] == w;
                assert(add_prefixes(words, k, n)[i] == w);
            }
        }
    }
}

/// The nodes of the trie built from `ks` spell exactly the empty word and the
/// prefixes of the keywords of the list, each word at one node only.
pub proof fn lemma_trie_words_spell_prefixes(ks: Seq<Seq<char>>, w: Seq<char>)
    ensures
        trie_words(ks).contains(w) <==> (w.len() == 0 || exists|j: int|
            0 <= j < ks.len() && w.len() <= (#[trigger] ks[j]).len() && ks[j].take(
                w.len() as int,
            ) == w),
        trie_words(ks).no_duplicates(),
        trie_words(ks).len() > 0,
        trie_words(ks)[0].len() == 0,
    decreases ks.len(),
{
    if ks.len() == 0 {
        assert(trie_words(ks)[0] == Seq::<char>::empty());
        if w.len() == 0 {
            assert(w =~= Seq::<char>::empty());
            assert(trie_words(ks)[0] == w);
        }
    } else {
        let pre = ks.drop_last();
        let k = ks.last();
        lemma_trie_words_spell_prefixes(pre, w);
        lemma_add_prefixes(trie_words(pre), k, k.len());
        assert(trie_words(ks)[0] == trie_words(pre)[0]);
        if trie_words(ks).contains(w) && w.len() > 0 {
            if trie_words(pre).contains(w) {
                let j = choose|j: int|
                    0 <= j < pre.len() && w.len() <= (#[trigger] pre[j]).len() && pre[j].take(
                        w.len() as int,
                    ) == w;
                assert(ks[j] == pre[j]);
            } else {
                let l = choose|l: int| 1 <= l <= k.len() && #[trigger] k.take(l) == w;
                assert(ks[ks.len() - 1] == k);
                assert(k.take(w.len() as int) == w);
            }
        }
        if w.len() > 0 && exists|j: int|
            0 <= j < ks.len() && w.len() <= (#[trigger] ks[j]).len() && ks[j].take(w.len() as int)
                == w {
            let j = choose|j: int|
                0 <= j < ks.len() && w.len() <= (#[trigger] ks[j]).len() && ks[j].take(
                    w.len() as int,
                ) == w;
            if j < pre.len() {
                assert(pre[j] == ks[j]);
                assert(trie_words(pre).contains(w));
            } else {
                assert(k == ks[j]);
                assert(k.take(w.len() as int) == w);
            }
        }
        if w.len() == 0 {
            assert(trie_words(pre).contains(w));
        }
    }
}

/// Building from a list with one more keyword keeps every node of the trie
/// built from the shorter list, under the same id.
pub proof fn lemma_trie_words_extend(ks: Seq<Seq<char>>, k: Seq<char>, i: int)
    requires
        0 <= i < trie_words(ks).len(),
    ensures
        i < trie_words(ks.push(k)).len(),
        trie_words(ks.push(k))[i] == trie_words(ks)[i],
{
    assert(ks.push(k).drop_last() =~= ks);
    lemma_add_prefixes(trie_words(ks), k, k.len());
}

} // verus!
