use corrosick::trie::Trie;
use corrosick::{Match, Matches};

fn all<'a>(mut matches: Matches<'a, '_>) -> Vec<Match<'a>> {
    let mut found = Vec::new();
    while let Some(m) = matches.next() {
        found.push(m);
    }
    found
}

fn texts<'a>(matches: Matches<'a, '_>) -> Vec<&'a str> {
    all(matches).into_iter().map(|m| m.text).collect()
}

#[test]
fn finds_keyword_in_corpus() {
    let k1 = "abcd";
    let trie = Trie::build_trie(&[k1]);
    let corpus = "abcd";
    let matches = Matches::new(corpus, &trie);
    let res: Vec<&str> = texts(matches);
    assert_eq!(res, vec![k1])
}

#[test]
fn does_not_find_keyword_not_in_corpus() {
    let k1 = "efgh";
    let trie = Trie::build_trie(&[k1]);
    let corpus = "abcd";
    let matches = Matches::new(corpus, &trie);
    let res: Vec<&str> = texts(matches);
    let exp: Vec<&str> = vec![];
    assert_eq!(res, exp)
}

#[test]
fn finds_keyword_at_start_of_corpus() {
    let k1 = "abcd";
    let trie = Trie::build_trie(&[k1]);
    let corpus = "abcdefgh";
    let matches = Matches::new(corpus, &trie);
    let res: Vec<&str> = texts(matches);
    assert_eq!(res, vec![k1])
}

#[test]
fn finds_keyword_at_end_of_corpus() {
    let k1 = "efgh";
    let trie = Trie::build_trie(&[k1]);
    let corpus = "abcdefgh";
    let matches = Matches::new(corpus, &trie);
    let res: Vec<&str> = texts(matches);
    assert_eq!(res, vec![k1])
}

#[test]
fn finds_keyword_in_middle_of_corpus() {
    let k1 = "cd";
    let trie = Trie::build_trie(&[k1]);
    let corpus = "abcdefgh";
    let matches = Matches::new(corpus, &trie);
    let res: Vec<&str> = texts(matches);
    assert_eq!(res, vec![k1])
}

#[test]
fn matches_match_start_is_correct_index() {
    let k1 = "abcd";
    let trie = Trie::build_trie(&[k1]);
    let corpus = "efghabcd";
    let matches = Matches::new(corpus, &trie);
    let res: Vec<(usize, &str)> = all(matches).into_iter().map(|m| (m.start, m.text)).collect();
    assert_eq!(res, vec![(4, k1)])
}

#[test]
fn finds_keyword_appearing_twice() {
    let k1 = "abc";
    let trie = Trie::build_trie(&[k1]);
    let corpus = "abcabc";
    let matches = Matches::new(corpus, &trie);
    let res: Vec<&str> = texts(matches);
    assert_eq!(res, vec![k1, k1])
}

#[test]
fn finds_multiple_non_subset_keywords() {
    let k1 = "abc";
    let k2 = "def";
    let trie = Trie::build_trie(&[k1, k2]);
    let corpus = "abcdef";
    let matches = Matches::new(corpus, &trie);
    let mut res: Vec<&str> = texts(matches);
    res.sort();
    let mut exp = vec![k1, k2];
    exp.sort();
    assert_eq!(res, exp)
}

#[test]
fn finds_overlapping_keywords() {
    let k1 = "aa";
    let trie = Trie::build_trie(&[k1]);
    let corpus = "aaaa";
    let matches = Matches::new(corpus, &trie);
    let mut res: Vec<&str> = texts(matches);
    res.sort();
    let mut exp = vec![k1, k1, k1];
    exp.sort();
    assert_eq!(res, exp)
}

#[test]
fn matches_empty_corpus_returns_nothing() {
    let k1 = "abcd";
    let trie = Trie::build_trie(&[k1]);
    let corpus = "";
    let matches = Matches::new(corpus, &trie);
    let res: Vec<&str> = texts(matches);
    let exp: Vec<&str> = vec![];
    assert_eq!(res, exp)
}

#[test]
fn keyword_longer_than_corpus_returns_nothing() {
    let k1 = "abcdefg";
    let trie = Trie::build_trie(&[k1]);
    let corpus = "abcd";
    let matches = Matches::new(corpus, &trie);
    let res: Vec<&str> = texts(matches);
    let exp: Vec<&str> = vec![];
    assert_eq!(res, exp)
}

#[test]
fn single_char_keyword_is_found() {
    let k1 = "a";
    let trie = Trie::build_trie(&[k1]);
    let corpus = "abcd";
    let matches = Matches::new(corpus, &trie);
    let res: Vec<&str> = texts(matches);
    assert_eq!(res, vec![k1])
}

#[test]
fn matches_matches_are_case_sensitive() {
    let k1 = "abcd";
    let trie = Trie::build_trie(&[k1]);
    let corpus = "ABCD";
    let matches = Matches::new(corpus, &trie);
    let res: Vec<&str> = texts(matches);
    let exp: Vec<&str> = vec![];
    assert_eq!(res, exp)
}

#[test]
fn multi_byte_char_in_corpus_does_not_panic() {
    let k1 = "llo";
    let trie = Trie::build_trie(&[k1]);
    let corpus = "héllo";
    let matches = Matches::new(corpus, &trie);
    all(matches).into_iter().for_each(|_| {})
}

#[test]
fn output_link_match_is_yielded_after_direct_match() {
    let k1 = "abcd";
    let k2 = "cd";
    let trie = Trie::build_trie(&[k1, k2]);
    let corpus = "abcd";
    let matches = Matches::new(corpus, &trie);
    let mut res: Vec<&str> = texts(matches);
    res.sort();
    let mut exp = vec![k1, k2];
    exp.sort();
    assert_eq!(res, exp)
}

#[test]
fn output_link_chain_is_fully_exhausted() {
    let k1 = "abcd";
    let k2 = "bcd";
    let k3 = "cd";
    let trie = Trie::build_trie(&[k1, k2, k3]);
    let corpus = "abcd";
    let matches = Matches::new(corpus, &trie);
    let mut res: Vec<&str> = texts(matches);
    res.sort();
    let mut exp = vec![k1, k2, k3];
    exp.sort();
    assert_eq!(res, exp)
}

#[test]
fn output_link_matches_have_correct_starts() {
    let k1 = "abcd";
    let k2 = "cd";
    let trie = Trie::build_trie(&[k1, k2]);
    let corpus = "abcd";
    let matches = Matches::new(corpus, &trie);
    let mut res: Vec<(usize, &str)> = all(matches).into_iter().map(|m| (m.start, m.text)).collect();
    res.sort();
    assert_eq!(res, vec![(0, k1), (2, k2)])
}

#[test]
fn pending_output_does_not_block_subsequent_matches() {
    let k1 = "abcd";
    let k2 = "cd";
    let k3 = "ef";
    let trie = Trie::build_trie(&[k1, k2, k3]);
    let corpus = "abcdef";
    let matches = Matches::new(corpus, &trie);
    let mut res: Vec<&str> = texts(matches);
    res.sort();
    let mut exp = vec![k1, k2, k3];
    exp.sort();
    assert_eq!(res, exp)
}

#[test]
fn output_chain_is_yielded_longest_first() {
    let trie = Trie::build_trie(&["cd", "abcd", "bcd"]);
    let matches = Matches::new("xabcd", &trie);
    let res: Vec<(usize, &str)> = all(matches).into_iter().map(|m| (m.start, m.text)).collect();
    assert_eq!(res, vec![(1, "abcd"), (2, "bcd"), (3, "cd")]);
}

#[test]
fn direct_match_comes_before_output_link_match() {
    let trie = Trie::build_trie(&["c", "bcx", "abc"]);
    let matches = Matches::new("abc", &trie);
    let res: Vec<(usize, &str)> = all(matches).into_iter().map(|m| (m.start, m.text)).collect();
    assert_eq!(res, vec![(0, "abc"), (2, "c")]);
}

#[test]
fn keyword_reached_only_through_output_link_is_found() {
    // After "xbc" the search stands at the node "bc", which is no keyword;
    // its output link leads to "c".
    let trie = Trie::build_trie(&["c", "bcx", "abc"]);
    let matches = Matches::new("xbc", &trie);
    let res: Vec<(usize, &str)> = all(matches).into_iter().map(|m| (m.start, m.text)).collect();
    assert_eq!(res, vec![(2, "c")]);
}

#[test]
fn from_match_end_builds_the_match() {
    let corpus = "xyhéllo";
    // "hél" starts at byte 2, ends with the 'l' at byte 5 and takes four bytes.
    let m = Match::from_match_end(corpus, 4, 5, 'l');
    assert_eq!(m.start, 2);
    assert_eq!(m.text, "hél");
    // "é" starts at byte 3 and takes two bytes.
    let m = Match::from_match_end(corpus, 2, 3, 'é');
    assert_eq!(m.start, 3);
    assert_eq!(m.text, "é");
}

#[test]
fn from_match_end_goes_by_byte_counts() {
    // Only the width of `character` is read: one byte for 'x', so the match
    // ends at byte 2 and starts two bytes earlier.
    let m = Match::from_match_end("abcd", 2, 2, 'x');
    assert_eq!(m.start, 1);
    assert_eq!(m.text, "bc");
    // A two-byte character as the last one moves the end one byte further.
    let m = Match::from_match_end("aébc", 3, 1, 'é');
    assert_eq!(m.start, 0);
    assert_eq!(m.text, "aé");
}
