use corrosick::{AhoCorasick, Match, Matches};

fn all<'a>(mut matches: Matches<'a, '_>) -> Vec<Match<'a>> {
    let mut found = Vec::new();
    while let Some(m) = matches.next() {
        found.push(m);
    }
    found
}

fn texts<'a>(matches: Matches<'a, '_>) -> Vec<&'a str> {
    all(matches).into_iter().map(|m| m.text).collect()
}

#[test]
fn finds_key_word_in_pattern_and_text() {
    let k1 = "abcd";
    let keywords = [k1];
    let corpus = "abcd";
    let ac = AhoCorasick::new(&keywords);
    let res: Vec<&str> = texts(ac.find_matches(corpus));
    assert_eq!(res, vec![k1])
}

#[test]
fn does_not_find_key_word_not_in_text() {
    let k1 = "efgh";
    let keywords = [k1];
    let corpus = "abcd";
    let ac = AhoCorasick::new(&keywords);
    let res: Vec<&str> = texts(ac.find_matches(corpus));
    let exp: Vec<&str> = vec![];
    assert_eq!(res, exp)
}

#[test]
fn finds_key_word_suffixed_in_text() {
    let k1 = "abcd";
    let keywords = [k1];
    let corpus = "effghabcd";
    let ac = AhoCorasick::new(&keywords);
    let res: Vec<&str> = texts(ac.find_matches(corpus));
    assert_eq!(res, vec![k1])
}

#[test]
fn finds_key_word_prefixed_in_text() {
    let k1 = "abcd";
    let keywords = [k1];
    let corpus = "abcdefgh";
    let ac = AhoCorasick::new(&keywords);
    let res: Vec<&str> = texts(ac.find_matches(corpus));
    assert_eq!(res, vec![k1])
}

#[test]
fn finds_keyword_infixed_in_text() {
    let k1 = "abcd";
    let keywords = [k1];
    let corpus = "efghabcdijkl";
    let ac = AhoCorasick::new(&keywords);
    let res: Vec<&str> = texts(ac.find_matches(corpus));
    assert_eq!(res, vec![k1])
}

#[test]
fn finds_both_keywords() {
    let k1 = "abcd";
    let k2 = "efgh";
    let keywords = [k1, k2];
    let corpus = "abcdefgh";
    let ac = AhoCorasick::new(&keywords);
    let mut res: Vec<&str> = texts(ac.find_matches(corpus));
    res.sort();
    let mut exp = Vec::from(keywords);
    exp.sort();
    assert_eq!(res, exp)
}

#[test]
fn finds_single_char_kwds() {
    let k1 = "a";
    let k2 = "b";
    let k3 = "c";
    let k4 = "d";
    let k5 = "e";
    let keywords = [k1, k2, k3, k4, k5];
    let corpus = "abcdefgh";
    let ac = AhoCorasick::new(&keywords);
    let mut res: Vec<&str> = texts(ac.find_matches(corpus));
    res.sort();
    let mut exp = Vec::from(keywords);
    exp.sort();
    assert_eq!(res, exp)
}

#[test]
fn finds_kwd_in_corpus_twice() {
    let k1 = "abc";
    let keywords = [k1];
    let corpus = "abc is a letter of the abc phabet";
    let ac = AhoCorasick::new(&keywords);
    let mut res: Vec<&str> = texts(ac.find_matches(corpus));
    res.sort();
    let mut exp = Vec::from([k1, k1]);
    exp.sort();
    assert_eq!(res, exp)
}

#[test]
fn finds_overlapping_kwds() {
    let k1 = "aa";
    let keywords = [k1];
    let corpus = "aaaaaa";
    let ac = AhoCorasick::new(&keywords);
    let mut res: Vec<&str> = texts(ac.find_matches(corpus));
    res.sort();
    let mut exp = Vec::from([k1, k1, k1, k1, k1]);
    exp.sort();
    assert_eq!(res, exp)
}

#[test]
fn aho_corasick_empty_corpus_returns_nothing() {
    let k1 = "abcd";
    let keywords = [k1];
    let corpus = "";
    let ac = AhoCorasick::new(&keywords);
    let mut res: Vec<&str> = texts(ac.find_matches(corpus));
    res.sort();
    let mut exp: Vec<&str> = Vec::from([]);
    exp.sort();
    assert_eq!(res, exp)
}

#[test]
fn kwd_longer_than_corpus_returns_nothing() {
    let k1 = "abcdefg";
    let keywords = [k1];
    let corpus = "abcd";
    let ac = AhoCorasick::new(&keywords);
    let mut res: Vec<&str> = texts(ac.find_matches(corpus));
    res.sort();
    let mut exp: Vec<&str> = Vec::from([]);
    exp.sort();
    assert_eq!(res, exp)
}

#[test]
fn calling_on_different_corpora_returns_matches() {
    let k1 = "abc";
    let k2 = "def";
    let k3 = "ghi";
    let k4 = "jkl";
    let keywords = [k1, k2, k3, k4];
    let corpus_1 = "abcdef";
    let corpus_2 = "ghijkl";
    let ac = AhoCorasick::new(&keywords);
    let mut res_1: Vec<&str> = texts(ac.find_matches(corpus_1));
    res_1.sort();
    let mut exp_1 = Vec::from([k1, k2]);
    exp_1.sort();
    assert_eq!(res_1, exp_1);
    let mut res_2: Vec<&str> = texts(ac.find_matches(corpus_2));
    res_2.sort();
    let mut exp_2 = Vec::from([k3, k4]);
    exp_2.sort();
    assert_eq!(res_2, exp_2)
}

#[test]
fn repeated_kwds_both_match() {
    let k1 = "abc";
    let k2 = "abc";
    let keywords = [k1, k2];
    let corpus = "abcd";
    let ac = AhoCorasick::new(&keywords);
    let mut res: Vec<&str> = texts(ac.find_matches(corpus));
    res.sort();
    let mut exp: Vec<&str> = Vec::from([k1]);
    exp.sort();
    assert_eq!(res, exp)
}

#[test]
fn aho_corasick_match_start_is_correct_index() {
    let k1 = "abcd";
    let keywords = [k1];
    let corpus = "efghabcdijkl";
    let ac = AhoCorasick::new(&keywords);
    let res: Vec<_> = all(ac.find_matches(corpus));
    assert_eq!(res[0].start, 4)
}

#[test]
fn aho_corasick_matches_are_case_sensitive() {
    let k1 = "abcd";
    let keywords = [k1];
    let corpus = "ABCD";
    let ac = AhoCorasick::new(&keywords);
    let res: Vec<&str> = texts(ac.find_matches(corpus));
    let exp: Vec<&str> = vec![];
    assert_eq!(res, exp)
}

#[test]
fn single_char_corpus_matches_single_char_kwd() {
    let k1 = "a";
    let keywords = [k1];
    let corpus = "a";
    let ac = AhoCorasick::new(&keywords);
    let res: Vec<&str> = texts(ac.find_matches(corpus));
    assert_eq!(res, vec![k1])
}

#[test]
fn kwd_at_very_end_of_corpus_is_found() {
    let k1 = "xyz";
    let keywords = [k1];
    let corpus = "abcxyz";
    let ac = AhoCorasick::new(&keywords);
    let res: Vec<&str> = texts(ac.find_matches(corpus));
    assert_eq!(res, vec![k1])
}

#[test]
fn kwd_surrounded_by_punctuation_and_whitespace_is_found() {
    let k1 = "abcd";
    let keywords = [k1];
    let corpus = "hello, abcd! how are you";
    let ac = AhoCorasick::new(&keywords);
    let res: Vec<&str> = texts(ac.find_matches(corpus));
    assert_eq!(res, vec![k1])
}

#[test]
fn multi_byte_char_before_match_matches() {
    let k1 = "llo";
    let keywords = [k1];
    let corpus = "héllo";
    let ac = AhoCorasick::new(&keywords);
    all(ac.find_matches(corpus)).into_iter().for_each(|_| {})
}

#[test]
fn empty_kwd_does_not_panic() {
    let k1 = "";
    let keywords = [k1];
    let corpus = "abcd";
    let ac = AhoCorasick::new(&keywords);
    all(ac.find_matches(corpus)).into_iter().for_each(|_| {})
}

#[test]
fn kwd_containing_multi_byte_char_matches() {
    let k1 = "bé";
    let keywords = [k1];
    let corpus = "abé";
    let ac = AhoCorasick::new(&keywords);
    all(ac.find_matches(corpus)).into_iter().for_each(|_| {})
}

// The example from the documentation of `find_matches`: matches come in the
// order their last character appears, longest first at the same position.
#[test]
fn readme_example_orders_matches_by_end_then_length() {
    let ac = AhoCorasick::new(&["he", "she", "his", "hers"]);
    let res: Vec<&str> = texts(ac.find_matches("ushers"));
    assert_eq!(res, vec!["she", "he", "hers"]);
}

#[test]
fn readme_usage_example() {
    let keywords = ["fox", "dog"];
    let ac = AhoCorasick::new(&keywords);
    let res: Vec<&str> = texts(ac.find_matches("the quick brown fox jumps over the lazy dog"));
    assert_eq!(res, vec!["fox", "dog"]);
}

#[test]
fn match_start_is_a_byte_offset_after_multi_byte_chars() {
    let ac = AhoCorasick::new(&["llo"]);
    let res: Vec<(usize, &str)> =
        all(ac.find_matches("héllo")).into_iter().map(|m| (m.start, m.text)).collect();
    assert_eq!(res, vec![(3, "llo")]);
}

#[test]
fn multi_byte_keyword_is_found_with_byte_offset() {
    let ac = AhoCorasick::new(&["bé"]);
    let res: Vec<(usize, &str)> =
        all(ac.find_matches("abé")).into_iter().map(|m| (m.start, m.text)).collect();
    assert_eq!(res, vec![(1, "bé")]);
}

#[test]
fn four_byte_chars_are_matched() {
    let ac = AhoCorasick::new(&["🦀x", "x"]);
    let res: Vec<(usize, &str)> =
        all(ac.find_matches("a🦀x🦀x")).into_iter().map(|m| (m.start, m.text)).collect();
    assert_eq!(res, vec![(1, "🦀x"), (5, "x"), (6, "🦀x"), (10, "x")]);
}

#[test]
fn exhausted_search_keeps_returning_none() {
    let ac = AhoCorasick::new(&["ab"]);
    let mut m = ac.find_matches("ab");
    assert!(m.next().is_some());
    assert!(m.next().is_none());
    assert!(m.next().is_none());
}

#[test]
fn cloned_searcher_finds_the_same_matches() {
    let ac = AhoCorasick::new(&["ab", "b"]);
    let copy = ac.clone();
    assert_eq!(texts(copy.find_matches("abab")), texts(ac.find_matches("abab")));
}

#[test]
fn matches_are_exactly_the_byte_occurrences_of_the_keywords() {
    let keywords = ["é", "aé", "éa", "🦀é", "a", "", "zz"];
    let corpus = "aéaé🦀éaa";
    let ac = AhoCorasick::new(&keywords);
    let mut found: Vec<(usize, &str)> = all(ac.find_matches(corpus))
        .into_iter()
        .map(|m| (m.start, m.text))
        .collect();
    let bytes = corpus.as_bytes();
    let mut expected: Vec<(usize, &str)> = Vec::new();
    for k in keywords.iter().filter(|k| !k.is_empty()) {
        let kb = k.as_bytes();
        for i in 0..bytes.len() {
            if i + kb.len() <= bytes.len() && &bytes[i..i + kb.len()] == kb {
                expected.push((i, *k));
            }
        }
    }
    let before_dedup = found.len();
    found.sort();
    found.dedup();
    assert_eq!(found.len(), before_dedup);
    expected.sort();
    assert_eq!(found, expected);
}
