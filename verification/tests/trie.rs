use std::collections::VecDeque;

use corrosick::trie::{NodeId, Trie};

fn traverse_trie_in_bfs(trie: Trie) -> String {
    let mut string = String::from("");
    let mut queue: VecDeque<NodeId> = VecDeque::from(vec![0]);
    while !queue.is_empty() {
        if let Some(id) = queue.pop_front() {
            let node = trie.get_node(id);
            let mut children: Vec<_> = node.children.iter().collect();
            children.sort_by_key(|(c, _)| **c);
            for (character, new_id) in children {
                string.push(char::from_u32(*character).unwrap());
                queue.push_back(*new_id)
            }
        }
    }
    string.to_string()
}

#[test]
fn add_keyword_builds_trie() {
    let k1 = "abcd";
    let keywords = [k1];
    let trie = Trie::build_trie(&keywords);
    let res = traverse_trie_in_bfs(trie.clone());
    assert_eq!(res, "abcd");
}

#[test]
fn add_2_keyword_builds_trie() {
    let k1 = "abcd";
    let k2 = "efgh";
    let keywords = [k1, k2];
    let trie = Trie::build_trie(&keywords);
    let res = traverse_trie_in_bfs(trie.clone());
    assert_eq!(res, "aebfcgdh");
}

#[test]
fn add_2_keyword_with_same_first_character_builds_trie() {
    let k1 = "abcd";
    let k2 = "afgh";
    let keywords = [k1, k2];
    let trie = Trie::build_trie(&keywords);
    let res = traverse_trie_in_bfs(trie.clone());
    assert_eq!(res, "abfcgdh");
}

#[test]
fn trie_shares_common_prefix_between_keywords() {
    let k1 = "abcd";
    let k2 = "afgh";
    let keywords = [k1, k2];
    let trie = Trie::build_trie(&keywords);
    let id = trie.follow("a").expect("a should exist.");
    let node = trie.get_node(id);
    assert_eq!(node.children.len(), 2);
}

#[test]
fn trie_does_not_duplicate_existing_path() {
    let k1 = "abcd";
    let k2 = "afgh";
    let keywords = [k1, k2];
    let trie = Trie::build_trie(&keywords);
    let id = trie.follow("a").expect("a should exist.");
    let node = trie.get_node(id);
    assert_eq!(node.children.len(), 2);
}

#[test]
fn final_letter_is_end_true() {
    let k1 = "abcd";
    let keywords = [k1];
    let trie = Trie::build_trie(&keywords);
    let id = trie.follow(k1).expect("path should exist.");
    let node = trie.get_node(id);
    assert!(node.end_length.is_some());
}

#[test]
fn mid_trie_keyword_end_is_end() {
    let k1 = "abcd";
    let k2 = "ab";
    let keywords = [k1, k2];
    let trie = Trie::build_trie(&keywords);
    let id = trie.follow(k2).expect("path should exist.");
    let node = trie.get_node(id);
    assert!(node.end_length.is_some());
}

#[test]
fn only_end_words_is_end() {
    let k1 = "abcd";
    let k2 = "ab";
    let keywords = [k1, k2];
    let trie = Trie::build_trie(&keywords);
    let non_end_paths = ["a", "abc"];
    for path in non_end_paths {
        let id = trie.follow(path).expect("path should exist.");
        let node = trie.get_node(id);
        assert!(node.end_length.is_none());
    }
}

#[test]
fn end_on_multiple_branches_is_end() {
    let k1 = "abcd";
    let k2 = "efgh";
    let keywords = [k1, k2];
    let trie = Trie::build_trie(&keywords);
    for path in keywords {
        let id = trie.follow(path).expect("path should exist.");
        let node = trie.get_node(id);
        assert!(node.end_length.is_some());
    }
}

#[test]
fn all_suffix_links_on_single_keyword_point_to_root() {
    let k1 = "abcd";
    let keywords = [k1];
    let trie = Trie::build_trie(&keywords);
    let prefixes: Vec<String> = (1..=k1.len()).map(|i| k1[..i].to_string()).collect();
    for path in prefixes {
        let id = trie.follow(&path).expect("path should exist.");
        assert_eq!(trie.get_suffix(id), 0);
    }
}

#[test]
fn suffix_link_on_letter_in_root_points_to_node() {
    let k1 = "abcad";
    let keywords = [k1];
    let trie = Trie::build_trie(&keywords);
    let path = "abca";
    let id = trie.follow(path).expect("path should exist.");
    assert_eq!(trie.get_suffix(id), 1);
}

#[test]
fn suffix_link_points_to_another_branch() {
    let k1 = "abced";
    let k2 = "efgh";
    let keywords = [k1, k2];
    let trie = Trie::build_trie(&keywords);
    let path = "abce";
    let id = trie.follow(path).expect("path should exist.");
    let obs_suffix = trie.get_suffix(id);
    let exp_path = "e";
    let exp_id = trie.follow(exp_path).expect("path should exist.");
    assert_eq!(obs_suffix, exp_id);
}

#[test]
fn multi_char_suffix_link_points_to_another_branch() {
    let k1 = "abcefd";
    let k2 = "efgh";
    let keywords = [k1, k2];
    let trie = Trie::build_trie(&keywords);
    let path = "abcef";
    let id = trie.follow(path).expect("path should exist.");
    let obs_suffix = trie.get_suffix(id);
    let exp_path = "ef";
    let exp_id = trie.follow(exp_path).expect("path should exist.");
    assert_eq!(obs_suffix, exp_id);
}

#[test]
fn multi_hop_suffix_fallback() {
    let k1 = "ate";
    let k2 = "coats";
    let k3 = "ta";
    let keywords = [k1, k2, k3];
    let trie = Trie::build_trie(&keywords);
    let path = "coat";
    let id = trie.follow(path).expect("path should exist.");
    let obs_suffix = trie.get_suffix(id);
    let suffix_1_path = "at";
    let suffix_1_id = trie.follow(suffix_1_path).expect("path should exist.");
    assert_eq!(obs_suffix, suffix_1_id);
    let suffix_1_suffix = trie.get_suffix(suffix_1_id);
    let suffix_2_path = "t";
    let suffix_2_id = trie.follow(suffix_2_path).expect("path should exist.");
    assert_eq!(suffix_1_suffix, suffix_2_id);
}

#[test]
fn new_keyword_suffix_link_to_root() {
    let k1 = "abcd";
    let k2 = "e";
    let keywords = [k1, k2];
    let trie = Trie::build_trie(&keywords);
    let path = "e";
    let id = trie.follow(path).expect("path should exist.");
    assert_eq!(trie.get_suffix(id), 0);
}

#[test]
fn keyword_containing_keyword_has_output_node() {
    let k1 = "abcd";
    let k2 = "bc";
    let keywords = [k1, k2];
    let trie = Trie::build_trie(&keywords);
    let path = "abc";
    let id = trie.follow(path).expect("path should exist.");
    let exp_path = "bc";
    let exp_id = trie.follow(exp_path).expect("path should exist.");
    assert_eq!(trie.get_output(id).unwrap(), exp_id)
}

#[test]
fn output_links_are_none_for_single_keyword() {
    let k1 = "abcd";
    let keywords = [k1];
    let trie = Trie::build_trie(&keywords);
    let prefixes: Vec<String> = (1..=k1.len()).map(|i| k1[..i].to_string()).collect();
    for path in prefixes {
        let id = trie.follow(&path).expect("path should exist.");
        assert_eq!(trie.get_output(id), None);
    }
}

#[test]
fn output_link_is_inherited() {
    let k1 = "c";
    let k2 = "bcx";
    let k3 = "abc";
    let keywords = [k1, k2, k3];
    let trie = Trie::build_trie(&keywords);
    let bc_id = trie.follow("bc").expect("path should exist.");
    assert!(trie.get_node(bc_id).end_length.is_none());
    let abc_id = trie.follow("abc").expect("path should exist");
    let exp_id = trie.follow("c").expect("path should exist");
    assert_eq!(trie.get_output(abc_id).unwrap(), exp_id)
}

#[test]
fn multiple_kwds_picked_up_in_output_links() {
    let k1 = "abcd";
    let k2 = "bcd";
    let k3 = "cd";
    let keywords = [k1, k2, k3];
    let trie = Trie::build_trie(&keywords);
    let k1_id = trie.follow(k1).unwrap();
    let k1_output = trie.get_output(k1_id).unwrap();
    let k2_id = trie.follow(k2).unwrap();
    assert_eq!(k1_output, k2_id);
    let k2_output = trie.get_output(k2_id).unwrap();
    let k3_id = trie.follow(k3).unwrap();
    assert_eq!(k2_output, k3_id);
}

#[test]
fn public_getters_match_trie_node_fields() {
    let k1 = "abcd";
    let k2 = "cd";
    let keywords = [k1, k2];
    let trie = Trie::build_trie(&keywords);
    let a_id = trie.follow("a").unwrap();
    assert_eq!(trie.character_at_node(0, 'a'), Some(&a_id));
    assert_eq!(trie.character_at_node(0, 'z'), None);
    let abcd_id = trie.follow(k1).unwrap();
    assert_eq!(trie.get_suffix(abcd_id), trie.follow(k2).unwrap());
    assert_eq!(trie.get_end(abcd_id), Some(4));
    assert_eq!(trie.get_end(a_id), None);
    assert_eq!(trie.get_output(abcd_id), trie.follow(k2));
}

#[test]
fn subset_keyword_pucks_up_output() {
    let k1 = "abcd";
    let k2 = "cd";
    let keywords = [k1, k2];
    let trie = Trie::build_trie(&keywords);
    let k1_id = trie.follow(k1).unwrap();
    let k1_output = trie.get_output(k1_id).unwrap();
    let k2_id = trie.follow(k2).unwrap();
    let k2_output = trie.get_output(k2_id);
    assert_eq!(k1_output, k2_id);
    assert!(k2_output.is_none());
}

#[test]
fn empty_keyword_adds_no_node() {
    let trie = Trie::build_trie(&["", "ab"]);
    assert_eq!(trie.follow(""), Some(0));
    assert!(trie.get_end(0).is_none());
    assert_eq!(traverse_trie_in_bfs(trie.clone()), "ab");
}

#[test]
fn follow_missing_path_is_none() {
    let trie = Trie::build_trie(&["abc"]);
    assert_eq!(trie.follow("abd"), None);
    assert_eq!(trie.follow("abcd"), None);
    assert!(trie.follow("ab").is_some());
}

#[test]
fn end_length_counts_bytes() {
    let trie = Trie::build_trie(&["héllo", "🦀"]);
    let id = trie.follow("héllo").unwrap();
    assert_eq!(trie.get_end(id), Some(6));
    let crab = trie.follow("🦀").unwrap();
    assert_eq!(trie.get_end(crab), Some(4));
    assert_eq!(trie.character_at_node(0, '🦀'), Some(&crab));
}

#[test]
fn default_trie_has_only_the_root() {
    let trie = Trie::default();
    assert_eq!(trie.follow(""), Some(0));
    assert_eq!(trie.follow("a"), None);
    assert_eq!(trie.get_suffix(0), 0);
    assert_eq!(trie.get_output(0), None);
}

#[test]
fn nodes_are_numbered_in_order_of_creation() {
    let trie = Trie::build_trie(&["she", "he", "hers"]);
    assert_eq!(trie.follow(""), Some(0));
    assert_eq!(trie.follow("s"), Some(1));
    assert_eq!(trie.follow("sh"), Some(2));
    assert_eq!(trie.follow("she"), Some(3));
    assert_eq!(trie.follow("h"), Some(4));
    assert_eq!(trie.follow("he"), Some(5));
    assert_eq!(trie.follow("her"), Some(6));
    assert_eq!(trie.follow("hers"), Some(7));
    assert_eq!(trie.follow("hersx"), None);
}

#[test]
fn a_shorter_later_keyword_reuses_existing_nodes() {
    let trie = Trie::build_trie(&["abc", "ab", "abd"]);
    assert_eq!(trie.follow("a"), Some(1));
    assert_eq!(trie.follow("ab"), Some(2));
    assert_eq!(trie.follow("abc"), Some(3));
    assert_eq!(trie.follow("abd"), Some(4));
    assert_eq!(trie.get_end(2), Some(2));
    assert_eq!(trie.get_end(1), None);
}

#[test]
fn empty_keyword_among_others_changes_nothing() {
    let with_empty = Trie::build_trie(&["ab", "", "b"]);
    let without = Trie::build_trie(&["ab", "b"]);
    for path in ["", "a", "ab", "b", "ba"] {
        assert_eq!(with_empty.follow(path), without.follow(path));
    }
    for id in 0..4 {
        assert_eq!(with_empty.get_end(id), without.get_end(id));
        assert_eq!(with_empty.get_suffix(id), without.get_suffix(id));
        assert_eq!(with_empty.get_output(id), without.get_output(id));
    }
    assert_eq!(with_empty.get_end(0), None);
}
