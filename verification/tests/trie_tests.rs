use std::collections::HashSet;

use suffix_trie::SuffixTrie;

fn result_set(r: Option<Vec<String>>) -> Option<HashSet<String>> {
    r.map(|v| v.into_iter().collect())
}

fn set_of(items: &[&str]) -> HashSet<String> {
    items.iter().map(|s| s.to_string()).collect()
}

#[test]
fn find_prefixes() {
    let dict = vec![
        "Huuu", "Helo", "Hello", "Helium",
        "Mem", "Memory", "Meme", "Memento",
        "Tempo", "Templar", "Temporary",
        "Demo", "Democracy", "Demonstration",
    ];
    let mut suf_trie = SuffixTrie::new();

    for word in &dict {
        suf_trie.add_word(word.to_string());
    }

    let expected_he = HashSet::from(["lo".to_string(), "lium".to_string(), "llo".to_string()]);
    let expected_me = HashSet::from(["m".to_string(), "me".to_string(), "mento".to_string(), "mory".to_string()]);
    let expected_temp = HashSet::from(["o".to_string(), "lar".to_string(), "orary".to_string()]);
    let expected_dem = HashSet::from(["o".to_string(), "onstration".to_string(), "ocracy".to_string()]);

    assert_eq!(result_set(suf_trie.find_prefixes("He")), Some(expected_he));
    assert_eq!(result_set(suf_trie.find_prefixes("Me")), Some(expected_me));
    assert_eq!(result_set(suf_trie.find_prefixes("Temp")), Some(expected_temp));
    assert_eq!(result_set(suf_trie.find_prefixes("Dem")), Some(expected_dem));

    assert_eq!(result_set(suf_trie.find_prefixes("Z")), None);

    let expected_h = HashSet::from([
        "uuu".to_string(), "elo".to_string(), "ello".to_string(), "elium".to_string()
    ]);
    assert_eq!(result_set(suf_trie.find_prefixes("H")), Some(expected_h));
}

#[test]
fn duplicate_insert_leaves_queries_unchanged() {
    let mut trie = SuffixTrie::new();
    trie.add_word("Meme".to_string());
    trie.add_word("Memory".to_string());
    let before_me = result_set(trie.find_prefixes("Me"));
    let before_all = result_set(trie.find_prefixes(""));
    let before_miss = result_set(trie.find_prefixes("X"));

    trie.add_word("Meme".to_string());

    assert_eq!(result_set(trie.find_prefixes("Me")), before_me);
    assert_eq!(result_set(trie.find_prefixes("")), before_all);
    assert_eq!(result_set(trie.find_prefixes("X")), before_miss);
    // the dictionary log itself keeps the duplicate
    assert_eq!(trie.display_string(), "Meme\nMemory\nMeme");
}

#[test]
fn empty_prefix_returns_every_word() {
    let mut trie = SuffixTrie::new();
    trie.add_word("Tempo".to_string());
    trie.add_word("Demo".to_string());
    trie.add_word("Mem".to_string());
    assert_eq!(
        result_set(trie.find_prefixes("")),
        Some(set_of(&["Tempo", "Demo", "Mem"]))
    );
}

#[test]
fn nothing_found_on_empty_trie() {
    let trie = SuffixTrie::new();
    assert_eq!(trie.find_prefixes(""), None);
    assert_eq!(trie.find_prefixes("a"), None);
}

#[test]
fn nothing_found_for_unmatched_prefix() {
    let mut trie = SuffixTrie::new();
    trie.add_word("Hello".to_string());
    assert_eq!(trie.find_prefixes("Helloo"), None);
    assert_eq!(trie.find_prefixes("ello"), None);
    assert_eq!(trie.find_prefixes("Z"), None);
}

#[test]
fn insertion_order_does_not_change_results() {
    let mut first = SuffixTrie::new();
    first.add_words(vec!["Demo".to_string(), "Democracy".to_string(), "Dent".to_string()]);
    let mut second = SuffixTrie::new();
    second.add_words(vec!["Dent".to_string(), "Demo".to_string(), "Democracy".to_string()]);

    for prefix in ["", "D", "De", "Dem", "Demo", "Dent", "Q"] {
        assert_eq!(
            result_set(first.find_prefixes(prefix)),
            result_set(second.find_prefixes(prefix))
        );
    }
}

#[test]
fn add_words_matches_repeated_add_word() {
    let mut by_list = SuffixTrie::new();
    by_list.add_words(vec!["a".to_string(), "ab".to_string()]);
    let mut one_by_one = SuffixTrie::new();
    one_by_one.add_word("a".to_string());
    one_by_one.add_word("ab".to_string());
    assert_eq!(
        result_set(by_list.find_prefixes("a")),
        result_set(one_by_one.find_prefixes("a"))
    );
    assert_eq!(by_list.display_string(), one_by_one.display_string());
}

#[test]
fn display_placeholder_when_empty() {
    let trie = SuffixTrie::new();
    assert_eq!(trie.display_string(), "dictionary is empty");
}

#[test]
fn display_joins_words_in_order() {
    let mut trie = SuffixTrie::new();
    trie.add_word("a".to_string());
    trie.add_word("b".to_string());
    assert_eq!(trie.display_string(), "a\nb");
}

#[test]
fn empty_word_is_indexed() {
    let mut trie = SuffixTrie::new();
    trie.add_word(String::new());
    assert_eq!(result_set(trie.find_prefixes("")), Some(set_of(&[""])));
    assert_eq!(trie.find_prefixes("x"), None);
}

#[test]
fn whole_word_query_yields_empty_continuation() {
    let mut trie = SuffixTrie::new();
    trie.add_word("Tempo".to_string());
    assert_eq!(result_set(trie.find_prefixes("Tempo")), Some(set_of(&[""])));
}

#[test]
fn multibyte_characters_are_indexed_per_character() {
    let mut trie = SuffixTrie::new();
    trie.add_word("h\u{e9}llo".to_string());
    trie.add_word("h\u{e9}ros".to_string());
    assert_eq!(
        result_set(trie.find_prefixes("h\u{e9}")),
        Some(set_of(&["llo", "ros"]))
    );
    assert_eq!(trie.find_prefixes("h\u{e8}"), None);
}

#[test]
fn node_records_suffixes() {
    let mut node = suffix_trie::Node::new();
    node.add_suffix("ab".to_string());
    node.add_suffix("ac".to_string());
    let found = node
        .find_by_prefix("a")
        .map(|v| v.into_iter().collect::<HashSet<String>>());
    assert_eq!(found, Some(set_of(&["b", "c"])));
    assert_eq!(node.find_by_prefix("b"), None);
    assert_eq!(
        node.find_by_prefix("").map(|v| v.into_iter().collect::<HashSet<String>>()),
        Some(set_of(&["ab", "ac"]))
    );
}

#[test]
fn query_results_hold_no_duplicates() {
    let mut trie = SuffixTrie::new();
    trie.add_word("ab".to_string());
    trie.add_word("ab".to_string());
    trie.add_word("abc".to_string());

    let continuations = trie.find_prefixes("a").unwrap();
    let as_set: HashSet<String> = continuations.iter().cloned().collect();
    assert_eq!(continuations.len(), as_set.len());
    assert_eq!(as_set, set_of(&["b", "bc"]));

    let all = trie.find_prefixes("").unwrap();
    let all_set: HashSet<String> = all.iter().cloned().collect();
    assert_eq!(all.len(), all_set.len());
    assert_eq!(all_set, set_of(&["ab", "abc"]));
}
