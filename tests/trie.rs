use pronouns::{EmptyInputError, PronounSet, PronounTrie};

fn set(forms: [&str; 5], singular: bool) -> PronounSet {
    PronounSet {
        nominative: forms[0].to_string(),
        accusative: forms[1].to_string(),
        determiner: forms[2].to_string(),
        possessive: forms[3].to_string(),
        reflexive: forms[4].to_string(),
        singular,
    }
}

fn she() -> PronounSet {
    set(["she", "her", "her", "hers", "herself"], true)
}

fn he() -> PronounSet {
    set(["he", "him", "his", "his", "himself"], true)
}

fn they() -> PronounSet {
    set(["they", "them", "their", "theirs", "themselves"], false)
}

fn dataset() -> PronounTrie {
    PronounTrie::build(vec![she(), he(), they()]).unwrap()
}

fn key(words: &[Option<&str>]) -> Vec<Option<String>> {
    words.iter().map(|w| w.map(|s| s.to_string())).collect()
}

#[test]
fn build_empty_fails() {
    assert_eq!(PronounTrie::build(vec![]).err(), Some(EmptyInputError));
}

#[test]
fn gather_lists_every_set_in_ascending_order() {
    let trie = dataset();
    assert_eq!(trie.gather(), vec![he(), she(), they()]);
}

#[test]
fn gather_round_trips_in_any_input_order() {
    let trie = PronounTrie::build(vec![they(), he(), she()]).unwrap();
    assert_eq!(trie.gather(), vec![he(), she(), they()]);
    let one = PronounTrie::build(vec![they()]).unwrap();
    assert_eq!(one.gather(), vec![they()]);
}

#[test]
fn query_first_form_then_wildcards() {
    let trie = dataset();
    let mut k = key(&[Some("she"), None, None, None, None]);
    assert_eq!(trie.guess(&mut k), vec![she()]);
}

#[test]
fn query_all_wildcards_lists_everything() {
    let trie = dataset();
    let mut k = key(&[None, None, None, None, None]);
    let found = trie.guess(&mut k);
    assert_eq!(found, vec![he(), she(), they()]);
    assert_eq!(found, trie.gather());
}

#[test]
fn query_exact_key_finds_one() {
    let trie = dataset();
    let mut k = key(&[Some("he"), Some("him"), Some("his"), Some("his"), Some("himself")]);
    assert_eq!(trie.guess(&mut k), vec![he()]);
}

#[test]
fn exact_key_of_every_stored_set_round_trips() {
    let trie = dataset();
    for p in trie.gather() {
        let mut k = vec![
            Some(p.nominative.clone()),
            Some(p.accusative.clone()),
            Some(p.determiner.clone()),
            Some(p.possessive.clone()),
            Some(p.reflexive.clone()),
        ];
        assert_eq!(trie.guess(&mut k), vec![p]);
    }
}

#[test]
fn short_key_is_padded_before_first_wildcard() {
    let trie = dataset();
    let mut k = key(&[Some("they"), None, Some("themselves")]);
    let found = trie.guess(&mut k);
    assert_eq!(k, key(&[Some("they"), None, None, None, Some("themselves")]));
    assert_eq!(found, vec![they()]);
}

#[test]
fn short_key_without_wildcard_matches_nothing() {
    let trie = dataset();
    let mut k = key(&[Some("she"), Some("her")]);
    assert_eq!(trie.guess(&mut k), vec![]);
    assert_eq!(k, key(&[Some("she"), Some("her")]));
}

#[test]
fn empty_key_lists_everything() {
    let trie = dataset();
    let mut k = key(&[]);
    assert_eq!(trie.guess(&mut k), vec![he(), she(), they()]);
    assert_eq!(k, key(&[None, None, None, None, None]));
}

#[test]
fn mismatched_word_matches_nothing() {
    let trie = dataset();
    let mut k = key(&[Some("she"), Some("him"), None, None, None]);
    assert_eq!(trie.guess(&mut k), vec![]);
    let mut k = key(&[Some("xe"), None, None, None, None]);
    assert_eq!(trie.guess(&mut k), vec![]);
}

#[test]
fn wildcard_in_middle_selects_several() {
    let trie = PronounTrie::build(vec![
        set(["it", "it", "its", "its", "itself"], true),
        he(),
        set(["he", "him", "his", "his", "hisself"], true),
    ])
    .unwrap();
    let mut k = key(&[Some("he"), None, None, None, None]);
    assert_eq!(
        trie.guess(&mut k),
        vec![he(), set(["he", "him", "his", "his", "hisself"], true)]
    );
    let mut k = key(&[None, None, None, None, Some("itself")]);
    assert_eq!(trie.guess(&mut k), vec![set(["it", "it", "its", "its", "itself"], true)]);
}

#[test]
fn duplicate_insert_keeps_one_with_last_flag() {
    let mut again = she();
    again.singular = false;
    let trie = PronounTrie::build(vec![she(), he(), again.clone()]).unwrap();
    assert_eq!(trie.gather(), vec![he(), again]);
    let trie = PronounTrie::build(vec![she(), she()]).unwrap();
    assert_eq!(trie.gather(), vec![she()]);
}

#[test]
fn ordering_is_by_code_point_then_length() {
    let trie = PronounTrie::build(vec![
        set(["b", "x", "x", "x", "x"], false),
        set(["ab", "x", "x", "x", "x"], false),
        set(["a", "x", "x", "x", "x"], false),
        set(["B", "x", "x", "x", "x"], false),
        set(["a", "x", "x", "x", "w"], true),
    ])
    .unwrap();
    let firsts: Vec<(String, String)> = trie
        .gather()
        .into_iter()
        .map(|p| (p.nominative, p.reflexive))
        .collect();
    let expected: Vec<(String, String)> = [("B", "x"), ("a", "w"), ("a", "x"), ("ab", "x"), ("b", "x")]
        .iter()
        .map(|(a, b)| (a.to_string(), b.to_string()))
        .collect();
    assert_eq!(firsts, expected);
}
