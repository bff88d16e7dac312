use std::cmp::Ordering;

use pronouns::{
    compare_words, ends_with_char, first_wildcard, lookup, query_path, resolve, split_path,
    url_to_trie_query, Error, Page, PronounSet, PronounTrie,
};

fn set(forms: [&str; 5], singular: bool) -> PronounSet {
    PronounSet {
        nominative: forms[0].to_string(),
        accusative: forms[1].to_string(),
        determiner: forms[2].to_string(),
        possessive: forms[3].to_string(),
        reflexive: forms[4].to_string(),
        singular,
    }
}

fn she() -> PronounSet {
    set(["she", "her", "her", "hers", "herself"], true)
}

fn he() -> PronounSet {
    set(["he", "him", "his", "his", "himself"], true)
}

fn they() -> PronounSet {
    set(["they", "them", "their", "theirs", "themselves"], false)
}

fn dataset() -> PronounTrie {
    PronounTrie::build(vec![she(), he(), they()]).unwrap()
}

#[test]
fn url_joins_forms_with_slashes() {
    assert_eq!(she().url(), "/she/her/her/hers/herself");
}

#[test]
fn title_is_subject_and_object() {
    assert_eq!(they().title(), "they/them");
}

#[test]
fn plural_reads_dependent_possessive() {
    assert!(!she().plural());
    assert!(he().plural());
    assert!(!set(["a", "b", "", "d", "e"], true).plural());
}

#[test]
fn compare_words_orders_like_str() {
    assert_eq!(compare_words("he", "she"), Ordering::Less);
    assert_eq!(compare_words("she", "she"), Ordering::Equal);
    assert_eq!(compare_words("they", "the"), Ordering::Greater);
    assert_eq!(compare_words("", "a"), Ordering::Less);
    assert_eq!(compare_words("Z", "a"), Ordering::Less);
    assert_eq!(compare_words("é", "z"), Ordering::Greater);
}

#[test]
fn ends_with_char_checks_last() {
    assert!(ends_with_char("hers", 's'));
    assert!(!ends_with_char("her", 's'));
    assert!(!ends_with_char("", 's'));
}

#[test]
fn split_path_keeps_empty_segments() {
    assert_eq!(split_path("she/her"), vec!["she", "her"]);
    assert_eq!(split_path(""), vec![""]);
    assert_eq!(split_path("a//b/"), vec!["a", "", "b", ""]);
}

#[test]
fn path_becomes_query_with_wildcards() {
    assert_eq!(
        url_to_trie_query("they/.../themselves".to_string()),
        vec![Some("they".to_string()), None, Some("themselves".to_string())]
    );
    assert_eq!(
        url_to_trie_query("she//hers".to_string()),
        vec![Some("she".to_string()), None, Some("hers".to_string())]
    );
    assert_eq!(url_to_trie_query("....".to_string()), vec![Some("....".to_string())]);
}

#[test]
fn first_wildcard_finds_index() {
    assert_eq!(first_wildcard(&vec![Some("a".to_string()), None, None]), 1);
    assert_eq!(first_wildcard(&vec![Some("a".to_string())]), 1);
    assert_eq!(first_wildcard(&vec![]), 0);
}

#[test]
fn query_path_reads_short_paths_as_prefixes() {
    let trie = dataset();
    assert_eq!(query_path(&trie, "she"), vec![she()]);
    assert_eq!(query_path(&trie, "she/her"), vec![she()]);
    assert_eq!(query_path(&trie, "they/.../themselves"), vec![they()]);
    assert_eq!(query_path(&trie, "..."), vec![he(), she(), they()]);
    assert_eq!(query_path(&trie, "she/him"), vec![]);
    assert_eq!(query_path(&trie, "she/her/her/hers/herself/x"), vec![]);
}

#[test]
fn lookup_reports_missing_path() {
    let trie = dataset();
    assert_eq!(lookup(&trie, "he"), Ok(vec![he()]));
    assert_eq!(
        lookup(&trie, "xe/xem"),
        Err(Error { message: "can't find xe/xem in my database".to_string() })
    );
}

#[test]
fn not_found_error_message() {
    assert_eq!(Error::not_found("she/his").message, "can't find she/his in my database");
}

#[test]
fn resolve_decides_page() {
    let trie = dataset();
    assert_eq!(resolve(&trie, "..."), Page::Ambiguous(vec![he(), she(), they()]));
    assert_eq!(resolve(&trie, "they/.../themselves"), Page::Found(they()));
    assert_eq!(
        resolve(&trie, "xe/xem/xyr/xyrs/xemself"),
        Page::Custom(set(["xe", "xem", "xyr", "xyrs", "xemself"], true))
    );
    assert_eq!(
        resolve(&trie, "ye/yem/yeir/yeirs/yemselves"),
        Page::Custom(set(["ye", "yem", "yeir", "yeirs", "yemselves"], false))
    );
    assert_eq!(resolve(&trie, "xe/xem"), Page::NotFound);
}
