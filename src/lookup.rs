//! Reading a request path as a query, and deciding what a lookup answers.

use vstd::prelude::*;
use std::cmp::Ordering;
use vstd::std_specs::iter::IteratorSpec;

use crate::query::{first_wildcard, first_wildcard_from, padded, query_view, selected};
use crate::trie::{words_of, FORMS};
use crate::words::{compare_words, ends_with_char};
use crate::{PronounSet, PronounTrie, sets_view};

verus! {

/// The segments of `s` between slashes, empty ones included; there is always
/// at least one.
pub open spec fn segments(s: Seq<char>) -> Seq<Seq<char>>
    decreases s.len(),
{
    if s.len() == 0 {
        seq![Seq::empty()]
    } else {
        let rest = segments(s.drop_last());
        if s.last() == '/' {
            rest.push(Seq::empty())
        } else {
            rest.update(rest.len() - 1, rest.last().push(s.last()))
        }
    }
}

/// A path segment as a query position: `...` and the empty segment are wildcards.
pub open spec fn segment_query(w: Seq<char>) -> Option<Seq<char>> {
    if w == "..."@ || w.len() == 0 {
        None
    } else {
        Some(w)
    }
}

/// The query that a path spells, one position per segment.
pub open spec fn path_query(s: Seq<char>) -> Seq<Option<Seq<char>>> {
    segments(s).map_values(|w: Seq<char>| segment_query(w))
}

/// A query of words only and shorter than five is read as a prefix: a
/// wildcard follows its last word.
pub open spec fn as_prefix(q: Seq<Option<Seq<char>>>) -> Seq<Option<Seq<char>>> {
    if q.len() < FORMS && first_wildcard_from(q, 0) == q.len() {
        q.push(None)
    } else {
        q
    }
}

/// The entries of `s` that the path `path` asks for; a path of more than five
/// segments asks for none.
pub open spec fn path_matches(s: Seq<(Seq<Seq<char>>, bool)>, path: Seq<char>) -> Seq<(Seq<Seq<char>>, bool)> {
    let q = as_prefix(path_query(path));
    if q.len() <= FORMS {
        selected(s, padded(q))
    } else {
        Seq::empty()
    }
}

proof fn lemma_segments_len(s: Seq<char>)
    ensures
        segments(s).len() >= 1,
    decreases s.len(),
{
    if s.len() > 0 {
        lemma_segments_len(s.drop_last());
    }
}

/// Splits `path` at every slash.
pub fn split_path(path: &str) -> (r: Vec<String>)
    ensures
        words_of(r@) == segments(path@),
{
    let n = path.unicode_len();
    let mut parts: Vec<String> = Vec::new();
    let mut chars = path.chars();
    let mut start: usize = 0;
    let mut i: usize = 0;
    proof {
        assert(path@.take(0) =~= Seq::<char>::empty());
        assert(words_of(parts@).push(path@.subrange(0, 0)) =~= seq![Seq::<char>::empty()]);
    }
    while i < n
        invariant
            n == path@.len(),
            start <= i <= n,
            chars.remaining() == path@.skip(i as int),
            chars.obeys_prophetic_iter_laws(),
            words_of(parts@).push(path@.subrange(start as int, i as int)) == segments(path@.take(i as int)),
        decreases n - i,
    {
        let ghost before = words_of(parts@);
        let ghost s0 = start;
        let next = chars.next();
        proof {
            lemma_segments_len(path@.take(i as int));
            assert(path@.take(i + 1).drop_last() =~= path@.take(i as int));
            assert(path@.skip(i as int)[0] == path@[i as int]);
            assert(chars.remaining() =~= path@.skip(i + 1));
        }
        if let Some(c) = next {
            if c == '/' {
                parts.push(path.substring_char(start, i).to_owned());
                start = i + 1;
                proof {
                    assert(words_of(parts@) =~= before.push(path@.subrange(s0 as int, i as int)));
                    assert(path@.take(i + 1).last() == '/');
                    assert(segments(path@.take(i + 1)) == segments(path@.take(i as int)).push(Seq::empty()));
                    assert(path@.subrange(start as int, i + 1) =~= Seq::<char>::empty());
                    assert(words_of(parts@).push(path@.subrange(start as int, i + 1)) =~= segments(
                        path@.take(i + 1),
                    ));
                }
            } else {
                proof {
                    assert(path@.subrange(start as int, i + 1) =~= path@.subrange(start as int, i as int).push(c));
                    assert(words_of(parts@).push(path@.subrange(start as int, i + 1)) =~= segments(
                        path@.take(i + 1),
                    ));
                }
            }
        }
        i += 1;
    }
    let ghost before = words_of(parts@);
    parts.push(path.substring_char(start, i).to_owned());
    proof {
        assert(path@.take(i as int) =~= path@);
        assert(words_of(parts@) =~= before.push(path@.subrange(start as int, i as int)));
    }
    parts
}

/// Reads a path as a query: one position per slash-separated segment, where
/// `...` and the empty segment are wildcards.
pub fn url_to_trie_query(url: String) -> (r: Vec<Option<String>>)
    ensures
        query_view(r@) == path_query(url@),
{
    let parts = split_path(url.as_str());
    let mut r: Vec<Option<String>> = Vec::new();
    let mut i: usize = 0;
    proof {
        reveal_strlit("...");
    }
    while i < parts.len()
        invariant
            i <= parts@.len(),
            words_of(parts@) == segments(url@),
            query_view(r@) == path_query(url@).take(i as int),
        decreases parts@.len() - i,
    {
        let part = &parts[i];
        let wildcard = match compare_words(part.as_str(), "...") {
            Ordering::Equal => true,
            _ => part.as_str().is_empty(),
        };
        let ghost before = query_view(r@);
        if wildcard {
            r.push(None);
        } else {
            r.push(Some(part.clone()));
        }
        proof {
            assert(words_of(parts@)[i as int] == part@);
            assert(query_view(r@) =~= before.push(segment_query(part@)));
            assert(path_query(url@).take(i + 1) =~= path_query(url@).take(i as int).push(segment_query(part@)));
        }
        i += 1;
    }
    proof {
        assert(path_query(url@).take(i as int) =~= path_query(url@));
    }
    r
}

/// The stored pronoun sets that `path` asks for, in ascending order of forms.
/// A path of words only and fewer than five segments is read as a prefix.
pub fn query_path(trie: &PronounTrie, path: &str) -> (r: Vec<PronounSet>)
    requires
        trie.well_formed(),
    ensures
        sets_view(r@) == path_matches(trie@, path@),
{
    let mut key = url_to_trie_query(String::from_str(path));
    if key.len() > FORMS {
        return Vec::new();
    }
    if key.len() < FORMS && first_wildcard(&key) == key.len() {
        let ghost before = query_view(key@);
        key.push(None);
        proof {
            assert(query_view(key@) =~= before.push(None));
        }
    }
    trie.guess(&mut key)
}

/// Why a lookup has no answer.
#[derive(Clone, Debug, PartialEq, Eq)]
pub struct Error {
    pub message: String,
}

/// The message for a path that names no stored pronoun set.
pub open spec fn not_found_message(path: Seq<char>) -> Seq<char> {
    "can't find "@ + path + " in my database"@
}

impl Error {
    /// The error for a path that names no stored pronoun set.
    pub fn not_found(path: &str) -> (r: Error)
        ensures
            r.message@ == not_found_message(path@),
    {
        let mut message = String::from_str("can't find ");
        message.append(path);
        message.append(" in my database");
        Error { message }
    }
}

/// Every stored pronoun set that `path` asks for, in ascending order of forms,
/// or an error when there is none.
pub fn lookup(trie: &PronounTrie, path: &str) -> (r: Result<Vec<PronounSet>, Error>)
    requires
        trie.well_formed(),
    ensures
        r is Err <==> path_matches(trie@, path@).len() == 0,
        r is Ok ==> sets_view(r->Ok_0@) == path_matches(trie@, path@),
        r is Err ==> r->Err_0.message@ == not_found_message(path@),
{
    let found = query_path(trie, path);
    if found.len() > 0 {
        Ok(found)
    } else {
        Err(Error::not_found(path))
    }
}

/// What a page for a path shows.
#[derive(Clone, Debug, PartialEq, Eq)]
pub enum Page {
    /// Several stored sets match; the visitor is offered each of them.
    Ambiguous(Vec<PronounSet>),
    /// Exactly one stored set matches.
    Found(PronounSet),
    /// No stored set matches, but the path names five forms: they are shown
    /// as they are, singular unless the reflexive form ends in `s`.
    Custom(PronounSet),
    /// Nothing matches and the path does not name five forms.
    NotFound,
}

/// Decides what the page for `path` shows.
pub fn resolve(trie: &PronounTrie, path: &str) -> (r: Page)
    requires
        trie.well_formed(),
    ensures
        ({
            let m = path_matches(trie@, path@);
            let parts = segments(path@);
            match r {
                Page::Ambiguous(v) => m.len() > 1 && sets_view(v@) == m,
                Page::Found(p) => m.len() == 1 && p@ == m[0],
                Page::Custom(p) => m.len() == 0 && parts.len() == FORMS && p.key() == parts
                    && p.singular == !(parts[4].len() > 0 && parts[4].last() == 's'),
                Page::NotFound => m.len() == 0 && parts.len() != FORMS,
            }
        }),
{
    let mut found = query_path(trie, path);
    if found.len() > 1 {
        return Page::Ambiguous(found);
    }
    if let Some(p) = found.pop() {
        return Page::Found(p);
    }
    let parts = split_path(path);
    if parts.len() == FORMS {
        let singular = !ends_with_char(parts[4].as_str(), 's');
        let p = PronounSet {
            nominative: parts[0].clone(),
            accusative: parts[1].clone(),
            determiner: parts[2].clone(),
            possessive: parts[3].clone(),
            reflexive: parts[4].clone(),
            singular,
        };
        proof {
            assert(p.key() =~= words_of(parts@));
        }
        Page::Custom(p)
    } else {
        Page::NotFound
    }
}

} // verus!
