//! An index of pronoun sets: five grammatical forms per set, stored in a
//! ternary search tree and looked up with partially specified keys.

pub mod guarantees;
pub mod listing;
pub mod lookup;
pub mod query;
pub mod trie;
pub mod words;

pub use lookup::{lookup, query_path, resolve, split_path, url_to_trie_query, Error, Page};
pub use query::first_wildcard;
pub use trie::{EmptyInputError, PronounTrie, FORMS};
pub use words::{compare_words, ends_with_char};

use vstd::prelude::*;

verus! {

/// One pronoun set: its five forms in their fixed order, and whether it is
/// inflected as a singular pronoun.
#[derive(Clone, Debug, PartialEq, Eq)]
pub struct PronounSet {
    pub nominative: String,
    pub accusative: String,
    pub determiner: String,
    pub possessive: String,
    pub reflexive: String,
    pub singular: bool,
}

impl PronounSet {
    /// The five forms, subject form first and reflexive form last.
    pub open spec fn key(&self) -> Seq<Seq<char>> {
        seq![
            self.nominative@,
            self.accusative@,
            self.determiner@,
            self.possessive@,
            self.reflexive@,
        ]
    }
}

impl PronounSet {
    /// The path of this set: its five forms, each after a slash.
    pub fn url(&self) -> (r: String)
        ensures
            r@ == "/"@ + self.nominative@ + "/"@ + self.accusative@ + "/"@ + self.determiner@ + "/"@
                + self.possessive@ + "/"@ + self.reflexive@,
    {
        let mut r = String::from_str("/");
        r.append(self.nominative.as_str());
        r.append("/");
        r.append(self.accusative.as_str());
        r.append("/");
        r.append(self.determiner.as_str());
        r.append("/");
        r.append(self.possessive.as_str());
        r.append("/");
        r.append(self.reflexive.as_str());
        r
    }

    /// The short name of this set: subject and object form, split by a slash.
    pub fn title(&self) -> (r: String)
        ensures
            r@ == self.nominative@ + "/"@ + self.accusative@,
    {
        let mut r = self.nominative.clone();
        r.append("/");
        r.append(self.accusative.as_str());
        r
    }

    /// Whether the dependent possessive form ends in `s`.
    pub fn plural(&self) -> (r: bool)
        ensures
            r == (self.determiner@.len() > 0 && self.determiner@.last() == 's'),
    {
        ends_with_char(self.determiner.as_str(), 's')
    }
}

impl View for PronounSet {
    type V = (Seq<Seq<char>>, bool);

    open spec fn view(&self) -> (Seq<Seq<char>>, bool) {
        (self.key(), self.singular)
    }
}

/// The views of a sequence of pronoun sets.
pub open spec fn sets_view(s: Seq<PronounSet>) -> Seq<(Seq<Seq<char>>, bool)> {
    s.map_values(|p: PronounSet| p@)
}

} // verus!
