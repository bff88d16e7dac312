//! A ternary search tree over the five forms of a pronoun set.
//!
//! Each node holds one word at one of the five positions. `left` and `right`
//! hold the words at the same position that sort before and after it, and
//! `next` the tree of the following position, reached when the word matches.

use vstd::prelude::*;
use std::cmp::Ordering;

use crate::listing::{
    key_lt, lemma_lists_concat, lemma_lists_prepend,
    lemma_prefix_keys_add, lemma_prefix_keys_push, lists, prefix_keys, prefixed, prepend_word,
};
use crate::query::{
    accepts, first_wildcard, lemma_select_all, lemma_select_none,
    lemma_select_prepend, padded, query_accepts, query_view, selected,
};
use crate::words::{compare_words, word_lt, lemma_word_lt_irreflexive, lemma_word_lt_transitive};
use crate::{PronounSet, sets_view};

verus! {

/// The number of forms in a pronoun set, and so the depth of every stored path.
pub const FORMS: usize = 5;

/// `build` was handed no pronoun sets.
#[derive(Clone, Copy, Debug, PartialEq, Eq)]
pub struct EmptyInputError;

/// An index of pronoun sets, built once and then only read.
pub struct PronounTrie {
    inner: String,
    left: Option<Box<PronounTrie>>,
    right: Option<Box<PronounTrie>>,
    next: Option<Box<PronounTrie>>,
    /// Whether the pronoun set that ends at this node is singular; set only
    /// on nodes of the last position.
    singular: Option<bool>,
}

/// The views of a sequence of strings.
pub open spec fn words_of(v: Seq<String>) -> Seq<Seq<char>> {
    v.map_values(|s: String| s@)
}

/// What a sequence of pronoun sets stores when inserted in order: each key
/// maps to the flag of the last set that has it.
pub open spec fn stored(records: Seq<PronounSet>) -> Map<Seq<Seq<char>>, bool>
    decreases records.len(),
{
    if records.len() == 0 {
        Map::empty()
    } else {
        stored(records.drop_last()).insert(records.last().key(), records.last().singular)
    }
}

impl View for PronounTrie {
    type V = Seq<(Seq<Seq<char>>, bool)>;

    /// The stored pronoun sets, as (forms, singular) pairs in ascending order of forms.
    closed spec fn view(&self) -> Seq<(Seq<Seq<char>>, bool)> {
        self.items()
    }
}

impl PronounTrie {
    /// The tree is ordered at every position and every stored path has five words.
    pub closed spec fn well_formed(&self) -> bool {
        self.wf(FORMS as nat)
    }

    /// Builds the index of `pronouns`. A later set with the same five forms as
    /// an earlier one replaces its flag.
    pub fn build(pronouns: Vec<PronounSet>) -> (r: Result<PronounTrie, EmptyInputError>)
        ensures
            r is Err <==> pronouns@.len() == 0,
            r is Ok ==> r->Ok_0.well_formed() && lists(stored(pronouns@), r->Ok_0@),
    {
        let mut base: Option<Box<PronounTrie>> = None;
        let mut i: usize = 0;
        while i < pronouns.len()
            invariant
                0 <= i <= pronouns@.len(),
                Self::opt_wf(base, FORMS as nat),
                Self::opt_contents(base) == stored(pronouns@.take(i as int)),
                base is Some <==> i > 0,
            decreases pronouns@.len() - i,
        {
            let p = &pronouns[i];
            let key = vec![
                p.nominative.clone(),
                p.accusative.clone(),
                p.determiner.clone(),
                p.possessive.clone(),
                p.reflexive.clone(),
            ];
            proof {
                assert(words_of(key@).skip(0) =~= p.key());
                assert(pronouns@.take(i + 1).drop_last() =~= pronouns@.take(i as int));
            }
            Self::insert(&mut base, &key, 0, p.singular);
            i += 1;
        }
        proof {
            assert(pronouns@.take(i as int) =~= pronouns@);
        }
        match base {
            None => Err(EmptyInputError),
            Some(b) => {
                proof {
                    b.lemma_items_listed(FORMS as nat);
                }
                Ok(*b)
            },
        }
    }

    /// Every pronoun set that `key` accepts, in ascending order of forms. A
    /// wildcard (`None`) accepts any word. The empty key is read as five
    /// wildcards and so lists everything, as `gather` does. Another key
    /// shorter than five that holds a wildcard is first padded with wildcards
    /// before its first one; a shorter key without a wildcard accepts nothing.
    pub fn guess(&self, key: &mut Vec<Option<String>>) -> (r: Vec<PronounSet>)
        requires
            self.well_formed(),
            old(key)@.len() <= FORMS,
        ensures
            query_view(final(key)@) == padded(query_view(old(key)@)),
            old(key)@.len() == 0 ==> query_view(final(key)@) == Seq::new(FORMS as nat, |i: int| None::<Seq<char>>),
            sets_view(r@) == selected(self@, query_view(final(key)@)),
    {
        let len = key.len();
        let i = first_wildcard(key);
        if i < len || len == 0 {
            let ghost q = query_view(key@);
            let mut added: usize = 0;
            while added < FORMS - len
                invariant
                    len == q.len() <= FORMS,
                    i <= len,
                    added <= FORMS - len,
                    key@.len() == len + added,
                    query_view(key@) == q.take(i as int) + Seq::new(added as nat, |j: int| None::<Seq<char>>) + q.skip(i as int),
                decreases FORMS - len - added,
            {
                let ghost before = key@;
                key.insert(i, None);
                added += 1;
                proof {
                    assert(query_view(key@) =~= query_view(before).insert(i as int, None::<Seq<char>>));
                    assert(query_view(key@) =~= q.take(i as int) + Seq::new(added as nat, |j: int| None::<Seq<char>>) + q.skip(i as int));
                }
            }
            proof {
                if len == 0 {
                    assert(query_view(key@) =~= Seq::new(FORMS as nat, |j: int| None::<Seq<char>>));
                }
            }
        }
        let mut found: Vec<PronounSet> = Vec::new();
        proof {
            Self::lemma_opt_items_listed(Some(Box::new(*self)), FORMS as nat);
        }
        if key.len() == FORMS {
            let mut prefix: Vec<String> = Vec::new();
            let _visits = self.guess_strings(key, &mut prefix, &mut found);
            proof {
                assert(query_view(key@).skip(0) =~= query_view(key@));
                assert(words_of(Seq::<String>::empty()) =~= Seq::empty());
                let sel = selected(self@, query_view(key@));
                assert(prefix_keys(Seq::empty(), sel) =~= sel) by {
                    assert forall|j: int| 0 <= j < sel.len() implies #[trigger] prefix_keys(Seq::empty(), sel)[j] == sel[j] by {
                        assert(Seq::<Seq<char>>::empty() + sel[j].0 =~= sel[j].0);
                    }
                }
                assert(sets_view(found@) =~= sets_view(Seq::empty()) + prefix_keys(Seq::empty(), sel));
            }
        } else {
            proof {
                lemma_select_none(self@, query_view(key@));
                assert(sets_view(found@) =~= Seq::empty());
            }
        }
        found
    }

    /// Every stored pronoun set, in ascending order of forms.
    pub fn gather(&self) -> (r: Vec<PronounSet>)
        requires
            self.well_formed(),
        ensures
            sets_view(r@) == self@,
    {
        let mut key: Vec<Option<String>> = vec![None, None, None, None, None];
        let r = self.guess(&mut key);
        proof {
            self.lemma_wildcards_select_all(query_view(key@));
        }
        r
    }

    /// Every stored path of a well-formed index has five words, and the
    /// paths are in strictly ascending order.
    pub proof fn lemma_view_sorted(&self)
        requires
            self.well_formed(),
        ensures
            forall|i: int| 0 <= i < self@.len() ==> (#[trigger] self@[i]).0.len() == FORMS,
            forall|i: int, j: int| 0 <= i < j < self@.len() ==> key_lt(#[trigger] self@[i].0, #[trigger] self@[j].0),
    {
        Self::lemma_opt_items_listed(Some(Box::new(*self)), FORMS as nat);
    }

    /// The empty query is read as five wildcards, and so selects every
    /// stored set, which is what `gather` lists.
    pub proof fn lemma_empty_query_selects_all(self)
        requires
            self.well_formed(),
        ensures
            padded(Seq::empty()) == Seq::new(FORMS as nat, |i: int| None::<Seq<char>>),
            selected(self@, padded(Seq::empty())) == self@,
    {
        let q = Seq::new(FORMS as nat, |i: int| None::<Seq<char>>);
        assert(padded(Seq::empty()) =~= q);
        self.lemma_wildcards_select_all(q);
    }

    /// A query of five wildcards is kept as it is and selects every stored
    /// set, so it answers what `gather` does.
    pub proof fn lemma_wildcards_select_all(self, q: Seq<Option<Seq<char>>>)
        requires
            self.well_formed(),
            q.len() == FORMS,
            forall|i: int| 0 <= i < FORMS ==> #[trigger] q[i] is None,
        ensures
            padded(q) == q,
            selected(self@, q) == self@,
    {
        Self::lemma_opt_items_listed(Some(Box::new(self)), FORMS as nat);
        assert forall|i: int| 0 <= i < self@.len() implies query_accepts(q, #[trigger] self@[i].0) by {
            assert(forall|j: int| 0 <= j < FORMS ==> accepts(#[trigger] q[j], self@[i].0[j]));
        }
        lemma_select_all(self@, q);
    }

    spec fn flag(self) -> bool {
        match self.singular {
            Some(b) => b,
            None => false,
        }
    }

    spec fn opt_words(t: Option<Box<PronounTrie>>) -> Set<Seq<char>>
        decreases t,
    {
        match t {
            None => Set::empty(),
            Some(n) => n.words(),
        }
    }

    /// The words held at this node's position: its own and those of `left` and `right`.
    spec fn words(self) -> Set<Seq<char>>
        decreases self,
    {
        Self::opt_words(self.left).union(Self::opt_words(self.right)).insert(self.inner@)
    }

    spec fn opt_contents(t: Option<Box<PronounTrie>>) -> Map<Seq<Seq<char>>, bool>
        decreases t,
    {
        match t {
            None => Map::empty(),
            Some(n) => n.contents(),
        }
    }

    /// The stored paths from this node's position down, with their flags.
    spec fn contents(self) -> Map<Seq<Seq<char>>, bool>
        decreases self,
    {
        let mid = match self.next {
            Some(x) => prefixed(self.inner@, x.contents()),
            None => map![seq![self.inner@] => self.flag()],
        };
        Self::opt_contents(self.left).union_prefer_right(mid).union_prefer_right(
            Self::opt_contents(self.right),
        )
    }

    spec fn opt_items(t: Option<Box<PronounTrie>>) -> Seq<(Seq<Seq<char>>, bool)>
        decreases t,
    {
        match t {
            None => Seq::empty(),
            Some(n) => n.items(),
        }
    }

    /// The stored paths from this node's position down, in the order of an
    /// in-order walk: `left`, then this node's own, then `right`.
    spec fn items(self) -> Seq<(Seq<Seq<char>>, bool)>
        decreases self,
    {
        let mid = match self.next {
            Some(x) => prepend_word(self.inner@, x.items()),
            None => seq![(seq![self.inner@], self.flag())],
        };
        Self::opt_items(self.left) + mid + Self::opt_items(self.right)
    }

    spec fn opt_size(t: Option<Box<PronounTrie>>) -> nat
        decreases t,
    {
        match t {
            None => 0,
            Some(n) => n.size(),
        }
    }

    /// The number of nodes in the tree under this node, itself included.
    spec fn size(self) -> nat
        decreases self,
    {
        1 + Self::opt_size(self.left) + Self::opt_size(self.next) + Self::opt_size(self.right)
    }

    spec fn opt_same_shape(a: Option<Box<PronounTrie>>, b: Option<Box<PronounTrie>>) -> bool
        decreases a,
    {
        match a {
            None => b is None,
            Some(x) => match b {
                Some(y) => x.same_shape(*y),
                None => false,
            },
        }
    }

    /// `self` and `other` hold the same words linked in the same way; only
    /// their flags may differ.
    spec fn same_shape(self, other: PronounTrie) -> bool
        decreases self,
    {
        &&& self.inner@ == other.inner@
        &&& Self::opt_same_shape(self.left, other.left)
        &&& Self::opt_same_shape(self.next, other.next)
        &&& Self::opt_same_shape(self.right, other.right)
    }

    proof fn lemma_opt_same_shape_refl(t: Option<Box<PronounTrie>>)
        ensures
            Self::opt_same_shape(t, t),
        decreases t,
    {
        if let Some(x) = t {
            Self::lemma_opt_same_shape_refl(x.left);
            Self::lemma_opt_same_shape_refl(x.next);
            Self::lemma_opt_same_shape_refl(x.right);
        }
    }

    spec fn opt_wf(t: Option<Box<PronounTrie>>, depth: nat) -> bool
        decreases t,
    {
        match t {
            None => true,
            Some(n) => n.wf(depth),
        }
    }

    /// The tree is ordered at every position, and every path below a node of
    /// `depth` remaining positions has exactly that many words.
    spec fn wf(self, depth: nat) -> bool
        decreases self,
    {
        &&& depth >= 1
        &&& forall|w| #[trigger] Self::opt_words(self.left).contains(w) ==> word_lt(w, self.inner@)
        &&& forall|w| #[trigger] Self::opt_words(self.right).contains(w) ==> word_lt(self.inner@, w)
        &&& Self::opt_wf(self.left, depth)
        &&& Self::opt_wf(self.right, depth)
        &&& if depth == 1 {
            self.next is None && self.singular is Some
        } else {
            self.singular is None && match self.next {
                Some(x) => x.wf((depth - 1) as nat),
                None => false,
            }
        }
    }

    proof fn lemma_opt_contents_keys(t: Option<Box<PronounTrie>>, depth: nat)
        requires
            Self::opt_wf(t, depth),
        ensures
            forall|k: Seq<Seq<char>>| #[trigger] Self::opt_contents(t).contains_key(k)
                ==> k.len() == depth && Self::opt_words(t).contains(k[0]),
        decreases t,
    {
        if let Some(n) = t {
            n.lemma_contents_keys(depth);
            assert(Self::opt_contents(t) == n.contents());
            assert(Self::opt_words(t) == n.words());
        }
    }

    /// Every stored path below a well-formed node has `depth` words and starts
    /// with a word of the node's position.
    proof fn lemma_contents_keys(self, depth: nat)
        requires
            self.wf(depth),
        ensures
            forall|k: Seq<Seq<char>>| #[trigger] self.contents().contains_key(k)
                ==> k.len() == depth && self.words().contains(k[0]),
        decreases self,
    {
        Self::lemma_opt_contents_keys(self.left, depth);
        Self::lemma_opt_contents_keys(self.right, depth);
        if let Some(x) = self.next {
            x.lemma_contents_keys((depth - 1) as nat);
        }
        assert forall|k: Seq<Seq<char>>| #[trigger] self.contents().contains_key(k) implies k.len()
            == depth && self.words().contains(k[0]) by {
            if !Self::opt_contents(self.left).contains_key(k) && !Self::opt_contents(
                self.right,
            ).contains_key(k) {
                if let Some(x) = self.next {
                    assert(x.contents().contains_key(k.drop_first()));
                } else {
                    assert(k == seq![self.inner@]);
                }
            }
        }
    }

    proof fn lemma_opt_items_listed(t: Option<Box<PronounTrie>>, depth: nat)
        requires
            Self::opt_wf(t, depth),
        ensures
            lists(Self::opt_contents(t), Self::opt_items(t)),
            forall|i: int| 0 <= i < Self::opt_items(t).len() ==> (#[trigger] Self::opt_items(t)[i]).0.len() == depth
                && Self::opt_words(t).contains(Self::opt_items(t)[i].0[0]),
        decreases t,
    {
        if let Some(n) = t {
            n.lemma_items_listed(depth);
        }
    }

    /// The in-order walk of a well-formed node lists its contents.
    proof fn lemma_items_listed(self, depth: nat)
        requires
            self.wf(depth),
        ensures
            lists(self.contents(), self.items()),
            forall|i: int| 0 <= i < self.items().len() ==> (#[trigger] self.items()[i]).0.len() == depth
                && self.words().contains(self.items()[i].0[0]),
        decreases self,
    {
        let l = Self::opt_items(self.left);
        let r = Self::opt_items(self.right);
        Self::lemma_opt_items_listed(self.left, depth);
        Self::lemma_opt_items_listed(self.right, depth);
        let mid = match self.next {
            Some(x) => prepend_word(self.inner@, x.items()),
            None => seq![(seq![self.inner@], self.flag())],
        };
        let mid_map = match self.next {
            Some(x) => prefixed(self.inner@, x.contents()),
            None => map![seq![self.inner@] => self.flag()],
        };
        match self.next {
            Some(x) => {
                x.lemma_items_listed((depth - 1) as nat);
                lemma_lists_prepend(self.inner@, x.contents(), x.items());
                assert forall|j: int| 0 <= j < mid.len() implies (#[trigger] mid[j]).0.len() == depth
                    && mid[j].0[0] == self.inner@ by {
                    assert(x.items()[j].0.len() == depth - 1);
                }
            },
            None => {
                assert forall|k: Seq<Seq<char>>| #[trigger] mid_map.contains_key(k) implies exists|i: int|
                    0 <= i < mid.len() && mid[i].0 == k by {
                    assert(mid[0].0 == k);
                }
                assert(lists(mid_map, mid));
            },
        }
        lemma_word_lt_irreflexive(self.inner@);
        assert forall|i: int, j: int| 0 <= i < l.len() && 0 <= j < mid.len() implies key_lt(
            #[trigger] l[i].0,
            #[trigger] mid[j].0,
        ) by {
            assert(Self::opt_words(self.left).contains(l[i].0[0]));
        }
        lemma_lists_concat(Self::opt_contents(self.left), l, mid_map, mid);
        let lm = l + mid;
        assert forall|i: int, j: int| 0 <= i < lm.len() && 0 <= j < r.len() implies key_lt(
            #[trigger] lm[i].0,
            #[trigger] r[j].0,
        ) by {
            assert(Self::opt_words(self.right).contains(r[j].0[0]));
            if i < l.len() {
                assert(Self::opt_words(self.left).contains(l[i].0[0]));
                lemma_word_lt_transitive(l[i].0[0], self.inner@, r[j].0[0]);
                lemma_word_lt_irreflexive(l[i].0[0]);
            } else {
                assert(lm[i] == mid[i - l.len()]);
            }
        }
        lemma_lists_concat(Self::opt_contents(self.left).union_prefer_right(mid_map), lm, Self::opt_contents(self.right), r);
        let s = self.items();
        assert(s == lm + r);
        assert forall|i: int| 0 <= i < s.len() implies (#[trigger] s[i]).0.len() == depth
            && self.words().contains(s[i].0[0]) by {
            if i < l.len() {
                assert(s[i] == l[i]);
            } else if i < lm.len() {
                assert(s[i] == mid[i - l.len()]);
            } else {
                assert(s[i] == r[i - lm.len()]);
            }
        }
    }

    /// The paths that end at or pass through this node itself.
    spec fn own_items(self) -> Seq<(Seq<Seq<char>>, bool)> {
        match self.next {
            Some(x) => prepend_word(self.inner@, x.items()),
            None => seq![(seq![self.inner@], self.flag())],
        }
    }

    /// How a query splits over the three parts of a node's walk, and which
    /// parts a query word rules out by the order of the words.
    proof fn lemma_select_parts(self, depth: nat, q: Seq<Option<Seq<char>>>)
        requires
            self.wf(depth),
            q.len() == depth,
        ensures
            self.items() == Self::opt_items(self.left) + self.own_items() + Self::opt_items(self.right),
            selected(self.items(), q) == selected(Self::opt_items(self.left), q) + selected(
                self.own_items(),
                q,
            ) + selected(Self::opt_items(self.right), q),
            q[0] is Some && (q[0]->Some_0 == self.inner@ || word_lt(self.inner@, q[0]->Some_0))
                ==> selected(Self::opt_items(self.left), q) == Seq::<(Seq<Seq<char>>, bool)>::empty(),
            q[0] is Some && (q[0]->Some_0 == self.inner@ || word_lt(q[0]->Some_0, self.inner@))
                ==> selected(Self::opt_items(self.right), q) == Seq::<(Seq<Seq<char>>, bool)>::empty(),
            !accepts(q[0], self.inner@) ==> selected(self.own_items(), q) == Seq::<(Seq<Seq<char>>, bool)>::empty(),
            accepts(q[0], self.inner@) ==> selected(self.own_items(), q) == match self.next {
                Some(x) => prepend_word(self.inner@, selected(x.items(), q.drop_first())),
                None => self.own_items(),
            },
    {
        let l = Self::opt_items(self.left);
        let r = Self::opt_items(self.right);
        let mid = self.own_items();
        Self::lemma_opt_items_listed(self.left, depth);
        Self::lemma_opt_items_listed(self.right, depth);
        lemma_word_lt_irreflexive(self.inner@);
        assert(self.items() == l + mid + r);
        assert(forall|i: int| 0 <= i < l.len() ==> word_lt(#[trigger] l[i].0[0], self.inner@));
        assert(forall|i: int| 0 <= i < r.len() ==> word_lt(self.inner@, #[trigger] r[i].0[0]));
        if q[0] is Some && (q[0]->Some_0 == self.inner@ || word_lt(self.inner@, q[0]->Some_0)) {
            let w = q[0]->Some_0;
            assert forall|i: int| 0 <= i < l.len() implies !query_accepts(q, #[trigger] l[i].0) by {
                lemma_word_lt_irreflexive(l[i].0[0]);
                if w != self.inner@ {
                    lemma_word_lt_transitive(l[i].0[0], self.inner@, w);
                }
                assert(!accepts(q[0], l[i].0[0]));
            }
            lemma_select_none(l, q);
        }
        if q[0] is Some && (q[0]->Some_0 == self.inner@ || word_lt(q[0]->Some_0, self.inner@)) {
            let w = q[0]->Some_0;
            assert forall|i: int| 0 <= i < r.len() implies !query_accepts(q, #[trigger] r[i].0) by {
                lemma_word_lt_irreflexive(r[i].0[0]);
                if w != self.inner@ {
                    lemma_word_lt_transitive(w, self.inner@, r[i].0[0]);
                }
                assert(!accepts(q[0], r[i].0[0]));
            }
            lemma_select_none(r, q);
        }
        if let Some(x) = self.next {
            lemma_select_prepend(self.inner@, x.items(), q);
        } else {
            reveal_with_fuel(Seq::filter, 2);
            assert(query_accepts(q, mid[0].0) == accepts(q[0], self.inner@));
            if !accepts(q[0], self.inner@) {
                assert(selected(mid, q) =~= Seq::empty());
            }
        }
    }

    /// Appends to `found`, in ascending order, every pronoun set stored below
    /// this node that `key` accepts; `prefix` holds the words matched above it.
    /// Returns how many calls the walk made, this one included: never more
    /// than the nodes under this node, as each call descends into a distinct
    /// child at most once.
    #[verifier::rlimit(30)]
    fn guess_strings(
        &self,
        key: &Vec<Option<String>>,
        prefix: &mut Vec<String>,
        found: &mut Vec<PronounSet>,
    ) -> (visits: Ghost<nat>)
        requires
            key@.len() == FORMS,
            old(prefix)@.len() < FORMS,
            self.wf((FORMS - old(prefix)@.len()) as nat),
        ensures
            final(prefix)@ == old(prefix)@,
            sets_view(final(found)@) == sets_view(old(found)@) + prefix_keys(
                words_of(old(prefix)@),
                selected(self.items(), query_view(key@).skip(old(prefix)@.len() as int)),
            ),
            1 <= visits@ <= self.size(),
        decreases self,
    {
        let ghost mut visits: nat = 1;
        let pos = prefix.len();
        let ghost depth = (FORMS - pos) as nat;
        let ghost q = query_view(key@).skip(pos as int);
        let ghost p = words_of(prefix@);
        let ghost f0 = sets_view(found@);
        let ghost l = Self::opt_items(self.left);
        let ghost r = Self::opt_items(self.right);
        let ghost mid = self.own_items();
        proof {
            assert(q[0] == query_view(key@)[pos as int]);
            self.lemma_select_parts(depth, q);
            lemma_prefix_keys_add(p, selected(l, q), selected(mid, q));
            lemma_prefix_keys_add(p, selected(l, q) + selected(mid, q), selected(r, q));
        }
        let (go_left, go_down, go_right) = match &key[pos] {
            None => (true, true, true),
            Some(w) => match compare_words(w.as_str(), self.inner.as_str()) {
                Ordering::Less => (true, false, false),
                Ordering::Equal => (false, true, false),
                Ordering::Greater => (false, false, true),
            },
        };
        if go_left {
            if let Some(left) = &self.left {
                proof {
                    assert(Self::opt_wf(self.left, depth));
                    assert(left.wf(depth));
                }
                let v = left.guess_strings(key, prefix, found);
                proof {
                    assert(Self::opt_size(self.left) == left.size());
                    visits = visits + v@;
                }
            }
        }
        proof {
            assert(sets_view(found@) =~= f0 + prefix_keys(p, selected(l, q)));
        }
        let ghost f1 = sets_view(found@);
        if go_down {
            match &self.next {
                Some(x) => {
                    prefix.push(self.inner.clone());
                    proof {
                        assert(query_view(key@).skip(pos + 1) =~= q.drop_first());
                        assert(words_of(prefix@) =~= p.push(self.inner@));
                    }
                    let v = x.guess_strings(key, prefix, found);
                    let _ = prefix.pop();
                    proof {
                        assert(Self::opt_size(self.next) == x.size());
                        visits = visits + v@;
                        assert(prefix@ =~= old(prefix)@);
                        lemma_prefix_keys_push(p, self.inner@, selected(x.items(), q.drop_first()));
                    }
                },
                None => {
                    let flag = match self.singular {
                        Some(b) => b,
                        None => false,
                    };
                    let set = PronounSet {
                        nominative: prefix[0].clone(),
                        accusative: prefix[1].clone(),
                        determiner: prefix[2].clone(),
                        possessive: prefix[3].clone(),
                        reflexive: self.inner.clone(),
                        singular: flag,
                    };
                    found.push(set);
                    proof {
                        assert(set@.0 =~= p + seq![self.inner@]);
                        assert(prefix_keys(p, selected(mid, q)) =~= seq![set@]);
                    }
                },
            }
        }
        proof {
            assert(sets_view(found@) =~= f1 + prefix_keys(p, selected(mid, q)));
        }
        let ghost f2 = sets_view(found@);
        if go_right {
            if let Some(right) = &self.right {
                proof {
                    assert(Self::opt_wf(self.right, depth));
                    assert(right.wf(depth));
                }
                let v = right.guess_strings(key, prefix, found);
                proof {
                    assert(Self::opt_size(self.right) == right.size());
                    visits = visits + v@;
                }
            }
        }
        proof {
            assert(sets_view(found@) =~= f2 + prefix_keys(p, selected(r, q)));
        }
        Ghost(visits)
    }

    fn new(inner: String) -> (r: Self)
        ensures
            r.inner == inner,
            r.left is None,
            r.right is None,
            r.next is None,
            r.singular is None,
    {
        PronounTrie { inner, left: None, right: None, next: None, singular: None }
    }

    /// Inserts the words of `key` from position `pos` on into the tree in `slot`.
    fn insert(slot: &mut Option<Box<PronounTrie>>, key: &Vec<String>, pos: usize, singular: bool)
        requires
            key@.len() == FORMS,
            pos < FORMS,
            Self::opt_wf(*old(slot), (FORMS - pos) as nat),
        ensures
            (*final(slot)) is Some,
            Self::opt_wf(*final(slot), (FORMS - pos) as nat),
            Self::opt_words(*final(slot)) == Self::opt_words(*old(slot)).insert(key@[pos as int]@),
            Self::opt_contents(*final(slot)) == Self::opt_contents(*old(slot)).insert(
                words_of(key@).skip(pos as int),
                singular,
            ),
            Self::opt_contents(*old(slot)).contains_key(words_of(key@).skip(pos as int))
                ==> Self::opt_same_shape(*old(slot), *final(slot)),
        decreases FORMS - pos, *old(slot),
    {
        let ghost k = words_of(key@).skip(pos as int);
        match slot.take() {
            None => {
                let mut child = PronounTrie::new(key[pos].clone());
                if pos + 1 < FORMS {
                    Self::insert(&mut child.next, key, pos + 1, singular);
                    proof {
                        let rest = words_of(key@).skip(pos + 1);
                        assert(k =~= seq![key@[pos as int]@] + rest);
                        let x = child.next->Some_0;
                        assert(x.contents() =~= map![rest => singular]);
                        assert(prefixed(child.inner@, x.contents()) =~= map![k => singular]) by {
                            assert forall|q: Seq<Seq<char>>|
                                q.len() > 0 && q[0] == child.inner@ && q.drop_first() == rest
                                <==> q == k by {
                                if q == k {
                                    assert(q.drop_first() =~= rest);
                                }
                                if q.len() > 0 && q[0] == child.inner@ && q.drop_first() == rest {
                                    assert(q =~= seq![q[0]] + q.drop_first());
                                }
                            }
                        }
                    }
                } else {
                    child.singular = Some(singular);
                    proof {
                        assert(k =~= seq![key@[pos as int]@]);
                    }
                }
                proof {
                    assert(Self::opt_words(child.left) =~= Set::empty());
                    assert(child.words() =~= Set::empty().insert(key@[pos as int]@));
                    assert(child.contents() =~= map![k => singular]);
                }
                *slot = Some(Box::new(child));
            },
            Some(mut node) => {
                let ghost old_node = *node;
                proof {
                    assert(key@[pos as int]@ == k[0]);
                }
                match compare_words(key[pos].as_str(), node.inner.as_str()) {
                    Ordering::Less => {
                        Self::insert(&mut node.left, key, pos, singular);
                        proof {
                            lemma_word_lt_irreflexive(k[0]);
                            Self::lemma_opt_contents_keys(node.right, (FORMS - pos) as nat);
                            if Self::opt_contents(node.right).contains_key(k) {
                                lemma_word_lt_transitive(k[0], node.inner@, k[0]);
                            }
                            assert(node.words() =~= old_node.words().insert(k[0]));
                            assert(node.contents() =~= old_node.contents().insert(k, singular));
                        }
                    },
                    Ordering::Greater => {
                        Self::insert(&mut node.right, key, pos, singular);
                        proof {
                            lemma_word_lt_irreflexive(k[0]);
                            Self::lemma_opt_contents_keys(node.left, (FORMS - pos) as nat);
                            if Self::opt_contents(node.left).contains_key(k) {
                                lemma_word_lt_transitive(k[0], node.inner@, k[0]);
                            }
                            assert(node.words() =~= old_node.words().insert(k[0]));
                            assert(node.contents() =~= old_node.contents().insert(k, singular));
                        }
                    },
                    Ordering::Equal => {
                        if pos + 1 < FORMS {
                            Self::insert(&mut node.next, key, pos + 1, singular);
                            proof {
                                let rest = words_of(key@).skip(pos + 1);
                                assert(k =~= seq![k[0]] + rest);
                                let old_x = old_node.next->Some_0.contents();
                                let new_x = node.next->Some_0.contents();
                                assert(new_x == old_x.insert(rest, singular));
                                assert forall|q: Seq<Seq<char>>|
                                    q.len() > 0 && q[0] == k[0] && q.drop_first() == rest
                                    <==> q == k by {
                                    if q == k {
                                        assert(q.drop_first() =~= rest);
                                    }
                                    if q.len() > 0 && q[0] == k[0] && q.drop_first() == rest {
                                        assert(q =~= seq![q[0]] + q.drop_first());
                                    }
                                }
                                assert(prefixed(node.inner@, new_x) =~= prefixed(
                                    node.inner@,
                                    old_x,
                                ).insert(k, singular));
                            }
                        } else {
                            node.singular = Some(singular);
                            proof {
                                assert(k =~= seq![k[0]]);
                                assert(map![seq![node.inner@] => node.flag()] =~= map![
                                    seq![old_node.inner@] => old_node.flag()].insert(k, singular));
                            }
                        }
                        proof {
                            lemma_word_lt_irreflexive(k[0]);
                            Self::lemma_opt_contents_keys(node.left, (FORMS - pos) as nat);
                            Self::lemma_opt_contents_keys(node.right, (FORMS - pos) as nat);
                            if Self::opt_contents(node.left).contains_key(k) {
                                assert(Self::opt_words(node.left).contains(k[0]));
                            }
                            if Self::opt_contents(node.right).contains_key(k) {
                                assert(Self::opt_words(node.right).contains(k[0]));
                            }
                            assert(node.words() =~= old_node.words().insert(k[0]));
                            assert(node.contents() =~= old_node.contents().insert(k, singular));
                        }
                    },
                }
                proof {
                    Self::lemma_opt_same_shape_refl(old_node.left);
                    Self::lemma_opt_same_shape_refl(old_node.next);
                    Self::lemma_opt_same_shape_refl(old_node.right);
                    if old_node.contents().contains_key(k) {
                        Self::lemma_opt_contents_keys(old_node.left, (FORMS - pos) as nat);
                        Self::lemma_opt_contents_keys(old_node.right, (FORMS - pos) as nat);
                        lemma_word_lt_irreflexive(k[0]);
                        if let Some(x) = old_node.next {
                            if prefixed(old_node.inner@, x.contents()).contains_key(k) {
                                assert(x.contents().contains_key(k.drop_first()));
                                assert(k.drop_first() =~= words_of(key@).skip(pos + 1));
                            }
                        }
                    }
                    assert(old_node.same_shape(*node) == Self::opt_same_shape(Some(Box::new(old_node)), Some(node)));
                }
                *slot = Some(node);
            },
        }
    }
}

} // verus!