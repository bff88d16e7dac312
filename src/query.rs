//! Queries: one wildcard or word per position, and what they select.

use vstd::prelude::*;

use crate::listing::prepend_word;
use crate::trie::FORMS;

verus! {

/// The query position `o` accepts the word `w`: it is a wildcard, or that word.
pub open spec fn accepts(o: Option<Seq<char>>, w: Seq<char>) -> bool {
    match o {
        None => true,
        Some(x) => x == w,
    }
}

/// The view of a query: each position a wildcard or a word.
pub open spec fn query_view(v: Seq<Option<String>>) -> Seq<Option<Seq<char>>> {
    v.map_values(
        |o: Option<String>|
            match o {
                Some(s) => Some(s@),
                None => None,
            },
    )
}

/// The query `q` accepts the path `k`: both have the same length and every
/// position of `q` accepts the word at the same position of `k`.
pub open spec fn query_accepts(q: Seq<Option<Seq<char>>>, k: Seq<Seq<char>>) -> bool {
    &&& q.len() == k.len()
    &&& forall|i: int| 0 <= i < k.len() ==> accepts(#[trigger] q[i], k[i])
}

/// The entries of `s` whose keys the query `q` accepts, in their order.
pub open spec fn selected(s: Seq<(Seq<Seq<char>>, bool)>, q: Seq<Option<Seq<char>>>) -> Seq<(Seq<Seq<char>>, bool)> {
    s.filter(|e: (Seq<Seq<char>>, bool)| query_accepts(q, e.0))
}

/// The index of the first wildcard of `q` at or after `i`, or the length of `q`.
pub open spec fn first_wildcard_from(q: Seq<Option<Seq<char>>>, i: int) -> int
    decreases q.len() - i,
{
    if i < 0 || i >= q.len() || q[i] is None {
        i
    } else {
        first_wildcard_from(q, i + 1)
    }
}

/// The query `q` brought to five positions: the empty query becomes five
/// wildcards; a shorter query that holds a wildcard gets wildcards inserted
/// before its first one; any other query is kept.
pub open spec fn padded(q: Seq<Option<Seq<char>>>) -> Seq<Option<Seq<char>>> {
    let f = first_wildcard_from(q, 0);
    if q.len() < FORMS && (f < q.len() || q.len() == 0) {
        q.take(f) + Seq::new((FORMS - q.len()) as nat, |i: int| None::<Seq<char>>) + q.skip(f)
    } else {
        q
    }
}

/// A query accepts a key that starts with `w` when its first position accepts
/// `w` and the rest of it accepts the rest of the key.
proof fn lemma_accepts_cons(q: Seq<Option<Seq<char>>>, w: Seq<char>, k: Seq<Seq<char>>)
    requires
        q.len() > 0,
    ensures
        query_accepts(q, seq![w] + k) == (accepts(q[0], w) && query_accepts(q.drop_first(), k)),
{
    let wk = seq![w] + k;
    if query_accepts(q, wk) {
        assert forall|i: int| 0 <= i < k.len() implies accepts(#[trigger] q.drop_first()[i], k[i]) by {
            assert(accepts(q[i + 1], wk[i + 1]));
        }
        assert(accepts(q[0], wk[0]));
    }
    if accepts(q[0], w) && query_accepts(q.drop_first(), k) {
        assert forall|i: int| 0 <= i < wk.len() implies accepts(#[trigger] q[i], wk[i]) by {
            if i > 0 {
                assert(accepts(q.drop_first()[i - 1], k[i - 1]));
            }
        }
    }
}

/// Selecting from entries whose keys all start with `w` is selecting from
/// what follows `w`, when the query accepts `w` first; otherwise nothing.
pub proof fn lemma_select_prepend(w: Seq<char>, s: Seq<(Seq<Seq<char>>, bool)>, q: Seq<Option<Seq<char>>>)
    requires
        q.len() > 0,
    ensures
        selected(prepend_word(w, s), q) == if accepts(q[0], w) {
            prepend_word(w, selected(s, q.drop_first()))
        } else {
            Seq::empty()
        },
    decreases s.len(),
{
    reveal(Seq::filter);
    let ps = prepend_word(w, s);
    if s.len() > 0 {
        lemma_select_prepend(w, s.drop_last(), q);
        assert(ps.drop_last() =~= prepend_word(w, s.drop_last()));
        lemma_accepts_cons(q, w, s.last().0);
        if accepts(q[0], w) {
            assert(prepend_word(w, selected(s, q.drop_first())) =~= if query_accepts(q.drop_first(), s.last().0) {
                prepend_word(w, selected(s.drop_last(), q.drop_first())).push(ps.last())
            } else {
                prepend_word(w, selected(s.drop_last(), q.drop_first()))
            });
        }
    }
}

/// Nothing is selected from entries whose keys the query all rejects.
pub proof fn lemma_select_none(s: Seq<(Seq<Seq<char>>, bool)>, q: Seq<Option<Seq<char>>>)
    requires
        forall|i: int| 0 <= i < s.len() ==> !query_accepts(q, #[trigger] s[i].0),
    ensures
        selected(s, q) == Seq::<(Seq<Seq<char>>, bool)>::empty(),
    decreases s.len(),
{
    reveal(Seq::filter);
    if s.len() > 0 {
        assert(!query_accepts(q, s[s.len() - 1].0));
        lemma_select_none(s.drop_last(), q);
    } else {
        assert(s =~= Seq::empty());
    }
}

/// Everything is selected from entries whose keys the query all accepts.
pub proof fn lemma_select_all(s: Seq<(Seq<Seq<char>>, bool)>, q: Seq<Option<Seq<char>>>)
    requires
        forall|i: int| 0 <= i < s.len() ==> query_accepts(q, #[trigger] s[i].0),
    ensures
        selected(s, q) == s,
    decreases s.len(),
{
    reveal(Seq::filter);
    if s.len() > 0 {
        assert(query_accepts(q, s[s.len() - 1].0));
        lemma_select_all(s.drop_last(), q);
        assert(s.drop_last().push(s.last()) =~= s);
    }
}

/// The index of the first wildcard of `key`, or its length if it has none.
pub fn first_wildcard(key: &Vec<Option<String>>) -> (r: usize)
    ensures
        r == first_wildcard_from(query_view(key@), 0),
        r <= key@.len(),
{
    let len = key.len();
    let mut i: usize = 0;
    while i < len && key[i].is_some()
        invariant
            i <= len == key@.len(),
            first_wildcard_from(query_view(key@), i as int) == first_wildcard_from(query_view(key@), 0),
        decreases len - i,
    {
        i += 1;
    }
    i
}

} // verus!
