//! What the index guarantees across its operations.

use vstd::prelude::*;

use crate::listing::{key_lt, lemma_key_lt_irreflexive, lists};
use crate::query::{accepts, lemma_select_all, lemma_select_none, padded, query_accepts, selected};
use crate::trie::stored;
use crate::{PronounSet, PronounTrie, sets_view};

verus! {

/// A sequence in strictly ascending key order holds each key once.
pub proof fn lemma_ascending_distinct(s: Seq<(Seq<Seq<char>>, bool)>)
    requires
        forall|i: int, j: int| 0 <= i < j < s.len() ==> key_lt(#[trigger] s[i].0, #[trigger] s[j].0),
    ensures
        forall|i: int, j: int| 0 <= i < s.len() && 0 <= j < s.len() && i != j ==> #[trigger] s[i].0 != #[trigger] s[j].0,
{
    assert forall|i: int, j: int| 0 <= i < s.len() && 0 <= j < s.len() && i != j implies #[trigger] s[i].0 != #[trigger] s[j].0 by {
        lemma_key_lt_irreflexive(s[i].0);
        if i < j {
            assert(key_lt(s[i].0, s[j].0));
        } else {
            assert(key_lt(s[j].0, s[i].0));
        }
    }
}

/// The flag stored for a key is that of the last set that has it.
proof fn lemma_stored_last(records: Seq<PronounSet>, i: int)
    requires
        0 <= i < records.len(),
        forall|j: int| i < j < records.len() ==> #[trigger] records[j].key() != records[i].key(),
    ensures
        stored(records).contains_key(records[i].key()),
        stored(records)[records[i].key()] == records[i].singular,
    decreases records.len(),
{
    if i < records.len() - 1 {
        let rest = records.drop_last();
        assert forall|j: int| i < j < rest.len() implies #[trigger] rest[j].key() != rest[i].key() by {
            assert(records[j].key() != records[i].key());
        }
        lemma_stored_last(rest, i);
        assert(records[records.len() - 1].key() != records[i].key());
    }
}

/// Every stored key belongs to one of the sets.
proof fn lemma_stored_from(records: Seq<PronounSet>, k: Seq<Seq<char>>)
    requires
        stored(records).contains_key(k),
    ensures
        exists|j: int| 0 <= j < records.len() && #[trigger] records[j].key() == k,
    decreases records.len(),
{
    if records.len() > 0 && records.last().key() != k {
        lemma_stored_from(records.drop_last(), k);
        let j = choose|j: int| 0 <= j < records.len() - 1 && #[trigger] records.drop_last()[j].key() == k;
        assert(records[j] == records.drop_last()[j]);
    }
}

/// Building an index from pronoun sets whose forms are pairwise distinct and
/// then listing everything gives back exactly those sets, each once, in
/// ascending order of forms.
pub proof fn lemma_build_then_gather(records: Seq<PronounSet>, trie: PronounTrie, listed: Seq<PronounSet>)
    requires
        trie.well_formed(),
        lists(stored(records), trie@),
        sets_view(listed) == trie@,
        forall|i: int, j: int| 0 <= i < j < records.len() ==> #[trigger] records[i].key() != #[trigger] records[j].key(),
    ensures
        sets_view(listed).to_multiset() == sets_view(records).to_multiset(),
        forall|i: int, j: int| 0 <= i < j < listed.len() ==> key_lt(#[trigger] listed[i].key(), #[trigger] listed[j].key()),
{
    broadcast use vstd::seq_lib::group_to_multiset_ensures;
    let s1 = sets_view(listed);
    let s2 = sets_view(records);
    let m = stored(records);
    lemma_ascending_distinct(s1);
    assert forall|i: int, j: int| 0 <= i < j < listed.len() implies key_lt(#[trigger] listed[i].key(), #[trigger] listed[j].key()) by {
        assert(s1[i].0 == listed[i].key());
        assert(s1[j].0 == listed[j].key());
    }
    assert(s1.no_duplicates()) by {
        assert forall|i: int, j: int| 0 <= i < s1.len() && 0 <= j < s1.len() && i != j implies s1[i] != s1[j] by {
            assert(s1[i].0 != s1[j].0);
        }
    }
    assert(s2.no_duplicates()) by {
        assert forall|i: int, j: int| 0 <= i < s2.len() && 0 <= j < s2.len() && i != j implies s2[i] != s2[j] by {
            if i < j {
                assert(records[i].key() != records[j].key());
            } else {
                assert(records[j].key() != records[i].key());
            }
        }
    }
    assert forall|x: (Seq<Seq<char>>, bool)| s1.contains(x) <==> s2.contains(x) by {
        if s1.contains(x) {
            let i = choose|i: int| 0 <= i < s1.len() && s1[i] == x;
            assert(m.contains_key(s1[i].0) && m[s1[i].0] == s1[i].1);
            lemma_stored_from(records, x.0);
            let j = choose|j: int| 0 <= j < records.len() && #[trigger] records[j].key() == x.0;
            lemma_stored_last(records, j);
            assert(s2[j] == x);
        }
        if s2.contains(x) {
            let j = choose|j: int| 0 <= j < s2.len() && s2[j] == x;
            lemma_stored_last(records, j);
            let i = choose|i: int| 0 <= i < s1.len() && s1[i].0 == x.0;
            assert(m[s1[i].0] == s1[i].1);
            assert(s1[i] == x);
        }
    }
    s1.lemma_multiset_has_no_duplicates();
    s2.lemma_multiset_has_no_duplicates();
    assert(s1.to_multiset() =~= s2.to_multiset()) by {
        assert forall|x: (Seq<Seq<char>>, bool)| s1.to_multiset().count(x) == s2.to_multiset().count(x) by {
            if s1.contains(x) {
                assert(s1.to_multiset().contains(x));
                assert(s2.to_multiset().contains(x));
            }
        }
    }
}

/// A set given again with the same forms is listed once, with the flag of
/// its last occurrence.
pub proof fn lemma_last_flag_wins(records: Seq<PronounSet>, trie: PronounTrie, listed: Seq<PronounSet>, i: int)
    requires
        trie.well_formed(),
        lists(stored(records), trie@),
        sets_view(listed) == trie@,
        0 <= i < records.len(),
        forall|j: int| i < j < records.len() ==> #[trigger] records[j].key() != records[i].key(),
    ensures
        exists|k: int| 0 <= k < listed.len() && listed[k]@ == records[i]@ && forall|l: int|
            0 <= l < listed.len() && #[trigger] listed[l].key() == records[i].key() ==> l == k,
{
    let s = sets_view(listed);
    lemma_stored_last(records, i);
    lemma_ascending_distinct(s);
    let k = choose|k: int| 0 <= k < s.len() && s[k].0 == records[i].key();
    assert(listed[k]@ == s[k]);
    assert forall|l: int| 0 <= l < listed.len() && #[trigger] listed[l].key() == records[i].key() implies l == k by {
        assert(s[l].0 == listed[l].key());
    }
}

/// Looking up the five forms of any stored set, with no wildcard, finds that
/// set and nothing else.
pub proof fn lemma_exact_lookup(trie: PronounTrie, i: int, key: Seq<Option<Seq<char>>>)
    requires
        trie.well_formed(),
        0 <= i < trie@.len(),
        key == trie@[i].0.map_values(|w: Seq<char>| Some(w)),
    ensures
        padded(key) == key,
        selected(trie@, key) == seq![trie@[i]],
{
    let s = trie@;
    trie.lemma_view_sorted();
    lemma_ascending_distinct(s);
    assert forall|j: int| 0 <= j < s.len() implies query_accepts(key, #[trigger] s[j].0) == (j == i) by {
        if query_accepts(key, s[j].0) {
            assert(s[j].0 =~= s[i].0) by {
                assert forall|n: int| 0 <= n < s[j].0.len() implies s[j].0[n] == s[i].0[n] by {
                    assert(accepts(key[n], s[j].0[n]));
                }
            }
        }
    }
    let before = s.take(i);
    let after = s.skip(i + 1);
    assert(s =~= before + seq![s[i]] + after);
    assert forall|j: int| 0 <= j < before.len() implies !query_accepts(key, #[trigger] before[j].0) by {
        assert(before[j] == s[j]);
    }
    assert forall|j: int| 0 <= j < after.len() implies !query_accepts(key, #[trigger] after[j].0) by {
        assert(after[j] == s[j + i + 1]);
    }
    lemma_select_none(before, key);
    lemma_select_none(after, key);
    lemma_select_all(seq![s[i]], key);
    assert(selected(s, key) =~= selected(before, key) + selected(seq![s[i]], key) + selected(after, key));
}

} // verus!
