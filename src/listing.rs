//! Keys of five words, their order, and ordered listings of keyed entries.

use vstd::prelude::*;

use crate::words::word_lt;

verus! {

/// `a` sorts before `b`: lexicographic over the words, each compared by `word_lt`.
pub open spec fn key_lt(a: Seq<Seq<char>>, b: Seq<Seq<char>>) -> bool
    decreases a.len(),
{
    if a.len() == 0 {
        b.len() > 0
    } else if b.len() == 0 {
        false
    } else if a[0] != b[0] {
        word_lt(a[0], b[0])
    } else {
        key_lt(a.drop_first(), b.drop_first())
    }
}

/// `s` lists exactly the entries of `m`, each once, in strictly ascending key order.
pub open spec fn lists(m: Map<Seq<Seq<char>>, bool>, s: Seq<(Seq<Seq<char>>, bool)>) -> bool {
    &&& forall|i: int, j: int| 0 <= i < j < s.len() ==> key_lt(#[trigger] s[i].0, #[trigger] s[j].0)
    &&& forall|i: int| 0 <= i < s.len() ==> m.contains_key(#[trigger] s[i].0) && m[s[i].0] == s[i].1
    &&& forall|k: Seq<Seq<char>>| #[trigger] m.contains_key(k) ==> exists|i: int| 0 <= i < s.len() && s[i].0 == k
}

/// The entries of `m`, each key prefixed with the word `w`.
pub open spec fn prefixed(w: Seq<char>, m: Map<Seq<Seq<char>>, bool>) -> Map<Seq<Seq<char>>, bool> {
    Map::new(
        |k: Seq<Seq<char>>| k.len() > 0 && k[0] == w && m.contains_key(k.drop_first()),
        |k: Seq<Seq<char>>| m[k.drop_first()],
    )
}

/// The entries of `s`, each key prefixed with the word `w`.
pub open spec fn prepend_word(w: Seq<char>, s: Seq<(Seq<Seq<char>>, bool)>) -> Seq<(Seq<Seq<char>>, bool)> {
    s.map_values(|e: (Seq<Seq<char>>, bool)| (seq![w] + e.0, e.1))
}

/// No key sorts before itself.
pub proof fn lemma_key_lt_irreflexive(a: Seq<Seq<char>>)
    ensures
        !key_lt(a, a),
    decreases a.len(),
{
    if a.len() > 0 {
        lemma_key_lt_irreflexive(a.drop_first());
    }
}

/// Two listings, the first wholly before the second, list the union of their maps.
pub proof fn lemma_lists_concat(
    m1: Map<Seq<Seq<char>>, bool>,
    s1: Seq<(Seq<Seq<char>>, bool)>,
    m2: Map<Seq<Seq<char>>, bool>,
    s2: Seq<(Seq<Seq<char>>, bool)>,
)
    requires
        lists(m1, s1),
        lists(m2, s2),
        forall|i: int, j: int|
            0 <= i < s1.len() && 0 <= j < s2.len() ==> key_lt(#[trigger] s1[i].0, #[trigger] s2[j].0),
    ensures
        lists(m1.union_prefer_right(m2), s1 + s2),
{
    let m = m1.union_prefer_right(m2);
    let s = s1 + s2;
    assert forall|k: Seq<Seq<char>>| m1.contains_key(k) implies !m2.contains_key(k) by {
        if m2.contains_key(k) {
            let i = choose|i: int| 0 <= i < s1.len() && s1[i].0 == k;
            let j = choose|j: int| 0 <= j < s2.len() && s2[j].0 == k;
            assert(key_lt(s1[i].0, s2[j].0));
            lemma_key_lt_irreflexive(k);
        }
    }
    assert forall|i: int, j: int| 0 <= i < j < s.len() implies key_lt(#[trigger] s[i].0, #[trigger] s[j].0) by {
        if j < s1.len() {
            assert(key_lt(s1[i].0, s1[j].0));
        } else if i >= s1.len() {
            assert(key_lt(s2[i - s1.len()].0, s2[j - s1.len()].0));
        } else {
            assert(key_lt(s1[i].0, s2[j - s1.len()].0));
        }
    }
    assert forall|i: int| 0 <= i < s.len() implies m.contains_key(#[trigger] s[i].0) && m[s[i].0] == s[i].1 by {
        if i < s1.len() {
            assert(m1.contains_key(s1[i].0));
        } else {
            assert(m2.contains_key(s2[i - s1.len()].0));
        }
    }
    assert forall|k: Seq<Seq<char>>| #[trigger] m.contains_key(k) implies exists|i: int| 0 <= i < s.len() && s[i].0 == k by {
        if m1.contains_key(k) {
            let i = choose|i: int| 0 <= i < s1.len() && s1[i].0 == k;
            assert(s[i] == s1[i]);
        } else {
            let j = choose|j: int| 0 <= j < s2.len() && s2[j].0 == k;
            assert(s[j + s1.len()] == s2[j]);
        }
    }
}

/// Prefixing every key with one word keeps a listing a listing.
pub proof fn lemma_lists_prepend(w: Seq<char>, m: Map<Seq<Seq<char>>, bool>, s: Seq<(Seq<Seq<char>>, bool)>)
    requires
        lists(m, s),
    ensures
        lists(prefixed(w, m), prepend_word(w, s)),
{
    let pm = prefixed(w, m);
    let ps = prepend_word(w, s);
    assert forall|i: int| 0 <= i < ps.len() implies (#[trigger] ps[i].0).drop_first() == s[i].0
        && ps[i].0.len() > 0 && ps[i].0[0] == w by {
        assert(ps[i].0.drop_first() =~= s[i].0);
    }
    assert forall|i: int, j: int| 0 <= i < j < ps.len() implies key_lt(#[trigger] ps[i].0, #[trigger] ps[j].0) by {
        assert(key_lt(s[i].0, s[j].0));
    }
    assert forall|i: int| 0 <= i < ps.len() implies pm.contains_key(#[trigger] ps[i].0) && pm[ps[i].0] == ps[i].1 by {
        assert(m.contains_key(s[i].0));
    }
    assert forall|k: Seq<Seq<char>>| #[trigger] pm.contains_key(k) implies exists|i: int| 0 <= i < ps.len() && ps[i].0 == k by {
        assert(m.contains_key(k.drop_first()));
        let i = choose|i: int| 0 <= i < s.len() && s[i].0 == k.drop_first();
        assert(k =~= seq![k[0]] + k.drop_first());
        assert(ps[i].0 == k);
    }
}

/// The entries of `s`, each key prefixed with the words `p`.
pub open spec fn prefix_keys(p: Seq<Seq<char>>, s: Seq<(Seq<Seq<char>>, bool)>) -> Seq<(Seq<Seq<char>>, bool)> {
    s.map_values(|e: (Seq<Seq<char>>, bool)| (p + e.0, e.1))
}

/// Prefixing keys distributes over concatenation.
pub proof fn lemma_prefix_keys_add(p: Seq<Seq<char>>, a: Seq<(Seq<Seq<char>>, bool)>, b: Seq<(Seq<Seq<char>>, bool)>)
    ensures
        prefix_keys(p, a + b) == prefix_keys(p, a) + prefix_keys(p, b),
{
    assert(prefix_keys(p, a + b) =~= prefix_keys(p, a) + prefix_keys(p, b));
}

/// Prefixing with `p` what was prefixed with `w` prefixes with `p` then `w`.
pub proof fn lemma_prefix_keys_push(p: Seq<Seq<char>>, w: Seq<char>, s: Seq<(Seq<Seq<char>>, bool)>)
    ensures
        prefix_keys(p, prepend_word(w, s)) == prefix_keys(p.push(w), s),
{
    assert forall|i: int| 0 <= i < s.len() implies #[trigger] prefix_keys(p, prepend_word(w, s))[i]
        == prefix_keys(p.push(w), s)[i] by {
        assert(p + (seq![w] + s[i].0) =~= p.push(w) + s[i].0);
    }
    assert(prefix_keys(p, prepend_word(w, s)) =~= prefix_keys(p.push(w), s));
}

} // verus!
