//! Ordering of words, and the small text operations the index needs.

use vstd::prelude::*;
use std::cmp::Ordering;
use vstd::std_specs::iter::IteratorSpec;

verus! {

/// Words are ordered lexicographically by the code points of their characters,
/// a proper prefix sorting before the longer word. This is the order of `str`.
pub open spec fn word_lt(a: Seq<char>, b: Seq<char>) -> bool
    decreases a.len(),
{
    if a.len() == 0 {
        b.len() > 0
    } else if b.len() == 0 {
        false
    } else if a[0] != b[0] {
        (a[0] as int) < (b[0] as int)
    } else {
        word_lt(a.drop_first(), b.drop_first())
    }
}

/// After a common prefix of length `i`, the order is decided by what follows.
pub proof fn lemma_word_lt_skip(a: Seq<char>, b: Seq<char>, i: int)
    requires
        0 <= i <= a.len(),
        i <= b.len(),
        a.take(i) == b.take(i),
    ensures
        word_lt(a, b) == word_lt(a.skip(i), b.skip(i)),
    decreases i,
{
    if i > 0 {
        assert(a[0] == a.take(i)[0]);
        assert(b[0] == b.take(i)[0]);
        assert(a.drop_first().take(i - 1) =~= a.take(i).drop_first());
        assert(b.drop_first().take(i - 1) =~= b.take(i).drop_first());
        lemma_word_lt_skip(a.drop_first(), b.drop_first(), i - 1);
        assert(a.drop_first().skip(i - 1) =~= a.skip(i));
        assert(b.drop_first().skip(i - 1) =~= b.skip(i));
    } else {
        assert(a.skip(0) =~= a);
        assert(b.skip(0) =~= b);
    }
}

/// No word sorts before itself.
pub proof fn lemma_word_lt_irreflexive(a: Seq<char>)
    ensures
        !word_lt(a, a),
    decreases a.len(),
{
    if a.len() > 0 {
        lemma_word_lt_irreflexive(a.drop_first());
    }
}

/// The order on words is transitive.
pub proof fn lemma_word_lt_transitive(a: Seq<char>, b: Seq<char>, c: Seq<char>)
    requires
        word_lt(a, b),
        word_lt(b, c),
    ensures
        word_lt(a, c),
    decreases a.len(),
{
    if a.len() > 0 && b.len() > 0 && c.len() > 0 && a[0] == b[0] && b[0] == c[0] {
        lemma_word_lt_transitive(a.drop_first(), b.drop_first(), c.drop_first());
    }
}

/// Of two distinct words, exactly one sorts before the other.
pub proof fn lemma_word_lt_total(a: Seq<char>, b: Seq<char>)
    ensures
        a != b ==> (word_lt(a, b) || word_lt(b, a)),
        !(word_lt(a, b) && word_lt(b, a)),
    decreases a.len(),
{
    if a.len() > 0 && b.len() > 0 {
        if a[0] == b[0] {
            lemma_word_lt_total(a.drop_first(), b.drop_first());
            if a.drop_first() == b.drop_first() {
                assert(a =~= seq![a[0]] + a.drop_first());
                assert(b =~= seq![b[0]] + b.drop_first());
            }
        } else {
            assert((a[0] as int) != (b[0] as int));
        }
    } else if a.len() == 0 && b.len() == 0 {
        assert(a =~= b);
    }
}

/// `s` ends with the character `c`.
pub fn ends_with_char(s: &str, c: char) -> (r: bool)
    ensures
        r == (s@.len() > 0 && s@.last() == c),
{
    let n = s.unicode_len();
    if n == 0 {
        false
    } else {
        s.get_char(n - 1) == c
    }
}

/// Compares two words in the order of `word_lt`.
pub fn compare_words(a: &str, b: &str) -> (r: Ordering)
    ensures
        r == Ordering::Less <==> word_lt(a@, b@),
        r == Ordering::Equal <==> a@ == b@,
        r == Ordering::Greater <==> word_lt(b@, a@),
{
    proof {
        lemma_word_lt_total(a@, b@);
        lemma_word_lt_irreflexive(a@);
    }
    let mut ia = a.chars();
    let mut ib = b.chars();
    let ghost mut i: int = 0;
    loop
        invariant
            0 <= i <= a@.len(),
            i <= b@.len(),
            a@.take(i) == b@.take(i),
            ia.remaining() == a@.skip(i),
            ib.remaining() == b@.skip(i),
            ia.obeys_prophetic_iter_laws(),
            ib.obeys_prophetic_iter_laws(),
            a@ != b@ ==> (word_lt(a@, b@) || word_lt(b@, a@)),
            !(word_lt(a@, b@) && word_lt(b@, a@)),
        decreases a@.len() - i,
    {
        let ca = ia.next();
        let cb = ib.next();
        proof {
            lemma_word_lt_skip(a@, b@, i);
        }
        match (ca, cb) {
            (None, None) => {
                assert(a@ =~= a@.take(i));
                assert(b@ =~= b@.take(i));
                return Ordering::Equal;
            },
            (None, Some(_)) => {
                return Ordering::Less;
            },
            (Some(_), None) => {
                return Ordering::Greater;
            },
            (Some(x), Some(y)) => {
                if x != y {
                    if x < y {
                        return Ordering::Less;
                    } else {
                        return Ordering::Greater;
                    }
                }
                proof {
                    assert(a@.take(i + 1) =~= a@.take(i).push(x));
                    assert(b@.take(i + 1) =~= b@.take(i).push(y));
                    assert(a@.skip(i).drop_first() =~= a@.skip(i + 1));
                    assert(b@.skip(i).drop_first() =~= b@.skip(i + 1));
                    i = i + 1;
                }
            },
        }
    }
}

} // verus!
