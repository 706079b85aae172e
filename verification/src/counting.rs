//! General facts about sequences and multisets used by the board generator:
//! removing the first occurrence of a value from a sequence, and deriving
//! equality of multisets from inclusion plus equal size.

use vstd::prelude::*;

verus! {

use vstd::multiset::Multiset;

/// The sequence `s` with its first occurrence of `x` removed; `s` itself when
/// `x` does not occur.
pub open spec fn remove_first<A>(s: Seq<A>, x: A) -> Seq<A>
    decreases s.len(),
{
    if s.len() == 0 {
        s
    } else if s[0] == x {
        s.drop_first()
    } else {
        seq![s[0]] + remove_first(s.drop_first(), x)
    }
}

/// When `x` does not occur in `s`, removing it changes nothing.
pub proof fn lemma_remove_first_absent<A>(s: Seq<A>, x: A)
    requires
        !s.contains(x),
    ensures
        remove_first(s, x) == s,
    decreases s.len(),
{
    if s.len() == 0 {
    } else {
        assert(s[0] != x);
        assert(!s.drop_first().contains(x)) by {
            if s.drop_first().contains(x) {
                let k = choose|k: int| 0 <= k < s.drop_first().len() && s.drop_first()[k] == x;
                assert(s[k + 1] == x);
            }
        }
        lemma_remove_first_absent(s.drop_first(), x);
        assert(remove_first(s, x) =~= s);
    }
}

/// When `x` occurs in `s`, `remove_first` removes exactly the element at the
/// first index holding `x`.
pub proof fn lemma_remove_first_found<A>(s: Seq<A>, x: A)
    requires
        s.contains(x),
    ensures
        exists|i: int|
            0 <= i < s.len() && s[i] == x && (forall|k: int| 0 <= k < i ==> s[k] != x)
                && remove_first(s, x) == s.remove(i),
    decreases s.len(),
{
    if s[0] == x {
        assert(remove_first(s, x) =~= s.remove(0));
        assert(s[0] == x && (forall|k: int| 0 <= k < 0 ==> s[k] != x) && remove_first(s, x)
            == s.remove(0));
    } else {
        let w = choose|w: int| 0 <= w < s.len() && s[w] == x;
        assert(s.drop_first()[w - 1] == x);
        assert(s.drop_first().contains(x));
        lemma_remove_first_found(s.drop_first(), x);
        let i = choose|i: int|
            0 <= i < s.drop_first().len() && s.drop_first()[i] == x && (forall|k: int|
                0 <= k < i ==> s.drop_first()[k] != x) && remove_first(s.drop_first(), x)
                == s.drop_first().remove(i);
        assert(s[i + 1] == x);
        assert forall|k: int| 0 <= k < i + 1 implies s[k] != x by {
            if k > 0 {
                assert(s.drop_first()[k - 1] != x);
            }
        }
        assert(remove_first(s, x) =~= s.remove(i + 1));
        assert(s[i + 1] == x && (forall|k: int| 0 <= k < i + 1 ==> s[k] != x) && remove_first(s, x)
            == s.remove(i + 1));
    }
}

/// A multiset included in another of the same size equals it.
pub proof fn lemma_subset_same_len_equal<V>(a: Multiset<V>, b: Multiset<V>)
    requires
        a.subset_of(b),
        a.len() == b.len(),
    ensures
        a == b,
{
    broadcast use vstd::multiset::group_multiset_axioms;

    assert(b.sub(a).len() == 0);
    assert forall|v: V| a.count(v) == b.count(v) by {
        assert(b.sub(a).count(v) == 0) by {
            vstd::multiset::lemma_multiset_empty_len(b.sub(a));
        }
    }
    assert(a =~= b);
}

/// A value with multiplicity one occurs at a single index.
pub proof fn lemma_count_one_unique_index<A>(s: Seq<A>, x: A, i: int, j: int)
    requires
        s.to_multiset().count(x) == 1,
        0 <= i < s.len(),
        0 <= j < s.len(),
        s[i] == x,
        s[j] == x,
    ensures
        i == j,
{
    broadcast use vstd::seq_lib::group_to_multiset_ensures;

    if i != j {
        let s2 = s.remove(i);
        let j2: int = if j < i {
            j
        } else {
            j - 1
        };
        assert(s2[j2] == x);
        assert(s2.contains(x));
        assert(s2.to_multiset() == s.to_multiset().remove(x));
        assert(s.to_multiset().remove(x).count(x) == 0) by {
            broadcast use vstd::multiset::group_multiset_axioms;
        }
        assert(false);
    }
}

} // verus!
