//! Laws that relate several calls of the tree's operations, stated over the
//! mapping that `Tree::insert` and `Tree::get` are specified by.
use crate::tree::{inserted, inserted_all};
use vstd::prelude::*;

verus! {

/// No two pairs of `s` share a key.
pub open spec fn distinct_keys<K, V>(s: Seq<(K, V)>) -> bool {
    forall|i: int, j: int|
        0 <= i < s.len() && 0 <= j < s.len() && i != j ==> #[trigger] s[i].0 != #[trigger] s[j].0
}

/// An insertion always leaves a binding for the inserted key, so the tree
/// that it returns is never empty.
pub proof fn lemma_insert_nonempty<K, V>(m: Map<K, V>, k: K, v: V)
    ensures
        inserted(m, k, v).dom().contains(k),
        inserted(m, k, v) != Map::<K, V>::empty(),
{
    assert(!Map::<K, V>::empty().dom().contains(k));
}

/// A key that no pair of `s` carries has no binding after the pairs of `s`
/// are inserted into an empty tree.
pub proof fn lemma_absent_key<K, V>(s: Seq<(K, V)>, k: K)
    requires
        forall|i: int| 0 <= i < s.len() ==> #[trigger] s[i].0 != k,
    ensures
        !inserted_all(Map::<K, V>::empty(), s).dom().contains(k),
    decreases s.len(),
{
    if s.len() > 0 {
        let t = s.drop_last();
        assert forall|i: int| 0 <= i < t.len() implies #[trigger] t[i].0 != k by {
            assert(t[i] == s[i]);
        }
        lemma_absent_key(t, k);
        assert(s.last() == s[s.len() - 1]);
    }
}

/// Inserting pairs with distinct keys into an empty tree, in the order of
/// `s`, leaves each key bound to the value it came with.
pub proof fn lemma_round_trip<K, V>(s: Seq<(K, V)>)
    requires
        distinct_keys(s),
    ensures
        forall|i: int|
            0 <= i < s.len() ==> {
                &&& inserted_all(Map::<K, V>::empty(), s).dom().contains(#[trigger] s[i].0)
                &&& inserted_all(Map::<K, V>::empty(), s)[s[i].0] == s[i].1
            },
    decreases s.len(),
{
    if s.len() > 0 {
        let t = s.drop_last();
        let n = s.len() - 1;
        assert forall|i: int, j: int|
            0 <= i < t.len() && 0 <= j < t.len() && i != j implies #[trigger] t[i].0
            != #[trigger] t[j].0 by {
            assert(t[i] == s[i] && t[j] == s[j]);
        }
        lemma_round_trip(t);
        assert forall|i: int| 0 <= i < t.len() implies #[trigger] t[i].0 != s[n].0 by {
            assert(t[i] == s[i]);
        }
        lemma_absent_key(t, s[n].0);
        assert forall|i: int| 0 <= i < s.len() implies {
            &&& inserted_all(Map::<K, V>::empty(), s).dom().contains(#[trigger] s[i].0)
            &&& inserted_all(Map::<K, V>::empty(), s)[s[i].0] == s[i].1
        } by {
            if i < n {
                assert(t[i] == s[i]);
            }
        }
    }
}

/// Where two sequences of pairs with distinct keys hold the same pairs, in
/// whatever order, inserting either into an empty tree gives the same
/// bindings.
pub proof fn lemma_order_independent<K, V>(s1: Seq<(K, V)>, s2: Seq<(K, V)>)
    requires
        distinct_keys(s1),
        distinct_keys(s2),
        s1.to_set() == s2.to_set(),
    ensures
        inserted_all(Map::<K, V>::empty(), s1) == inserted_all(Map::<K, V>::empty(), s2),
{
    let m1 = inserted_all(Map::<K, V>::empty(), s1);
    let m2 = inserted_all(Map::<K, V>::empty(), s2);
    lemma_round_trip(s1);
    lemma_round_trip(s2);
    lemma_bound_keys_come_from(s1);
    lemma_bound_keys_come_from(s2);
    assert forall|k: K| m1.dom().contains(k) implies m2.dom().contains(k) && m2[k] == m1[k] by {
        let i = choose|i: int| 0 <= i < s1.len() && s1[i].0 == k;
        assert(s1.to_set().contains(s1[i]));
        let j = choose|j: int| 0 <= j < s2.len() && s2[j] == s1[i];
        assert(s2[j].0 == k);
    }
    assert forall|k: K| m2.dom().contains(k) implies m1.dom().contains(k) by {
        let j = choose|j: int| 0 <= j < s2.len() && s2[j].0 == k;
        assert(s2.to_set().contains(s2[j]));
        let i = choose|i: int| 0 <= i < s1.len() && s1[i] == s2[j];
        assert(s1[i].0 == k);
    }
    assert(m1 =~= m2);
}

/// Every key bound after inserting the pairs of `s` into an empty tree is
/// the key of some pair of `s`.
proof fn lemma_bound_keys_come_from<K, V>(s: Seq<(K, V)>)
    ensures
        forall|k: K|
            #[trigger] inserted_all(Map::<K, V>::empty(), s).dom().contains(k) ==> exists|i: int|
                0 <= i < s.len() && s[i].0 == k,
{
    assert forall|k: K| #[trigger]
        inserted_all(Map::<K, V>::empty(), s).dom().contains(k) implies exists|i: int|
        0 <= i < s.len() && s[i].0 == k by {
        if !exists|i: int| 0 <= i < s.len() && s[i].0 == k {
            lemma_absent_key(s, k);
        }
    }
}

/// A second insertion of a key changes nothing: the first binding stays.
pub proof fn lemma_first_write_wins<K, V>(m: Map<K, V>, k: K, v1: V, v2: V)
    ensures
        inserted(inserted(m, k, v1), k, v2) == inserted(m, k, v1),
        !m.dom().contains(k) ==> inserted(inserted(m, k, v1), k, v2)[k] == v1,
{
}

/// An insertion keeps every binding that the tree already held.
pub proof fn lemma_insert_keeps_bindings<K, V>(m: Map<K, V>, k: K, v: V)
    ensures
        forall|j: K| #[trigger]
            m.dom().contains(j) ==> inserted(m, k, v).dom().contains(j) && inserted(m, k, v)[j]
                == m[j],
{
}

} // verus!
