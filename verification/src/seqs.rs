//! Generic sequence helpers: the first index satisfying a predicate, for
//! every lookup that scans a list from the front, and the map a run of
//! key-value pairs denotes, the model shared by the world store's entries
//! and the parsed argument flags.

use vstd::prelude::*;

verus! {

/// The index of the first element of `s` satisfying `p`, if any.
pub open spec fn find_index<A>(s: Seq<A>, p: spec_fn(A) -> bool) -> Option<nat>
    decreases s.len(),
{
    if s.len() == 0 {
        None
    } else if p(s[0]) {
        Some(0)
    } else {
        match find_index(s.drop_first(), p) {
            None => None,
            Some(i) => Some((i + 1) as nat),
        }
    }
}

pub proof fn lemma_find_index_props<A>(s: Seq<A>, p: spec_fn(A) -> bool)
    ensures
        match find_index(s, p) {
            None => forall|i: int| 0 <= i < s.len() ==> !p(#[trigger] s[i]),
            Some(i) => i < s.len() && p(s[i as int]) && (forall|j: int|
                0 <= j < i ==> !p(#[trigger] s[j])),
        },
    decreases s.len(),
{
    if s.len() > 0 && !p(s[0]) {
        lemma_find_index_props(s.drop_first(), p);
        assert(forall|j: int|
            0 <= j < s.drop_first().len() ==> s.drop_first()[j] == s[j + 1]);
        match find_index(s.drop_first(), p) {
            None => {
                assert forall|i: int| 0 <= i < s.len() implies !p(s[i]) by {
                    if i > 0 {
                        assert(s[i] == s.drop_first()[i - 1]);
                    }
                }
            },
            Some(i0) => {
                assert(s[i0 as int + 1] == s.drop_first()[i0 as int]);
                assert forall|j: int| 0 <= j < i0 + 1 implies !p(s[j]) by {
                    if j > 0 {
                        assert(s[j] == s.drop_first()[j - 1]);
                    }
                }
            },
        }
    }
}

pub proof fn lemma_find_index_at<A>(s: Seq<A>, p: spec_fn(A) -> bool, i: int)
    requires
        0 <= i < s.len(),
        p(s[i]),
        forall|j: int| 0 <= j < i ==> !p(#[trigger] s[j]),
    ensures
        find_index(s, p) == Some(i as nat),
    decreases s.len(),
{
    if i > 0 {
        assert(forall|j: int|
            0 <= j < s.drop_first().len() ==> s.drop_first()[j] == s[j + 1]);
        lemma_find_index_at(s.drop_first(), p, i - 1);
        assert(find_index(s, p) == Some((((i - 1) as nat + 1)) as nat));
    }
}

/// Folding a run of key-value pairs into a map, first to last, a later
/// pair overriding an earlier one of the same key.
pub open spec fn assoc_map_acc<K, V>(acc: Map<K, V>, s: Seq<(K, V)>) -> Map<K, V>
    decreases s.len(),
{
    if s.len() == 0 {
        acc
    } else {
        assoc_map_acc(acc.insert(s[0].0, s[0].1), s.drop_first())
    }
}

/// The map a run of key-value pairs denotes.
pub open spec fn assoc_map<K, V>(s: Seq<(K, V)>) -> Map<K, V> {
    assoc_map_acc(Map::empty(), s)
}

/// Some pair of `s` carries the key `k`.
pub open spec fn seq_has_key<K, V>(s: Seq<(K, V)>, k: K) -> bool {
    exists|i: int| 0 <= i < s.len() && (#[trigger] s[i]).0 == k
}

pub proof fn lemma_assoc_map_acc_props<K, V>(acc: Map<K, V>, s: Seq<(K, V)>)
    ensures
        forall|k: K|
            #[trigger] assoc_map_acc(acc, s).contains_key(k) <==> (acc.contains_key(k)
                || seq_has_key(s, k)),
        forall|k: K|
            acc.contains_key(k) && !seq_has_key(s, k) ==> #[trigger] assoc_map_acc(acc, s)[k]
                == acc[k],
    decreases s.len(),
{
    if s.len() > 0 {
        let acc2 = acc.insert(s[0].0, s[0].1);
        let rest = s.drop_first();
        lemma_assoc_map_acc_props(acc2, rest);
        assert(assoc_map_acc(acc, s) == assoc_map_acc(acc2, rest));
        assert(forall|j: int| 0 <= j < rest.len() ==> rest[j] == s[j + 1]);
        assert forall|k: K|
            #[trigger] assoc_map_acc(acc, s).contains_key(k) implies (acc.contains_key(k)
            || seq_has_key(s, k)) by {
            assert(assoc_map_acc(acc2, rest).contains_key(k));
            if !acc.contains_key(k) {
                if acc2.contains_key(k) {
                    assert(s[0].0 == k);
                } else {
                    assert(seq_has_key(rest, k));
                    let i = choose|i: int| 0 <= i < rest.len() && (#[trigger] rest[i]).0 == k;
                    assert(s[i + 1].0 == k);
                }
            }
        }
        assert forall|k: K|
            (acc.contains_key(k) || seq_has_key(s, k)) implies #[trigger] assoc_map_acc(
            acc,
            s,
        ).contains_key(k) by {
            if acc.contains_key(k) {
                assert(acc2.contains_key(k));
                assert(assoc_map_acc(acc2, rest).contains_key(k));
            } else {
                let i = choose|i: int| 0 <= i < s.len() && (#[trigger] s[i]).0 == k;
                if i == 0 {
                    assert(acc2.contains_key(k));
                } else {
                    assert(rest[i - 1].0 == k);
                    assert(seq_has_key(rest, k));
                }
                assert(assoc_map_acc(acc2, rest).contains_key(k));
            }
        }
        assert forall|k: K|
            acc.contains_key(k) && !seq_has_key(s, k) implies #[trigger] assoc_map_acc(acc, s)[k]
            == acc[k] by {
            assert(s[0].0 != k);
            assert(acc2.contains_key(k) && acc2[k] == acc[k]);
            assert forall|i: int| 0 <= i < rest.len() implies (#[trigger] rest[i]).0 != k by {
                assert(s[i + 1].0 != k);
            }
            assert(!seq_has_key(rest, k));
            assert(assoc_map_acc(acc2, rest)[k] == acc2[k]);
        }
    }
}

/// The value an association run's map gives a key whose last occurrence is
/// at position `i`: the pair at `i` itself.
pub proof fn lemma_assoc_map_acc_value<K, V>(acc: Map<K, V>, s: Seq<(K, V)>, i: int)
    requires
        0 <= i < s.len(),
        forall|j: int| i < j < s.len() ==> (#[trigger] s[j]).0 != s[i].0,
    ensures
        assoc_map_acc(acc, s).contains_key(s[i].0),
        assoc_map_acc(acc, s)[s[i].0] == s[i].1,
    decreases s.len(),
{
    let acc2 = acc.insert(s[0].0, s[0].1);
    let rest = s.drop_first();
    assert(forall|j: int| 0 <= j < rest.len() ==> rest[j] == s[j + 1]);
    assert(assoc_map_acc(acc, s) == assoc_map_acc(acc2, rest));
    if i == 0 {
        lemma_assoc_map_acc_props(acc2, rest);
        assert forall|k: int| 0 <= k < rest.len() implies (#[trigger] rest[k]).0 != s[0].0 by {
            assert(s[k + 1].0 != s[0].0);
        }
        assert(!seq_has_key(rest, s[0].0));
        assert(acc2.contains_key(s[0].0));
        assert(assoc_map_acc(acc2, rest).contains_key(s[0].0));
        assert(assoc_map_acc(acc2, rest)[s[0].0] == acc2[s[0].0]);
    } else {
        assert forall|j: int| i - 1 < j < rest.len() implies (#[trigger] rest[j]).0 != rest[i
            - 1].0 by {
            assert(s[j + 1].0 != s[i].0);
        }
        lemma_assoc_map_acc_value(acc2, rest, i - 1);
        assert(rest[i - 1] == s[i]);
        assert(assoc_map_acc(acc2, rest)[rest[i - 1].0] == rest[i - 1].1);
    }
}

/// Appending a pair inserts into the denoted map.
pub proof fn lemma_assoc_map_push<K, V>(s: Seq<(K, V)>, k: K, v: V)
    ensures
        assoc_map(s.push((k, v))) == assoc_map(s).insert(k, v),
    decreases s.len(),
{
    lemma_assoc_map_acc_push(Map::empty(), s, k, v);
}

proof fn lemma_assoc_map_acc_push<K, V>(acc: Map<K, V>, s: Seq<(K, V)>, k: K, v: V)
    ensures
        assoc_map_acc(acc, s.push((k, v))) == assoc_map_acc(acc, s).insert(k, v),
    decreases s.len(),
{
    let s2 = s.push((k, v));
    if s.len() == 0 {
        assert(s2.len() == 1 && s2[0] == (k, v));
        assert(s2.drop_first() =~= Seq::<(K, V)>::empty());
        assert(assoc_map_acc(acc.insert(k, v), s2.drop_first()) == acc.insert(k, v));
        assert(assoc_map_acc(acc, s2) == acc.insert(k, v));
    } else {
        let acc2 = acc.insert(s[0].0, s[0].1);
        assert(s2[0] == s[0]);
        assert(s2.drop_first() =~= s.drop_first().push((k, v)));
        lemma_assoc_map_acc_push(acc2, s.drop_first(), k, v);
        assert(assoc_map_acc(acc, s2) == assoc_map_acc(acc2, s2.drop_first()));
        assert(assoc_map_acc(acc, s) == assoc_map_acc(acc2, s.drop_first()));
    }
}

} // verus!
