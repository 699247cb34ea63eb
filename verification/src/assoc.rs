//! Association lists keyed by (front, goal): the executable form of the
//! per-card maps that replay builds, with the map each one stands for.

use vstd::prelude::*;

use crate::types::Goal;

verus! {

/// Key of a per-card, per-goal record.
pub type CardKey = (Seq<char>, Goal);

/// The map an association list stands for; later pairs win.
pub open spec fn assoc_map<V>(s: Seq<(CardKey, V)>) -> Map<CardKey, V>
    decreases s.len(),
{
    if s.len() == 0 {
        Map::empty()
    } else {
        assoc_map(s.drop_last()).insert(s.last().0, s.last().1)
    }
}

/// No key occurs twice.
pub open spec fn keys_unique<V>(s: Seq<(CardKey, V)>) -> bool {
    forall|i: int, j: int| 0 <= i < j < s.len() ==> (#[trigger] s[i]).0 != (#[trigger] s[j]).0
}

pub proof fn lemma_unique_drop_last<V>(s: Seq<(CardKey, V)>)
    requires
        keys_unique(s),
        s.len() > 0,
    ensures
        keys_unique(s.drop_last()),
{
    let d = s.drop_last();
    assert forall|i: int, j: int| 0 <= i < j < d.len() implies (#[trigger] d[i]).0 != (
    #[trigger] d[j]).0 by {
        assert(d[i] == s[i] && d[j] == s[j]);
    }
}

/// A key that no pair carries is not in the map.
pub proof fn lemma_assoc_absent<V>(s: Seq<(CardKey, V)>, k: CardKey)
    requires
        forall|i: int| 0 <= i < s.len() ==> (#[trigger] s[i]).0 != k,
    ensures
        !assoc_map(s).contains_key(k),
    decreases s.len(),
{
    if s.len() > 0 {
        let d = s.drop_last();
        assert forall|i: int| 0 <= i < d.len() implies (#[trigger] d[i]).0 != k by {
            assert(d[i] == s[i]);
        }
        lemma_assoc_absent(d, k);
    }
}

/// With unique keys, each pair is what the map holds for its key.
pub proof fn lemma_assoc_lookup<V>(s: Seq<(CardKey, V)>, i: int)
    requires
        keys_unique(s),
        0 <= i < s.len(),
    ensures
        assoc_map(s).contains_key(s[i].0),
        assoc_map(s)[s[i].0] == s[i].1,
    decreases s.len(),
{
    if i < s.len() - 1 {
        lemma_unique_drop_last(s);
        assert(s.drop_last()[i] == s[i]);
        lemma_assoc_lookup(s.drop_last(), i);
        assert(s.last().0 != s[i].0);
    }
}

/// Every key of the map belongs to some pair.
pub proof fn lemma_assoc_domain<V>(s: Seq<(CardKey, V)>, k: CardKey)
    requires
        assoc_map(s).contains_key(k),
    ensures
        exists|i: int| 0 <= i < s.len() && (#[trigger] s[i]).0 == k,
    decreases s.len(),
{
    if s.len() > 0 && s.last().0 != k {
        lemma_assoc_domain(s.drop_last(), k);
        let i = choose|i: int| 0 <= i < s.drop_last().len() && (#[trigger] s.drop_last()[i]).0 == k;
        assert(s[i] == s.drop_last()[i]);
    } else if s.len() > 0 {
        assert(s[s.len() - 1].0 == k);
    }
}

/// The map of an association list with unique keys, key by key.
pub proof fn lemma_assoc_char<V>(s: Seq<(CardKey, V)>, k: CardKey)
    requires
        keys_unique(s),
    ensures
        assoc_map(s).contains_key(k) <==> exists|i: int| 0 <= i < s.len() && (#[trigger] s[i]).0 == k,
        forall|i: int| 0 <= i < s.len() && (#[trigger] s[i]).0 == k ==> assoc_map(s)[k] == s[i].1,
{
    if assoc_map(s).contains_key(k) {
        lemma_assoc_domain(s, k);
    }
    assert forall|i: int| 0 <= i < s.len() && (#[trigger] s[i]).0 == k implies assoc_map(s)[k]
        == s[i].1 && assoc_map(s).contains_key(k) by {
        lemma_assoc_lookup(s, i);
    }
}

/// Replacing the pair at `i` with one of the same key updates the map there.
pub proof fn lemma_assoc_update<V>(s: Seq<(CardKey, V)>, i: int, v: V)
    requires
        keys_unique(s),
        0 <= i < s.len(),
    ensures
        keys_unique(s.update(i, (s[i].0, v))),
        assoc_map(s.update(i, (s[i].0, v))) == assoc_map(s).insert(s[i].0, v),
{
    let t = s.update(i, (s[i].0, v));
    assert(keys_unique(t)) by {
        assert forall|a: int, b: int| 0 <= a < b < t.len() implies (#[trigger] t[a]).0 != (
        #[trigger] t[b]).0 by {
            assert(t[a].0 == s[a].0 && t[b].0 == s[b].0);
        }
    }
    assert forall|k: CardKey| #[trigger] assoc_map(t).contains_key(k) == assoc_map(s).insert(
        s[i].0,
        v,
    ).contains_key(k) && (assoc_map(t).contains_key(k) ==> assoc_map(t)[k] == assoc_map(s).insert(
        s[i].0,
        v,
    )[k]) by {
        lemma_assoc_char(s, k);
        lemma_assoc_char(t, k);
        if exists|j: int| 0 <= j < s.len() && (#[trigger] s[j]).0 == k {
            let j = choose|j: int| 0 <= j < s.len() && (#[trigger] s[j]).0 == k;
            assert(t[j].0 == k);
        }
        if exists|j: int| 0 <= j < t.len() && (#[trigger] t[j]).0 == k {
            let j = choose|j: int| 0 <= j < t.len() && (#[trigger] t[j]).0 == k;
            assert(s[j].0 == k);
        }
    }
    assert(assoc_map(t) =~= assoc_map(s).insert(s[i].0, v));
}

/// Removing the pair at `i` removes its key from the map.
pub proof fn lemma_assoc_remove<V>(s: Seq<(CardKey, V)>, i: int)
    requires
        keys_unique(s),
        0 <= i < s.len(),
    ensures
        keys_unique(s.remove(i)),
        assoc_map(s.remove(i)) == assoc_map(s).remove(s[i].0),
{
    let t = s.remove(i);
    assert(keys_unique(t)) by {
        assert forall|a: int, b: int| 0 <= a < b < t.len() implies (#[trigger] t[a]).0 != (
        #[trigger] t[b]).0 by {
            let a2 = if a < i { a } else { a + 1 };
            let b2 = if b < i { b } else { b + 1 };
            assert(t[a] == s[a2] && t[b] == s[b2]);
        }
    }
    assert forall|k: CardKey| #[trigger] assoc_map(t).contains_key(k) == assoc_map(s).remove(
        s[i].0,
    ).contains_key(k) && (assoc_map(t).contains_key(k) ==> assoc_map(t)[k] == assoc_map(s)[k]) by {
        lemma_assoc_char(s, k);
        lemma_assoc_char(t, k);
        if exists|j: int| 0 <= j < s.len() && (#[trigger] s[j]).0 == k {
            let j = choose|j: int| 0 <= j < s.len() && (#[trigger] s[j]).0 == k;
            if j < i {
                assert(t[j] == s[j]);
            } else if j > i {
                assert(t[j - 1] == s[j]);
            }
        }
        if exists|j: int| 0 <= j < t.len() && (#[trigger] t[j]).0 == k {
            let j = choose|j: int| 0 <= j < t.len() && (#[trigger] t[j]).0 == k;
            let j2 = if j < i { j } else { j + 1 };
            assert(t[j] == s[j2]);
        }
    }
    assert(assoc_map(t) =~= assoc_map(s).remove(s[i].0));
}

/// Appending a pair with a new key inserts it.
pub proof fn lemma_assoc_push<V>(s: Seq<(CardKey, V)>, k: CardKey, v: V)
    requires
        keys_unique(s),
        forall|i: int| 0 <= i < s.len() ==> (#[trigger] s[i]).0 != k,
    ensures
        keys_unique(s.push((k, v))),
        assoc_map(s.push((k, v))) == assoc_map(s).insert(k, v),
{
    let t = s.push((k, v));
    assert(t.drop_last() == s);
    assert forall|a: int, b: int| 0 <= a < b < t.len() implies (#[trigger] t[a]).0 != (
    #[trigger] t[b]).0 by {
        assert(t[a] == s[a]);
        if b < s.len() {
            assert(t[b] == s[b]);
        }
    }
}

} // verus!
