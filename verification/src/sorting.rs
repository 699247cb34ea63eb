//! Stable sorting by an integer key, as `slice::sort_by_key` orders things:
//! elements with equal keys keep their original order.

use vstd::prelude::*;
use vstd::multiset::Multiset;

verus! {

/// `s` with `x` placed after every element whose key is at most `key(x)`
/// and before the trailing run of larger keys.
pub open spec fn insert_sorted<T>(s: Seq<T>, x: T, key: spec_fn(T) -> int) -> Seq<T>
    decreases s.len(),
{
    if s.len() == 0 || key(s.last()) <= key(x) {
        s.push(x)
    } else {
        insert_sorted(s.drop_last(), x, key).push(s.last())
    }
}

/// The stable sort of `s` by `key`.
pub open spec fn sort_by_key<T>(s: Seq<T>, key: spec_fn(T) -> int) -> Seq<T>
    decreases s.len(),
{
    if s.len() == 0 {
        s
    } else {
        insert_sorted(sort_by_key(s.drop_last(), key), s.last(), key)
    }
}

/// Every key in `s` is at most `k`.
pub open spec fn keys_at_most<T>(s: Seq<T>, key: spec_fn(T) -> int, k: int) -> bool {
    forall|i: int| 0 <= i < s.len() ==> key(#[trigger] s[i]) <= k
}

/// Inserting at the position found by scanning back over larger keys is the
/// stable insertion.
pub proof fn lemma_insert_at<T>(s: Seq<T>, x: T, key: spec_fn(T) -> int, pos: int)
    requires
        0 <= pos <= s.len(),
        forall|j: int| pos <= j < s.len() ==> key(#[trigger] s[j]) > key(x),
        pos == 0 || key(s[pos - 1]) <= key(x),
    ensures
        insert_sorted(s, x, key) == s.take(pos).push(x) + s.skip(pos),
    decreases s.len(),
{
    if pos == s.len() {
        assert(s.take(pos) == s);
        assert(s.skip(pos) =~= Seq::<T>::empty());
        assert(s.take(pos).push(x) + s.skip(pos) =~= s.push(x));
    } else {
        let d = s.drop_last();
        assert forall|j: int| pos <= j < d.len() implies key(#[trigger] d[j]) > key(x) by {
            assert(d[j] == s[j]);
        }
        if pos > 0 {
            assert(d[pos - 1] == s[pos - 1]);
        }
        lemma_insert_at(d, x, key, pos);
        assert(d.take(pos) == s.take(pos));
        assert(d.take(pos).push(x) + d.skip(pos) + seq![s.last()] =~= s.take(pos).push(x) + s.skip(
            pos,
        ));
    }
}

/// Inserting keeps the length and adds exactly `x`.
pub proof fn lemma_insert_len<T>(s: Seq<T>, x: T, key: spec_fn(T) -> int)
    ensures
        insert_sorted(s, x, key).len() == s.len() + 1,
    decreases s.len(),
{
    if s.len() > 0 && key(s.last()) > key(x) {
        lemma_insert_len(s.drop_last(), x, key);
    }
}

pub proof fn lemma_sort_len<T>(s: Seq<T>, key: spec_fn(T) -> int)
    ensures
        sort_by_key(s, key).len() == s.len(),
    decreases s.len(),
{
    if s.len() > 0 {
        lemma_sort_len(s.drop_last(), key);
        lemma_insert_len(sort_by_key(s.drop_last(), key), s.last(), key);
    }
}

/// Inserting keeps a bound on every key.
pub proof fn lemma_insert_keys<T>(s: Seq<T>, x: T, key: spec_fn(T) -> int, k: int)
    requires
        keys_at_most(s, key, k),
        key(x) <= k,
    ensures
        keys_at_most(insert_sorted(s, x, key), key, k),
    decreases s.len(),
{
    if s.len() > 0 && key(s.last()) > key(x) {
        let d = s.drop_last();
        assert(keys_at_most(d, key, k)) by {
            assert forall|i: int| 0 <= i < d.len() implies key(#[trigger] d[i]) <= k by {
                assert(d[i] == s[i]);
            }
        }
        lemma_insert_keys(d, x, key, k);
        let r = insert_sorted(s, x, key);
        let t = insert_sorted(d, x, key);
        assert forall|i: int| 0 <= i < r.len() implies key(#[trigger] r[i]) <= k by {
            if i < t.len() {
                assert(r[i] == t[i]);
            }
        }
    }
}

/// Sorting keeps a bound on every key.
pub proof fn lemma_sort_keys<T>(s: Seq<T>, key: spec_fn(T) -> int, k: int)
    requires
        keys_at_most(s, key, k),
    ensures
        keys_at_most(sort_by_key(s, key), key, k),
    decreases s.len(),
{
    if s.len() > 0 {
        let d = s.drop_last();
        assert(keys_at_most(d, key, k)) by {
            assert forall|i: int| 0 <= i < d.len() implies key(#[trigger] d[i]) <= k by {
                assert(d[i] == s[i]);
            }
        }
        lemma_sort_keys(d, key, k);
        lemma_insert_keys(sort_by_key(d, key), s.last(), key, k);
    }
}

/// Sorting a sequence extended by an element with the largest key appends it.
pub proof fn lemma_sort_push_latest<T>(s: Seq<T>, x: T, key: spec_fn(T) -> int)
    requires
        keys_at_most(s, key, key(x)),
    ensures
        sort_by_key(s.push(x), key) == sort_by_key(s, key).push(x),
{
    lemma_sort_keys(s, key, key(x));
    let t = sort_by_key(s, key);
    assert(s.push(x).drop_last() == s);
    if t.len() > 0 {
        assert(key(t.last()) <= key(x));
    }
}


/// Keys never decrease along `s`.
pub open spec fn sorted_by<T>(s: Seq<T>, key: spec_fn(T) -> int) -> bool {
    forall|i: int, j: int| 0 <= i <= j < s.len() ==> key(#[trigger] s[i]) <= key(#[trigger] s[j])
}

proof fn lemma_insert_sorted_sorted<T>(s: Seq<T>, x: T, key: spec_fn(T) -> int)
    requires
        sorted_by(s, key),
    ensures
        sorted_by(insert_sorted(s, x, key), key),
    decreases s.len(),
{
    let r = insert_sorted(s, x, key);
    if s.len() == 0 || key(s.last()) <= key(x) {
        assert forall|i: int, j: int| 0 <= i <= j < r.len() implies key(#[trigger] r[i]) <= key(
        #[trigger] r[j]) by {
            if j == s.len() && i < s.len() {
                assert(key(s[i]) <= key(s[s.len() - 1]));
            }
        }
    } else {
        let d = s.drop_last();
        assert(sorted_by(d, key)) by {
            assert forall|i: int, j: int| 0 <= i <= j < d.len() implies key(#[trigger] d[i]) <= key(
            #[trigger] d[j]) by {
                assert(d[i] == s[i] && d[j] == s[j]);
            }
        }
        lemma_insert_sorted_sorted(d, x, key);
        let t = insert_sorted(d, x, key);
        assert(keys_at_most(d, key, key(s.last()))) by {
            assert forall|i: int| 0 <= i < d.len() implies key(#[trigger] d[i]) <= key(s.last()) by {
                assert(d[i] == s[i]);
                assert(key(s[i]) <= key(s[s.len() - 1]));
            }
        }
        lemma_insert_keys(d, x, key, key(s.last()));
        assert forall|i: int, j: int| 0 <= i <= j < r.len() implies key(#[trigger] r[i]) <= key(
        #[trigger] r[j]) by {
            if j < t.len() {
                assert(r[i] == t[i] && r[j] == t[j]);
            } else if i < t.len() {
                assert(r[i] == t[i]);
            }
        }
    }
}

/// The stable sort is sorted.
pub proof fn lemma_sort_sorted<T>(s: Seq<T>, key: spec_fn(T) -> int)
    ensures
        sorted_by(sort_by_key(s, key), key),
    decreases s.len(),
{
    if s.len() > 0 {
        lemma_sort_sorted(s.drop_last(), key);
        lemma_insert_sorted_sorted(sort_by_key(s.drop_last(), key), s.last(), key);
    }
}

proof fn lemma_insert_multiset<T>(s: Seq<T>, x: T, key: spec_fn(T) -> int)
    ensures
        insert_sorted(s, x, key).to_multiset() == s.to_multiset().insert(x),
    decreases s.len(),
{
    broadcast use vstd::seq_lib::group_to_multiset_ensures;

    if s.len() > 0 && key(s.last()) > key(x) {
        let d = s.drop_last();
        lemma_insert_multiset(d, x, key);
        assert(d.push(s.last()) =~= s);
        assert(d.to_multiset().insert(x).insert(s.last()) =~= d.to_multiset().insert(s.last()).insert(
            x,
        ));
    }
}

/// The stable sort holds the same elements.
pub proof fn lemma_sort_multiset<T>(s: Seq<T>, key: spec_fn(T) -> int)
    ensures
        sort_by_key(s, key).to_multiset() == s.to_multiset(),
    decreases s.len(),
{
    broadcast use vstd::seq_lib::group_to_multiset_ensures;

    if s.len() > 0 {
        let d = s.drop_last();
        lemma_sort_multiset(d, key);
        lemma_insert_multiset(sort_by_key(d, key), s.last(), key);
        assert(d.push(s.last()) =~= s);
    }
}


/// `s` with `x` placed after the last element it does not sort before.
pub open spec fn insert_by<T>(s: Seq<T>, x: T, before: spec_fn(T, T) -> bool) -> Seq<T>
    decreases s.len(),
{
    if s.len() == 0 || !before(x, s.last()) {
        s.push(x)
    } else {
        insert_by(s.drop_last(), x, before).push(s.last())
    }
}

/// The stable sort of `s` by a strict "sorts before" relation, as
/// `slice::sort_by` orders things.
pub open spec fn sort_by_before<T>(s: Seq<T>, before: spec_fn(T, T) -> bool) -> Seq<T>
    decreases s.len(),
{
    if s.len() == 0 {
        s
    } else {
        insert_by(sort_by_before(s.drop_last(), before), s.last(), before)
    }
}

/// Inserting at the position found by scanning back over the elements `x`
/// sorts before is the stable insertion.
pub proof fn lemma_insert_by_at<T>(s: Seq<T>, x: T, before: spec_fn(T, T) -> bool, pos: int)
    requires
        0 <= pos <= s.len(),
        forall|j: int| pos <= j < s.len() ==> before(x, #[trigger] s[j]),
        pos == 0 || !before(x, s[pos - 1]),
    ensures
        insert_by(s, x, before) == s.take(pos).push(x) + s.skip(pos),
    decreases s.len(),
{
    if pos == s.len() {
        assert(s.take(pos) == s);
        assert(s.skip(pos) =~= Seq::<T>::empty());
        assert(s.take(pos).push(x) + s.skip(pos) =~= s.push(x));
    } else {
        let d = s.drop_last();
        assert forall|j: int| pos <= j < d.len() implies before(x, #[trigger] d[j]) by {
            assert(d[j] == s[j]);
        }
        if pos > 0 {
            assert(d[pos - 1] == s[pos - 1]);
        }
        assert(before(x, s[s.len() - 1]));
        lemma_insert_by_at(d, x, before, pos);
        assert(d.take(pos) == s.take(pos));
        assert(d.take(pos).push(x) + d.skip(pos) + seq![s.last()] =~= s.take(pos).push(x) + s.skip(
            pos,
        ));
    }
}


/// No two positions of `s` hold the same key.
pub open spec fn distinct_keys<T>(s: Seq<T>, key: spec_fn(T) -> int) -> bool {
    forall|i: int, j: int|
        0 <= i < s.len() && 0 <= j < s.len() && i != j ==> key(#[trigger] s[i]) != key(#[trigger] s[j])
}

/// No element occurs twice in `m`, and no two of its elements share a key.
pub open spec fn keys_distinct<T>(m: Multiset<T>, key: spec_fn(T) -> int) -> bool {
    &&& forall|x: T| #[trigger] m.count(x) <= 1
    &&& forall|x: T, y: T|
        #![trigger m.count(x), m.count(y)]
        m.count(x) > 0 && m.count(y) > 0 && key(x) == key(y) ==> x == y
}

proof fn lemma_in_multiset<T>(s: Seq<T>, x: T) -> (i: int)
    requires
        s.to_multiset().count(x) > 0,
    ensures
        0 <= i < s.len(),
        s[i] == x,
{
    broadcast use vstd::seq_lib::group_to_multiset_ensures;

    assert(s.contains(x));
    choose|i: int| 0 <= i < s.len() && s[i] == x
}

pub proof fn lemma_distinct_keys_multiset<T>(s: Seq<T>, key: spec_fn(T) -> int)
    requires
        distinct_keys(s, key),
    ensures
        keys_distinct(s.to_multiset(), key),
    decreases s.len(),
{
    broadcast use vstd::seq_lib::group_to_multiset_ensures;

    if s.len() > 0 {
        let d = s.drop_last();
        let x = s.last();
        let n = s.len() - 1;
        assert(distinct_keys(d, key)) by {
            assert forall|i: int, j: int|
                0 <= i < d.len() && 0 <= j < d.len() && i != j implies key(#[trigger] d[i]) != key(
                #[trigger] d[j],
            ) by {
                assert(d[i] == s[i] && d[j] == s[j]);
            }
        }
        lemma_distinct_keys_multiset(d, key);
        assert(d.push(x) =~= s);
        let m = s.to_multiset();
        let md = d.to_multiset();
        assert(m == md.insert(x));
        if md.count(x) > 0 {
            let i = lemma_in_multiset(d, x);
            assert(s[i] == d[i]);
            assert(key(s[i]) != key(s[n]));
        }
        assert forall|z: T| #[trigger] m.count(z) <= 1 by {
            assert(md.count(z) <= 1);
        }
        assert forall|z: T, w: T|
            #![trigger m.count(z), m.count(w)]
            m.count(z) > 0 && m.count(w) > 0 && key(z) == key(w) implies z == w by {
            if z != x && w != x {
                assert(md.count(z) > 0 && md.count(w) > 0);
            } else if z == x && w != x {
                assert(md.count(w) > 0);
                let i = lemma_in_multiset(d, w);
                assert(s[i] == d[i]);
                assert(key(s[i]) != key(s[n]));
            } else if w == x && z != x {
                assert(md.count(z) > 0);
                let i = lemma_in_multiset(d, z);
                assert(s[i] == d[i]);
                assert(key(s[i]) != key(s[n]));
            }
        }
    }
}

proof fn lemma_sorted_prefix<T>(s: Seq<T>, key: spec_fn(T) -> int)
    requires
        sorted_by(s, key),
        s.len() > 0,
    ensures
        sorted_by(s.drop_last(), key),
        forall|i: int| 0 <= i < s.len() ==> key(#[trigger] s[i]) <= key(s.last()),
{
    let d = s.drop_last();
    assert forall|i: int, j: int| 0 <= i <= j < d.len() implies key(#[trigger] d[i]) <= key(
    #[trigger] d[j]) by {
        assert(d[i] == s[i] && d[j] == s[j]);
    }
    assert forall|i: int| 0 <= i < s.len() implies key(#[trigger] s[i]) <= key(s.last()) by {
        assert(key(s[i]) <= key(s[s.len() - 1]));
    }
}

/// Two sorted sequences that hold the same elements, no two of which share
/// a key, are the same sequence.
pub proof fn lemma_sorted_unique<T>(s: Seq<T>, t: Seq<T>, key: spec_fn(T) -> int)
    requires
        sorted_by(s, key),
        sorted_by(t, key),
        s.to_multiset() == t.to_multiset(),
        keys_distinct(s.to_multiset(), key),
    ensures
        s == t,
    decreases s.len(),
{
    broadcast use vstd::seq_lib::group_to_multiset_ensures;

    assert(s.len() == t.len()) by {
        vstd::seq_lib::to_multiset_len(s);
        vstd::seq_lib::to_multiset_len(t);
    }
    if s.len() == 0 {
        assert(s =~= t);
    } else {
        let x = s.last();
        let y = t.last();
        let m = s.to_multiset();
        lemma_sorted_prefix(s, key);
        lemma_sorted_prefix(t, key);
        assert(t.to_multiset().count(y) > 0) by {
            assert(t[t.len() - 1] == y);
            assert(t.contains(y));
        }
        assert(m.count(x) > 0) by {
            assert(s[s.len() - 1] == x);
            assert(s.contains(x));
        }
        let i = lemma_in_multiset(s, y);
        let j = lemma_in_multiset(t, x);
        assert(key(s[i]) <= key(x));
        assert(key(t[j]) <= key(y));
        assert(m.count(x) > 0 && m.count(y) > 0);
        assert(x == y);
        let sd = s.drop_last();
        let td = t.drop_last();
        assert(sd.push(x) =~= s);
        assert(td.push(y) =~= t);
        assert(sd.to_multiset() =~= td.to_multiset()) by {
            assert(m == sd.to_multiset().insert(x));
            assert(m == td.to_multiset().insert(x));
            assert forall|z: T| #[trigger] sd.to_multiset().count(z) == td.to_multiset().count(z) by {
                assert(m.count(z) == sd.to_multiset().insert(x).count(z));
                assert(m.count(z) == td.to_multiset().insert(x).count(z));
            }
        }
        let md = sd.to_multiset();
        assert(m == md.insert(x));
        assert(keys_distinct(md, key)) by {
            assert forall|z: T| #[trigger] md.count(z) <= 1 by {
                assert(m.count(z) <= 1);
            }
            assert forall|z: T, w: T|
                #![trigger md.count(z), md.count(w)]
                md.count(z) > 0 && md.count(w) > 0 && key(z) == key(w) implies z == w by {
                assert(m.count(z) > 0 && m.count(w) > 0);
            }
        }
        lemma_sorted_unique(sd, td, key);
    }
}

} // verus!
