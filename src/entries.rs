use vstd::prelude::*;

verus! {

/// The map that a list of key/value entries denotes, later entries winning.
pub open spec fn entries_map<K, V>(s: Seq<(K, V)>) -> Map<K, V>
    decreases s.len(),
{
    if s.len() == 0 {
        Map::empty()
    } else {
        entries_map(s.drop_last()).insert(s.last().0, s.last().1)
    }
}

/// No key occurs twice in the list.
pub open spec fn keys_unique<K, V>(s: Seq<(K, V)>) -> bool {
    forall|i: int, j: int| 0 <= i < j < s.len() ==> #[trigger] s[i].0 != #[trigger] s[j].0
}

/// The key of an entry at `i` is a key of the map.
pub open spec fn has_key_at<K, V>(s: Seq<(K, V)>, k: K) -> bool {
    exists|i: int| 0 <= i < s.len() && #[trigger] s[i].0 == k
}

pub proof fn lemma_entries_dom<K, V>(s: Seq<(K, V)>, k: K)
    ensures
        entries_map(s).contains_key(k) <==> has_key_at(s, k),
    decreases s.len(),
{
    if s.len() > 0 {
        let t = s.drop_last();
        lemma_entries_dom(t, k);
        if has_key_at(t, k) {
            let i = choose|i: int| 0 <= i < t.len() && #[trigger] t[i].0 == k;
            assert(s[i].0 == k);
        }
        if has_key_at(s, k) && s.last().0 != k {
            let i = choose|i: int| 0 <= i < s.len() && #[trigger] s[i].0 == k;
            assert(t[i].0 == k);
        }
    }
}

pub proof fn lemma_entries_index<K, V>(s: Seq<(K, V)>, i: int)
    requires
        keys_unique(s),
        0 <= i < s.len(),
    ensures
        entries_map(s).contains_key(s[i].0),
        entries_map(s)[s[i].0] == s[i].1,
    decreases s.len(),
{
    let t = s.drop_last();
    if i < s.len() - 1 {
        assert(keys_unique(t));
        lemma_entries_index(t, i);
        assert(t[i] == s[i]);
        assert(s[i].0 != s[s.len() - 1].0);
    }
}

pub proof fn lemma_entries_finite<K, V>(s: Seq<(K, V)>)
    ensures
        entries_map(s).dom().finite(),
        keys_unique(s) ==> entries_map(s).dom().len() == s.len(),
    decreases s.len(),
{
    if s.len() > 0 {
        let t = s.drop_last();
        lemma_entries_finite(t);
        if keys_unique(s) {
            assert(keys_unique(t));
            lemma_entries_dom(t, s.last().0);
            if has_key_at(t, s.last().0) {
                let i = choose|i: int| 0 <= i < t.len() && #[trigger] t[i].0 == s.last().0;
                assert(s[i].0 == s[s.len() - 1].0);
            }
        }
    }
}

/// Pushing an entry whose key is new keeps the keys unique.
pub proof fn lemma_push_unique<K, V>(s: Seq<(K, V)>, e: (K, V))
    requires
        keys_unique(s),
        !entries_map(s).contains_key(e.0),
    ensures
        keys_unique(s.push(e)),
        entries_map(s.push(e)) == entries_map(s).insert(e.0, e.1),
{
    assert(s.push(e).drop_last() =~= s);
    assert forall|i: int, j: int| 0 <= i < j < s.push(e).len() implies #[trigger] s.push(
        e,
    )[i].0 != #[trigger] s.push(e)[j].0 by {
        if j == s.len() {
            lemma_entries_index(s, i);
        }
    }
}

/// Replacing the value at `i` keeps the keys and updates the map there.
pub proof fn lemma_update_value<K, V>(s: Seq<(K, V)>, i: int, v: V)
    requires
        keys_unique(s),
        0 <= i < s.len(),
    ensures
        keys_unique(s.update(i, (s[i].0, v))),
        entries_map(s.update(i, (s[i].0, v))) == entries_map(s).insert(s[i].0, v),
{
    let u = s.update(i, (s[i].0, v));
    assert forall|a: int, b: int| 0 <= a < b < u.len() implies #[trigger] u[a].0
        != #[trigger] u[b].0 by {
        assert(u[a].0 == s[a].0 && u[b].0 == s[b].0);
    }
    assert forall|k: K| #![auto]
        entries_map(u).contains_key(k) <==> entries_map(s).insert(s[i].0, v).contains_key(k) by {
        lemma_entries_dom(u, k);
        lemma_entries_dom(s, k);
        if has_key_at(s, k) {
            let j = choose|j: int| 0 <= j < s.len() && #[trigger] s[j].0 == k;
            assert(u[j].0 == k);
        }
        if has_key_at(u, k) {
            let j = choose|j: int| 0 <= j < u.len() && #[trigger] u[j].0 == k;
            assert(s[j].0 == k);
        }
    }
    assert forall|k: K| #[trigger] entries_map(u).contains_key(k) implies entries_map(u)[k]
        == entries_map(s).insert(s[i].0, v)[k] by {
        lemma_entries_dom(u, k);
        let j = choose|j: int| 0 <= j < u.len() && #[trigger] u[j].0 == k;
        lemma_entries_index(u, j);
        if j != i {
            lemma_entries_index(s, j);
        }
    }
    assert(entries_map(u) =~= entries_map(s).insert(s[i].0, v));
}

/// Removing the entry at `i` removes its key from the map.
pub proof fn lemma_remove_entry<K, V>(s: Seq<(K, V)>, i: int)
    requires
        keys_unique(s),
        0 <= i < s.len(),
    ensures
        keys_unique(s.remove(i)),
        entries_map(s.remove(i)) == entries_map(s).remove(s[i].0),
{
    let u = s.remove(i);
    assert forall|a: int, b: int| 0 <= a < b < u.len() implies #[trigger] u[a].0
        != #[trigger] u[b].0 by {
        let a2 = if a < i { a } else { a + 1 };
        let b2 = if b < i { b } else { b + 1 };
        assert(u[a] == s[a2] && u[b] == s[b2]);
    }
    assert forall|k: K| #![auto]
        entries_map(u).contains_key(k) <==> entries_map(s).remove(s[i].0).contains_key(k) by {
        lemma_entries_dom(u, k);
        lemma_entries_dom(s, k);
        if has_key_at(s, k) && k != s[i].0 {
            let j = choose|j: int| 0 <= j < s.len() && #[trigger] s[j].0 == k;
            let j2 = if j < i { j } else { j - 1 };
            assert(u[j2].0 == k);
        }
        if has_key_at(u, k) {
            let j = choose|j: int| 0 <= j < u.len() && #[trigger] u[j].0 == k;
            let j2 = if j < i { j } else { j + 1 };
            assert(s[j2].0 == k);
        }
    }
    assert forall|k: K| #[trigger] entries_map(u).contains_key(k) implies entries_map(u)[k]
        == entries_map(s).remove(s[i].0)[k] by {
        lemma_entries_dom(u, k);
        let j = choose|j: int| 0 <= j < u.len() && #[trigger] u[j].0 == k;
        let j2 = if j < i { j } else { j + 1 };
        assert(u[j] == s[j2]);
        lemma_entries_index(u, j);
        lemma_entries_index(s, j2);
    }
    assert(entries_map(u) =~= entries_map(s).remove(s[i].0));
}

} // verus!

verus! {

/// The value stored under `k`, if any.
pub fn assoc_get<V: Copy>(v: &Vec<(u128, V)>, k: u128) -> (r: Option<V>)
    requires
        keys_unique(v@),
    ensures
        match r {
            Some(x) => entries_map(v@).contains_key(k) && entries_map(v@)[k] == x,
            None => !entries_map(v@).contains_key(k),
        },
{
    let mut i: usize = 0;
    while i < v.len()
        invariant
            keys_unique(v@),
            i <= v.len(),
            forall|j: int| 0 <= j < i ==> #[trigger] v@[j].0 != k,
        decreases v.len() - i,
    {
        if v[i].0 == k {
            proof {
                lemma_entries_index(v@, i as int);
            }
            return Some(v[i].1);
        }
        i = i + 1;
    }
    proof {
        lemma_entries_dom(v@, k);
    }
    None
}

/// Stores `x` under `k`, replacing what was there.
pub fn assoc_put<V>(v: &mut Vec<(u128, V)>, k: u128, x: V)
    requires
        keys_unique(old(v)@),
    ensures
        keys_unique(final(v)@),
        entries_map(final(v)@) == entries_map(old(v)@).insert(k, x),
{
    let mut i: usize = 0;
    while i < v.len()
        invariant
            v@ == old(v)@,
            keys_unique(v@),
            i <= v.len(),
            forall|j: int| 0 <= j < i ==> #[trigger] v@[j].0 != k,
        decreases v.len() - i,
    {
        if v[i].0 == k {
            proof {
                lemma_update_value(v@, i as int, x);
            }
            v.set(i, (k, x));
            return;
        }
        i = i + 1;
    }
    proof {
        lemma_entries_dom(v@, k);
        lemma_push_unique(v@, (k, x));
    }
    v.push((k, x));
}

} // verus!

verus! {

/// The first `k + 1` entries hold what the first `k` hold, and `s[k]`.
pub proof fn lemma_take_contains<A>(s: Seq<A>, k: int)
    requires
        0 <= k < s.len(),
    ensures
        forall|v: A| #[trigger] s.take(k + 1).contains(v) <==> s.take(k).contains(v) || v == s[k],
{
    assert forall|v: A| #[trigger] s.take(k + 1).contains(v) <==> s.take(k).contains(v) || v == s[k] by {
        if s.take(k + 1).contains(v) {
            let q = choose|q: int| 0 <= q < k + 1 && #[trigger] s.take(k + 1)[q] == v;
            if q < k {
                assert(s.take(k)[q] == v);
            }
        }
        if s.take(k).contains(v) {
            let q = choose|q: int| 0 <= q < k && #[trigger] s.take(k)[q] == v;
            assert(s.take(k + 1)[q] == v);
        }
        if v == s[k] {
            assert(s.take(k + 1)[k] == v);
        }
    }
}

/// The keys of the first `k + 1` entries are those of the first `k`, and
/// the key of `s[k]`.
pub proof fn lemma_take_has_key<K, V>(s: Seq<(K, V)>, k: int)
    requires
        0 <= k < s.len(),
    ensures
        forall|p: K| #[trigger] has_key_at(s.take(k + 1), p) <==> has_key_at(s.take(k), p) || p == s[k].0,
{
    assert forall|p: K| #[trigger] has_key_at(s.take(k + 1), p) <==> has_key_at(s.take(k), p) || p == s[k].0 by {
        if has_key_at(s.take(k + 1), p) {
            let q = choose|q: int| 0 <= q < s.take(k + 1).len() && #[trigger] s.take(k + 1)[q].0 == p;
            if q < k {
                assert(s.take(k)[q].0 == p);
            }
        }
        if has_key_at(s.take(k), p) {
            let q = choose|q: int| 0 <= q < s.take(k).len() && #[trigger] s.take(k)[q].0 == p;
            assert(s.take(k + 1)[q].0 == p);
        }
        if p == s[k].0 {
            assert(s.take(k + 1)[k].0 == p);
        }
    }
}

} // verus!
