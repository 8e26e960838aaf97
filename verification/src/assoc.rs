//! Lists: lists of key and value read as maps, the model of every keyed
//! table that the library keeps in a vector; filtered lists; and copies of
//! lists.

use vstd::prelude::*;

verus! {

/// No key is listed twice.
pub open spec fn keys_distinct<K, V>(s: Seq<(K, V)>) -> bool {
    forall|i: int, j: int| 0 <= i < j < s.len() ==> s[i].0 != s[j].0
}

/// Whether `key` is listed.
pub open spec fn has_key<K, V>(s: Seq<(K, V)>, key: K) -> bool {
    exists|i: int| 0 <= i < s.len() && (#[trigger] s[i]).0 == key
}

/// The map that lists `s`; where a key is listed twice the later entry counts.
pub open spec fn to_map<K, V>(s: Seq<(K, V)>) -> Map<K, V>
    decreases s.len(),
{
    if s.len() == 0 {
        Map::empty()
    } else {
        to_map(s.drop_last()).insert(s.last().0, s.last().1)
    }
}

/// The map holds exactly the listed keys.
pub proof fn lemma_to_map_domain<K, V>(s: Seq<(K, V)>, key: K)
    ensures
        to_map(s).contains_key(key) <==> has_key(s, key),
    decreases s.len(),
{
    if s.len() > 0 {
        let front = s.drop_last();
        lemma_to_map_domain(front, key);
        if has_key(front, key) {
            let i = choose|i: int| 0 <= i < front.len() && (#[trigger] front[i]).0 == key;
            assert(s[i].0 == key);
        }
        if has_key(s, key) {
            let i = choose|i: int| 0 <= i < s.len() && (#[trigger] s[i]).0 == key;
            if i < s.len() - 1 {
                assert(front[i].0 == key);
            }
        }
        if s.last().0 == key {
            assert(s[s.len() - 1].0 == key);
        }
    }
}

/// A list without repeated keys maps each key to the value listed with it.
pub proof fn lemma_to_map_index<K, V>(s: Seq<(K, V)>, i: int)
    requires
        keys_distinct(s),
        0 <= i < s.len(),
    ensures
        to_map(s).contains_key(s[i].0),
        to_map(s)[s[i].0] == s[i].1,
    decreases s.len(),
{
    let front = s.drop_last();
    if i < s.len() - 1 {
        assert(front[i] == s[i]);
        assert(keys_distinct(front)) by {
            assert forall|a: int, b: int| 0 <= a < b < front.len() implies front[a].0
                != front[b].0 by {
                assert(front[a] == s[a]);
                assert(front[b] == s[b]);
            }
        }
        lemma_to_map_index(front, i);
        assert(s[i].0 != s[s.len() - 1].0);
    }
}

/// The front of a list without repeated keys has none either.
pub proof fn lemma_front_distinct<K, V>(s: Seq<(K, V)>)
    requires
        keys_distinct(s),
        s.len() > 0,
    ensures
        keys_distinct(s.drop_last()),
{
    let front = s.drop_last();
    assert forall|a: int, b: int| 0 <= a < b < front.len() implies front[a].0 != front[b].0 by {
        assert(front[a] == s[a]);
        assert(front[b] == s[b]);
    }
}

/// Appending an entry inserts it into the map.
pub proof fn lemma_to_map_push<K, V>(s: Seq<(K, V)>, key: K, value: V)
    ensures
        to_map(s.push((key, value))) == to_map(s).insert(key, value),
{
    let t = s.push((key, value));
    assert(t.drop_last() =~= s);
    assert(t.last() == (key, value));
}

/// Appending a key that is not listed keeps the keys distinct.
pub proof fn lemma_push_distinct<K, V>(s: Seq<(K, V)>, key: K, value: V)
    requires
        keys_distinct(s),
        !has_key(s, key),
    ensures
        keys_distinct(s.push((key, value))),
{
    let t = s.push((key, value));
    assert forall|a: int, b: int| 0 <= a < b < t.len() implies t[a].0 != t[b].0 by {
        if b == s.len() {
            assert(s[a].0 != key);
        }
    }
}

/// Replacing the value listed with a key inserts the new value into the map.
pub proof fn lemma_to_map_update<K, V>(s: Seq<(K, V)>, i: int, value: V)
    requires
        keys_distinct(s),
        0 <= i < s.len(),
    ensures
        to_map(s.update(i, (s[i].0, value))) == to_map(s).insert(s[i].0, value),
        keys_distinct(s.update(i, (s[i].0, value))),
    decreases s.len(),
{
    let key = s[i].0;
    let t = s.update(i, (key, value));
    assert(keys_distinct(t)) by {
        assert forall|a: int, b: int| 0 <= a < b < t.len() implies t[a].0 != t[b].0 by {
            assert(t[a].0 == s[a].0);
            assert(t[b].0 == s[b].0);
        }
    }
    let front = s.drop_last();
    if i == s.len() - 1 {
        assert(t.drop_last() =~= front);
        assert(to_map(t) =~= to_map(s).insert(key, value));
    } else {
        lemma_front_distinct(s);
        assert(front[i] == s[i]);
        lemma_to_map_update(front, i, value);
        assert(t.drop_last() =~= front.update(i, (key, value)));
        assert(t.last() == s.last());
        assert(s[s.len() - 1].0 != key);
        assert(to_map(t) =~= to_map(s).insert(key, value));
    }
}

/// What the element at `i` adds to the filtered front of a sequence.
pub proof fn lemma_filter_step<A>(s: Seq<A>, pred: spec_fn(A) -> bool, i: int)
    requires
        0 <= i < s.len(),
    ensures
        s.take(i + 1).filter(pred) == if pred(s[i]) {
            s.take(i).filter(pred).push(s[i])
        } else {
            s.take(i).filter(pred)
        },
        s.take(0).filter(pred) == Seq::<A>::empty(),
        i + 1 == s.len() ==> s.take(i + 1) == s,
{
    reveal(Seq::filter);
    assert(s.take(i + 1).drop_last() =~= s.take(i));
    assert(s.take(i + 1).last() == s[i]);
    assert(s.take(0) =~= Seq::<A>::empty());
    if i + 1 == s.len() {
        assert(s.take(i + 1) =~= s);
    }
}

/// Filtering the empty sequence leaves it empty.
pub proof fn lemma_filter_empty<A>(pred: spec_fn(A) -> bool)
    ensures
        Seq::<A>::empty().filter(pred) == Seq::<A>::empty(),
{
    reveal(Seq::filter);
}

/// Adds copies of `items` to the end of `buffer`.
pub fn append_all<T: Copy>(buffer: &mut Vec<T>, items: &[T])
    ensures
        final(buffer)@ == old(buffer)@ + items@,
{
    let mut i: usize = 0;
    while i < items.len()
        invariant
            i <= items.len(),
            buffer@ == old(buffer)@ + items@.take(i as int),
        decreases items.len() - i,
    {
        buffer.push(items[i]);
        assert(buffer@ =~= old(buffer)@ + items@.take(i as int + 1));
        i += 1;
    }
    assert(items@.take(i as int) =~= items@);
}

/// A copy of `items`.
pub fn copy_of<T: Copy>(items: &[T]) -> (copy: Vec<T>)
    ensures
        copy@ == items@,
{
    let mut copy: Vec<T> = Vec::new();
    append_all(&mut copy, items);
    assert(copy@ =~= items@);
    copy
}

} // verus!
