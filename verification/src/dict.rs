//! Lists of keys with values, read as maps.
use vstd::prelude::*;

verus! {

/// Whether no key occurs twice.
pub open spec fn keys_unique<K, V>(list: Seq<(K, V)>) -> bool {
    forall|i: int, j: int| 0 <= i < j < list.len() ==> #[trigger] list[i].0 != #[trigger] list[j].0
}

/// Whether the key occurs.
pub open spec fn has_key<K, V>(list: Seq<(K, V)>, key: K) -> bool {
    exists|i: int| 0 <= i < list.len() && #[trigger] list[i].0 == key
}

/// Where the key occurs, if it does.
pub open spec fn index_of_key<K, V>(list: Seq<(K, V)>, key: K) -> int {
    choose|i: int| 0 <= i < list.len() && #[trigger] list[i].0 == key
}

/// The map that a list of keys with values stands for.
pub open spec fn dict<K, V>(list: Seq<(K, V)>) -> Map<K, V> {
    Map::new(|key: K| has_key(list, key), |key: K| list[index_of_key(list, key)].1)
}

/// The entry at a position is what the map holds for its key.
pub proof fn lemma_dict_at<K, V>(list: Seq<(K, V)>, i: int)
    requires
        keys_unique(list),
        0 <= i < list.len(),
    ensures
        dict(list).contains_key(list[i].0),
        dict(list)[list[i].0] == list[i].1,
        index_of_key(list, list[i].0) == i,
{
    let j = index_of_key(list, list[i].0);
    assert(list[i].0 == list[i].0);
    assert(has_key(list, list[i].0));
    assert(0 <= j < list.len() && list[j].0 == list[i].0);
}

/// Appending an entry with a new key adds it to the map.
pub proof fn lemma_dict_push<K, V>(list: Seq<(K, V)>, key: K, value: V)
    requires
        keys_unique(list),
        !has_key(list, key),
    ensures
        keys_unique(list.push((key, value))),
        dict(list.push((key, value))) == dict(list).insert(key, value),
{
    let longer = list.push((key, value));
    let last = list.len() as int;
    assert forall|i: int, j: int| 0 <= i < j < longer.len() implies #[trigger] longer[i].0 != #[trigger] longer[j].0 by {
        if j == last {
            assert(list[i].0 != key);
        } else {
            assert(list[i].0 != list[j].0);
        }
    }
    assert forall|k: K| #[trigger] has_key(longer, k) == (k == key || has_key(list, k)) by {
        if has_key(longer, k) {
            let i = index_of_key(longer, k);
            if i < last {
                assert(list[i].0 == k);
            }
        }
        if k == key {
            assert(longer[last].0 == k);
        }
        if has_key(list, k) {
            let i = index_of_key(list, k);
            assert(longer[i].0 == k);
        }
    }
    assert forall|k: K| #[trigger] has_key(longer, k) implies dict(longer)[k] == dict(list).insert(key, value)[k] by {
        if k == key {
            lemma_dict_at(longer, last);
            assert(longer[last].0 == key);
        } else {
            let i = index_of_key(list, k);
            assert(has_key(list, k));
            assert(longer[i].0 == k);
            lemma_dict_at(longer, i);
            lemma_dict_at(list, i);
        }
    }
    assert(dict(longer) =~= dict(list).insert(key, value));
}

/// Changing the value at a position changes it in the map.
pub proof fn lemma_dict_update<K, V>(list: Seq<(K, V)>, i: int, value: V)
    requires
        keys_unique(list),
        0 <= i < list.len(),
    ensures
        keys_unique(list.update(i, (list[i].0, value))),
        dict(list.update(i, (list[i].0, value))) == dict(list).insert(list[i].0, value),
{
    let key = list[i].0;
    let other = list.update(i, (key, value));
    assert forall|a: int, b: int| 0 <= a < b < other.len() implies #[trigger] other[a].0 != #[trigger] other[b].0 by {
        assert(list[a].0 != list[b].0);
    }
    assert forall|k: K| #[trigger] has_key(other, k) == has_key(list, k) by {
        if has_key(other, k) {
            let j = index_of_key(other, k);
            assert(list[j].0 == k);
        }
        if has_key(list, k) {
            let j = index_of_key(list, k);
            assert(other[j].0 == k);
        }
    }
    assert(has_key(list, key)) by {
        assert(list[i].0 == key);
    }
    assert forall|k: K| #[trigger] has_key(other, k) implies dict(other)[k] == dict(list).insert(key, value)[k] by {
        let j = index_of_key(list, k);
        assert(has_key(list, k));
        assert(other[j].0 == k);
        lemma_dict_at(other, j);
        lemma_dict_at(list, j);
        if k == key {
            lemma_dict_at(other, i);
            assert(other[i].0 == key);
        } else {
            assert(j != i);
        }
    }
    assert(dict(other) =~= dict(list).insert(key, value));
}

/// Removing the entry at a position removes its key from the map.
pub proof fn lemma_dict_remove<K, V>(list: Seq<(K, V)>, i: int)
    requires
        keys_unique(list),
        0 <= i < list.len(),
    ensures
        keys_unique(list.remove(i)),
        dict(list.remove(i)) == dict(list).remove(list[i].0),
{
    let key = list[i].0;
    let other = list.remove(i);
    assert forall|a: int, b: int| 0 <= a < b < other.len() implies #[trigger] other[a].0 != #[trigger] other[b].0 by {
        let c = if a < i { a } else { a + 1 };
        let d = if b < i { b } else { b + 1 };
        assert(list[c].0 != list[d].0);
    }
    assert forall|k: K| #[trigger] has_key(other, k) <==> k != key && has_key(list, k) by {
        if has_key(other, k) {
            let a = index_of_key(other, k);
            let c = if a < i { a } else { a + 1 };
            assert(list[c].0 == k);
            if c < i {
                assert(list[c].0 != list[i].0);
            } else {
                assert(list[i].0 != list[c].0);
            }
        }
        if k != key && has_key(list, k) {
            let c = index_of_key(list, k);
            let a = if c < i { c } else { c - 1 };
            assert(other[a].0 == k);
        }
    }
    assert forall|k: K| #[trigger] has_key(other, k) implies dict(other)[k] == dict(list)[k] by {
        let a = index_of_key(other, k);
        let c = if a < i { a } else { a + 1 };
        lemma_dict_at(other, a);
        lemma_dict_at(list, c);
        assert(list[c] == other[a]);
    }
    assert(dict(other) =~= dict(list).remove(key));
}

/// Leaving out entries leaves no key twice and brings no new key in.
pub proof fn lemma_filter_keys<K, V>(list: Seq<(K, V)>, keep: spec_fn((K, V)) -> bool)
    requires
        keys_unique(list),
    ensures
        keys_unique(list.filter(keep)),
        forall|key: K| #[trigger] has_key(list.filter(keep), key) ==> has_key(list, key),
    decreases list.len(),
{
    reveal(Seq::filter);
    if list.len() > 0 {
        let rest = list.drop_last();
        let last = list.last();
        assert forall|i: int, j: int| 0 <= i < j < rest.len() implies #[trigger] rest[i].0 != #[trigger] rest[j].0 by {
            assert(list[i].0 != list[j].0);
        }
        lemma_filter_keys(rest, keep);
        assert forall|key: K| #[trigger] has_key(rest, key) implies has_key(list, key) && key != last.0 by {
            let i = index_of_key(rest, key);
            assert(list[i].0 == key);
            assert(list[i].0 != list[list.len() - 1].0);
        }
        assert(has_key(list, last.0)) by {
            assert(list[list.len() - 1].0 == last.0);
        }
        if keep(last) {
            assert(!has_key(rest.filter(keep), last.0));
            lemma_dict_push(rest.filter(keep), last.0, last.1);
            assert(list.filter(keep) =~= rest.filter(keep).push((last.0, last.1)));
            assert forall|key: K| #[trigger] has_key(list.filter(keep), key) implies has_key(list, key) by {
                let i = index_of_key(list.filter(keep), key);
                if i < rest.filter(keep).len() {
                    assert(rest.filter(keep)[i].0 == key);
                    assert(has_key(rest.filter(keep), key));
                }
            }
        }
    }
}

/// The map has as many keys as the list has entries.
pub proof fn lemma_dict_len<K, V>(list: Seq<(K, V)>)
    requires
        keys_unique(list),
    ensures
        dict(list).dom().finite(),
        dict(list).dom().len() == list.len(),
    decreases list.len(),
{
    if list.len() == 0 {
        assert(dict(list).dom() =~= Set::empty());
    } else {
        let rest = list.drop_last();
        let (key, value) = list.last();
        assert(keys_unique(rest)) by {
            assert forall|i: int, j: int| 0 <= i < j < rest.len() implies #[trigger] rest[i].0 != #[trigger] rest[j].0 by {
                assert(list[i].0 != list[j].0);
            }
        }
        assert(!has_key(rest, key)) by {
            if has_key(rest, key) {
                let i = index_of_key(rest, key);
                assert(list[i].0 != list[list.len() - 1].0);
            }
        }
        lemma_dict_len(rest);
        lemma_dict_push(rest, key, value);
        assert(rest.push((key, value)) =~= list);
        assert(dict(list).dom() =~= dict(rest).dom().insert(key));
        assert(!dict(rest).dom().contains(key));
    }
}

} // verus!
