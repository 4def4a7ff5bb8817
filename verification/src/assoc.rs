//! Runs of keyed writes and the map they leave behind. The store, the log and
//! the registry are all read through this one model.

use vstd::prelude::*;

verus! {

/// The map left behind by a run of writes: a later write to a key replaces
/// an earlier one.
pub open spec fn written<K, V>(writes: Seq<(K, V)>) -> Map<K, V>
    decreases writes.len(),
{
    if writes.len() == 0 {
        Map::empty()
    } else {
        written(writes.drop_last()).insert(writes.last().0, writes.last().1)
    }
}

/// No key is written twice.
pub open spec fn distinct_keys<K, V>(writes: Seq<(K, V)>) -> bool {
    forall|i: int, j: int|
        #![trigger writes[i], writes[j]]
        0 <= i < j < writes.len() ==> writes[i].0 != writes[j].0
}

/// A key is in the map exactly when some write names it.
pub proof fn lemma_written_keys<K, V>(writes: Seq<(K, V)>, key: K)
    ensures
        written(writes).contains_key(key) <==> exists|i: int|
            0 <= i < writes.len() && (#[trigger] writes[i]).0 == key,
    decreases writes.len(),
{
    if writes.len() > 0 {
        let front = writes.drop_last();
        lemma_written_keys(front, key);
        if written(writes).contains_key(key) {
            if writes.last().0 == key {
                assert(writes[writes.len() - 1].0 == key);
            } else {
                let i = choose|i: int| 0 <= i < front.len() && (#[trigger] front[i]).0 == key;
                assert(writes[i].0 == key);
            }
        }
        if exists|i: int| 0 <= i < writes.len() && (#[trigger] writes[i]).0 == key {
            let i = choose|i: int| 0 <= i < writes.len() && (#[trigger] writes[i]).0 == key;
            if i < front.len() {
                assert(front[i].0 == key);
            }
        }
    }
}

/// The map holds, under a key, the value of the last write that names it.
pub proof fn lemma_written_last<K, V>(writes: Seq<(K, V)>, i: int)
    requires
        0 <= i < writes.len(),
        forall|j: int| i < j < writes.len() ==> (#[trigger] writes[j]).0 != writes[i].0,
    ensures
        written(writes).contains_key(writes[i].0),
        written(writes)[writes[i].0] == writes[i].1,
    decreases writes.len(),
{
    if i < writes.len() - 1 {
        let front = writes.drop_last();
        assert(writes[writes.len() - 1].0 != writes[i].0);
        assert forall|j: int| i < j < front.len() implies (#[trigger] front[j]).0
            != front[i].0 by {
            assert(writes[j].0 != writes[i].0);
        }
        lemma_written_last(front, i);
    }
}

/// Adding a write adds or replaces one binding.
pub proof fn lemma_written_push<K, V>(writes: Seq<(K, V)>, key: K, value: V)
    ensures
        written(writes.push((key, value))) == written(writes).insert(key, value),
{
    assert(writes.push((key, value)).drop_last() =~= writes);
}

/// Where no key is written twice, changing the value of one write changes
/// one binding.
pub proof fn lemma_written_update<K, V>(writes: Seq<(K, V)>, i: int, value: V)
    requires
        0 <= i < writes.len(),
        distinct_keys(writes),
    ensures
        written(writes.update(i, (writes[i].0, value))) == written(writes).insert(
            writes[i].0,
            value,
        ),
    decreases writes.len(),
{
    let key = writes[i].0;
    let after = writes.update(i, (key, value));
    let front = writes.drop_last();
    if i == writes.len() - 1 {
        assert(after.drop_last() =~= front);
        assert(written(after) =~= written(writes).insert(key, value));
    } else {
        assert(writes[i].0 != writes[writes.len() - 1].0);
        assert(after.drop_last() =~= front.update(i, (front[i].0, value)));
        assert(distinct_keys(front)) by {
            assert forall|a: int, b: int|
                #![trigger front[a], front[b]]
                0 <= a < b < front.len() implies front[a].0 != front[b].0 by {
                assert(writes[a].0 != writes[b].0);
            }
        }
        lemma_written_update(front, i, value);
        assert(written(after) =~= written(writes).insert(key, value));
    }
}

/// Where no key is written twice, taking one write out takes one binding out.
pub proof fn lemma_written_remove<K, V>(writes: Seq<(K, V)>, i: int)
    requires
        0 <= i < writes.len(),
        distinct_keys(writes),
    ensures
        written(writes.remove(i)) == written(writes).remove(writes[i].0),
        distinct_keys(writes.remove(i)),
    decreases writes.len(),
{
    let key = writes[i].0;
    let after = writes.remove(i);
    let front = writes.drop_last();
    assert(distinct_keys(after)) by {
        assert forall|a: int, b: int|
            #![trigger after[a], after[b]]
            0 <= a < b < after.len() implies after[a].0 != after[b].0 by {
            let a0 = if a < i { a } else { a + 1 };
            let b0 = if b < i { b } else { b + 1 };
            assert(writes[a0].0 != writes[b0].0);
        }
    }
    assert(distinct_keys(front)) by {
        assert forall|a: int, b: int|
            #![trigger front[a], front[b]]
            0 <= a < b < front.len() implies front[a].0 != front[b].0 by {
            assert(writes[a].0 != writes[b].0);
        }
    }
    if i == writes.len() - 1 {
        assert(after =~= front);
        lemma_written_keys(front, key);
        if written(front).contains_key(key) {
            let j = choose|j: int| 0 <= j < front.len() && (#[trigger] front[j]).0 == key;
            assert(writes[j].0 != writes[i].0);
        }
        assert(written(after) =~= written(writes).remove(key));
    } else {
        assert(writes[i].0 != writes[writes.len() - 1].0);
        assert(after.drop_last() =~= front.remove(i));
        assert(after.last() == writes.last());
        lemma_written_remove(front, i);
        assert(written(after) =~= written(writes).remove(key));
    }
}

} // verus!
