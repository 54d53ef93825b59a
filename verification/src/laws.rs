//! What holds of every table, whatever it stores.

use crate::chain::{
    chain_get, chain_put, chain_take, distinct_entries, entry_matches, first_match,
    lemma_first_match, lemma_get_after_put, lemma_get_after_put_other, lemma_get_after_take,
    lemma_get_after_take_other, lemma_put_keeps_distinct, Entry,
};
use crate::model::chain_placed;
use crate::table::{lookup, HashMapError, PhyHashMap};
use vstd::prelude::*;

verus! {

/// The pairs of a table once the given pairs are stored in it, in order.
pub open spec fn stored_all(
    pairs: Map<Seq<u8>, Seq<u8>>,
    puts: Seq<(Seq<u8>, Seq<u8>)>,
) -> Map<Seq<u8>, Seq<u8>>
    decreases puts.len(),
{
    if puts.len() == 0 {
        pairs
    } else {
        stored_all(pairs, puts.drop_last()).insert(puts.last().0, puts.last().1)
    }
}

/// A key that was never stored is not found: whatever pairs went into a new
/// table, a lookup of any other key misses.
pub proof fn law_unstored_key_is_not_found(puts: Seq<(Seq<u8>, Seq<u8>)>, key: Seq<u8>)
    requires
        forall|i: int| 0 <= i < puts.len() ==> (#[trigger] puts[i]).0 != key,
    ensures
        lookup(stored_all(Map::empty(), puts), key) == Err::<Seq<u8>, HashMapError>(
            HashMapError::NotFound,
        ),
    decreases puts.len(),
{
    if puts.len() > 0 {
        let before = puts.drop_last();
        assert forall|i: int| 0 <= i < before.len() implies (#[trigger] before[i]).0 != key by {
            assert(before[i] == puts[i]);
        }
        law_unstored_key_is_not_found(before, key);
        assert(puts.last() == puts[puts.len() - 1]);
    }
}

/// After a value is stored under a key, a lookup of the key yields it.
pub proof fn law_get_after_insert(table: PhyHashMap, key: Seq<u8>, value: Seq<u8>)
    requires
        table.wf(),
    ensures
        lookup(table@.insert(key, value), key) == Ok::<Seq<u8>, HashMapError>(value),
{
}

/// Storing a second value under a key overwrites the first and leaves the
/// size as it was.
pub proof fn law_insert_overwrites(
    table: PhyHashMap,
    key: Seq<u8>,
    first: Seq<u8>,
    second: Seq<u8>,
)
    requires
        table.wf(),
    ensures
        lookup(table@.insert(key, first).insert(key, second), key) == Ok::<
            Seq<u8>,
            HashMapError,
        >(second),
        table@.insert(key, first).insert(key, second).len() == table@.insert(key, first).len(),
{
    assert(table@.insert(key, first).insert(key, second).dom() =~= table@.insert(key, first).dom());
}

/// Removing a key that was stored yields its value; the key is not found
/// afterwards and the size is one less.
pub proof fn law_remove_after_insert(table: PhyHashMap, key: Seq<u8>, value: Seq<u8>)
    requires
        table.wf(),
    ensures
        lookup(table@.insert(key, value), key) == Ok::<Seq<u8>, HashMapError>(value),
        lookup(table@.insert(key, value).remove(key), key) == Err::<Seq<u8>, HashMapError>(
            HashMapError::NotFound,
        ),
        table@.insert(key, value).remove(key).len() == table@.insert(key, value).len() - 1,
{
    assert(table@.insert(key, value).remove(key).dom() =~= table@.insert(key, value).dom().remove(
        key,
    ));
}

/// Removing a key that the table does not hold finds nothing and changes
/// nothing, the size included.
pub proof fn law_remove_of_absent_key(table: PhyHashMap, key: Seq<u8>)
    requires
        table.wf(),
        !table@.contains_key(key),
    ensures
        lookup(table@, key) == Err::<Seq<u8>, HashMapError>(HashMapError::NotFound),
        table@.remove(key) == table@,
        table@.remove(key).len() == table@.len(),
{
    assert(table@.remove(key) =~= table@);
}

/// Storing pairs with distinct keys in a new table gives a table of as many
/// pairs, each found under its key. The map does not change when the table
/// grows on the way, so this holds across every growth.
pub proof fn law_distinct_keys_all_stored(puts: Seq<(Seq<u8>, Seq<u8>)>)
    requires
        forall|i: int, j: int|
            0 <= i < j < puts.len() ==> (#[trigger] puts[i]).0 != (#[trigger] puts[j]).0,
    ensures
        stored_all(Map::empty(), puts).dom().finite(),
        stored_all(Map::empty(), puts).len() == puts.len(),
        forall|i: int|
            0 <= i < puts.len() ==> lookup(stored_all(Map::empty(), puts), (#[trigger] puts[i]).0)
                == Ok::<Seq<u8>, HashMapError>(puts[i].1),
    decreases puts.len(),
{
    if puts.len() > 0 {
        let before = puts.drop_last();
        let last = puts.last();
        assert forall|i: int, j: int| 0 <= i < j < before.len() implies (#[trigger] before[i]).0 != (
        #[trigger] before[j]).0 by {
            assert(before[i] == puts[i]);
            assert(before[j] == puts[j]);
        }
        law_distinct_keys_all_stored(before);
        assert forall|i: int| 0 <= i < before.len() implies (#[trigger] before[i]).0 != last.0 by {
            assert(before[i] == puts[i]);
            assert(last == puts[puts.len() - 1]);
        }
        law_unstored_key_is_not_found(before, last.0);
        let earlier = stored_all(Map::empty(), before);
        assert(!earlier.contains_key(last.0));
        assert(stored_all(Map::empty(), puts).dom() =~= earlier.dom().insert(last.0));
        assert forall|i: int| 0 <= i < puts.len() implies lookup(
            stored_all(Map::empty(), puts),
            (#[trigger] puts[i]).0,
        ) == Ok::<Seq<u8>, HashMapError>(puts[i].1) by {
            if i < before.len() {
                assert(before[i] == puts[i]);
                assert(lookup(earlier, before[i].0) == Ok::<Seq<u8>, HashMapError>(before[i].1));
            }
        }
    }
}

/// Two distinct keys in one chain do not disturb each other: both are found
/// after both are stored, and unlinking the first leaves the second in
/// place.
pub proof fn law_colliding_keys_are_independent(
    chain: Seq<Entry>,
    first_key: Seq<u8>,
    first_value: Seq<u8>,
    first_hash: u64,
    second_key: Seq<u8>,
    second_value: Seq<u8>,
    second_hash: u64,
)
    requires
        distinct_entries(chain),
        first_key != second_key,
    ensures
        ({
            let both = chain_put(
                chain_put(chain, first_key, first_value, first_hash),
                second_key,
                second_value,
                second_hash,
            );
            &&& chain_get(both, first_key, first_hash) == Some(first_value)
            &&& chain_get(both, second_key, second_hash) == Some(second_value)
            &&& chain_get(chain_take(both, first_key, first_hash), first_key, first_hash) is None
            &&& chain_get(chain_take(both, first_key, first_hash), second_key, second_hash) == Some(
                second_value,
            )
        }),
{
    let one = chain_put(chain, first_key, first_value, first_hash);
    let both = chain_put(one, second_key, second_value, second_hash);
    lemma_get_after_put(chain, first_key, first_value, first_hash);
    lemma_get_after_put(one, second_key, second_value, second_hash);
    lemma_get_after_put_other(one, second_key, second_value, second_hash, first_key, first_hash);
    lemma_put_keeps_distinct(chain, first_key, first_value, first_hash);
    lemma_put_keeps_distinct(one, second_key, second_value, second_hash);
    lemma_get_after_take(both, first_key, first_hash);
    lemma_get_after_take_other(both, first_key, first_hash, second_key, second_hash);
}

/// Two distinct keys of a table do not disturb each other, whether or not
/// they share a bucket: both are found after both are stored, and removing
/// the first leaves the second with its value.
pub proof fn law_distinct_keys_are_independent(
    table: PhyHashMap,
    first_key: Seq<u8>,
    first_value: Seq<u8>,
    second_key: Seq<u8>,
    second_value: Seq<u8>,
)
    requires
        table.wf(),
        first_key != second_key,
    ensures
        ({
            let both = table@.insert(first_key, first_value).insert(second_key, second_value);
            &&& lookup(both, first_key) == Ok::<Seq<u8>, HashMapError>(first_value)
            &&& lookup(both, second_key) == Ok::<Seq<u8>, HashMapError>(second_value)
            &&& lookup(both.remove(first_key), first_key) == Err::<Seq<u8>, HashMapError>(
                HashMapError::NotFound,
            )
            &&& lookup(both.remove(first_key), second_key) == Ok::<Seq<u8>, HashMapError>(
                second_value,
            )
            &&& lookup(both.remove(second_key), first_key) == Ok::<Seq<u8>, HashMapError>(
                first_value,
            )
        }),
{
}

/// No key occurs twice in a table, in one chain or in two.
pub proof fn law_keys_are_unique(
    table: PhyHashMap,
    bucket: int,
    at: int,
    other_bucket: int,
    other_at: int,
)
    requires
        table.wf(),
        0 <= bucket < table.bucket_count(),
        0 <= at < table.chains()[bucket].len(),
        0 <= other_bucket < table.bucket_count(),
        0 <= other_at < table.chains()[other_bucket].len(),
        bucket != other_bucket || at != other_at,
    ensures
        table.chains()[bucket][at].key != table.chains()[other_bucket][other_at].key,
{
    let chains = table.chains();
    let one = chains[bucket][at];
    let other = chains[other_bucket][other_at];
    assert(chain_placed(chains[bucket], bucket, chains.len()));
    assert(chain_placed(chains[other_bucket], other_bucket, chains.len()));
    assert(distinct_entries(chains[bucket]));
    if one.key == other.key {
        assert(one.hash_code == other.hash_code);
        assert(bucket == other_bucket);
        if at < other_at {
            assert(!entry_matches(one, other.key, other.hash_code));
        } else {
            assert(!entry_matches(other, one.key, one.hash_code));
        }
    }
}

/// Every entry in a chain of a table is what a lookup of its key yields.
pub proof fn law_every_entry_is_found(table: PhyHashMap, bucket: int, at: int)
    requires
        table.wf(),
        0 <= bucket < table.bucket_count(),
        0 <= at < table.chains()[bucket].len(),
    ensures
        lookup(table@, table.chains()[bucket][at].key) == Ok::<Seq<u8>, HashMapError>(
            table.chains()[bucket][at].value,
        ),
{
    let chain = table.chains()[bucket];
    let entry = chain[at];
    assert(chain_placed(chain, bucket, table.chains().len()));
    assert(distinct_entries(chain));
    lemma_first_match(chain, entry.key, entry.hash_code);
    let found = first_match(chain, entry.key, entry.hash_code);
    if found < at {
        assert(!entry_matches(chain[found], chain[at].key, chain[at].hash_code));
    }
}

} // verus!
