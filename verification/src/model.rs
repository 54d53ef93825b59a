//! The table as a sequence of chains, and what its operations do to it.

use crate::chain::{
    chain_get, chain_of, chain_put, chain_take, distinct_entries, first_match, lemma_first_match,
    lemma_get_after_put, lemma_get_after_put_other, lemma_get_after_take,
    lemma_get_after_take_other, lemma_put_keeps_distinct, lemma_take_keeps_distinct, Entry,
    HashMapNode,
};
use crate::hashing::{bucket_index_of, hash_magnitude, metro_hash64_of};
use vstd::prelude::*;

verus! {

/// Every entry of the chain carries the hash code of its key, and that code
/// selects `bucket` among `bucket_count` buckets.
pub open spec fn chain_placed(chain: Seq<Entry>, bucket: int, bucket_count: nat) -> bool {
    forall|i: int|
        0 <= i < chain.len() ==> {
            &&& (#[trigger] chain[i]).hash_code == metro_hash64_of(chain[i].key)
            &&& bucket_index_of(chain[i].hash_code, bucket_count) == bucket
        }
}

/// The chains that an array of bucket slots holds.
pub open spec fn chains_of(buckets: Seq<Option<Box<HashMapNode>>>) -> Seq<Seq<Entry>> {
    Seq::new(buckets.len(), |b: int| chain_of(buckets[b]))
}

/// The number of entries in all chains together.
pub open spec fn entry_count(chains: Seq<Seq<Entry>>) -> nat
    decreases chains.len(),
{
    if chains.len() == 0 {
        0
    } else {
        entry_count(chains.drop_last()) + chains.last().len()
    }
}

/// The bucket in which a key lives.
pub open spec fn home_bucket(chains: Seq<Seq<Entry>>, key: Seq<u8>) -> int {
    bucket_index_of(metro_hash64_of(key), chains.len()) as int
}

/// The value that the table holds for a key: what a lookup in the key's
/// bucket yields.
pub open spec fn table_get(chains: Seq<Seq<Entry>>, key: Seq<u8>) -> Option<Seq<u8>> {
    chain_get(chains[home_bucket(chains, key)], key, metro_hash64_of(key))
}

/// The table as a map from keys to values.
pub open spec fn table_map(chains: Seq<Seq<Entry>>) -> Map<Seq<u8>, Seq<u8>> {
    Map::new(
        |key: Seq<u8>| table_get(chains, key) is Some,
        |key: Seq<u8>| table_get(chains, key).unwrap(),
    )
}

/// The invariants of a table of `size` pairs: there is a bucket; every entry
/// sits in the bucket that the hash code of its key selects; no chain holds
/// an entry twice; and `size` counts the entries, which are as many as the
/// keys of the map.
pub open spec fn table_wf(chains: Seq<Seq<Entry>>, size: nat) -> bool {
    &&& chains.len() > 0
    &&& forall|b: int|
        0 <= b < chains.len() ==> chain_placed(#[trigger] chains[b], b, chains.len())
    &&& forall|b: int| 0 <= b < chains.len() ==> distinct_entries(#[trigger] chains[b])
    &&& size == entry_count(chains)
    &&& table_map(chains).dom().finite()
    &&& size == table_map(chains).dom().len()
}

/// The chains once a value is stored under a key.
pub open spec fn table_put(chains: Seq<Seq<Entry>>, key: Seq<u8>, value: Seq<u8>) -> Seq<
    Seq<Entry>,
> {
    let home = home_bucket(chains, key);
    chains.update(home, chain_put(chains[home], key, value, metro_hash64_of(key)))
}

/// The chains once a key is removed.
pub open spec fn table_take(chains: Seq<Seq<Entry>>, key: Seq<u8>) -> Seq<Seq<Entry>> {
    let home = home_bucket(chains, key);
    chains.update(home, chain_take(chains[home], key, metro_hash64_of(key)))
}

/// A hash code selects one of the buckets.
pub proof fn lemma_bucket_in_range(hash_code: u64, bucket_count: nat)
    requires
        bucket_count > 0,
    ensures
        0 <= bucket_index_of(hash_code, bucket_count) < bucket_count,
{
    let magnitude = hash_magnitude(hash_code) as int;
    assert(0 <= magnitude % (bucket_count as int) < bucket_count) by (nonlinear_arith)
        requires
            bucket_count > 0,
            magnitude >= 0,
    ;
}

/// Replacing one chain changes the count by the difference of the lengths.
pub proof fn lemma_count_after_update(chains: Seq<Seq<Entry>>, bucket: int, chain: Seq<Entry>)
    requires
        0 <= bucket < chains.len(),
    ensures
        entry_count(chains.update(bucket, chain)) + chains[bucket].len() == entry_count(chains)
            + chain.len(),
    decreases chains.len(),
{
    let after = chains.update(bucket, chain);
    if bucket == chains.len() - 1 {
        assert(after.drop_last() =~= chains.drop_last());
    } else {
        lemma_count_after_update(chains.drop_last(), bucket, chain);
        assert(after.drop_last() =~= chains.drop_last().update(bucket, chain));
    }
}

/// Chains that are all empty hold no entry.
pub proof fn lemma_count_of_empty(chains: Seq<Seq<Entry>>)
    requires
        forall|b: int| 0 <= b < chains.len() ==> (#[trigger] chains[b]).len() == 0,
    ensures
        entry_count(chains) == 0,
    decreases chains.len(),
{
    if chains.len() > 0 {
        lemma_count_of_empty(chains.drop_last());
    }
}

/// Chains that are all empty are an empty map.
pub proof fn lemma_map_of_empty(chains: Seq<Seq<Entry>>)
    requires
        chains.len() > 0,
        forall|b: int| 0 <= b < chains.len() ==> (#[trigger] chains[b]).len() == 0,
    ensures
        table_map(chains) == Map::<Seq<u8>, Seq<u8>>::empty(),
        table_wf(chains, 0),
{
    assert forall|key: Seq<u8>| table_get(chains, key) is None by {
        lemma_bucket_in_range(metro_hash64_of(key), chains.len());
        lemma_first_match(chains[home_bucket(chains, key)], key, metro_hash64_of(key));
    }
    assert(table_map(chains) =~= Map::<Seq<u8>, Seq<u8>>::empty());
    lemma_count_of_empty(chains);
}

/// Storing a value under a key keeps the invariants and inserts the pair
/// into the map; the size grows by one exactly when the key is new.
pub proof fn lemma_table_put(chains: Seq<Seq<Entry>>, size: nat, key: Seq<u8>, value: Seq<u8>)
    requires
        table_wf(chains, size),
    ensures
        table_map(table_put(chains, key, value)) == table_map(chains).insert(key, value),
        table_wf(
            table_put(chains, key, value),
            if table_get(chains, key) is None {
                size + 1
            } else {
                size
            },
        ),
{
    let code = metro_hash64_of(key);
    let home = home_bucket(chains, key);
    let after = table_put(chains, key, value);
    lemma_bucket_in_range(code, chains.len());
    lemma_first_match(chains[home], key, code);
    assert forall|other: Seq<u8>| #[trigger]
        table_get(after, other) == (if other == key {
            Some(value)
        } else {
            table_get(chains, other)
        }) by {
        lemma_bucket_in_range(metro_hash64_of(other), chains.len());
        if other == key {
            lemma_get_after_put(chains[home], key, value, code);
        } else if home_bucket(chains, other) == home {
            lemma_get_after_put_other(chains[home], key, value, code, other, metro_hash64_of(other));
        }
    }
    assert(table_map(after) =~= table_map(chains).insert(key, value));
    assert forall|b: int| 0 <= b < after.len() implies chain_placed(
        #[trigger] after[b],
        b,
        after.len(),
    ) by {
        assert(chain_placed(chains[b], b, chains.len()));
        if b == home {
            let at = first_match(chains[home], key, code);
            assert forall|i: int| 0 <= i < after[b].len() implies {
                &&& (#[trigger] after[b][i]).hash_code == metro_hash64_of(after[b][i].key)
                &&& bucket_index_of(after[b][i].hash_code, after.len()) == b
            } by {
                if at < chains[home].len() {
                    assert(chains[home][i].hash_code == metro_hash64_of(chains[home][i].key));
                } else if i > 0 {
                    assert(after[b][i] == chains[home][i - 1]);
                }
            }
        }
    }
    assert forall|b: int| 0 <= b < after.len() implies distinct_entries(#[trigger] after[b]) by {
        assert(distinct_entries(chains[b]));
        if b == home {
            lemma_put_keeps_distinct(chains[home], key, value, code);
        }
    }
    lemma_count_after_update(chains, home, after[home]);
    assert(table_map(after).dom() =~= table_map(chains).dom().insert(key));
}

/// Removing a key keeps the invariants and removes the key from the map;
/// the size shrinks by one exactly when the key was present.
pub proof fn lemma_table_take(chains: Seq<Seq<Entry>>, size: nat, key: Seq<u8>)
    requires
        table_wf(chains, size),
    ensures
        table_map(table_take(chains, key)) == table_map(chains).remove(key),
        table_get(chains, key) is Some ==> size > 0,
        table_wf(
            table_take(chains, key),
            if table_get(chains, key) is Some {
                (size - 1) as nat
            } else {
                size
            },
        ),
{
    let code = metro_hash64_of(key);
    let home = home_bucket(chains, key);
    let after = table_take(chains, key);
    lemma_bucket_in_range(code, chains.len());
    lemma_first_match(chains[home], key, code);
    assert(distinct_entries(chains[home]));
    assert forall|other: Seq<u8>| #[trigger]
        table_get(after, other) == (if other == key {
            None
        } else {
            table_get(chains, other)
        }) by {
        lemma_bucket_in_range(metro_hash64_of(other), chains.len());
        if other == key {
            lemma_get_after_take(chains[home], key, code);
        } else if home_bucket(chains, other) == home {
            lemma_get_after_take_other(chains[home], key, code, other, metro_hash64_of(other));
        }
    }
    assert(table_map(after) =~= table_map(chains).remove(key));
    assert forall|b: int| 0 <= b < after.len() implies chain_placed(
        #[trigger] after[b],
        b,
        after.len(),
    ) by {
        assert(chain_placed(chains[b], b, chains.len()));
        if b == home {
            let at = first_match(chains[home], key, code);
            assert forall|i: int| 0 <= i < after[b].len() implies {
                &&& (#[trigger] after[b][i]).hash_code == metro_hash64_of(after[b][i].key)
                &&& bucket_index_of(after[b][i].hash_code, after.len()) == b
            } by {
                if at < chains[home].len() {
                    if i < at {
                        assert(after[b][i] == chains[home][i]);
                    } else {
                        assert(after[b][i] == chains[home][i + 1]);
                    }
                }
            }
        }
    }
    assert forall|b: int| 0 <= b < after.len() implies distinct_entries(#[trigger] after[b]) by {
        assert(distinct_entries(chains[b]));
        if b == home {
            lemma_take_keeps_distinct(chains[home], key, code);
        }
    }
    lemma_count_after_update(chains, home, after[home]);
    assert(table_map(after).dom() =~= table_map(chains).dom().remove(key));
    if table_get(chains, key) is Some {
        assert(table_map(chains).dom().contains(key));
    }
}

} // verus!
