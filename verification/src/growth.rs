//! Growth: the entries of a table move, one by one, into a larger array.

use crate::chain::{
    distinct_entries, entry_matches, first_match, lemma_chain_get_skip,
    lemma_first_match, lemma_first_match_unique, Entry,
};
use crate::hashing::{bucket_index_of, load_reached, metro_hash64_of};
use crate::model::{
    chain_placed, entry_count, home_bucket, lemma_bucket_in_range, lemma_count_after_update,
    lemma_count_of_empty, table_get, table_map, table_wf,
};
use vstd::prelude::*;

verus! {

/// Whether storing a value grows the table: the key is new, the load factor
/// is reached with the new pair counted, and twice the bucket count still
/// fits the machine's word of `limit`.
pub open spec fn grows_on_put(
    was_present: bool,
    size: nat,
    bucket_count: nat,
    limit: nat,
) -> bool {
    !was_present && load_reached(size + 1, bucket_count) && 2 * bucket_count <= limit
}

/// What the entries still to be moved and the entries already moved hold
/// for a key together.
pub open spec fn joint_get(rest: Seq<Seq<Entry>>, grown: Seq<Seq<Entry>>, key: Seq<u8>) -> Option<
    Seq<u8>,
> {
    match table_get(rest, key) {
        Some(value) => Some(value),
        None => table_get(grown, key),
    }
}

/// Both arrays place their entries by their own bucket counts and hold no
/// entry twice.
pub open spec fn both_placed(rest: Seq<Seq<Entry>>, grown: Seq<Seq<Entry>>) -> bool {
    &&& rest.len() > 0
    &&& grown.len() > 0
    &&& forall|b: int| 0 <= b < rest.len() ==> chain_placed(#[trigger] rest[b], b, rest.len())
    &&& forall|b: int| 0 <= b < rest.len() ==> distinct_entries(#[trigger] rest[b])
    &&& forall|b: int| 0 <= b < grown.len() ==> chain_placed(#[trigger] grown[b], b, grown.len())
    &&& forall|b: int| 0 <= b < grown.len() ==> distinct_entries(#[trigger] grown[b])
}

/// The state in the middle of a move from `rest` to `grown`: no key is in
/// both, the two together hold the pairs of `pairs`, and `size` entries in
/// all.
pub open spec fn rehousing(
    pairs: Map<Seq<u8>, Seq<u8>>,
    size: nat,
    rest: Seq<Seq<Entry>>,
    grown: Seq<Seq<Entry>>,
) -> bool {
    &&& both_placed(rest, grown)
    &&& forall|key: Seq<u8>| #[trigger]
        table_get(rest, key) is Some ==> table_get(grown, key) is None
    &&& forall|key: Seq<u8>| #[trigger]
        joint_get(rest, grown, key) == (if pairs.contains_key(key) {
            Some(pairs[key])
        } else {
            None
        })
    &&& entry_count(rest) + entry_count(grown) == size
    &&& pairs.dom().finite()
    &&& pairs.dom().len() == size
}

/// The old array once the head of `rest[from]` has left its chain.
pub open spec fn rest_after_move(rest: Seq<Seq<Entry>>, from: int) -> Seq<Seq<Entry>> {
    rest.update(from, rest[from].drop_first())
}

/// The new array once `moved` has become the head of the chain that its hash
/// code selects there.
pub open spec fn grown_after_move(grown: Seq<Seq<Entry>>, moved: Entry) -> Seq<Seq<Entry>> {
    let to = bucket_index_of(moved.hash_code, grown.len()) as int;
    grown.update(to, seq![moved] + grown[to])
}

/// A move starts from a well-formed table and an array of empty chains.
pub proof fn lemma_rehousing_starts(chains: Seq<Seq<Entry>>, size: nat, grown: Seq<Seq<Entry>>)
    requires
        table_wf(chains, size),
        grown.len() > 0,
        forall|b: int| 0 <= b < grown.len() ==> (#[trigger] grown[b]).len() == 0,
    ensures
        rehousing(table_map(chains), size, chains, grown),
{
    assert forall|key: Seq<u8>| table_get(grown, key) is None by {
        lemma_bucket_in_range(metro_hash64_of(key), grown.len());
        lemma_first_match(grown[home_bucket(grown, key)], key, metro_hash64_of(key));
    }
    assert forall|key: Seq<u8>| #[trigger]
        joint_get(chains, grown, key) == (if table_map(chains).contains_key(key) {
            Some(table_map(chains)[key])
        } else {
            None
        }) by {
        assert(table_get(grown, key) is None);
    }
    lemma_count_of_empty(grown);
}

/// Moving one entry keeps the state of the move.
pub proof fn lemma_rehousing_step(
    pairs: Map<Seq<u8>, Seq<u8>>,
    size: nat,
    rest: Seq<Seq<Entry>>,
    grown: Seq<Seq<Entry>>,
    from: int,
)
    requires
        rehousing(pairs, size, rest, grown),
        0 <= from < rest.len(),
        rest[from].len() > 0,
    ensures
        rehousing(
            pairs,
            size,
            rest_after_move(rest, from),
            grown_after_move(grown, rest[from][0]),
        ),
{
    let moved = rest[from][0];
    let code = moved.hash_code;
    let to = bucket_index_of(code, grown.len()) as int;
    let tail = rest[from].drop_first();
    let rest2 = rest_after_move(rest, from);
    let grown2 = grown_after_move(grown, moved);
    lemma_bucket_in_range(code, grown.len());
    assert(chain_placed(rest[from], from, rest.len()));
    assert(distinct_entries(rest[from]));
    assert(chain_placed(grown[to], to, grown.len()));
    assert(distinct_entries(grown[to]));
    assert(code == metro_hash64_of(moved.key));
    assert(home_bucket(rest, moved.key) == from);
    assert(home_bucket(grown, moved.key) == to);

    // The moved key was at the head of its old chain, and nowhere in the new array.
    lemma_first_match_unique(rest[from], moved.key, code, 0);
    assert(table_get(rest, moved.key) == Some(moved.value));
    assert(table_get(grown, moved.key) is None);
    lemma_first_match(grown[to], moved.key, code);
    assert(first_match(grown[to], moved.key, code) == grown[to].len());

    // It is no longer in the old chain.
    assert forall|i: int| 0 <= i < tail.len() implies !entry_matches(
        #[trigger] tail[i],
        moved.key,
        code,
    ) by {
        assert(tail[i] == rest[from][i + 1]);
        assert(!entry_matches(rest[from][0], rest[from][i + 1].key, rest[from][i + 1].hash_code));
    }
    lemma_first_match_unique(tail, moved.key, code, tail.len() as int);
    lemma_first_match_unique(grown2[to], moved.key, code, 0);

    assert forall|key: Seq<u8>|
        {
            &&& #[trigger] table_get(rest2, key) == (if key == moved.key {
                None
            } else {
                table_get(rest, key)
            })
            &&& #[trigger] table_get(grown2, key) == (if key == moved.key {
                Some(moved.value)
            } else {
                table_get(grown, key)
            })
        } by {
        let key_code = metro_hash64_of(key);
        lemma_bucket_in_range(key_code, rest.len());
        lemma_bucket_in_range(key_code, grown.len());
        if key != moved.key {
            if home_bucket(rest, key) == from {
                lemma_chain_get_skip(rest[from], key, key_code);
            }
            if home_bucket(grown, key) == to {
                lemma_chain_get_skip(grown2[to], key, key_code);
                assert(grown2[to].drop_first() =~= grown[to]);
            }
        }
    }
    assert forall|key: Seq<u8>| #[trigger]
        table_get(rest2, key) is Some implies table_get(grown2, key) is None by {
        assert(table_get(rest, key) is Some ==> table_get(grown, key) is None);
    }
    assert forall|key: Seq<u8>| #[trigger]
        joint_get(rest2, grown2, key) == (if pairs.contains_key(key) {
            Some(pairs[key])
        } else {
            None
        }) by {
        assert(joint_get(rest, grown, key) == (if pairs.contains_key(key) {
            Some(pairs[key])
        } else {
            None
        }));
    }

    assert forall|b: int| 0 <= b < rest2.len() implies chain_placed(
        #[trigger] rest2[b],
        b,
        rest2.len(),
    ) by {
        assert(chain_placed(rest[b], b, rest.len()));
        if b == from {
            assert forall|i: int| 0 <= i < tail.len() implies {
                &&& (#[trigger] tail[i]).hash_code == metro_hash64_of(tail[i].key)
                &&& bucket_index_of(tail[i].hash_code, rest.len()) == b
            } by {
                assert(tail[i] == rest[from][i + 1]);
            }
        }
    }
    assert forall|b: int| 0 <= b < rest2.len() implies distinct_entries(#[trigger] rest2[b]) by {
        assert(distinct_entries(rest[b]));
        if b == from {
            assert forall|i: int, j: int| 0 <= i < j < tail.len() implies !entry_matches(
                #[trigger] tail[i],
                (#[trigger] tail[j]).key,
                tail[j].hash_code,
            ) by {
                assert(tail[i] == rest[from][i + 1]);
                assert(tail[j] == rest[from][j + 1]);
                assert(!entry_matches(
                    rest[from][i + 1],
                    rest[from][j + 1].key,
                    rest[from][j + 1].hash_code,
                ));
            }
        }
    }
    assert forall|b: int| 0 <= b < grown2.len() implies chain_placed(
        #[trigger] grown2[b],
        b,
        grown2.len(),
    ) by {
        assert(chain_placed(grown[b], b, grown.len()));
        if b == to {
            assert forall|i: int| 0 <= i < grown2[b].len() implies {
                &&& (#[trigger] grown2[b][i]).hash_code == metro_hash64_of(grown2[b][i].key)
                &&& bucket_index_of(grown2[b][i].hash_code, grown.len()) == b
            } by {
                if i > 0 {
                    assert(grown2[b][i] == grown[to][i - 1]);
                }
            }
        }
    }
    assert forall|b: int| 0 <= b < grown2.len() implies distinct_entries(#[trigger] grown2[b]) by {
        assert(distinct_entries(grown[b]));
        if b == to {
            let chain = grown2[to];
            assert forall|i: int, j: int| 0 <= i < j < chain.len() implies !entry_matches(
                #[trigger] chain[i],
                (#[trigger] chain[j]).key,
                chain[j].hash_code,
            ) by {
                assert(chain[j] == grown[to][j - 1]);
                if i == 0 {
                    assert(!entry_matches(grown[to][j - 1], moved.key, code));
                } else {
                    assert(chain[i] == grown[to][i - 1]);
                    assert(!entry_matches(
                        grown[to][i - 1],
                        grown[to][j - 1].key,
                        grown[to][j - 1].hash_code,
                    ));
                }
            }
        }
    }
    lemma_count_after_update(rest, from, tail);
    lemma_count_after_update(grown, to, grown2[to]);
}

/// When nothing is left to move, the new array is a well-formed table with
/// the same pairs.
pub proof fn lemma_rehousing_ends(
    pairs: Map<Seq<u8>, Seq<u8>>,
    size: nat,
    rest: Seq<Seq<Entry>>,
    grown: Seq<Seq<Entry>>,
)
    requires
        rehousing(pairs, size, rest, grown),
        forall|b: int| 0 <= b < rest.len() ==> (#[trigger] rest[b]).len() == 0,
    ensures
        table_map(grown) == pairs,
        table_wf(grown, size),
{
    lemma_count_of_empty(rest);
    assert forall|key: Seq<u8>| #[trigger]
        table_get(grown, key) == (if pairs.contains_key(key) {
            Some(pairs[key])
        } else {
            None
        }) by {
        lemma_bucket_in_range(metro_hash64_of(key), rest.len());
        lemma_first_match(rest[home_bucket(rest, key)], key, metro_hash64_of(key));
        assert(table_get(rest, key) is None);
        assert(joint_get(rest, grown, key) == table_get(grown, key));
    }
    assert(table_map(grown) =~= pairs);
}

} // verus!
