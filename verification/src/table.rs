//! The hash table: an array of chains that grows with its load.

use crate::chain::{chain_of, find, store, unlink, Entry, HashMapNode};
use crate::growth::{
    grown_after_move, grows_on_put, lemma_rehousing_ends, lemma_rehousing_starts,
    lemma_rehousing_step, rehousing, rest_after_move,
};
use crate::hashing::{bucket_index, bucket_index_of, metro_hash64, metro_hash64_of, should_grow};
use crate::model::{
    chains_of, lemma_map_of_empty, lemma_table_put, lemma_table_take, table_map, table_put,
    table_take, table_wf,
};
use vstd::prelude::*;

verus! {

/// Why a lookup or a removal yields no value.
#[derive(Debug, Clone, Copy, PartialEq, Eq)]
pub enum HashMapError {
    /// The table holds no pair for the key.
    NotFound,
}

/// What a lookup of a key yields in a table with the given pairs.
pub open spec fn lookup(pairs: Map<Seq<u8>, Seq<u8>>, key: Seq<u8>) -> Result<
    Seq<u8>,
    HashMapError,
> {
    if pairs.contains_key(key) {
        Ok(pairs[key])
    } else {
        Err(HashMapError::NotFound)
    }
}

/// The number of buckets of a new table.
pub const INITIAL_BUCKETS: usize = 10;

/// A hash table from byte strings to byte strings.
pub struct PhyHashMap {
    bucket_array: Vec<Option<Box<HashMapNode>>>,
    num_buckets: usize,
    array_size: usize,
}

impl View for PhyHashMap {
    type V = Map<Seq<u8>, Seq<u8>>;

    open spec fn view(&self) -> Map<Seq<u8>, Seq<u8>> {
        table_map(self.chains())
    }
}

/// An array of `count` empty buckets.
fn empty_buckets(count: usize) -> (buckets: Vec<Option<Box<HashMapNode>>>)
    ensures
        buckets.len() == count,
        forall|b: int| 0 <= b < count ==> (#[trigger] buckets[b]) is None,
{
    let mut buckets: Vec<Option<Box<HashMapNode>>> = Vec::new();
    while buckets.len() < count
        invariant
            buckets.len() <= count,
            forall|b: int| 0 <= b < buckets.len() ==> (#[trigger] buckets[b]) is None,
        decreases count - buckets.len(),
    {
        buckets.push(None);
    }
    buckets
}

/// Copies a byte string.
fn copy_bytes(bytes: &Vec<u8>) -> (copy: Vec<u8>)
    ensures
        copy@ == bytes@,
{
    let mut copy: Vec<u8> = Vec::new();
    let mut at: usize = 0;
    while at < bytes.len()
        invariant
            at <= bytes.len(),
            copy@ == bytes@.subrange(0, at as int),
        decreases bytes.len() - at,
    {
        copy.push(bytes[at]);
        at += 1;
        assert(copy@ =~= bytes@.subrange(0, at as int));
    }
    assert(bytes@.subrange(0, at as int) =~= bytes@);
    copy
}

impl PhyHashMap {
    /// The chains of the buckets, in the order of the bucket array.
    pub closed spec fn chains(&self) -> Seq<Seq<Entry>> {
        chains_of(self.bucket_array@)
    }

    /// The stored count of pairs.
    pub closed spec fn size(&self) -> nat {
        self.array_size as nat
    }

    /// The stored bucket count is the length of the bucket array.
    pub closed spec fn buckets_counted(&self) -> bool {
        self.num_buckets == self.bucket_array@.len()
    }

    /// The number of buckets.
    pub open spec fn bucket_count(&self) -> nat {
        self.chains().len()
    }

    /// The table's invariants hold.
    pub open spec fn wf(&self) -> bool {
        self.buckets_counted() && table_wf(self.chains(), self.size())
    }

    /// An empty table of ten buckets.
    pub fn new() -> (table: Self)
        ensures
            table.wf(),
            table@ == Map::<Seq<u8>, Seq<u8>>::empty(),
            table.bucket_count() == INITIAL_BUCKETS,
    {
        let bucket_array = empty_buckets(INITIAL_BUCKETS);
        let table = Self { bucket_array, num_buckets: INITIAL_BUCKETS, array_size: 0 };
        proof {
            lemma_map_of_empty(table.chains());
        }
        table
    }

    /// The number of stored pairs.
    pub fn len(&self) -> (count: usize)
        requires
            self.wf(),
        ensures
            count == self@.len(),
    {
        self.array_size
    }

    /// The number of buckets.
    pub fn num_buckets(&self) -> (count: usize)
        requires
            self.wf(),
        ensures
            count == self.bucket_count(),
    {
        self.num_buckets
    }

    /// The hash code of a key.
    pub fn hash_key(&self, key: &[u8]) -> (hash_code: u64)
        ensures
            hash_code == metro_hash64_of(key@),
    {
        metro_hash64(key)
    }

    /// The bucket in which a key lives.
    pub fn get_bucket_index(&self, key: &[u8]) -> (index: usize)
        requires
            self.wf(),
        ensures
            index == bucket_index_of(metro_hash64_of(key@), self.bucket_count()),
            index < self.bucket_count(),
    {
        let hash_code = self.hash_key(key);
        bucket_index(hash_code, self.num_buckets)
    }

    /// Looks a key up and hands out a copy of its value.
    pub fn get(&self, key: &[u8]) -> (found: Result<Vec<u8>, HashMapError>)
        requires
            self.wf(),
        ensures
            match found {
                Ok(value) => lookup(self@, key@) == Ok::<Seq<u8>, HashMapError>(value@),
                Err(error) => lookup(self@, key@) == Err::<Seq<u8>, HashMapError>(error),
            },
    {
        let hash_code = self.hash_key(key);
        let index = bucket_index(hash_code, self.num_buckets);
        match find(&self.bucket_array[index], key, hash_code) {
            Some(value) => Ok(copy_bytes(value)),
            None => Err(HashMapError::NotFound),
        }
    }

    /// Stores a value under a key. A key that is present keeps its entry and
    /// takes the new value. A new key gets an entry at the head of its
    /// bucket's chain; when that brings the load factor to seven tenths, the
    /// bucket count doubles and every entry moves to the bucket that its hash
    /// code selects then.
    pub fn insert(&mut self, key: Vec<u8>, value: Vec<u8>)
        requires
            old(self).wf(),
            old(self)@.len() < usize::MAX,
        ensures
            final(self).wf(),
            final(self)@ == old(self)@.insert(key@, value@),
            final(self).bucket_count() == if grows_on_put(
                old(self)@.contains_key(key@),
                old(self)@.len(),
                old(self).bucket_count(),
                usize::MAX as nat,
            ) {
                2 * old(self).bucket_count()
            } else {
                old(self).bucket_count()
            },
            final(self).bucket_count() == old(self).bucket_count() ==> final(self).chains()
                == table_put(old(self).chains(), key@, value@),
    {
        let hash_code = self.hash_key(key.as_slice());
        let index = bucket_index(hash_code, self.num_buckets);
        proof {
            lemma_table_put(self.chains(), self.size(), key@, value@);
        }
        let added = store(&mut self.bucket_array[index], key, value, hash_code);
        assert(self.chains() =~= table_put(old(self).chains(), key@, value@));
        if added {
            self.array_size += 1;
            if should_grow(self.array_size, self.num_buckets) && self.num_buckets <= usize::MAX / 2 {
                self.grow();
            }
        }
    }

    /// Removes a key and hands out its value. The other entries of its chain
    /// keep their order.
    pub fn remove(&mut self, key: &[u8]) -> (removed: Result<Vec<u8>, HashMapError>)
        requires
            old(self).wf(),
        ensures
            final(self).wf(),
            final(self)@ == old(self)@.remove(key@),
            final(self).bucket_count() == old(self).bucket_count(),
            final(self).chains() == table_take(old(self).chains(), key@),
            match removed {
                Ok(value) => lookup(old(self)@, key@) == Ok::<Seq<u8>, HashMapError>(value@),
                Err(error) => lookup(old(self)@, key@) == Err::<Seq<u8>, HashMapError>(error),
            },
    {
        let hash_code = self.hash_key(key);
        let index = bucket_index(hash_code, self.num_buckets);
        proof {
            lemma_table_take(self.chains(), self.size(), key@);
        }
        let removed = unlink(&mut self.bucket_array[index], key, hash_code);
        assert(self.chains() =~= table_take(old(self).chains(), key@));
        match removed {
            Some(value) => {
                self.array_size -= 1;
                Ok(value)
            },
            None => Err(HashMapError::NotFound),
        }
    }

    /// Doubles the bucket count and moves every entry to the bucket that its
    /// hash code selects among the new count.
    fn grow(&mut self)
        requires
            old(self).wf(),
            2 * old(self).bucket_count() <= usize::MAX,
        ensures
            final(self).wf(),
            final(self)@ == old(self)@,
            final(self).bucket_count() == 2 * old(self).bucket_count(),
    {
        let count = self.num_buckets;
        let new_count = count * 2;
        let mut grown = empty_buckets(new_count);
        let mut rest: Vec<Option<Box<HashMapNode>>> = Vec::new();
        std::mem::swap(&mut rest, &mut self.bucket_array);
        let ghost pairs = old(self)@;
        let ghost size = old(self).size();
        proof {
            lemma_rehousing_starts(chains_of(rest@), size, chains_of(grown@));
        }
        let mut from: usize = 0;
        while from < count
            invariant
                from <= count,
                count == rest.len(),
                new_count == grown.len(),
                new_count > 0,
                rehousing(pairs, size, chains_of(rest@), chains_of(grown@)),
                forall|b: int| 0 <= b < from ==> (#[trigger] chains_of(rest@)[b]).len() == 0,
            decreases count - from,
        {
            let ghost rest_entry = chains_of(rest@);
            let mut cursor = rest[from].take();
            assert(chains_of(rest@).update(from as int, chain_of(cursor)) =~= rest_entry);
            assert(chains_of(rest@) =~= rest_entry.update(from as int, Seq::empty()));
            while cursor.is_some()
                invariant
                    from < count,
                    count == rest.len(),
                    new_count == grown.len(),
                    new_count > 0,
                    rest@[from as int] is None,
                    rehousing(
                        pairs,
                        size,
                        chains_of(rest@).update(from as int, chain_of(cursor)),
                        chains_of(grown@),
                    ),
                    forall|b: int| 0 <= b < from ==> (#[trigger] chains_of(rest@)[b]).len() == 0,
                decreases chain_of(cursor).len(),
            {
                let ghost rest_before = chains_of(rest@).update(from as int, chain_of(cursor));
                let ghost grown_before = chains_of(grown@);
                let mut node = cursor.unwrap();
                let ghost moved = node.entry();
                let ghost tail = chain_of(node.next);
                proof {
                    assert(rest_before[from as int][0] == moved);
                    assert(rest_before[from as int].drop_first() =~= tail);
                    lemma_rehousing_step(pairs, size, rest_before, grown_before, from as int);
                }
                cursor = node.next.take();
                let to = bucket_index(node.hash_code, new_count);
                node.next = grown[to].take();
                grown[to] = Some(node);
                assert(chains_of(rest@).update(from as int, chain_of(cursor)) =~= rest_after_move(
                    rest_before,
                    from as int,
                ));
                assert(chains_of(grown@) =~= grown_after_move(grown_before, moved));
            }
            assert(chains_of(rest@).update(from as int, chain_of(cursor)) =~= chains_of(rest@));
            from += 1;
        }
        proof {
            lemma_rehousing_ends(pairs, size, chains_of(rest@), chains_of(grown@));
        }
        self.bucket_array = grown;
        self.num_buckets = new_count;
    }
}

} // verus!
