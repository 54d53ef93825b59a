//! Collision chains: singly linked entries that share a bucket.

use vstd::prelude::*;

verus! {

/// What one chain node stores, as plain values.
pub struct Entry {
    pub key: Seq<u8>,
    pub value: Seq<u8>,
    pub hash_code: u64,
}

/// One node of a chain. It owns its key, its value and the rest of the chain.
pub struct HashMapNode {
    pub key: Vec<u8>,
    pub value: Vec<u8>,
    pub hash_code: u64,
    pub next: Option<Box<HashMapNode>>,
}

/// The entries of a chain from its head to its end.
pub open spec fn chain_of(head: Option<Box<HashMapNode>>) -> Seq<Entry>
    decreases head,
{
    match head {
        None => Seq::empty(),
        Some(node) => seq![node.entry()] + chain_of(node.next),
    }
}

/// An entry answers a lookup when both its hash code and its key agree.
pub open spec fn entry_matches(entry: Entry, key: Seq<u8>, hash_code: u64) -> bool {
    entry.hash_code == hash_code && entry.key == key
}

/// The position of the first entry that answers a lookup, or the chain's
/// length when no entry does.
pub open spec fn first_match(chain: Seq<Entry>, key: Seq<u8>, hash_code: u64) -> int
    decreases chain.len(),
{
    if chain.len() == 0 {
        0
    } else if entry_matches(chain[0], key, hash_code) {
        0
    } else {
        1 + first_match(chain.drop_first(), key, hash_code)
    }
}

/// The value that a lookup in a chain yields.
pub open spec fn chain_get(chain: Seq<Entry>, key: Seq<u8>, hash_code: u64) -> Option<Seq<u8>> {
    let at = first_match(chain, key, hash_code);
    if at < chain.len() {
        Some(chain[at].value)
    } else {
        None
    }
}

/// The chain once a value is stored under a key: the first entry that
/// answers the lookup keeps its place and takes the value; without such an
/// entry a new one becomes the head.
pub open spec fn chain_put(chain: Seq<Entry>, key: Seq<u8>, value: Seq<u8>, hash_code: u64) -> Seq<
    Entry,
> {
    let at = first_match(chain, key, hash_code);
    if at < chain.len() {
        chain.update(at, Entry { key: chain[at].key, value, hash_code: chain[at].hash_code })
    } else {
        seq![Entry { key, value, hash_code }] + chain
    }
}

/// The chain once the first entry that answers the lookup is unlinked.
pub open spec fn chain_take(chain: Seq<Entry>, key: Seq<u8>, hash_code: u64) -> Seq<Entry> {
    let at = first_match(chain, key, hash_code);
    if at < chain.len() {
        chain.remove(at)
    } else {
        chain
    }
}

/// No two entries of the chain agree in both key and hash code.
pub open spec fn distinct_entries(chain: Seq<Entry>) -> bool {
    forall|i: int, j: int|
        0 <= i < j < chain.len() ==> !entry_matches(
            #[trigger] chain[i],
            (#[trigger] chain[j]).key,
            chain[j].hash_code,
        )
}

impl HashMapNode {
    /// The entry that this node stores.
    pub open spec fn entry(&self) -> Entry {
        Entry { key: self.key@, value: self.value@, hash_code: self.hash_code }
    }

    /// A node with the given contents and the given rest of the chain.
    pub fn new(key: Vec<u8>, value: Vec<u8>, hash_code: u64, next: Option<Box<Self>>) -> (node: Self)
        ensures
            node.key == key,
            node.value == value,
            node.hash_code == hash_code,
            node.next == next,
    {
        Self { key, value, hash_code, next }
    }

    /// Replaces the key and nothing else.
    pub fn set_key(&mut self, key: Vec<u8>)
        ensures
            final(self).key == key,
            final(self).value == old(self).value,
            final(self).hash_code == old(self).hash_code,
            final(self).next == old(self).next,
    {
        self.key = key;
    }

    /// Replaces the rest of the chain and nothing else.
    pub fn set_next(&mut self, next: Option<Box<Self>>)
        ensures
            final(self).next == next,
            final(self).key == old(self).key,
            final(self).value == old(self).value,
            final(self).hash_code == old(self).hash_code,
    {
        self.next = next;
    }

    /// Replaces the value and nothing else.
    pub fn set_value(&mut self, value: Vec<u8>)
        ensures
            final(self).value == value,
            final(self).key == old(self).key,
            final(self).hash_code == old(self).hash_code,
            final(self).next == old(self).next,
    {
        self.value = value;
    }
}

/// Compares two byte strings.
pub fn bytes_equal(left: &[u8], right: &[u8]) -> (same: bool)
    ensures
        same == (left@ == right@),
{
    if left.len() != right.len() {
        return false;
    }
    let mut at: usize = 0;
    while at < left.len()
        invariant
            left.len() == right.len(),
            at <= left.len(),
            forall|i: int| 0 <= i < at ==> left[i] == right[i],
        decreases left.len() - at,
    {
        if left[at] != right[at] {
            return false;
        }
        at += 1;
    }
    assert(left@ =~= right@);
    true
}

/// Looks a key up in a chain.
pub fn find<'a>(head: &'a Option<Box<HashMapNode>>, key: &[u8], hash_code: u64) -> (found: Option<&'a Vec<u8>>)
    ensures
        found is Some == chain_get(chain_of(*head), key@, hash_code) is Some,
        found is Some ==> found.unwrap()@ == chain_get(chain_of(*head), key@, hash_code).unwrap(),
{
    let mut cursor = head;
    loop
        invariant
            chain_get(chain_of(*head), key@, hash_code) == chain_get(chain_of(*cursor), key@, hash_code),
        decreases chain_of(*cursor).len(),
    {
        match cursor {
            None => {
                return None;
            },
            Some(node) => {
                if node.hash_code == hash_code && bytes_equal(node.key.as_slice(), key) {
                    return Some(&node.value);
                }
                proof {
                    assert(chain_of(*cursor).drop_first() =~= chain_of(node.next));
                    lemma_chain_get_skip(chain_of(*cursor), key@, hash_code);
                }
                cursor = &node.next;
            },
        }
    }
}

/// Replaces the value of the first entry that answers the lookup.
fn overwrite(head: &mut Option<Box<HashMapNode>>, key: &[u8], hash_code: u64, value: Vec<u8>)
    requires
        chain_get(chain_of(*old(head)), key@, hash_code) is Some,
    ensures
        chain_of(*final(head)) == chain_put(chain_of(*old(head)), key@, value@, hash_code),
{
    let ghost mut skipped: Seq<Entry> = Seq::empty();
    let mut cursor = head;
    loop
        invariant
            chain_of(*old(head)) == skipped + chain_of(*cursor),
            chain_of(*final(head)) == skipped + chain_of(*final(cursor)),
            first_match(chain_of(*old(head)), key@, hash_code) == skipped.len() + first_match(chain_of(*cursor), key@, hash_code),
            first_match(chain_of(*cursor), key@, hash_code) < chain_of(*cursor).len(),
        decreases chain_of(*cursor).len(),
    {
        let ghost here = chain_of(*cursor);
        match cursor {
            None => {
                return ;
            },
            Some(node) => {
                if node.hash_code == hash_code && bytes_equal(node.key.as_slice(), key) {
                    node.value = value;
                    return ;
                }
                proof {
                    let rest = chain_of(node.next);
                    assert(here.drop_first() =~= rest);
                    assert(skipped + here =~= skipped.push(node.entry()) + rest);
                    skipped = skipped.push(node.entry());
                }
                cursor = &mut node.next;
            },
        }
    }
}

/// Stores a value under a key in a chain. An entry that answers the lookup
/// has its value replaced in place; otherwise a new node becomes the head
/// and the old chain its tail. Tells whether a node was added.
pub fn store(head: &mut Option<Box<HashMapNode>>, key: Vec<u8>, value: Vec<u8>, hash_code: u64) -> (added: bool)
    ensures
        chain_of(*final(head)) == chain_put(chain_of(*old(head)), key@, value@, hash_code),
        added == chain_get(chain_of(*old(head)), key@, hash_code) is None,
{
    if find(head, key.as_slice(), hash_code).is_some() {
        overwrite(head, key.as_slice(), hash_code, value);
        false
    } else {
        let rest = head.take();
        *head = Some(Box::new(HashMapNode::new(key, value, hash_code, rest)));
        true
    }
}

/// Unlinks the first entry that answers the lookup and hands out its value.
/// The entries around it keep their order.
pub fn unlink(head: &mut Option<Box<HashMapNode>>, key: &[u8], hash_code: u64) -> (removed: Option<Vec<u8>>)
    ensures
        chain_of(*final(head)) == chain_take(chain_of(*old(head)), key@, hash_code),
        removed is Some == chain_get(chain_of(*old(head)), key@, hash_code) is Some,
        removed is Some ==> removed.unwrap()@ == chain_get(chain_of(*old(head)), key@, hash_code).unwrap(),
{
    let ghost mut skipped: Seq<Entry> = Seq::empty();
    let mut cursor = head;
    loop
        invariant
            chain_of(*old(head)) == skipped + chain_of(*cursor),
            chain_of(*final(head)) == skipped + chain_of(*final(cursor)),
            first_match(chain_of(*old(head)), key@, hash_code) == skipped.len() + first_match(chain_of(*cursor), key@, hash_code),
        decreases chain_of(*cursor).len(),
    {
        let ghost here = chain_of(*cursor);
        let hit = match cursor {
            None => {
                return None;
            },
            Some(node) => node.hash_code == hash_code && bytes_equal(node.key.as_slice(), key),
        };
        if hit {
            let node = cursor.take().unwrap();
            let HashMapNode { key: _, value, hash_code: _, next } = *node;
            *cursor = next;
            return Some(value);
        }
        match cursor {
            None => {
                return None;
            },
            Some(node) => {
                proof {
                    let rest = chain_of(node.next);
                    assert(here.drop_first() =~= rest);
                    assert(skipped + here =~= skipped.push(node.entry()) + rest);
                    skipped = skipped.push(node.entry());
                }
                cursor = &mut node.next;
            },
        }
    }
}

/// Where the first match lies: nothing before it answers the lookup, and the
/// entry at it does, unless it is the chain's length.
pub proof fn lemma_first_match(chain: Seq<Entry>, key: Seq<u8>, hash_code: u64)
    ensures
        0 <= first_match(chain, key, hash_code) <= chain.len(),
        forall|i: int|
            0 <= i < first_match(chain, key, hash_code) ==> !entry_matches(
                #[trigger] chain[i],
                key,
                hash_code,
            ),
        first_match(chain, key, hash_code) < chain.len() ==> entry_matches(
            chain[first_match(chain, key, hash_code)],
            key,
            hash_code,
        ),
    decreases chain.len(),
{
    if chain.len() > 0 && !entry_matches(chain[0], key, hash_code) {
        let rest = chain.drop_first();
        lemma_first_match(rest, key, hash_code);
        assert forall|i: int| 0 <= i < first_match(chain, key, hash_code) implies !entry_matches(
            #[trigger] chain[i],
            key,
            hash_code,
        ) by {
            if i > 0 {
                assert(chain[i] == rest[i - 1]);
            }
        }
    }
}

/// The first match is the only position with nothing answering before it
/// and an answer at it.
pub proof fn lemma_first_match_unique(chain: Seq<Entry>, key: Seq<u8>, hash_code: u64, at: int)
    requires
        0 <= at <= chain.len(),
        forall|i: int| 0 <= i < at ==> !entry_matches(#[trigger] chain[i], key, hash_code),
        at < chain.len() ==> entry_matches(chain[at], key, hash_code),
    ensures
        first_match(chain, key, hash_code) == at,
{
    lemma_first_match(chain, key, hash_code);
    let found = first_match(chain, key, hash_code);
    if found < at {
        assert(!entry_matches(chain[found], key, hash_code));
    }
}

/// A lookup passes over a head that does not answer it.
pub proof fn lemma_chain_get_skip(chain: Seq<Entry>, key: Seq<u8>, hash_code: u64)
    requires
        chain.len() > 0,
        !entry_matches(chain[0], key, hash_code),
    ensures
        chain_get(chain, key, hash_code) == chain_get(chain.drop_first(), key, hash_code),
{
    lemma_first_match(chain.drop_first(), key, hash_code);
}

/// After a store the key yields the stored value.
pub proof fn lemma_get_after_put(chain: Seq<Entry>, key: Seq<u8>, value: Seq<u8>, hash_code: u64)
    ensures
        chain_get(chain_put(chain, key, value, hash_code), key, hash_code) == Some(value),
{
    lemma_first_match(chain, key, hash_code);
    let at = first_match(chain, key, hash_code);
    let after = chain_put(chain, key, value, hash_code);
    if at < chain.len() {
        lemma_first_match_unique(after, key, hash_code, at);
    } else {
        lemma_first_match_unique(after, key, hash_code, 0);
    }
}

/// A store leaves every other lookup as it was.
pub proof fn lemma_get_after_put_other(
    chain: Seq<Entry>,
    key: Seq<u8>,
    value: Seq<u8>,
    hash_code: u64,
    other_key: Seq<u8>,
    other_hash: u64,
)
    requires
        other_key != key || other_hash != hash_code,
    ensures
        chain_get(chain_put(chain, key, value, hash_code), other_key, other_hash) == chain_get(
            chain,
            other_key,
            other_hash,
        ),
{
    lemma_first_match(chain, key, hash_code);
    lemma_first_match(chain, other_key, other_hash);
    let at = first_match(chain, key, hash_code);
    let other_at = first_match(chain, other_key, other_hash);
    let after = chain_put(chain, key, value, hash_code);
    if at < chain.len() {
        assert forall|i: int| 0 <= i < other_at implies !entry_matches(
            #[trigger] after[i],
            other_key,
            other_hash,
        ) by {
            assert(!entry_matches(chain[i], other_key, other_hash));
        }
        lemma_first_match_unique(after, other_key, other_hash, other_at);
    } else {
        assert forall|i: int| 0 <= i < other_at + 1 implies !entry_matches(
            #[trigger] after[i],
            other_key,
            other_hash,
        ) by {
            if i > 0 {
                assert(after[i] == chain[i - 1]);
                assert(!entry_matches(chain[i - 1], other_key, other_hash));
            }
        }
        lemma_first_match_unique(after, other_key, other_hash, other_at + 1);
    }
}

/// After an unlink the key yields nothing, in a chain of distinct entries.
pub proof fn lemma_get_after_take(chain: Seq<Entry>, key: Seq<u8>, hash_code: u64)
    requires
        distinct_entries(chain),
    ensures
        chain_get(chain_take(chain, key, hash_code), key, hash_code) is None,
{
    lemma_first_match(chain, key, hash_code);
    let at = first_match(chain, key, hash_code);
    let after = chain_take(chain, key, hash_code);
    if at < chain.len() {
        assert forall|i: int| 0 <= i < after.len() implies !entry_matches(
            #[trigger] after[i],
            key,
            hash_code,
        ) by {
            if i < at {
                assert(after[i] == chain[i]);
            } else {
                assert(after[i] == chain[i + 1]);
                assert(!entry_matches(chain[at], chain[i + 1].key, chain[i + 1].hash_code));
            }
        }
        lemma_first_match_unique(after, key, hash_code, after.len() as int);
    }
}

/// An unlink leaves every other lookup as it was.
pub proof fn lemma_get_after_take_other(
    chain: Seq<Entry>,
    key: Seq<u8>,
    hash_code: u64,
    other_key: Seq<u8>,
    other_hash: u64,
)
    requires
        other_key != key || other_hash != hash_code,
    ensures
        chain_get(chain_take(chain, key, hash_code), other_key, other_hash) == chain_get(
            chain,
            other_key,
            other_hash,
        ),
{
    lemma_first_match(chain, key, hash_code);
    lemma_first_match(chain, other_key, other_hash);
    let at = first_match(chain, key, hash_code);
    let other_at = first_match(chain, other_key, other_hash);
    let after = chain_take(chain, key, hash_code);
    if at < chain.len() {
        let moved = if other_at < at {
            other_at
        } else {
            other_at - 1
        };
        assert forall|i: int| 0 <= i < moved implies !entry_matches(
            #[trigger] after[i],
            other_key,
            other_hash,
        ) by {
            if i < at {
                assert(after[i] == chain[i]);
                assert(!entry_matches(chain[i], other_key, other_hash));
            } else {
                assert(after[i] == chain[i + 1]);
                assert(!entry_matches(chain[i + 1], other_key, other_hash));
            }
        }
        if moved < after.len() {
            if other_at < at {
                assert(after[moved] == chain[other_at]);
            } else {
                assert(after[moved] == chain[other_at]);
            }
        }
        lemma_first_match_unique(after, other_key, other_hash, moved);
    }
}

/// A store keeps the entries of a chain distinct.
pub proof fn lemma_put_keeps_distinct(chain: Seq<Entry>, key: Seq<u8>, value: Seq<u8>, hash_code: u64)
    requires
        distinct_entries(chain),
    ensures
        distinct_entries(chain_put(chain, key, value, hash_code)),
{
    lemma_first_match(chain, key, hash_code);
    let at = first_match(chain, key, hash_code);
    let after = chain_put(chain, key, value, hash_code);
    assert forall|i: int, j: int| 0 <= i < j < after.len() implies !entry_matches(
        #[trigger] after[i],
        (#[trigger] after[j]).key,
        after[j].hash_code,
    ) by {
        if at < chain.len() {
            assert(!entry_matches(chain[i], chain[j].key, chain[j].hash_code));
        } else if i == 0 {
            assert(after[j] == chain[j - 1]);
            assert(!entry_matches(chain[j - 1], key, hash_code));
        } else {
            assert(after[i] == chain[i - 1]);
            assert(after[j] == chain[j - 1]);
            assert(!entry_matches(chain[i - 1], chain[j - 1].key, chain[j - 1].hash_code));
        }
    }
}

/// An unlink keeps the entries of a chain distinct.
pub proof fn lemma_take_keeps_distinct(chain: Seq<Entry>, key: Seq<u8>, hash_code: u64)
    requires
        distinct_entries(chain),
    ensures
        distinct_entries(chain_take(chain, key, hash_code)),
{
    lemma_first_match(chain, key, hash_code);
    let at = first_match(chain, key, hash_code);
    let after = chain_take(chain, key, hash_code);
    if at < chain.len() {
        assert forall|i: int, j: int| 0 <= i < j < after.len() implies !entry_matches(
            #[trigger] after[i],
            (#[trigger] after[j]).key,
            after[j].hash_code,
        ) by {
            let from_i = if i < at { i } else { i + 1 };
            let from_j = if j < at { j } else { j + 1 };
            assert(after[i] == chain[from_i]);
            assert(after[j] == chain[from_j]);
            assert(!entry_matches(chain[from_i], chain[from_j].key, chain[from_j].hash_code));
        }
    }
}

} // verus!
