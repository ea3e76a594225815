//! The image of the persisted store: byte-string keys with byte-string
//! values, looked up and written as the persistence engine does.

use vstd::prelude::*;
use crate::text::same_bytes;
use crate::wire::put_bytes;

verus! {

/// The value under `key` in a list of pairs: that of the first pair with
/// that key.
pub open spec fn lookup(pairs: Seq<(Seq<u8>, Seq<u8>)>, key: Seq<u8>) -> Option<Seq<u8>>
    decreases pairs.len(),
{
    if pairs.len() == 0 {
        None
    } else if pairs[0].0 == key {
        Some(pairs[0].1)
    } else {
        lookup(pairs.skip(1), key)
    }
}

/// The map that a list of pairs stands for.
pub open spec fn pairs_map(pairs: Seq<(Seq<u8>, Seq<u8>)>) -> Map<Seq<u8>, Seq<u8>> {
    Map::new(|k: Seq<u8>| lookup(pairs, k) is Some, |k: Seq<u8>| lookup(pairs, k)->0)
}

/// A key that is not among the first `i` pairs is looked up behind them.
pub proof fn lemma_lookup_skip(pairs: Seq<(Seq<u8>, Seq<u8>)>, key: Seq<u8>, i: int)
    requires
        0 <= i <= pairs.len(),
        forall|j: int| 0 <= j < i ==> pairs[j].0 != key,
    ensures
        lookup(pairs, key) == lookup(pairs.skip(i), key),
    decreases i,
{
    if i == 0 {
        assert(pairs.skip(0) =~= pairs);
    } else {
        let tail = pairs.skip(1);
        assert forall|j: int| 0 <= j < i - 1 implies tail[j].0 != key by {
            assert(tail[j] == pairs[j + 1]);
        }
        lemma_lookup_skip(tail, key, i - 1);
        assert(tail.skip(i - 1) =~= pairs.skip(i));
    }
}

/// Replacing the value of the first pair with a key sets that key.
pub proof fn lemma_lookup_update(
    pairs: Seq<(Seq<u8>, Seq<u8>)>,
    i: int,
    value: Seq<u8>,
    other: Seq<u8>,
)
    requires
        0 <= i < pairs.len(),
        forall|j: int| 0 <= j < i ==> pairs[j].0 != pairs[i].0,
    ensures
        lookup(pairs.update(i, (pairs[i].0, value)), other) == if other == pairs[i].0 {
            Some(value)
        } else {
            lookup(pairs, other)
        },
    decreases i,
{
    let changed = pairs.update(i, (pairs[i].0, value));
    if i == 0 {
        assert(changed.skip(1) =~= pairs.skip(1));
    } else {
        let tail = pairs.skip(1);
        let key = pairs[i].0;
        assert(tail[i - 1] == pairs[i]);
        assert forall|j: int| 0 <= j < i - 1 implies (#[trigger] tail[j]).0 != key by {
            assert(tail[j] == pairs[j + 1]);
        }
        lemma_lookup_update(tail, i - 1, value, other);
        assert(changed.skip(1) =~= tail.update(i - 1, (tail[i - 1].0, value)));
        assert(changed[0] == pairs[0]);
    }
}

/// A pair added behind pairs that lack its key sets that key.
pub proof fn lemma_lookup_push(
    pairs: Seq<(Seq<u8>, Seq<u8>)>,
    key: Seq<u8>,
    value: Seq<u8>,
    other: Seq<u8>,
)
    requires
        forall|j: int| 0 <= j < pairs.len() ==> pairs[j].0 != key,
    ensures
        lookup(pairs.push((key, value)), other) == if other == key {
            Some(value)
        } else {
            lookup(pairs, other)
        },
    decreases pairs.len(),
{
    let grown = pairs.push((key, value));
    if pairs.len() == 0 {
        assert(grown.skip(1) =~= Seq::<(Seq<u8>, Seq<u8>)>::empty());
        assert(grown[0] == (key, value));
        assert(lookup(grown.skip(1), other) is None);
    } else {
        assert(pairs[0].0 != key);
        let tail = pairs.skip(1);
        assert forall|j: int| 0 <= j < tail.len() implies tail[j].0 != key by {
            assert(tail[j] == pairs[j + 1]);
        }
        lemma_lookup_push(tail, key, value, other);
        assert(grown.skip(1) =~= tail.push((key, value)));
        assert(grown[0] == pairs[0]);
    }
}

/// Keys that are all different and all present are no more than the pairs.
pub proof fn lemma_present_keys_bound(pairs: Seq<(Seq<u8>, Seq<u8>)>, keys: Seq<Seq<u8>>)
    requires
        keys.no_duplicates(),
        forall|i: int| 0 <= i < keys.len() ==> lookup(pairs, #[trigger] keys[i]) is Some,
    ensures
        keys.len() <= pairs.len(),
    decreases pairs.len(),
{
    if pairs.len() == 0 {
        if keys.len() > 0 {
            assert(lookup(pairs, keys[0]) is Some);
        }
    } else {
        let tail = pairs.skip(1);
        let first = pairs[0].0;
        if exists|i: int| 0 <= i < keys.len() && keys[i] == first {
            let i = choose|i: int| 0 <= i < keys.len() && keys[i] == first;
            let others = keys.remove(i);
            assert forall|a: int, b: int|
                0 <= a < others.len() && 0 <= b < others.len() && a != b implies others[a]
                != others[b] by {
                let a0 = if a < i { a } else { a + 1 };
                let b0 = if b < i { b } else { b + 1 };
                assert(others[a] == keys[a0] && others[b] == keys[b0]);
            }
            assert forall|j: int| 0 <= j < others.len() implies lookup(
                tail,
                #[trigger] others[j],
            ) is Some by {
                let j0 = if j < i { j } else { j + 1 };
                assert(others[j] == keys[j0]);
                assert(lookup(pairs, keys[j0]) is Some);
            }
            lemma_present_keys_bound(tail, others);
        } else {
            assert forall|j: int| 0 <= j < keys.len() implies lookup(tail, #[trigger] keys[j])
                is Some by {
                assert(lookup(pairs, keys[j]) is Some);
            }
            lemma_present_keys_bound(tail, keys);
        }
    }
}

/// One key with its value.
#[derive(Debug, PartialEq, Eq)]
pub struct StoreEntry {
    key: Vec<u8>,
    value: Vec<u8>,
}

/// A key-value store held in memory.
#[derive(Debug, PartialEq, Eq)]
pub struct BlockStore {
    entries: Vec<StoreEntry>,
}

impl BlockStore {
    /// The pairs of the store, in the order in which their keys came.
    pub closed spec fn pairs(&self) -> Seq<(Seq<u8>, Seq<u8>)> {
        Seq::new(self.entries@.len(), |i: int| (self.entries@[i].key@, self.entries@[i].value@))
    }

    /// The number of pairs that the store holds.
    pub open spec fn size(&self) -> nat {
        self.pairs().len()
    }
}

impl View for BlockStore {
    type V = Map<Seq<u8>, Seq<u8>>;

    open spec fn view(&self) -> Map<Seq<u8>, Seq<u8>> {
        pairs_map(self.pairs())
    }
}

impl Clone for BlockStore {
    fn clone(&self) -> (r: Self)
        ensures
            r.pairs() == self.pairs(),
            r@ == self@,
    {
        let mut entries: Vec<StoreEntry> = Vec::new();
        let mut i: usize = 0;
        while i < self.entries.len()
            invariant
                i <= self.entries@.len(),
                entries@.len() == i,
                forall|j: int|
                    0 <= j < i ==> (#[trigger] entries@[j]).key@ == self.entries@[j].key@
                        && entries@[j].value@ == self.entries@[j].value@,
            decreases self.entries@.len() - i,
        {
            let mut key: Vec<u8> = Vec::new();
            put_bytes(&mut key, self.entries[i].key.as_slice());
            let mut value: Vec<u8> = Vec::new();
            put_bytes(&mut value, self.entries[i].value.as_slice());
            assert(key@ =~= self.entries@[i as int].key@);
            assert(value@ =~= self.entries@[i as int].value@);
            entries.push(StoreEntry { key, value });
            i += 1;
        }
        let r = BlockStore { entries };
        assert(r.pairs() =~= self.pairs());
        r
    }
}

impl BlockStore {
    /// A store that holds nothing.
    pub fn new() -> (s: BlockStore)
        ensures
            s.pairs() == Seq::<(Seq<u8>, Seq<u8>)>::empty(),
            s@ == Map::<Seq<u8>, Seq<u8>>::empty(),
    {
        let s = BlockStore { entries: Vec::new() };
        assert(s.pairs() =~= Seq::<(Seq<u8>, Seq<u8>)>::empty());
        assert(s@ =~= Map::<Seq<u8>, Seq<u8>>::empty());
        s
    }

    /// The number of pairs.
    pub fn len(&self) -> (n: usize)
        ensures
            n == self.size(),
    {
        self.entries.len()
    }

    /// Where the first pair with `key` stands.
    fn position(&self, key: &[u8]) -> (r: Option<usize>)
        ensures
            match r {
                Some(i) => i < self.size() && self.pairs()[i as int].0 == key@ && forall|j: int|
                    0 <= j < i ==> self.pairs()[j].0 != key@,
                None => forall|j: int| 0 <= j < self.size() ==> self.pairs()[j].0 != key@,
            },
    {
        let mut i: usize = 0;
        while i < self.entries.len()
            invariant
                i <= self.size(),
                self.size() == self.entries@.len(),
                forall|j: int| 0 <= j < i ==> self.pairs()[j].0 != key@,
            decreases self.size() - i,
        {
            if same_bytes(self.entries[i].key.as_slice(), key) {
                return Some(i);
            }
            i += 1;
        }
        None
    }

    /// The value under `key`, if the store holds one.
    pub fn get(&self, key: &[u8]) -> (r: Option<Vec<u8>>)
        ensures
            match r {
                Some(v) => self@.contains_key(key@) && self@[key@] == v@,
                None => !self@.contains_key(key@),
            },
    {
        match self.position(key) {
            Some(i) => {
                proof {
                    lemma_lookup_skip(self.pairs(), key@, i as int);
                }
                let v = &self.entries[i].value;
                let mut out: Vec<u8> = Vec::new();
                put_bytes(&mut out, v.as_slice());
                assert(out@ =~= v@);
                Some(out)
            },
            None => {
                proof {
                    lemma_lookup_skip(self.pairs(), key@, self.size() as int);
                }
                None
            },
        }
    }

    /// Puts `value` under `key`, in place of what was there.
    pub fn insert(&mut self, key: Vec<u8>, value: Vec<u8>)
        ensures
            final(self)@ == old(self)@.insert(key@, value@),
            final(self).size() == if old(self)@.contains_key(key@) {
                old(self).size()
            } else {
                old(self).size() + 1
            },
    {
        let ghost before = self.pairs();
        match self.position(key.as_slice()) {
            Some(i) => {
                self.entries[i].value = value;
                proof {
                    lemma_lookup_skip(before, key@, i as int);
                    assert(self.pairs() =~= before.update(i as int, (before[i as int].0, value@)));
                    assert forall|k: Seq<u8>|
                        lookup(self.pairs(), k) == if k == key@ {
                            Some(value@)
                        } else {
                            lookup(before, k)
                        } by {
                        lemma_lookup_update(before, i as int, value@, k);
                    }
                    assert(self@ =~= old(self)@.insert(key@, value@));
                }
            },
            None => {
                proof {
                    lemma_lookup_skip(before, key@, before.len() as int);
                }
                self.entries.push(StoreEntry { key, value });
                proof {
                    assert(self.pairs() =~= before.push((key@, value@)));
                    assert forall|k: Seq<u8>|
                        lookup(self.pairs(), k) == if k == key@ {
                            Some(value@)
                        } else {
                            lookup(before, k)
                        } by {
                        lemma_lookup_push(before, key@, value@, k);
                    }
                    assert(self@ =~= old(self)@.insert(key@, value@));
                }
            },
        }
    }
}

} // verus!
