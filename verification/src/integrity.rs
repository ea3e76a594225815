//! Chain integrity: a chain that was started with a first block and grown
//! by appending blocks is walked from its newest block back to the first,
//! block by block.

use vstd::prelude::*;
use crate::block::{decode_block, lemma_block_round_trip, BlockModel};
use crate::blockchain::{chain_walk, key_of, tip_key, with_block, Blockchain};
use crate::text::lemma_utf8_injective;
use crate::transaction::TxModel;
use crate::utxo::chain_txs;

verus! {

/// Whether `chain`, newest block first, is held in `store` and linked by
/// hashes: each block stands under its hash, which is a digest of 64
/// digits; each block but the last names the next as its predecessor; the
/// last has no predecessor; and `tip` is the hash of the newest.
pub open spec fn linked(store: Map<Seq<u8>, Seq<u8>>, tip: Seq<char>, chain: Seq<BlockModel>) -> bool {
    &&& chain.len() > 0
    &&& chain[0].hash == tip
    &&& chain.last().prev_block_hash.len() == 0
    &&& forall|i: int|
        0 <= i < chain.len() ==> {
            &&& (#[trigger] chain[i]).hash.len() == 64
            &&& store.contains_key(key_of(chain[i].hash))
            &&& decode_block(store[key_of(chain[i].hash)]) == Some(chain[i])
        }
    &&& forall|i: int|
        0 <= i < chain.len() - 1 ==> (#[trigger] chain[i]).prev_block_hash == chain[i + 1].hash
}

/// The store and the newest hash after a chain was started in `store` with
/// the first block `genesis` and the blocks of `added` were appended one
/// after the other.
pub open spec fn grown(store: Map<Seq<u8>, Seq<u8>>, genesis: BlockModel, added: Seq<BlockModel>) -> (
    Map<Seq<u8>, Seq<u8>>,
    Seq<char>,
)
    decreases added.len(),
{
    if added.len() == 0 {
        (with_block(store, genesis), genesis.hash)
    } else {
        (with_block(grown(store, genesis, added.drop_last()).0, added.last()), added.last().hash)
    }
}

/// The blocks of such a chain, newest first.
pub open spec fn grown_chain(genesis: BlockModel, added: Seq<BlockModel>) -> Seq<BlockModel> {
    added.reverse().push(genesis)
}

/// Whether `added` can be appended to a chain that starts with `genesis`:
/// the first block has no predecessor, each block names the one before it
/// as its predecessor, each has a digest of 64 digits as its hash and can be
/// laid out, and no two blocks have the same hash.
pub open spec fn appendable(genesis: BlockModel, added: Seq<BlockModel>) -> bool {
    &&& genesis.prev_block_hash.len() == 0
    &&& genesis.hash.len() == 64
    &&& genesis.fits()
    &&& forall|i: int|
        0 <= i < added.len() ==> {
            &&& (#[trigger] added[i]).hash.len() == 64
            &&& added[i].fits()
            &&& added[i].hash != genesis.hash
            &&& added[i].prev_block_hash == if i == 0 {
                genesis.hash
            } else {
                added[i - 1].hash
            }
        }
    &&& forall|i: int, j: int|
        0 <= i < j < added.len() ==> (#[trigger] added[i]).hash != (#[trigger] added[j]).hash
}

/// The walk from a block of a linked chain gives the blocks from there on.
pub proof fn lemma_linked_walk(
    store: Map<Seq<u8>, Seq<u8>>,
    tip: Seq<char>,
    chain: Seq<BlockModel>,
    i: int,
    fuel: nat,
)
    requires
        linked(store, tip, chain),
        0 <= i < chain.len(),
        fuel >= chain.len() - i,
    ensures
        chain_walk(store, chain[i].hash, fuel) == chain.skip(i),
    decreases chain.len() - i,
{
    let b = chain[i];
    assert(b.hash.len() == 64);
    if i == chain.len() - 1 {
        assert(chain_walk(store, b.prev_block_hash, (fuel - 1) as nat) =~= Seq::<BlockModel>::empty());
        assert(seq![b] + Seq::<BlockModel>::empty() =~= chain.skip(i));
    } else {
        lemma_linked_walk(store, tip, chain, i + 1, (fuel - 1) as nat);
        assert(seq![b] + chain.skip(i + 1) =~= chain.skip(i));
    }
}

/// No two blocks of a linked chain have the same hash.
pub proof fn lemma_linked_distinct(
    store: Map<Seq<u8>, Seq<u8>>,
    tip: Seq<char>,
    chain: Seq<BlockModel>,
    i: int,
    j: int,
)
    requires
        linked(store, tip, chain),
        0 <= i < j < chain.len(),
    ensures
        chain[i].hash != chain[j].hash,
    decreases chain.len() - j,
{
    if chain[i].hash == chain[j].hash {
        assert(decode_block(store[key_of(chain[i].hash)]) == Some(chain[i]));
        assert(decode_block(store[key_of(chain[j].hash)]) == Some(chain[j]));
        assert(chain[i] == chain[j]);
        assert(chain[i].prev_block_hash == chain[i + 1].hash);
        assert(chain[i + 1].hash.len() == 64);
        if j < chain.len() - 1 {
            assert(chain[j].prev_block_hash == chain[j + 1].hash);
            lemma_linked_distinct(store, tip, chain, i + 1, j + 1);
        }
    }
}

/// The key of a hash of 64 digits is not the key of the newest hash.
pub proof fn lemma_block_key_is_not_tip_key(hash: Seq<char>)
    requires
        hash.len() == 64,
    ensures
        key_of(hash) != tip_key(),
{
    reveal_strlit("LAST");
    if key_of(hash) == tip_key() {
        lemma_utf8_injective(hash, "LAST"@);
    }
}

/// A linked chain stays linked where a block is appended whose hash no
/// block of the chain has.
pub proof fn lemma_append_keeps_linked(
    store: Map<Seq<u8>, Seq<u8>>,
    tip: Seq<char>,
    chain: Seq<BlockModel>,
    b: BlockModel,
)
    requires
        linked(store, tip, chain),
        b.prev_block_hash == tip,
        b.hash.len() == 64,
        b.fits(),
        forall|i: int| 0 <= i < chain.len() ==> (#[trigger] chain[i]).hash != b.hash,
    ensures
        linked(with_block(store, b), b.hash, seq![b] + chain),
{
    let after = with_block(store, b);
    let longer = seq![b] + chain;
    lemma_block_key_is_not_tip_key(b.hash);
    lemma_block_round_trip(b);
    assert(longer.last() == chain.last());
    assert forall|i: int| 0 <= i < longer.len() implies {
        &&& (#[trigger] longer[i]).hash.len() == 64
        &&& after.contains_key(key_of(longer[i].hash))
        &&& decode_block(after[key_of(longer[i].hash)]) == Some(longer[i])
    } by {
        if i > 0 {
            let c = chain[i - 1];
            assert(longer[i] == c);
            lemma_block_key_is_not_tip_key(c.hash);
            if key_of(c.hash) == key_of(b.hash) {
                lemma_utf8_injective(c.hash, b.hash);
            }
            assert(after[key_of(c.hash)] == store[key_of(c.hash)]);
        }
    }
    assert forall|i: int| 0 <= i < longer.len() - 1 implies (#[trigger] longer[i]).prev_block_hash
        == longer[i + 1].hash by {
        if i > 0 {
            assert(longer[i] == chain[i - 1]);
            assert(longer[i + 1] == chain[i]);
        }
    }
}

/// A chain that starts with a first block is linked.
pub proof fn lemma_first_block_is_linked(store: Map<Seq<u8>, Seq<u8>>, genesis: BlockModel)
    requires
        genesis.prev_block_hash.len() == 0,
        genesis.hash.len() == 64,
        genesis.fits(),
    ensures
        linked(with_block(store, genesis), genesis.hash, seq![genesis]),
{
    lemma_block_key_is_not_tip_key(genesis.hash);
    lemma_block_round_trip(genesis);
}

/// A chain that was started with a first block and grown by appending is
/// linked.
pub proof fn lemma_grown_is_linked(
    store: Map<Seq<u8>, Seq<u8>>,
    genesis: BlockModel,
    added: Seq<BlockModel>,
)
    requires
        appendable(genesis, added),
    ensures
        linked(
            grown(store, genesis, added).0,
            grown(store, genesis, added).1,
            grown_chain(genesis, added),
        ),
    decreases added.len(),
{
    if added.len() == 0 {
        lemma_first_block_is_linked(store, genesis);
        assert(grown_chain(genesis, added) =~= seq![genesis]);
    } else {
        let before = added.drop_last();
        let b = added.last();
        assert forall|i: int| 0 <= i < before.len() implies {
            &&& (#[trigger] before[i]).hash.len() == 64
            &&& before[i].fits()
            &&& before[i].hash != genesis.hash
            &&& before[i].prev_block_hash == if i == 0 {
                genesis.hash
            } else {
                before[i - 1].hash
            }
        } by {
            assert(before[i] == added[i]);
            if i > 0 {
                assert(before[i - 1] == added[i - 1]);
            }
        }
        assert forall|i: int, j: int| 0 <= i < j < before.len() implies (#[trigger] before[i]).hash
            != (#[trigger] before[j]).hash by {
            assert(before[i] == added[i] && before[j] == added[j]);
        }
        lemma_grown_is_linked(store, genesis, before);
        let prev = grown(store, genesis, before);
        let chain = grown_chain(genesis, before);
        let n = added.len() - 1;
        assert(b == added[n]);
        assert(chain[0].hash == prev.1);
        assert(prev.1 == if n == 0 {
            genesis.hash
        } else {
            added[n - 1].hash
        }) by {
            if n > 0 {
                assert(before.last() == added[n - 1]);
            }
        }
        assert forall|i: int| 0 <= i < chain.len() implies (#[trigger] chain[i]).hash != b.hash by {
            if i < before.len() {
                assert(chain[i] == before[before.len() - 1 - i]);
                assert(before[before.len() - 1 - i] == added[before.len() - 1 - i]);
            } else {
                assert(chain[i] == genesis);
            }
        }
        lemma_append_keeps_linked(prev.0, prev.1, chain, b);
        assert(seq![b] + chain =~= grown_chain(genesis, added));
    }
}

impl Blockchain {
    /// The walk over a chain whose store holds a linked chain gives that
    /// chain: the store holds at least as many pairs as the chain has
    /// blocks, so the walk does not end early.
    pub proof fn lemma_walk_gives_linked(&self, chain: Seq<BlockModel>)
        requires
            linked(self.store(), self.tip(), chain),
        ensures
            self.blocks() == chain,
    {
        self.lemma_fuel_covers(chain);
        lemma_linked_walk(self.store(), self.tip(), chain, 0, self.fuel());
        assert(chain.skip(0) =~= chain);
    }

    /// Chain integrity. A chain that was started with a first block and to
    /// which blocks were appended, each mined behind the newest, is walked
    /// from the newest block back to the first: the walk gives as many
    /// blocks as were appended and one more, and ends at a block without
    /// predecessor. No two of the blocks have the same hash.
    pub proof fn lemma_chain_integrity(
        &self,
        store: Map<Seq<u8>, Seq<u8>>,
        genesis: BlockModel,
        added: Seq<BlockModel>,
    )
        requires
            appendable(genesis, added),
            self.store() == grown(store, genesis, added).0,
            self.tip() == grown(store, genesis, added).1,
        ensures
            self.blocks() == grown_chain(genesis, added),
            self.blocks().len() == added.len() + 1,
            self.blocks().last().prev_block_hash.len() == 0,
            forall|i: int|
                0 <= i < self.blocks().len() - 1 ==> (#[trigger] self.blocks()[i]).prev_block_hash.len()
                    == 64,
    {
        lemma_grown_is_linked(store, genesis, added);
        let chain = grown_chain(genesis, added);
        self.lemma_walk_gives_linked(chain);
        assert forall|i: int| 0 <= i < chain.len() - 1 implies (#[trigger] chain[i]).prev_block_hash.len()
            == 64 by {
            assert(chain[i].prev_block_hash == chain[i + 1].hash);
            assert(chain[i + 1].hash.len() == 64);
        }
    }

    /// Appending to a linked chain a block whose hash no block of the chain
    /// has puts that block, and no other, in front of the walk, and its
    /// transactions in front of the transactions of the chain. `before` is
    /// the chain as it was, `self` the chain as it is.
    pub proof fn lemma_append_adds_one_block(
        &self,
        before: &Blockchain,
        chain: Seq<BlockModel>,
        b: BlockModel,
    )
        requires
            linked(before.store(), before.tip(), chain),
            b.prev_block_hash == before.tip(),
            b.hash.len() == 64,
            b.fits(),
            forall|i: int| 0 <= i < chain.len() ==> (#[trigger] chain[i]).hash != b.hash,
            self.store() == with_block(before.store(), b),
            self.tip() == b.hash,
        ensures
            before.blocks() == chain,
            self.blocks() == seq![b] + chain,
            self.txs() == b.transactions + before.txs(),
            linked(self.store(), self.tip(), seq![b] + chain),
    {
        before.lemma_walk_gives_linked(chain);
        lemma_append_keeps_linked(before.store(), before.tip(), chain, b);
        self.lemma_walk_gives_linked(seq![b] + chain);
        lemma_chain_txs_front(b, chain);
    }
}

/// The transactions of a walk that starts with the block `b` are those of
/// `b` and then those of the rest.
pub proof fn lemma_chain_txs_front(b: BlockModel, blocks: Seq<BlockModel>)
    ensures
        chain_txs(seq![b] + blocks) == b.transactions + chain_txs(blocks),
    decreases blocks.len(),
{
    let all = seq![b] + blocks;
    if blocks.len() == 0 {
        assert(all.drop_last() =~= Seq::<BlockModel>::empty());
        assert(chain_txs(all.drop_last()) =~= Seq::<TxModel>::empty());
        assert(chain_txs(all) =~= b.transactions + chain_txs(blocks));
    } else {
        lemma_chain_txs_front(b, blocks.drop_last());
        assert(all.drop_last() =~= seq![b] + blocks.drop_last());
        assert(all.last() == blocks.last());
        assert(chain_txs(all) =~= b.transactions + chain_txs(blocks));
    }
}

} // verus!
