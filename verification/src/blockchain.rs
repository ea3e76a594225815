//! The chain: blocks kept in a store under their hashes, the hash of the
//! newest block kept under the key `LAST`, and the walk from the newest
//! block back to the first.

use vstd::prelude::*;
use vstd::string::*;
use vstd::utf8::{decode_utf8, decode_utf8_encode_utf8, encode_utf8, valid_utf8};
use crate::block::{
    decode_block, minable, mined_block, wire_block, Block, BlockModel, TARGET_BITS,
};
use crate::error::ChainError;
use crate::integrity::{lemma_linked_distinct, linked};
use crate::refs::OutputRefs;
use crate::store::{lemma_present_keys_bound, lookup, BlockStore};
use crate::text::lemma_utf8_injective;
use crate::transaction::{
    chosen_total, coinbase_model, output_models, spend_model, tx_models, Transaction, TxModel,
};
use crate::tx::{OutputModel, TXOutput};
use crate::utxo::{
    balance, chain_txs, refs_of, scan_transaction, select_outputs, selected, sum_values,
    total_value, tracks_spent, unspent_models, unspent_outputs, UnspentModel, UnspentOutput,
};
use crate::wire::text_from_utf8;

verus! {

/// The key under which a block with hash `hash` is stored.
pub open spec fn key_of(hash: Seq<char>) -> Seq<u8> {
    encode_utf8(hash)
}

/// The key under which the hash of the newest block is stored.
pub open spec fn tip_key() -> Seq<u8> {
    encode_utf8("LAST"@)
}

/// The blocks met on the way back from the block with hash `from`, at most
/// `fuel` of them. The way ends behind a block without predecessor, and
/// where the store holds no block under a hash.
pub open spec fn chain_walk(store: Map<Seq<u8>, Seq<u8>>, from: Seq<char>, fuel: nat) -> Seq<
    BlockModel,
>
    decreases fuel,
{
    if fuel == 0 || from.len() == 0 || !store.contains_key(key_of(from)) {
        Seq::empty()
    } else {
        match decode_block(store[key_of(from)]) {
            Some(b) => seq![b] + chain_walk(store, b.prev_block_hash, (fuel - 1) as nat),
            None => Seq::empty(),
        }
    }
}

/// The store with the block `b` put in and made the newest.
pub open spec fn with_block(store: Map<Seq<u8>, Seq<u8>>, b: BlockModel) -> Map<
    Seq<u8>,
    Seq<u8>,
> {
    store.insert(key_of(b.hash), wire_block(b)).insert(tip_key(), encode_utf8(b.hash))
}

/// The number of pairs in a store of `size` pairs once the block `b` was put
/// in and made the newest.
pub open spec fn size_with_block(store: Map<Seq<u8>, Seq<u8>>, size: nat, b: BlockModel) -> nat {
    let with_entry = if store.contains_key(key_of(b.hash)) {
        size
    } else {
        size + 1
    };
    if store.contains_key(tip_key()) || key_of(b.hash) == tip_key() {
        with_entry
    } else {
        with_entry + 1
    }
}

/// The first block of a chain that pays the subsidy to `address`.
pub open spec fn genesis_model(address: Seq<char>, timestamp: u128) -> BlockModel {
    mined_block(
        timestamp,
        seq![coinbase_model(address, "GENESIS TRANSACTION"@).sealed()],
        Seq::empty(),
        TARGET_BITS,
    )
}

/// The outputs of a list of unspent outputs.
pub open spec fn outputs_of(s: Seq<UnspentModel>) -> Seq<OutputModel> {
    Seq::new(s.len(), |i: int| s[i].output)
}

/// A chain of blocks in a store.
#[derive(Debug, PartialEq, Eq)]
pub struct Blockchain {
    current_hash: String,
    db: BlockStore,
}

/// A walk over a chain, from its newest block back to its first.
pub struct BlockChainIter<'a> {
    current_hash: String,
    bc: &'a Blockchain,
    left: usize,
}

impl Blockchain {
    /// The hash of the newest block.
    pub closed spec fn tip(&self) -> Seq<char> {
        self.current_hash@
    }

    /// What the store holds.
    pub closed spec fn store(&self) -> Map<Seq<u8>, Seq<u8>> {
        self.db@
    }

    /// The number of pairs in the store: no walk is longer.
    pub closed spec fn fuel(&self) -> nat {
        self.db.size()
    }

    /// Whether the store names the newest block as the chain does.
    pub open spec fn wf(&self) -> bool {
        self.store().contains_key(tip_key()) && self.store()[tip_key()] == encode_utf8(self.tip())
    }

    /// The blocks of the chain, newest first.
    pub open spec fn blocks(&self) -> Seq<BlockModel> {
        chain_walk(self.store(), self.tip(), self.fuel())
    }

    /// The transactions of the chain, newest block first.
    pub open spec fn txs(&self) -> Seq<TxModel> {
        chain_txs(self.blocks())
    }

    /// The store holds at least as many pairs as a linked chain in it has
    /// blocks.
    pub proof fn lemma_fuel_covers(&self, chain: Seq<BlockModel>)
        requires
            linked(self.store(), self.tip(), chain),
        ensures
            chain.len() <= self.fuel(),
    {
        let keys = Seq::new(chain.len(), |i: int| key_of(chain[i].hash));
        assert forall|i: int, j: int| 0 <= i < keys.len() && 0 <= j < keys.len() && i != j implies keys[i]
            != keys[j] by {
            if keys[i] == keys[j] {
                lemma_utf8_injective(chain[i].hash, chain[j].hash);
                if i < j {
                    lemma_linked_distinct(self.store(), self.tip(), chain, i, j);
                } else {
                    lemma_linked_distinct(self.store(), self.tip(), chain, j, i);
                }
            }
        }
        assert forall|i: int| 0 <= i < keys.len() implies lookup(
            self.db.pairs(),
            #[trigger] keys[i],
        ) is Some by {
            assert(self.store().contains_key(key_of(chain[i].hash)));
        }
        lemma_present_keys_bound(self.db.pairs(), keys);
    }

    /// Opens the chain that `db` holds.
    pub fn new(db: BlockStore) -> (r: Result<Blockchain, ChainError>)
        ensures
            match r {
                Ok(bc) => {
                    &&& db@.contains_key(tip_key())
                    &&& valid_utf8(db@[tip_key()])
                    &&& bc.wf()
                    &&& bc.store() == db@
                    &&& bc.fuel() == db.size()
                    &&& bc.tip() == decode_utf8(db@[tip_key()])
                },
                Err(e) => if db@.contains_key(tip_key()) {
                    e == ChainError::Encoding && !valid_utf8(db@[tip_key()])
                } else {
                    e == ChainError::MissingChain
                },
            },
    {
        let bytes = match db.get("LAST".as_bytes()) {
            Some(b) => b,
            None => { return Err(ChainError::MissingChain); },
        };
        let ghost raw = bytes@;
        match text_from_utf8(bytes) {
            Some(hash) => {
                proof {
                    decode_utf8_encode_utf8(raw);
                }
                Ok(Blockchain { current_hash: hash, db })
            },
            None => Err(ChainError::Encoding),
        }
    }

    /// Opens the chain that `db` holds. Where `db` holds none, starts one
    /// with a first block made at `timestamp` that pays the subsidy to
    /// `address`.
    pub fn create_blockchain(db: BlockStore, address: String, timestamp: u128) -> (r: Result<
        Blockchain,
        ChainError,
    >)
        ensures
            db@.contains_key(tip_key()) ==> match r {
                Ok(bc) => {
                    &&& valid_utf8(db@[tip_key()])
                    &&& bc.wf()
                    &&& bc.store() == db@
                    &&& bc.fuel() == db.size()
                    &&& bc.tip() == decode_utf8(db@[tip_key()])
                },
                Err(e) => e == ChainError::Encoding && !valid_utf8(db@[tip_key()]),
            },
            !db@.contains_key(tip_key()) ==> match r {
                Ok(bc) => {
                    &&& minable(
                        Seq::empty(),
                        seq![coinbase_model(address@, "GENESIS TRANSACTION"@).sealed()],
                        timestamp,
                        TARGET_BITS,
                        u64::MAX,
                    )
                    &&& bc.wf()
                    &&& bc.store() == with_block(db@, genesis_model(address@, timestamp))
                    &&& bc.fuel() == size_with_block(
                        db@,
                        db.size(),
                        genesis_model(address@, timestamp),
                    )
                    &&& bc.tip() == genesis_model(address@, timestamp).hash
                    &&& genesis_model(address@, timestamp).mined(TARGET_BITS)
                    &&& genesis_model(address@, timestamp).hash.len() == 64
                    &&& genesis_model(address@, timestamp).fits()
                },
                Err(e) => {
                    &&& e == ChainError::NonceExhausted
                    &&& !minable(
                        Seq::empty(),
                        seq![coinbase_model(address@, "GENESIS TRANSACTION"@).sealed()],
                        timestamp,
                        TARGET_BITS,
                        u64::MAX,
                    )
                },
            },
    {
        if db.get("LAST".as_bytes()).is_some() {
            return Blockchain::new(db);
        }
        let cbtx = match Transaction::new_coinbase(address, String::from_str("GENESIS TRANSACTION")) {
            Ok(t) => t,
            Err(e) => { return Err(e); },
        };
        let genesis = match Block::new_genesis_block(timestamp, cbtx) {
            Ok(b) => b,
            Err(e) => { return Err(e); },
        };
        let mut db = db;
        let hash = genesis.get_hash();
        db.insert(hash.as_str().as_bytes_vec(), genesis.serialize());
        db.insert("LAST".as_bytes_vec(), hash.as_str().as_bytes_vec());
        Ok(Blockchain { current_hash: hash, db })
    }

    /// Puts `block` into the store and makes it the newest block.
    pub fn append(&mut self, block: Block)
        requires
            block@.prev_block_hash == old(self).tip(),
        ensures
            final(self).wf(),
            final(self).store() == with_block(old(self).store(), block@),
            final(self).fuel() == size_with_block(old(self).store(), old(self).fuel(), block@),
            final(self).tip() == block@.hash,
            block@.fits(),
    {
        let hash = block.get_hash();
        self.db.insert(hash.as_str().as_bytes_vec(), block.serialize());
        self.db.insert("LAST".as_bytes_vec(), hash.as_str().as_bytes_vec());
        self.current_hash = hash;
    }

    /// Mines a block at `timestamp` that holds `transactions`, behind the
    /// newest block, and appends it.
    pub fn add_block(&mut self, transactions: Vec<Transaction>, timestamp: u128) -> (r: Result<
        (),
        ChainError,
    >)
        ensures
            match r {
                Ok(_) => {
                    let b = mined_block(
                        timestamp,
                        tx_models(transactions@),
                        old(self).tip(),
                        TARGET_BITS,
                    );
                    &&& final(self).wf()
                    &&& final(self).store() == with_block(old(self).store(), b)
                    &&& final(self).fuel() == size_with_block(
                        old(self).store(),
                        old(self).fuel(),
                        b,
                    )
                    &&& final(self).tip() == b.hash
                    &&& b.mined(TARGET_BITS)
                    &&& b.hash.len() == 64
                    &&& b.fits()
                },
                Err(e) => {
                    &&& e == ChainError::NonceExhausted
                    &&& *final(self) == *old(self)
                },
            },
            r is Ok <==> minable(
                old(self).tip(),
                tx_models(transactions@),
                timestamp,
                TARGET_BITS,
                u64::MAX,
            ),
    {
        let prev = self.current_hash.clone();
        match Block::new_block(timestamp, transactions, prev, TARGET_BITS) {
            Ok(block) => {
                self.append(block);
                Ok(())
            },
            Err(e) => Err(e),
        }
    }

    /// Pays `amount` from `from` to `to`: makes the transaction, mines a
    /// block at `timestamp` that holds it, and appends the block. Where the
    /// funds of `from` do not suffice, the chain stays as it is.
    pub fn send(&mut self, from: &str, to: &str, amount: i32, timestamp: u128) -> (r: Result<
        (),
        ChainError,
    >)
        requires
            amount >= 0,
        ensures
            r is Ok <==> chosen_total(old(self).txs(), from@, amount) >= amount && minable(
                old(self).tip(),
                seq![spend_model(old(self).txs(), from@, to@, amount)],
                timestamp,
                TARGET_BITS,
                u64::MAX,
            ),
            match r {
                Ok(_) => {
                    let b = mined_block(
                        timestamp,
                        seq![spend_model(old(self).txs(), from@, to@, amount)],
                        old(self).tip(),
                        TARGET_BITS,
                    );
                    &&& chosen_total(old(self).txs(), from@, amount) >= amount
                    &&& final(self).wf()
                    &&& final(self).store() == with_block(old(self).store(), b)
                    &&& final(self).fuel() == size_with_block(
                        old(self).store(),
                        old(self).fuel(),
                        b,
                    )
                    &&& final(self).tip() == b.hash
                    &&& b.mined(TARGET_BITS)
                    &&& b.hash.len() == 64
                    &&& b.fits()
                },
                Err(e) => {
                    &&& *final(self) == *old(self)
                    &&& if chosen_total(old(self).txs(), from@, amount) < amount {
                        e == (ChainError::InsufficientBalance {
                            available: chosen_total(old(self).txs(), from@, amount) as i128,
                        })
                    } else {
                        e == ChainError::NonceExhausted
                    }
                },
            },
    {
        let tx = match Transaction::new_UTXO(from, to, amount, self) {
            Ok(t) => t,
            Err(e) => { return Err(e); },
        };
        let mut transactions: Vec<Transaction> = Vec::new();
        transactions.push(tx);
        assert(tx_models(transactions@) =~= seq![tx@]);
        self.add_block(transactions, timestamp)
    }

    /// The store of the chain.
    pub fn get_db(&self) -> (db: &BlockStore)
        ensures
            db@ == self.store(),
            db.size() == self.fuel(),
    {
        &self.db
    }

    /// The hash of the newest block.
    pub fn get_tip(&self) -> (hash: String)
        ensures
            hash@ == self.tip(),
    {
        self.current_hash.clone()
    }

    /// A walk over the chain that starts at its newest block.
    pub fn iter(&self) -> (it: BlockChainIter<'_>)
        ensures
            it.remaining() == self.blocks(),
            it.chain() == *self,
    {
        BlockChainIter { current_hash: self.current_hash.clone(), bc: self, left: self.db.len() }
    }

    /// The blocks of the chain, newest first.
    pub fn get_blocks(&self) -> (r: Vec<Block>)
        ensures
            block_models(r@) == self.blocks(),
    {
        let mut r: Vec<Block> = Vec::new();
        let mut it = self.iter();
        assert(block_models(r@) =~= Seq::<BlockModel>::empty());
        loop
            invariant
                block_models(r@) + it.remaining() == self.blocks(),
            ensures
                block_models(r@) == self.blocks(),
            decreases it.remaining().len(),
        {
            let ghost before = block_models(r@);
            let ghost rest = it.remaining();
            match it.next() {
                Some(block) => {
                    r.push(block);
                    proof {
                        assert(block_models(r@) =~= before.push(rest[0]));
                        assert(before.push(rest[0]) + rest.skip(1) =~= before + rest);
                    }
                },
                None => {
                    assert(before + rest =~= before);
                    break ;
                },
            }
        }
        r
    }

    /// The outputs that `address` can still spend, each with the
    /// transaction that holds it, in the order of the walk.
    pub fn find_unspent_transactions(&self, address: &str) -> (r: Vec<UnspentOutput>)
        ensures
            unspent_models(r@) == unspent_outputs(self.txs(), address@),
    {
        let mut spent = OutputRefs::new();
        let mut unspent: Vec<UnspentOutput> = Vec::new();
        let mut it = self.iter();
        let ghost mut seen: Seq<BlockModel> = Seq::empty();
        proof {
            assert(unspent_models(unspent@) =~= Seq::<UnspentModel>::empty());
            assert(seen + it.remaining() =~= self.blocks());
        }
        loop
            invariant
                seen + it.remaining() == self.blocks(),
                tracks_spent(spent@, chain_txs(seen), address@),
                unspent_models(unspent@) == unspent_outputs(chain_txs(seen), address@),
            ensures
                unspent_models(unspent@) == unspent_outputs(self.txs(), address@),
            decreases it.remaining().len(),
        {
            let ghost rest = it.remaining();
            match it.next() {
                Some(block) => {
                    let txs = block.get_transactions();
                    let ghost base = chain_txs(seen);
                    let ghost models = tx_models(txs@);
                    let mut t: usize = 0;
                    assert(base + models.take(0) =~= base);
                    while t < txs.len()
                        invariant
                            t <= txs@.len(),
                            models == tx_models(txs@),
                            tracks_spent(spent@, base + models.take(t as int), address@),
                            unspent_models(unspent@) == unspent_outputs(
                                base + models.take(t as int),
                                address@,
                            ),
                        decreases txs@.len() - t,
                    {
                        scan_transaction(
                            &txs[t],
                            address,
                            &mut spent,
                            &mut unspent,
                            Ghost(base + models.take(t as int)),
                        );
                        proof {
                            assert((base + models.take(t as int)).push(models[t as int]) =~= base
                                + models.take(t + 1));
                        }
                        t += 1;
                    }
                    proof {
                        assert(models.take(t as int) =~= models);
                        let grown = seen.push(block@);
                        assert(grown.drop_last() =~= seen);
                        assert(chain_txs(grown) == base + models);
                        assert(grown + rest.skip(1) =~= seen + rest);
                        seen = grown;
                    }
                },
                None => {
                    assert(seen + rest =~= seen);
                    break ;
                },
            }
        }
        unspent
    }

    /// The outputs that `address` can still spend.
    #[allow(non_snake_case)]
    pub fn find_UTXO(&self, address: &str) -> (r: Vec<TXOutput>)
        ensures
            output_models(r@) == outputs_of(unspent_outputs(self.txs(), address@)),
    {
        let unspent = self.find_unspent_transactions(address);
        let ghost models = unspent_models(unspent@);
        let mut r: Vec<TXOutput> = Vec::new();
        let mut i: usize = 0;
        while i < unspent.len()
            invariant
                i <= unspent@.len(),
                models == unspent_models(unspent@),
                r@.len() == i,
                forall|j: int| 0 <= j < i ==> (#[trigger] r@[j])@ == models[j].output,
            decreases unspent@.len() - i,
        {
            r.push(unspent[i].output.clone());
            i += 1;
        }
        assert(output_models(r@) =~= outputs_of(models));
        r
    }

    /// What `address` can still spend.
    pub fn get_balance(&self, address: &str) -> (total: i128)
        ensures
            total == balance(self.txs(), address@),
    {
        let unspent = self.find_unspent_transactions(address);
        sum_values(&unspent)
    }

    /// Chooses the outputs with which `address` funds `amount`, first come,
    /// first taken; gives what they come to, and the references to them.
    /// A total below `amount` says that the funds do not suffice.
    pub fn find_unspent_outputs(&self, address: &str, amount: i32) -> (r: (i128, OutputRefs))
        ensures
            r.0 == total_value(selected(unspent_outputs(self.txs(), address@), amount as int)),
            r.1@ == refs_of(selected(unspent_outputs(self.txs(), address@), amount as int)),
    {
        let unspent = self.find_unspent_transactions(address);
        select_outputs(&unspent, amount)
    }
}

/// What a list of blocks holds.
pub open spec fn block_models(v: Seq<Block>) -> Seq<BlockModel> {
    Seq::new(v.len(), |i: int| v[i]@)
}

impl<'a> BlockChainIter<'a> {
    /// The blocks that the walk has yet to give.
    pub closed spec fn remaining(&self) -> Seq<BlockModel> {
        chain_walk(self.bc.store(), self.current_hash@, self.left as nat)
    }

    /// The chain that is walked.
    pub closed spec fn chain(&self) -> Blockchain {
        *self.bc
    }

    /// The next block of the walk: one lookup in the store, and one block
    /// read from what was found.
    pub fn next(&mut self) -> (r: Option<Block>)
        ensures
            final(self).chain() == old(self).chain(),
            match r {
                Some(b) => {
                    &&& old(self).remaining().len() > 0
                    &&& b@ == old(self).remaining()[0]
                    &&& final(self).remaining() == old(self).remaining().skip(1)
                },
                None => old(self).remaining().len() == 0 && final(self).remaining().len() == 0,
            },
    {
        if self.left == 0 || self.current_hash.as_str().is_empty() {
            return None;
        }
        let bytes = match self.bc.db.get(self.current_hash.as_str().as_bytes()) {
            Some(b) => b,
            None => { return None; },
        };
        let block = match Block::deserialize(bytes.as_slice()) {
            Ok(b) => b,
            Err(_) => { return None; },
        };
        self.current_hash = block.get_prev_hash();
        self.left = self.left - 1;
        assert(old(self).remaining().skip(1) =~= self.remaining());
        Some(block)
    }
}

} // verus!
