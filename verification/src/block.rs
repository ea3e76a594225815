//! Blocks, their stored layout, and the proof-of-work search that makes them.

use vstd::prelude::*;
use vstd::string::*;
use crate::digest::{
    digest_meets_target, hex_of, lemma_hex_fits, meets_target, sha256, sha256_of, to_hex,
};
use crate::error::ChainError;
use crate::layout::{
    lemma_txs_canonical, lemma_txs_round_trip, parse_txs, put_txs, take_txs, wire_txs,
};
use crate::text::same_text;
use crate::transaction::{clone_transactions, tx_models, Transaction, TxModel};
use crate::wire::{
    lemma_text_canonical, lemma_text_round_trip, lemma_u128_canonical, lemma_u128_round_trip,
    lemma_u64_canonical, lemma_u64_round_trip, parse_text, parse_u128, parse_u64, put_text,
    put_u128, put_u64, rest_of, take_text, take_u128, take_u64, text_fits, wire_text, wire_u128,
    wire_u64,
};

verus! {

/// The number of leading zero bits that the digest of a block must have.
pub const TARGET_BITS: u32 = 16;

/// What a block is.
pub struct BlockModel {
    pub timestamp: u128,
    pub transactions: Seq<TxModel>,
    pub prev_block_hash: Seq<char>,
    pub hash: Seq<char>,
    pub nonce: u64,
}

/// The bytes that are hashed for a block made at `timestamp` with the given
/// content, predecessor, difficulty and nonce.
pub open spec fn block_preimage(
    prev_block_hash: Seq<char>,
    transactions: Seq<TxModel>,
    timestamp: u128,
    target_bits: u32,
    nonce: u64,
) -> Seq<u8> {
    wire_text(prev_block_hash) + wire_txs(transactions) + wire_u128(timestamp) + wire_u64(
        target_bits as u64,
    ) + wire_u64(nonce)
}

/// Whether `nonce` gives such a block a digest below the target.
pub open spec fn nonce_accepted(
    prev_block_hash: Seq<char>,
    transactions: Seq<TxModel>,
    timestamp: u128,
    target_bits: u32,
    nonce: u64,
) -> bool {
    meets_target(
        sha256(block_preimage(prev_block_hash, transactions, timestamp, target_bits, nonce)),
        target_bits as nat,
    )
}

/// Whether `nonce` is the first that gives such a block a digest below the
/// target.
pub open spec fn first_accepted(
    prev_block_hash: Seq<char>,
    transactions: Seq<TxModel>,
    timestamp: u128,
    target_bits: u32,
    nonce: u64,
) -> bool {
    &&& nonce_accepted(prev_block_hash, transactions, timestamp, target_bits, nonce)
    &&& forall|m: u64|
        m < nonce ==> !nonce_accepted(prev_block_hash, transactions, timestamp, target_bits, m)
}

/// Whether some nonce up to `nonce_limit` gives such a block a digest below
/// the target.
pub open spec fn minable(
    prev_block_hash: Seq<char>,
    transactions: Seq<TxModel>,
    timestamp: u128,
    target_bits: u32,
    nonce_limit: u64,
) -> bool {
    exists|n: u64|
        n <= nonce_limit && nonce_accepted(
            prev_block_hash,
            transactions,
            timestamp,
            target_bits,
            n,
        )
}

/// The block that the search makes of the given content: it carries the
/// first accepted nonce and the digest that this nonce gives.
pub open spec fn mined_block(
    timestamp: u128,
    transactions: Seq<TxModel>,
    prev_block_hash: Seq<char>,
    target_bits: u32,
) -> BlockModel {
    let nonce = choose|n: u64|
        first_accepted(prev_block_hash, transactions, timestamp, target_bits, n);
    BlockModel {
        timestamp,
        transactions,
        prev_block_hash,
        hash: hex_of(
            sha256(block_preimage(prev_block_hash, transactions, timestamp, target_bits, nonce)),
        ),
        nonce,
    }
}

/// A block that was mined at a difficulty is the one block that the search
/// makes of its content.
pub proof fn lemma_mined_block_is_unique(b: BlockModel, target_bits: u32)
    requires
        b.mined(target_bits),
    ensures
        b == mined_block(b.timestamp, b.transactions, b.prev_block_hash, target_bits),
{
    assert(first_accepted(b.prev_block_hash, b.transactions, b.timestamp, target_bits, b.nonce));
    let n = choose|n: u64|
        first_accepted(b.prev_block_hash, b.transactions, b.timestamp, target_bits, n);
    assert(first_accepted(b.prev_block_hash, b.transactions, b.timestamp, target_bits, n));
    assert(n == b.nonce);
}

impl BlockModel {
    /// Whether the layout can hold the block.
    pub open spec fn fits(self) -> bool {
        &&& self.transactions.len() <= u64::MAX
        &&& forall|i: int|
            0 <= i < self.transactions.len() ==> (#[trigger] self.transactions[i]).fits()
        &&& text_fits(self.prev_block_hash)
        &&& text_fits(self.hash)
    }

    /// The digest of the block's content at difficulty `target_bits`.
    pub open spec fn digest(self, target_bits: u32) -> Seq<u8> {
        sha256(
            block_preimage(
                self.prev_block_hash,
                self.transactions,
                self.timestamp,
                target_bits,
                self.nonce,
            ),
        )
    }

    /// Whether the block carries a proof of work at difficulty
    /// `target_bits`: its hash is the digest of its content, and the digest
    /// lies below the target.
    pub open spec fn proves_work(self, target_bits: u32) -> bool {
        &&& self.hash == hex_of(self.digest(target_bits))
        &&& meets_target(self.digest(target_bits), target_bits as nat)
    }

    /// Whether the block was mined at difficulty `target_bits`: it proves
    /// its work, and no smaller nonce would have.
    pub open spec fn mined(self, target_bits: u32) -> bool {
        &&& self.proves_work(target_bits)
        &&& forall|m: u64|
            m < self.nonce ==> !nonce_accepted(
                self.prev_block_hash,
                self.transactions,
                self.timestamp,
                target_bits,
                m,
            )
    }
}

/// The stored layout of a block.
pub open spec fn wire_block(b: BlockModel) -> Seq<u8> {
    wire_u128(b.timestamp) + wire_txs(b.transactions) + wire_text(b.prev_block_hash) + wire_text(
        b.hash,
    ) + wire_u64(b.nonce)
}

/// Reads one block from the front of `s`.
pub open spec fn parse_block(s: Seq<u8>) -> Option<(BlockModel, Seq<u8>)> {
    match parse_u128(s) {
        Some((timestamp, s1)) => match parse_txs(s1) {
            Some((transactions, s2)) => match parse_text(s2) {
                Some((prev_block_hash, s3)) => match parse_text(s3) {
                    Some((hash, s4)) => match parse_u64(s4) {
                        Some((nonce, s5)) => Some(
                            (
                                BlockModel { timestamp, transactions, prev_block_hash, hash, nonce },
                                s5,
                            ),
                        ),
                        None => None,
                    },
                    None => None,
                },
                None => None,
            },
            None => None,
        },
        None => None,
    }
}

/// The block that `s` is the stored layout of, if it is one: `s` holds one
/// block and nothing behind it.
pub open spec fn decode_block(s: Seq<u8>) -> Option<BlockModel> {
    match parse_block(s) {
        Some((b, rest)) => if rest.len() == 0 {
            Some(b)
        } else {
            None
        },
        None => None,
    }
}

/// A block that is laid out and read back is the same block.
pub proof fn lemma_block_round_trip(b: BlockModel)
    requires
        b.fits(),
    ensures
        decode_block(wire_block(b)) == Some(b),
{
    let s4 = wire_u64(b.nonce);
    let s3 = wire_text(b.hash) + s4;
    let s2 = wire_text(b.prev_block_hash) + s3;
    let s1 = wire_txs(b.transactions) + s2;
    assert(wire_block(b) =~= wire_u128(b.timestamp) + s1);
    lemma_u128_round_trip(b.timestamp, s1);
    lemma_txs_round_trip(b.transactions, s2);
    lemma_text_round_trip(b.prev_block_hash, s3);
    lemma_text_round_trip(b.hash, s4);
    lemma_u64_round_trip(b.nonce, Seq::empty());
    assert(s4 + Seq::<u8>::empty() =~= s4);
}

/// A block has one stored layout: bytes that are read as a block are the
/// layout of that block.
pub proof fn lemma_block_canonical(s: Seq<u8>)
    requires
        decode_block(s) is Some,
    ensures
        s == wire_block(decode_block(s)->0),
        (decode_block(s)->0).fits(),
{
    lemma_u128_canonical(s);
    let s1 = rest_of(parse_u128(s));
    lemma_txs_canonical(s1);
    let s2 = rest_of(parse_txs(s1));
    lemma_text_canonical(s2);
    let s3 = rest_of(parse_text(s2));
    lemma_text_canonical(s3);
    let s4 = rest_of(parse_text(s3));
    lemma_u64_canonical(s4);
    let s5 = rest_of(parse_u64(s4));
    assert(s5 =~= Seq::<u8>::empty());
    assert(s =~= wire_block(decode_block(s)->0));
}

/// One unit of the ledger: transactions, the hash of the block before, and
/// the nonce and hash that the proof-of-work search found.
#[derive(Debug, PartialEq, Eq)]
pub struct Block {
    timestamp: u128,
    transactions: Vec<Transaction>,
    prev_block_hash: String,
    hash: String,
    nonce: u64,
}

impl View for Block {
    type V = BlockModel;

    closed spec fn view(&self) -> BlockModel {
        BlockModel {
            timestamp: self.timestamp,
            transactions: tx_models(self.transactions@),
            prev_block_hash: self.prev_block_hash@,
            hash: self.hash@,
            nonce: self.nonce,
        }
    }
}

impl Clone for Block {
    fn clone(&self) -> (r: Self)
        ensures
            r@ == self@,
    {
        Block {
            timestamp: self.timestamp,
            transactions: clone_transactions(&self.transactions),
            prev_block_hash: self.prev_block_hash.clone(),
            hash: self.hash.clone(),
            nonce: self.nonce,
        }
    }
}

impl Block {
    /// The hash of the block.
    pub fn get_hash(&self) -> (r: String)
        ensures
            r@ == self@.hash,
    {
        self.hash.clone()
    }

    /// The hash of the block before, empty for a first block.
    pub fn get_prev_hash(&self) -> (r: String)
        ensures
            r@ == self@.prev_block_hash,
    {
        self.prev_block_hash.clone()
    }

    /// The transactions of the block.
    pub fn get_transactions(&self) -> (r: &Vec<Transaction>)
        ensures
            tx_models(r@) == self@.transactions,
    {
        &self.transactions
    }

    /// The time at which the block was made.
    pub fn get_timestamp(&self) -> (r: u128)
        ensures
            r == self@.timestamp,
    {
        self.timestamp
    }

    /// The nonce that the search found.
    pub fn get_nonce(&self) -> (r: u64)
        ensures
            r == self@.nonce,
    {
        self.nonce
    }

    /// Searches the nonces from 0 to `nonce_limit` for the first one that
    /// gives the block a digest below the target, and makes the block with
    /// it. Fails where none of them does.
    pub fn mine(
        timestamp: u128,
        transactions: Vec<Transaction>,
        prev_block_hash: String,
        target_bits: u32,
        nonce_limit: u64,
    ) -> (r: Result<Block, ChainError>)
        requires
            target_bits <= 256,
        ensures
            r is Ok <==> minable(
                prev_block_hash@,
                tx_models(transactions@),
                timestamp,
                target_bits,
                nonce_limit,
            ),
            match r {
                Ok(b) => {
                    &&& b@ == mined_block(
                        timestamp,
                        tx_models(transactions@),
                        prev_block_hash@,
                        target_bits,
                    )
                    &&& b@.nonce <= nonce_limit
                    &&& b@.mined(target_bits)
                    &&& b@.hash.len() == 64
                    &&& b@.fits()
                },
                Err(e) => e == ChainError::NonceExhausted,
            },
    {
        let mut buf: Vec<u8> = Vec::new();
        put_text(&mut buf, prev_block_hash.as_str());
        put_txs(&mut buf, &transactions);
        put_u128(&mut buf, timestamp);
        put_u64(&mut buf, target_bits as u64);
        assert(tx_models(transactions@).len() == transactions@.len());
        let head_len = buf.len();
        let ghost head = buf@;
        let ghost txs = tx_models(transactions@);
        let mut nonce: u64 = 0;
        loop
            invariant
                target_bits <= 256,
                nonce <= nonce_limit,
                txs == tx_models(transactions@),
                txs.len() <= u64::MAX,
                forall|i: int| 0 <= i < txs.len() ==> (#[trigger] txs[i]).fits(),
                text_fits(prev_block_hash@),
                head_len == head.len(),
                head_len <= buf@.len(),
                buf@.subrange(0, head_len as int) == head,
                head == wire_text(prev_block_hash@) + wire_txs(txs) + wire_u128(timestamp)
                    + wire_u64(target_bits as u64),
                forall|m: u64|
                    m < nonce ==> !nonce_accepted(
                        prev_block_hash@,
                        txs,
                        timestamp,
                        target_bits,
                        m,
                    ),
            decreases nonce_limit - nonce,
        {
            buf.truncate(head_len);
            put_u64(&mut buf, nonce);
            assert(buf@ =~= block_preimage(prev_block_hash@, txs, timestamp, target_bits, nonce));
            let d = sha256_of(buf.as_slice());
            if digest_meets_target(d.as_slice(), target_bits) {
                let hash = to_hex(d.as_slice());
                let b = Block { timestamp, transactions, prev_block_hash, hash, nonce };
                proof {
                    assert(nonce_accepted(prev_block_hash@, txs, timestamp, target_bits, nonce));
                    lemma_mined_block_is_unique(b@, target_bits);
                    lemma_hex_fits(d@);
                }
                return Ok(b);
            }
            if nonce == nonce_limit {
                return Err(ChainError::NonceExhausted);
            }
            nonce += 1;
            assert(buf@.subrange(0, head_len as int) =~= head);
        }
    }

    /// Mines a block at `timestamp` behind the block with hash
    /// `prev_block_hash`, over the whole range of nonces.
    pub fn new_block(
        timestamp: u128,
        transactions: Vec<Transaction>,
        prev_block_hash: String,
        target_bits: u32,
    ) -> (r: Result<Block, ChainError>)
        requires
            target_bits <= 256,
        ensures
            match r {
                Ok(b) => {
                    &&& b@ == mined_block(
                        timestamp,
                        tx_models(transactions@),
                        prev_block_hash@,
                        target_bits,
                    )
                    &&& b@.mined(target_bits)
                    &&& b@.hash.len() == 64
                    &&& b@.fits()
                },
                Err(e) => e == ChainError::NonceExhausted,
            },
            r is Ok <==> minable(
                prev_block_hash@,
                tx_models(transactions@),
                timestamp,
                target_bits,
                u64::MAX,
            ),
    {
        Block::mine(timestamp, transactions, prev_block_hash, target_bits, u64::MAX)
    }

    /// Mines the first block of a chain: it holds `coinbase` alone and has
    /// no predecessor.
    pub fn new_genesis_block(timestamp: u128, coinbase: Transaction) -> (r: Result<
        Block,
        ChainError,
    >)
        ensures
            match r {
                Ok(b) => {
                    &&& b@ == mined_block(timestamp, seq![coinbase@], Seq::empty(), TARGET_BITS)
                    &&& b@.mined(TARGET_BITS)
                    &&& b@.hash.len() == 64
                    &&& b@.fits()
                },
                Err(e) => e == ChainError::NonceExhausted,
            },
            r is Ok <==> minable(Seq::empty(), seq![coinbase@], timestamp, TARGET_BITS, u64::MAX),
    {
        let mut transactions: Vec<Transaction> = Vec::new();
        transactions.push(coinbase);
        assert(tx_models(transactions@) =~= seq![coinbase@]);
        let prev = String::new();
        assert(prev@ =~= Seq::<char>::empty());
        Block::new_block(timestamp, transactions, prev, TARGET_BITS)
    }

    /// Whether the block carries a proof of work at difficulty
    /// `target_bits`.
    pub fn validate(&self, target_bits: u32) -> (ok: bool)
        requires
            target_bits <= 256,
        ensures
            ok == self@.proves_work(target_bits),
    {
        let mut buf: Vec<u8> = Vec::new();
        put_text(&mut buf, self.prev_block_hash.as_str());
        put_txs(&mut buf, &self.transactions);
        put_u128(&mut buf, self.timestamp);
        put_u64(&mut buf, target_bits as u64);
        put_u64(&mut buf, self.nonce);
        assert(buf@ =~= block_preimage(
            self@.prev_block_hash,
            self@.transactions,
            self@.timestamp,
            target_bits,
            self@.nonce,
        ));
        let d = sha256_of(buf.as_slice());
        let hash = to_hex(d.as_slice());
        same_text(hash.as_str(), self.hash.as_str()) && digest_meets_target(
            d.as_slice(),
            target_bits,
        )
    }

    /// The stored layout of the block.
    pub fn serialize(&self) -> (bytes: Vec<u8>)
        ensures
            bytes@ == wire_block(self@),
            self@.fits(),
    {
        let mut out: Vec<u8> = Vec::new();
        put_u128(&mut out, self.timestamp);
        put_txs(&mut out, &self.transactions);
        put_text(&mut out, self.prev_block_hash.as_str());
        put_text(&mut out, self.hash.as_str());
        put_u64(&mut out, self.nonce);
        assert(out@ =~= wire_block(self@));
        out
    }

    /// The block that `bytes` is the stored layout of.
    pub fn deserialize(bytes: &[u8]) -> (r: Result<Block, ChainError>)
        ensures
            match r {
                Ok(b) => decode_block(bytes@) == Some(b@) && bytes@ == wire_block(b@),
                Err(e) => e == ChainError::Serialization && decode_block(bytes@) is None,
            },
    {
        assert(bytes@.skip(0) =~= bytes@);
        proof {
            if decode_block(bytes@) is Some {
                lemma_block_canonical(bytes@);
            }
        }
        let (timestamp, at1) = match take_u128(bytes, 0) {
            Some(x) => x,
            None => { return Err(ChainError::Serialization); },
        };
        let (transactions, at2) = match take_txs(bytes, at1) {
            Some(x) => x,
            None => { return Err(ChainError::Serialization); },
        };
        let (prev_block_hash, at3) = match take_text(bytes, at2) {
            Some(x) => x,
            None => { return Err(ChainError::Serialization); },
        };
        let (hash, at4) = match take_text(bytes, at3) {
            Some(x) => x,
            None => { return Err(ChainError::Serialization); },
        };
        let (nonce, at5) = match take_u64(bytes, at4) {
            Some(x) => x,
            None => { return Err(ChainError::Serialization); },
        };
        if at5 != bytes.len() {
            return Err(ChainError::Serialization);
        }
        Ok(Block { timestamp, transactions, prev_block_hash, hash, nonce })
    }
}

} // verus!
