//! Tamper evidence: what a proof of work says of a block whose content was
//! changed.

use vstd::prelude::*;
use crate::block::{block_preimage, decode_block, lemma_block_canonical, wire_block, BlockModel};
use crate::digest::{hex_digit, hex_of, sha256};
use crate::layout::{lemma_txs_round_trip, parse_txs, wire_txs};
use crate::transaction::TxModel;
use crate::wire::{
    lemma_text_round_trip, lemma_u128_round_trip, lemma_u64_round_trip, parse_text, parse_u128,
    parse_u64, text_fits, wire_text, wire_u128, wire_u64,
};

verus! {

/// Byte strings with the same hexadecimal form are the same.
pub proof fn lemma_hex_injective(a: Seq<u8>, b: Seq<u8>)
    requires
        hex_of(a) == hex_of(b),
    ensures
        a == b,
{
    assert(hex_of(a).len() == 2 * a.len());
    assert(hex_of(b).len() == 2 * b.len());
    assert forall|x: int, y: int| 0 <= x < 16 && 0 <= y < 16 && hex_digit(x) == hex_digit(y) implies x
        == y by {}
    assert forall|k: int| 0 <= k < a.len() implies a[k] == b[k] by {
        assert(hex_of(a)[2 * k] == hex_of(b)[2 * k]);
        assert(hex_of(a)[2 * k + 1] == hex_of(b)[2 * k + 1]);
        assert(hex_of(a)[2 * k] == hex_digit(a[k] as int / 16));
        assert(hex_of(b)[2 * k] == hex_digit(b[k] as int / 16));
        assert(hex_of(a)[2 * k + 1] == hex_digit(a[k] as int % 16));
        assert(hex_of(b)[2 * k + 1] == hex_digit(b[k] as int % 16));
    }
    assert(a =~= b);
}

/// What is hashed for a block tells its content: different contents are
/// hashed from different bytes.
pub proof fn lemma_preimage_injective(
    prev1: Seq<char>,
    txs1: Seq<TxModel>,
    timestamp1: u128,
    bits1: u32,
    nonce1: u64,
    prev2: Seq<char>,
    txs2: Seq<TxModel>,
    timestamp2: u128,
    bits2: u32,
    nonce2: u64,
)
    requires
        text_fits(prev1),
        text_fits(prev2),
        txs1.len() <= u64::MAX,
        txs2.len() <= u64::MAX,
        forall|i: int| 0 <= i < txs1.len() ==> (#[trigger] txs1[i]).fits(),
        forall|i: int| 0 <= i < txs2.len() ==> (#[trigger] txs2[i]).fits(),
        block_preimage(prev1, txs1, timestamp1, bits1, nonce1) == block_preimage(
            prev2,
            txs2,
            timestamp2,
            bits2,
            nonce2,
        ),
    ensures
        prev1 == prev2,
        txs1 == txs2,
        timestamp1 == timestamp2,
        bits1 == bits2,
        nonce1 == nonce2,
{
    let s = block_preimage(prev1, txs1, timestamp1, bits1, nonce1);
    let a4 = wire_u64(nonce1);
    let a3 = wire_u64(bits1 as u64) + a4;
    let a2 = wire_u128(timestamp1) + a3;
    let a1 = wire_txs(txs1) + a2;
    let b4 = wire_u64(nonce2);
    let b3 = wire_u64(bits2 as u64) + b4;
    let b2 = wire_u128(timestamp2) + b3;
    let b1 = wire_txs(txs2) + b2;
    assert(s =~= wire_text(prev1) + a1);
    assert(s =~= wire_text(prev2) + b1);
    lemma_text_round_trip(prev1, a1);
    lemma_text_round_trip(prev2, b1);
    assert(parse_text(s) == Some((prev1, a1)));
    assert(parse_text(s) == Some((prev2, b1)));
    lemma_txs_round_trip(txs1, a2);
    lemma_txs_round_trip(txs2, b2);
    assert(parse_txs(a1) == Some((txs1, a2)));
    assert(parse_txs(b1) == Some((txs2, b2)));
    lemma_u128_round_trip(timestamp1, a3);
    lemma_u128_round_trip(timestamp2, b3);
    assert(parse_u128(a2) == Some((timestamp1, a3)));
    assert(parse_u128(b2) == Some((timestamp2, b3)));
    lemma_u64_round_trip(bits1 as u64, a4);
    lemma_u64_round_trip(bits2 as u64, b4);
    assert(parse_u64(a3) == Some((bits1 as u64, a4)));
    assert(parse_u64(b3) == Some((bits2 as u64, b4)));
    lemma_u64_round_trip(nonce1, Seq::empty());
    lemma_u64_round_trip(nonce2, Seq::empty());
    assert(a4 + Seq::<u8>::empty() =~= a4);
    assert(b4 + Seq::<u8>::empty() =~= b4);
}

/// Bytes other than the stored layout of a block are no block, or another
/// block.
pub proof fn lemma_changed_bytes_show(b: BlockModel, changed: Seq<u8>)
    requires
        changed != wire_block(b),
    ensures
        decode_block(changed) != Some(b),
{
    if decode_block(changed) is Some {
        lemma_block_canonical(changed);
    }
}

/// A block that proves its work does so no longer once its stored hash
/// alone is changed.
pub proof fn lemma_changed_hash_shows(b: BlockModel, c: BlockModel, target_bits: u32)
    requires
        b.proves_work(target_bits),
        c.timestamp == b.timestamp,
        c.transactions == b.transactions,
        c.prev_block_hash == b.prev_block_hash,
        c.nonce == b.nonce,
        c.hash != b.hash,
    ensures
        !c.proves_work(target_bits),
{
}

/// Two blocks that prove their work with the same hash have the same
/// content, unless two different byte strings have the same SHA-256 digest:
/// a block whose content is changed while its hash is kept proves its work
/// no longer, short of such a collision.
pub proof fn lemma_changed_content_shows(b: BlockModel, c: BlockModel, target_bits: u32)
    requires
        b.fits(),
        c.fits(),
        b.proves_work(target_bits),
        c.proves_work(target_bits),
        b.hash == c.hash,
    ensures
        b == c || ({
            let x = block_preimage(
                b.prev_block_hash,
                b.transactions,
                b.timestamp,
                target_bits,
                b.nonce,
            );
            let y = block_preimage(
                c.prev_block_hash,
                c.transactions,
                c.timestamp,
                target_bits,
                c.nonce,
            );
            x != y && sha256(x) == sha256(y)
        }),
{
    let x = block_preimage(b.prev_block_hash, b.transactions, b.timestamp, target_bits, b.nonce);
    let y = block_preimage(c.prev_block_hash, c.transactions, c.timestamp, target_bits, c.nonce);
    lemma_hex_injective(sha256(x), sha256(y));
    if x == y {
        lemma_preimage_injective(
            b.prev_block_hash,
            b.transactions,
            b.timestamp,
            target_bits,
            b.nonce,
            c.prev_block_hash,
            c.transactions,
            c.timestamp,
            target_bits,
            c.nonce,
        );
    }
}

} // verus!
