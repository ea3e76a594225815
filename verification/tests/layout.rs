use blockchain_demo::block::Block;
use blockchain_demo::digest::{digest_meets_target, sha256_hex, to_hex};
use blockchain_demo::error::ChainError;
use blockchain_demo::refs::OutputRefs;
use blockchain_demo::store::BlockStore;
use blockchain_demo::transaction::Transaction;
use blockchain_demo::tx::{TXInput, TXOutput};
use blockchain_demo::utxo::{select_outputs, sum_values, UnspentOutput};

fn sample_tx(n: i32) -> Transaction {
    let mut tx = Transaction {
        id: String::new(),
        vin: vec![TXInput {
            txid: format!("tx{}", n),
            vout: n,
            script_sig: String::from("alice"),
        }],
        vout: vec![
            TXOutput { value: 7 * n, script_pub_key: String::from("b\u{f6}b") },
            TXOutput { value: -3, script_pub_key: String::new() },
        ],
    };
    tx.set_id();
    tx
}

fn held(txid: &str, vout: i32, value: i32) -> UnspentOutput {
    let output = TXOutput { value, script_pub_key: String::from("alice") };
    let tx = Transaction {
        id: String::from(txid),
        vin: Vec::new(),
        vout: vec![output.clone(), output.clone(), output.clone()],
    };
    UnspentOutput { tx, vout, output }
}

type PlainTx = (String, Vec<(String, i32, String)>, Vec<(i32, String)>);

fn plain(block: &Block) -> (u128, Vec<PlainTx>, String, String, u64) {
    let mut txs: Vec<PlainTx> = Vec::new();
    for t in block.get_transactions() {
        let vin = t.vin.iter().map(|i| (i.txid.clone(), i.vout, i.script_sig.clone())).collect();
        let vout = t.vout.iter().map(|o| (o.value, o.script_pub_key.clone())).collect();
        txs.push((t.id.clone(), vin, vout));
    }
    (block.get_timestamp(), txs, block.get_prev_hash(), block.get_hash(), block.get_nonce())
}

#[test]
fn a_block_without_transactions_round_trips() {
    let block = Block::mine(1, Vec::new(), String::from("prev"), 4, u64::MAX).unwrap();
    let bytes = block.serialize();
    assert_eq!(Block::deserialize(&bytes), Ok(block));
}

#[test]
fn a_block_with_one_transaction_round_trips() {
    let block = Block::mine(2, vec![sample_tx(1)], String::new(), 4, u64::MAX).unwrap();
    let bytes = block.serialize();
    let back = Block::deserialize(&bytes).unwrap();
    assert_eq!(back, block);
    assert_eq!(back.get_transactions()[0].vout[0].script_pub_key, "b\u{f6}b");
    assert_eq!(back.get_transactions()[0].vout[1].value, -3);
}

#[test]
fn a_block_with_several_transactions_round_trips() {
    let txs = vec![sample_tx(1), sample_tx(2), sample_tx(3)];
    let block = Block::mine(u128::MAX, txs, String::from("p"), 4, u64::MAX).unwrap();
    let bytes = block.serialize();
    assert_eq!(Block::deserialize(&bytes), Ok(block));
}

#[test]
fn the_layout_is_fields_in_order_with_little_endian_numbers() {
    let block = Block::mine(3, vec![sample_tx(1), sample_tx(2)], String::from("p"), 4, 1 << 20)
        .unwrap();
    let expected = bincode::serialize(&plain(&block)).unwrap();
    assert_eq!(block.serialize(), expected);
}

#[test]
fn the_layout_of_a_small_block_is_as_written_out() {
    let block = Block::mine(0x0102, Vec::new(), String::from("ab"), 0, 0).unwrap();
    let mut expected: Vec<u8> = Vec::new();
    expected.extend_from_slice(&[2, 1, 0, 0, 0, 0, 0, 0, 0, 0, 0, 0, 0, 0, 0, 0]);
    expected.extend_from_slice(&[0, 0, 0, 0, 0, 0, 0, 0]);
    expected.extend_from_slice(&[2, 0, 0, 0, 0, 0, 0, 0, b'a', b'b']);
    expected.extend_from_slice(&[64, 0, 0, 0, 0, 0, 0, 0]);
    expected.extend_from_slice(block.get_hash().as_bytes());
    expected.extend_from_slice(&[0, 0, 0, 0, 0, 0, 0, 0]);
    assert_eq!(block.serialize(), expected);
}

#[test]
fn bytes_that_are_no_block_are_refused() {
    let block = Block::mine(2, vec![sample_tx(1)], String::new(), 4, u64::MAX).unwrap();
    let bytes = block.serialize();
    assert_eq!(Block::deserialize(&[]), Err(ChainError::Serialization));
    assert_eq!(Block::deserialize(&bytes[..bytes.len() - 1]), Err(ChainError::Serialization));
    let mut longer = bytes.clone();
    longer.push(0);
    assert_eq!(Block::deserialize(&longer), Err(ChainError::Serialization));
    // a text that is not UTF-8: the first byte of the predecessor hash
    let block = Block::mine(2, Vec::new(), String::from("p"), 4, u64::MAX).unwrap();
    let mut bytes = block.serialize();
    assert_eq!(bytes[32], b'p');
    bytes[32] = 0xff;
    assert_eq!(Block::deserialize(&bytes), Err(ChainError::Serialization));
    // a count of transactions that the bytes do not hold
    let mut bytes = block.serialize();
    bytes[16] = 9;
    assert_eq!(Block::deserialize(&bytes), Err(ChainError::Serialization));
}

#[test]
fn a_changed_byte_breaks_the_proof_of_work() {
    let block = Block::mine(2, vec![sample_tx(1)], String::new(), 8, u64::MAX).unwrap();
    assert!(block.validate(8));
    let bytes = block.serialize();
    // the timestamp, a transaction, the stored hash and the nonce
    for at in [0usize, 40, bytes.len() - 20, bytes.len() - 1] {
        let mut changed = bytes.clone();
        changed[at] ^= 1;
        match Block::deserialize(&changed) {
            Ok(b) => assert!(!b.validate(8), "byte {}", at),
            Err(e) => assert_eq!(e, ChainError::Serialization),
        }
    }
}

#[test]
fn sha256_of_known_texts() {
    assert_eq!(
        sha256_hex(b"abc"),
        "ba7816bf8f01cfea414140de5dae2223b00361a396177a9cb410ff61f20015ad"
    );
    assert_eq!(
        sha256_hex(b""),
        "e3b0c44298fc1c149afbf4c8996fb92427ae41e4649b934ca495991b7852b855"
    );
}

#[test]
fn hex_is_lower_case_two_digits_a_byte() {
    assert_eq!(to_hex(&[]), "");
    assert_eq!(to_hex(&[0x00, 0x0f, 0xa5, 0xff, 0x10]), "000fa5ff10");
}

#[test]
fn the_target_is_a_power_of_two() {
    let mut d = [0u8; 32];
    assert!(digest_meets_target(&d, 256));
    assert!(digest_meets_target(&d, 0));
    d[31] = 1;
    assert!(!digest_meets_target(&d, 256));
    assert!(digest_meets_target(&d, 255));
    d[31] = 2;
    assert!(!digest_meets_target(&d, 255));
    assert!(digest_meets_target(&d, 254));
    let mut d = [0xffu8; 32];
    assert!(digest_meets_target(&d, 0));
    assert!(!digest_meets_target(&d, 1));
    d[0] = 0x7f;
    assert!(digest_meets_target(&d, 1));
    assert!(!digest_meets_target(&d, 2));
    d[0] = 0;
    d[1] = 0x1f;
    assert!(digest_meets_target(&d, 8));
    assert!(digest_meets_target(&d, 11));
    assert!(!digest_meets_target(&d, 12));
    d[1] = 0;
    d[2] = 0x80;
    assert!(digest_meets_target(&d, 16));
    assert!(!digest_meets_target(&d, 17));
}

#[test]
fn mining_finds_the_first_nonce_below_the_target() {
    let block = Block::mine(9, vec![sample_tx(4)], String::from("p"), 12, u64::MAX).unwrap();
    assert!(block.validate(12));
    assert!(block.get_hash().starts_with("000"));
    assert_eq!(block.get_hash().len(), 64);
    assert_eq!(block.get_prev_hash(), "p");
    assert_eq!(block.get_timestamp(), 9);
    // no smaller nonce is accepted: a search that stops before it fails
    let nonce = block.get_nonce();
    assert!(nonce > 0);
    assert_eq!(
        Block::mine(9, vec![sample_tx(4)], String::from("p"), 12, nonce - 1),
        Err(ChainError::NonceExhausted)
    );
    assert_eq!(Block::mine(9, vec![sample_tx(4)], String::from("p"), 12, nonce), Ok(block));
}

#[test]
fn mining_gives_up_at_the_limit() {
    assert_eq!(
        Block::mine(9, Vec::new(), String::new(), 256, 50),
        Err(ChainError::NonceExhausted)
    );
    let easy = Block::mine(9, Vec::new(), String::new(), 0, 0).unwrap();
    assert_eq!(easy.get_nonce(), 0);
    assert!(easy.validate(0));
}

#[test]
fn a_proof_of_work_holds_for_lower_targets_only_by_its_hash() {
    let block = Block::mine(9, Vec::new(), String::new(), 8, u64::MAX).unwrap();
    // the difficulty is part of what is hashed
    assert!(!block.validate(7));
}

#[test]
fn a_coinbase_pays_the_subsidy() {
    let tx = Transaction::new_coinbase(String::from("alice"), String::new()).unwrap();
    assert!(tx.is_coinbase());
    assert_eq!(tx.vin.len(), 1);
    assert_eq!(tx.vin[0].txid, "");
    assert_eq!(tx.vin[0].vout, -1);
    assert_eq!(tx.vin[0].script_sig, "Reward to 'alice'");
    assert_eq!(tx.vout.len(), 1);
    assert_eq!(tx.vout[0].value, 100);
    assert_eq!(tx.vout[0].script_pub_key, "alice");
    let tx = Transaction::new_coinbase(String::from("alice"), String::from("memo")).unwrap();
    assert_eq!(tx.vin[0].script_sig, "memo");
}

#[test]
fn a_coinbase_carries_the_digest_of_its_content() {
    let tx = Transaction::new_coinbase(String::from("al"), String::from("m")).unwrap();
    let mut bytes: Vec<u8> = Vec::new();
    bytes.extend_from_slice(&[0; 8]);
    bytes.extend_from_slice(&[1, 0, 0, 0, 0, 0, 0, 0]);
    bytes.extend_from_slice(&[0; 8]);
    bytes.extend_from_slice(&[0xff, 0xff, 0xff, 0xff]);
    bytes.extend_from_slice(&[1, 0, 0, 0, 0, 0, 0, 0, b'm']);
    bytes.extend_from_slice(&[1, 0, 0, 0, 0, 0, 0, 0]);
    bytes.extend_from_slice(&[100, 0, 0, 0]);
    bytes.extend_from_slice(&[2, 0, 0, 0, 0, 0, 0, 0, b'a', b'l']);
    assert_eq!(tx.id, sha256_hex(&bytes));
    assert_eq!(tx.id.len(), 64);
    assert!(tx.id.chars().all(|c| c.is_ascii_digit() || ('a'..='f').contains(&c)));
    let other = Transaction::new_coinbase(String::from("bo"), String::from("m")).unwrap();
    assert_ne!(other.id, tx.id);
    let same = Transaction::new_coinbase(String::from("al"), String::from("m")).unwrap();
    assert_eq!(same, tx);
}

#[test]
fn only_the_sentinel_input_makes_a_coinbase() {
    let mut tx = Transaction::new_coinbase(String::from("a"), String::new()).unwrap();
    tx.vin[0].vout = 0;
    assert!(!tx.is_coinbase());
    tx.vin[0].vout = -1;
    tx.vin[0].txid = String::from("x");
    assert!(!tx.is_coinbase());
    tx.vin[0].txid = String::new();
    assert!(tx.is_coinbase());
    tx.vin.push(tx.vin[0].clone());
    assert!(!tx.is_coinbase());
    tx.vin.clear();
    assert!(!tx.is_coinbase());
}

#[test]
fn the_identifier_is_the_digest_of_the_layout() {
    let mut tx = Transaction {
        id: String::new(),
        vin: Vec::new(),
        vout: vec![TXOutput { value: 1, script_pub_key: String::from("a") }],
    };
    let mut bytes: Vec<u8> = Vec::new();
    bytes.extend_from_slice(&[0; 8]);
    bytes.extend_from_slice(&[0; 8]);
    bytes.extend_from_slice(&[1, 0, 0, 0, 0, 0, 0, 0]);
    bytes.extend_from_slice(&[1, 0, 0, 0]);
    bytes.extend_from_slice(&[1, 0, 0, 0, 0, 0, 0, 0, b'a']);
    tx.set_id();
    assert_eq!(tx.id, sha256_hex(&bytes));
    let copy = tx.clone();
    assert_eq!(copy, tx);
}

#[test]
fn credentials_are_compared_as_texts() {
    let input = TXInput { txid: String::new(), vout: 0, script_sig: String::from("alice") };
    assert!(input.can_unlock_output_with("alice"));
    assert!(!input.can_unlock_output_with("alic"));
    assert!(!input.can_unlock_output_with("Alice"));
    assert!(!input.can_unlock_output_with(""));
    let output = TXOutput { value: 1, script_pub_key: String::from("b\u{f6}b") };
    assert!(output.can_be_unlock_with("b\u{f6}b"));
    assert!(!output.can_be_unlock_with("bob"));
    assert_eq!(output.clone(), output);
}

#[test]
fn the_store_keeps_the_last_value_of_a_key() {
    let mut db = BlockStore::new();
    assert_eq!(db.len(), 0);
    assert_eq!(db.get(b"k"), None);
    db.insert(b"k".to_vec(), vec![1]);
    db.insert(b"l".to_vec(), vec![2, 3]);
    assert_eq!(db.get(b"k"), Some(vec![1]));
    db.insert(b"k".to_vec(), vec![9]);
    assert_eq!(db.len(), 2);
    assert_eq!(db.get(b"k"), Some(vec![9]));
    assert_eq!(db.get(b"l"), Some(vec![2, 3]));
    assert_eq!(db.get(b""), None);
    let copy = db.clone();
    assert_eq!(copy, db);
}

#[test]
fn references_are_kept_in_order() {
    let mut refs = OutputRefs::new();
    assert!(!refs.contains("t", 0));
    refs.add("t", 2);
    refs.add("u", 0);
    refs.add("t", 0);
    assert_eq!(refs.len(), 3);
    assert!(refs.contains("t", 0));
    assert!(refs.contains("t", 2));
    assert!(!refs.contains("t", 1));
    assert!(!refs.contains("u", 2));
    assert_eq!(refs.indices_of("t"), vec![2, 0]);
    assert_eq!(refs.indices_of("u"), vec![0]);
    assert!(refs.indices_of("v").is_empty());
    assert_eq!(refs.txid_at(1), "u");
    assert_eq!(refs.vout_at(0), 2);
}

#[test]
fn outputs_are_chosen_first_come_first_taken() {
    let unspent = vec![
        held("a", 0, 30),
        held("a", 1, 50),
        held("b", 0, 20),
    ];
    assert_eq!(sum_values(&unspent), 100);
    let (total, refs) = select_outputs(&unspent, 60);
    assert_eq!(total, 80);
    assert_eq!(refs.indices_of("a"), vec![0, 1]);
    assert_eq!(refs.len(), 2);
    let (total, refs) = select_outputs(&unspent, 80);
    assert_eq!(total, 80);
    assert_eq!(refs.len(), 2);
    let (total, refs) = select_outputs(&unspent, 81);
    assert_eq!(total, 100);
    assert_eq!(refs.len(), 3);
    let (total, refs) = select_outputs(&unspent, 101);
    assert_eq!(total, 100);
    assert_eq!(refs.len(), 3);
    let (total, refs) = select_outputs(&unspent, -5);
    assert_eq!(total, 0);
    assert_eq!(refs.len(), 0);
    assert_eq!(sum_values(&Vec::new()), 0);
}

#[test]
fn sums_do_not_overflow() {
    let unspent = vec![
        held("a", 0, i32::MAX),
        held("a", 1, i32::MAX),
        held("a", 2, i32::MIN),
    ];
    assert_eq!(sum_values(&unspent), 2 * (i32::MAX as i128) + i32::MIN as i128);
    let (total, refs) = select_outputs(&unspent, i32::MAX);
    assert_eq!(total, i32::MAX as i128);
    assert_eq!(refs.len(), 1);
    let (total, refs) = select_outputs(&unspent[1..].to_vec(), i32::MAX);
    assert_eq!(total, i32::MAX as i128);
    assert_eq!(refs.vout_at(0), 1);
}

#[test]
fn errors_have_a_message() {
    assert_eq!(ChainError::MissingChain.message(), "Must create a new block database first");
    assert_eq!(ChainError::InsufficientBalance { available: 3 }.message(), "Not enough balance");
    assert_eq!(ChainError::Serialization.message(), "stored bytes are not a block");
    assert_eq!(ChainError::Encoding.message(), "stored tip is not valid UTF-8");
    assert_eq!(ChainError::NonceExhausted.message(), "no nonce meets the target");
}
