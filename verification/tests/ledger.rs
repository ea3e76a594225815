use blockchain_demo::block::{Block, TARGET_BITS};
use blockchain_demo::blockchain::Blockchain;
use blockchain_demo::error::ChainError;
use blockchain_demo::store::BlockStore;
use blockchain_demo::transaction::Transaction;

fn fresh_chain(address: &str) -> Blockchain {
    Blockchain::create_blockchain(BlockStore::new(), String::from(address), 1_700_000_000_000)
        .unwrap()
}

#[test]
fn test_blockchain() {
    let created = fresh_chain("alice");
    let blockchain = Blockchain::new(created.get_db().clone()).unwrap();
    let mut count = 0;
    let mut it = blockchain.iter();
    while let Some(item) = it.next() {
        println!("item {:?}", item);
        count += 1;
    }
    assert_eq!(count, 1);
}

#[test]
fn opening_an_empty_store_reports_a_missing_chain() {
    assert_eq!(Blockchain::new(BlockStore::new()), Err(ChainError::MissingChain));
}

#[test]
fn opening_a_store_with_a_broken_tip_reports_the_encoding() {
    let mut db = BlockStore::new();
    db.insert(b"LAST".to_vec(), vec![0xff, 0xfe]);
    assert_eq!(Blockchain::new(db), Err(ChainError::Encoding));
}

#[test]
fn opening_reads_the_tip_from_the_store() {
    let mut db = BlockStore::new();
    db.insert(b"LAST".to_vec(), "caf\u{e9}".as_bytes().to_vec());
    let bc = Blockchain::new(db).unwrap();
    assert_eq!(bc.get_tip(), "caf\u{e9}");
    assert_eq!(bc.get_blocks().len(), 0);
}

#[test]
fn genesis_pays_the_subsidy_to_its_address() {
    let bc = fresh_chain("alice");
    assert_eq!(bc.get_balance("alice"), 100);
    assert_eq!(bc.get_balance("bob"), 0);
    let blocks = bc.get_blocks();
    assert_eq!(blocks.len(), 1);
    assert_eq!(blocks[0].get_prev_hash(), "");
    assert_eq!(blocks[0].get_hash(), bc.get_tip());
    assert_eq!(blocks[0].get_timestamp(), 1_700_000_000_000);
    assert!(blocks[0].validate(TARGET_BITS));
    let txs = blocks[0].get_transactions();
    assert_eq!(txs.len(), 1);
    assert!(txs[0].is_coinbase());
    assert_eq!(txs[0].id.len(), 64);
    assert_eq!(txs[0].vin[0].script_sig, "GENESIS TRANSACTION");
    assert_eq!(txs[0].vout[0].value, 100);
    assert_eq!(txs[0].vout[0].script_pub_key, "alice");
}

#[test]
fn the_store_holds_the_block_under_its_hash_and_the_tip_under_last() {
    let bc = fresh_chain("alice");
    let db = bc.get_db();
    assert_eq!(db.len(), 2);
    let tip = bc.get_tip();
    assert_eq!(db.get(b"LAST"), Some(tip.as_bytes().to_vec()));
    let bytes = db.get(tip.as_bytes()).unwrap();
    let block = Block::deserialize(&bytes).unwrap();
    assert_eq!(block.get_hash(), tip);
}

#[test]
fn creating_on_a_store_with_a_chain_resumes_it() {
    let first = fresh_chain("alice");
    let again = Blockchain::create_blockchain(
        first.get_db().clone(),
        String::from("mallory"),
        5,
    )
    .unwrap();
    assert_eq!(again.get_tip(), first.get_tip());
    assert_eq!(again.get_balance("alice"), 100);
    assert_eq!(again.get_balance("mallory"), 0);
    assert_eq!(again.get_blocks().len(), 1);
}

#[test]
fn a_payment_moves_value_and_returns_the_change() {
    let mut bc = fresh_chain("alice");
    let tx = Transaction::new_UTXO("alice", "bob", 40, &bc).unwrap();
    let coinbase_id = bc.get_blocks()[0].get_transactions()[0].id.clone();
    assert_eq!(coinbase_id.len(), 64);
    assert_eq!(tx.vin.len(), 1);
    assert_eq!(tx.vin[0].txid, coinbase_id);
    assert_eq!(tx.vin[0].vout, 0);
    assert_eq!(tx.vin[0].script_sig, "alice");
    assert_eq!(tx.vout.len(), 2);
    assert_eq!(tx.vout[0].value, 40);
    assert_eq!(tx.vout[0].script_pub_key, "bob");
    assert_eq!(tx.vout[1].value, 60);
    assert_eq!(tx.vout[1].script_pub_key, "alice");
    assert_eq!(tx.id.len(), 64);
    assert!(!tx.is_coinbase());
    bc.add_block(vec![tx], 1_700_000_000_001).unwrap();
    assert_eq!(bc.get_balance("alice"), 60);
    assert_eq!(bc.get_balance("bob"), 40);
    assert_eq!(bc.get_balance("alice") + bc.get_balance("bob"), 100);
    let blocks = bc.get_blocks();
    assert_eq!(blocks.len(), 2);
    assert_eq!(blocks[0].get_prev_hash(), blocks[1].get_hash());
    assert_eq!(blocks[1].get_prev_hash(), "");
}

#[test]
fn a_payment_beyond_the_balance_fails_and_adds_no_block() {
    let mut bc = fresh_chain("alice");
    bc.send("alice", "bob", 40, 1_700_000_000_001).unwrap();
    assert_eq!(bc.get_balance("alice"), 60);
    let before = bc.get_tip();
    assert_eq!(
        Transaction::new_UTXO("alice", "bob", 1000, &bc),
        Err(ChainError::InsufficientBalance { available: 60 })
    );
    assert_eq!(
        bc.send("alice", "bob", 1000, 1_700_000_000_002),
        Err(ChainError::InsufficientBalance { available: 60 })
    );
    assert_eq!(bc.get_tip(), before);
    assert_eq!(bc.get_blocks().len(), 2);
    assert_eq!(bc.get_db().len(), 3);
}

#[test]
fn selection_signals_funds_that_do_not_suffice() {
    let bc = fresh_chain("alice");
    let (total, refs) = bc.find_unspent_outputs("alice", 101);
    assert_eq!(total, 100);
    assert!(total < 101);
    assert_eq!(refs.len(), 1);
    let (total, refs) = bc.find_unspent_outputs("bob", 1);
    assert_eq!(total, 0);
    assert_eq!(refs.len(), 0);
}

#[test]
fn selection_takes_outputs_until_the_amount_is_reached() {
    let mut bc = fresh_chain("alice");
    bc.send("alice", "bob", 30, 11).unwrap();
    bc.send("alice", "bob", 25, 12).unwrap();
    // bob holds 25 (newest) and 30; alice holds the change of 45
    assert_eq!(bc.get_balance("bob"), 55);
    assert_eq!(bc.get_balance("alice"), 45);
    let unspent = bc.find_unspent_transactions("bob");
    assert_eq!(unspent.len(), 2);
    assert_eq!(unspent[0].output.value, 25);
    assert_eq!(unspent[1].output.value, 30);
    assert_eq!(unspent[0].vout, 0);
    assert_eq!(unspent[0].tx.vout[0], unspent[0].output);
    assert_eq!(unspent[0].tx.vout.len(), 2);
    assert_eq!(unspent[0].output.script_pub_key, "bob");
    let (total, refs) = bc.find_unspent_outputs("bob", 20);
    assert_eq!(total, 25);
    assert_eq!(refs.len(), 1);
    assert_eq!(refs.txid_at(0), &unspent[0].tx.id);
    let (total, refs) = bc.find_unspent_outputs("bob", 26);
    assert_eq!(total, 55);
    assert_eq!(refs.len(), 2);
    assert_eq!(refs.indices_of(&unspent[1].tx.id), vec![0]);
    let (total, refs) = bc.find_unspent_outputs("bob", 0);
    assert_eq!(total, 0);
    assert_eq!(refs.len(), 0);
}

#[test]
fn a_chain_is_walked_from_the_tip_to_the_first_block() {
    let mut bc = fresh_chain("alice");
    bc.send("alice", "bob", 10, 21).unwrap();
    bc.send("bob", "carol", 4, 22).unwrap();
    bc.send("alice", "carol", 90, 23).unwrap();
    let blocks = bc.get_blocks();
    assert_eq!(blocks.len(), 4);
    assert_eq!(blocks[3].get_prev_hash(), "");
    for i in 0..3 {
        assert_eq!(blocks[i].get_prev_hash(), blocks[i + 1].get_hash());
        assert!(blocks[i].validate(TARGET_BITS));
    }
    assert_eq!(blocks[0].get_hash(), bc.get_tip());
    assert_eq!(bc.get_db().len(), 5);
}

#[test]
fn value_is_conserved_over_payments() {
    let mut bc = fresh_chain("alice");
    bc.send("alice", "bob", 10, 21).unwrap();
    bc.send("bob", "carol", 4, 22).unwrap();
    bc.send("alice", "carol", 90, 23).unwrap();
    assert_eq!(bc.get_balance("alice"), 0);
    assert_eq!(bc.get_balance("bob"), 6);
    assert_eq!(bc.get_balance("carol"), 94);
    // created: 100 + (10 + 90) + (4 + 6) + 90; consumed: 100 + 10 + 90
    let created: i128 = 100 + 100 + 10 + 90;
    let consumed: i128 = 100 + 10 + 90;
    let held = bc.get_balance("alice") + bc.get_balance("bob") + bc.get_balance("carol");
    assert_eq!(held, created - consumed);
}

#[test]
fn unspent_outputs_are_given_as_outputs() {
    let mut bc = fresh_chain("alice");
    bc.send("alice", "bob", 30, 11).unwrap();
    let outs = bc.find_UTXO("alice");
    assert_eq!(outs.len(), 1);
    assert_eq!(outs[0].value, 70);
    assert_eq!(outs[0].script_pub_key, "alice");
    assert!(bc.find_UTXO("nobody").is_empty());
}

#[test]
fn a_payment_of_nothing_consumes_nothing() {
    let bc = fresh_chain("alice");
    let tx = Transaction::new_UTXO("alice", "bob", 0, &bc).unwrap();
    assert!(tx.vin.is_empty());
    assert_eq!(tx.vout.len(), 1);
    assert_eq!(tx.vout[0].value, 0);
    assert_eq!(tx.id.len(), 64);
    let tx = Transaction::new_UTXO("nobody", "bob", 0, &bc).unwrap();
    assert!(tx.vin.is_empty());
    assert_eq!(
        Transaction::new_UTXO("nobody", "bob", 1, &bc),
        Err(ChainError::InsufficientBalance { available: 0 })
    );
}

#[test]
fn a_payment_creates_no_value() {
    let mut bc = fresh_chain("alice");
    bc.send("alice", "bob", 30, 11).unwrap();
    bc.send("alice", "bob", 25, 12).unwrap();
    let tx = Transaction::new_UTXO("bob", "carol", 26, &bc).unwrap();
    assert_eq!(tx.vin.len(), 2);
    let paid: i128 = tx.vout.iter().map(|o| o.value as i128).sum();
    assert_eq!(paid, 55);
    assert!(tx.vout.iter().all(|o| o.value >= 0));
    assert_eq!(tx.vout[0].value, 26);
    assert_eq!(tx.vout[1].value, 29);
    assert_eq!(tx.vout[1].script_pub_key, "bob");
}

#[test]
fn a_payment_within_the_balance_adds_one_block() {
    let mut bc = fresh_chain("alice");
    assert_eq!(bc.send("alice", "bob", 100, 31), Ok(()));
    let blocks = bc.get_blocks();
    assert_eq!(blocks.len(), 2);
    assert_eq!(blocks[0].get_transactions().len(), 1);
    assert_eq!(blocks[0].get_transactions()[0].vout[0].value, 100);
    assert_eq!(blocks[0].get_transactions()[0].vout[0].script_pub_key, "bob");
    assert_eq!(bc.get_balance("bob"), 100);
    assert_eq!(bc.get_balance("alice"), 0);
}

#[test]
fn a_payment_of_the_whole_balance_leaves_no_change() {
    let bc = fresh_chain("alice");
    let tx = Transaction::new_UTXO("alice", "bob", 100, &bc).unwrap();
    assert_eq!(tx.vout.len(), 1);
    assert_eq!(tx.vout[0].value, 100);
}

#[test]
fn the_walk_ends_at_a_hash_that_the_store_lacks() {
    let first = fresh_chain("alice");
    let mut db = BlockStore::new();
    db.insert(b"LAST".to_vec(), first.get_tip().into_bytes());
    let bc = Blockchain::new(db).unwrap();
    assert!(bc.iter().next().is_none());
    assert_eq!(bc.get_balance("alice"), 0);
}

#[test]
fn the_walk_ends_at_bytes_that_are_no_block() {
    let first = fresh_chain("alice");
    let mut db = first.get_db().clone();
    db.insert(first.get_tip().into_bytes(), vec![1, 2, 3]);
    let bc = Blockchain::new(db).unwrap();
    assert_eq!(bc.get_blocks().len(), 0);
}

#[test]
fn appending_a_mined_block_moves_the_tip() {
    let mut bc = fresh_chain("alice");
    let block = Block::new_block(77, Vec::new(), bc.get_tip(), TARGET_BITS).unwrap();
    let hash = block.get_hash();
    bc.append(block);
    assert_eq!(bc.get_tip(), hash);
    assert_eq!(bc.get_blocks().len(), 2);
    assert_eq!(bc.get_blocks()[0].get_transactions().len(), 0);
}
