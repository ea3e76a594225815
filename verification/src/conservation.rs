//! Conservation of value: what the owners of a ledger can still spend is
//! what was created less what was consumed.

use vstd::prelude::*;
use crate::transaction::{
    chosen_total, coinbase_model, lemma_change_fits, lemma_spend_outputs_total, spend_model,
    spend_outputs, TxModel,
};
use crate::tx::InputModel;
use crate::utxo::{
    balance, consumes, lemma_funded_prefix, refs_of, selected, lemma_insufficient_funds_show, spendable_count, spent_by, total_value,
    tx_unspent, unspent_outputs, UnspentModel,
};

verus! {

/// Whether no output of `txs` carries a negative amount.
pub open spec fn amounts_valid(txs: Seq<TxModel>) -> bool {
    forall|k: int, i: int|
        0 <= k < txs.len() && 0 <= i < txs[k].vout.len() ==> (#[trigger] txs[k].vout[i]).value >= 0
}

/// Whether an input can name each output of each of `txs`.
pub open spec fn indices_valid(txs: Seq<TxModel>) -> bool {
    forall|k: int| 0 <= k < txs.len() ==> (#[trigger] txs[k]).vout.len() <= 0x8000_0000
}

/// Whether `input`, where it names an output of `tx`, shows the credential
/// that the output is locked to.
pub open spec fn unlocks(input: InputModel, tx: TxModel) -> bool {
    input.txid == tx.id && 0 <= input.vout < tx.vout.len() ==> input.script_sig
        == tx.vout[input.vout as int].script_pub_key
}

/// Whether every input of `newer` that names an output of `tx` shows the
/// credential that the output is locked to.
pub open spec fn authorized_for(tx: TxModel, newer: Seq<TxModel>) -> bool {
    forall|j: int, m: int|
        0 <= j < newer.len() && 0 <= m < newer[j].vin.len() ==> unlocks(
            #[trigger] newer[j].vin[m],
            tx,
        )
}

/// Whether every input of `txs` shows the credential of the output that it
/// names in an older transaction. `txs` is newest first.
pub open spec fn authorized(txs: Seq<TxModel>) -> bool {
    forall|k: int| 0 <= k < txs.len() ==> authorized_for(#[trigger] txs[k], txs.take(k))
}

/// Whether `tx` consumes output `vout` of transaction `txid`.
pub open spec fn refers(tx: TxModel, txid: Seq<char>, vout: i32) -> bool {
    !tx.is_coinbase() && exists|m: int|
        0 <= m < tx.vin.len() && (#[trigger] tx.vin[m]).txid == txid && tx.vin[m].vout == vout
}

/// Whether one of `txs` consumes that output.
pub open spec fn consumed(txs: Seq<TxModel>, txid: Seq<char>, vout: i32) -> bool {
    exists|j: int| 0 <= j < txs.len() && refers(#[trigger] txs[j], txid, vout)
}

/// What the first `n` outputs of `tx` come to.
pub open spec fn tx_created(tx: TxModel, n: nat) -> int
    decreases n,
{
    if n == 0 {
        0
    } else {
        tx_created(tx, (n - 1) as nat) + tx.vout[n - 1].value
    }
}

/// What those of the first `n` outputs of `tx` come to that `newer`
/// consume.
pub open spec fn tx_consumed(tx: TxModel, newer: Seq<TxModel>, n: nat) -> int
    decreases n,
{
    if n == 0 {
        0
    } else if consumed(newer, tx.id, (n - 1) as i32) {
        tx_consumed(tx, newer, (n - 1) as nat) + tx.vout[n - 1].value
    } else {
        tx_consumed(tx, newer, (n - 1) as nat)
    }
}

/// What all outputs of `txs` come to.
pub open spec fn created_total(txs: Seq<TxModel>) -> int
    decreases txs.len(),
{
    if txs.len() == 0 {
        0
    } else {
        created_total(txs.drop_last()) + tx_created(txs.last(), txs.last().vout.len())
    }
}

/// What those outputs of `txs` come to that a newer transaction consumes.
/// `txs` is newest first.
pub open spec fn consumed_total(txs: Seq<TxModel>) -> int
    decreases txs.len(),
{
    if txs.len() == 0 {
        0
    } else {
        consumed_total(txs.drop_last()) + tx_consumed(
            txs.last(),
            txs.drop_last(),
            txs.last().vout.len(),
        )
    }
}

/// What the addresses of `owners` can still spend in `txs`, taken together.
pub open spec fn balances_total(txs: Seq<TxModel>, owners: Seq<Seq<char>>) -> int
    decreases owners.len(),
{
    if owners.len() == 0 {
        0
    } else {
        balances_total(txs, owners.drop_last()) + balance(txs, owners.last())
    }
}

/// Whether `owners` names every address that an output of `txs` is locked
/// to.
pub open spec fn owners_cover(txs: Seq<TxModel>, owners: Seq<Seq<char>>) -> bool {
    forall|k: int, i: int|
        0 <= k < txs.len() && 0 <= i < txs[k].vout.len() ==> owners.contains(
            (#[trigger] txs[k].vout[i]).script_pub_key,
        )
}

/// What the addresses of `owners` can still spend of the first `n` outputs
/// of `tx`, taken together.
pub open spec fn tx_balances(tx: TxModel, owners: Seq<Seq<char>>, newer: Seq<TxModel>, n: nat) -> int
    decreases owners.len(),
{
    if owners.len() == 0 {
        0
    } else {
        tx_balances(tx, owners.drop_last(), newer, n) + total_value(
            tx_unspent(tx, owners.last(), newer, n),
        )
    }
}

/// What `address` can still spend of output `i` of `tx`.
pub open spec fn owned(tx: TxModel, address: Seq<char>, newer: Seq<TxModel>, i: int) -> int {
    if tx.vout[i].script_pub_key == address && !spent_by(newer, address, tx.id, i as i32) {
        tx.vout[i].value as int
    } else {
        0
    }
}

/// What the addresses of `owners` can still spend of output `i` of `tx`,
/// taken together.
pub open spec fn owned_by_all(tx: TxModel, owners: Seq<Seq<char>>, newer: Seq<TxModel>, i: int) -> int
    decreases owners.len(),
{
    if owners.len() == 0 {
        0
    } else {
        owned_by_all(tx, owners.drop_last(), newer, i) + owned(tx, owners.last(), newer, i)
    }
}

/// One more output adds its amount.
pub proof fn lemma_total_value_push(s: Seq<UnspentModel>, u: UnspentModel)
    ensures
        total_value(s.push(u)) == total_value(s) + u.output.value,
{
    assert(s.push(u).drop_last() =~= s);
}

/// Two lists come to the sum of what each comes to.
pub proof fn lemma_total_value_add(s: Seq<UnspentModel>, t: Seq<UnspentModel>)
    ensures
        total_value(s + t) == total_value(s) + total_value(t),
    decreases t.len(),
{
    if t.len() == 0 {
        assert(s + t =~= s);
    } else {
        lemma_total_value_add(s, t.drop_last());
        assert((s + t).drop_last() =~= s + t.drop_last());
    }
}

/// One more output adds what each owner can spend of it.
proof fn lemma_tx_balances_step(tx: TxModel, owners: Seq<Seq<char>>, newer: Seq<TxModel>, n: nat)
    requires
        n > 0,
    ensures
        tx_balances(tx, owners, newer, n) == tx_balances(tx, owners, newer, (n - 1) as nat)
            + owned_by_all(tx, owners, newer, n - 1),
    decreases owners.len(),
{
    if owners.len() > 0 {
        lemma_tx_balances_step(tx, owners.drop_last(), newer, n);
        let a = owners.last();
        let before = tx_unspent(tx, a, newer, (n - 1) as nat);
        if tx.vout[n - 1].script_pub_key == a && !spent_by(newer, a, tx.id, (n - 1) as i32) {
            lemma_total_value_push(
                before,
                UnspentModel { tx, vout: (n - 1) as i32, output: tx.vout[n - 1] },
            );
        }
    }
}

/// Of an output, only the address that it is locked to can spend anything.
proof fn lemma_owned_by_all(tx: TxModel, owners: Seq<Seq<char>>, newer: Seq<TxModel>, i: int)
    requires
        owners.no_duplicates(),
    ensures
        owned_by_all(tx, owners, newer, i) == if owners.contains(tx.vout[i].script_pub_key) {
            owned(tx, tx.vout[i].script_pub_key, newer, i)
        } else {
            0
        },
    decreases owners.len(),
{
    let lock = tx.vout[i].script_pub_key;
    if owners.len() > 0 {
        let rest = owners.drop_last();
        let a = owners.last();
        assert forall|x: int, y: int| 0 <= x < rest.len() && 0 <= y < rest.len() && x != y implies rest[x]
            != rest[y] by {
            assert(rest[x] == owners[x] && rest[y] == owners[y]);
        }
        lemma_owned_by_all(tx, rest, newer, i);
        if a == lock {
            if rest.contains(lock) {
                let x = choose|x: int| 0 <= x < rest.len() && rest[x] == lock;
                assert(owners[x] == lock && owners[owners.len() - 1] == lock);
            }
            assert(owners[owners.len() - 1] == lock);
        } else {
            if rest.contains(lock) {
                let x = choose|x: int| 0 <= x < rest.len() && rest[x] == lock;
                assert(owners[x] == lock);
            }
            if owners.contains(lock) {
                let x = choose|x: int| 0 <= x < owners.len() && owners[x] == lock;
                assert(rest[x] == lock);
            }
        }
    }
}

/// Where inputs show the credential of what they consume, an output is
/// spent with the credential that it is locked to exactly when it is
/// consumed.
proof fn lemma_spent_is_consumed(tx: TxModel, newer: Seq<TxModel>, i: int)
    requires
        authorized_for(tx, newer),
        0 <= i < tx.vout.len(),
        i <= i32::MAX,
    ensures
        spent_by(newer, tx.vout[i].script_pub_key, tx.id, i as i32) == consumed(
            newer,
            tx.id,
            i as i32,
        ),
{
    let lock = tx.vout[i].script_pub_key;
    let vout = i as i32;
    let wanted = InputModel { txid: tx.id, vout, script_sig: lock };
    if spent_by(newer, lock, tx.id, vout) {
        let j = choose|j: int| 0 <= j < newer.len() && consumes(#[trigger] newer[j], lock, tx.id, vout);
        let m = choose|m: int| 0 <= m < newer[j].vin.len() && #[trigger] newer[j].vin[m] == wanted;
        assert(newer[j].vin[m].txid == tx.id && newer[j].vin[m].vout == vout);
        assert(refers(newer[j], tx.id, vout));
    }
    if consumed(newer, tx.id, vout) {
        let j = choose|j: int| 0 <= j < newer.len() && refers(#[trigger] newer[j], tx.id, vout);
        let m = choose|m: int|
            0 <= m < newer[j].vin.len() && (#[trigger] newer[j].vin[m]).txid == tx.id
                && newer[j].vin[m].vout == vout;
        assert(unlocks(newer[j].vin[m], tx));
        assert(newer[j].vin[m] == wanted);
        assert(consumes(newer[j], lock, tx.id, vout));
    }
}

/// What the owners can still spend of the outputs of one transaction is
/// what these outputs come to less what was consumed of them.
proof fn lemma_tx_conservation(tx: TxModel, owners: Seq<Seq<char>>, newer: Seq<TxModel>, n: nat)
    requires
        owners.no_duplicates(),
        authorized_for(tx, newer),
        n <= tx.vout.len(),
        n <= 0x8000_0000,
        forall|i: int| 0 <= i < tx.vout.len() ==> owners.contains((#[trigger] tx.vout[i]).script_pub_key),
    ensures
        tx_balances(tx, owners, newer, n) == tx_created(tx, n) - tx_consumed(tx, newer, n),
    decreases n,
{
    if n == 0 {
        lemma_tx_balances_none(tx, owners, newer);
    } else {
        let i = n - 1;
        lemma_tx_conservation(tx, owners, newer, (n - 1) as nat);
        lemma_tx_balances_step(tx, owners, newer, n);
        lemma_owned_by_all(tx, owners, newer, i);
        lemma_spent_is_consumed(tx, newer, i);
        assert(owners.contains(tx.vout[i].script_pub_key));
    }
}

proof fn lemma_tx_balances_none(tx: TxModel, owners: Seq<Seq<char>>, newer: Seq<TxModel>)
    ensures
        tx_balances(tx, owners, newer, 0) == 0,
    decreases owners.len(),
{
    if owners.len() > 0 {
        lemma_tx_balances_none(tx, owners.drop_last(), newer);
    }
}

/// One more transaction adds what the owners can spend of its outputs.
proof fn lemma_balances_step(txs: Seq<TxModel>, owners: Seq<Seq<char>>)
    requires
        txs.len() > 0,
    ensures
        balances_total(txs, owners) == balances_total(txs.drop_last(), owners) + tx_balances(
            txs.last(),
            owners,
            txs.drop_last(),
            spendable_count(txs.last()),
        ),
    decreases owners.len(),
{
    if owners.len() > 0 {
        lemma_balances_step(txs, owners.drop_last());
        let a = owners.last();
        lemma_total_value_add(
            unspent_outputs(txs.drop_last(), a),
            tx_unspent(txs.last(), a, txs.drop_last(), spendable_count(txs.last())),
        );
    }
}

/// Conservation of value. Take a ledger whose outputs carry no negative
/// amounts and can each be named by an input, and whose inputs show the
/// credential of the output that they consume. What its owners can still
/// spend, taken together, is what all outputs come to less what the
/// consumed outputs come to. `owners` names each address once; every
/// address that an output is locked to is among them.
pub proof fn lemma_value_is_conserved(txs: Seq<TxModel>, owners: Seq<Seq<char>>)
    requires
        indices_valid(txs),
        authorized(txs),
        owners.no_duplicates(),
        owners_cover(txs, owners),
    ensures
        balances_total(txs, owners) == created_total(txs) - consumed_total(txs),
    decreases txs.len(),
{
    if txs.len() == 0 {
        assert(txs =~= Seq::<TxModel>::empty());
        lemma_balances_empty(owners);
    } else {
        let older = txs.drop_last();
        let tx = txs.last();
        let k = txs.len() - 1;
        assert(tx == txs[k]);
        assert(txs.take(k) =~= older);
        assert(txs[k].vout.len() <= 0x8000_0000);
        assert(authorized_for(txs[k], txs.take(k)));
        assert forall|j: int| 0 <= j < older.len() implies (#[trigger] older[j]).vout.len()
            <= 0x8000_0000 by {
            assert(older[j] == txs[j]);
        }
        assert forall|j: int| 0 <= j < older.len() implies authorized_for(
            #[trigger] older[j],
            older.take(j),
        ) by {
            assert(older[j] == txs[j]);
            assert(older.take(j) =~= txs.take(j));
        }
        assert forall|j: int, i: int|
            0 <= j < older.len() && 0 <= i < older[j].vout.len() implies owners.contains(
            (#[trigger] older[j].vout[i]).script_pub_key,
        ) by {
            assert(older[j] == txs[j]);
            assert(owners.contains(txs[j].vout[i].script_pub_key));
        }
        lemma_value_is_conserved(older, owners);
        lemma_balances_step(txs, owners);
        assert forall|i: int| 0 <= i < tx.vout.len() implies owners.contains(
            (#[trigger] tx.vout[i]).script_pub_key,
        ) by {
            assert(owners.contains(txs[k].vout[i].script_pub_key));
        }
        lemma_tx_conservation(tx, owners, older, spendable_count(tx));
        assert(spendable_count(tx) == tx.vout.len());
    }
}

proof fn lemma_balances_empty(owners: Seq<Seq<char>>)
    ensures
        balances_total(Seq::empty(), owners) == 0,
    decreases owners.len(),
{
    if owners.len() > 0 {
        lemma_balances_empty(owners.drop_last());
    }
}

/// The outputs that an address can still spend carry no negative amount
/// where no output of the ledger does.
pub proof fn lemma_unspent_amounts_valid(txs: Seq<TxModel>, address: Seq<char>)
    requires
        amounts_valid(txs),
    ensures
        forall|i: int|
            0 <= i < unspent_outputs(txs, address).len() ==> (#[trigger] unspent_outputs(
                txs,
                address,
            )[i]).output.value >= 0,
    decreases txs.len(),
{
    if txs.len() > 0 {
        let older = txs.drop_last();
        let tx = txs.last();
        assert forall|k: int, i: int|
            0 <= k < older.len() && 0 <= i < older[k].vout.len() implies (#[trigger] older[k].vout[i]).value
            >= 0 by {
            assert(older[k] == txs[k]);
            assert(txs[k].vout[i].value >= 0);
        }
        lemma_unspent_amounts_valid(older, address);
        assert forall|i: int| 0 <= i < tx.vout.len() implies (#[trigger] tx.vout[i]).value >= 0 by {
            assert(txs[txs.len() - 1].vout[i].value >= 0);
        }
        lemma_tx_unspent_amounts_valid(tx, address, older, spendable_count(tx));
        let first = unspent_outputs(older, address);
        let second = tx_unspent(tx, address, older, spendable_count(tx));
        assert forall|i: int| 0 <= i < unspent_outputs(txs, address).len() implies (#[trigger] unspent_outputs(
            txs,
            address,
        )[i]).output.value >= 0 by {
            if i < first.len() {
                assert((first + second)[i] == first[i]);
            } else {
                assert((first + second)[i] == second[i - first.len()]);
            }
        }
    }
}

proof fn lemma_tx_unspent_amounts_valid(tx: TxModel, address: Seq<char>, newer: Seq<TxModel>, n: nat)
    requires
        n <= tx.vout.len(),
        forall|i: int| 0 <= i < tx.vout.len() ==> (#[trigger] tx.vout[i]).value >= 0,
    ensures
        forall|i: int|
            0 <= i < tx_unspent(tx, address, newer, n).len() ==> (#[trigger] tx_unspent(
                tx,
                address,
                newer,
                n,
            )[i]).output.value >= 0,
    decreases n,
{
    if n > 0 {
        lemma_tx_unspent_amounts_valid(tx, address, newer, (n - 1) as nat);
        assert(tx.vout[n - 1].value >= 0);
        let before = tx_unspent(tx, address, newer, (n - 1) as nat);
        let now = tx_unspent(tx, address, newer, n);
        assert forall|i: int| 0 <= i < now.len() implies (#[trigger] now[i]).output.value >= 0 by {
            if i < before.len() {
                assert(now[i] == before[i]);
            }
        }
    }
}

/// Where what `from` can still spend comes to less than `amount`, so does
/// what is chosen to fund `amount`: a payment of `amount` fails for want of
/// funds. No output of the ledger carries a negative amount.
pub proof fn lemma_short_funds_are_signalled(txs: Seq<TxModel>, from: Seq<char>, amount: i32)
    requires
        amounts_valid(txs),
        balance(txs, from) < amount,
    ensures
        chosen_total(txs, from, amount) < amount,
        chosen_total(txs, from, amount) == balance(txs, from),
{
    lemma_unspent_amounts_valid(txs, from);
    lemma_insufficient_funds_show(unspent_outputs(txs, from), amount as int);
}

/// Whether no two of `txs` have the same identifier.
pub open spec fn ids_distinct(txs: Seq<TxModel>) -> bool {
    forall|p: int, q: int|
        0 <= p < q < txs.len() ==> (#[trigger] txs[p]).id != (#[trigger] txs[q]).id
}

proof fn lemma_tx_unspent_is_an_output(
    tx: TxModel,
    address: Seq<char>,
    newer: Seq<TxModel>,
    n: nat,
    i: int,
)
    requires
        n <= spendable_count(tx),
        0 <= i < tx_unspent(tx, address, newer, n).len(),
    ensures
        ({
            let u = tx_unspent(tx, address, newer, n)[i];
            &&& u.tx == tx
            &&& 0 <= u.vout < n
            &&& u.output == tx.vout[u.vout as int]
            &&& u.output.script_pub_key == address
        }),
    decreases n,
{
    if n > 0 {
        let before = tx_unspent(tx, address, newer, (n - 1) as nat);
        if i < before.len() {
            lemma_tx_unspent_is_an_output(tx, address, newer, (n - 1) as nat, i);
            assert(tx_unspent(tx, address, newer, n)[i] == before[i]);
        }
    }
}

/// An output that `address` can still spend is an output of one of the
/// transactions, and is locked to `address`.
pub proof fn lemma_unspent_is_an_output(txs: Seq<TxModel>, address: Seq<char>, i: int)
    requires
        0 <= i < unspent_outputs(txs, address).len(),
    ensures
        ({
            let u = unspent_outputs(txs, address)[i];
            &&& txs.contains(u.tx)
            &&& 0 <= u.vout < u.tx.vout.len()
            &&& u.output == u.tx.vout[u.vout as int]
            &&& u.output.script_pub_key == address
        }),
    decreases txs.len(),
{
    if txs.len() > 0 {
        let older = txs.drop_last();
        let tx = txs.last();
        let first = unspent_outputs(older, address);
        let second = tx_unspent(tx, address, older, spendable_count(tx));
        if i < first.len() {
            lemma_unspent_is_an_output(older, address, i);
            assert((first + second)[i] == first[i]);
            let p = choose|p: int| 0 <= p < older.len() && older[p] == first[i].tx;
            assert(txs[p] == first[i].tx);
        } else {
            lemma_tx_unspent_is_an_output(tx, address, older, spendable_count(tx), i - first.len());
            assert((first + second)[i] == second[i - first.len()]);
            assert(txs[txs.len() - 1] == tx);
        }
    }
}

proof fn lemma_tx_unspent_in_order(
    tx: TxModel,
    address: Seq<char>,
    newer: Seq<TxModel>,
    n: nat,
    i: int,
    j: int,
)
    requires
        n <= spendable_count(tx),
        0 <= i < j < tx_unspent(tx, address, newer, n).len(),
    ensures
        tx_unspent(tx, address, newer, n)[i].vout < tx_unspent(tx, address, newer, n)[j].vout,
    decreases n,
{
    if n > 0 {
        let before = tx_unspent(tx, address, newer, (n - 1) as nat);
        let now = tx_unspent(tx, address, newer, n);
        if j < before.len() {
            lemma_tx_unspent_in_order(tx, address, newer, (n - 1) as nat, i, j);
            assert(now[i] == before[i] && now[j] == before[j]);
        } else {
            lemma_tx_unspent_is_an_output(tx, address, newer, (n - 1) as nat, i);
            assert(now[i] == before[i]);
        }
    }
}

/// Where no two transactions have the same identifier, no two of the
/// outputs that `address` can still spend are the same output.
pub proof fn lemma_unspent_are_distinct(txs: Seq<TxModel>, address: Seq<char>, i: int, j: int)
    requires
        ids_distinct(txs),
        0 <= i < j < unspent_outputs(txs, address).len(),
    ensures
        refs_of(unspent_outputs(txs, address))[i] != refs_of(unspent_outputs(txs, address))[j],
    decreases txs.len(),
{
    if txs.len() > 0 {
        let older = txs.drop_last();
        let tx = txs.last();
        let first = unspent_outputs(older, address);
        let second = tx_unspent(tx, address, older, spendable_count(tx));
        let all = first + second;
        if j < first.len() {
            assert forall|p: int, q: int| 0 <= p < q < older.len() implies (#[trigger] older[p]).id != (
            #[trigger] older[q]).id by {
                assert(older[p] == txs[p] && older[q] == txs[q]);
            }
            lemma_unspent_are_distinct(older, address, i, j);
            assert(all[i] == first[i] && all[j] == first[j]);
        } else if i < first.len() {
            lemma_unspent_is_an_output(older, address, i);
            lemma_tx_unspent_is_an_output(tx, address, older, spendable_count(tx), j - first.len());
            assert(all[i] == first[i] && all[j] == second[j - first.len()]);
            let p = choose|p: int| 0 <= p < older.len() && older[p] == first[i].tx;
            assert(txs[p] == first[i].tx);
            assert(txs[txs.len() - 1] == tx);
            assert(txs[p].id != txs[txs.len() - 1].id);
        } else {
            lemma_tx_unspent_in_order(
                tx,
                address,
                older,
                spendable_count(tx),
                i - first.len(),
                j - first.len(),
            );
            assert(all[i] == second[i - first.len()] && all[j] == second[j - first.len()]);
        }
    }
}

/// Where no two transactions have the same identifier, no two inputs of a
/// payment name the same output.
pub proof fn lemma_payment_inputs_are_distinct(
    txs: Seq<TxModel>,
    from: Seq<char>,
    to: Seq<char>,
    amount: i32,
)
    requires
        ids_distinct(txs),
    ensures
        forall|i: int, j: int|
            0 <= i < j < spend_model(txs, from, to, amount).vin.len() ==> (#[trigger] spend_model(
                txs,
                from,
                to,
                amount,
            ).vin[i]) != (#[trigger] spend_model(txs, from, to, amount).vin[j]),
{
    let s = spend_model(txs, from, to, amount);
    let all = unspent_outputs(txs, from);
    let chosen = selected(all, amount as int);
    lemma_funded_prefix(all, amount as int);
    assert(s.vin.len() == chosen.len());
    assert forall|i: int, j: int| 0 <= i < j < s.vin.len() implies (#[trigger] s.vin[i]) != (
    #[trigger] s.vin[j]) by {
        lemma_unspent_are_distinct(txs, from, i, j);
        assert(chosen[i] == all[i] && chosen[j] == all[j]);
        assert(refs_of(chosen)[i] == refs_of(all)[i]);
        assert(refs_of(chosen)[j] == refs_of(all)[j]);
    }
}

/// A ledger that holds a coinbase transaction alone has outputs without
/// negative amounts, outputs that inputs can name, and no input that lacks
/// a credential.
pub proof fn lemma_coinbase_ledger_is_valid(to: Seq<char>, memo: Seq<char>)
    ensures
        amounts_valid(seq![coinbase_model(to, memo).sealed()]),
        indices_valid(seq![coinbase_model(to, memo).sealed()]),
        authorized(seq![coinbase_model(to, memo).sealed()]),
{
    let txs = seq![coinbase_model(to, memo).sealed()];
    assert forall|k: int| 0 <= k < txs.len() implies authorized_for(#[trigger] txs[k], txs.take(k)) by {
        assert(txs.take(k).len() == 0);
    }
}

/// A payment leaves a ledger without negative amounts, and with outputs
/// that inputs can name. `txs` is the ledger before the payment, newest
/// transaction first; the payment stands in front of it.
pub proof fn lemma_payment_keeps_amounts_valid(
    txs: Seq<TxModel>,
    from: Seq<char>,
    to: Seq<char>,
    amount: i32,
)
    requires
        amount >= 0,
        chosen_total(txs, from, amount) >= amount,
    ensures
        amounts_valid(txs) ==> amounts_valid(seq![spend_model(txs, from, to, amount)] + txs),
        indices_valid(txs) ==> indices_valid(seq![spend_model(txs, from, to, amount)] + txs),
{
    let s = spend_model(txs, from, to, amount);
    let grown = seq![s] + txs;
    lemma_change_fits(txs, from, amount);
    lemma_spend_outputs_total(to, from, amount, chosen_total(txs, from, amount));
    assert(s.vout == spend_outputs(to, from, amount, chosen_total(txs, from, amount)));
    if amounts_valid(txs) {
        assert forall|k: int, i: int|
            0 <= k < grown.len() && 0 <= i < grown[k].vout.len() implies (#[trigger] grown[k].vout[i]).value
            >= 0 by {
            if k > 0 {
                assert(grown[k] == txs[k - 1]);
                assert(txs[k - 1].vout[i].value >= 0);
            } else {
                assert(s.vout[i].value >= 0);
            }
        }
    }
    if indices_valid(txs) {
        assert forall|k: int| 0 <= k < grown.len() implies (#[trigger] grown[k]).vout.len()
            <= 0x8000_0000 by {
            if k > 0 {
                assert(grown[k] == txs[k - 1]);
            }
        }
    }
}

/// A payment leaves a ledger in which every input shows the credential of
/// the output that it names, where no two transactions of the ledger have
/// the same identifier: the payment names outputs that its sender can
/// spend, and shows the credential of the sender.
pub proof fn lemma_payment_keeps_authorized(
    txs: Seq<TxModel>,
    from: Seq<char>,
    to: Seq<char>,
    amount: i32,
)
    requires
        authorized(txs),
        ids_distinct(txs),
    ensures
        authorized(seq![spend_model(txs, from, to, amount)] + txs),
{
    let s = spend_model(txs, from, to, amount);
    let grown = seq![s] + txs;
    let chosen = selected(unspent_outputs(txs, from), amount as int);
    lemma_funded_prefix(unspent_outputs(txs, from), amount as int);
    assert(s.vin.len() == chosen.len());
    assert forall|k: int| 0 <= k < grown.len() implies authorized_for(
        #[trigger] grown[k],
        grown.take(k),
    ) by {
        let newer = grown.take(k);
        if k > 0 {
            let tx = txs[k - 1];
            assert(grown[k] == tx);
            assert(authorized_for(txs[k - 1], txs.take(k - 1)));
            assert forall|j: int, m: int|
                0 <= j < newer.len() && 0 <= m < newer[j].vin.len() implies unlocks(
                #[trigger] newer[j].vin[m],
                tx,
            ) by {
                if j > 0 {
                    assert(newer[j] == txs.take(k - 1)[j - 1]);
                    assert(unlocks(txs.take(k - 1)[j - 1].vin[m], tx));
                } else {
                    assert(newer[0] == s);
                    let input = s.vin[m];
                    let u = chosen[m];
                    assert(refs_of(chosen)[m] == (u.tx.id, u.vout));
                    assert(input == InputModel { txid: u.tx.id, vout: u.vout, script_sig: from });
                    assert(u == unspent_outputs(txs, from)[m]);
                    lemma_unspent_is_an_output(txs, from, m);
                    if input.txid == tx.id && 0 <= input.vout < tx.vout.len() {
                        let p = choose|p: int| 0 <= p < txs.len() && txs[p] == u.tx;
                        if p < k - 1 {
                            assert(txs[p].id != txs[k - 1].id);
                        } else if p > k - 1 {
                            assert(txs[k - 1].id != txs[p].id);
                        }
                        assert(u.tx == tx);
                    }
                }
            }
        } else {
            assert(newer.len() == 0);
        }
    }
}

} // verus!
