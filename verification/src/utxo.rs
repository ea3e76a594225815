//! The unspent outputs of a chain: which outputs an address can still
//! spend, what they come to, and which of them fund an amount.
//!
//! The transactions of a chain are taken in the order in which the chain is
//! walked, newest first, so that an input is met before the output it
//! consumes.

use vstd::prelude::*;
use vstd::string::*;
use crate::block::BlockModel;
use crate::refs::OutputRefs;
use crate::transaction::{Transaction, TxModel};
use crate::tx::{InputModel, OutputModel, TXOutput};

verus! {

/// What an unspent output is: the transaction that holds it, where it
/// stands among the outputs of that transaction, and the output.
pub struct UnspentModel {
    pub tx: TxModel,
    pub vout: i32,
    pub output: OutputModel,
}

/// An output that its owner can still spend, with the transaction that
/// holds it.
#[derive(Debug, PartialEq, Eq)]
pub struct UnspentOutput {
    pub tx: Transaction,
    pub vout: i32,
    pub output: TXOutput,
}

impl View for UnspentOutput {
    type V = UnspentModel;

    open spec fn view(&self) -> UnspentModel {
        UnspentModel { tx: self.tx@, vout: self.vout, output: self.output@ }
    }
}

impl Clone for UnspentOutput {
    fn clone(&self) -> (r: Self)
        ensures
            r@ == self@,
    {
        UnspentOutput { tx: self.tx.clone(), vout: self.vout, output: self.output.clone() }
    }
}

/// What a list of unspent outputs holds.
pub open spec fn unspent_models(v: Seq<UnspentOutput>) -> Seq<UnspentModel> {
    Seq::new(v.len(), |i: int| v[i]@)
}

/// The transactions of a walk of blocks, block after block.
pub open spec fn chain_txs(blocks: Seq<BlockModel>) -> Seq<TxModel>
    decreases blocks.len(),
{
    if blocks.len() == 0 {
        Seq::empty()
    } else {
        chain_txs(blocks.drop_last()) + blocks.last().transactions
    }
}

/// Whether `tx` spends output `vout` of transaction `txid` with the
/// credential `address`. A coinbase transaction spends nothing.
pub open spec fn consumes(tx: TxModel, address: Seq<char>, txid: Seq<char>, vout: i32) -> bool {
    !tx.is_coinbase() && exists|m: int|
        0 <= m < tx.vin.len() && #[trigger] tx.vin[m] == (InputModel {
            txid,
            vout,
            script_sig: address,
        })
}

/// Whether one of `txs` spends that output with that credential.
pub open spec fn spent_by(txs: Seq<TxModel>, address: Seq<char>, txid: Seq<char>, vout: i32) -> bool {
    exists|j: int| 0 <= j < txs.len() && consumes(#[trigger] txs[j], address, txid, vout)
}

/// The number of outputs of `tx` that an input can refer to: an input
/// names an output by an `i32`.
pub open spec fn spendable_count(tx: TxModel) -> nat {
    if tx.vout.len() <= 0x8000_0000 {
        tx.vout.len()
    } else {
        0x8000_0000
    }
}

/// Those of the first `n` outputs of `tx` that are locked to `address` and
/// that none of `newer` spends.
pub open spec fn tx_unspent(tx: TxModel, address: Seq<char>, newer: Seq<TxModel>, n: nat) -> Seq<
    UnspentModel,
>
    decreases n,
{
    if n == 0 {
        Seq::empty()
    } else {
        let i = (n - 1) as int;
        let before = tx_unspent(tx, address, newer, (n - 1) as nat);
        if tx.vout[i].script_pub_key == address && !spent_by(newer, address, tx.id, i as i32) {
            before.push(UnspentModel { tx, vout: i as i32, output: tx.vout[i] })
        } else {
            before
        }
    }
}

/// The outputs of `txs` that `address` can still spend, in the order of the
/// walk and, within a transaction, of the outputs. `txs` is newest first.
pub open spec fn unspent_outputs(txs: Seq<TxModel>, address: Seq<char>) -> Seq<UnspentModel>
    decreases txs.len(),
{
    if txs.len() == 0 {
        Seq::empty()
    } else {
        unspent_outputs(txs.drop_last(), address) + tx_unspent(
            txs.last(),
            address,
            txs.drop_last(),
            spendable_count(txs.last()),
        )
    }
}

/// What a list of unspent outputs comes to.
pub open spec fn total_value(s: Seq<UnspentModel>) -> int
    decreases s.len(),
{
    if s.len() == 0 {
        0
    } else {
        total_value(s.drop_last()) + s.last().output.value
    }
}

/// What `address` can still spend in `txs`.
pub open spec fn balance(txs: Seq<TxModel>, address: Seq<char>) -> int {
    total_value(unspent_outputs(txs, address))
}

/// How many of `s`, taken from the front, are needed until they come to
/// `amount` or more: all of them where they never do.
pub open spec fn funded_prefix(s: Seq<UnspentModel>, amount: int) -> nat
    decreases s.len(),
{
    if s.len() == 0 || amount <= 0 {
        0
    } else {
        1 + funded_prefix(s.skip(1), amount - s[0].output.value)
    }
}

/// The outputs chosen to fund `amount`: first come, first taken.
pub open spec fn selected(s: Seq<UnspentModel>, amount: int) -> Seq<UnspentModel> {
    s.take(funded_prefix(s, amount) as int)
}

/// The references to a list of unspent outputs.
pub open spec fn refs_of(s: Seq<UnspentModel>) -> Seq<(Seq<char>, i32)> {
    Seq::new(s.len(), |i: int| (s[i].tx.id, s[i].vout))
}

/// Whether `spent` holds exactly the outputs that `txs` spend with
/// `address`.
pub open spec fn tracks_spent(
    spent: Seq<(Seq<char>, i32)>,
    txs: Seq<TxModel>,
    address: Seq<char>,
) -> bool {
    forall|txid: Seq<char>, vout: i32|
        #![trigger spent.contains((txid, vout))]
        #![trigger spent_by(txs, address, txid, vout)]
        spent.contains((txid, vout)) <==> spent_by(txs, address, txid, vout)
}

/// A list of outputs comes to no more than its length allows.
pub proof fn lemma_total_value_bound(s: Seq<UnspentModel>)
    ensures
        -0x8000_0000 * s.len() <= total_value(s) <= 0x8000_0000 * s.len(),
    decreases s.len(),
{
    if s.len() > 0 {
        lemma_total_value_bound(s.drop_last());
    }
}

/// From `i` on, the greedy choice takes outputs while the total is below
/// `amount`.
pub proof fn lemma_funded_prefix_from(s: Seq<UnspentModel>, amount: int, i: int)
    requires
        0 <= i <= s.len(),
        forall|j: int| 0 <= j < i ==> total_value(#[trigger] s.take(j)) < amount,
    ensures
        ({
            let n = i + funded_prefix(s.skip(i), amount - total_value(s.take(i)));
            &&& i <= n <= s.len()
            &&& forall|j: int| 0 <= j < n ==> total_value(#[trigger] s.take(j)) < amount
            &&& n < s.len() ==> total_value(s.take(n)) >= amount
        }),
    decreases s.len() - i,
{
    let rest = s.skip(i);
    let acc = total_value(s.take(i));
    if rest.len() == 0 || amount - acc <= 0 {
    } else {
        assert(s.take(i + 1).drop_last() =~= s.take(i));
        assert(rest.skip(1) =~= s.skip(i + 1));
        assert(rest[0] == s[i]);
        assert forall|j: int| 0 <= j < i + 1 implies total_value(#[trigger] s.take(j)) < amount by {
            if j == i {
            }
        }
        lemma_funded_prefix_from(s, amount, i + 1);
    }
}

/// What the greedy choice comes to, and where it stops.
pub proof fn lemma_funded_prefix(s: Seq<UnspentModel>, amount: int)
    ensures
        funded_prefix(s, amount) <= s.len(),
        forall|j: int|
            0 <= j < funded_prefix(s, amount) ==> total_value(#[trigger] s.take(j)) < amount,
        funded_prefix(s, amount) < s.len() ==> total_value(selected(s, amount)) >= amount,
{
    assert(s.take(0) =~= Seq::<UnspentModel>::empty());
    assert(s.skip(0) =~= s);
    lemma_funded_prefix_from(s, amount, 0);
}

/// Outputs of no negative amount come to no less than any of their prefixes.
pub proof fn lemma_prefix_total(s: Seq<UnspentModel>, n: int)
    requires
        0 <= n <= s.len(),
        forall|i: int| 0 <= i < s.len() ==> (#[trigger] s[i]).output.value >= 0,
    ensures
        0 <= total_value(s.take(n)) <= total_value(s),
    decreases s.len(),
{
    if s.len() == 0 {
        assert(s.take(n) =~= s);
    } else if n == s.len() {
        assert(s.take(n) =~= s);
        lemma_prefix_total(s.drop_last(), n - 1);
        assert(s.drop_last().take(n - 1) =~= s.drop_last());
    } else {
        lemma_prefix_total(s.drop_last(), n);
        assert(s.drop_last().take(n) =~= s.take(n));
    }
}

/// Where the outputs that an address can spend come to less than `amount`,
/// so does what is chosen to fund `amount`: the choice signals that the
/// funds do not suffice. Outputs carry no negative amounts.
pub proof fn lemma_insufficient_funds_show(s: Seq<UnspentModel>, amount: int)
    requires
        forall|i: int| 0 <= i < s.len() ==> (#[trigger] s[i]).output.value >= 0,
        total_value(s) < amount,
    ensures
        total_value(selected(s, amount)) < amount,
        selected(s, amount) == s,
{
    lemma_funded_prefix(s, amount);
    let n = funded_prefix(s, amount) as int;
    lemma_prefix_total(s, n);
    assert(s.take(s.len() as int) =~= s);
}

/// What a list of unspent outputs comes to.
pub fn sum_values(unspent: &Vec<UnspentOutput>) -> (total: i128)
    ensures
        total == total_value(unspent_models(unspent@)),
{
    let ghost models = unspent_models(unspent@);
    let mut total: i128 = 0;
    let mut i: usize = 0;
    assert(models.take(0) =~= Seq::<UnspentModel>::empty());
    while i < unspent.len()
        invariant
            i <= unspent@.len(),
            models == unspent_models(unspent@),
            total == total_value(models.take(i as int)),
        decreases unspent@.len() - i,
    {
        proof {
            lemma_total_value_bound(models.take(i as int));
            assert(models.take(i + 1).drop_last() =~= models.take(i as int));
        }
        total = total + unspent[i].output.value as i128;
        i += 1;
    }
    assert(models.take(i as int) =~= models);
    total
}

/// Chooses from `unspent`, first come, first taken, the outputs that fund
/// `amount`; gives what they come to, and the references to them. Where
/// all of `unspent` comes to less than `amount`, all are chosen.
pub fn select_outputs(unspent: &Vec<UnspentOutput>, amount: i32) -> (r: (i128, OutputRefs))
    ensures
        r.0 == total_value(selected(unspent_models(unspent@), amount as int)),
        r.1@ == refs_of(selected(unspent_models(unspent@), amount as int)),
{
    let ghost models = unspent_models(unspent@);
    let mut refs = OutputRefs::new();
    let mut acc: i128 = 0;
    let mut i: usize = 0;
    proof {
        assert(models.take(0) =~= Seq::<UnspentModel>::empty());
        assert(models.skip(0) =~= models);
        assert(refs@ =~= refs_of(models.take(0)));
    }
    while i < unspent.len() && acc < amount as i128
        invariant
            i <= unspent@.len(),
            models == unspent_models(unspent@),
            acc == total_value(models.take(i as int)),
            refs@ == refs_of(models.take(i as int)),
            funded_prefix(models, amount as int) == i + funded_prefix(
                models.skip(i as int),
                amount - acc,
            ),
        decreases unspent@.len() - i,
    {
        proof {
            lemma_total_value_bound(models.take(i as int));
            assert(models.take(i + 1).drop_last() =~= models.take(i as int));
            assert(models.skip(i as int).skip(1) =~= models.skip(i + 1));
            assert(models.skip(i as int)[0] == models[i as int]);
        }
        refs.add(unspent[i].tx.id.as_str(), unspent[i].vout);
        acc = acc + unspent[i].output.value as i128;
        i += 1;
        assert(refs@ =~= refs_of(models.take(i as int)));
    }
    (acc, refs)
}

/// Takes `tx` into a scan of the chain for `address`: its outputs that are
/// locked to `address` and not known to be spent join `unspent`, and the
/// outputs that its inputs spend with `address` join `spent`.
pub(crate) fn scan_transaction(
    tx: &Transaction,
    address: &str,
    spent: &mut OutputRefs,
    unspent: &mut Vec<UnspentOutput>,
    Ghost(done): Ghost<Seq<TxModel>>,
)
    requires
        tracks_spent(old(spent)@, done, address@),
        unspent_models(old(unspent)@) == unspent_outputs(done, address@),
    ensures
        tracks_spent(final(spent)@, done.push(tx@), address@),
        unspent_models(final(unspent)@) == unspent_outputs(done.push(tx@), address@),
{
    let ghost base = unspent_models(unspent@);
    let mut i: usize = 0;
    assert(done.push(tx@).drop_last() =~= done);
    while i < tx.vout.len() && i <= 0x7fff_ffff
        invariant
            i <= spendable_count(tx@),
            tx@.vout.len() == tx.vout@.len(),
            spent@ == old(spent)@,
            tracks_spent(spent@, done, address@),
            base == unspent_outputs(done, address@),
            unspent_models(unspent@) == base + tx_unspent(tx@, address@, done, i as nat),
        decreases tx.vout@.len() - i,
    {
        let vout = i as i32;
        let ghost before = unspent_models(unspent@);
        if !spent.contains(tx.id.as_str(), vout) && tx.vout[i].can_be_unlock_with(address) {
            unspent.push(UnspentOutput { tx: tx.clone(), vout, output: tx.vout[i].clone() });
            assert(unspent_models(unspent@) =~= before.push(
                UnspentModel { tx: tx@, vout, output: tx@.vout[i as int] },
            ));
        }
        i += 1;
        assert(unspent_models(unspent@) =~= base + tx_unspent(tx@, address@, done, i as nat));
    }
    assert(i == spendable_count(tx@));
    if !tx.is_coinbase() {
        let mut m: usize = 0;
        while m < tx.vin.len()
            invariant
                m <= tx.vin@.len(),
                tx@.vin.len() == tx.vin@.len(),
                !tx@.is_coinbase(),
                unspent_models(unspent@) == unspent_outputs(done.push(tx@), address@),
                tracks_spent(old(spent)@, done, address@),
                forall|txid: Seq<char>, vout: i32|
                    #![trigger spent@.contains((txid, vout))]
                    spent@.contains((txid, vout)) <==> (old(spent)@.contains((txid, vout))
                        || exists|k: int|
                        0 <= k < m && #[trigger] tx@.vin[k] == (InputModel {
                            txid,
                            vout,
                            script_sig: address@,
                        })),
            decreases tx.vin@.len() - m,
        {
            let ghost before = spent@;
            if tx.vin[m].can_unlock_output_with(address) {
                spent.add(tx.vin[m].txid.as_str(), tx.vin[m].vout);
            }
            proof {
                let input = tx@.vin[m as int];
                assert forall|txid: Seq<char>, vout: i32|
                    #![trigger spent@.contains((txid, vout))]
                    spent@.contains((txid, vout)) <==> (old(spent)@.contains((txid, vout))
                        || exists|k: int|
                        0 <= k < m + 1 && #[trigger] tx@.vin[k] == (InputModel {
                            txid,
                            vout,
                            script_sig: address@,
                        })) by {
                    let wanted = InputModel { txid, vout, script_sig: address@ };
                    let hit = input == wanted;
                    if input.script_sig == address@ {
                        assert(spent@ == before.push((input.txid, input.vout)));
                        assert(spent@.contains((txid, vout)) <==> before.contains((txid, vout))
                            || (txid, vout) == (input.txid, input.vout)) by {
                            if before.contains((txid, vout)) {
                                let w = choose|w: int|
                                    0 <= w < before.len() && before[w] == (txid, vout);
                                assert(spent@[w] == (txid, vout));
                            }
                            if (txid, vout) == (input.txid, input.vout) {
                                assert(spent@[before.len() as int] == (txid, vout));
                            }
                        }
                    } else {
                        assert(spent@ == before);
                    }
                    if hit {
                        assert(tx@.vin[m as int] == wanted);
                    }
                    if before.contains((txid, vout)) {
                        if !old(spent)@.contains((txid, vout)) {
                            let k = choose|k: int|
                                0 <= k < m && #[trigger] tx@.vin[k] == wanted;
                            assert(0 <= k < m + 1 && tx@.vin[k] == wanted);
                        }
                    }
                    if exists|k: int| 0 <= k < m + 1 && #[trigger] tx@.vin[k] == wanted {
                        let k = choose|k: int| 0 <= k < m + 1 && #[trigger] tx@.vin[k] == wanted;
                        if k < m {
                            assert(before.contains((txid, vout)));
                        } else {
                            assert(hit);
                        }
                    }
                }
            }
            m += 1;
        }
    }
    proof {
        let grown = done.push(tx@);
        assert forall|txid: Seq<char>, vout: i32|
            #![trigger spent@.contains((txid, vout))]
            #![trigger spent_by(grown, address@, txid, vout)]
            spent@.contains((txid, vout)) <==> spent_by(grown, address@, txid, vout) by {
            assert(old(spent)@.contains((txid, vout)) <==> spent_by(done, address@, txid, vout));
            if spent_by(done, address@, txid, vout) {
                let j = choose|j: int|
                    0 <= j < done.len() && consumes(#[trigger] done[j], address@, txid, vout);
                assert(grown[j] == done[j]);
            }
            if consumes(tx@, address@, txid, vout) {
                assert(grown[done.len() as int] == tx@);
            }
            if spent_by(grown, address@, txid, vout) {
                let j = choose|j: int|
                    0 <= j < grown.len() && consumes(#[trigger] grown[j], address@, txid, vout);
                if j < done.len() {
                    assert(grown[j] == done[j]);
                    assert(spent_by(done, address@, txid, vout));
                } else {
                    assert(grown[j] == tx@);
                }
            }
            assert(spent_by(grown, address@, txid, vout) <==> (spent_by(
                done,
                address@,
                txid,
                vout,
            ) || consumes(tx@, address@, txid, vout)));
            if tx@.is_coinbase() {
                assert(spent@ == old(spent)@);
            }
        }
    }
}

} // verus!
