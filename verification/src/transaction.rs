//! Transfers: a list of inputs, a list of outputs and an identifier.

use vstd::prelude::*;
use vstd::string::*;
use crate::blockchain::Blockchain;
use crate::digest::{hex_of, sha256, sha256_hex};
use crate::error::ChainError;
use crate::layout::{put_tx, wire_tx};
use crate::tx::{InputModel, OutputModel, TXInput, TXOutput};
use crate::utxo::{
    lemma_funded_prefix, funded_prefix, refs_of, selected, total_value, unspent_outputs,
};

verus! {

/// The value of the one output of a coinbase transaction.
pub const SUBSIDY: i32 = 100;

/// What a transaction is.
pub struct TxModel {
    pub id: Seq<char>,
    pub vin: Seq<InputModel>,
    pub vout: Seq<OutputModel>,
}

/// What a list of inputs holds.
pub open spec fn input_models(v: Seq<TXInput>) -> Seq<InputModel> {
    Seq::new(v.len(), |i: int| v[i]@)
}

/// What a list of outputs holds.
pub open spec fn output_models(v: Seq<TXOutput>) -> Seq<OutputModel> {
    Seq::new(v.len(), |i: int| v[i]@)
}

/// What a list of transactions holds.
pub open spec fn tx_models(v: Seq<Transaction>) -> Seq<TxModel> {
    Seq::new(v.len(), |i: int| v[i]@)
}

/// The memo of a coinbase transaction that was given none.
pub open spec fn default_memo(to: Seq<char>) -> Seq<char> {
    "Reward to '"@ + to + "'"@
}

/// The content of the coinbase transaction that pays the subsidy to `to`:
/// one input that refers to no output and carries the memo, and one output.
/// The identifier is yet to be given.
pub open spec fn coinbase_model(to: Seq<char>, memo: Seq<char>) -> TxModel {
    TxModel {
        id: Seq::empty(),
        vin: seq![
            InputModel {
                txid: Seq::empty(),
                vout: -1i32,
                script_sig: if memo.len() == 0 {
                    default_memo(to)
                } else {
                    memo
                },
            },
        ],
        vout: seq![OutputModel { value: SUBSIDY, script_pub_key: to }],
    }
}

/// What the outputs chosen to fund a payment of `amount` by `from` come to.
pub open spec fn chosen_total(txs: Seq<TxModel>, from: Seq<char>, amount: i32) -> int {
    total_value(selected(unspent_outputs(txs, from), amount as int))
}

/// The inputs of a payment by `from`: one for each chosen output, in the
/// order in which they were chosen.
pub open spec fn spend_inputs(refs: Seq<(Seq<char>, i32)>, from: Seq<char>) -> Seq<InputModel> {
    Seq::new(
        refs.len(),
        |i: int| InputModel { txid: refs[i].0, vout: refs[i].1, script_sig: from },
    )
}

/// The outputs of a payment of `amount` to `to`, funded with outputs of
/// `from` that come to `total`: the payment, and what is left over, if
/// anything is, back to `from`.
pub open spec fn spend_outputs(to: Seq<char>, from: Seq<char>, amount: i32, total: int) -> Seq<
    OutputModel,
> {
    if total > amount {
        seq![
            OutputModel { value: amount, script_pub_key: to },
            OutputModel { value: (total - amount) as i32, script_pub_key: from },
        ]
    } else {
        seq![OutputModel { value: amount, script_pub_key: to }]
    }
}

/// The transaction by which `from` pays `amount` to `to` on a chain with
/// the transactions `txs`.
pub open spec fn spend_model(txs: Seq<TxModel>, from: Seq<char>, to: Seq<char>, amount: i32) -> TxModel {
    (TxModel {
        id: Seq::empty(),
        vin: spend_inputs(refs_of(selected(unspent_outputs(txs, from), amount as int)), from),
        vout: spend_outputs(to, from, amount, chosen_total(txs, from, amount)),
    }).sealed()
}

/// What a list of outputs comes to.
pub open spec fn outputs_total(v: Seq<OutputModel>) -> int
    decreases v.len(),
{
    if v.len() == 0 {
        0
    } else {
        outputs_total(v.drop_last()) + v.last().value
    }
}

/// The outputs of a payment come to what funds it, and none of them carries
/// a negative amount: a payment creates no value.
pub proof fn lemma_spend_outputs_total(to: Seq<char>, from: Seq<char>, amount: i32, total: int)
    requires
        0 <= amount <= total,
        total - amount <= i32::MAX,
    ensures
        outputs_total(spend_outputs(to, from, amount, total)) == total,
        forall|i: int|
            0 <= i < spend_outputs(to, from, amount, total).len() ==> (#[trigger] spend_outputs(
                to,
                from,
                amount,
                total,
            )[i]).value >= 0,
{
    let v = spend_outputs(to, from, amount, total);
    if total > amount {
        assert(v.drop_last() =~= seq![OutputModel { value: amount, script_pub_key: to }]);
        assert(v.drop_last().drop_last() =~= Seq::<OutputModel>::empty());
        assert(outputs_total(v.drop_last().drop_last()) == 0);
        assert(outputs_total(v.drop_last()) == amount);
    } else {
        assert(v.drop_last() =~= Seq::<OutputModel>::empty());
        assert(outputs_total(v.drop_last()) == 0);
    }
}

/// A payment of more than nothing has an input.
pub proof fn lemma_spend_has_inputs(txs: Seq<TxModel>, from: Seq<char>, amount: i32)
    requires
        amount > 0,
        chosen_total(txs, from, amount) >= amount,
    ensures
        selected(unspent_outputs(txs, from), amount as int).len() > 0,
{
}

/// What is left over of the chosen outputs is an amount that an output can
/// hold.
pub proof fn lemma_change_fits(txs: Seq<TxModel>, from: Seq<char>, amount: i32)
    requires
        amount > i32::MIN,
        chosen_total(txs, from, amount) >= amount,
    ensures
        0 <= chosen_total(txs, from, amount) - amount <= i32::MAX,
{
    let s = unspent_outputs(txs, from);
    let n = funded_prefix(s, amount as int) as int;
    lemma_funded_prefix(s, amount as int);
    if n == 0 {
        assert(s.take(0) =~= Seq::empty());
    } else {
        assert(s.take(n).drop_last() =~= s.take(n - 1));
        assert(total_value(s.take(n - 1)) < amount);
    }
}

impl TxModel {
    /// Whether the transaction originates value: its one input refers to no
    /// transaction and to output -1.
    pub open spec fn is_coinbase(self) -> bool {
        self.vin.len() == 1 && self.vin[0].txid.len() == 0 && self.vin[0].vout == -1
    }

    /// The identifier that the content of the transaction gives: the
    /// hexadecimal SHA-256 digest of its stored layout.
    pub open spec fn digest(self) -> Seq<char> {
        hex_of(sha256(wire_tx(self)))
    }

    /// The transaction with the identifier that its content gives.
    pub open spec fn sealed(self) -> TxModel {
        TxModel { id: self.digest(), vin: self.vin, vout: self.vout }
    }
}

/// A transfer of value from earlier outputs to new ones.
#[derive(Debug, PartialEq, Eq)]
pub struct Transaction {
    pub id: String,
    pub vin: Vec<TXInput>,
    pub vout: Vec<TXOutput>,
}

impl View for Transaction {
    type V = TxModel;

    open spec fn view(&self) -> TxModel {
        TxModel { id: self.id@, vin: input_models(self.vin@), vout: output_models(self.vout@) }
    }
}

/// A copy of a list of inputs.
pub fn clone_inputs(v: &Vec<TXInput>) -> (r: Vec<TXInput>)
    ensures
        input_models(r@) == input_models(v@),
{
    let mut r: Vec<TXInput> = Vec::new();
    let mut i: usize = 0;
    while i < v.len()
        invariant
            i <= v@.len(),
            r@.len() == i,
            forall|j: int| 0 <= j < i ==> r@[j]@ == v@[j]@,
        decreases v@.len() - i,
    {
        r.push(v[i].clone());
        i += 1;
    }
    assert(input_models(r@) =~= input_models(v@));
    r
}

/// A copy of a list of outputs.
pub fn clone_outputs(v: &Vec<TXOutput>) -> (r: Vec<TXOutput>)
    ensures
        output_models(r@) == output_models(v@),
{
    let mut r: Vec<TXOutput> = Vec::new();
    let mut i: usize = 0;
    while i < v.len()
        invariant
            i <= v@.len(),
            r@.len() == i,
            forall|j: int| 0 <= j < i ==> r@[j]@ == v@[j]@,
        decreases v@.len() - i,
    {
        r.push(v[i].clone());
        i += 1;
    }
    assert(output_models(r@) =~= output_models(v@));
    r
}

/// A copy of a list of transactions.
pub fn clone_transactions(v: &Vec<Transaction>) -> (r: Vec<Transaction>)
    ensures
        tx_models(r@) == tx_models(v@),
{
    let mut r: Vec<Transaction> = Vec::new();
    let mut i: usize = 0;
    while i < v.len()
        invariant
            i <= v@.len(),
            r@.len() == i,
            forall|j: int| 0 <= j < i ==> r@[j]@ == v@[j]@,
        decreases v@.len() - i,
    {
        r.push(v[i].clone());
        i += 1;
    }
    assert(tx_models(r@) =~= tx_models(v@));
    r
}

impl Clone for Transaction {
    fn clone(&self) -> (r: Self)
        ensures
            r@ == self@,
    {
        Transaction {
            id: self.id.clone(),
            vin: clone_inputs(&self.vin),
            vout: clone_outputs(&self.vout),
        }
    }
}

impl Transaction {
    /// The transaction that pays the subsidy to `to`, with the identifier
    /// that its content gives. An empty `data` is replaced by a memo that
    /// names `to`.
    pub fn new_coinbase(to: String, data: String) -> (r: Result<Transaction, ChainError>)
        ensures
            r is Ok,
            r->Ok_0@ == coinbase_model(to@, data@).sealed(),
            r->Ok_0@.id.len() == 64,
    {
        let memo = if data.as_str().is_empty() {
            let mut m = String::from_str("Reward to '");
            m.append(to.as_str());
            m.append("'");
            m
        } else {
            data
        };
        let mut vin: Vec<TXInput> = Vec::new();
        vin.push(TXInput { txid: String::new(), vout: -1, script_sig: memo });
        let mut vout: Vec<TXOutput> = Vec::new();
        vout.push(TXOutput { value: SUBSIDY, script_pub_key: to });
        let mut tx = Transaction { id: String::new(), vin, vout };
        proof {
            assert(tx@.vin =~= coinbase_model(to@, data@).vin);
            assert(tx@.vout =~= coinbase_model(to@, data@).vout);
            assert(tx@.id =~= coinbase_model(to@, data@).id);
        }
        tx.set_id();
        Ok(tx)
    }

    /// Gives the transaction the identifier that its content gives.
    pub fn set_id(&mut self)
        ensures
            final(self)@ == old(self)@.sealed(),
            final(self)@.id.len() == 64,
    {
        let mut bytes: Vec<u8> = Vec::new();
        put_tx(&mut bytes, self);
        assert(bytes@ =~= wire_tx(self@));
        self.id = sha256_hex(bytes.as_slice());
    }

    /// The transaction by which `from` pays `amount` to `to`, funded with
    /// outputs that `from` can still spend on the chain `bc`. Its outputs
    /// come to what its inputs consume.
    #[allow(non_snake_case)]
    pub fn new_UTXO(from: &str, to: &str, amount: i32, bc: &Blockchain) -> (r: Result<
        Transaction,
        ChainError,
    >)
        requires
            amount >= 0,
        ensures
            match r {
                Ok(tx) => {
                    &&& chosen_total(bc.txs(), from@, amount) >= amount
                    &&& tx@ == spend_model(bc.txs(), from@, to@, amount)
                    &&& tx@.id.len() == 64
                    &&& outputs_total(tx@.vout) == chosen_total(bc.txs(), from@, amount)
                    &&& forall|i: int| 0 <= i < tx@.vout.len() ==> (#[trigger] tx@.vout[i]).value >= 0
                    &&& amount > 0 ==> tx@.vin.len() > 0
                },
                Err(e) => {
                    &&& chosen_total(bc.txs(), from@, amount) < amount
                    &&& e == (ChainError::InsufficientBalance {
                        available: chosen_total(bc.txs(), from@, amount) as i128,
                    })
                },
            },
    {
        let (total, refs) = bc.find_unspent_outputs(from, amount);
        if total < amount as i128 {
            return Err(ChainError::InsufficientBalance { available: total });
        }
        proof {
            lemma_change_fits(bc.txs(), from@, amount);
            lemma_spend_outputs_total(to@, from@, amount, total as int);
            if amount > 0 {
                lemma_spend_has_inputs(bc.txs(), from@, amount);
            }
        }
        let mut vin: Vec<TXInput> = Vec::new();
        let mut i: usize = 0;
        while i < refs.len()
            invariant
                i <= refs@.len(),
                vin@.len() == i,
                forall|j: int|
                    0 <= j < i ==> (#[trigger] vin@[j])@ == (InputModel {
                        txid: refs@[j].0,
                        vout: refs@[j].1,
                        script_sig: from@,
                    }),
            decreases refs@.len() - i,
        {
            vin.push(
                TXInput {
                    txid: refs.txid_at(i).clone(),
                    vout: refs.vout_at(i),
                    script_sig: String::from_str(from),
                },
            );
            i += 1;
        }
        let mut vout: Vec<TXOutput> = Vec::new();
        vout.push(TXOutput { value: amount, script_pub_key: String::from_str(to) });
        if total > amount as i128 {
            vout.push(
                TXOutput {
                    value: (total - amount as i128) as i32,
                    script_pub_key: String::from_str(from),
                },
            );
        }
        let mut tx = Transaction { id: String::new(), vin, vout };
        proof {
            assert(tx@.vin =~= spend_inputs(refs@, from@));
            assert(tx@.vout =~= spend_outputs(to@, from@, amount, total as int));
        }
        tx.set_id();
        Ok(tx)
    }

    /// Whether the transaction originates value.
    pub fn is_coinbase(&self) -> (r: bool)
        ensures
            r == self@.is_coinbase(),
    {
        self.vin.len() == 1 && self.vin[0].txid.as_str().is_empty() && self.vin[0].vout == -1
    }
}

} // verus!
