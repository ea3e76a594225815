//! The stored layout of inputs, outputs and transactions: each record is
//! its fields in order, each list a count followed by its items.

use vstd::prelude::*;
use crate::transaction::{input_models, output_models, tx_models, Transaction, TxModel};
use crate::tx::{InputModel, OutputModel, TXInput, TXOutput};
use crate::wire::{
    item_of, lemma_i32_canonical, lemma_i32_round_trip, lemma_text_canonical,
    lemma_text_round_trip, lemma_u64_canonical, lemma_u64_round_trip, parse_i32, parse_text,
    parse_u64, put_i32, put_text, put_u64, rest_of, take_i32, take_text, take_u64, text_fits,
    wire_i32, wire_text, wire_u64,
};

verus! {

/// The items of `v` one after the other, each laid out by `w`.
pub open spec fn wire_many<T>(v: Seq<T>, w: spec_fn(T) -> Seq<u8>) -> Seq<u8>
    decreases v.len(),
{
    if v.len() == 0 {
        Seq::empty()
    } else {
        w(v[0]) + wire_many(v.skip(1), w)
    }
}

/// Reads `n` items from the front of `s`, each by `p`.
pub open spec fn parse_many<T>(
    s: Seq<u8>,
    n: nat,
    p: spec_fn(Seq<u8>) -> Option<(T, Seq<u8>)>,
) -> Option<(Seq<T>, Seq<u8>)>
    decreases n,
{
    if n == 0 {
        Some((Seq::empty(), s))
    } else {
        match p(s) {
            Some((x, rest)) => match parse_many(rest, (n - 1) as nat, p) {
                Some((xs, tail)) => Some((seq![x] + xs, tail)),
                None => None,
            },
            None => None,
        }
    }
}

/// The stored layout of a list: its length, then its items.
pub open spec fn wire_list<T>(v: Seq<T>, w: spec_fn(T) -> Seq<u8>) -> Seq<u8> {
    wire_u64(v.len() as u64) + wire_many(v, w)
}

/// Reads a list: its length, then its items from the front of `s`.
pub open spec fn parse_list<T>(s: Seq<u8>, p: spec_fn(Seq<u8>) -> Option<(T, Seq<u8>)>) -> Option<
    (Seq<T>, Seq<u8>),
> {
    match parse_u64(s) {
        Some((n, rest)) => parse_many(rest, n as nat, p),
        None => None,
    }
}

/// One more item adds its layout behind the others.
pub proof fn lemma_wire_many_push<T>(v: Seq<T>, x: T, w: spec_fn(T) -> Seq<u8>)
    ensures
        wire_many(v.push(x), w) == wire_many(v, w) + w(x),
    decreases v.len(),
{
    if v.len() == 0 {
        assert(v.push(x).skip(1) =~= Seq::<T>::empty());
        assert(wire_many(Seq::<T>::empty(), w) =~= Seq::<u8>::empty());
        assert(wire_many(v, w) =~= Seq::<u8>::empty());
        assert(wire_many(v.push(x), w) =~= w(x) + wire_many(v.push(x).skip(1), w));
    } else {
        lemma_wire_many_push(v.skip(1), x, w);
        assert(v.push(x).skip(1) =~= v.skip(1).push(x));
        assert(wire_many(v.push(x), w) =~= wire_many(v, w) + w(x));
    }
}

/// One more item read behind `n` items makes `n + 1` items.
pub proof fn lemma_parse_many_extend<T>(
    s: Seq<u8>,
    n: nat,
    p: spec_fn(Seq<u8>) -> Option<(T, Seq<u8>)>,
)
    requires
        parse_many(s, n, p) is Some,
        p(rest_of(parse_many(s, n, p))) is Some,
    ensures
        parse_many(s, n + 1, p) == Some(
            (
                item_of(parse_many(s, n, p)).push(item_of(p(rest_of(parse_many(s, n, p))))),
                rest_of(p(rest_of(parse_many(s, n, p)))),
            ),
        ),
    decreases n,
{
    if n == 0 {
        let x = item_of(p(s));
        assert(parse_many(rest_of(p(s)), 0, p) == Some((Seq::<T>::empty(), rest_of(p(s)))));
        assert(seq![x] + Seq::<T>::empty() =~= Seq::<T>::empty().push(x));
    } else {
        let first = p(s)->0;
        lemma_parse_many_extend(first.1, (n - 1) as nat, p);
        let xs = item_of(parse_many(first.1, (n - 1) as nat, p));
        let r = rest_of(parse_many(first.1, (n - 1) as nat, p));
        let x = item_of(p(r));
        assert(seq![first.0] + xs.push(x) =~= (seq![first.0] + xs).push(x));
    }
}

/// Where the item behind `n` items cannot be read, no longer list can.
pub proof fn lemma_parse_many_stuck<T>(
    s: Seq<u8>,
    n: nat,
    m: nat,
    p: spec_fn(Seq<u8>) -> Option<(T, Seq<u8>)>,
)
    requires
        parse_many(s, n, p) is Some,
        p(rest_of(parse_many(s, n, p))) is None,
        n < m,
    ensures
        parse_many(s, m, p) is None,
    decreases n,
{
    if n > 0 {
        lemma_parse_many_stuck(rest_of(p(s)), (n - 1) as nat, (m - 1) as nat, p);
    }
}

/// A run of items that is laid out and read back is the same.
pub proof fn lemma_many_round_trip<T>(
    v: Seq<T>,
    w: spec_fn(T) -> Seq<u8>,
    p: spec_fn(Seq<u8>) -> Option<(T, Seq<u8>)>,
    rest: Seq<u8>,
)
    requires
        forall|i: int, r: Seq<u8>| 0 <= i < v.len() ==> #[trigger] p(w(v[i]) + r) == Some((v[i], r)),
    ensures
        parse_many(wire_many(v, w) + rest, v.len(), p) == Some((v, rest)),
    decreases v.len(),
{
    if v.len() == 0 {
        assert(wire_many(v, w) + rest =~= rest);
        assert(v =~= Seq::<T>::empty());
    } else {
        let tail = v.skip(1);
        let after = wire_many(tail, w) + rest;
        assert(wire_many(v, w) + rest =~= w(v[0]) + after);
        assert(p(w(v[0]) + after) == Some((v[0], after)));
        assert forall|i: int, r: Seq<u8>| 0 <= i < tail.len() implies #[trigger] p(w(tail[i]) + r)
            == Some((tail[i], r)) by {
            assert(tail[i] == v[i + 1]);
        }
        lemma_many_round_trip(tail, w, p, rest);
        assert(seq![v[0]] + tail =~= v);
    }
}

/// A list that is laid out and read back is the same.
pub proof fn lemma_list_round_trip<T>(
    v: Seq<T>,
    w: spec_fn(T) -> Seq<u8>,
    p: spec_fn(Seq<u8>) -> Option<(T, Seq<u8>)>,
    rest: Seq<u8>,
)
    requires
        v.len() <= u64::MAX,
        forall|i: int, r: Seq<u8>| 0 <= i < v.len() ==> #[trigger] p(w(v[i]) + r) == Some((v[i], r)),
    ensures
        parse_list(wire_list(v, w) + rest, p) == Some((v, rest)),
{
    lemma_u64_round_trip(v.len() as u64, wire_many(v, w) + rest);
    assert(wire_list(v, w) + rest =~= wire_u64(v.len() as u64) + (wire_many(v, w) + rest));
    lemma_many_round_trip(v, w, p, rest);
}

/// Items that are laid out in one way only make a list that is laid out in
/// one way only.
pub proof fn lemma_many_canonical<T>(
    s: Seq<u8>,
    n: nat,
    w: spec_fn(T) -> Seq<u8>,
    p: spec_fn(Seq<u8>) -> Option<(T, Seq<u8>)>,
)
    requires
        parse_many(s, n, p) is Some,
        forall|b: Seq<u8>| (#[trigger] p(b)) is Some ==> b == w(item_of(p(b))) + rest_of(p(b)),
    ensures
        s == wire_many(item_of(parse_many(s, n, p)), w) + rest_of(parse_many(s, n, p)),
        item_of(parse_many(s, n, p)).len() == n,
    decreases n,
{
    if n == 0 {
        assert(wire_many(Seq::<T>::empty(), w) + s =~= s);
    } else {
        let x = item_of(p(s));
        let after = rest_of(p(s));
        lemma_many_canonical(after, (n - 1) as nat, w, p);
        let xs = item_of(parse_many(after, (n - 1) as nat, p));
        let tail = rest_of(parse_many(after, (n - 1) as nat, p));
        let all = seq![x] + xs;
        assert(all.skip(1) =~= xs);
        assert(all[0] == x);
        assert(s =~= wire_many(all, w) + tail);
    }
}

/// Bytes that are read as a list are the layout of what was read.
pub proof fn lemma_list_canonical<T>(
    s: Seq<u8>,
    w: spec_fn(T) -> Seq<u8>,
    p: spec_fn(Seq<u8>) -> Option<(T, Seq<u8>)>,
)
    requires
        parse_list(s, p) is Some,
        forall|b: Seq<u8>| (#[trigger] p(b)) is Some ==> b == w(item_of(p(b))) + rest_of(p(b)),
    ensures
        s == wire_list(item_of(parse_list(s, p)), w) + rest_of(parse_list(s, p)),
        item_of(parse_list(s, p)).len() <= u64::MAX,
{
    lemma_u64_canonical(s);
    let n = item_of(parse_u64(s));
    let after = rest_of(parse_u64(s));
    lemma_many_canonical(after, n as nat, w, p);
    let v = item_of(parse_many(after, n as nat, p));
    assert(s =~= wire_list(v, w) + rest_of(parse_many(after, n as nat, p)));
}

impl InputModel {
    /// Whether the layout can hold the input.
    pub open spec fn fits(self) -> bool {
        text_fits(self.txid) && text_fits(self.script_sig)
    }
}

impl OutputModel {
    /// Whether the layout can hold the output.
    pub open spec fn fits(self) -> bool {
        text_fits(self.script_pub_key)
    }
}

impl TxModel {
    /// Whether the layout can hold the transaction.
    pub open spec fn fits(self) -> bool {
        &&& text_fits(self.id)
        &&& self.vin.len() <= u64::MAX
        &&& self.vout.len() <= u64::MAX
        &&& forall|i: int| 0 <= i < self.vin.len() ==> (#[trigger] self.vin[i]).fits()
        &&& forall|i: int| 0 <= i < self.vout.len() ==> (#[trigger] self.vout[i]).fits()
    }
}

/// The stored layout of an input.
pub open spec fn wire_input(i: InputModel) -> Seq<u8> {
    wire_text(i.txid) + wire_i32(i.vout) + wire_text(i.script_sig)
}

/// Reads an input from the front of `s`.
pub open spec fn parse_input(s: Seq<u8>) -> Option<(InputModel, Seq<u8>)> {
    match parse_text(s) {
        Some((txid, s1)) => match parse_i32(s1) {
            Some((vout, s2)) => match parse_text(s2) {
                Some((script_sig, s3)) => Some((InputModel { txid, vout, script_sig }, s3)),
                None => None,
            },
            None => None,
        },
        None => None,
    }
}

/// The stored layout of an output.
pub open spec fn wire_output(o: OutputModel) -> Seq<u8> {
    wire_i32(o.value) + wire_text(o.script_pub_key)
}

/// Reads an output from the front of `s`.
pub open spec fn parse_output(s: Seq<u8>) -> Option<(OutputModel, Seq<u8>)> {
    match parse_i32(s) {
        Some((value, s1)) => match parse_text(s1) {
            Some((script_pub_key, s2)) => Some((OutputModel { value, script_pub_key }, s2)),
            None => None,
        },
        None => None,
    }
}

/// The stored layout of a list of inputs.
pub open spec fn wire_inputs(v: Seq<InputModel>) -> Seq<u8> {
    wire_list(v, |i: InputModel| wire_input(i))
}

/// Reads a list of inputs from the front of `s`.
pub open spec fn parse_inputs(s: Seq<u8>) -> Option<(Seq<InputModel>, Seq<u8>)> {
    parse_list(s, |b: Seq<u8>| parse_input(b))
}

/// The stored layout of a list of outputs.
pub open spec fn wire_outputs(v: Seq<OutputModel>) -> Seq<u8> {
    wire_list(v, |o: OutputModel| wire_output(o))
}

/// Reads a list of outputs from the front of `s`.
pub open spec fn parse_outputs(s: Seq<u8>) -> Option<(Seq<OutputModel>, Seq<u8>)> {
    parse_list(s, |b: Seq<u8>| parse_output(b))
}

/// The stored layout of a transaction.
pub open spec fn wire_tx(t: TxModel) -> Seq<u8> {
    wire_text(t.id) + wire_inputs(t.vin) + wire_outputs(t.vout)
}

/// Reads a transaction from the front of `s`.
pub open spec fn parse_tx(s: Seq<u8>) -> Option<(TxModel, Seq<u8>)> {
    match parse_text(s) {
        Some((id, s1)) => match parse_inputs(s1) {
            Some((vin, s2)) => match parse_outputs(s2) {
                Some((vout, s3)) => Some((TxModel { id, vin, vout }, s3)),
                None => None,
            },
            None => None,
        },
        None => None,
    }
}

/// The stored layout of a list of transactions.
pub open spec fn wire_txs(v: Seq<TxModel>) -> Seq<u8> {
    wire_list(v, |t: TxModel| wire_tx(t))
}

/// Reads a list of transactions from the front of `s`.
pub open spec fn parse_txs(s: Seq<u8>) -> Option<(Seq<TxModel>, Seq<u8>)> {
    parse_list(s, |b: Seq<u8>| parse_tx(b))
}

/// An input that is laid out and read back is the same.
pub proof fn lemma_input_round_trip(i: InputModel, rest: Seq<u8>)
    requires
        i.fits(),
    ensures
        parse_input(wire_input(i) + rest) == Some((i, rest)),
{
    let s2 = wire_text(i.script_sig) + rest;
    let s1 = wire_i32(i.vout) + s2;
    assert(wire_input(i) + rest =~= wire_text(i.txid) + s1);
    lemma_text_round_trip(i.txid, s1);
    lemma_i32_round_trip(i.vout, s2);
    lemma_text_round_trip(i.script_sig, rest);
}

/// An output that is laid out and read back is the same.
pub proof fn lemma_output_round_trip(o: OutputModel, rest: Seq<u8>)
    requires
        o.fits(),
    ensures
        parse_output(wire_output(o) + rest) == Some((o, rest)),
{
    let s1 = wire_text(o.script_pub_key) + rest;
    assert(wire_output(o) + rest =~= wire_i32(o.value) + s1);
    lemma_i32_round_trip(o.value, s1);
    lemma_text_round_trip(o.script_pub_key, rest);
}

/// A list of inputs that is laid out and read back is the same.
pub proof fn lemma_inputs_round_trip(v: Seq<InputModel>, rest: Seq<u8>)
    requires
        v.len() <= u64::MAX,
        forall|i: int| 0 <= i < v.len() ==> (#[trigger] v[i]).fits(),
    ensures
        parse_inputs(wire_inputs(v) + rest) == Some((v, rest)),
{
    let w = |i: InputModel| wire_input(i);
    let p = |b: Seq<u8>| parse_input(b);
    assert forall|i: int, r: Seq<u8>| 0 <= i < v.len() implies #[trigger] p(w(v[i]) + r) == Some(
        (v[i], r),
    ) by {
        lemma_input_round_trip(v[i], r);
    }
    lemma_list_round_trip(v, w, p, rest);
}

/// A list of outputs that is laid out and read back is the same.
pub proof fn lemma_outputs_round_trip(v: Seq<OutputModel>, rest: Seq<u8>)
    requires
        v.len() <= u64::MAX,
        forall|i: int| 0 <= i < v.len() ==> (#[trigger] v[i]).fits(),
    ensures
        parse_outputs(wire_outputs(v) + rest) == Some((v, rest)),
{
    let w = |o: OutputModel| wire_output(o);
    let p = |b: Seq<u8>| parse_output(b);
    assert forall|i: int, r: Seq<u8>| 0 <= i < v.len() implies #[trigger] p(w(v[i]) + r) == Some(
        (v[i], r),
    ) by {
        lemma_output_round_trip(v[i], r);
    }
    lemma_list_round_trip(v, w, p, rest);
}

/// A transaction that is laid out and read back is the same.
pub proof fn lemma_tx_round_trip(t: TxModel, rest: Seq<u8>)
    requires
        t.fits(),
    ensures
        parse_tx(wire_tx(t) + rest) == Some((t, rest)),
{
    let s2 = wire_outputs(t.vout) + rest;
    let s1 = wire_inputs(t.vin) + s2;
    assert(wire_tx(t) + rest =~= wire_text(t.id) + s1);
    lemma_text_round_trip(t.id, s1);
    lemma_inputs_round_trip(t.vin, s2);
    lemma_outputs_round_trip(t.vout, rest);
}

/// A list of transactions that is laid out and read back is the same.
pub proof fn lemma_txs_round_trip(v: Seq<TxModel>, rest: Seq<u8>)
    requires
        v.len() <= u64::MAX,
        forall|i: int| 0 <= i < v.len() ==> (#[trigger] v[i]).fits(),
    ensures
        parse_txs(wire_txs(v) + rest) == Some((v, rest)),
{
    let w = |t: TxModel| wire_tx(t);
    let p = |b: Seq<u8>| parse_tx(b);
    assert forall|i: int, r: Seq<u8>| 0 <= i < v.len() implies #[trigger] p(w(v[i]) + r) == Some(
        (v[i], r),
    ) by {
        lemma_tx_round_trip(v[i], r);
    }
    lemma_list_round_trip(v, w, p, rest);
}

/// Bytes that are read as an input are the layout of what was read.
pub proof fn lemma_input_canonical(s: Seq<u8>)
    requires
        parse_input(s) is Some,
    ensures
        s == wire_input(item_of(parse_input(s))) + rest_of(parse_input(s)),
        item_of(parse_input(s)).fits(),
{
    lemma_text_canonical(s);
    let s1 = rest_of(parse_text(s));
    lemma_i32_canonical(s1);
    let s2 = rest_of(parse_i32(s1));
    lemma_text_canonical(s2);
    assert(s =~= wire_input(item_of(parse_input(s))) + rest_of(parse_text(s2)));
}

/// Bytes that are read as an output are the layout of what was read.
pub proof fn lemma_output_canonical(s: Seq<u8>)
    requires
        parse_output(s) is Some,
    ensures
        s == wire_output(item_of(parse_output(s))) + rest_of(parse_output(s)),
        item_of(parse_output(s)).fits(),
{
    lemma_i32_canonical(s);
    let s1 = rest_of(parse_i32(s));
    lemma_text_canonical(s1);
    assert(s =~= wire_output(item_of(parse_output(s))) + rest_of(parse_text(s1)));
}

/// The items that `parse_many` read were each read by the item parser.
pub proof fn lemma_parse_many_items<T>(
    s: Seq<u8>,
    n: nat,
    p: spec_fn(Seq<u8>) -> Option<(T, Seq<u8>)>,
    i: int,
)
    requires
        parse_many(s, n, p) is Some,
        0 <= i < n,
    ensures
        item_of(parse_many(s, n, p)).len() == n,
        exists|b: Seq<u8>| (#[trigger] p(b)) is Some && item_of(p(b)) == item_of(parse_many(s, n, p))[i],
    decreases n,
{
    let after = rest_of(p(s));
    let xs = item_of(parse_many(after, (n - 1) as nat, p));
    lemma_parse_many_len(s, n, p);
    if i == 0 {
        assert(p(s) is Some && item_of(p(s)) == item_of(parse_many(s, n, p))[0]);
    } else {
        lemma_parse_many_items(after, (n - 1) as nat, p, i - 1);
        assert(item_of(parse_many(s, n, p))[i] == xs[i - 1]);
    }
}

/// Reading `n` items gives `n` items.
pub proof fn lemma_parse_many_len<T>(
    s: Seq<u8>,
    n: nat,
    p: spec_fn(Seq<u8>) -> Option<(T, Seq<u8>)>,
)
    requires
        parse_many(s, n, p) is Some,
    ensures
        item_of(parse_many(s, n, p)).len() == n,
    decreases n,
{
    if n > 0 {
        lemma_parse_many_len(rest_of(p(s)), (n - 1) as nat, p);
    }
}

/// Bytes that are read as a list of inputs are the layout of what was read.
pub proof fn lemma_inputs_canonical(s: Seq<u8>)
    requires
        parse_inputs(s) is Some,
    ensures
        s == wire_inputs(item_of(parse_inputs(s))) + rest_of(parse_inputs(s)),
        item_of(parse_inputs(s)).len() <= u64::MAX,
        forall|i: int|
            0 <= i < item_of(parse_inputs(s)).len() ==> (#[trigger] item_of(parse_inputs(s))[i]).fits(),
{
    let w = |i: InputModel| wire_input(i);
    let p = |b: Seq<u8>| parse_input(b);
    assert forall|b: Seq<u8>| (#[trigger] p(b)) is Some implies b == w(item_of(p(b))) + rest_of(
        p(b),
    ) by {
        lemma_input_canonical(b);
    }
    lemma_list_canonical(s, w, p);
    let n = item_of(parse_u64(s)) as nat;
    let after = rest_of(parse_u64(s));
    assert forall|i: int| 0 <= i < item_of(parse_inputs(s)).len() implies (#[trigger] item_of(
        parse_inputs(s),
    )[i]).fits() by {
        lemma_parse_many_len(after, n, p);
        lemma_parse_many_items(after, n, p, i);
        let b = choose|b: Seq<u8>|
            (#[trigger] p(b)) is Some && item_of(p(b)) == item_of(parse_many(after, n, p))[i];
        lemma_input_canonical(b);
    }
}

/// Bytes that are read as a list of outputs are the layout of what was read.
pub proof fn lemma_outputs_canonical(s: Seq<u8>)
    requires
        parse_outputs(s) is Some,
    ensures
        s == wire_outputs(item_of(parse_outputs(s))) + rest_of(parse_outputs(s)),
        item_of(parse_outputs(s)).len() <= u64::MAX,
        forall|i: int|
            0 <= i < item_of(parse_outputs(s)).len() ==> (#[trigger] item_of(parse_outputs(s))[i]).fits(),
{
    let w = |o: OutputModel| wire_output(o);
    let p = |b: Seq<u8>| parse_output(b);
    assert forall|b: Seq<u8>| (#[trigger] p(b)) is Some implies b == w(item_of(p(b))) + rest_of(
        p(b),
    ) by {
        lemma_output_canonical(b);
    }
    lemma_list_canonical(s, w, p);
    let n = item_of(parse_u64(s)) as nat;
    let after = rest_of(parse_u64(s));
    assert forall|i: int| 0 <= i < item_of(parse_outputs(s)).len() implies (#[trigger] item_of(
        parse_outputs(s),
    )[i]).fits() by {
        lemma_parse_many_len(after, n, p);
        lemma_parse_many_items(after, n, p, i);
        let b = choose|b: Seq<u8>|
            (#[trigger] p(b)) is Some && item_of(p(b)) == item_of(parse_many(after, n, p))[i];
        lemma_output_canonical(b);
    }
}

/// Bytes that are read as a transaction are the layout of what was read.
pub proof fn lemma_tx_canonical(s: Seq<u8>)
    requires
        parse_tx(s) is Some,
    ensures
        s == wire_tx(item_of(parse_tx(s))) + rest_of(parse_tx(s)),
        item_of(parse_tx(s)).fits(),
{
    lemma_text_canonical(s);
    let s1 = rest_of(parse_text(s));
    lemma_inputs_canonical(s1);
    let s2 = rest_of(parse_inputs(s1));
    lemma_outputs_canonical(s2);
    assert(s =~= wire_tx(item_of(parse_tx(s))) + rest_of(parse_outputs(s2)));
}

/// Bytes that are read as a list of transactions are the layout of what was read.
pub proof fn lemma_txs_canonical(s: Seq<u8>)
    requires
        parse_txs(s) is Some,
    ensures
        s == wire_txs(item_of(parse_txs(s))) + rest_of(parse_txs(s)),
        item_of(parse_txs(s)).len() <= u64::MAX,
        forall|i: int|
            0 <= i < item_of(parse_txs(s)).len() ==> (#[trigger] item_of(parse_txs(s))[i]).fits(),
{
    let w = |t: TxModel| wire_tx(t);
    let p = |b: Seq<u8>| parse_tx(b);
    assert forall|b: Seq<u8>| (#[trigger] p(b)) is Some implies b == w(item_of(p(b))) + rest_of(
        p(b),
    ) by {
        lemma_tx_canonical(b);
    }
    lemma_list_canonical(s, w, p);
    let n = item_of(parse_u64(s)) as nat;
    let after = rest_of(parse_u64(s));
    assert forall|i: int| 0 <= i < item_of(parse_txs(s)).len() implies (#[trigger] item_of(
        parse_txs(s),
    )[i]).fits() by {
        lemma_parse_many_len(after, n, p);
        lemma_parse_many_items(after, n, p, i);
        let b = choose|b: Seq<u8>|
            (#[trigger] p(b)) is Some && item_of(p(b)) == item_of(parse_many(after, n, p))[i];
        lemma_tx_canonical(b);
    }
}

/// Appends the layout of an input to `out`.
pub fn put_input(out: &mut Vec<u8>, i: &TXInput)
    ensures
        final(out)@ == old(out)@ + wire_input(i@),
        i@.fits(),
{
    put_text(out, i.txid.as_str());
    put_i32(out, i.vout);
    put_text(out, i.script_sig.as_str());
    assert(out@ =~= old(out)@ + wire_input(i@));
}

/// Appends the layout of an output to `out`.
pub fn put_output(out: &mut Vec<u8>, o: &TXOutput)
    ensures
        final(out)@ == old(out)@ + wire_output(o@),
        o@.fits(),
{
    put_i32(out, o.value);
    put_text(out, o.script_pub_key.as_str());
    assert(out@ =~= old(out)@ + wire_output(o@));
}

/// Appends the layout of a list of inputs to `out`.
pub fn put_inputs(out: &mut Vec<u8>, v: &Vec<TXInput>)
    ensures
        final(out)@ == old(out)@ + wire_inputs(input_models(v@)),
        v@.len() <= u64::MAX,
        forall|i: int| 0 <= i < v@.len() ==> (#[trigger] input_models(v@)[i]).fits(),
{
    put_u64(out, v.len() as u64);
    let ghost models = input_models(v@);
    let ghost head = old(out)@ + wire_u64(v@.len() as u64);
    let mut k: usize = 0;
    assert(wire_many(models.take(0), |i: InputModel| wire_input(i)) =~= Seq::<u8>::empty());
    while k < v.len()
        invariant
            k <= v@.len(),
            models == input_models(v@),
            out@ == head + wire_many(models.take(k as int), |i: InputModel| wire_input(i)),
            forall|i: int| 0 <= i < k ==> (#[trigger] models[i]).fits(),
        decreases v@.len() - k,
    {
        put_input(out, &v[k]);
        proof {
            lemma_wire_many_push(models.take(k as int), models[k as int], |i: InputModel| wire_input(i));
            assert(models.take(k + 1) =~= models.take(k as int).push(models[k as int]));
            assert(out@ =~= head + wire_many(models.take(k + 1), |i: InputModel| wire_input(i)));
        }
        k += 1;
    }
    proof {
        assert(models.take(k as int) =~= models);
        assert(out@ =~= old(out)@ + wire_inputs(models));
    }
}

/// Appends the layout of a list of outputs to `out`.
pub fn put_outputs(out: &mut Vec<u8>, v: &Vec<TXOutput>)
    ensures
        final(out)@ == old(out)@ + wire_outputs(output_models(v@)),
        v@.len() <= u64::MAX,
        forall|i: int| 0 <= i < v@.len() ==> (#[trigger] output_models(v@)[i]).fits(),
{
    put_u64(out, v.len() as u64);
    let ghost models = output_models(v@);
    let ghost head = old(out)@ + wire_u64(v@.len() as u64);
    let mut k: usize = 0;
    assert(wire_many(models.take(0), |o: OutputModel| wire_output(o)) =~= Seq::<u8>::empty());
    while k < v.len()
        invariant
            k <= v@.len(),
            models == output_models(v@),
            out@ == head + wire_many(models.take(k as int), |o: OutputModel| wire_output(o)),
            forall|i: int| 0 <= i < k ==> (#[trigger] models[i]).fits(),
        decreases v@.len() - k,
    {
        put_output(out, &v[k]);
        proof {
            lemma_wire_many_push(
                models.take(k as int),
                models[k as int],
                |o: OutputModel| wire_output(o),
            );
            assert(models.take(k + 1) =~= models.take(k as int).push(models[k as int]));
            assert(out@ =~= head + wire_many(models.take(k + 1), |o: OutputModel| wire_output(o)));
        }
        k += 1;
    }
    proof {
        assert(models.take(k as int) =~= models);
        assert(out@ =~= old(out)@ + wire_outputs(models));
    }
}

/// Appends the layout of a transaction to `out`.
pub fn put_tx(out: &mut Vec<u8>, t: &Transaction)
    ensures
        final(out)@ == old(out)@ + wire_tx(t@),
        t@.fits(),
{
    put_text(out, t.id.as_str());
    put_inputs(out, &t.vin);
    put_outputs(out, &t.vout);
    assert(out@ =~= old(out)@ + wire_tx(t@));
    assert(t@.vin.len() == t.vin@.len() && t@.vout.len() == t.vout@.len());
}

/// Appends the layout of a list of transactions to `out`.
pub fn put_txs(out: &mut Vec<u8>, v: &Vec<Transaction>)
    ensures
        final(out)@ == old(out)@ + wire_txs(tx_models(v@)),
        v@.len() <= u64::MAX,
        forall|i: int| 0 <= i < v@.len() ==> (#[trigger] tx_models(v@)[i]).fits(),
{
    put_u64(out, v.len() as u64);
    let ghost models = tx_models(v@);
    let ghost head = old(out)@ + wire_u64(v@.len() as u64);
    let mut k: usize = 0;
    assert(wire_many(models.take(0), |t: TxModel| wire_tx(t)) =~= Seq::<u8>::empty());
    while k < v.len()
        invariant
            k <= v@.len(),
            models == tx_models(v@),
            out@ == head + wire_many(models.take(k as int), |t: TxModel| wire_tx(t)),
            forall|i: int| 0 <= i < k ==> (#[trigger] models[i]).fits(),
        decreases v@.len() - k,
    {
        put_tx(out, &v[k]);
        proof {
            lemma_wire_many_push(models.take(k as int), models[k as int], |t: TxModel| wire_tx(t));
            assert(models.take(k + 1) =~= models.take(k as int).push(models[k as int]));
            assert(out@ =~= head + wire_many(models.take(k + 1), |t: TxModel| wire_tx(t)));
        }
        k += 1;
    }
    proof {
        assert(models.take(k as int) =~= models);
        assert(out@ =~= old(out)@ + wire_txs(models));
    }
}

/// Reads an input at `pos`; gives it and the position behind it.
pub fn take_input(bytes: &[u8], pos: usize) -> (r: Option<(TXInput, usize)>)
    requires
        pos <= bytes@.len(),
    ensures
        match r {
            Some((i, next)) => pos <= next <= bytes@.len() && parse_input(bytes@.skip(pos as int))
                == Some((i@, bytes@.skip(next as int))),
            None => parse_input(bytes@.skip(pos as int)) is None,
        },
{
    let (txid, at1) = match take_text(bytes, pos) {
        Some(x) => x,
        None => { return None; },
    };
    let (vout, at2) = match take_i32(bytes, at1) {
        Some(x) => x,
        None => { return None; },
    };
    let (script_sig, at3) = match take_text(bytes, at2) {
        Some(x) => x,
        None => { return None; },
    };
    Some((TXInput { txid, vout, script_sig }, at3))
}

/// Reads an output at `pos`; gives it and the position behind it.
pub fn take_output(bytes: &[u8], pos: usize) -> (r: Option<(TXOutput, usize)>)
    requires
        pos <= bytes@.len(),
    ensures
        match r {
            Some((o, next)) => pos <= next <= bytes@.len() && parse_output(bytes@.skip(pos as int))
                == Some((o@, bytes@.skip(next as int))),
            None => parse_output(bytes@.skip(pos as int)) is None,
        },
{
    let (value, at1) = match take_i32(bytes, pos) {
        Some(x) => x,
        None => { return None; },
    };
    let (script_pub_key, at2) = match take_text(bytes, at1) {
        Some(x) => x,
        None => { return None; },
    };
    Some((TXOutput { value, script_pub_key }, at2))
}

/// Reads a list of inputs at `pos`; gives it and the position behind it.
pub fn take_inputs(bytes: &[u8], pos: usize) -> (r: Option<(Vec<TXInput>, usize)>)
    requires
        pos <= bytes@.len(),
    ensures
        match r {
            Some((v, next)) => pos <= next <= bytes@.len() && parse_inputs(bytes@.skip(pos as int))
                == Some((input_models(v@), bytes@.skip(next as int))),
            None => parse_inputs(bytes@.skip(pos as int)) is None,
        },
{
    let (n, start) = match take_u64(bytes, pos) {
        Some(x) => x,
        None => { return None; },
    };
    let ghost s0 = bytes@.skip(start as int);
    let mut v: Vec<TXInput> = Vec::new();
    let mut cur: usize = start;
    let mut k: u64 = 0;
    assert(input_models(v@) =~= Seq::<InputModel>::empty());
    while k < n
        invariant
            k <= n,
            start <= cur <= bytes@.len(),
            s0 == bytes@.skip(start as int),
            parse_u64(bytes@.skip(pos as int)) == Some((n, s0)),
            parse_many(s0, k as nat, |b: Seq<u8>| parse_input(b)) == Some(
                (input_models(v@), bytes@.skip(cur as int)),
            ),
        decreases n - k,
    {
        match take_input(bytes, cur) {
            Some((x, next)) => {
                proof {
                    lemma_parse_many_extend(s0, k as nat, |b: Seq<u8>| parse_input(b));
                    assert(input_models(v@).push(x@) =~= input_models(v@.push(x)));
                }
                v.push(x);
                cur = next;
                k += 1;
            },
            None => {
                proof {
                    lemma_parse_many_stuck(s0, k as nat, n as nat, |b: Seq<u8>| parse_input(b));
                }
                return None;
            },
        }
    }
    Some((v, cur))
}

/// Reads a list of outputs at `pos`; gives it and the position behind it.
pub fn take_outputs(bytes: &[u8], pos: usize) -> (r: Option<(Vec<TXOutput>, usize)>)
    requires
        pos <= bytes@.len(),
    ensures
        match r {
            Some((v, next)) => pos <= next <= bytes@.len() && parse_outputs(
                bytes@.skip(pos as int),
            ) == Some((output_models(v@), bytes@.skip(next as int))),
            None => parse_outputs(bytes@.skip(pos as int)) is None,
        },
{
    let (n, start) = match take_u64(bytes, pos) {
        Some(x) => x,
        None => { return None; },
    };
    let ghost s0 = bytes@.skip(start as int);
    let mut v: Vec<TXOutput> = Vec::new();
    let mut cur: usize = start;
    let mut k: u64 = 0;
    assert(output_models(v@) =~= Seq::<OutputModel>::empty());
    while k < n
        invariant
            k <= n,
            start <= cur <= bytes@.len(),
            s0 == bytes@.skip(start as int),
            parse_u64(bytes@.skip(pos as int)) == Some((n, s0)),
            parse_many(s0, k as nat, |b: Seq<u8>| parse_output(b)) == Some(
                (output_models(v@), bytes@.skip(cur as int)),
            ),
        decreases n - k,
    {
        match take_output(bytes, cur) {
            Some((x, next)) => {
                proof {
                    lemma_parse_many_extend(s0, k as nat, |b: Seq<u8>| parse_output(b));
                    assert(output_models(v@).push(x@) =~= output_models(v@.push(x)));
                }
                v.push(x);
                cur = next;
                k += 1;
            },
            None => {
                proof {
                    lemma_parse_many_stuck(s0, k as nat, n as nat, |b: Seq<u8>| parse_output(b));
                }
                return None;
            },
        }
    }
    Some((v, cur))
}

/// Reads a transaction at `pos`; gives it and the position behind it.
pub fn take_tx(bytes: &[u8], pos: usize) -> (r: Option<(Transaction, usize)>)
    requires
        pos <= bytes@.len(),
    ensures
        match r {
            Some((t, next)) => pos <= next <= bytes@.len() && parse_tx(bytes@.skip(pos as int))
                == Some((t@, bytes@.skip(next as int))),
            None => parse_tx(bytes@.skip(pos as int)) is None,
        },
{
    let (id, at1) = match take_text(bytes, pos) {
        Some(x) => x,
        None => { return None; },
    };
    let (vin, at2) = match take_inputs(bytes, at1) {
        Some(x) => x,
        None => { return None; },
    };
    let (vout, at3) = match take_outputs(bytes, at2) {
        Some(x) => x,
        None => { return None; },
    };
    Some((Transaction { id, vin, vout }, at3))
}

/// Reads a list of transactions at `pos`; gives it and the position behind it.
pub fn take_txs(bytes: &[u8], pos: usize) -> (r: Option<(Vec<Transaction>, usize)>)
    requires
        pos <= bytes@.len(),
    ensures
        match r {
            Some((v, next)) => pos <= next <= bytes@.len() && parse_txs(bytes@.skip(pos as int))
                == Some((tx_models(v@), bytes@.skip(next as int))),
            None => parse_txs(bytes@.skip(pos as int)) is None,
        },
{
    let (n, start) = match take_u64(bytes, pos) {
        Some(x) => x,
        None => { return None; },
    };
    let ghost s0 = bytes@.skip(start as int);
    let mut v: Vec<Transaction> = Vec::new();
    let mut cur: usize = start;
    let mut k: u64 = 0;
    assert(tx_models(v@) =~= Seq::<TxModel>::empty());
    while k < n
        invariant
            k <= n,
            start <= cur <= bytes@.len(),
            s0 == bytes@.skip(start as int),
            parse_u64(bytes@.skip(pos as int)) == Some((n, s0)),
            parse_many(s0, k as nat, |b: Seq<u8>| parse_tx(b)) == Some(
                (tx_models(v@), bytes@.skip(cur as int)),
            ),
        decreases n - k,
    {
        match take_tx(bytes, cur) {
            Some((x, next)) => {
                proof {
                    lemma_parse_many_extend(s0, k as nat, |b: Seq<u8>| parse_tx(b));
                    assert(tx_models(v@).push(x@) =~= tx_models(v@.push(x)));
                }
                v.push(x);
                cur = next;
                k += 1;
            },
            None => {
                proof {
                    lemma_parse_many_stuck(s0, k as nat, n as nat, |b: Seq<u8>| parse_tx(b));
                }
                return None;
            },
        }
    }
    Some((v, cur))
}

} // verus!
