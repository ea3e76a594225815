//! References to outputs, by transaction identifier and output index.

use vstd::prelude::*;
use vstd::string::*;
use crate::text::same_text;

verus! {

/// The indices that `refs` holds for the transaction `txid`, in order.
pub open spec fn indices_for(refs: Seq<(Seq<char>, i32)>, txid: Seq<char>) -> Seq<i32>
    decreases refs.len(),
{
    if refs.len() == 0 {
        Seq::empty()
    } else if refs.last().0 == txid {
        indices_for(refs.drop_last(), txid).push(refs.last().1)
    } else {
        indices_for(refs.drop_last(), txid)
    }
}

/// One reference to an output.
#[derive(Debug, PartialEq, Eq)]
pub struct OutputRef {
    txid: String,
    vout: i32,
}

/// An ordered collection of output references: for each transaction
/// identifier the output indices that were added under it, in the order in
/// which they came.
#[derive(Debug, PartialEq, Eq)]
pub struct OutputRefs {
    refs: Vec<OutputRef>,
}

impl View for OutputRefs {
    type V = Seq<(Seq<char>, i32)>;

    closed spec fn view(&self) -> Seq<(Seq<char>, i32)> {
        Seq::new(self.refs@.len(), |i: int| (self.refs@[i].txid@, self.refs@[i].vout))
    }
}

impl OutputRefs {
    /// A collection that holds no reference.
    pub fn new() -> (r: OutputRefs)
        ensures
            r@ == Seq::<(Seq<char>, i32)>::empty(),
    {
        let r = OutputRefs { refs: Vec::new() };
        assert(r@ =~= Seq::<(Seq<char>, i32)>::empty());
        r
    }

    /// The number of references.
    pub fn len(&self) -> (n: usize)
        ensures
            n == self@.len(),
    {
        self.refs.len()
    }

    /// The transaction identifier of the reference at `i`.
    pub fn txid_at(&self, i: usize) -> (t: &String)
        requires
            i < self@.len(),
        ensures
            t@ == self@[i as int].0,
    {
        &self.refs[i].txid
    }

    /// The output index of the reference at `i`.
    pub fn vout_at(&self, i: usize) -> (v: i32)
        requires
            i < self@.len(),
        ensures
            v == self@[i as int].1,
    {
        self.refs[i].vout
    }

    /// Whether output `vout` of transaction `txid` is among the references.
    pub fn contains(&self, txid: &str, vout: i32) -> (r: bool)
        ensures
            r == self@.contains((txid@, vout)),
    {
        let mut i: usize = 0;
        while i < self.refs.len()
            invariant
                i <= self@.len(),
                self@.len() == self.refs@.len(),
                forall|j: int| 0 <= j < i ==> self@[j] != (txid@, vout),
            decreases self@.len() - i,
        {
            if self.refs[i].vout == vout && same_text(self.refs[i].txid.as_str(), txid) {
                assert(self@[i as int] == (txid@, vout));
                return true;
            }
            i += 1;
        }
        false
    }

    /// Adds a reference to output `vout` of transaction `txid`.
    pub fn add(&mut self, txid: &str, vout: i32)
        ensures
            final(self)@ == old(self)@.push((txid@, vout)),
    {
        self.refs.push(OutputRef { txid: String::from_str(txid), vout });
        assert(self@ =~= old(self)@.push((txid@, vout)));
    }

    /// The output indices held for the transaction `txid`, in order.
    pub fn indices_of(&self, txid: &str) -> (r: Vec<i32>)
        ensures
            r@ == indices_for(self@, txid@),
    {
        let mut r: Vec<i32> = Vec::new();
        let mut i: usize = 0;
        while i < self.refs.len()
            invariant
                i <= self@.len(),
                self@.len() == self.refs@.len(),
                r@ == indices_for(self@.take(i as int), txid@),
            decreases self@.len() - i,
        {
            assert(self@.take(i + 1).drop_last() =~= self@.take(i as int));
            if same_text(self.refs[i].txid.as_str(), txid) {
                r.push(self.refs[i].vout);
            }
            i += 1;
        }
        assert(self@.take(i as int) =~= self@);
        r
    }
}

} // verus!
