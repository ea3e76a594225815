//! Inputs and outputs of a transfer.

use vstd::prelude::*;
use crate::text::same_text;

verus! {

/// What an input is: the output it consumes, and the credential it shows.
pub struct InputModel {
    pub txid: Seq<char>,
    pub vout: i32,
    pub script_sig: Seq<char>,
}

/// What an output is: an amount, and the credential that unlocks it.
pub struct OutputModel {
    pub value: i32,
    pub script_pub_key: Seq<char>,
}

/// A reference to one output of an earlier transaction.
#[derive(Debug, PartialEq, Eq)]
pub struct TXInput {
    pub txid: String,
    pub vout: i32,
    pub script_sig: String,
}

/// An amount locked to a credential.
#[derive(Debug, PartialEq, Eq)]
pub struct TXOutput {
    pub value: i32,
    pub script_pub_key: String,
}

impl View for TXInput {
    type V = InputModel;

    open spec fn view(&self) -> InputModel {
        InputModel { txid: self.txid@, vout: self.vout, script_sig: self.script_sig@ }
    }
}

impl View for TXOutput {
    type V = OutputModel;

    open spec fn view(&self) -> OutputModel {
        OutputModel { value: self.value, script_pub_key: self.script_pub_key@ }
    }
}

impl Clone for TXInput {
    fn clone(&self) -> (r: Self)
        ensures
            r@ == self@,
    {
        TXInput { txid: self.txid.clone(), vout: self.vout, script_sig: self.script_sig.clone() }
    }
}

impl Clone for TXOutput {
    fn clone(&self) -> (r: Self)
        ensures
            r@ == self@,
    {
        TXOutput { value: self.value, script_pub_key: self.script_pub_key.clone() }
    }
}

impl TXInput {
    /// Whether the input was made with the credential `unlocking_data`.
    pub fn can_unlock_output_with(&self, unlocking_data: &str) -> (r: bool)
        ensures
            r == (self@.script_sig == unlocking_data@),
    {
        same_text(self.script_sig.as_str(), unlocking_data)
    }
}

impl TXOutput {
    /// Whether the credential `unlocking_data` unlocks the output.
    pub fn can_be_unlock_with(&self, unlocking_data: &str) -> (r: bool)
        ensures
            r == (self@.script_pub_key == unlocking_data@),
    {
        same_text(self.script_pub_key.as_str(), unlocking_data)
    }
}

} // verus!
