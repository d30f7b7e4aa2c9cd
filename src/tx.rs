//! Transactions: value transfers between accounts, and rewards.

use vstd::prelude::*;

verus! {

/// An account is named by a string; the genesis snapshot defines which exist.
pub type Account = String;

/// A value transfer from one account to another.
///
/// A transaction whose `data` is `"reward"` mints `value` into `from`
/// instead of moving it.
#[derive(Debug, Clone)]
pub struct Tx {
    pub from: Account,
    pub to: Account,
    pub value: u64,
    pub data: String,
}

/// The mathematical content of a transaction.
pub struct TxModel {
    pub from: Seq<char>,
    pub to: Seq<char>,
    pub value: u64,
    pub data: Seq<char>,
}

impl View for Tx {
    type V = TxModel;

    open spec fn view(&self) -> TxModel {
        TxModel { from: self.from@, to: self.to@, value: self.value, data: self.data@ }
    }
}

/// The data tag that marks a minting transaction.
pub open spec fn reward_tag() -> Seq<char> {
    seq!['r', 'e', 'w', 'a', 'r', 'd']
}

impl TxModel {
    pub open spec fn is_reward(self) -> bool {
        self.data == reward_tag()
    }
}

impl Tx {
    /// Whether this transaction mints value rather than transferring it.
    pub fn is_reward(&self) -> (r: bool)
        ensures
            r == self@.is_reward(),
    {
        let tag = String::from_str("reward");
        proof {
            reveal_strlit("reward");
        }
        assert(tag@ =~= reward_tag());
        self.data == tag
    }

    /// A field-by-field copy.
    pub fn copy(&self) -> (r: Tx)
        ensures
            r@ == self@,
    {
        Tx { from: self.from.clone(), to: self.to.clone(), value: self.value, data: self.data.clone() }
    }
}

} // verus!
