//! The genesis snapshot: the accounts that exist and their opening balances.

use vstd::prelude::*;

use crate::state::Balances;
use crate::tx::Account;

verus! {

/// The seed of the ledger. Only `balances` matters to the ledger; the other
/// two fields are informational.
#[derive(Debug, Clone)]
pub struct Genesis {
    pub genesis_time: String,
    pub chain_id: String,
    pub balances: Vec<(Account, u64)>,
}

/// The opening balances that a list of pairs gives, a later pair for the
/// same account replacing an earlier one.
pub open spec fn genesis_map(pairs: Seq<(Seq<char>, u64)>) -> Balances
    decreases pairs.len(),
{
    if pairs.len() == 0 {
        Map::empty()
    } else {
        genesis_map(pairs.drop_last()).insert(pairs.last().0, pairs.last().1)
    }
}

impl Genesis {
    pub open spec fn pairs(&self) -> Seq<(Seq<char>, u64)> {
        self.balances@.map_values(|p: (Account, u64)| (p.0@, p.1))
    }

    /// The opening balance map.
    pub open spec fn opening(&self) -> Balances {
        genesis_map(self.pairs())
    }
}

} // verus!
