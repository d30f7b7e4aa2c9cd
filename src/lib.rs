//! A single-writer account ledger rebuilt by replaying a transaction log
//! over a genesis snapshot.

pub mod genesis;
pub mod ledger;
pub mod record;
pub mod state;
pub mod text;
pub mod tx;

pub use tx::{Account, Tx};
pub use genesis::Genesis;
pub use state::{ApplyTxError, InitStateError, PersistError, State};
