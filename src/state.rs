//! Ledger state: current balances and the transactions accepted since load.

use vstd::prelude::*;
use vstd::string::StringExecFns;

use crate::genesis::Genesis;
use crate::ledger::{distinct, lemma_map_of, lemma_map_of_push, lemma_map_of_update, map_of};
use crate::record::{decodes_to, encode_record, line_ok, parse_record, record_text};
use crate::text::chars_of;
use crate::text::{log_lines, record_lines};
use crate::tx::{Account, Tx, TxModel};

verus! {

/// Balance map from account name to amount.
pub type Balances = Map<Seq<char>, u64>;

/// Why a transaction was rejected.
#[derive(Debug, PartialEq, Eq, Structural)]
pub enum ApplyTxError {
    SenderAccountNotFound,
    ReceiverAccountNotFound,
    InsufficientBalance,
    /// A credit would take a balance past `u64::MAX`.
    BalanceOverflow,
}

/// The outcome of applying `t` to balances `b`.
///
/// The receiver must exist (also for a reward, which does not credit it),
/// then the sender. A reward credits `t.from`; a transfer debits `t.from` and
/// credits `t.to`, and fails without effect when the sender holds too little.
pub open spec fn apply_spec(b: Balances, t: TxModel) -> Result<Balances, ApplyTxError> {
    if !b.dom().contains(t.to) {
        Err(ApplyTxError::ReceiverAccountNotFound)
    } else if !b.dom().contains(t.from) {
        Err(ApplyTxError::SenderAccountNotFound)
    } else if t.is_reward() {
        if b[t.from] + t.value > u64::MAX {
            Err(ApplyTxError::BalanceOverflow)
        } else {
            Ok(b.insert(t.from, (b[t.from] + t.value) as u64))
        }
    } else if b[t.from] < t.value {
        Err(ApplyTxError::InsufficientBalance)
    } else {
        let debited = b.insert(t.from, (b[t.from] - t.value) as u64);
        if debited[t.to] + t.value > u64::MAX {
            Err(ApplyTxError::BalanceOverflow)
        } else {
            Ok(debited.insert(t.to, (debited[t.to] + t.value) as u64))
        }
    }
}

/// The balances after applying `txs` in order to `b`, or the position of
/// the first transaction that is rejected and why.
pub open spec fn replay_spec(b: Balances, txs: Seq<TxModel>) -> Result<Balances, (int, ApplyTxError)>
    decreases txs.len(),
{
    if txs.len() == 0 {
        Ok(b)
    } else {
        match replay_spec(b, txs.drop_last()) {
            Err(e) => Err(e),
            Ok(m) => match apply_spec(m, txs.last()) {
                Ok(m2) => Ok(m2),
                Err(e) => Err((txs.len() - 1, e)),
            },
        }
    }
}

/// Each line records the transaction at the same position.
pub open spec fn decodes_all(lines: Seq<Seq<char>>, txs: Seq<TxModel>) -> bool {
    &&& lines.len() == txs.len()
    &&& forall|i: int| 0 <= i < lines.len() ==> decodes_to(#[trigger] lines[i], txs[i])
}

/// The log text of `ts`: one record line each, joined by single line
/// breaks, with none after the last.
pub open spec fn log_text(ts: Seq<TxModel>) -> Seq<char>
    decreases ts.len(),
{
    if ts.len() == 0 {
        Seq::empty()
    } else if ts.len() == 1 {
        record_text(ts[0])
    } else {
        log_text(ts.drop_last()) + seq!['\n'] + record_text(ts.last())
    }
}

/// The line break that must come between log text `log` and the records of
/// `ts`, if any.
pub open spec fn batch_separator(log: Seq<char>, ts: Seq<TxModel>) -> Seq<char> {
    if log.len() > 0 && log.last() != '\n' && ts.len() > 0 {
        seq!['\n']
    } else {
        Seq::empty()
    }
}

/// Why pending transactions could not be written out.
#[derive(Debug)]
pub enum PersistError {
    SerializeError { source: serde_json::Error },
}

/// Why a state could not be built. No partial state survives any of them.
#[derive(Debug)]
pub enum InitStateError {
    /// The log record at this position (counting non-empty lines from zero)
    /// is not a well-formed transaction.
    DeserializeTxError { line: usize },
    /// A logged transaction was rejected on replay.
    ApplyTxError(Tx, ApplyTxError),
}

/// Account balances together with the transactions added since the state was
/// built, in the order they were added.
pub struct State {
    names: Vec<Account>,
    amounts: Vec<u64>,
    tx_mem_pool: Vec<Tx>,
}

impl State {
    /// The account names, in storage order.
    pub closed spec fn names_view(&self) -> Seq<Seq<char>> {
        self.names@.map_values(|s: String| s@)
    }

    /// Names are distinct and each has an amount.
    pub closed spec fn wf(&self) -> bool {
        &&& self.names@.len() == self.amounts@.len()
        &&& distinct(self.names_view())
    }

    /// The current balance of every account.
    pub closed spec fn ledger(&self) -> Balances {
        map_of(self.names_view(), self.amounts@)
    }

    /// The transactions added since the state was built.
    pub closed spec fn pending(&self) -> Seq<TxModel> {
        self.tx_mem_pool@.map_values(|t: Tx| t@)
    }

    /// Builds the state from a genesis snapshot and the text of the log:
    /// each non-empty line of `log` is parsed as a record, then all are
    /// replayed in order. A line that is not a record, or a transaction
    /// that is rejected, aborts the whole load.
    pub fn new(genesis: &Genesis, log: &str) -> (r: Result<State, InitStateError>)
        ensures
            (exists|i: int| 0 <= i < record_lines(log@).len() && !#[trigger] line_ok(record_lines(log@)[i]))
                ==> r matches Err(InitStateError::DeserializeTxError { .. }),
            r matches Ok(s) ==> s.wf() && s.pending() == Seq::<TxModel>::empty() && exists|
                txs: Seq<TxModel>,
            |
                decodes_all(record_lines(log@), txs) && #[trigger] replay_spec(genesis.opening(), txs)
                    == Ok::<Balances, (int, ApplyTxError)>(s.ledger()),
            r matches Err(InitStateError::ApplyTxError(t, e)) ==> exists|txs: Seq<TxModel>|
                decodes_all(record_lines(log@), txs) && #[trigger] replay_spec(genesis.opening(), txs)
                    is Err && replay_spec(genesis.opening(), txs)->Err_0.1 == e
                    && txs[replay_spec(genesis.opening(), txs)->Err_0.0] == t@,
            r matches Err(InitStateError::DeserializeTxError { line }) ==> line < record_lines(
                log@,
            ).len() && !line_ok(record_lines(log@)[line as int]) && forall|j: int|
                0 <= j < line ==> #[trigger] line_ok(record_lines(log@)[j]),
    {
        let lines = log_lines(log);
        let ghost lv = lines@.map_values(|l: Vec<char>| l@);
        let mut txs: Vec<Tx> = Vec::new();
        let mut i: usize = 0;
        while i < lines.len()
            invariant
                i <= lines@.len(),
                lv == lines@.map_values(|l: Vec<char>| l@),
                lv == record_lines(log@),
                txs@.len() == i,
                forall|j: int| 0 <= j < i ==> decodes_to(#[trigger] lv[j], txs@[j]@),
            decreases lines@.len() - i,
        {
            match parse_record(&lines[i]) {
                Some(t) => txs.push(t),
                None => return Err(InitStateError::DeserializeTxError { line: i }),
            }
            i = i + 1;
        }
        let ghost tv = txs@.map_values(|t: Tx| t@);
        assert(decodes_all(lv, tv));
        let r = State::replay(genesis, &txs);
        proof {
            if exists|i: int| 0 <= i < lv.len() && !#[trigger] line_ok(lv[i]) {
                let i = choose|i: int| 0 <= i < lv.len() && !#[trigger] line_ok(lv[i]);
                assert(decodes_to(lv[i], tv[i]));
            }
            if replay_spec(genesis.opening(), tv) is Err {
                let k = replay_spec(genesis.opening(), tv)->Err_0.0;
                lemma_replay_err_index(genesis.opening(), tv);
                assert(tv[k] == txs@[k]@);
            }
        }
        r
    }

    /// Appends the log text of the pending transactions to `sink`, and
    /// nothing when none is pending. Pending transactions stay pending.
    pub fn persist(&self, sink: &mut String) -> (r: Result<(), PersistError>)
        ensures
            r is Ok,
            final(sink)@ == old(sink)@ + log_text(self.pending()),
    {
        let ghost pv = self.pending();
        let mut content = String::new();
        let mut i: usize = 0;
        while i < self.tx_mem_pool.len()
            invariant
                i <= self.tx_mem_pool@.len(),
                pv == self.tx_mem_pool@.map_values(|t: Tx| t@),
                content@ == log_text(pv.take(i as int)),
            decreases self.tx_mem_pool@.len() - i,
        {
            assert(pv.take(i + 1).drop_last() =~= pv.take(i as int));
            let line = match encode_record(&self.tx_mem_pool[i]) {
                Ok(line) => line,
                Err(e) => return Err(PersistError::SerializeError { source: e }),
            };
            if i > 0 {
                content.append("\n");
                proof {
                    reveal_strlit("\n");
                }
            }
            content.append(line.as_str());
            proof {
                if i == 0 {
                    assert(pv.take(1) =~= seq![pv[0]]);
                    assert(content@ =~= log_text(pv.take(1)));
                } else {
                    assert(content@ =~= log_text(pv.take(i + 1)));
                }
            }
            i = i + 1;
        }
        assert(pv.take(i as int) =~= pv);
        sink.append(content.as_str());
        Ok(())
    }

    /// Appends to `sink` what must follow the existing log text `log` so
    /// that the pending transactions become its last records: a line break
    /// when the log is not at the start of a line and something is pending,
    /// then the log text of the pending transactions.
    pub fn persist_after(&self, log: &str, sink: &mut String) -> (r: Result<(), PersistError>)
        ensures
            r is Ok,
            final(sink)@ == old(sink)@ + batch_separator(log@, self.pending()) + log_text(
                self.pending(),
            ),
    {
        let cs = chars_of(log);
        if cs.len() > 0 && cs[cs.len() - 1] != '\n' && self.tx_mem_pool.len() > 0 {
            sink.append("\n");
            proof {
                reveal_strlit("\n");
            }
        }
        let ghost mid = sink@;
        assert(mid =~= old(sink)@ + batch_separator(log@, self.pending()));
        self.persist(sink)
    }

    /// Forgets the pending transactions, as after they have been written out.
    pub fn clear_pending(&mut self)
        requires
            old(self).wf(),
        ensures
            final(self).wf(),
            final(self).ledger() == old(self).ledger(),
            final(self).pending() == Seq::<TxModel>::empty(),
    {
        self.tx_mem_pool = Vec::new();
        assert(self.pending() =~= Seq::<TxModel>::empty());
    }

    /// The state that a genesis snapshot describes, with nothing pending.
    pub fn from_genesis(genesis: &Genesis) -> (r: State)
        ensures
            r.wf(),
            r.ledger() == genesis.opening(),
            r.pending() == Seq::<TxModel>::empty(),
    {
        let mut r = State::empty();
        let mut i: usize = 0;
        while i < genesis.balances.len()
            invariant
                r.wf(),
                i <= genesis.balances@.len(),
                r.ledger() == crate::genesis::genesis_map(genesis.pairs().take(i as int)),
                r.pending() == Seq::<TxModel>::empty(),
            decreases genesis.balances@.len() - i,
        {
            let name = genesis.balances[i].0.clone();
            let amount = genesis.balances[i].1;
            r.set_balance(name, amount);
            assert(genesis.pairs().take(i + 1).drop_last() =~= genesis.pairs().take(i as int));
            i = i + 1;
        }
        assert(genesis.pairs().take(i as int) =~= genesis.pairs());
        r
    }

    /// The state reached by replaying `txs` in order over `genesis`. The
    /// first rejected transaction aborts the whole replay.
    pub fn replay(genesis: &Genesis, txs: &Vec<Tx>) -> (r: Result<State, InitStateError>)
        ensures
            match replay_spec(genesis.opening(), txs@.map_values(|t: Tx| t@)) {
                Ok(b) => r matches Ok(s) && s.wf() && s.ledger() == b && s.pending()
                    == Seq::<TxModel>::empty(),
                Err((k, e)) => r matches Err(InitStateError::ApplyTxError(t, e2)) && t@ == txs@[k]@
                    && e2 == e,
            },
    {
        let ghost tv = txs@.map_values(|t: Tx| t@);
        let mut state = State::from_genesis(genesis);
        let mut i: usize = 0;
        while i < txs.len()
            invariant
                state.wf(),
                i <= txs@.len(),
                tv == txs@.map_values(|t: Tx| t@),
                replay_spec(genesis.opening(), tv.take(i as int)) == Ok::<Balances, (int, ApplyTxError)>(
                    state.ledger(),
                ),
                state.pending() == Seq::<TxModel>::empty(),
            decreases txs@.len() - i,
        {
            assert(tv.take(i + 1).drop_last() =~= tv.take(i as int));
            assert(tv.take(i + 1).last() == txs@[i as int]@);
            match state.apply(&txs[i]) {
                Ok(()) => {},
                Err(e) => {
                    proof {
                        lemma_replay_stops(genesis.opening(), tv, i as int);
                    }
                    return Err(InitStateError::ApplyTxError(txs[i].copy(), e));
                },
            }
            i = i + 1;
        }
        assert(tv.take(i as int) =~= tv);
        Ok(state)
    }

    /// A state with no accounts and nothing pending.
    pub fn empty() -> (r: State)
        ensures
            r.wf(),
            r.ledger() == Map::<Seq<char>, u64>::empty(),
            r.pending() == Seq::<TxModel>::empty(),
    {
        let r = State { names: Vec::new(), amounts: Vec::new(), tx_mem_pool: Vec::new() };
        assert(r.pending() =~= Seq::<TxModel>::empty());
        r
    }

    fn position(&self, account: &Account) -> (r: Option<usize>)
        requires
            self.wf(),
        ensures
            match r {
                Some(i) => i < self.names@.len() && self.names_view()[i as int] == account@,
                None => !self.ledger().dom().contains(account@),
            },
    {
        let mut i: usize = 0;
        while i < self.names.len()
            invariant
                i <= self.names@.len(),
                forall|j: int| 0 <= j < i ==> self.names_view()[j] != account@,
            decreases self.names@.len() - i,
        {
            let same = self.names[i].eq(account);
            assert(self.names_view()[i as int] == self.names@[i as int]@);
            assert(same == (self.names_view()[i as int] == account@));
            if same {
                return Some(i);
            }
            i = i + 1;
        }
        proof {
            lemma_map_of(self.names_view(), self.amounts@);
            assert(!self.names_view().contains(account@));
        }
        None
    }

    /// The balance of `account`, if it exists.
    pub fn balance(&self, account: &Account) -> (r: Option<u64>)
        requires
            self.wf(),
        ensures
            r == (if self.ledger().dom().contains(account@) {
                Some(self.ledger()[account@])
            } else {
                None::<u64>
            }),
    {
        proof {
            lemma_map_of(self.names_view(), self.amounts@);
        }
        match self.position(account) {
            Some(i) => Some(self.amounts[i]),
            None => None,
        }
    }

    /// Sets the balance of `account`, adding the account if it is new.
    pub fn set_balance(&mut self, account: Account, amount: u64)
        requires
            old(self).wf(),
        ensures
            final(self).wf(),
            final(self).ledger() == old(self).ledger().insert(account@, amount),
            final(self).pending() == old(self).pending(),
    {
        proof {
            lemma_map_of(self.names_view(), self.amounts@);
        }
        match self.position(&account) {
            Some(i) => {
                proof {
                    lemma_map_of_update(self.names_view(), self.amounts@, i as int, amount);
                }
                self.amounts.set(i, amount);
            },
            None => {
                let ghost nv = self.names_view();
                proof {
                    lemma_map_of_push(nv, self.amounts@, account@, amount);
                }
                self.names.push(account);
                self.amounts.push(amount);
                assert(self.names_view() =~= nv.push(account@));
                assert forall|i: int, j: int|
                    0 <= i < self.names_view().len() && 0 <= j < self.names_view().len() && i
                        != j implies self.names_view()[i] != self.names_view()[j] by {
                    if i < nv.len() && j < nv.len() {
                    } else if i < nv.len() {
                        assert(nv.contains(nv[i]));
                    } else {
                        assert(nv.contains(nv[j]));
                    }
                }
            },
        }
    }

    /// All balances as (account, amount) pairs, in no particular order.
    pub fn balances(&self) -> (r: Vec<(Account, u64)>)
        requires
            self.wf(),
        ensures
            r@.len() == self.ledger().dom().len(),
            forall|i: int| 0 <= i < r@.len() ==> self.ledger().dom().contains(#[trigger] r@[i].0@)
                && self.ledger()[r@[i].0@] == r@[i].1,
            forall|k: Seq<char>| #[trigger] self.ledger().dom().contains(k) ==> exists|i: int|
                0 <= i < r@.len() && #[trigger] r@[i].0@ == k,
    {
        proof {
            lemma_map_of(self.names_view(), self.amounts@);
            lemma_names_len(self.names_view(), self.amounts@);
        }
        let mut r: Vec<(Account, u64)> = Vec::new();
        let mut i: usize = 0;
        while i < self.names.len()
            invariant
                self.wf(),
                i <= self.names@.len(),
                r@.len() == i,
                forall|j: int| 0 <= j < i ==> #[trigger] r@[j].0@ == self.names_view()[j] && r@[j].1
                    == self.amounts@[j],
            decreases self.names@.len() - i,
        {
            r.push((self.names[i].clone(), self.amounts[i]));
            i = i + 1;
        }
        proof {
            lemma_map_of(self.names_view(), self.amounts@);
            lemma_names_len(self.names_view(), self.amounts@);
        }
        assert forall|k: Seq<char>| #[trigger] self.ledger().dom().contains(k) implies exists|i: int|
            0 <= i < r@.len() && #[trigger] r@[i].0@ == k by {
            assert(self.names_view().contains(k));
            let j = choose|j: int| 0 <= j < self.names_view().len() && self.names_view()[j] == k;
            assert(r@[j].0@ == k);
        }
        r
    }

    /// The transactions added since the state was built, oldest first.
    pub fn pending_txs(&self) -> (r: &Vec<Tx>)
        ensures
            r@.map_values(|t: Tx| t@) == self.pending(),
    {
        &self.tx_mem_pool
    }

    /// Applies `tx` to the balances by the transaction rule; on failure
    /// nothing changes.
    pub fn apply(&mut self, tx: &Tx) -> (r: Result<(), ApplyTxError>)
        requires
            old(self).wf(),
        ensures
            final(self).wf(),
            final(self).pending() == old(self).pending(),
            match apply_spec(old(self).ledger(), tx@) {
                Ok(b) => r is Ok && final(self).ledger() == b,
                Err(e) => r == Err::<(), ApplyTxError>(e) && final(self).ledger() == old(self).ledger(),
            },
    {
        proof {
            lemma_map_of(self.names_view(), self.amounts@);
        }
        let to_idx = match self.position(&tx.to) {
            None => return Err(ApplyTxError::ReceiverAccountNotFound),
            Some(i) => i,
        };
        let from_idx = match self.position(&tx.from) {
            None => return Err(ApplyTxError::SenderAccountNotFound),
            Some(i) => i,
        };
        let ghost nv = self.names_view();
        let ghost a0 = self.amounts@;
        let sender = self.amounts[from_idx];
        if tx.is_reward() {
            match sender.checked_add(tx.value) {
                None => Err(ApplyTxError::BalanceOverflow),
                Some(n) => {
                    proof {
                        lemma_map_of_update(nv, a0, from_idx as int, n);
                    }
                    self.amounts.set(from_idx, n);
                    Ok(())
                },
            }
        } else if sender < tx.value {
            Err(ApplyTxError::InsufficientBalance)
        } else {
            let debited = sender - tx.value;
            let receiver = if to_idx == from_idx {
                debited
            } else {
                self.amounts[to_idx]
            };
            match receiver.checked_add(tx.value) {
                None => Err(ApplyTxError::BalanceOverflow),
                Some(n) => {
                    proof {
                        lemma_map_of_update(nv, a0, from_idx as int, debited);
                        lemma_map_of_update(nv, a0.update(from_idx as int, debited), to_idx as int, n);
                    }
                    self.amounts.set(from_idx, debited);
                    self.amounts.set(to_idx, n);
                    Ok(())
                },
            }
        }
    }

    /// Applies `tx` and, when it is accepted, appends it to the pending
    /// transactions; when it is rejected nothing changes.
    pub fn add(&mut self, tx: Tx) -> (r: Result<(), ApplyTxError>)
        requires
            old(self).wf(),
        ensures
            final(self).wf(),
            match apply_spec(old(self).ledger(), tx@) {
                Ok(b) => r is Ok && final(self).ledger() == b && final(self).pending()
                    == old(self).pending().push(tx@),
                Err(e) => r == Err::<(), ApplyTxError>(e) && final(self).ledger() == old(
                    self,
                ).ledger() && final(self).pending() == old(self).pending(),
            },
    {
        self.apply(&tx)?;
        self.tx_mem_pool.push(tx);
        assert(self.pending() =~= old(self).pending().push(tx@));
        Ok(())
    }
}

/// A reward credits its `from` account by its value and leaves every other
/// balance as it was, provided its `to` account exists; otherwise it is
/// rejected as having no receiver.
pub proof fn law_reward_credits_sender(b: Balances, t: TxModel)
    requires
        t.is_reward(),
        b.dom().contains(t.from),
        b[t.from] + t.value <= u64::MAX,
    ensures
        b.dom().contains(t.to) ==> (apply_spec(b, t) matches Ok(after) && after.dom() == b.dom()
            && after[t.from] == b[t.from] + t.value && forall|k: Seq<char>|
            b.dom().contains(k) && k != t.from ==> #[trigger] after[k] == b[k]),
        !b.dom().contains(t.to) ==> apply_spec(b, t) == Err::<Balances, ApplyTxError>(
            ApplyTxError::ReceiverAccountNotFound,
        ),
{
    if b.dom().contains(t.to) {
        let after = b.insert(t.from, (b[t.from] + t.value) as u64);
        assert(after.dom() =~= b.dom());
    }
}

/// A transfer from a sender holding at least its value leaves the sender
/// with that much less and the receiver with that much more; a transfer from
/// an account to itself changes nothing.
pub proof fn law_transfer_moves_value(b: Balances, t: TxModel)
    requires
        !t.is_reward(),
        b.dom().contains(t.from),
        b.dom().contains(t.to),
        b[t.from] >= t.value,
        t.from != t.to ==> b[t.to] + t.value <= u64::MAX,
    ensures
        apply_spec(b, t) matches Ok(after) && after.dom() == b.dom() && (t.from != t.to ==> (
        after[t.from] == b[t.from] - t.value && after[t.to] == b[t.to] + t.value && forall|
            k: Seq<char>,
        |
            b.dom().contains(k) && k != t.from && k != t.to ==> #[trigger] after[k] == b[k])) && (
        t.from == t.to ==> after == b),
{
    let debited = b.insert(t.from, (b[t.from] - t.value) as u64);
    let after = debited.insert(t.to, (debited[t.to] + t.value) as u64);
    assert(after.dom() =~= b.dom());
    if t.from == t.to {
        assert(after =~= b);
    }
}

/// A transfer from a sender holding less than its value is rejected, and
/// the balances stay as they were.
pub proof fn law_insufficient_balance_rejected(b: Balances, t: TxModel)
    requires
        !t.is_reward(),
        b.dom().contains(t.from),
        b.dom().contains(t.to),
        b[t.from] < t.value,
    ensures
        apply_spec(b, t) == Err::<Balances, ApplyTxError>(ApplyTxError::InsufficientBalance),
{
}

/// A transaction naming an account that does not exist is rejected, reward
/// or not: a missing receiver is reported first, then a missing sender.
pub proof fn law_unknown_account_rejected(b: Balances, t: TxModel)
    ensures
        !b.dom().contains(t.to) ==> apply_spec(b, t) == Err::<Balances, ApplyTxError>(
            ApplyTxError::ReceiverAccountNotFound,
        ),
        b.dom().contains(t.to) && !b.dom().contains(t.from) ==> apply_spec(b, t) == Err::<
            Balances,
            ApplyTxError,
        >(ApplyTxError::SenderAccountNotFound),
{
}

/// A failed replay names a position among the transactions.
proof fn lemma_replay_err_index(b: Balances, txs: Seq<TxModel>)
    ensures
        replay_spec(b, txs) matches Err((k, e)) ==> 0 <= k < txs.len(),
    decreases txs.len(),
{
    if txs.len() > 0 {
        lemma_replay_err_index(b, txs.drop_last());
    }
}

/// Once a prefix of a replay fails, the whole replay fails the same way.
proof fn lemma_replay_stops(b: Balances, txs: Seq<TxModel>, i: int)
    requires
        0 <= i < txs.len(),
        replay_spec(b, txs.take(i + 1)) is Err,
    ensures
        replay_spec(b, txs) == replay_spec(b, txs.take(i + 1)),
    decreases txs.len(),
{
    if txs.len() > i + 1 {
        let t0 = txs.drop_last();
        assert(t0.take(i + 1) =~= txs.take(i + 1));
        lemma_replay_stops(b, t0, i);
    } else {
        assert(txs.take(i + 1) =~= txs);
    }
}

/// As many accounts as positions.
proof fn lemma_names_len(names: Seq<Seq<char>>, amounts: Seq<u64>)
    requires
        names.len() == amounts.len(),
        distinct(names),
    ensures
        map_of(names, amounts).dom().len() == names.len(),
        map_of(names, amounts).dom().finite(),
    decreases names.len(),
{
    if names.len() > 0 {
        let n0 = names.drop_last();
        lemma_names_len(n0, amounts.drop_last());
        lemma_map_of(n0, amounts.drop_last());
        assert(!n0.contains(names.last()));
    }
}

} // verus!
