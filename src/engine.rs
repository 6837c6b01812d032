//! The shared state that workers run transactions against: the ledger, the
//! queue of transactions, and which of them have run. Workers take exclusive
//! access to the whole engine, call `run` with their own index, and release
//! it; the engine refuses to run any transaction twice.
use vstd::prelude::*;
use crate::executor::{ExecutionReport, apply_transaction, can_execute, execute_transaction, fits_after, report_of};
use crate::ledger::{Account, AccountsView, Ledger, LedgerError, accounts_view, names_unique};
use crate::serial::{apply_all, is_schedule, lemma_complete_runs_agree, lemma_covering_schedule, queue_order};
use crate::transaction::{Transaction, TransactionView};

verus! {

/// Why a worker's run of a transaction did not happen. In each case the
/// engine is left as it was.
#[derive(Debug, Clone, Copy, PartialEq, Eq, Structural)]
pub enum RunError {
    /// The index is past the end of the queue.
    NoSuchTransaction,
    /// The transaction at that index has already run.
    AlreadyExecuted,
    /// Running it would take a balance outside the range of an `i64`.
    BalanceOutOfRange,
}

/// The abstract value of a queue of transactions.
pub open spec fn queue_view(queue: Seq<Transaction>) -> Seq<TransactionView> {
    queue.map_values(|t: Transaction| t@)
}

/// A ledger and a fixed queue of transactions, with a record of the order in
/// which transactions have run.
pub struct Engine {
    ledger: Ledger,
    queue: Vec<Transaction>,
    executed: Vec<bool>,
    initial: Ghost<AccountsView>,
    history: Ghost<Seq<int>>,
}

impl Engine {
    /// The ledger as it stands.
    pub closed spec fn ledger_view(&self) -> AccountsView {
        self.ledger@
    }

    /// The ledger as it stood when the engine was made.
    pub closed spec fn initial_view(&self) -> AccountsView {
        self.initial@
    }

    /// The queue of transactions.
    pub closed spec fn transactions(&self) -> Seq<TransactionView> {
        queue_view(self.queue@)
    }

    /// The indices of the transactions that have run, in the order they ran.
    pub closed spec fn history(&self) -> Seq<int> {
        self.history@
    }

    /// The engine's invariant: the history runs each transaction at most
    /// once, the flags agree with it, and the ledger is the starting ledger
    /// with the history's transactions applied one at a time in its order.
    pub closed spec fn wf(&self) -> bool {
        &&& self.ledger.wf()
        &&& self.executed@.len() == self.queue@.len()
        &&& is_schedule(self.history@, self.queue@.len() as int)
        &&& forall|j: int| 0 <= j < self.queue@.len() ==> (#[trigger] self.executed@[j] <==> self.history@.contains(j))
        &&& self.ledger@ == apply_all(self.initial@, queue_view(self.queue@), self.history@)
    }

    /// Makes an engine over accounts and a queue of transactions; nothing has
    /// run yet. Fails where two accounts share a name.
    pub fn new(accounts: Vec<Account>, queue: Vec<Transaction>) -> (r: Result<Engine, LedgerError>)
        ensures
            r is Ok <==> names_unique(accounts_view(accounts@)),
            r matches Err(LedgerError::DuplicateName(k)) ==> {
                &&& 0 < k < accounts.len()
                &&& exists|j: int| 0 <= j < k && accounts@[j].name@ == accounts@[k as int].name@
            },
            r matches Ok(e) ==> {
                &&& e.wf()
                &&& e.ledger_view() == accounts_view(accounts@)
                &&& e.initial_view() == accounts_view(accounts@)
                &&& e.transactions() == queue_view(queue@)
                &&& e.history() == Seq::<int>::empty()
            },
    {
        let ledger = match Ledger::new(accounts) {
            Ok(l) => l,
            Err(e) => return Err(e),
        };
        let mut executed: Vec<bool> = Vec::new();
        let mut k: usize = 0;
        while k < queue.len()
            invariant
                k <= queue.len(),
                executed@.len() == k,
                forall|j: int| 0 <= j < k ==> !#[trigger] executed@[j],
            decreases queue.len() - k,
        {
            executed.push(false);
            k = k + 1;
        }
        let ghost initial = ledger@;
        Ok(Engine { ledger, queue, executed, initial: Ghost(initial), history: Ghost(Seq::empty()) })
    }

    /// The number of transactions in the queue.
    pub fn len(&self) -> (r: usize)
        ensures
            r == self.transactions().len(),
    {
        self.queue.len()
    }

    /// The transaction at index `i` of the queue.
    pub fn transaction(&self, i: usize) -> (r: &Transaction)
        requires
            i < self.transactions().len(),
        ensures
            r@ == self.transactions()[i as int],
    {
        &self.queue[i]
    }

    /// The ledger as it stands.
    pub fn ledger(&self) -> (r: &Ledger)
        requires
            self.wf(),
        ensures
            r@ == self.ledger_view(),
            r.wf(),
    {
        &self.ledger
    }

    /// Runs the transaction at index `i` of the queue, unless it has already
    /// run or would take a balance out of range. The caller must hold the
    /// engine exclusively, so runs never overlap.
    pub fn run(&mut self, i: usize) -> (r: Result<ExecutionReport, RunError>)
        requires
            old(self).wf(),
        ensures
            final(self).wf(),
            final(self).initial_view() == old(self).initial_view(),
            final(self).transactions() == old(self).transactions(),
            (r == Err::<ExecutionReport, RunError>(RunError::NoSuchTransaction)) <==> i >= old(
                self,
            ).transactions().len(),
            (r == Err::<ExecutionReport, RunError>(RunError::AlreadyExecuted)) <==> {
                &&& i < old(self).transactions().len()
                &&& old(self).history().contains(i as int)
            },
            (r == Err::<ExecutionReport, RunError>(RunError::BalanceOutOfRange)) <==> {
                &&& i < old(self).transactions().len()
                &&& !old(self).history().contains(i as int)
                &&& !fits_after(old(self).ledger_view(), old(self).transactions()[i as int])
            },
            r is Err ==> {
                &&& final(self).ledger_view() == old(self).ledger_view()
                &&& final(self).history() == old(self).history()
            },
            r is Ok ==> {
                &&& final(self).ledger_view() == apply_transaction(
                    old(self).ledger_view(),
                    old(self).transactions()[i as int],
                )
                &&& final(self).history() == old(self).history().push(i as int)
                &&& r == Ok::<ExecutionReport, RunError>(
                    report_of(old(self).ledger_view(), old(self).transactions()[i as int]),
                )
            },
    {
        if i >= self.queue.len() {
            return Err(RunError::NoSuchTransaction);
        }
        if self.executed[i] {
            return Err(RunError::AlreadyExecuted);
        }
        if !can_execute(&self.queue[i], &self.ledger) {
            return Err(RunError::BalanceOutOfRange);
        }
        let ghost old_history = self.history@;
        let report = execute_transaction(&self.queue[i], &mut self.ledger);
        self.executed.set(i, true);
        self.history = Ghost(old_history.push(i as int));
        proof {
            let h = self.history@;
            assert(h.drop_last() =~= old_history);
            assert forall|a: int, b: int| 0 <= a < h.len() && 0 <= b < h.len() && a != b implies h[a] != h[b] by {
                if a < old_history.len() && b < old_history.len() {
                    assert(h[a] == old_history[a] && h[b] == old_history[b]);
                } else if a < old_history.len() {
                    assert(old_history.contains(h[a]));
                } else if b < old_history.len() {
                    assert(old_history.contains(h[b]));
                }
            }
            assert forall|j: int| 0 <= j < self.queue@.len() implies (#[trigger] self.executed@[j] <==> h.contains(j)) by {
                if j == i {
                    assert(h[h.len() - 1] == j);
                } else if h.contains(j) {
                    let k = choose|k: int| 0 <= k < h.len() && h[k] == j;
                    assert(old_history[k] == j);
                } else if old_history.contains(j) {
                    let k = choose|k: int| 0 <= k < old_history.len() && old_history[k] == j;
                    assert(h[k] == j);
                }
            }
        }
        Ok(report)
    }

    /// Whether every transaction of the queue has run.
    pub fn is_complete(&self) -> (r: bool)
        requires
            self.wf(),
        ensures
            r == forall|j: int| 0 <= j < self.transactions().len() ==> self.history().contains(j),
    {
        let mut k: usize = 0;
        while k < self.executed.len()
            invariant
                self.wf(),
                k <= self.executed@.len(),
                forall|j: int| 0 <= j < k ==> self.history().contains(j),
            decreases self.executed@.len() - k,
        {
            if !self.executed[k] {
                proof {
                    assert(!self.executed@[k as int]);
                    assert(self.transactions().len() == self.queue@.len());
                    assert(!self.history().contains(k as int));
                }
                return false;
            }
            k = k + 1;
        }
        assert(self.transactions().len() == self.queue@.len());
        true
    }

    /// Whatever order workers took the engine in, the ledger equals the
    /// starting ledger with the transactions run so far applied one at a
    /// time, each once, in the order they ran.
    pub proof fn lemma_serializable(&self)
        requires
            self.wf(),
        ensures
            is_schedule(self.history(), self.transactions().len() as int),
            self.ledger_view() == apply_all(self.initial_view(), self.transactions(), self.history()),
    {
    }

    /// Once every transaction has run, each ran exactly once: there were as
    /// many runs as transactions, and the ledger is what running the queue in
    /// its own order gives.
    pub proof fn lemma_exactly_once(&self)
        requires
            self.wf(),
            forall|j: int| 0 <= j < self.transactions().len() ==> self.history().contains(j),
        ensures
            self.history().len() == self.transactions().len(),
            self.history().no_duplicates(),
            self.ledger_view() == apply_all(
                self.initial_view(),
                self.transactions(),
                queue_order(self.transactions().len()),
            ),
    {
        let n = self.transactions().len();
        lemma_covering_schedule(self.history(), n);
        lemma_complete_runs_agree(self.initial_view(), self.transactions(), self.history(), self.history());
    }
}

} // verus!
