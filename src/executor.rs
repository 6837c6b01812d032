//! Applying one transaction to a ledger.
use vstd::prelude::*;
use crate::ledger::{
    AccountsView,
    Ledger,
    balances_fit,
    credit,
    has_account,
    lemma_credit_found,
    lemma_credit_keeps_names,
    lemma_credit_missing,
    lemma_total_update,
    names_unique,
    total,
};
use crate::transaction::{Transaction, TransactionView};

verus! {

/// The ledger after a transaction: the withdrawal leg, then the deposit leg,
/// each skipped where its account is absent or unknown.
pub open spec fn apply_transaction(accts: AccountsView, tx: TransactionView) -> AccountsView {
    credit(credit(accts, tx.withdraw, -tx.amount), tx.deposit, tx.amount)
}

/// Every balance fits in an `i64` after the withdrawal leg and after the
/// whole transaction.
pub open spec fn fits_after(accts: AccountsView, tx: TransactionView) -> bool {
    balances_fit(credit(accts, tx.withdraw, -tx.amount)) && balances_fit(
        apply_transaction(accts, tx),
    )
}

/// A transaction whose two legs both find an account moves money between
/// them: the sum of all balances is the same before and after.
pub proof fn lemma_conservation(accts: AccountsView, tx: TransactionView)
    requires
        names_unique(accts),
        has_account(accts, tx.withdraw),
        has_account(accts, tx.deposit),
    ensures
        total(apply_transaction(accts, tx)) == total(accts),
{
    let i = choose|i: int| 0 <= i < accts.len() && #[trigger] accts[i].0 == tx.withdraw;
    lemma_credit_found(accts, tx.withdraw, -tx.amount, i);
    lemma_total_update(accts, i, (tx.withdraw, accts[i].1 - tx.amount));
    let mid = credit(accts, tx.withdraw, -tx.amount);
    lemma_credit_keeps_names(accts, tx.withdraw, -tx.amount);
    let j = choose|j: int| 0 <= j < mid.len() && #[trigger] mid[j].0 == tx.deposit;
    lemma_credit_found(mid, tx.deposit, tx.amount, j);
    lemma_total_update(mid, j, (tx.deposit, mid[j].1 + tx.amount));
}

/// A leg whose account name is empty or unknown changes no balance and is
/// reported as absent or not found; the other leg runs as it would alone.
pub proof fn lemma_missing_leg(accts: AccountsView, tx: TransactionView)
    ensures
        !has_account(accts, tx.withdraw) ==> {
            &&& apply_transaction(accts, tx) == credit(accts, tx.deposit, tx.amount)
            &&& report_of(accts, tx).withdraw != LegOutcome::Applied
            &&& tx.withdraw.len() > 0 ==> report_of(accts, tx).withdraw == LegOutcome::NotFound
        },
        !has_account(accts, tx.deposit) ==> {
            &&& apply_transaction(accts, tx) == credit(accts, tx.withdraw, -tx.amount)
            &&& report_of(accts, tx).deposit != LegOutcome::Applied
            &&& tx.deposit.len() > 0 ==> report_of(accts, tx).deposit == LegOutcome::NotFound
        },
{
    lemma_credit_keeps_names(accts, tx.withdraw, -tx.amount);
    if !has_account(accts, tx.withdraw) {
        lemma_credit_missing(accts, tx.withdraw, -tx.amount);
    }
    if !has_account(accts, tx.deposit) {
        lemma_credit_missing(credit(accts, tx.withdraw, -tx.amount), tx.deposit, tx.amount);
    }
}

/// What became of one leg of a transaction.
#[derive(Debug, Clone, Copy, PartialEq, Eq, Structural)]
pub enum LegOutcome {
    /// The leg names no account.
    Absent,
    /// The leg names an account that the ledger does not hold; it was skipped.
    NotFound,
    /// The leg's account was found and its balance changed.
    Applied,
}

/// The outcome of a leg that names `name`.
pub open spec fn leg_outcome(accts: AccountsView, name: Seq<char>) -> LegOutcome {
    if name.len() == 0 {
        LegOutcome::Absent
    } else if has_account(accts, name) {
        LegOutcome::Applied
    } else {
        LegOutcome::NotFound
    }
}

/// What happened when a transaction ran, for diagnostics.
#[derive(Debug, Clone, Copy, PartialEq, Eq, Structural)]
pub struct ExecutionReport {
    pub id: u64,
    pub withdraw: LegOutcome,
    pub deposit: LegOutcome,
}

/// The report of running `tx` on `accts`.
pub open spec fn report_of(accts: AccountsView, tx: TransactionView) -> ExecutionReport {
    ExecutionReport {
        id: tx.id as u64,
        withdraw: leg_outcome(accts, tx.withdraw),
        deposit: leg_outcome(accts, tx.deposit),
    }
}

/// Adds `delta` to the balance of the account that `name` finds, if any.
fn apply_leg(ledger: &mut Ledger, name: &String, delta: i128) -> (r: LegOutcome)
    requires
        old(ledger).wf(),
        balances_fit(credit(old(ledger)@, name@, delta as int)),
    ensures
        final(ledger).wf(),
        final(ledger)@ == credit(old(ledger)@, name@, delta as int),
        r == leg_outcome(old(ledger)@, name@),
{
    if name.as_str().is_empty() {
        proof {
            lemma_credit_missing(ledger@, name@, delta as int);
        }
        return LegOutcome::Absent;
    }
    match ledger.find_account(name) {
        None => {
            proof {
                lemma_credit_missing(ledger@, name@, delta as int);
            }
            LegOutcome::NotFound
        },
        Some(i) => {
            proof {
                lemma_credit_found(ledger@, name@, delta as int, i as int);
                assert(credit(ledger@, name@, delta as int)[i as int].1 == ledger@[i as int].1
                    + delta);
            }
            let b = ledger.balance(i) as i128 + delta;
            ledger.set_balance(i, b as i64);
            LegOutcome::Applied
        },
    }
}

/// Whether running `transaction` keeps every balance of `ledger` within an
/// `i64`, after each leg.
pub fn can_execute(transaction: &Transaction, ledger: &Ledger) -> (r: bool)
    requires
        ledger.wf(),
    ensures
        r == fits_after(ledger@, transaction@),
{
    let ghost accts = ledger@;
    let ghost tx = transaction@;
    let amount = transaction.amount as i128;
    proof {
        lemma_credit_keeps_names(accts, tx.withdraw, -tx.amount);
    }
    let w = ledger.find_account(&transaction.withdraw_account);
    let d = ledger.find_account(&transaction.deposit_account);
    let ghost mid = credit(accts, tx.withdraw, -tx.amount);
    let mut wb: i128 = 0;
    let mut fits_w = true;
    if let Some(i) = w {
        proof {
            lemma_credit_found(accts, tx.withdraw, -tx.amount, i as int);
        }
        wb = ledger.balance(i) as i128 - amount;
        fits_w = i64::MIN as i128 <= wb && wb <= i64::MAX as i128;
        proof {
            assert(mid[i as int].1 == wb);
            if fits_w {
                assert forall|k: int| 0 <= k < mid.len() implies i64::MIN <= #[trigger] mid[k].1
                    <= i64::MAX by {
                    if k != i {
                        assert(mid[k] == accts[k]);
                    }
                }
            }
        }
    } else {
        proof {
            lemma_credit_missing(accts, tx.withdraw, -tx.amount);
        }
    }
    assert(fits_w == balances_fit(mid));
    if !fits_w {
        return false;
    }
    match d {
        None => {
            proof {
                lemma_credit_missing(mid, tx.deposit, tx.amount);
            }
            true
        },
        Some(j) => {
            proof {
                lemma_credit_found(mid, tx.deposit, tx.amount, j as int);
            }
            let db: i128 = if w == Some(j) {
                wb + amount
            } else {
                ledger.balance(j) as i128 + amount
            };
            let fits_d = i64::MIN as i128 <= db && db <= i64::MAX as i128;
            proof {
                let after = apply_transaction(accts, tx);
                assert(after[j as int].1 == db);
                if fits_d {
                    assert forall|k: int| 0 <= k < after.len() implies i64::MIN <= #[trigger] after[k].1
                        <= i64::MAX by {
                        if k != j {
                            assert(after[k] == mid[k]);
                        }
                    }
                }
            }
            fits_d
        },
    }
}

/// Runs one transaction against the ledger: withdraws `amount` from the
/// withdrawal account, then deposits it into the deposit account. A leg whose
/// account is absent or unknown is skipped and the other leg still runs.
/// Balances may go below zero.
pub fn execute_transaction(transaction: &Transaction, ledger: &mut Ledger) -> (r: ExecutionReport)
    requires
        old(ledger).wf(),
        fits_after(old(ledger)@, transaction@),
    ensures
        final(ledger).wf(),
        final(ledger)@ == apply_transaction(old(ledger)@, transaction@),
        r == report_of(old(ledger)@, transaction@),
{
    let ghost accts = ledger@;
    proof {
        lemma_credit_keeps_names(accts, transaction@.withdraw, -transaction@.amount);
    }
    let amount = transaction.amount as i128;
    let withdraw = apply_leg(ledger, &transaction.withdraw_account, -amount);
    let deposit = apply_leg(ledger, &transaction.deposit_account, amount);
    ExecutionReport { id: transaction.id, withdraw, deposit }
}

} // verus!
