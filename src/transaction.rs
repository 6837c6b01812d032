//! Transaction requests.
use vstd::prelude::*;

verus! {

/// A request to move `amount` out of one account and into another. An empty
/// account name means that leg is absent: an empty `withdraw_account` is an
/// outside deposit, an empty `deposit_account` an outside withdrawal.
pub struct Transaction {
    pub id: u64,
    pub amount: u64,
    pub withdraw_account: String,
    pub deposit_account: String,
}

/// The abstract value of a transaction.
pub struct TransactionView {
    pub id: int,
    pub amount: int,
    pub withdraw: Seq<char>,
    pub deposit: Seq<char>,
}

impl View for Transaction {
    type V = TransactionView;

    open spec fn view(&self) -> TransactionView {
        TransactionView {
            id: self.id as int,
            amount: self.amount as int,
            withdraw: self.withdraw_account@,
            deposit: self.deposit_account@,
        }
    }
}

impl Transaction {
    pub fn new(id: u64, amount: u64, withdraw_account: String, deposit_account: String) -> (r:
        Transaction)
        ensures
            r.id == id,
            r.amount == amount,
            r.withdraw_account@ == withdraw_account@,
            r.deposit_account@ == deposit_account@,
    {
        Transaction { id, amount, withdraw_account, deposit_account }
    }
}

/// What a transaction does to the balance of the account called `name`:
/// plus the amount if it deposits there, minus the amount if it withdraws
/// from there (both, for a transfer from an account to itself).
pub open spec fn effect(tx: TransactionView, name: Seq<char>) -> int {
    (if name.len() > 0 && tx.deposit == name {
        tx.amount
    } else {
        0
    }) - (if name.len() > 0 && tx.withdraw == name {
        tx.amount
    } else {
        0
    })
}

} // verus!
