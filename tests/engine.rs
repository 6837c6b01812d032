use ledger_engine::engine::{Engine, RunError};
use ledger_engine::executor::{can_execute, execute_transaction, ExecutionReport, LegOutcome};
use ledger_engine::ledger::{Account, Ledger, LedgerError};
use ledger_engine::transaction::Transaction;

fn accounts(entries: &[(&str, i64)]) -> Vec<Account> {
    entries
        .iter()
        .map(|(n, b)| Account::new(String::from(*n), *b))
        .collect()
}

fn tx(id: u64, amount: u64, from: &str, to: &str) -> Transaction {
    Transaction::new(id, amount, String::from(from), String::from(to))
}

fn sample_queue() -> Vec<Transaction> {
    vec![
        tx(1, 5, "A1", "A2"),
        tx(2, 7, "A3", ""),
        tx(3, 10, "A2", "A1"),
        tx(4, 15, "A1", "A3"),
        tx(5, 8, "A1", "A3"),
        tx(6, 3, "A2", "A1"),
        tx(7, 6, "A3", "A1"),
    ]
}

fn sample_engine() -> Engine {
    Engine::new(accounts(&[("A1", 0), ("A2", 0), ("A3", 0)]), sample_queue()).unwrap()
}

fn balances(engine: &Engine) -> Vec<i64> {
    let l = engine.ledger();
    (0..l.len()).map(|i| l.balance(i)).collect()
}

fn run_in(order: &[usize]) -> Vec<i64> {
    let mut e = sample_engine();
    for &i in order {
        assert!(e.run(i).is_ok());
    }
    assert!(e.is_complete());
    balances(&e)
}

#[test]
fn sample_queue_in_order() {
    assert_eq!(run_in(&[0, 1, 2, 3, 4, 5, 6]), vec![-9, -8, 10]);
}

#[test]
fn sample_queue_any_order() {
    let expected = vec![-9, -8, 10];
    assert_eq!(run_in(&[6, 5, 4, 3, 2, 1, 0]), expected);
    assert_eq!(run_in(&[3, 0, 6, 1, 5, 2, 4]), expected);
    assert_eq!(run_in(&[1, 4, 2, 6, 0, 3, 5]), expected);
}

#[test]
fn reruns_from_fresh_accounts_agree() {
    let first = run_in(&[2, 0, 1, 3, 6, 5, 4]);
    let second = run_in(&[2, 0, 1, 3, 6, 5, 4]);
    let third = run_in(&[5, 3, 1, 0, 2, 4, 6]);
    assert_eq!(first, second);
    assert_eq!(first, third);
}

#[test]
fn transfer_conserves_total() {
    let mut l = Ledger::new(accounts(&[("A1", 100), ("A2", -20), ("A3", 7)])).unwrap();
    let r = execute_transaction(&tx(9, 30, "A1", "A3"), &mut l);
    assert_eq!(
        r,
        ExecutionReport { id: 9, withdraw: LegOutcome::Applied, deposit: LegOutcome::Applied }
    );
    assert_eq!((l.balance(0), l.balance(1), l.balance(2)), (70, -20, 37));
    assert_eq!(l.balance(0) + l.balance(1) + l.balance(2), 87);
}

#[test]
fn missing_withdraw_account_still_deposits() {
    let mut l = Ledger::new(accounts(&[("A1", 0), ("A2", 0)])).unwrap();
    let r = execute_transaction(&tx(1, 4, "ZZ", "A2"), &mut l);
    assert_eq!(r.withdraw, LegOutcome::NotFound);
    assert_eq!(r.deposit, LegOutcome::Applied);
    assert_eq!((l.balance(0), l.balance(1)), (0, 4));
}

#[test]
fn missing_deposit_account_still_withdraws() {
    let mut l = Ledger::new(accounts(&[("A1", 0), ("A2", 0)])).unwrap();
    let r = execute_transaction(&tx(1, 4, "A1", "a2"), &mut l);
    assert_eq!(r.withdraw, LegOutcome::Applied);
    assert_eq!(r.deposit, LegOutcome::NotFound);
    assert_eq!((l.balance(0), l.balance(1)), (-4, 0));
}

#[test]
fn both_legs_missing_or_absent_change_nothing() {
    let mut l = Ledger::new(accounts(&[("A1", 3), ("A2", 5)])).unwrap();
    let r = execute_transaction(&tx(1, 4, "", ""), &mut l);
    assert_eq!(
        r,
        ExecutionReport { id: 1, withdraw: LegOutcome::Absent, deposit: LegOutcome::Absent }
    );
    let r = execute_transaction(&tx(2, 4, "X", "Y"), &mut l);
    assert_eq!(r.withdraw, LegOutcome::NotFound);
    assert_eq!(r.deposit, LegOutcome::NotFound);
    assert_eq!((l.balance(0), l.balance(1)), (3, 5));
}

#[test]
fn outside_deposit_and_withdrawal() {
    let mut l = Ledger::new(accounts(&[("A1", 0)])).unwrap();
    execute_transaction(&tx(1, 12, "", "A1"), &mut l);
    assert_eq!(l.balance(0), 12);
    execute_transaction(&tx(2, 20, "A1", ""), &mut l);
    assert_eq!(l.balance(0), -8);
}

#[test]
fn transfer_to_same_account_keeps_balance() {
    let mut l = Ledger::new(accounts(&[("A1", 10)])).unwrap();
    execute_transaction(&tx(1, 6, "A1", "A1"), &mut l);
    assert_eq!(l.balance(0), 10);
}

#[test]
fn find_account_is_exact() {
    let l = Ledger::new(accounts(&[("A1", 0), ("B2", 0), ("A10", 0)])).unwrap();
    assert_eq!(l.find_account(&String::from("A1")), Some(0));
    assert_eq!(l.find_account(&String::from("A10")), Some(2));
    assert_eq!(l.find_account(&String::from("b2")), None);
    assert_eq!(l.find_account(&String::from("A")), None);
    assert_eq!(l.find_account(&String::from("")), None);
    assert_eq!(l.name(1).as_str(), "B2");
    assert_eq!(l.len(), 3);
}

#[test]
fn duplicate_names_are_refused() {
    let r = Ledger::new(accounts(&[("A1", 0), ("A2", 0), ("A1", 5)]));
    assert!(matches!(r, Err(LedgerError::DuplicateName(2))));
    let e = Engine::new(accounts(&[("A1", 0), ("A1", 0)]), vec![]);
    assert!(matches!(e, Err(LedgerError::DuplicateName(1))));
}

#[test]
fn each_transaction_runs_once() {
    let mut e = sample_engine();
    assert_eq!(e.len(), 7);
    assert!(!e.is_complete());
    let r = e.run(3).unwrap();
    assert_eq!(
        r,
        ExecutionReport { id: 4, withdraw: LegOutcome::Applied, deposit: LegOutcome::Applied }
    );
    assert_eq!(e.run(3), Err(RunError::AlreadyExecuted));
    assert_eq!(balances(&e), vec![-15, 0, 15]);
    assert_eq!(e.run(7), Err(RunError::NoSuchTransaction));
    for i in 0..7 {
        if i != 3 {
            assert!(e.run(i).is_ok());
        }
    }
    assert!(e.is_complete());
    for i in 0..7 {
        assert_eq!(e.run(i), Err(RunError::AlreadyExecuted));
    }
    assert_eq!(balances(&e), vec![-9, -8, 10]);
}

#[test]
fn report_names_the_transaction() {
    let mut e = sample_engine();
    let r = e.run(1).unwrap();
    assert_eq!(
        r,
        ExecutionReport { id: 2, withdraw: LegOutcome::Applied, deposit: LegOutcome::Absent }
    );
    assert_eq!(e.transaction(1).amount, 7);
}

#[test]
fn balance_out_of_range_is_refused() {
    let mut e = Engine::new(
        accounts(&[("A1", i64::MIN + 1), ("A2", i64::MAX)]),
        vec![tx(1, 2, "A1", ""), tx(2, 1, "", "A2"), tx(3, 1, "A1", "")],
    )
    .unwrap();
    assert_eq!(e.run(0), Err(RunError::BalanceOutOfRange));
    assert_eq!(e.run(1), Err(RunError::BalanceOutOfRange));
    assert!(e.run(2).is_ok());
    assert_eq!(balances(&e), vec![i64::MIN, i64::MAX]);
    assert_eq!(e.run(0), Err(RunError::BalanceOutOfRange));
    assert!(!e.is_complete());
}

#[test]
fn intermediate_withdrawal_must_fit() {
    let l = Ledger::new(accounts(&[("A1", i64::MIN)])).unwrap();
    assert!(!can_execute(&tx(1, 1, "A1", "A1"), &l));
    assert!(can_execute(&tx(1, 1, "", "A1"), &l));
    assert!(can_execute(&tx(1, 1, "X", "Y"), &l));
    let l = Ledger::new(accounts(&[("A1", 0), ("A2", i64::MAX - 5)])).unwrap();
    assert!(can_execute(&tx(1, 5, "A1", "A2"), &l));
    assert!(!can_execute(&tx(1, 6, "A1", "A2"), &l));
}

#[test]
fn empty_queue_is_complete_at_once() {
    let e = Engine::new(accounts(&[("A1", 4)]), vec![]).unwrap();
    assert!(e.is_complete());
    assert_eq!(balances(&e), vec![4]);
}
