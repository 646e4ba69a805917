use ledger::account::AccountingError;
use ledger::account::Accounts;
use ledger::transaction::Tx;

fn deposit_record(r: Result<Tx, AccountingError>) -> (String, u64) {
    match r {
        Ok(Tx::Deposit { account, amount }) => (account, amount),
        other => panic!("expected a deposit record, got {:?}", other),
    }
}

fn withdraw_record(r: Result<Tx, AccountingError>) -> (String, u64) {
    match r {
        Ok(Tx::Withdraw { account, amount }) => (account, amount),
        other => panic!("expected a withdraw record, got {:?}", other),
    }
}

#[test]
fn deposit_fresh_then_accumulates() {
    let mut ledger = Accounts::new();
    let (account, amount) = deposit_record(ledger.deposit("alice", 5));
    assert_eq!(account, "alice");
    assert_eq!(amount, 5);
    assert_eq!(ledger.balance("alice"), Some(5));
    let (account, amount) = deposit_record(ledger.deposit("alice", 7));
    assert_eq!(account, "alice");
    assert_eq!(amount, 7);
    assert_eq!(ledger.balance("alice"), Some(12));
}

#[test]
fn deposit_max_on_fresh_account_is_not_overflow() {
    let mut ledger = Accounts::new();
    let (_, amount) = deposit_record(ledger.deposit("alice", u64::MAX));
    assert_eq!(amount, u64::MAX);
    assert_eq!(ledger.balance("alice"), Some(u64::MAX));
}

#[test]
fn deposit_overflow_fails_and_keeps_balance() {
    let mut ledger = Accounts::new();
    ledger.deposit("alice", u64::MAX).unwrap();
    match ledger.deposit("alice", 1) {
        Err(AccountingError::AccountOverFunded(account, amount)) => {
            assert_eq!(account, "alice");
            assert_eq!(amount, 1);
        },
        other => panic!("expected AccountOverFunded, got {:?}", other),
    }
    assert_eq!(ledger.balance("alice"), Some(u64::MAX));
}

#[test]
fn withdraw_missing_account_fails() {
    let mut ledger = Accounts::new();
    match ledger.withdraw("ghost", 1) {
        Err(AccountingError::AccountNotFound(account)) => assert_eq!(account, "ghost"),
        other => panic!("expected AccountNotFound, got {:?}", other),
    }
    assert!(ledger.snapshot().is_empty());
}

#[test]
fn withdraw_more_than_balance_fails_and_keeps_balance() {
    let mut ledger = Accounts::new();
    ledger.deposit("alice", 5).unwrap();
    match ledger.withdraw("alice", 10) {
        Err(AccountingError::AccountUnderFunded(account, amount)) => {
            assert_eq!(account, "alice");
            assert_eq!(amount, 10);
        },
        other => panic!("expected AccountUnderFunded, got {:?}", other),
    }
    assert_eq!(ledger.balance("alice"), Some(5));
}

#[test]
fn withdraw_exact_balance_leaves_zero() {
    let mut ledger = Accounts::new();
    ledger.deposit("alice", 5).unwrap();
    let (account, amount) = withdraw_record(ledger.withdraw("alice", 5));
    assert_eq!(account, "alice");
    assert_eq!(amount, 5);
    assert_eq!(ledger.balance("alice"), Some(0));
}

#[test]
fn send_moves_exactly_the_amount() {
    let mut ledger = Accounts::new();
    ledger.deposit("alice", 10).unwrap();
    ledger.deposit("bob", 0).unwrap();
    match ledger.send("alice", "bob", 4) {
        Ok((Tx::Withdraw { account: wa, amount: wx }, Tx::Deposit { account: da, amount: dx })) => {
            assert_eq!(wa, "alice");
            assert_eq!(wx, 4);
            assert_eq!(da, "bob");
            assert_eq!(dx, 4);
        },
        other => panic!("expected a withdraw/deposit pair, got {:?}", other),
    }
    assert_eq!(ledger.balance("alice"), Some(6));
    assert_eq!(ledger.balance("bob"), Some(4));
}

#[test]
fn send_to_missing_recipient_fails_and_changes_nothing() {
    let mut ledger = Accounts::new();
    ledger.deposit("alice", 10).unwrap();
    match ledger.send("alice", "ghost", 4) {
        Err(AccountingError::AccountOverFunded(account, amount)) => {
            assert_eq!(account, "alice");
            assert_eq!(amount, 4);
        },
        other => panic!("expected AccountOverFunded, got {:?}", other),
    }
    assert_eq!(ledger.balance("alice"), Some(10));
    assert_eq!(ledger.balance("ghost"), None);
}

#[test]
fn send_from_missing_sender_fails_and_changes_nothing() {
    let mut ledger = Accounts::new();
    ledger.deposit("bob", 10).unwrap();
    match ledger.send("ghost", "bob", 4) {
        Err(AccountingError::AccountOverFunded(account, amount)) => {
            assert_eq!(account, "ghost");
            assert_eq!(amount, 4);
        },
        other => panic!("expected AccountOverFunded, got {:?}", other),
    }
    assert_eq!(ledger.balance("bob"), Some(10));
    assert_eq!(ledger.balance("ghost"), None);
}

#[test]
fn send_underfunded_sender_fails_and_changes_nothing() {
    let mut ledger = Accounts::new();
    ledger.deposit("alice", 1).unwrap();
    ledger.deposit("bob", 1).unwrap();
    match ledger.send("alice", "bob", 5) {
        Err(AccountingError::AccountUnderFunded(account, amount)) => {
            assert_eq!(account, "alice");
            assert_eq!(amount, 5);
        },
        other => panic!("expected AccountUnderFunded, got {:?}", other),
    }
    assert_eq!(ledger.balance("alice"), Some(1));
    assert_eq!(ledger.balance("bob"), Some(1));
}

#[test]
fn send_overflowing_recipient_keeps_the_sender_debited() {
    let mut ledger = Accounts::new();
    ledger.deposit("alice", 10).unwrap();
    ledger.deposit("bob", u64::MAX).unwrap();
    match ledger.send("alice", "bob", 4) {
        Err(AccountingError::AccountOverFunded(account, amount)) => {
            assert_eq!(account, "bob");
            assert_eq!(amount, 4);
        },
        other => panic!("expected AccountOverFunded, got {:?}", other),
    }
    // The withdrawal leg is not rolled back: the sender stays debited.
    assert_eq!(ledger.balance("alice"), Some(6));
    assert_eq!(ledger.balance("bob"), Some(u64::MAX));
}

#[test]
fn send_to_self_succeeds_and_keeps_the_balance() {
    let mut ledger = Accounts::new();
    ledger.deposit("alice", 10).unwrap();
    let (first, second) = ledger.send("alice", "alice", 4).unwrap();
    assert!(matches!(first, Tx::Withdraw { .. }));
    assert!(matches!(second, Tx::Deposit { .. }));
    assert_eq!(ledger.balance("alice"), Some(10));
}

#[test]
fn balance_of_missing_account_is_none() {
    let ledger = Accounts::new();
    assert_eq!(ledger.balance("alice"), None);
}

#[test]
fn snapshot_reflects_exact_final_balances() {
    let mut ledger = Accounts::new();
    ledger.deposit("alice", 10).unwrap();
    ledger.deposit("bob", 3).unwrap();
    ledger.deposit("carol", 7).unwrap();
    ledger.withdraw("bob", 1).unwrap();
    ledger.send("alice", "carol", 5).unwrap();
    let mut snapshot = ledger.snapshot();
    snapshot.sort();
    let expected = vec![
        ("alice".to_string(), 5),
        ("bob".to_string(), 2),
        ("carol".to_string(), 12),
    ];
    assert_eq!(snapshot, expected);
}

#[test]
fn print_empty_ledger_is_empty() {
    let ledger = Accounts::new();
    assert_eq!(ledger.print(), "");
}

#[test]
fn print_renders_each_account_block() {
    let mut ledger = Accounts::new();
    ledger.deposit("alice", 42).unwrap();
    let expected = "\n\rAccount:\n            \r   name: alice\n            \r   amount: 42\n            ";
    assert_eq!(ledger.print(), expected);
    ledger.deposit("bob", 0).unwrap();
    let expected_two = format!(
        "{}\n\rAccount:\n            \r   name: bob\n            \r   amount: 0\n            ",
        expected
    );
    assert_eq!(ledger.print(), expected_two);
}
