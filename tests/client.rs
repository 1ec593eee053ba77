use ledger::amount::{Amount, ParseAmountError};
use ledger::client::{Client, ClientEntry, ClientTransaction};
use ledger::database::{BalanceOverflow, Database, Record, RecordError, Transaction};

#[test]
fn client_formatting() {
    let id = 1;
    let available = Amount::new(12345);
    let held = Amount::new(1);
    let locked = false;
    let entry = ClientEntry::new(id, available, held, locked);
    assert_eq!(entry.to_string(), "1,1.2345,0.0001,1.2346,false");
}

#[test]
fn deposit_resolve() {
    let mut client = Client::new(1);

    client.add_transaction(ClientTransaction::deposit(1, Amount::new(100000)));
    assert_eq!(client.get_entry().to_string(), "1,10,0,10,false");

    client.add_transaction(ClientTransaction::dispute(1));
    assert_eq!(client.get_entry().to_string(), "1,0,10,10,false");

    client.add_transaction(ClientTransaction::resolve(1));
    assert_eq!(client.get_entry().to_string(), "1,10,0,10,false");
}

#[test]
fn deposit_chargeback() {
    let mut client = Client::new(1);

    client.add_transaction(ClientTransaction::deposit(1, Amount::new(100000)));
    assert_eq!(client.get_entry().to_string(), "1,10,0,10,false");

    client.add_transaction(ClientTransaction::dispute(1));
    assert_eq!(client.get_entry().to_string(), "1,0,10,10,false");

    client.add_transaction(ClientTransaction::chargeback(1));
    assert_eq!(client.get_entry().to_string(), "1,0,0,0,true");
}

#[test]
fn withdrawal_resolve() {
    let mut client = Client::new(1);

    client.add_transaction(ClientTransaction::deposit(1, Amount::new(100000)));
    assert_eq!(client.get_entry().to_string(), "1,10,0,10,false");

    client.add_transaction(ClientTransaction::withdrawal(2, Amount::new(20000)));
    assert_eq!(client.get_entry().to_string(), "1,8,0,8,false");

    client.add_transaction(ClientTransaction::dispute(2));
    assert_eq!(client.get_entry().to_string(), "1,10,-2,8,false");

    client.add_transaction(ClientTransaction::resolve(2));
    assert_eq!(client.get_entry().to_string(), "1,8,0,8,false");
}

#[test]
fn withdrawal_chargeback() {
    let mut client = Client::new(1);

    client.add_transaction(ClientTransaction::deposit(1, Amount::new(100000)));
    assert_eq!(client.get_entry().to_string(), "1,10,0,10,false");

    client.add_transaction(ClientTransaction::withdrawal(2, Amount::new(20000)));
    assert_eq!(client.get_entry().to_string(), "1,8,0,8,false");

    client.add_transaction(ClientTransaction::dispute(2));
    assert_eq!(client.get_entry().to_string(), "1,10,-2,8,false");

    client.add_transaction(ClientTransaction::chargeback(2));
    assert_eq!(client.get_entry().to_string(), "1,10,0,10,true");
}

#[test]
fn cannot_spend_over_available_funds() {
    let mut client = Client::new(1);

    client.add_transaction(ClientTransaction::deposit(1, Amount::new(10000)));
    assert_eq!(client.get_entry().to_string(), "1,1,0,1,false");

    client.add_transaction(ClientTransaction::withdrawal(2, Amount::new(20000)));
    assert_eq!(client.get_entry().to_string(), "1,1,0,1,false");
}

#[test]
fn negative_available_funds() {
    let mut client = Client::new(1);

    client.add_transaction(ClientTransaction::deposit(1, Amount::new(10000)));
    assert_eq!(client.get_entry().to_string(), "1,1,0,1,false");

    client.add_transaction(ClientTransaction::withdrawal(2, Amount::new(5000)));
    assert_eq!(client.get_entry().to_string(), "1,0.5,0,0.5,false");

    client.add_transaction(ClientTransaction::dispute(1));
    assert_eq!(client.get_entry().to_string(), "1,-0.5,1,0.5,false");

    client.add_transaction(ClientTransaction::chargeback(1));
    assert_eq!(client.get_entry().to_string(), "1,-0.5,0,-0.5,true");
}

#[test]
fn resolve_restores_funds() {
    let mut client = Client::new(3);
    client.add_transaction(ClientTransaction::deposit(1, Amount::new(100000)));
    let e = client.get_entry();
    assert_eq!((e.available, e.held), (Amount::new(100000), Amount::new(0)));
    client.add_transaction(ClientTransaction::dispute(1));
    let e = client.get_entry();
    assert_eq!((e.available, e.held), (Amount::new(0), Amount::new(100000)));
    client.add_transaction(ClientTransaction::resolve(1));
    let e = client.get_entry();
    assert_eq!((e.available, e.held, e.locked), (Amount::new(100000), Amount::new(0), false));
}

#[test]
fn locked_account_rejects_withdrawals_and_takes_deposits() {
    let mut client = Client::new(4);
    client.add_transaction(ClientTransaction::deposit(1, Amount::new(50000)));
    client.add_transaction(ClientTransaction::deposit(2, Amount::new(30000)));
    client.add_transaction(ClientTransaction::dispute(2));
    client.add_transaction(ClientTransaction::chargeback(2));
    assert_eq!(client.get_entry().to_string(), "4,5,0,5,true");
    client.add_transaction(ClientTransaction::withdrawal(3, Amount::new(10000)));
    assert_eq!(client.get_entry().to_string(), "4,5,0,5,true");
    client.add_transaction(ClientTransaction::deposit(4, Amount::new(20000)));
    assert_eq!(client.get_entry().to_string(), "4,7,0,7,true");
}

#[test]
fn zero_amounts_are_dropped() {
    let mut client = Client::new(5);
    client.add_transaction(ClientTransaction::deposit(1, Amount::new(0)));
    client.add_transaction(ClientTransaction::withdrawal(2, Amount::new(0)));
    client.add_transaction(ClientTransaction::dispute(1));
    assert_eq!(client.get_entry().to_string(), "5,0,0,0,false");
    client.add_transaction(ClientTransaction::deposit(3, Amount::new(10000)));
    client.add_transaction(ClientTransaction::dispute(1));
    assert_eq!(client.get_entry().to_string(), "5,1,0,1,false");
}

#[test]
fn unknown_references_change_nothing() {
    let mut client = Client::new(6);
    client.add_transaction(ClientTransaction::deposit(1, Amount::new(10000)));
    client.add_transaction(ClientTransaction::dispute(9));
    client.add_transaction(ClientTransaction::resolve(1));
    client.add_transaction(ClientTransaction::chargeback(1));
    assert_eq!(client.get_entry().to_string(), "6,1,0,1,false");
    client.add_transaction(ClientTransaction::dispute(1));
    client.add_transaction(ClientTransaction::resolve(1));
    client.add_transaction(ClientTransaction::chargeback(1));
    assert_eq!(client.get_entry().to_string(), "6,1,0,1,false");
}

#[test]
fn snapshot_is_the_same_when_taken_twice() {
    let mut client = Client::new(7);
    client.add_transaction(ClientTransaction::deposit(1, Amount::new(12345)));
    client.add_transaction(ClientTransaction::dispute(1));
    assert_eq!(client.get_entry(), client.get_entry());
}

#[test]
fn balances_beyond_an_amount_are_reported() {
    let mut client = Client::new(8);
    client.add_transaction(ClientTransaction::deposit(1, Amount::new(i64::MAX)));
    assert!(client.try_get_entry().is_some());
    client.add_transaction(ClientTransaction::deposit(2, Amount::new(1)));
    assert_eq!(client.try_get_entry(), None);
}

fn record(kind: &str, client: u16, tx: u32, amount: Option<&str>) -> Record {
    Record {
        kind: kind.to_string(),
        client,
        tx,
        amount: amount.map(|a| a.to_string()),
    }
}

#[test]
fn records_become_transactions() {
    assert_eq!(
        Transaction::from_record(record("deposit", 1, 2, Some("1.5"))),
        Ok(Transaction::Deposit(1, 2, Amount::new(15000)))
    );
    assert_eq!(
        Transaction::from_record(record("withdrawal", 1, 3, Some("0.25"))),
        Ok(Transaction::Withdrawal(1, 3, Amount::new(2500)))
    );
    assert_eq!(
        Transaction::from_record(record("dispute", 1, 2, None)),
        Ok(Transaction::Dispute(1, 2))
    );
    assert_eq!(
        Transaction::from_record(record("resolve", 1, 2, None)),
        Ok(Transaction::Resolve(1, 2))
    );
    assert_eq!(
        Transaction::from_record(record("chargeback", 1, 2, None)),
        Ok(Transaction::Chargeback(1, 2))
    );
}

#[test]
fn bad_records_are_errors() {
    assert_eq!(
        Transaction::from_record(record("Deposit", 1, 2, Some("1"))),
        Err(RecordError::UnknownType)
    );
    assert_eq!(
        Transaction::from_record(record("deposit", 1, 2, None)),
        Err(RecordError::MissingAmount)
    );
    assert_eq!(
        Transaction::from_record(record("withdrawal", 1, 2, Some("x"))),
        Err(RecordError::InvalidAmount(ParseAmountError::Malformed))
    );
    assert_eq!(
        Transaction::from_record(record("deposit", 1, 2, Some("1000000000000000"))),
        Err(RecordError::InvalidAmount(ParseAmountError::OutOfRange))
    );
}

#[test]
fn database_routes_and_renders() {
    let mut db = Database::new();
    db.add_transaction(Transaction::Deposit(2, 1, Amount::new(10000)));
    db.add_transaction(Transaction::Deposit(1, 2, Amount::new(20000)));
    db.add_transaction(Transaction::Withdrawal(2, 3, Amount::new(5000)));
    db.add_transaction(Transaction::Dispute(1, 2));
    db.add_transaction(Transaction::Dispute(2, 2));
    let mut out = String::new();
    assert_eq!(db.write_all(&mut out), Ok(()));
    assert_eq!(
        out,
        "client,available,held,total,locked\n2,0.5,0,0.5,false\n1,0,2,2,false\n"
    );
}

#[test]
fn database_reports_overflow_and_writes_nothing() {
    let mut db = Database::new();
    db.add_transaction(Transaction::Deposit(3, 1, Amount::new(i64::MAX)));
    db.add_transaction(Transaction::Deposit(3, 2, Amount::new(i64::MAX)));
    let mut out = String::from("x");
    assert_eq!(db.write_all(&mut out), Err(BalanceOverflow { client: 3 }));
    assert_eq!(out, "x");
}

#[test]
fn scenario_dispute_after_withdrawal() {
    let mut db = Database::new();
    let mut out = String::new();
    db.add_transaction(Transaction::Deposit(1, 1, Amount::new(10000)));
    db.add_transaction(Transaction::Withdrawal(1, 2, Amount::new(5000)));
    db.add_transaction(Transaction::Dispute(1, 1));
    db.add_transaction(Transaction::Chargeback(1, 1));
    db.write_all(&mut out).unwrap();
    assert_eq!(out, "client,available,held,total,locked\n1,-0.5,0,-0.5,true\n");
}
