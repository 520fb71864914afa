use ledger::client::Client;
use ledger::error::LedgerError;
use ledger::fixed::Fixed;
use ledger::merge::merge_in_place;
use ledger::transactions::{ClaimType, Transaction, TransactionType, UnprocessedTransaction};

fn fx(s: &str) -> Fixed {
    Fixed::from_str(s).unwrap()
}

fn deposit(c: &mut Client, id: u64, seq: u64, amount: &str) {
    c.handle_transaction(UnprocessedTransaction::new(
        TransactionType::UpdateFunds(fx(amount)),
        1,
        id,
        seq,
    ));
}

fn claim(c: &mut Client, id: u64, seq: u64, kind: ClaimType) {
    c.handle_transaction(UnprocessedTransaction::new(
        TransactionType::Claim(kind),
        1,
        id,
        seq,
    ));
}

fn tx(id: u64, seq: u64) -> Transaction {
    Transaction::new(id, seq, Fixed::zero())
}

fn keys(v: &[Transaction]) -> Vec<(u64, u64)> {
    v.iter().map(|t| (t.chronology, t.id)).collect()
}

#[test]
fn deposit_dispute_resolve() {
    let mut c = Client::new();
    deposit(&mut c, 1, 0, "10.0000");
    claim(&mut c, 1, 1, ClaimType::Dispute);
    claim(&mut c, 1, 2, ClaimType::Resolve);
    assert_eq!(c.calculate_funds(), Ok(()));
    assert_eq!(c.available_funds().to_string(), "10.0000");
    assert_eq!(c.held_funds().to_string(), "0.0000");
    assert!(!c.is_locked());
}

#[test]
fn deposit_dispute_chargeback() {
    let mut c = Client::new();
    deposit(&mut c, 1, 0, "10.0000");
    claim(&mut c, 1, 1, ClaimType::Dispute);
    claim(&mut c, 1, 2, ClaimType::Chargeback);
    assert_eq!(c.calculate_funds(), Ok(()));
    assert_eq!(c.available_funds().to_string(), "0.0000");
    assert_eq!(c.held_funds().to_string(), "0.0000");
    assert!(c.is_locked());
    deposit(&mut c, 2, 3, "5.0000");
    assert_eq!(c.calculate_funds(), Ok(()));
    assert_eq!(c.available_funds().to_string(), "0.0000");
    assert_eq!(c.held_funds().to_string(), "0.0000");
    assert!(c.is_locked());
}

#[test]
fn chargeback_then_later_deposit_in_same_batch() {
    let mut c = Client::new();
    deposit(&mut c, 1, 0, "10.0000");
    claim(&mut c, 1, 1, ClaimType::Dispute);
    claim(&mut c, 1, 2, ClaimType::Chargeback);
    deposit(&mut c, 2, 3, "5.0000");
    assert_eq!(c.calculate_funds(), Ok(()));
    assert_eq!(c.available_funds().to_string(), "0.0000");
    assert_eq!(c.held_funds().to_string(), "0.0000");
    assert!(c.is_locked());
}

#[test]
fn withdrawal_exceeding_available_is_skipped() {
    let mut c = Client::new();
    deposit(&mut c, 1, 0, "5.0000");
    deposit(&mut c, 2, 1, "-10.0000");
    assert_eq!(c.calculate_funds(), Ok(()));
    assert_eq!(c.available_funds().to_string(), "5.0000");
    assert_eq!(c.held_funds().to_string(), "0.0000");
}

#[test]
fn disputed_withdrawal_is_held() {
    let mut c = Client::new();
    deposit(&mut c, 1, 0, "5.0000");
    deposit(&mut c, 2, 1, "-3.0000");
    claim(&mut c, 2, 2, ClaimType::Dispute);
    assert_eq!(c.calculate_funds(), Ok(()));
    assert_eq!(c.available_funds().to_string(), "5.0000");
    assert_eq!(c.held_funds().to_string(), "3.0000");
    assert_eq!(c.total_funds().to_string(), "8.0000");
}

#[test]
fn disputed_deposit_moves_to_held() {
    let mut c = Client::new();
    deposit(&mut c, 1, 0, "5.0000");
    deposit(&mut c, 2, 1, "-3.0000");
    claim(&mut c, 1, 2, ClaimType::Dispute);
    assert_eq!(c.calculate_funds(), Ok(()));
    // a disputed deposit is taken from available into held; the withdrawal
    // would then leave available at -8 and is skipped
    assert_eq!(c.available_funds().to_string(), "-5.0000");
    assert_eq!(c.held_funds().to_string(), "5.0000");
    assert_eq!(c.total_funds().to_string(), "0.0000");
}

#[test]
fn dispute_waits_for_its_transaction() {
    let mut c = Client::new();
    claim(&mut c, 1, 1, ClaimType::Dispute);
    assert_eq!(c.calculate_funds(), Ok(()));
    assert_eq!(c.held_funds().to_string(), "0.0000");
    deposit(&mut c, 1, 0, "2.5");
    assert_eq!(c.calculate_funds(), Ok(()));
    assert_eq!(c.available_funds().to_string(), "-2.5000");
    assert_eq!(c.held_funds().to_string(), "2.5000");
    claim(&mut c, 1, 2, ClaimType::Resolve);
    assert_eq!(c.calculate_funds(), Ok(()));
    assert_eq!(c.available_funds().to_string(), "2.5000");
    assert_eq!(c.held_funds().to_string(), "0.0000");
}

#[test]
fn orphan_resolve_and_chargeback_do_nothing() {
    let mut c = Client::new();
    deposit(&mut c, 1, 0, "4.0");
    claim(&mut c, 1, 1, ClaimType::Resolve);
    claim(&mut c, 1, 2, ClaimType::Chargeback);
    assert_eq!(c.calculate_funds(), Ok(()));
    assert_eq!(c.available_funds().to_string(), "4.0000");
    assert!(!c.is_locked());
}

#[test]
fn late_earlier_deposit_covers_withdrawal() {
    let mut c = Client::new();
    deposit(&mut c, 2, 5, "-3.0");
    assert_eq!(c.calculate_funds(), Ok(()));
    assert_eq!(c.available_funds().to_string(), "0.0000");
    deposit(&mut c, 1, 1, "10.0");
    assert_eq!(c.calculate_funds(), Ok(()));
    assert_eq!(c.available_funds().to_string(), "7.0000");
}

#[test]
fn lock_at_earliest_chargeback() {
    let mut c = Client::new();
    deposit(&mut c, 1, 0, "1.0");
    deposit(&mut c, 2, 1, "2.0");
    deposit(&mut c, 3, 4, "4.0");
    claim(&mut c, 2, 5, ClaimType::Dispute);
    claim(&mut c, 2, 6, ClaimType::Chargeback);
    claim(&mut c, 1, 2, ClaimType::Dispute);
    claim(&mut c, 1, 3, ClaimType::Chargeback);
    assert_eq!(c.calculate_funds(), Ok(()));
    assert!(c.is_locked());
    // locked at 3: only what comes no later counts, and both are reversed
    assert_eq!(c.available_funds().to_string(), "0.0000");
    assert_eq!(c.held_funds().to_string(), "0.0000");
}

#[test]
fn evaluate_twice_is_the_same() {
    let mut c = Client::new();
    deposit(&mut c, 1, 0, "10.0");
    deposit(&mut c, 2, 1, "-4.0");
    claim(&mut c, 2, 2, ClaimType::Dispute);
    claim(&mut c, 7, 3, ClaimType::Dispute);
    assert_eq!(c.calculate_funds(), Ok(()));
    let a = (c.available_funds(), c.held_funds(), c.is_locked());
    assert_eq!(c.calculate_funds(), Ok(()));
    assert_eq!((c.available_funds(), c.held_funds(), c.is_locked()), a);
    assert_eq!(a.0.to_string(), "10.0000");
    assert_eq!(a.1.to_string(), "4.0000");
}

#[test]
fn evaluate_overflow() {
    let mut c = Client::new();
    deposit(&mut c, 1, 0, "17014118346046923173168730371588410.5727");
    deposit(&mut c, 2, 1, "0.0001");
    assert_eq!(c.calculate_funds(), Err(LedgerError::Overflow));
    assert_eq!(c.available_funds().to_string(), "0.0000");
}

#[test]
fn new_client_is_empty() {
    let mut c = Client::default();
    assert_eq!(c.calculate_funds(), Ok(()));
    assert_eq!(c.total_funds().to_string(), "0.0000");
    assert!(!c.is_locked());
}

#[test]
fn parse_and_display() {
    assert_eq!(fx("3.5").to_string(), "3.5000");
    assert_eq!(fx("0.0001").to_string(), "0.0001");
    assert_eq!(fx("-5.6").to_string(), "-5.6000");
    assert_eq!(fx("12.34").to_string(), "12.3400");
    assert_eq!(fx("0.05").to_string(), "0.0500");
    assert_eq!(fx("-0.5").to_string(), "-0.5000");
    assert_eq!(fx("100.001").to_string(), "100.0010");
    assert_eq!(fx("-0.0").to_string(), "0.0000");
    assert_eq!(fx("007.5").to_string(), "7.5000");
}

#[test]
fn parse_extremes() {
    assert_eq!(
        fx("17014118346046923173168730371588410.5727").to_string(),
        "17014118346046923173168730371588410.5727"
    );
    assert_eq!(
        fx("-17014118346046923173168730371588410.5728").to_string(),
        "-17014118346046923173168730371588410.5728"
    );
    assert_eq!(
        Fixed::from_str("17014118346046923173168730371588410.5728"),
        Err(LedgerError::ParseError)
    );
    assert_eq!(
        Fixed::from_str("-17014118346046923173168730371588410.5729"),
        Err(LedgerError::ParseError)
    );
    assert_eq!(
        Fixed::from_str("999999999999999999999999999999999999999999.0"),
        Err(LedgerError::ParseError)
    );
}

#[test]
fn parse_errors() {
    for s in ["5", "1.2.3", "1.23456", "a.5", "1.", ".5", "", "-", "1.x", "+1.0", "1 .0", "-.5"] {
        assert_eq!(Fixed::from_str(s), Err(LedgerError::ParseError), "{}", s);
    }
}

#[test]
fn arithmetic() {
    let a = fx("1.5");
    let b = fx("-2.25");
    let c = a.checked_add(&b).unwrap();
    assert_eq!(c.to_string(), "-0.7500");
    assert_eq!(c.checked_sub(&b), Some(a));
    assert_eq!(a.sub(b).to_string(), "3.7500");
    assert_eq!(a.add(b), c);
    assert_eq!(b.neg().to_string(), "2.2500");
    assert_eq!(b.abs().to_string(), "2.2500");
    assert_eq!(a.abs().to_string(), "1.5000");
    assert!(b.is_negative() && !b.is_positive());
    assert!(a.is_positive() && !a.is_negative());
    assert!(Fixed::zero().is_zero() && !Fixed::zero().is_positive());
    let mut z = a;
    z.set_zero();
    assert!(z.is_zero());
}

#[test]
fn checked_overflow() {
    let max = fx("17014118346046923173168730371588410.5727");
    let min = fx("-17014118346046923173168730371588410.5728");
    let tiny = fx("0.0001");
    assert_eq!(max.checked_add(&tiny), None);
    assert_eq!(min.checked_sub(&tiny), None);
    assert_eq!(max.checked_sub(&tiny).unwrap().checked_add(&tiny), Some(max));
}

#[test]
fn merge_keeps_order() {
    let mut a = vec![tx(1, 0), tx(3, 2), tx(4, 2), tx(9, 7)];
    let b = vec![tx(2, 1), tx(5, 2), tx(6, 9)];
    merge_in_place(&mut a, &b);
    assert_eq!(
        keys(&a),
        vec![(0, 1), (1, 2), (2, 3), (2, 4), (2, 5), (7, 9), (9, 6)]
    );
    let mut e: Vec<Transaction> = vec![];
    merge_in_place(&mut e, &b);
    assert_eq!(keys(&e), keys(&b));
    let mut f = vec![tx(1, 0)];
    merge_in_place(&mut f, &[]);
    assert_eq!(keys(&f), vec![(0, 1)]);
}

#[test]
fn transaction_order() {
    let a = tx(2, 1);
    let b = tx(1, 2);
    let c = tx(3, 1);
    assert!(a < b);
    assert!(a < c);
    assert!(a == Transaction::new(2, 1, fx("9.0")));
    assert!(!a.disputed);
}

#[test]
fn unprocessed_transaction_fields() {
    let u = UnprocessedTransaction::new(TransactionType::Claim(ClaimType::Resolve), 7, 8, 9);
    assert_eq!(u.metadata.client_id, 7);
    assert_eq!(u.metadata.transaction_id, 8);
    assert_eq!(u.metadata.chronology, 9);
    assert!(matches!(u.transaction_type, TransactionType::Claim(ClaimType::Resolve)));
}

#[test]
fn disputes_out_of_order() {
    let mut c = Client::new();
    deposit(&mut c, 1, 0, "1.0");
    deposit(&mut c, 2, 1, "2.0");
    claim(&mut c, 2, 4, ClaimType::Dispute);
    claim(&mut c, 1, 3, ClaimType::Dispute);
    claim(&mut c, 2, 5, ClaimType::Resolve);
    assert_eq!(c.calculate_funds(), Ok(()));
    assert_eq!(c.available_funds().to_string(), "1.0000");
    assert_eq!(c.held_funds().to_string(), "1.0000");
    assert!(!c.is_locked());
}
