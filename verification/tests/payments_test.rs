use std::collections::HashMap;

use payments::{Address, Error, Payments, Payout, Stats};

/// Token balances, as the token contract would hold them.
struct Ledger {
    balances: HashMap<Vec<u8>, i128>,
}

impl Ledger {
    fn new() -> Ledger {
        Ledger { balances: HashMap::new() }
    }

    fn mint(&mut self, to: &Address, amount: i128) {
        *self.balances.entry(to.as_bytes().to_vec()).or_insert(0) += amount;
    }

    fn balance(&self, of: &Address) -> i128 {
        *self.balances.get(of.as_bytes()).unwrap_or(&0)
    }

    fn transfer(&mut self, from: &Address, to: &Address, amount: i128) {
        assert!(self.balance(from) >= amount, "insufficient balance");
        self.mint(from, -amount);
        self.mint(to, amount);
    }

    fn pay_out(&mut self, escrow: &Address, payouts: &[Payout]) {
        for p in payouts {
            self.transfer(escrow, &p.to, p.amount);
        }
    }
}

fn addr(name: &str) -> Address {
    Address::from_bytes(name.as_bytes().to_vec())
}

/// A book, its token ledger, the escrow's address, a payer and two
/// recipients.
struct Setup {
    book: Payments,
    ledger: Ledger,
    escrow: Address,
    payer: Address,
    r1: Address,
    r2: Address,
    token: Address,
    now: u64,
}

fn setup() -> Setup {
    Setup {
        book: Payments::new(),
        ledger: Ledger::new(),
        escrow: addr("CESCROW"),
        payer: addr("GPAYER"),
        r1: addr("GRECIPIENT1"),
        r2: addr("GRECIPIENT2"),
        token: addr("CTOKEN"),
        now: 0,
    }
}

impl Setup {
    /// Creates a payment as the contract does: the book records it, and the
    /// amount moves from the payer into escrow.
    fn create(&mut self, recipients: Vec<Address>, shares: Vec<u32>, amount: i128, deadline: u64) -> Result<u64, Error> {
        assert!(!self.book.create_would_abort(&recipients, &shares, amount));
        let id = self.book.create(
            self.payer.clone(),
            self.token.clone(),
            recipients,
            shares,
            amount,
            deadline,
            self.now,
        )?;
        let (payer, escrow) = (self.payer.clone(), self.escrow.clone());
        self.ledger.transfer(&payer, &escrow, amount);
        Ok(id)
    }

    fn release(&mut self, id: u64) -> Result<(), Error> {
        assert!(!self.book.release_would_abort(id));
        let payouts = self.book.release(id, self.now)?;
        let escrow = self.escrow.clone();
        self.ledger.pay_out(&escrow, &payouts);
        Ok(())
    }

    fn refund(&mut self, id: u64) -> Result<(), Error> {
        let (payout, _) = self.book.refund(id, self.now)?;
        let escrow = self.escrow.clone();
        self.ledger.pay_out(&escrow, &[payout]);
        Ok(())
    }

    fn cancel(&mut self, id: u64) -> Result<(), Error> {
        let (payout, needs_payer_auth) = self.book.cancel(id, self.now)?;
        assert!(needs_payer_auth);
        let escrow = self.escrow.clone();
        self.ledger.pay_out(&escrow, &[payout]);
        Ok(())
    }
}

/// The contract aborts with the error's message.
fn or_abort<T>(r: Result<T, Error>) -> T {
    match r {
        Ok(v) => v,
        Err(e) => panic!("{}", e.message()),
    }
}

#[test]
fn creates_and_releases_payment() {
    let mut s = setup();
    let payer = s.payer.clone();
    s.ledger.mint(&payer, 1000);
    assert_eq!(s.ledger.balance(&s.payer), 1000);

    let recipients = vec![s.r1.clone(), s.r2.clone()];
    let shares = vec![1u32, 3u32];

    let id = s.create(recipients, shares, 1000, 0).unwrap();
    assert!(!s.book.get(id).unwrap().released);

    // Funds pulled into escrow.
    assert_eq!(s.ledger.balance(&s.escrow), 1000);

    or_abort(s.release(id));
    let p = s.book.get(id).unwrap();
    assert!(p.released);
    // 1:3 split of 1000 -> 250 / 750.
    assert_eq!(s.ledger.balance(&s.r1), 250);
    assert_eq!(s.ledger.balance(&s.r2), 750);
}

#[test]
fn refund_returns_funds_to_payer() {
    let mut s = setup();
    let payer = s.payer.clone();
    s.ledger.mint(&payer, 500);
    let recipients = vec![s.r1.clone(), s.r2.clone()];
    let shares = vec![1u32, 1u32];

    let id = s.create(recipients, shares, 500, 0).unwrap();
    or_abort(s.refund(id));

    let p = s.book.get(id).unwrap();
    assert!(p.refunded);
    assert_eq!(s.ledger.balance(&s.payer), 500);
    assert_eq!(s.ledger.balance(&s.escrow), 0);
}

#[test]
#[should_panic(expected = "payment already settled")]
fn cannot_release_twice() {
    let mut s = setup();
    let payer = s.payer.clone();
    s.ledger.mint(&payer, 100);
    let recipients = vec![s.r1.clone(), s.r2.clone()];
    let shares = vec![1u32, 1u32];
    let id = s.create(recipients, shares, 100, 0).unwrap();
    or_abort(s.release(id));
    or_abort(s.release(id));
}

#[test]
fn list_returns_payer_payments() {
    let mut s = setup();
    let payer = s.payer.clone();
    s.ledger.mint(&payer, 200);

    let recipients = vec![s.r1.clone(), s.r2.clone()];
    let shares = vec![1u32, 1u32];
    let a = s.create(recipients.clone(), shares.clone(), 100, 0).unwrap();
    let b = s.create(recipients, shares, 100, 0).unwrap();

    let ids = s.book.list(&s.payer);
    assert_eq!(ids.len(), 2);
    assert_eq!(ids[0], a);
    assert_eq!(ids[1], b);
}

#[test]
fn rejects_zero_share() {
    let mut s = setup();
    let payer = s.payer.clone();
    s.ledger.mint(&payer, 100);
    let recipients = vec![s.r1.clone(), s.r2.clone()];
    let shares = vec![0u32, 1u32];
    let res = s.create(recipients, shares, 100, 0);
    assert!(res.is_err());
}

#[test]
fn rejects_duplicate_recipients() {
    let mut s = setup();
    let payer = s.payer.clone();
    s.ledger.mint(&payer, 100);
    let recipients = vec![s.r1.clone(), s.r1.clone()];
    let shares = vec![1u32, 1u32];
    let res = s.create(recipients, shares, 100, 0);
    assert!(res.is_err());
}

#[test]
fn rejects_negative_amount() {
    let mut s = setup();
    let payer = s.payer.clone();
    s.ledger.mint(&payer, 100);
    let recipients = vec![s.r1.clone(), s.r2.clone()];
    let shares = vec![1u32, 1u32];
    let res = s.create(recipients, shares, -5, 0);
    assert!(res.is_err());
}

#[test]
fn single_recipient_gets_full_amount() {
    let mut s = setup();
    let payer = s.payer.clone();
    s.ledger.mint(&payer, 777);
    let recipients = vec![s.r1.clone()];
    let shares = vec![1u32];
    let id = s.create(recipients, shares, 777, 0).unwrap();
    or_abort(s.release(id));
    assert_eq!(s.ledger.balance(&s.r1), 777);
    assert_eq!(s.ledger.balance(&s.escrow), 0);
}

#[test]
fn get_unknown_payment_errors() {
    let s = setup();
    let res = s.book.get(999);
    assert!(res.is_err());
}

#[test]
fn refund_after_release_is_blocked() {
    let mut s = setup();
    let payer = s.payer.clone();
    s.ledger.mint(&payer, 100);
    let recipients = vec![s.r1.clone(), s.r2.clone()];
    let shares = vec![1u32, 1u32];
    let id = s.create(recipients, shares, 100, 0).unwrap();
    or_abort(s.release(id));
    let res = s.refund(id);
    assert!(res.is_err());
}

#[test]
fn counter_is_monotonic() {
    let mut s = setup();
    let payer = s.payer.clone();
    s.ledger.mint(&payer, 300);
    let recipients = vec![s.r1.clone(), s.r2.clone()];
    let shares = vec![1u32, 1u32];
    let a = s.create(recipients.clone(), shares.clone(), 100, 0).unwrap();
    let b = s.create(recipients.clone(), shares.clone(), 100, 0).unwrap();
    let c = s.create(recipients, shares, 100, 0).unwrap();
    assert!(a < b && b < c);
    assert_eq!(s.book.payment_count(), 3);
}

#[test]
fn stats_reports_count_and_volume() {
    let mut s = setup();
    let payer = s.payer.clone();
    s.ledger.mint(&payer, 300);
    let recipients = vec![s.r1.clone(), s.r2.clone()];
    let shares = vec![1u32, 1u32];
    s.create(recipients.clone(), shares.clone(), 100, 0).unwrap();
    s.create(recipients, shares, 200, 0).unwrap();
    assert!(!s.book.volume_would_overflow());
    let st = s.book.stats();
    assert_eq!(st.count, 2);
    assert_eq!(st.volume, 300);
}

#[test]
fn emits_created_event() {
    let mut s = setup();
    let payer = s.payer.clone();
    s.ledger.mint(&payer, 100);
    let recipients = vec![s.r1.clone(), s.r2.clone()];
    let shares = vec![1u32, 1u32];
    let id = s.create(recipients, shares, 100, 0).unwrap();
    let p = s.book.get(id).unwrap();
    assert!(!p.released && !p.refunded);
}

#[test]
fn created_at_is_recorded() {
    let mut s = setup();
    let payer = s.payer.clone();
    s.ledger.mint(&payer, 100);
    s.now = 1_700_000_000;
    let recipients = vec![s.r1.clone(), s.r2.clone()];
    let shares = vec![1u32, 1u32];
    let id = s.create(recipients, shares, 100, 0).unwrap();
    assert_eq!(s.book.get(id).unwrap().created_at, 1_700_000_000);
}

#[test]
fn cancel_refunds_payer() {
    let mut s = setup();
    let payer = s.payer.clone();
    s.ledger.mint(&payer, 100);
    let recipients = vec![s.r1.clone(), s.r2.clone()];
    let shares = vec![1u32, 1u32];
    let id = s.create(recipients, shares, 100, 0).unwrap();
    or_abort(s.cancel(id));
    let p = s.book.get(id).unwrap();
    assert!(p.refunded);
    assert_eq!(s.ledger.balance(&s.payer), 100);
}

#[test]
#[should_panic(expected = "payment already settled")]
fn cannot_cancel_after_release() {
    let mut s = setup();
    let payer = s.payer.clone();
    s.ledger.mint(&payer, 100);
    let recipients = vec![s.r1.clone(), s.r2.clone()];
    let shares = vec![1u32, 1u32];
    let id = s.create(recipients, shares, 100, 0).unwrap();
    or_abort(s.release(id));
    or_abort(s.cancel(id));
}

#[test]
fn refund_after_deadline_allowed_by_anyone() {
    let mut s = setup();
    let payer = s.payer.clone();
    s.ledger.mint(&payer, 100);
    let recipients = vec![s.r1.clone(), s.r2.clone()];
    let shares = vec![1u32, 1u32];
    let id = s.create(recipients, shares, 100, 1_000).unwrap();
    // Advance the ledger past the deadline; refund no longer requires payer auth.
    s.now = 1_000;
    assert!(!s.book.get(id).unwrap().refund_needs_payer_auth(s.now));
    or_abort(s.refund(id));
    let p = s.book.get(id).unwrap();
    assert!(p.refunded);
    assert_eq!(s.ledger.balance(&s.payer), 100);
}

#[test]
fn deadline_is_stored() {
    let mut s = setup();
    let payer = s.payer.clone();
    s.ledger.mint(&payer, 100);
    let recipients = vec![s.r1.clone(), s.r2.clone()];
    let shares = vec![1u32, 1u32];
    let id = s.create(recipients, shares, 100, 1_234).unwrap();
    assert_eq!(s.book.get(id).unwrap().deadline, 1_234);
}

#[test]
fn stats_struct_compares_by_fields() {
    let a = Stats { count: 2, volume: 300 };
    assert_eq!(a, Stats { count: 2, volume: 300 });
    assert_ne!(a, Stats { count: 2, volume: 301 });
}
