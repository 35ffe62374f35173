use payments::{
    split_amount, validate_inputs, validation_would_overflow, Address, Error, Payment, Payments,
};

fn addr(name: &str) -> Address {
    Address::from_bytes(name.as_bytes().to_vec())
}

fn many(n: usize) -> Vec<Address> {
    (0..n).map(|i| addr(&format!("G{}", i))).collect()
}

fn book_with(amounts: &[i128]) -> Payments {
    let mut book = Payments::new();
    for (i, a) in amounts.iter().enumerate() {
        let id = book
            .create(addr("GPAYER"), addr("CTOKEN"), vec![addr("GA"), addr("GB")], vec![1, 1], *a, 0, i as u64)
            .unwrap();
        assert_eq!(id, i as u64 + 1);
    }
    book
}

#[test]
fn each_validation_error_has_an_input() {
    assert_eq!(validate_inputs(&vec![], &vec![], 10), Err(Error::NoRecipients));
    assert_eq!(validate_inputs(&many(2), &vec![1], 10), Err(Error::RecipientsSharesMismatch));
    assert_eq!(validate_inputs(&many(51), &vec![1; 51], 10), Err(Error::TooManyRecipients));
    assert_eq!(validate_inputs(&many(50), &vec![1; 50], 10), Ok(()));
    assert_eq!(validate_inputs(&many(2), &vec![1, 1], 0), Err(Error::NonPositiveAmount));
    assert_eq!(validate_inputs(&many(2), &vec![1, 0], 10), Err(Error::ZeroShare));
    assert_eq!(validate_inputs(&many(2), &vec![0, 0], 100), Err(Error::ZeroTotalShares));
    let dup = vec![addr("GA"), addr("GB"), addr("GA")];
    assert_eq!(validate_inputs(&dup, &vec![1, 1, 1], 10), Err(Error::DuplicateRecipient));
}

#[test]
fn checks_come_in_order() {
    // An empty list is refused before the amount is looked at.
    assert_eq!(validate_inputs(&vec![], &vec![], -1), Err(Error::NoRecipients));
    // Too many recipients is refused before a bad amount.
    assert_eq!(validate_inputs(&many(51), &vec![0; 51], -1), Err(Error::TooManyRecipients));
    // The first refused entry decides: a duplicate at the first entry comes
    // before a zero share at the second.
    let dup_first = vec![addr("GA"), addr("GB"), addr("GA")];
    assert_eq!(validate_inputs(&dup_first, &vec![1, 0, 1], 10), Err(Error::DuplicateRecipient));
    // All shares zero is refused as a zero total before any entry is examined,
    // duplicates included; a single zero share among others is a zero share.
    assert_eq!(validate_inputs(&dup_first, &vec![0, 0, 0], 10), Err(Error::ZeroTotalShares));
    assert_eq!(validate_inputs(&many(2), &vec![0, 1], 10), Err(Error::ZeroShare));
    // A zero total comes after a bad amount.
    assert_eq!(validate_inputs(&many(2), &vec![0, 0], 0), Err(Error::NonPositiveAmount));
    // At the same entry a zero share comes first.
    assert_eq!(validate_inputs(&dup_first, &vec![0, 1, 1], 10), Err(Error::ZeroShare));
}

#[test]
fn overflowing_share_totals_are_detected() {
    assert!(validation_would_overflow(&many(2), &vec![u32::MAX, 1], 10));
    assert!(!validation_would_overflow(&many(2), &vec![u32::MAX - 1, 1], 10));
    // A zero share ends validation before the total overflows.
    assert!(!validation_would_overflow(&many(3), &vec![u32::MAX, 0, 1], 10));
    // A refused amount ends it before any share is added.
    assert!(!validation_would_overflow(&many(2), &vec![u32::MAX, 1], 0));
    let mut book = Payments::new();
    assert!(book.create_would_abort(&many(2), &vec![u32::MAX, 1], 10));
    assert!(!book.create_would_abort(&many(2), &vec![3, 1], 10));
    assert_eq!(
        book.create(addr("GP"), addr("CT"), many(2), vec![u32::MAX - 1, 1], 10, 0, 0),
        Ok(1)
    );
}

#[test]
fn split_gives_floor_portions_and_remainder_to_last() {
    assert_eq!(split_amount(1000, &vec![1, 3]), vec![250, 750]);
    assert_eq!(split_amount(100, &vec![1, 1, 1]), vec![33, 33, 34]);
    assert_eq!(split_amount(10, &vec![3, 3, 3]), vec![3, 3, 4]);
    assert_eq!(split_amount(777, &vec![1]), vec![777]);
    assert_eq!(split_amount(5, &vec![1, 1, 1, 1, 1, 1, 1]), vec![0, 0, 0, 0, 0, 0, 5]);
}

#[test]
fn release_pays_out_exactly_the_amount() {
    let mut book = Payments::new();
    let recipients = vec![addr("GA"), addr("GB"), addr("GC"), addr("GD")];
    let id = book.create(addr("GP"), addr("CT"), recipients, vec![1, 2, 3, 4], 1001, 0, 0).unwrap();
    let payouts = book.release(id, 9).unwrap();
    let amounts: Vec<i128> = payouts.iter().map(|p| p.amount).collect();
    assert_eq!(amounts, vec![100, 200, 300, 401]);
    assert_eq!(amounts.iter().sum::<i128>(), 1001);
    assert!(payouts[3].to.equals(&addr("GD")));
    let p = book.get(id).unwrap();
    assert!(p.released && !p.refunded);
    assert_eq!(p.updated_at, 9);
}

#[test]
fn release_overflow_is_detected() {
    let mut book = Payments::new();
    let id = book
        .create(addr("GP"), addr("CT"), many(2), vec![1, 3], i128::MAX / 2, 0, 0)
        .unwrap();
    assert!(book.release_would_abort(id));
    assert!(!book.release_would_abort(99));
    let id2 = book.create(addr("GP"), addr("CT"), many(2), vec![1, 1], i128::MAX, 0, 0).unwrap();
    assert!(!book.release_would_abort(id2));
    assert_eq!(book.release(id2, 1).unwrap()[1].amount, i128::MAX - i128::MAX / 2);
}

#[test]
fn refund_auth_follows_the_deadline() {
    let mut book = Payments::new();
    let none = book.create(addr("GP"), addr("CT"), many(1), vec![1], 5, 0, 0).unwrap();
    let later = book.create(addr("GP"), addr("CT"), many(1), vec![1], 5, 1_000, 0).unwrap();
    let p = book.get(none).unwrap();
    assert_eq!(p.deadline, 0);
    assert!(p.refund_needs_payer_auth(u64::MAX));
    let q = book.get(later).unwrap();
    assert!(q.refund_needs_payer_auth(999));
    assert!(!q.refund_needs_payer_auth(1_000));
    assert!(!q.refund_needs_payer_auth(5_000));
}

#[test]
fn unknown_and_settled_payments_are_refused() {
    let mut book = book_with(&[10]);
    assert_eq!(book.release(0, 1).err(), Some(Error::UnknownPayment));
    assert_eq!(book.refund(2, 1).err(), Some(Error::UnknownPayment));
    assert_eq!(book.cancel(7, 1).err(), Some(Error::UnknownPayment));
    let (payout, needs_payer_auth) = book.cancel(1, 3).unwrap();
    assert!(needs_payer_auth);
    assert_eq!(payout.amount, 10);
    assert!(payout.to.equals(&addr("GPAYER")));
    assert_eq!(book.refund(1, 4).err(), Some(Error::AlreadySettled));
    assert_eq!(book.release(1, 4).err(), Some(Error::AlreadySettled));
    assert_eq!(book.cancel(1, 4).err(), Some(Error::AlreadySettled));
    let p = book.get(1).unwrap();
    assert!(p.refunded && !p.released);
    assert_eq!(p.updated_at, 3);
}

#[test]
fn settlement_keeps_count_volume_and_lists() {
    let mut book = book_with(&[10, 20, 30]);
    let before = book.stats();
    let list_before = book.list(&addr("GPAYER"));
    book.release(2, 5).unwrap();
    book.refund(3, 6).unwrap();
    assert_eq!(book.stats(), before);
    assert_eq!(book.list(&addr("GPAYER")), list_before);
    assert_eq!(book.stats().volume, 60);
    assert_eq!(book.payment_count(), 3);
}

#[test]
fn list_holds_only_the_payers_payments_in_order() {
    let mut book = Payments::new();
    let a = book.create(addr("GX"), addr("CT"), many(1), vec![1], 1, 0, 0).unwrap();
    let _b = book.create(addr("GY"), addr("CT"), many(1), vec![1], 1, 0, 0).unwrap();
    let c = book.create(addr("GX"), addr("CT"), many(1), vec![1], 1, 0, 0).unwrap();
    assert_eq!(book.list(&addr("GX")), vec![a, c]);
    assert_eq!(book.list(&addr("GY")), vec![2]);
    assert!(book.list(&addr("GZ")).is_empty());
}

#[test]
fn refused_creation_leaves_the_book_unchanged() {
    let mut book = book_with(&[10]);
    assert_eq!(
        book.create(addr("GP"), addr("CT"), many(2), vec![1, 1], 0, 0, 0),
        Err(Error::NonPositiveAmount)
    );
    assert_eq!(book.payment_count(), 1);
    assert_eq!(book.create(addr("GP"), addr("CT"), many(1), vec![1], 1, 0, 0), Ok(2));
}

#[test]
fn volume_overflow_is_detected() {
    let book = book_with(&[i128::MAX, 1]);
    assert!(book.volume_would_overflow());
    let book2 = book_with(&[i128::MAX - 1, 1]);
    assert!(!book2.volume_would_overflow());
    assert_eq!(book2.stats().volume, i128::MAX);
}

#[test]
fn messages_are_distinct_texts() {
    let all = [
        Error::NoRecipients,
        Error::RecipientsSharesMismatch,
        Error::NonPositiveAmount,
        Error::ZeroTotalShares,
        Error::ZeroShare,
        Error::DuplicateRecipient,
        Error::TooManyRecipients,
        Error::UnknownPayment,
        Error::AlreadySettled,
    ];
    assert_eq!(Error::AlreadySettled.message(), "payment already settled");
    assert_eq!(Error::NoRecipients.message(), "no recipients");
    assert_eq!(Error::ZeroShare.message(), "share must be greater than zero");
    for (i, a) in all.iter().enumerate() {
        for (j, b) in all.iter().enumerate() {
            assert_eq!(i == j, a.message() == b.message());
        }
    }
}

#[test]
fn restore_accepts_only_valid_records() {
    let book = book_with(&[10, 20]);
    let records: Vec<Payment> = book.records().clone();
    let back = Payments::restore(records.clone()).unwrap();
    assert_eq!(back.payment_count(), 2);
    assert_eq!(back.stats(), book.stats());
    let mut bad = records.clone();
    bad[1].released = true;
    bad[1].refunded = true;
    assert!(Payments::restore(bad).is_none());
    let mut bad_amount = records;
    bad_amount[0].amount = 0;
    assert!(Payments::restore(bad_amount).is_none());
}

#[test]
fn addresses_compare_by_bytes() {
    assert!(addr("GA").equals(&addr("GA")));
    assert!(!addr("GA").equals(&addr("GB")));
    assert!(!addr("GA").equals(&addr("GAA")));
    assert_eq!(addr("GABC").clone().as_bytes(), b"GABC");
}

#[test]
fn escrow_holds_exactly_the_unsettled_amounts() {
    let mut book = Payments::new();
    let a = book.create(addr("GP"), addr("CT"), many(3), vec![1, 1, 1], 100, 0, 0).unwrap();
    let b = book.create(addr("GP"), addr("CT"), many(2), vec![2, 5], 70, 0, 0).unwrap();
    let mut escrow: i128 = 100 + 70;
    let out: i128 = book.release(a, 1).unwrap().iter().map(|p| p.amount).sum();
    assert_eq!(out, 100);
    escrow -= out;
    let (back, _) = book.refund(b, 2).unwrap();
    assert_eq!(back.amount, 70);
    escrow -= back.amount;
    assert_eq!(escrow, 0);
    assert_eq!(book.stats().volume, 170);
}

#[test]
fn refund_reports_who_must_authorize() {
    let mut book = Payments::new();
    let none = book.create(addr("GP"), addr("CT"), many(1), vec![1], 5, 0, 0).unwrap();
    let early = book.create(addr("GP"), addr("CT"), many(1), vec![1], 5, 1_000, 0).unwrap();
    let late = book.create(addr("GP"), addr("CT"), many(1), vec![1], 5, 1_000, 0).unwrap();
    let after = book.create(addr("GP"), addr("CT"), many(1), vec![1], 5, 1_000, 0).unwrap();
    assert!(book.refund(none, u64::MAX).unwrap().1);
    assert!(book.refund(early, 999).unwrap().1);
    assert!(!book.refund(late, 1_000).unwrap().1);
    // Cancellation needs the payer even after the deadline.
    assert!(book.cancel(after, 5_000).unwrap().1);
}
