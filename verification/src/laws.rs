use vstd::prelude::*;
use crate::error::Error;
use crate::payment::{PaymentView, PayoutView};
use crate::payments::{PaymentsView, amounts_sum, ids_of};
use crate::split::{lemma_split_conserves, split, sum_ints};
use crate::validate::{
    has_later_duplicate, lemma_accepted_entries, lemma_accepted_examines_all,
    lemma_first_fault_at, lemma_first_fault_is_faulty, lemma_no_fault_means_none, lemma_positive_shares_sum, validation,
};

verus! {

/// The sum of the amounts of a sequence of transfers.
pub open spec fn payout_total(ps: Seq<PayoutView>) -> int {
    sum_ints(ps.map_values(|q: PayoutView| q.amount))
}

/// A release hands out exactly the payment's amount: one transfer per
/// recipient, in order, each of a part between zero and the amount, the
/// parts adding up to the whole amount, the last recipient absorbing the
/// rounding remainder.
pub proof fn lemma_release_distributes_exactly(s: PaymentsView, id: u64, now: u64)
    requires
        s.valid(),
        s.release(id, now) is Ok,
    ensures
        ({
            let p = s.payments[id - 1];
            let payouts = s.release(id, now)->Ok_0.1;
            &&& payouts.len() == p.recipients.len()
            &&& payout_total(payouts) == p.amount
            &&& forall|i: int|
                0 <= i < payouts.len() ==> #[trigger] payouts[i].to == p.recipients[i] && 0
                    <= payouts[i].amount <= p.amount
            &&& forall|i: int|
                0 <= i < payouts.len() - 1 ==> #[trigger] payouts[i].amount == p.amount
                    * p.shares[i] / crate::split::sum_shares(p.shares)
        }),
{
    let p = s.payments[id - 1];
    assert(p.valid());
    lemma_accepted_entries(p.recipients, p.shares, p.amount as int);
    lemma_accepted_examines_all(p.recipients, p.shares, p.amount as int);
    lemma_split_conserves(p.amount as int, p.shares);
    let payouts = p.payouts();
    assert(payouts.map_values(|q: PayoutView| q.amount) =~= split(p.amount as int, p.shares));
}

/// A refund or a cancellation sends the payment's whole amount back to its
/// payer.
pub proof fn lemma_return_sends_whole_amount_to_payer(s: PaymentsView, id: u64, now: u64)
    requires
        s.return_to_payer(id, now) is Ok,
    ensures
        s.refund(id, now) == s.return_to_payer(id, now),
        s.cancel(id, now) == s.return_to_payer(id, now),
        s.return_to_payer(id, now)->Ok_0.1.to == s.payments[id - 1].payer,
        s.return_to_payer(id, now)->Ok_0.1.amount == s.payments[id - 1].amount,
{
}

/// Settlement is final: once a payment has been released, refunded or
/// cancelled, every later release, refund or cancellation of it is refused
/// with `AlreadySettled`, whenever it is asked for.
pub proof fn lemma_settlement_is_final(s: PaymentsView, id: u64, now: u64, later: u64)
    ensures
        s.release(id, now) matches Ok((t, _)) ==> {
            &&& t.release(id, later) == Err::<(PaymentsView, Seq<PayoutView>), Error>(
                Error::AlreadySettled,
            )
            &&& t.refund(id, later) == Err::<(PaymentsView, PayoutView), Error>(
                Error::AlreadySettled,
            )
            &&& t.cancel(id, later) == Err::<(PaymentsView, PayoutView), Error>(
                Error::AlreadySettled,
            )
        },
        s.return_to_payer(id, now) matches Ok((t, _)) ==> {
            &&& t.release(id, later) == Err::<(PaymentsView, Seq<PayoutView>), Error>(
                Error::AlreadySettled,
            )
            &&& t.refund(id, later) == Err::<(PaymentsView, PayoutView), Error>(
                Error::AlreadySettled,
            )
            &&& t.cancel(id, later) == Err::<(PaymentsView, PayoutView), Error>(
                Error::AlreadySettled,
            )
        },
{
}

/// Creation gives the next id in sequence: the id is the new count, one more
/// than before, and reading that id gives back exactly the payment created,
/// unreleased and unrefunded; every earlier payment reads as before.
pub proof fn lemma_create_then_get(
    s: PaymentsView,
    payer: Seq<u8>,
    token: Seq<u8>,
    recipients: Seq<Seq<u8>>,
    shares: Seq<u32>,
    amount: i128,
    deadline: u64,
    now: u64,
    other: u64,
)
    requires
        s.count() < u64::MAX,
        s.create(payer, token, recipients, shares, amount, deadline, now) is Ok,
    ensures
        ({
            let (t, id) = s.create(payer, token, recipients, shares, amount, deadline, now)->Ok_0;
            &&& id == s.count() + 1
            &&& t.count() == s.count() + 1
            &&& t.get(id) == Ok::<PaymentView, Error>(
                PaymentsView::new_payment(payer, token, recipients, shares, amount, deadline, now),
            )
            &&& t.get(id) is Ok
            &&& t.payments[id - 1].payer == payer
            &&& t.payments[id - 1].token == token
            &&& t.payments[id - 1].recipients == recipients
            &&& t.payments[id - 1].shares == shares
            &&& t.payments[id - 1].amount == amount
            &&& t.payments[id - 1].updated_at == 0
            &&& !t.payments[id - 1].released
            &&& !t.payments[id - 1].refunded
            &&& t.payments[id - 1].created_at == now
            &&& t.payments[id - 1].deadline == deadline
            &&& (other != id ==> t.get(other) == s.get(other))
        }),
{
}

/// Ids only grow: two successive successful creations give increasing ids.
pub proof fn lemma_ids_increase(
    s: PaymentsView,
    payer: Seq<u8>,
    token: Seq<u8>,
    recipients: Seq<Seq<u8>>,
    shares: Seq<u32>,
    amount: i128,
    deadline: u64,
    now: u64,
    payer2: Seq<u8>,
    token2: Seq<u8>,
    recipients2: Seq<Seq<u8>>,
    shares2: Seq<u32>,
    amount2: i128,
    deadline2: u64,
    now2: u64,
)
    requires
        s.count() + 1 < u64::MAX,
        s.create(payer, token, recipients, shares, amount, deadline, now) is Ok,
        s.create(payer, token, recipients, shares, amount, deadline, now)->Ok_0.0.create(
            payer2,
            token2,
            recipients2,
            shares2,
            amount2,
            deadline2,
            now2,
        ) is Ok,
    ensures
        ({
            let (t, a) = s.create(payer, token, recipients, shares, amount, deadline, now)->Ok_0;
            let (u, b) = t.create(
                payer2,
                token2,
                recipients2,
                shares2,
                amount2,
                deadline2,
                now2,
            )->Ok_0;
            &&& a < b
            &&& u.count() == s.count() + 2
        }),
{
}

/// A refused creation says why as validation does, and an accepted one
/// records a valid payment: the book stays valid.
pub proof fn lemma_create_keeps_valid(
    s: PaymentsView,
    payer: Seq<u8>,
    token: Seq<u8>,
    recipients: Seq<Seq<u8>>,
    shares: Seq<u32>,
    amount: i128,
    deadline: u64,
    now: u64,
)
    requires
        s.valid(),
        !s.create_aborts(recipients, shares, amount),
    ensures
        match s.create(payer, token, recipients, shares, amount, deadline, now) {
            Ok((t, _)) => t.valid(),
            Err(e) => validation(recipients, shares, amount as int) == Err::<(), Error>(e),
        },
{
    if validation(recipients, shares, amount as int) is Ok {
        lemma_accepted_examines_all(recipients, shares, amount as int);
        assert(shares.take(shares.len() as int) =~= shares);
        let t = s.create(payer, token, recipients, shares, amount, deadline, now)->Ok_0.0;
        assert forall|i: int| 0 <= i < t.payments.len() implies #[trigger] t.payments[i].valid() by {
            if i < s.payments.len() {
                assert(s.payments[i].valid());
            }
        }
    }
}

/// The amount still held in escrow: the sum of the amounts of the payments
/// that are neither released nor refunded.
pub open spec fn escrowed(ps: Seq<PaymentView>) -> int
    decreases ps.len(),
{
    if ps.len() == 0 {
        0
    } else {
        escrowed(ps.drop_last()) + if ps.last().settled() {
            0
        } else {
            ps.last().amount as int
        }
    }
}

/// Replacing one payment changes the total amount by the difference of the
/// two amounts.
proof fn lemma_amounts_sum_update(ps: Seq<PaymentView>, i: int, v: PaymentView)
    requires
        0 <= i < ps.len(),
    ensures
        amounts_sum(ps.update(i, v)) == amounts_sum(ps) - ps[i].amount + v.amount,
    decreases ps.len(),
{
    if i < ps.len() - 1 {
        lemma_amounts_sum_update(ps.drop_last(), i, v);
        assert(ps.update(i, v).drop_last() =~= ps.drop_last().update(i, v));
    } else {
        assert(ps.update(i, v).drop_last() =~= ps.drop_last());
    }
}

/// Replacing one payment changes the escrowed amount by the difference of
/// what the two hold in escrow.
proof fn lemma_escrowed_update(ps: Seq<PaymentView>, i: int, v: PaymentView)
    requires
        0 <= i < ps.len(),
    ensures
        escrowed(ps.update(i, v)) == escrowed(ps) - (if ps[i].settled() {
            0
        } else {
            ps[i].amount as int
        }) + (if v.settled() {
            0
        } else {
            v.amount as int
        }),
    decreases ps.len(),
{
    if i < ps.len() - 1 {
        lemma_escrowed_update(ps.drop_last(), i, v);
        assert(ps.update(i, v).drop_last() =~= ps.drop_last().update(i, v));
    } else {
        assert(ps.update(i, v).drop_last() =~= ps.drop_last());
    }
}

/// Replacing one payment by one with the same payer leaves every payer's
/// list of ids as it was.
proof fn lemma_ids_of_update_same_payer(ps: Seq<PaymentView>, i: int, v: PaymentView, payer: Seq<u8>)
    requires
        0 <= i < ps.len(),
        v.payer == ps[i].payer,
    ensures
        ids_of(ps.update(i, v), payer) == ids_of(ps, payer),
    decreases ps.len(),
{
    if i < ps.len() - 1 {
        lemma_ids_of_update_same_payer(ps.drop_last(), i, v, payer);
        assert(ps.update(i, v).drop_last() =~= ps.drop_last().update(i, v));
    } else {
        assert(ps.update(i, v).drop_last() =~= ps.drop_last());
    }
}

/// Funds are conserved: creation puts the new payment's amount into escrow;
/// a release takes out of escrow exactly what it pays to the recipients, and
/// a refund or a cancellation exactly what it pays back to the payer.
pub proof fn lemma_escrow_balance(s: PaymentsView, id: u64, now: u64)
    requires
        s.valid(),
    ensures
        s.release(id, now) matches Ok((t, payouts)) ==> escrowed(t.payments) == escrowed(
            s.payments,
        ) - payout_total(payouts),
        s.return_to_payer(id, now) matches Ok((t, payout)) ==> escrowed(t.payments) == escrowed(
            s.payments,
        ) - payout.amount,
{
    if s.release(id, now) is Ok {
        let p = s.payments[id - 1];
        lemma_release_distributes_exactly(s, id, now);
        lemma_escrowed_update(s.payments, id - 1, PaymentView { released: true, updated_at: now, ..p });
    }
    if s.return_to_payer(id, now) is Ok {
        let p = s.payments[id - 1];
        lemma_escrowed_update(s.payments, id - 1, PaymentView { refunded: true, updated_at: now, ..p });
    }
}

/// Creation puts the new payment's whole amount into escrow.
pub proof fn lemma_create_escrows_amount(
    s: PaymentsView,
    payer: Seq<u8>,
    token: Seq<u8>,
    recipients: Seq<Seq<u8>>,
    shares: Seq<u32>,
    amount: i128,
    deadline: u64,
    now: u64,
)
    requires
        s.create(payer, token, recipients, shares, amount, deadline, now) is Ok,
    ensures
        escrowed(s.create(payer, token, recipients, shares, amount, deadline, now)->Ok_0.0.payments)
            == escrowed(s.payments) + amount,
        s.create(payer, token, recipients, shares, amount, deadline, now)->Ok_0.0.volume()
            == s.volume() + amount,
{
    let t = s.create(payer, token, recipients, shares, amount, deadline, now)->Ok_0.0;
    assert(t.payments.drop_last() =~= s.payments);
}

/// Settlement changes neither the number of payments nor the total volume,
/// which counts settled payments too; nor any payer's list of ids; nor,
/// besides the settled payment's flags and settlement time, anything of any
/// payment.
pub proof fn lemma_settlement_keeps_counts(s: PaymentsView, id: u64, now: u64, payer: Seq<u8>, other: u64)
    ensures
        s.release(id, now) matches Ok((t, _)) ==> {
            &&& t.count() == s.count()
            &&& t.volume() == s.volume()
            &&& t.list(payer) == s.list(payer)
            &&& (other != id ==> t.get(other) == s.get(other))
            &&& t.get(id) == Ok::<PaymentView, Error>(
                PaymentView { released: true, updated_at: now, ..s.payments[id - 1] },
            )
        },
        s.return_to_payer(id, now) matches Ok((t, _)) ==> {
            &&& t.count() == s.count()
            &&& t.volume() == s.volume()
            &&& t.list(payer) == s.list(payer)
            &&& (other != id ==> t.get(other) == s.get(other))
            &&& t.get(id) == Ok::<PaymentView, Error>(
                PaymentView { refunded: true, updated_at: now, ..s.payments[id - 1] },
            )
        },
{
    if s.release(id, now) is Ok {
        let p = s.payments[id - 1];
        let v = PaymentView { released: true, updated_at: now, ..p };
        lemma_amounts_sum_update(s.payments, id - 1, v);
        lemma_ids_of_update_same_payer(s.payments, id - 1, v, payer);
    }
    if s.return_to_payer(id, now) is Ok {
        let p = s.payments[id - 1];
        let v = PaymentView { refunded: true, updated_at: now, ..p };
        lemma_amounts_sum_update(s.payments, id - 1, v);
        lemma_ids_of_update_same_payer(s.payments, id - 1, v, payer);
    }
}

/// Creation appends the new id to its payer's list and leaves every other
/// payer's list as it was.
pub proof fn lemma_create_then_list(
    s: PaymentsView,
    payer: Seq<u8>,
    token: Seq<u8>,
    recipients: Seq<Seq<u8>>,
    shares: Seq<u32>,
    amount: i128,
    deadline: u64,
    now: u64,
    other: Seq<u8>,
)
    requires
        s.create(payer, token, recipients, shares, amount, deadline, now) is Ok,
    ensures
        ({
            let (t, id) = s.create(payer, token, recipients, shares, amount, deadline, now)->Ok_0;
            &&& t.list(payer) == s.list(payer).push(id)
            &&& (other != payer ==> t.list(other) == s.list(other))
        }),
{
    let t = s.create(payer, token, recipients, shares, amount, deadline, now)->Ok_0.0;
    assert(t.payments.drop_last() =~= s.payments);
}

/// The list of a payer holds exactly the ids of the payments that payer
/// created, each once, in increasing order.
pub proof fn lemma_list_is_exact(s: PaymentsView, payer: Seq<u8>)
    requires
        s.valid(),
    ensures
        forall|k: int|
            0 <= k < s.list(payer).len() ==> s.contains(#[trigger] s.list(payer)[k])
                && s.payments[s.list(payer)[k] - 1].payer == payer,
        forall|k: int, l: int|
            0 <= k < l < s.list(payer).len() ==> #[trigger] s.list(payer)[k] < #[trigger] s.list(
                payer,
            )[l],
        forall|id: u64|
            s.contains(id) && s.payments[id - 1].payer == payer ==> #[trigger] s.list(
                payer,
            ).contains(id),
{
    lemma_ids_of_exact(s.payments, payer);
}

proof fn lemma_ids_of_exact(ps: Seq<PaymentView>, payer: Seq<u8>)
    requires
        ps.len() <= u64::MAX,
    ensures
        forall|k: int|
            0 <= k < ids_of(ps, payer).len() ==> 1 <= #[trigger] ids_of(ps, payer)[k] <= ps.len()
                && ps[ids_of(ps, payer)[k] - 1].payer == payer,
        forall|k: int, l: int|
            0 <= k < l < ids_of(ps, payer).len() ==> #[trigger] ids_of(ps, payer)[k]
                < #[trigger] ids_of(ps, payer)[l],
        forall|id: u64|
            1 <= id <= ps.len() && ps[id - 1].payer == payer ==> #[trigger] ids_of(
                ps,
                payer,
            ).contains(id),
    decreases ps.len(),
{
    if ps.len() > 0 {
        let q = ps.drop_last();
        lemma_ids_of_exact(q, payer);
        let prev = ids_of(q, payer);
        let cur = ids_of(ps, payer);
        assert forall|id: u64| 1 <= id <= ps.len() && ps[id - 1].payer == payer implies #[trigger] cur.contains(id) by {
            if id < ps.len() {
                assert(q[id - 1] == ps[id - 1]);
                assert(prev.contains(id));
                let k = choose|k: int| 0 <= k < prev.len() && prev[k] == id;
                assert(cur[k] == id);
            } else {
                assert(cur[cur.len() - 1] == id);
            }
        }
    }
}

/// Settlement happens at most once: once a payment is released or refunded,
/// no later creation, release, refund or cancellation changes it, so it
/// never returns to being unsettled and never becomes both released and
/// refunded.
pub proof fn lemma_settled_payment_never_changes(
    s: PaymentsView,
    k: u64,
    id: u64,
    now: u64,
    payer: Seq<u8>,
    token: Seq<u8>,
    recipients: Seq<Seq<u8>>,
    shares: Seq<u32>,
    amount: i128,
    deadline: u64,
)
    requires
        s.valid(),
        s.contains(k),
        s.payments[k - 1].settled(),
    ensures
        !(s.payments[k - 1].released && s.payments[k - 1].refunded),
        s.release(id, now) matches Ok((t, _)) ==> t.get(k) == s.get(k),
        s.refund(id, now) matches Ok((t, _)) ==> t.get(k) == s.get(k),
        s.cancel(id, now) matches Ok((t, _)) ==> t.get(k) == s.get(k),
        s.create(payer, token, recipients, shares, amount, deadline, now) matches Ok((t, _))
            ==> t.get(k) == s.get(k),
{
    assert(s.payments[k - 1].valid());
}

/// Inputs are accepted exactly when there is at least one recipient, as many
/// shares as recipients, at most 50 recipients, a positive amount, every share
/// positive, and no recipient listed twice. A refusal names what is wrong: no
/// recipients only for an empty list, a zero share only where some share is
/// zero, a duplicate only where two recipients are the same, and a zero total
/// only where every share is zero.
pub proof fn lemma_validation_accepts_exactly(r: Seq<Seq<u8>>, s: Seq<u32>, amount: int)
    ensures
        validation(r, s, amount) is Ok <==> {
            &&& r.len() > 0
            &&& r.len() == s.len()
            &&& r.len() <= 50
            &&& amount > 0
            &&& forall|i: int| 0 <= i < s.len() ==> #[trigger] s[i] > 0
            &&& forall|i: int, j: int| 0 <= i < j < r.len() ==> #[trigger] r[i] != #[trigger] r[j]
        },
        r.len() == 0 ==> validation(r, s, amount) == Err::<(), Error>(Error::NoRecipients),
        validation(r, s, amount) == Err::<(), Error>(Error::ZeroShare) ==> exists|i: int|
            0 <= i < s.len() && #[trigger] s[i] == 0,
        validation(r, s, amount) == Err::<(), Error>(Error::DuplicateRecipient) ==> exists|
            i: int,
            j: int,
        | 0 <= i < j < r.len() && #[trigger] r[i] == #[trigger] r[j],
        validation(r, s, amount) == Err::<(), Error>(Error::ZeroTotalShares) ==> forall|i: int|
            0 <= i < s.len() ==> #[trigger] s[i] == 0,
{
    let distinct = forall|i: int, j: int| 0 <= i < j < r.len() ==> #[trigger] r[i] != #[trigger] r[j];
    if validation(r, s, amount) is Ok {
        lemma_accepted_examines_all(r, s, amount);
        lemma_accepted_entries(r, s, amount);
        assert forall|i: int, j: int| 0 <= i < j < r.len() implies #[trigger] r[i] != #[trigger] r[j] by {
            if r[i] == r[j] {
                assert(has_later_duplicate(r, i));
            }
        }
    }
    if r.len() > 0 && r.len() == s.len() && r.len() <= 50 && amount > 0 && (forall|i: int|
        0 <= i < s.len() ==> #[trigger] s[i] > 0) && distinct {
        assert forall|i: int| 0 <= i < r.len() implies !#[trigger] crate::validate::entry_faulty(r, s, i) by {
            if has_later_duplicate(r, i) {
                let j = choose|j: int| i < j < r.len() && r[j] == r[i];
                assert(r[i] != r[j]);
            }
        }
        lemma_no_fault_means_none(r, s, 0);
        assert(s[0] > 0);
        lemma_positive_shares_sum(s);
    }
    lemma_first_fault_is_faulty(r, s);
    if validation(r, s, amount) == Err::<(), Error>(Error::DuplicateRecipient) {
        let k = first_fault_k(r, s);
        assert(has_later_duplicate(r, k));
        let j = choose|j: int| k < j < r.len() && r[j] == r[k];
        assert(r[k] == r[j]);
    }
    if validation(r, s, amount) == Err::<(), Error>(Error::ZeroShare) {
        let k = first_fault_k(r, s);
        assert(s[k] == 0);
    }
    if validation(r, s, amount) == Err::<(), Error>(Error::ZeroTotalShares) {
        assert forall|i: int| 0 <= i < s.len() implies #[trigger] s[i] == 0 by {
            if s[i] != 0 {
                assert(s[i] > 0);
                lemma_share_bounds_sum(s, i);
            }
        }
    }
}

spec fn first_fault_k(r: Seq<Seq<u8>>, s: Seq<u32>) -> int {
    crate::validate::first_fault_from(r, s, 0)->Some_0
}

/// A single share is no more than the sum of all shares.
proof fn lemma_share_bounds_sum(s: Seq<u32>, i: int)
    requires
        0 <= i < s.len(),
    ensures
        s[i] <= crate::split::sum_shares(s),
{
    crate::split::lemma_sum_shares_prefix_monotone(s, i, i + 1);
    crate::split::lemma_sum_shares_prefix_monotone(s, i + 1, s.len() as int);
    assert(s.take(i + 1).drop_last() =~= s.take(i));
    assert(s.take(s.len() as int) =~= s);
}

/// Creation succeeds exactly on accepted inputs (at least one recipient, as
/// many shares as recipients, at most 50 recipients, a positive amount, every
/// share positive, no recipient twice), and the payment it records holds the
/// inputs it was given: payer, token, recipients, shares, amount and deadline
/// as passed, created at `now`, unsettled, with no settlement time.
pub proof fn lemma_create_records_its_inputs(
    s: PaymentsView,
    payer: Seq<u8>,
    token: Seq<u8>,
    recipients: Seq<Seq<u8>>,
    shares: Seq<u32>,
    amount: i128,
    deadline: u64,
    now: u64,
)
    requires
        s.count() < u64::MAX,
    ensures
        s.create(payer, token, recipients, shares, amount, deadline, now) is Ok <==> {
            &&& recipients.len() > 0
            &&& recipients.len() == shares.len()
            &&& recipients.len() <= 50
            &&& amount > 0
            &&& forall|i: int| 0 <= i < shares.len() ==> #[trigger] shares[i] > 0
            &&& forall|i: int, j: int|
                0 <= i < j < recipients.len() ==> #[trigger] recipients[i] != #[trigger] recipients[j]
        },
        s.create(payer, token, recipients, shares, amount, deadline, now) matches Ok((t, id)) ==> {
            &&& id == s.count() + 1
            &&& t.count() == s.count() + 1
            &&& t.get(id) matches Ok(p) && {
                &&& p.payer == payer
                &&& p.token == token
                &&& p.recipients == recipients
                &&& p.shares == shares
                &&& p.amount == amount
                &&& p.deadline == deadline
                &&& p.created_at == now
                &&& p.updated_at == 0
                &&& !p.released
                &&& !p.refunded
            }
        },
        s.create(payer, token, recipients, shares, amount, deadline, now) is Err ==> s.get(
            (s.count() + 1) as u64,
        ) is Err,
{
    lemma_validation_accepts_exactly(recipients, shares, amount as int);
}

/// A payment that exists and is neither released nor refunded can be
/// released, refunded and cancelled at any time, its deadline or none: the
/// deadline only decides who may refund. Releasing marks it released (not
/// refunded) at `now`; refunding or cancelling marks it refunded (not
/// released) at `now`; all its other fields are kept. These operations are
/// refused only for an unknown id or an already settled payment.
pub proof fn lemma_unsettled_payment_can_be_settled(s: PaymentsView, id: u64, now: u64)
    ensures
        s.contains(id) && !s.payments[id - 1].released && !s.payments[id - 1].refunded ==> {
            let p = s.payments[id - 1];
            &&& s.release(id, now) matches Ok((t, _)) && t.get(id) matches Ok(q) && {
                &&& q.released
                &&& !q.refunded
                &&& q.updated_at == now
                &&& q.payer == p.payer
                &&& q.token == p.token
                &&& q.recipients == p.recipients
                &&& q.shares == p.shares
                &&& q.amount == p.amount
                &&& q.created_at == p.created_at
                &&& q.deadline == p.deadline
            }
            &&& s.refund(id, now) matches Ok((t, _)) && t.get(id) matches Ok(q) && {
                &&& q.refunded
                &&& !q.released
                &&& q.updated_at == now
                &&& q.payer == p.payer
                &&& q.token == p.token
                &&& q.recipients == p.recipients
                &&& q.shares == p.shares
                &&& q.amount == p.amount
                &&& q.created_at == p.created_at
                &&& q.deadline == p.deadline
            }
            &&& s.cancel(id, now) is Ok
        },
        !s.contains(id) ==> {
            &&& s.release(id, now) == Err::<(PaymentsView, Seq<PayoutView>), Error>(
                Error::UnknownPayment,
            )
            &&& s.refund(id, now) == Err::<(PaymentsView, PayoutView), Error>(
                Error::UnknownPayment,
            )
            &&& s.cancel(id, now) == Err::<(PaymentsView, PayoutView), Error>(
                Error::UnknownPayment,
            )
        },
        s.contains(id) && (s.payments[id - 1].released || s.payments[id - 1].refunded) ==> {
            &&& s.release(id, now) == Err::<(PaymentsView, Seq<PayoutView>), Error>(
                Error::AlreadySettled,
            )
            &&& s.refund(id, now) == Err::<(PaymentsView, PayoutView), Error>(
                Error::AlreadySettled,
            )
            &&& s.cancel(id, now) == Err::<(PaymentsView, PayoutView), Error>(
                Error::AlreadySettled,
            )
        },
{
}

/// Who may refund: the payer's authorization is needed exactly when the
/// payment has no deadline (deadline 0) or the ledger time `now` is before the
/// deadline, a ledger timestamp; from the deadline on anyone may refund. The
/// rule depends on nothing else of the payment, its creation time included,
/// and once the deadline is reached it stays reached.
pub proof fn lemma_refund_authorization_rule(p: PaymentView, now: u64, created_at: u64, later: u64)
    ensures
        !p.past_deadline(now) == (p.deadline == 0 || now < p.deadline),
        (PaymentView { created_at, ..p }).past_deadline(now) == p.past_deadline(now),
        p.past_deadline(now) && now <= later ==> p.past_deadline(later),
{
}

/// Which refusal comes first: an empty list, then differing lengths, then more
/// than 50 recipients, then an amount that is not positive, then shares that
/// are all zero; after that the entries are examined in order, and the first
/// entry with a zero share or with a recipient listed again later decides,
/// a zero share before a repeat at the same entry.
pub proof fn lemma_validation_order(r: Seq<Seq<u8>>, s: Seq<u32>, amount: int, k: int)
    ensures
        r.len() > 0 && r.len() != s.len() ==> validation(r, s, amount) == Err::<(), Error>(
            Error::RecipientsSharesMismatch,
        ),
        0 < r.len() == s.len() && r.len() > 50 ==> validation(r, s, amount) == Err::<(), Error>(
            Error::TooManyRecipients,
        ),
        0 < r.len() == s.len() <= 50 && amount <= 0 ==> validation(r, s, amount) == Err::<
            (),
            Error,
        >(Error::NonPositiveAmount),
        0 < r.len() == s.len() <= 50 && amount > 0 && (forall|i: int|
            0 <= i < s.len() ==> #[trigger] s[i] == 0) ==> validation(r, s, amount) == Err::<
            (),
            Error,
        >(Error::ZeroTotalShares),
        ({
            &&& 0 < r.len() == s.len() <= 50
            &&& amount > 0
            &&& exists|i: int| 0 <= i < s.len() && #[trigger] s[i] > 0
            &&& 0 <= k < r.len()
            &&& forall|j: int| 0 <= j < k ==> #[trigger] s[j] > 0
            &&& forall|j: int, l: int| 0 <= j < k && j < l < r.len() ==> #[trigger] r[j] != #[trigger] r[l]
        }) ==> {
            &&& s[k] == 0 ==> validation(r, s, amount) == Err::<(), Error>(Error::ZeroShare)
            &&& (s[k] > 0 && exists|l: int| k < l < r.len() && #[trigger] r[l] == r[k])
                ==> validation(r, s, amount) == Err::<(), Error>(Error::DuplicateRecipient)
        },
{
    if 0 < r.len() == s.len() <= 50 && amount > 0 && (forall|i: int|
        0 <= i < s.len() ==> #[trigger] s[i] == 0) {
        assert(crate::split::sum_shares(s) == 0) by {
            lemma_all_zero_sum(s);
        }
    }
    if 0 < r.len() == s.len() <= 50 && amount > 0 && (exists|i: int|
        0 <= i < s.len() && #[trigger] s[i] > 0) {
        let i = choose|i: int| 0 <= i < s.len() && #[trigger] s[i] > 0;
        lemma_share_bounds_sum(s, i);
        if 0 <= k < r.len() && (forall|j: int| 0 <= j < k ==> #[trigger] s[j] > 0) && (forall|
            j: int,
            l: int,
        | 0 <= j < k && j < l < r.len() ==> #[trigger] r[j] != #[trigger] r[l]) {
            assert forall|j: int| 0 <= j < k implies !#[trigger] crate::validate::entry_faulty(r, s, j) by {
                assert(s[j] > 0);
                if has_later_duplicate(r, j) {
                    let l = choose|l: int| j < l < r.len() && r[l] == r[j];
                    assert(r[j] != r[l]);
                }
            }
            if s[k] == 0 || (s[k] > 0 && exists|l: int| k < l < r.len() && #[trigger] r[l] == r[k]) {
                if s[k] > 0 {
                    let l = choose|l: int| k < l < r.len() && #[trigger] r[l] == r[k];
                    assert(has_later_duplicate(r, k));
                }
                lemma_first_fault_at(r, s, 0, k);
            }
        }
    }
}

/// Shares that are all zero add up to zero.
proof fn lemma_all_zero_sum(s: Seq<u32>)
    requires
        forall|i: int| 0 <= i < s.len() ==> #[trigger] s[i] == 0,
    ensures
        crate::split::sum_shares(s) == 0,
    decreases s.len(),
{
    if s.len() > 0 {
        let q = s.drop_last();
        assert forall|i: int| 0 <= i < q.len() implies #[trigger] q[i] == 0 by {
            assert(s[i] == 0);
        }
        lemma_all_zero_sum(q);
        assert(s[s.len() - 1] == 0);
    }
}

/// Creation aborts only on inputs whose shares add up past `u32`, or when
/// the counter is at its maximum; release aborts only on a payment for which
/// the portion of some share, amount times share, does not fit in `i128`.
pub proof fn lemma_aborts_only_on_overflow(
    s: PaymentsView,
    recipients: Seq<Seq<u8>>,
    shares: Seq<u32>,
    amount: i128,
    id: u64,
)
    ensures
        s.create_aborts(recipients, shares, amount) ==> crate::split::sum_shares(shares)
            > u32::MAX || s.count() >= u64::MAX,
        s.release_aborts(id) ==> s.contains(id) && exists|i: int|
            0 <= i < s.payments[id - 1].shares.len() && (s.payments[id - 1].amount as int)
                * #[trigger] s.payments[id - 1].shares[i] > i128::MAX,
{
    if crate::validate::validation_overflows(recipients, shares, amount as int) {
        let e = crate::validate::shares_examined(recipients, shares);
        crate::validate::lemma_first_fault_is_faulty(recipients, shares);
        crate::split::lemma_sum_shares_prefix_monotone(shares, e, shares.len() as int);
        assert(shares.take(shares.len() as int) =~= shares);
    }
}

/// A new book holds nothing: no payment, zero volume, no id for any payer,
/// and every id unknown.
pub proof fn lemma_empty_book(payer: Seq<u8>, id: u64)
    ensures
        PaymentsView::empty().count() == 0,
        PaymentsView::empty().volume() == 0,
        PaymentsView::empty().list(payer).len() == 0,
        PaymentsView::empty().get(id) == Err::<PaymentView, Error>(Error::UnknownPayment),
{
}

} // verus!
