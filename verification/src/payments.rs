use vstd::prelude::*;
use crate::address::{Address, views};
use crate::error::Error;
use crate::payment::{Payment, PaymentView, Payout, PayoutView};
use crate::split::{portions_fit, split, split_amount};
use crate::validate::{
    lemma_accepted_entries, validate_inputs, validation, validation_overflows,
    validation_would_overflow,
};

verus! {

/// The deadline stored when a payment is created with deadline 0.
pub const DEFAULT_DEADLINE_SECS: u64 = 0;

/// Aggregate statistics over all payments.
#[derive(Clone, Copy, Debug, PartialEq, Eq, Structural)]
pub struct Stats {
    pub count: u64,
    pub volume: i128,
}

/// The views of a sequence of payments.
pub open spec fn payment_views(v: Seq<Payment>) -> Seq<PaymentView> {
    v.map_values(|p: Payment| p@)
}

/// The views of a sequence of payouts.
pub open spec fn payout_views(v: Seq<Payout>) -> Seq<PayoutView> {
    v.map_values(|p: Payout| p@)
}

/// The ids, in increasing order, of the payments in `ps` made by `payer`; the
/// payment at position `i` has id `i + 1`.
pub open spec fn ids_of(ps: Seq<PaymentView>, payer: Seq<u8>) -> Seq<u64>
    decreases ps.len(),
{
    if ps.len() == 0 {
        Seq::empty()
    } else if ps.last().payer == payer {
        ids_of(ps.drop_last(), payer).push(ps.len() as u64)
    } else {
        ids_of(ps.drop_last(), payer)
    }
}

/// The sum of the amounts of the payments in `ps`.
pub open spec fn amounts_sum(ps: Seq<PaymentView>) -> int
    decreases ps.len(),
{
    if ps.len() == 0 {
        0
    } else {
        amounts_sum(ps.drop_last()) + ps.last().amount
    }
}

/// In a book of valid payments, the amounts of a longer prefix add up to no
/// less.
pub proof fn lemma_amounts_prefix_monotone(ps: Seq<PaymentView>, a: int, b: int)
    requires
        0 <= a <= b <= ps.len(),
        forall|i: int| 0 <= i < ps.len() ==> #[trigger] ps[i].valid(),
    ensures
        0 <= amounts_sum(ps.take(a)) <= amounts_sum(ps.take(b)),
    decreases b - a,
{
    if a < b {
        lemma_amounts_prefix_monotone(ps, a, b - 1);
        assert(ps.take(b).drop_last() =~= ps.take(b - 1));
        assert(ps[b - 1].valid());
    } else {
        lemma_amounts_prefix_nonneg(ps, a);
    }
}

/// In a book of valid payments, the amounts of a prefix add up to no less
/// than zero.
proof fn lemma_amounts_prefix_nonneg(ps: Seq<PaymentView>, a: int)
    requires
        0 <= a <= ps.len(),
        forall|i: int| 0 <= i < ps.len() ==> #[trigger] ps[i].valid(),
    ensures
        0 <= amounts_sum(ps.take(a)),
    decreases a,
{
    if a > 0 {
        lemma_amounts_prefix_nonneg(ps, a - 1);
        assert(ps.take(a).drop_last() =~= ps.take(a - 1));
        assert(ps[a - 1].valid());
    }
}

/// The mathematical content of the payment book: the payments in order of
/// creation; the payment at position `i` has id `i + 1`.
pub struct PaymentsView {
    pub payments: Seq<PaymentView>,
}

impl PaymentsView {
    /// The book with no payment.
    pub open spec fn empty() -> PaymentsView {
        PaymentsView { payments: Seq::empty() }
    }

    /// Whether every payment in the book is valid and their number fits the
    /// `u64` counter.
    pub open spec fn valid(self) -> bool {
        &&& self.payments.len() <= u64::MAX
        &&& forall|i: int| 0 <= i < self.payments.len() ==> #[trigger] self.payments[i].valid()
    }

    /// How many payments were ever created.
    pub open spec fn count(self) -> nat {
        self.payments.len()
    }

    /// Whether `id` names a payment of the book.
    pub open spec fn contains(self, id: u64) -> bool {
        1 <= id <= self.payments.len()
    }

    /// The payment named `id`.
    pub open spec fn get(self, id: u64) -> Result<PaymentView, Error> {
        if self.contains(id) {
            Ok(self.payments[id - 1])
        } else {
            Err(Error::UnknownPayment)
        }
    }

    /// The book with the payment named `id` replaced by `p`.
    pub open spec fn with_payment(self, id: u64, p: PaymentView) -> PaymentsView {
        PaymentsView { payments: self.payments.update(id - 1, p) }
    }

    /// The payment that creation records.
    pub open spec fn new_payment(
        payer: Seq<u8>,
        token: Seq<u8>,
        recipients: Seq<Seq<u8>>,
        shares: Seq<u32>,
        amount: i128,
        deadline: u64,
        now: u64,
    ) -> PaymentView {
        PaymentView {
            payer,
            recipients,
            shares,
            amount,
            token,
            released: false,
            refunded: false,
            created_at: now,
            updated_at: 0,
            deadline: if deadline == 0 {
                DEFAULT_DEADLINE_SECS
            } else {
                deadline
            },
        }
    }

    /// Creation: refused as validation says; otherwise the new payment is
    /// appended and its id is the new count.
    pub open spec fn create(
        self,
        payer: Seq<u8>,
        token: Seq<u8>,
        recipients: Seq<Seq<u8>>,
        shares: Seq<u32>,
        amount: i128,
        deadline: u64,
        now: u64,
    ) -> Result<(PaymentsView, u64), Error> {
        match validation(recipients, shares, amount as int) {
            Err(e) => Err(e),
            Ok(_) => Ok(
                (
                    PaymentsView {
                        payments: self.payments.push(
                            PaymentsView::new_payment(
                                payer,
                                token,
                                recipients,
                                shares,
                                amount,
                                deadline,
                                now,
                            ),
                        ),
                    },
                    (self.count() + 1) as u64,
                ),
            ),
        }
    }

    /// Whether creation aborts: its running total of shares overflows `u32`,
    /// or the inputs are accepted but the counter is at its maximum.
    pub open spec fn create_aborts(self, recipients: Seq<Seq<u8>>, shares: Seq<u32>, amount: i128) -> bool {
        ||| validation_overflows(recipients, shares, amount as int)
        ||| (validation(recipients, shares, amount as int) is Ok && self.count() >= u64::MAX)
    }

    /// Release: refused for an unknown or settled payment; otherwise the
    /// payment is marked released at `now` and its amount is split among its
    /// recipients.
    pub open spec fn release(self, id: u64, now: u64) -> Result<(PaymentsView, Seq<PayoutView>), Error> {
        match self.get(id) {
            Err(e) => Err(e),
            Ok(p) => if p.settled() {
                Err(Error::AlreadySettled)
            } else {
                Ok(
                    (
                        self.with_payment(id, PaymentView { released: true, updated_at: now, ..p }),
                        p.payouts(),
                    ),
                )
            },
        }
    }

    /// Whether release aborts: the payment is known and unsettled but the
    /// portion of some share does not fit in `i128`.
    pub open spec fn release_aborts(self, id: u64) -> bool {
        match self.get(id) {
            Err(_) => false,
            Ok(p) => !p.settled() && !portions_fit(p.amount as int, p.shares),
        }
    }

    /// Return to the payer: refused for an unknown or settled payment;
    /// otherwise the payment is marked refunded at `now` and its whole amount
    /// goes back to the payer.
    pub open spec fn return_to_payer(self, id: u64, now: u64) -> Result<(PaymentsView, PayoutView), Error> {
        match self.get(id) {
            Err(e) => Err(e),
            Ok(p) => if p.settled() {
                Err(Error::AlreadySettled)
            } else {
                Ok(
                    (
                        self.with_payment(id, PaymentView { refunded: true, updated_at: now, ..p }),
                        p.refund_payout(),
                    ),
                )
            },
        }
    }

    /// Refund: a return to the payer.
    pub open spec fn refund(self, id: u64, now: u64) -> Result<(PaymentsView, PayoutView), Error> {
        self.return_to_payer(id, now)
    }

    /// Cancellation: a return to the payer.
    pub open spec fn cancel(self, id: u64, now: u64) -> Result<(PaymentsView, PayoutView), Error> {
        self.return_to_payer(id, now)
    }

    /// The ids of the payments made by `payer`, in order of creation.
    pub open spec fn list(self, payer: Seq<u8>) -> Seq<u64> {
        ids_of(self.payments, payer)
    }

    /// The total amount over every payment, settled or not.
    pub open spec fn volume(self) -> int {
        amounts_sum(self.payments)
    }
}

/// The transfers that releasing `p` makes.
fn payouts_of(p: &Payment) -> (r: Vec<Payout>)
    requires
        p@.valid(),
        portions_fit(p.amount as int, p.shares@),
    ensures
        payout_views(r@) == p@.payouts(),
{
    proof {
        lemma_accepted_entries(p@.recipients, p@.shares, p.amount as int);
    }
    let amounts = split_amount(p.amount, &p.shares);
    let n = p.recipients.len();
    let mut out: Vec<Payout> = Vec::new();
    let mut i: usize = 0;
    while i < n
        invariant
            n == p.recipients@.len(),
            n == p.shares@.len(),
            amounts@.len() == n,
            forall|k: int| 0 <= k < n ==> #[trigger] amounts@[k] == split(p.amount as int, p.shares@)[k],
            i <= n,
            out@.len() == i,
            forall|k: int| 0 <= k < i ==> #[trigger] out@[k]@ == p@.payouts()[k],
        decreases n - i,
    {
        out.push(Payout { to: p.recipients[i].clone(), amount: amounts[i] });
        i = i + 1;
    }
    assert(payout_views(out@) =~= p@.payouts());
    out
}

/// The payment book: every payment ever created, in order of creation.
pub struct Payments {
    payments: Vec<Payment>,
}

impl View for Payments {
    type V = PaymentsView;

    closed spec fn view(&self) -> PaymentsView {
        PaymentsView { payments: payment_views(self.payments@) }
    }
}

impl Payments {
    #[verifier::type_invariant]
    spec fn inv(self) -> bool {
        self@.valid()
    }

    /// An empty book.
    pub fn new() -> (r: Payments)
        ensures
            r@ == PaymentsView::empty(),
            r@.valid(),
    {
        let r = Payments { payments: Vec::new() };
        assert(r@.payments =~= Seq::<PaymentView>::empty());
        r
    }

    /// Total number of payments ever created.
    pub fn payment_count(&self) -> (r: u64)
        ensures
            r == self@.count(),
    {
        proof {
            use_type_invariant(self);
        }
        self.payments.len() as u64
    }

    /// Whether `create` with these inputs would abort rather than return.
    pub fn create_would_abort(&self, recipients: &Vec<Address>, shares: &Vec<u32>, amount: i128) -> (r:
        bool)
        ensures
            r == self@.create_aborts(views(recipients@), shares@, amount),
    {
        proof {
            use_type_invariant(self);
        }
        if validation_would_overflow(recipients, shares, amount) {
            return true;
        }
        validate_inputs(recipients, shares, amount).is_ok() && self.payments.len() as u64 == u64::MAX
    }

    /// Creates an escrow payment splitting `amount` of `token` across
    /// `recipients` in proportion to `shares`, and returns its id. The inputs
    /// are checked as `validate_inputs` does; a `deadline` of 0 stores the
    /// default deadline.
    pub fn create(
        &mut self,
        payer: Address,
        token: Address,
        recipients: Vec<Address>,
        shares: Vec<u32>,
        amount: i128,
        deadline: u64,
        now: u64,
    ) -> (r: Result<u64, Error>)
        requires
            !old(self)@.create_aborts(views(recipients@), shares@, amount),
        ensures
            final(self)@.valid(),
            match old(self)@.create(
                payer@,
                token@,
                views(recipients@),
                shares@,
                amount,
                deadline,
                now,
            ) {
                Ok((s, id)) => r == Ok::<u64, Error>(id) && final(self)@ == s,
                Err(e) => r == Err::<u64, Error>(e) && final(self)@ == old(self)@,
            },
    {
        proof {
            use_type_invariant(&*self);
        }
        match validate_inputs(&recipients, &shares, amount) {
            Ok(()) => {},
            Err(e) => {
                return Err(e);
            },
        }
        let deadline = if deadline == 0 {
            DEFAULT_DEADLINE_SECS
        } else {
            deadline
        };
        let counter: u64 = self.payments.len() as u64 + 1;
        let payment = Payment {
            payer,
            recipients,
            shares,
            amount,
            token,
            released: false,
            refunded: false,
            created_at: now,
            updated_at: 0,
            deadline,
        };
        proof {
            lemma_accepted_entries(payment@.recipients, payment@.shares, amount as int);
            crate::validate::lemma_accepted_examines_all(
                payment@.recipients,
                payment@.shares,
                amount as int,
            );
            assert(payment@.shares.take(payment@.shares.len() as int) =~= payment@.shares);
            assert(payment@.valid());
        }
        let mut payments: Vec<Payment> = Vec::new();
        std::mem::swap(&mut payments, &mut self.payments);
        payments.push(payment);
        assert(payment_views(payments@) =~= old(self)@.payments.push(payment@));
        self.payments = payments;
        Ok(counter)
    }

    /// Whether `release` of `payment_id` would abort rather than return.
    pub fn release_would_abort(&self, payment_id: u64) -> (r: bool)
        ensures
            r == self@.release_aborts(payment_id),
    {
        proof {
            use_type_invariant(self);
        }
        if payment_id == 0 || payment_id > self.payments.len() as u64 {
            return false;
        }
        let p = &self.payments[(payment_id - 1) as usize];
        if p.released || p.refunded {
            return false;
        }
        proof {
            assert(self@.payments[payment_id - 1].valid());
            crate::validate::lemma_accepted_examines_all(p@.recipients, p@.shares, p.amount as int);
            lemma_accepted_entries(p@.recipients, p@.shares, p.amount as int);
            assert(self@.get(payment_id) == Ok::<PaymentView, Error>(p@));
        }
        let mut i: usize = 0;
        while i < p.shares.len()
            invariant
                i <= p.shares@.len(),
                p.amount > 0,
                self@.get(payment_id) == Ok::<PaymentView, Error>(p@),
                !p@.settled(),
                forall|k: int| 0 <= k < p.shares@.len() ==> #[trigger] p.shares@[k] > 0,
                forall|k: int| 0 <= k < i ==> #[trigger] (p.amount * p.shares@[k]) <= i128::MAX,
            decreases p.shares@.len() - i,
        {
            if p.amount.checked_mul(p.shares[i] as i128).is_none() {
                assert(0 <= p.amount * p.shares@[i as int]) by (nonlinear_arith)
                    requires
                        p.amount > 0,
                        p.shares@[i as int] > 0,
                ;
                assert((p.amount as int) * p.shares@[i as int] > i128::MAX);
                assert(!portions_fit(p.amount as int, p.shares@));
                return true;
            }
            i = i + 1;
        }
        false
    }

    /// Releases the payment named `payment_id` at time `now`: marks it
    /// released and returns the transfers to its recipients, in order, each
    /// but the last receiving its share's rounded-down portion of the amount
    /// and the last the remainder, so that the whole amount is distributed.
    pub fn release(&mut self, payment_id: u64, now: u64) -> (r: Result<Vec<Payout>, Error>)
        requires
            !old(self)@.release_aborts(payment_id),
        ensures
            final(self)@.valid(),
            match old(self)@.release(payment_id, now) {
                Ok((s, payouts)) => r matches Ok(v) && payout_views(v@) == payouts && final(self)@
                    == s,
                Err(e) => r == Err::<Vec<Payout>, Error>(e) && final(self)@ == old(self)@,
            },
    {
        proof {
            use_type_invariant(&*self);
        }
        if payment_id == 0 || payment_id > self.payments.len() as u64 {
            return Err(Error::UnknownPayment);
        }
        let idx = (payment_id - 1) as usize;
        if self.payments[idx].released || self.payments[idx].refunded {
            return Err(Error::AlreadySettled);
        }
        let payouts = payouts_of(&self.payments[idx]);
        let ghost p = old(self)@.payments[idx as int];
        let mut payments: Vec<Payment> = Vec::new();
        std::mem::swap(&mut payments, &mut self.payments);
        let pm = &mut payments[idx];
        pm.released = true;
        pm.updated_at = now;
        assert(payment_views(payments@) =~= old(self)@.payments.update(
            idx as int,
            PaymentView { released: true, updated_at: now, ..p },
        ));
        proof {
            assert(p.valid());
            assert(PaymentView { released: true, updated_at: now, ..p }.valid());
            assert forall|i: int| 0 <= i < payments@.len() implies #[trigger] payment_views(
                payments@,
            )[i].valid() by {
                if i != idx {
                    assert(old(self)@.payments[i].valid());
                }
            }
        }
        self.payments = payments;
        Ok(payouts)
    }

    /// Marks the payment named `payment_id` refunded at `now` and returns the
    /// transfer of its whole amount back to the payer.
    fn return_to_payer(&mut self, payment_id: u64, now: u64) -> (r: Result<Payout, Error>)
        ensures
            final(self)@.valid(),
            match old(self)@.return_to_payer(payment_id, now) {
                Ok((s, payout)) => r matches Ok(v) && v@ == payout && final(self)@ == s,
                Err(e) => r == Err::<Payout, Error>(e) && final(self)@ == old(self)@,
            },
    {
        proof {
            use_type_invariant(&*self);
        }
        if payment_id == 0 || payment_id > self.payments.len() as u64 {
            return Err(Error::UnknownPayment);
        }
        let idx = (payment_id - 1) as usize;
        if self.payments[idx].released || self.payments[idx].refunded {
            return Err(Error::AlreadySettled);
        }
        let payout = Payout { to: self.payments[idx].payer.clone(), amount: self.payments[idx].amount };
        let ghost p = old(self)@.payments[idx as int];
        let mut payments: Vec<Payment> = Vec::new();
        std::mem::swap(&mut payments, &mut self.payments);
        let pm = &mut payments[idx];
        pm.refunded = true;
        pm.updated_at = now;
        assert(payment_views(payments@) =~= old(self)@.payments.update(
            idx as int,
            PaymentView { refunded: true, updated_at: now, ..p },
        ));
        proof {
            assert(p.valid());
            assert(PaymentView { refunded: true, updated_at: now, ..p }.valid());
            assert forall|i: int| 0 <= i < payments@.len() implies #[trigger] payment_views(
                payments@,
            )[i].valid() by {
                if i != idx {
                    assert(old(self)@.payments[i].valid());
                }
            }
        }
        self.payments = payments;
        Ok(payout)
    }

    /// Refunds the payment named `payment_id` at time `now`: marks it refunded
    /// and returns the transfer of its whole amount back to the payer, with
    /// whether the payer must authorize the refund: before the deadline, or
    /// when there is none, only the payer may refund; at or after it, anyone
    /// may.
    pub fn refund(&mut self, payment_id: u64, now: u64) -> (r: Result<(Payout, bool), Error>)
        ensures
            final(self)@.valid(),
            match old(self)@.refund(payment_id, now) {
                Ok((s, payout)) => r matches Ok((v, needs_payer_auth)) && v@ == payout
                    && needs_payer_auth == !old(self)@.payments[payment_id - 1].past_deadline(now)
                    && final(self)@ == s,
                Err(e) => r == Err::<(Payout, bool), Error>(e) && final(self)@ == old(self)@,
            },
    {
        match self.return_to_payer(payment_id, now) {
            Ok(payout) => {
                let needs_payer_auth = self.get_ref(payment_id).refund_needs_payer_auth(now);
                Ok((payout, needs_payer_auth))
            },
            Err(e) => Err(e),
        }
    }

    /// Cancels the payment named `payment_id` at time `now`: like a refund,
    /// it marks the payment refunded and returns the transfer of its whole
    /// amount back to the payer, with whether the payer must authorize the
    /// cancellation, which is always so, deadline or not.
    pub fn cancel(&mut self, payment_id: u64, now: u64) -> (r: Result<(Payout, bool), Error>)
        ensures
            final(self)@.valid(),
            match old(self)@.cancel(payment_id, now) {
                Ok((s, payout)) => r matches Ok((v, needs_payer_auth)) && v@ == payout
                    && needs_payer_auth && final(self)@ == s,
                Err(e) => r == Err::<(Payout, bool), Error>(e) && final(self)@ == old(self)@,
            },
    {
        match self.return_to_payer(payment_id, now) {
            Ok(payout) => Ok((payout, true)),
            Err(e) => Err(e),
        }
    }

    /// The stored payment named `payment_id`, which must exist.
    fn get_ref(&self, payment_id: u64) -> (r: &Payment)
        requires
            self@.contains(payment_id),
        ensures
            r@ == self@.payments[payment_id - 1],
    {
        assert(self@.payments.len() == self.payments@.len());
        let n = self.payments.len();
        assert(payment_id <= n);
        let idx: usize = (payment_id - 1) as usize;
        assert(idx as int == payment_id - 1);
        assert(self@.payments[idx as int] == self.payments@[idx as int]@);
        &self.payments[idx]
    }

    /// The ids of all payments created by `payer`, in order of creation.
    pub fn list(&self, payer: &Address) -> (r: Vec<u64>)
        ensures
            r@ == self@.list(payer@),
    {
        proof {
            use_type_invariant(self);
        }
        let ghost ps = self@.payments;
        let n = self.payments.len();
        let mut out: Vec<u64> = Vec::new();
        let mut i: usize = 0;
        while i < n
            invariant
                n == self.payments@.len(),
                ps == self@.payments,
                ps.len() <= u64::MAX,
                i <= n,
                out@ == ids_of(ps.take(i as int), payer@),
            decreases n - i,
        {
            proof {
                assert(ps.take(i + 1).drop_last() =~= ps.take(i as int));
            }
            if self.payments[i].payer.equals(payer) {
                out.push((i + 1) as u64);
            }
            i = i + 1;
        }
        assert(ps.take(n as int) =~= ps);
        out
    }

    /// Whether `stats` would abort rather than return: the total volume does
    /// not fit in `i128`.
    pub fn volume_would_overflow(&self) -> (r: bool)
        ensures
            r == (self@.volume() > i128::MAX),
    {
        proof {
            use_type_invariant(self);
        }
        let ghost ps = self@.payments;
        let n = self.payments.len();
        let mut volume: i128 = 0;
        let mut i: usize = 0;
        while i < n
            invariant
                n == self.payments@.len(),
                ps == self@.payments,
                self@.valid(),
                i <= n,
                volume == amounts_sum(ps.take(i as int)),
            decreases n - i,
        {
            proof {
                assert(ps.take(i + 1).drop_last() =~= ps.take(i as int));
                lemma_amounts_prefix_monotone(ps, i + 1, n as int);
                assert(ps.take(n as int) =~= ps);
            }
            match volume.checked_add(self.payments[i].amount) {
                Some(v) => {
                    volume = v;
                },
                None => {
                    assert(ps[i as int].valid());
                    return true;
                },
            }
            i = i + 1;
        }
        assert(ps.take(n as int) =~= ps);
        false
    }

    /// Aggregate statistics: the number of payments ever created and the sum
    /// of their amounts, settled or not.
    pub fn stats(&self) -> (r: Stats)
        requires
            self@.volume() <= i128::MAX,
        ensures
            r.count == self@.count(),
            r.volume == self@.volume(),
    {
        proof {
            use_type_invariant(self);
        }
        let ghost ps = self@.payments;
        let count = self.payment_count();
        let n = self.payments.len();
        let mut volume: i128 = 0;
        let mut i: usize = 0;
        while i < n
            invariant
                n == self.payments@.len(),
                ps == self@.payments,
                self@.valid(),
                amounts_sum(ps) <= i128::MAX,
                i <= n,
                volume == amounts_sum(ps.take(i as int)),
            decreases n - i,
        {
            proof {
                assert(ps.take(i + 1).drop_last() =~= ps.take(i as int));
                lemma_amounts_prefix_monotone(ps, i + 1, n as int);
                assert(ps.take(n as int) =~= ps);
            }
            volume = volume + self.payments[i].amount;
            i = i + 1;
        }
        assert(ps.take(n as int) =~= ps);
        Stats { count, volume }
    }

    /// A book holding `records` as its payments, ids following their order,
    /// if every one of them is a valid payment; `None` otherwise.
    pub fn restore(records: Vec<Payment>) -> (r: Option<Payments>)
        ensures
            r is Some <==> forall|i: int|
                0 <= i < records@.len() ==> #[trigger] records@[i]@.valid(),
            r matches Some(b) ==> b@.payments == payment_views(records@),
    {
        let n = records.len();
        let mut i: usize = 0;
        while i < n
            invariant
                n == records@.len(),
                i <= n,
                forall|k: int| 0 <= k < i ==> #[trigger] records@[k]@.valid(),
            decreases n - i,
        {
            if !records[i].is_valid() {
                return None;
            }
            i = i + 1;
        }
        let b = Payments { payments: records };
        assert forall|k: int| 0 <= k < b@.payments.len() implies #[trigger] b@.payments[k].valid() by {
            assert(records@[k]@.valid());
        }
        Some(b)
    }

    /// The payments of the book, in order of creation.
    pub fn records(&self) -> (r: &Vec<Payment>)
        ensures
            payment_views(r@) == self@.payments,
    {
        &self.payments
    }

    /// The payment named `payment_id`.
    pub fn get(&self, payment_id: u64) -> (r: Result<Payment, Error>)
        ensures
            match self@.get(payment_id) {
                Ok(p) => r matches Ok(q) && q@ == p,
                Err(e) => r == Err::<Payment, Error>(e),
            },
    {
        proof {
            use_type_invariant(self);
        }
        if payment_id == 0 || payment_id > self.payments.len() as u64 {
            return Err(Error::UnknownPayment);
        }
        Ok(self.payments[(payment_id - 1) as usize].clone())
    }
}

} // verus!
