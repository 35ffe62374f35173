use vstd::prelude::*;
use crate::address::{Address, views};
use crate::split::{portions_fit, split, sum_shares};
use crate::validate::{
    lemma_accepted_examines_all, validate_inputs, validation, validation_would_overflow,
};

verus! {

/// A payment held in escrow until it is released or refunded.
pub struct Payment {
    pub payer: Address,
    pub recipients: Vec<Address>,
    pub shares: Vec<u32>,
    pub amount: i128,
    pub token: Address,
    pub released: bool,
    pub refunded: bool,
    /// Ledger timestamp when the payment was created.
    pub created_at: u64,
    /// Ledger timestamp of the settlement (release or refund), 0 if unset.
    pub updated_at: u64,
    /// Ledger timestamp from which anyone may refund the payment; 0 means
    /// "no deadline" (only the payer can refund).
    pub deadline: u64,
}

/// The mathematical content of a [`Payment`].
pub struct PaymentView {
    pub payer: Seq<u8>,
    pub recipients: Seq<Seq<u8>>,
    pub shares: Seq<u32>,
    pub amount: i128,
    pub token: Seq<u8>,
    pub released: bool,
    pub refunded: bool,
    pub created_at: u64,
    pub updated_at: u64,
    pub deadline: u64,
}

/// A transfer out of escrow: `amount` goes to `to`.
pub struct Payout {
    pub to: Address,
    pub amount: i128,
}

/// The mathematical content of a [`Payout`].
pub struct PayoutView {
    pub to: Seq<u8>,
    pub amount: int,
}

impl View for Payment {
    type V = PaymentView;

    open spec fn view(&self) -> PaymentView {
        PaymentView {
            payer: self.payer@,
            recipients: views(self.recipients@),
            shares: self.shares@,
            amount: self.amount,
            token: self.token@,
            released: self.released,
            refunded: self.refunded,
            created_at: self.created_at,
            updated_at: self.updated_at,
            deadline: self.deadline,
        }
    }
}

impl View for Payout {
    type V = PayoutView;

    open spec fn view(&self) -> PayoutView {
        PayoutView { to: self.to@, amount: self.amount as int }
    }
}

impl PaymentView {
    /// Whether the payment is one that creation can produce and settlement
    /// keeps: its inputs pass validation, its shares add up within `u32`, and
    /// it was not both released and refunded.
    pub open spec fn valid(self) -> bool {
        &&& validation(self.recipients, self.shares, self.amount as int) == Ok::<(), crate::Error>(())
        &&& sum_shares(self.shares) <= u32::MAX
        &&& !(self.released && self.refunded)
    }

    /// Whether the payment was released or refunded.
    pub open spec fn settled(self) -> bool {
        self.released || self.refunded
    }

    /// Whether the payment's deadline is set and `now` has reached it.
    pub open spec fn past_deadline(self, now: u64) -> bool {
        self.deadline != 0 && now >= self.deadline
    }

    /// The transfers a release makes: to each recipient, in order, its part of
    /// the split of the amount.
    pub open spec fn payouts(self) -> Seq<PayoutView> {
        Seq::new(
            self.recipients.len(),
            |i: int|
                PayoutView {
                    to: self.recipients[i],
                    amount: split(self.amount as int, self.shares)[i],
                },
        )
    }

    /// The transfer a refund or a cancellation makes: the whole amount back to
    /// the payer.
    pub open spec fn refund_payout(self) -> PayoutView {
        PayoutView { to: self.payer, amount: self.amount as int }
    }
}

/// A clone of a list of addresses has the same views.
fn clone_addresses(v: &Vec<Address>) -> (r: Vec<Address>)
    ensures
        views(r@) == views(v@),
{
    let mut r: Vec<Address> = Vec::new();
    let mut i: usize = 0;
    while i < v.len()
        invariant
            i <= v@.len(),
            r@.len() == i,
            forall|k: int| 0 <= k < i ==> #[trigger] r@[k]@ == v@[k]@,
        decreases v@.len() - i,
    {
        r.push(v[i].clone());
        i = i + 1;
    }
    assert(views(r@) =~= views(v@));
    r
}

/// A copy of a list of shares.
fn copy_shares(v: &Vec<u32>) -> (r: Vec<u32>)
    ensures
        r@ == v@,
{
    let mut r: Vec<u32> = Vec::new();
    let mut i: usize = 0;
    while i < v.len()
        invariant
            i <= v@.len(),
            r@ == v@.take(i as int),
        decreases v@.len() - i,
    {
        r.push(v[i]);
        i = i + 1;
        assert(r@ =~= v@.take(i as int));
    }
    assert(v@.take(v@.len() as int) =~= v@);
    r
}

impl Clone for Payment {
    fn clone(&self) -> (r: Payment)
        ensures
            r@ == self@,
    {
        Payment {
            payer: self.payer.clone(),
            recipients: clone_addresses(&self.recipients),
            shares: copy_shares(&self.shares),
            amount: self.amount,
            token: self.token.clone(),
            released: self.released,
            refunded: self.refunded,
            created_at: self.created_at,
            updated_at: self.updated_at,
            deadline: self.deadline,
        }
    }
}

impl Payment {
    /// Whether a refund of this payment at time `now` needs the payer's
    /// authorization: it does unless the deadline is set and has been reached,
    /// after which anyone may trigger the refund.
    pub fn refund_needs_payer_auth(&self, now: u64) -> (r: bool)
        ensures
            r == !self@.past_deadline(now),
    {
        let past_deadline = self.deadline != 0 && now >= self.deadline;
        !past_deadline
    }

    /// Whether this payment is one that creation can produce.
    pub fn is_valid(&self) -> (r: bool)
        ensures
            r == self@.valid(),
    {
        if self.released && self.refunded {
            return false;
        }
        proof {
            lemma_accepted_examines_all(self@.recipients, self@.shares, self@.amount as int);
            assert(self@.shares.take(self@.shares.len() as int) =~= self@.shares);
        }
        if validation_would_overflow(&self.recipients, &self.shares, self.amount) {
            return false;
        }
        validate_inputs(&self.recipients, &self.shares, self.amount).is_ok()
    }
}

} // verus!
