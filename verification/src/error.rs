use vstd::prelude::*;

verus! {

/// Why an operation on the payment book was refused.
#[derive(Clone, Copy, Debug, PartialEq, Eq, Structural)]
pub enum Error {
    /// `recipients` was empty.
    NoRecipients,
    /// `recipients.len()` != `shares.len()`.
    RecipientsSharesMismatch,
    /// `amount` was zero or negative.
    NonPositiveAmount,
    /// Sum of `shares` was zero (e.g. all shares were 0).
    ZeroTotalShares,
    /// One or more individual shares were zero.
    ZeroShare,
    /// Duplicate recipient addresses were supplied.
    DuplicateRecipient,
    /// Too many recipients for a single payment.
    TooManyRecipients,
    /// The referenced payment does not exist.
    UnknownPayment,
    /// The payment was already released or refunded.
    AlreadySettled,
}

/// The human-readable text of each error.
pub open spec fn message_text(e: Error) -> Seq<char> {
    match e {
        Error::NoRecipients => "no recipients"@,
        Error::RecipientsSharesMismatch => "recipients/shares mismatch"@,
        Error::NonPositiveAmount => "amount must be positive"@,
        Error::ZeroTotalShares => "shares sum to zero"@,
        Error::ZeroShare => "share must be greater than zero"@,
        Error::DuplicateRecipient => "duplicate recipient"@,
        Error::TooManyRecipients => "too many recipients"@,
        Error::UnknownPayment => "unknown payment"@,
        Error::AlreadySettled => "payment already settled"@,
    }
}

impl Error {
    /// Human-readable message for panics and client mapping.
    pub fn message(&self) -> (r: &'static str)
        ensures
            r@ == message_text(*self),
    {
        match self {
            Error::NoRecipients => "no recipients",
            Error::RecipientsSharesMismatch => "recipients/shares mismatch",
            Error::NonPositiveAmount => "amount must be positive",
            Error::ZeroTotalShares => "shares sum to zero",
            Error::ZeroShare => "share must be greater than zero",
            Error::DuplicateRecipient => "duplicate recipient",
            Error::TooManyRecipients => "too many recipients",
            Error::UnknownPayment => "unknown payment",
            Error::AlreadySettled => "payment already settled",
        }
    }
}

/// Distinct errors carry distinct messages, so a client can map a message back
/// to the error that produced it.
pub proof fn lemma_messages_distinct(a: Error, b: Error)
    requires
        a != b,
    ensures
        message_text(a) != message_text(b),
{
    reveal_strlit("no recipients");
    reveal_strlit("recipients/shares mismatch");
    reveal_strlit("amount must be positive");
    reveal_strlit("shares sum to zero");
    reveal_strlit("share must be greater than zero");
    reveal_strlit("duplicate recipient");
    reveal_strlit("too many recipients");
    reveal_strlit("unknown payment");
    reveal_strlit("payment already settled");
    if message_text(a) == message_text(b) {
        assert(message_text(a).len() == message_text(b).len());
        assert(message_text(a)[0] == message_text(b)[0]);
        assert(message_text(a)[1] == message_text(b)[1]);
    }
}

} // verus!
