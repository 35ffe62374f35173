//! An escrow payment book. A payer creates a payment that splits an amount of
//! a token among recipients in proportion to their shares; the amount is held
//! in escrow until the payer releases it to the recipients, or until it is
//! refunded or cancelled back to the payer. Each operation is a function from
//! the book's state and its inputs to the next state and the transfers that
//! settle it; the ledger, authorization and token transfers themselves are
//! the host's.

pub mod address;
pub mod error;
pub mod laws;
pub mod payment;
pub mod payments;
pub mod split;
pub mod validate;

pub use address::Address;
pub use error::Error;
pub use payment::{Payment, Payout};
pub use payments::{Payments, Stats};
pub use split::split_amount;
pub use validate::{validate_inputs, validation_would_overflow};
