# payments

A verified escrow payment book. A payer creates a payment that splits an
amount of a token among recipients in proportion to their shares; the amount
stays in escrow until the payer releases it to the recipients, or until it is
refunded (by anyone once its deadline has passed) or cancelled back to the
payer.

- `src/` is the library, verified with Verus: input validation
  (`validate.rs`), the split of a released amount (`split.rs`), payment
  records (`payment.rs`), the book and its operations with their mathematical
  model (`payments.rs`), and the laws that relate the operations (`laws.rs`).
- `app/` is the Soroban contract around it: contract storage, authorization,
  token transfers and events.
- `tests/` exercises the library.

The contract's arguments and stored records use Soroban's host values:
`soroban_sdk::Vec`, `Address` and `String` are handles into the host's memory
and can only be read through a contract environment. The library therefore
holds plain values: std `Vec`s, and each address as its strkey bytes. `app/`
converts between the two at the contract's edge.
