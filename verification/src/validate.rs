use vstd::prelude::*;
use crate::address::{Address, views};
use crate::error::Error;
use crate::split::{sum_shares, lemma_sum_shares_prefix_monotone};

verus! {

/// Maximum number of recipients per payment.
pub const MAX_RECIPIENTS: u32 = 50;

/// Whether the recipient at `i` occurs again later in the list.
pub open spec fn has_later_duplicate(r: Seq<Seq<u8>>, i: int) -> bool {
    exists|j: int| i < j < r.len() && r[j] == r[i]
}

/// Whether the entry at `i` is refused: a zero share, or a recipient that
/// occurs again later.
pub open spec fn entry_faulty(r: Seq<Seq<u8>>, s: Seq<u32>, i: int) -> bool {
    s[i] == 0 || has_later_duplicate(r, i)
}

/// The first refused entry at or after `i`, if any.
pub open spec fn first_fault_from(r: Seq<Seq<u8>>, s: Seq<u32>, i: int) -> Option<int>
    decreases r.len() - i,
{
    if i < 0 || i >= r.len() {
        None
    } else if entry_faulty(r, s, i) {
        Some(i)
    } else {
        first_fault_from(r, s, i + 1)
    }
}

/// Whether the recipients, shares and amount of a new payment are accepted,
/// and if not, which error refuses them. The checks come in this order: an
/// empty list, lengths that differ, too many recipients, an amount that is not
/// positive, shares that add up to zero (all shares zero); then the entries are
/// examined in order, and the first that holds a zero share or a recipient
/// occurring again later decides the error (a zero share first).
pub open spec fn validation(r: Seq<Seq<u8>>, s: Seq<u32>, amount: int) -> Result<(), Error> {
    if r.len() == 0 {
        Err(Error::NoRecipients)
    } else if r.len() != s.len() {
        Err(Error::RecipientsSharesMismatch)
    } else if r.len() > MAX_RECIPIENTS {
        Err(Error::TooManyRecipients)
    } else if amount <= 0 {
        Err(Error::NonPositiveAmount)
    } else if sum_shares(s) == 0 {
        Err(Error::ZeroTotalShares)
    } else {
        match first_fault_from(r, s, 0) {
            Some(k) => if s[k] == 0 {
                Err(Error::ZeroShare)
            } else {
                Err(Error::DuplicateRecipient)
            },
            None => Ok(()),
        }
    }
}

/// How many shares validation adds up before it decides: up to the first
/// refused entry (that entry's share included when it is not zero), or all.
pub open spec fn shares_examined(r: Seq<Seq<u8>>, s: Seq<u32>) -> int {
    match first_fault_from(r, s, 0) {
        Some(k) => if s[k] == 0 {
            k
        } else {
            k + 1
        },
        None => s.len() as int,
    }
}

/// Whether validation's running total of shares exceeds `u32` before it
/// decides, which aborts it.
pub open spec fn validation_overflows(r: Seq<Seq<u8>>, s: Seq<u32>, amount: int) -> bool {
    &&& r.len() > 0
    &&& r.len() == s.len()
    &&& r.len() <= MAX_RECIPIENTS
    &&& amount > 0
    &&& sum_shares(s) != 0
    &&& sum_shares(s.take(shares_examined(r, s))) > u32::MAX
}

/// The first refused entry from `i` lies between `i` and the end, and is
/// refused.
proof fn lemma_first_fault_range(r: Seq<Seq<u8>>, s: Seq<u32>, i: int)
    requires
        0 <= i,
    ensures
        match first_fault_from(r, s, i) {
            Some(k) => i <= k < r.len() && entry_faulty(r, s, k),
            None => true,
        },
    decreases r.len() - i,
{
    if i < r.len() && !entry_faulty(r, s, i) {
        lemma_first_fault_range(r, s, i + 1);
    }
}

/// Accepted inputs pass every length and amount check, and validation adds
/// up all of their shares.
pub proof fn lemma_accepted_examines_all(r: Seq<Seq<u8>>, s: Seq<u32>, amount: int)
    ensures
        validation(r, s, amount) is Ok ==> {
            &&& r.len() > 0
            &&& r.len() == s.len()
            &&& r.len() <= MAX_RECIPIENTS
            &&& amount > 0
            &&& shares_examined(r, s) == s.len()
        },
{
}

/// Where no entry is refused from `i` on, every entry from `i` on has a
/// non-zero share and a recipient that does not occur again.
proof fn lemma_no_fault_from(r: Seq<Seq<u8>>, s: Seq<u32>, i: int)
    requires
        0 <= i,
        first_fault_from(r, s, i) is None,
    ensures
        forall|j: int| i <= j < r.len() ==> !entry_faulty(r, s, j),
    decreases r.len() - i,
{
    if i < r.len() {
        lemma_no_fault_from(r, s, i + 1);
    }
}

/// In accepted inputs every share is positive, no recipient occurs twice, and
/// the shares add up to more than zero.
pub proof fn lemma_accepted_entries(r: Seq<Seq<u8>>, s: Seq<u32>, amount: int)
    requires
        validation(r, s, amount) is Ok,
    ensures
        forall|i: int| 0 <= i < s.len() ==> #[trigger] s[i] > 0,
        forall|i: int| 0 <= i < r.len() ==> !#[trigger] has_later_duplicate(r, i),
        sum_shares(s) > 0,
{
    lemma_no_fault_from(r, s, 0);
    assert forall|i: int| 0 <= i < s.len() implies #[trigger] s[i] > 0 by {
        assert(!entry_faulty(r, s, i));
    }
    assert forall|i: int| 0 <= i < r.len() implies !#[trigger] has_later_duplicate(r, i) by {
        assert(!entry_faulty(r, s, i));
    }
    assert(s.len() >= 1);
    lemma_sum_shares_prefix_monotone(s, 1, s.len() as int);
    assert(s.take(1).drop_last() =~= Seq::<u32>::empty());
    assert(sum_shares(Seq::<u32>::empty()) == 0);
    assert(s.take(1).last() == s[0]);
    assert(sum_shares(s.take(1)) == s[0]);
    assert(s.take(s.len() as int) =~= s);
}

/// Where no entry from `i` on is refused, there is no first refused entry
/// from `i`.
pub proof fn lemma_no_fault_means_none(r: Seq<Seq<u8>>, s: Seq<u32>, i: int)
    requires
        0 <= i,
        forall|j: int| i <= j < r.len() ==> !#[trigger] entry_faulty(r, s, j),
    ensures
        first_fault_from(r, s, i) is None,
    decreases r.len() - i,
{
    if i < r.len() {
        assert(!entry_faulty(r, s, i));
        lemma_no_fault_means_none(r, s, i + 1);
    }
}

/// Where no entry before `k` is refused and the entry at `k` is, the first
/// refused entry from any `i` up to `k` is at `k`.
pub proof fn lemma_first_fault_at(r: Seq<Seq<u8>>, s: Seq<u32>, i: int, k: int)
    requires
        0 <= i <= k < r.len(),
        forall|j: int| 0 <= j < k ==> !#[trigger] entry_faulty(r, s, j),
        entry_faulty(r, s, k),
    ensures
        first_fault_from(r, s, i) == Some(k),
    decreases k - i,
{
    if i < k {
        assert(!entry_faulty(r, s, i));
        lemma_first_fault_at(r, s, i + 1, k);
    }
}

/// Where the first refused entry from the start is at `k`, the entry at `k` is
/// refused.
pub proof fn lemma_first_fault_is_faulty(r: Seq<Seq<u8>>, s: Seq<u32>)
    ensures
        first_fault_from(r, s, 0) matches Some(k) ==> 0 <= k < r.len() && entry_faulty(r, s, k),
{
    lemma_first_fault_range(r, s, 0);
}

/// Shares that are all positive, at least one of them, add up to more than
/// zero.
pub proof fn lemma_positive_shares_sum(s: Seq<u32>)
    requires
        s.len() >= 1,
        s[0] > 0,
    ensures
        sum_shares(s) > 0,
{
    lemma_sum_shares_prefix_monotone(s, 1, s.len() as int);
    assert(s.take(1).drop_last() =~= Seq::<u32>::empty());
    assert(sum_shares(Seq::<u32>::empty()) == 0);
    assert(s.take(1).last() == s[0]);
    assert(sum_shares(s.take(1)) == s[0]);
    assert(s.take(s.len() as int) =~= s);
}

/// Where no entry before `i` is refused, the first refused entry from the
/// start is the first from `i`.
proof fn lemma_first_fault_skip(r: Seq<Seq<u8>>, s: Seq<u32>, i: int)
    requires
        0 <= i < r.len(),
        !entry_faulty(r, s, i),
    ensures
        first_fault_from(r, s, i) == first_fault_from(r, s, i + 1),
{
}

/// Whether the recipient at `i` occurs again later in the list.
fn later_duplicate(recipients: &Vec<Address>, i: usize) -> (r: bool)
    requires
        i < recipients@.len(),
    ensures
        r == has_later_duplicate(views(recipients@), i as int),
{
    let ghost rv = views(recipients@);
    let n = recipients.len();
    let mut j: usize = i + 1;
    while j < n
        invariant
            n == recipients@.len(),
            rv == views(recipients@),
            i < j <= n,
            forall|m: int| i < m < j ==> rv[m] != rv[i as int],
        decreases n - j,
    {
        if recipients[j].equals(&recipients[i]) {
            assert(rv[j as int] == rv[i as int]);
            return true;
        }
        j = j + 1;
    }
    false
}

/// Whether the shares add up to zero, that is, every share is zero.
fn all_zero(shares: &Vec<u32>) -> (r: bool)
    ensures
        r == (sum_shares(shares@) == 0),
{
    let n = shares.len();
    let mut i: usize = 0;
    while i < n
        invariant
            n == shares@.len(),
            i <= n,
            sum_shares(shares@.take(i as int)) == 0,
        decreases n - i,
    {
        proof {
            assert(shares@.take(i + 1).drop_last() =~= shares@.take(i as int));
        }
        if shares[i] != 0 {
            proof {
                lemma_sum_shares_prefix_monotone(shares@, i + 1, n as int);
                assert(shares@.take(n as int) =~= shares@);
            }
            return false;
        }
        i = i + 1;
    }
    assert(shares@.take(n as int) =~= shares@);
    true
}

/// Checks the recipients, shares and amount of a new payment.
pub fn validate_inputs(recipients: &Vec<Address>, shares: &Vec<u32>, amount: i128) -> (r: Result<
    (),
    Error,
>)
    requires
        !validation_overflows(views(recipients@), shares@, amount as int),
    ensures
        r == validation(views(recipients@), shares@, amount as int),
{
    let ghost rv = views(recipients@);
    if recipients.len() == 0 {
        return Err(Error::NoRecipients);
    }
    if recipients.len() != shares.len() {
        return Err(Error::RecipientsSharesMismatch);
    }
    if recipients.len() > MAX_RECIPIENTS as usize {
        return Err(Error::TooManyRecipients);
    }
    if amount <= 0 {
        return Err(Error::NonPositiveAmount);
    }
    if all_zero(shares) {
        return Err(Error::ZeroTotalShares);
    }
    let n = recipients.len();
    let mut total_shares: u32 = 0;
    let mut i: usize = 0;
    while i < n
        invariant
            n == recipients@.len(),
            n == shares@.len(),
            0 < n <= MAX_RECIPIENTS,
            amount > 0,
            rv == views(recipients@),
            !validation_overflows(rv, shares@, amount as int),
            sum_shares(shares@) != 0,
            i <= n,
            first_fault_from(rv, shares@, 0) == first_fault_from(rv, shares@, i as int),
            total_shares == sum_shares(shares@.take(i as int)),
            i > 0 ==> total_shares > 0,
        decreases n - i,
    {
        let s = shares[i];
        if s == 0 {
            return Err(Error::ZeroShare);
        }
        proof {
            lemma_first_fault_range(rv, shares@, i as int);
            assert(i + 1 <= shares_examined(rv, shares@));
            lemma_sum_shares_prefix_monotone(
                shares@,
                i + 1,
                shares_examined(rv, shares@),
            );
            assert(shares@.take(i + 1).drop_last() =~= shares@.take(i as int));
        }
        total_shares = total_shares + s;
        if later_duplicate(recipients, i) {
            return Err(Error::DuplicateRecipient);
        }
        proof {
            lemma_first_fault_skip(rv, shares@, i as int);
        }
        i = i + 1;
    }
    Ok(())
}

/// Whether validating these inputs would overflow its running total of shares.
pub fn validation_would_overflow(recipients: &Vec<Address>, shares: &Vec<u32>, amount: i128) -> (r:
    bool)
    ensures
        r == validation_overflows(views(recipients@), shares@, amount as int),
{
    let ghost rv = views(recipients@);
    let n = recipients.len();
    if n == 0 || n != shares.len() || n > MAX_RECIPIENTS as usize || amount <= 0 {
        return false;
    }
    if all_zero(shares) {
        return false;
    }
    let mut total: u64 = 0;
    let mut i: usize = 0;
    while i < n
        invariant
            n == recipients@.len(),
            n == shares@.len(),
            0 < n <= MAX_RECIPIENTS,
            amount > 0,
            rv == views(recipients@),
            i <= n,
            first_fault_from(rv, shares@, 0) == first_fault_from(rv, shares@, i as int),
            sum_shares(shares@) != 0,
            total == sum_shares(shares@.take(i as int)),
            total <= u32::MAX,
        decreases n - i,
    {
        let s = shares[i];
        if s == 0 {
            return false;
        }
        proof {
            assert(shares@.take(i + 1).drop_last() =~= shares@.take(i as int));
        }
        total = total + s as u64;
        if total > u32::MAX as u64 {
            proof {
                lemma_first_fault_range(rv, shares@, i as int);
                lemma_sum_shares_prefix_monotone(
                    shares@,
                    i + 1,
                    shares_examined(rv, shares@),
                );
            }
            return true;
        }
        if later_duplicate(recipients, i) {
            return false;
        }
        proof {
            lemma_first_fault_skip(rv, shares@, i as int);
        }
        i = i + 1;
    }
    assert(shares@.take(n as int) =~= shares@);
    false
}

} // verus!
