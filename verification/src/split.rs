use vstd::prelude::*;

verus! {

/// The sum of a sequence of shares.
pub open spec fn sum_shares(s: Seq<u32>) -> int
    decreases s.len(),
{
    if s.len() == 0 {
        0
    } else {
        sum_shares(s.drop_last()) + s.last()
    }
}

/// The sum of a sequence of integers.
pub open spec fn sum_ints(s: Seq<int>) -> int
    decreases s.len(),
{
    if s.len() == 0 {
        0
    } else {
        sum_ints(s.drop_last()) + s.last()
    }
}

/// The sum, over the given shares, of each share's rounded-down portion of
/// `amount` when the whole is `total` shares.
pub open spec fn portions_sum(amount: int, s: Seq<u32>, total: int) -> int
    decreases s.len(),
{
    if s.len() == 0 {
        0
    } else {
        portions_sum(amount, s.drop_last(), total) + amount * s.last() / total
    }
}

/// How `amount` is split among recipients holding `shares`: every recipient
/// but the last receives its share's rounded-down portion of the amount, and
/// the last receives whatever remains.
pub open spec fn split(amount: int, shares: Seq<u32>) -> Seq<int> {
    let n = shares.len();
    let total = sum_shares(shares);
    Seq::new(
        n,
        |i: int|
            if i < n - 1 {
                amount * shares[i] / total
            } else {
                amount - portions_sum(amount, shares.take(n - 1), total)
            },
    )
}

/// Whether computing each share's portion of `amount` stays within `i128`.
pub open spec fn portions_fit(amount: int, shares: Seq<u32>) -> bool {
    forall|i: int| 0 <= i < shares.len() ==> #[trigger] (amount * shares[i]) <= i128::MAX
}

/// Summing a longer prefix of shares never gives less.
pub proof fn lemma_sum_shares_prefix_monotone(s: Seq<u32>, a: int, b: int)
    requires
        0 <= a <= b <= s.len(),
    ensures
        0 <= sum_shares(s.take(a)) <= sum_shares(s.take(b)),
    decreases b - a,
{
    if a < b {
        lemma_sum_shares_prefix_monotone(s, a, b - 1);
        assert(s.take(b).drop_last() =~= s.take(b - 1));
    } else {
        lemma_sum_shares_nonneg(s.take(a));
    }
}

/// A sum of shares is never negative.
pub proof fn lemma_sum_shares_nonneg(s: Seq<u32>)
    ensures
        sum_shares(s) >= 0,
    decreases s.len(),
{
    if s.len() > 0 {
        lemma_sum_shares_nonneg(s.drop_last());
    }
}

/// Rounding down each part separately never gives more than rounding down
/// the whole.
proof fn lemma_floor_add(x: int, y: int, d: int)
    requires
        x >= 0,
        y >= 0,
        d > 0,
    ensures
        x / d + y / d <= (x + y) / d,
{
    vstd::arithmetic::div_mod::lemma_fundamental_div_mod(x, d);
    vstd::arithmetic::div_mod::lemma_fundamental_div_mod(y, d);
    vstd::arithmetic::div_mod::lemma_fundamental_div_mod(x + y, d);
    let qx = x / d;
    let qy = y / d;
    let q = (x + y) / d;
    assert(d * qx + d * qy <= x + y);
    assert(x + y < d * q + d);
    assert(d * (qx + qy) <= x + y) by (nonlinear_arith)
        requires
            d * qx + d * qy <= x + y,
    ;
    assert(qx + qy < q + 1) by (nonlinear_arith)
        requires
            d * (qx + qy) <= x + y,
            x + y < d * q + d,
            d > 0,
    ;
}

/// The rounded-down portions of a prefix of shares add up to no more than the
/// rounded-down portion of the prefix's sum, and to no less than zero.
pub proof fn lemma_portions_bound(amount: int, s: Seq<u32>, total: int)
    requires
        amount >= 0,
        total > 0,
    ensures
        0 <= portions_sum(amount, s, total) <= amount * sum_shares(s) / total,
    decreases s.len(),
{
    if s.len() > 0 {
        let p = s.drop_last();
        lemma_portions_bound(amount, p, total);
        lemma_sum_shares_nonneg(p);
        let x = amount * sum_shares(p);
        let y = amount * s.last();
        assert(x >= 0) by (nonlinear_arith)
            requires
                x == amount * sum_shares(p),
                amount >= 0,
                sum_shares(p) >= 0,
        ;
        assert(y >= 0) by (nonlinear_arith)
            requires
                y == amount * s.last(),
                amount >= 0,
                s.last() >= 0,
        ;
        lemma_floor_add(x, y, total);
        assert(x + y == amount * sum_shares(s)) by (nonlinear_arith)
            requires
                sum_shares(s) == sum_shares(p) + s.last(),
                x == amount * sum_shares(p),
                y == amount * s.last(),
        ;
        assert(0 <= y / total) by (nonlinear_arith)
            requires
                y >= 0,
                total > 0,
        ;
    }
}

/// A portion of at most the whole is at most the amount.
proof fn lemma_portion_at_most_amount(amount: int, part: int, total: int)
    requires
        amount >= 0,
        0 <= part <= total,
        total > 0,
    ensures
        0 <= amount * part / total <= amount,
{
    assert(amount * part <= amount * total) by (nonlinear_arith)
        requires
            amount >= 0,
            part <= total,
    ;
    assert(0 <= amount * part) by (nonlinear_arith)
        requires
            amount >= 0,
            part >= 0,
    ;
    vstd::arithmetic::div_mod::lemma_div_is_ordered(amount * part, amount * total, total);
    vstd::arithmetic::div_mod::lemma_div_multiples_vanish(amount, total);
    assert(amount * total == total * amount) by (nonlinear_arith);
    vstd::arithmetic::div_mod::lemma_div_pos_is_pos(amount * part, total);
}

/// The payouts of a prefix of the split add up to the portions of the same
/// prefix of shares, as long as the prefix stops before the last recipient.
proof fn lemma_split_prefix_sum(amount: int, shares: Seq<u32>, k: int)
    requires
        0 <= k < shares.len(),
    ensures
        sum_ints(split(amount, shares).take(k)) == portions_sum(
            amount,
            shares.take(k),
            sum_shares(shares),
        ),
    decreases k,
{
    if k > 0 {
        lemma_split_prefix_sum(amount, shares, k - 1);
        assert(split(amount, shares).take(k).drop_last() =~= split(amount, shares).take(k - 1));
        assert(shares.take(k).drop_last() =~= shares.take(k - 1));
    } else {
        assert(split(amount, shares).take(0) =~= Seq::<int>::empty());
        assert(shares.take(0) =~= Seq::<u32>::empty());
    }
}

/// The split hands out exactly the whole amount, to every recipient a part
/// between zero and the amount, when the amount is not negative.
pub proof fn lemma_split_conserves(amount: int, shares: Seq<u32>)
    requires
        shares.len() >= 1,
        sum_shares(shares) > 0,
        amount >= 0,
    ensures
        split(amount, shares).len() == shares.len(),
        sum_ints(split(amount, shares)) == amount,
        forall|i: int|
            0 <= i < shares.len() ==> 0 <= #[trigger] split(amount, shares)[i] <= amount,
{
    let n = shares.len() as int;
    let total = sum_shares(shares);
    let sp = split(amount, shares);
    lemma_split_prefix_sum(amount, shares, n - 1);
    assert(sp.drop_last() =~= sp.take(n - 1));
    lemma_portions_bound(amount, shares.take(n - 1), total);
    lemma_sum_shares_prefix_monotone(shares, n - 1, n);
    assert(shares.take(n) =~= shares);
    lemma_portion_at_most_amount(amount, sum_shares(shares.take(n - 1)), total);
    assert forall|i: int| 0 <= i < n implies 0 <= #[trigger] sp[i] <= amount by {
        if i < n - 1 {
            lemma_sum_shares_prefix_monotone(shares, i, i + 1);
            assert(shares.take(i + 1).drop_last() =~= shares.take(i));
            lemma_sum_shares_prefix_monotone(shares, i + 1, n);
            lemma_sum_shares_prefix_monotone(shares, 0, i);
            lemma_portion_at_most_amount(amount, shares[i] as int, total);
        }
    }
}

/// The sum of all shares, computed in `u32` as a release computes it.
fn total_of(shares: &Vec<u32>) -> (r: u32)
    requires
        sum_shares(shares@) <= u32::MAX,
    ensures
        r == sum_shares(shares@),
{
    let mut total: u32 = 0;
    let mut i: usize = 0;
    while i < shares.len()
        invariant
            i <= shares@.len(),
            total == sum_shares(shares@.take(i as int)),
            sum_shares(shares@) <= u32::MAX,
        decreases shares@.len() - i,
    {
        proof {
            lemma_sum_shares_prefix_monotone(shares@, i + 1, shares@.len() as int);
            assert(shares@.take(shares@.len() as int) =~= shares@);
            assert(shares@.take(i + 1).drop_last() =~= shares@.take(i as int));
        }
        total = total + shares[i];
        i = i + 1;
    }
    assert(shares@.take(shares@.len() as int) =~= shares@);
    total
}

/// Splits `amount` among holders of `shares`: each but the last gets its
/// share's rounded-down portion, the last gets the remainder.
pub fn split_amount(amount: i128, shares: &Vec<u32>) -> (r: Vec<i128>)
    requires
        shares@.len() >= 1,
        amount >= 0,
        0 < sum_shares(shares@) <= u32::MAX,
        portions_fit(amount as int, shares@),
    ensures
        r@.len() == shares@.len(),
        forall|i: int| 0 <= i < r@.len() ==> #[trigger] r@[i] == split(amount as int, shares@)[i],
{
    let total = total_of(shares);
    let n = shares.len();
    let ghost sp = split(amount as int, shares@);
    proof {
        lemma_split_conserves(amount as int, shares@);
    }
    let mut out: Vec<i128> = Vec::new();
    let mut distributed: i128 = 0;
    let mut i: usize = 0;
    while i < n
        invariant
            n == shares@.len(),
            n >= 1,
            i <= n,
            amount >= 0,
            total as int == sum_shares(shares@),
            total > 0,
            portions_fit(amount as int, shares@),
            sp == split(amount as int, shares@),
            sp.len() == n,
            sum_ints(sp) == amount,
            forall|k: int| 0 <= k < n ==> 0 <= #[trigger] sp[k] <= amount,
            out@.len() == i,
            forall|k: int| 0 <= k < i ==> #[trigger] out@[k] == sp[k],
            i < n ==> distributed == portions_sum(amount as int, shares@.take(i as int), total as int),
            i < n ==> distributed == sum_ints(sp.take(i as int)),
        decreases n - i,
    {
        let share = shares[i] as i128;
        assert(amount * shares@[i as int] <= i128::MAX);
        assert(0 <= amount * share) by (nonlinear_arith)
            requires
                amount >= 0,
                share >= 0,
        ;
        let mut value: i128 = (amount * share) / (total as i128);
        if i == n - 1 {
            value = amount - distributed;
        }
        proof {
            if i < n - 1 {
                assert(shares@.take(i + 1).drop_last() =~= shares@.take(i as int));
                assert(sp.take(i + 1).drop_last() =~= sp.take(i as int));
                assert(value == sp[i as int]);
                lemma_split_prefix_sum(amount as int, shares@, i + 1);
                lemma_portions_bound(amount as int, shares@.take(i + 1), total as int);
                lemma_sum_shares_prefix_monotone(shares@, i + 1, n as int);
                assert(shares@.take(n as int) =~= shares@);
                lemma_portion_at_most_amount(
                    amount as int,
                    sum_shares(shares@.take(i + 1)),
                    total as int,
                );
            }
        }
        assert(value == sp[i as int]);
        distributed = distributed + value;
        out.push(value);
        i = i + 1;
    }
    out
}

} // verus!
