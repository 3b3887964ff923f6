use vstd::prelude::*;

verus! {

/// The equal share of `amount` among `n` parts (rounded toward zero).
pub open spec fn share_of(amount: int, n: int) -> int {
    amount / n
}

/// What is left of `amount` once every one of `n` parts has its share.
pub open spec fn remainder_of(amount: int, n: int) -> int {
    amount - share_of(amount, n) * n
}

/// The facts about an even split that the rest of the library relies on.
pub proof fn lemma_split_bounds(amount: int, n: int)
    requires
        amount > 0,
        n > 0,
    ensures
        0 <= share_of(amount, n) <= amount,
        0 <= remainder_of(amount, n) < n,
        remainder_of(amount, n) <= amount,
        share_of(amount, n) + remainder_of(amount, n) <= amount,
        share_of(amount, n) * n + remainder_of(amount, n) == amount,
        remainder_of(amount, n) == amount % n,
{
    vstd::arithmetic::div_mod::lemma_fundamental_div_mod(amount, n);
    vstd::arithmetic::div_mod::lemma_mod_pos_bound(amount, n);
    vstd::arithmetic::div_mod::lemma_div_pos_is_pos(amount, n);
    vstd::arithmetic::div_mod::lemma_div_is_ordered_by_denominator(amount, 1, n);
    assert(n * share_of(amount, n) == share_of(amount, n) * n) by (nonlinear_arith);
    assert(share_of(amount, n) * n >= share_of(amount, n)) by (nonlinear_arith)
        requires
            share_of(amount, n) >= 0,
            n >= 1,
    ;
}

/// Splits a positive `amount` into `parts` equal shares and the remainder.
pub fn split_amount(amount: i128, parts: usize) -> (r: (i128, i128))
    requires
        amount > 0,
        parts > 0,
    ensures
        r.0 == share_of(amount as int, parts as int),
        r.1 == remainder_of(amount as int, parts as int),
{
    proof {
        lemma_split_bounds(amount as int, parts as int);
    }
    let n: i128 = parts as i128;
    let share: i128 = amount / n;
    let rem: i128 = amount - share * n;
    (share, rem)
}

} // verus!
