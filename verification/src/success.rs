//! When each operation succeeds, stated over its inputs alone, and what it
//! then returns.

use vstd::prelude::*;
use crate::address::Address;
use crate::balances::balance_or_zero;
use crate::laws::{
    members_distinct, transfer_total, lemma_transfer_total_push, law_settlement_clears_balances,
    law_settlement_within_deposits, law_split_payment_total,
};
use crate::model::{
    ContractState, apply_expense, apply_settlement, capped_payout, spec_initialize, spec_create_group,
    spec_add_expense, spec_settle_group, spec_split_payment,
};
use crate::split::lemma_split_bounds;
use crate::types::{Group, GroupState, Payment, Transfer, is_member, group_state_wf};

verus! {

/// Whether `x` fits in an `i128`.
pub open spec fn fits_i128(x: int) -> bool {
    i128::MIN <= x <= i128::MAX
}

/// An uninitialized contract accepts any admin, keeps its groups and its
/// group counter.
pub proof fn law_initialize_succeeds(s: ContractState, admin: Address)
    requires
        s.admin is None,
    ensures
        spec_initialize(s, admin) is Ok,
        spec_initialize(s, admin)->Ok_0.admin == Some(admin),
        spec_initialize(s, admin)->Ok_0.groups == s.groups,
        spec_initialize(s, admin)->Ok_0.next_group_id() == s.next_group_id(),
{
}

/// Creating a group whose members (a host list, so at most `u32::MAX` of
/// them, of any length) include the creator succeeds whenever the counter
/// is below `u64::MAX`: it returns the counter as the new id, stores the
/// group under it with every member at a zero balance and no payments,
/// advances the counter by one and changes no stored group.
pub proof fn law_create_group_succeeds(
    s: ContractState,
    creator: Address,
    name: String,
    token: Address,
    members: Seq<Address>,
)
    requires
        s.wf(),
        exists|i: int| 0 <= i < members.len() && #[trigger] members[i]@ == creator@,
        members.len() <= u32::MAX,
        s.next_group_id() < u64::MAX,
    ensures
        spec_create_group(s, creator, name, token, members) is Ok,
        ({
            let (s2, id) = spec_create_group(s, creator, name, token, members)->Ok_0;
            &&& id == s.next_group_id()
            &&& s2.next_group_id() == id + 1
            &&& !s.groups.contains_key(id)
            &&& s2.groups.contains_key(id)
            &&& s2.groups[id].group == (Group {
                id,
                name,
                creator,
                token,
                total_members: members.len() as u32,
                total_paid: 0,
                is_settled: false,
            })
            &&& s2.groups[id].group.total_members == members.len()
            &&& s2.groups[id].members == members
            &&& s2.groups[id].payments.len() == 0
            &&& forall|i: int| 0 <= i < members.len() ==> balance_or_zero(s2.groups[id].balances, #[trigger] members[i]@) == 0
            &&& forall|other: u64| #[trigger] s.groups.contains_key(other) ==> s2.groups.contains_key(other)
                && s2.groups[other] == s.groups[other]
        }),
{
    assert(is_member(members, creator@));
    let (s2, id) = spec_create_group(s, creator, name, token, members)->Ok_0;
    assert(!s.groups.contains_key(id));
    assert forall|i: int| 0 <= i < members.len() implies balance_or_zero(s2.groups[id].balances, #[trigger] members[i]@) == 0 by {
        assert(is_member(members, members[i]@));
    }
    assert forall|other: u64| #[trigger] s.groups.contains_key(other) implies s2.groups.contains_key(other)
        && s2.groups[other] == s.groups[other] by {
        assert(other != id);
    }
}

/// What an expense of `amount` paid by `payer` changes the balance of the
/// member at position `i` by: every position owes `amount / n`, the first
/// position also `amount % n`, and the payer is credited `amount`.
pub open spec fn expense_change(members: Seq<Address>, payer: Seq<char>, amount: int, i: int) -> int {
    let n = members.len() as int;
    (if members[i]@ == payer { amount } else { 0 }) - amount / n - if i == 0 { amount % n } else { 0 }
}

proof fn lemma_expense_books_distinct(
    b: Map<Seq<char>, i128>,
    members: Seq<Address>,
    payer: Seq<char>,
    amount: int,
    k: nat,
)
    requires
        amount > 0,
        members.len() > 0,
        members_distinct(members),
        k <= members.len(),
        forall|i: int| 0 <= i < members.len() ==> fits_i128(
            balance_or_zero(b, #[trigger] members[i]@) + expense_change(members, payer, amount, i),
        ),
    ensures
        apply_expense(b, members, payer, amount, k) is Some,
        forall|i: int| 0 <= i < members.len() ==>
            balance_or_zero(apply_expense(b, members, payer, amount, k)->Some_0, #[trigger] members[i]@)
                == balance_or_zero(b, members[i]@) + if i < k { expense_change(members, payer, amount, i) } else { 0 },
    decreases k,
{
    if k > 0 {
        lemma_expense_books_distinct(b, members, payer, amount, (k - 1) as nat);
        lemma_split_bounds(amount, members.len() as int);
        let prev = apply_expense(b, members, payer, amount, (k - 1) as nat)->Some_0;
        let who = members[k - 1]@;
        assert(balance_or_zero(prev, who) == balance_or_zero(b, who));
        let r = apply_expense(b, members, payer, amount, k)->Some_0;
        assert forall|i: int| 0 <= i < members.len() implies balance_or_zero(r, #[trigger] members[i]@)
            == balance_or_zero(b, members[i]@) + if i < k { expense_change(members, payer, amount, i) } else { 0 } by {
            if i != k - 1 {
                assert(members[i]@ != members[k - 1]@);
            }
        }
    }
}

/// An expense of a positive amount, paid by a member of an existing
/// unsettled group with distinct members, succeeds however many payments the
/// group holds whenever the new total and every new balance fit in `i128`.
/// It then moves the amount from the payer to the contract in the group's
/// token, adds it to the total, appends exactly one payment and changes
/// each member's balance by its share (see [`expense_change`]).
pub proof fn law_add_expense_succeeds(
    s: ContractState,
    group_id: u64,
    payer: Address,
    amount: i128,
    description: String,
    timestamp: u64,
    contract_address: Address,
)
    requires
        s.wf(),
        s.groups.contains_key(group_id),
        !s.groups[group_id].group.is_settled,
        exists|i: int| 0 <= i < s.groups[group_id].members.len() && #[trigger] s.groups[group_id].members[i]@ == payer@,
        members_distinct(s.groups[group_id].members),
        amount > 0,
        s.groups[group_id].group.total_paid + amount <= i128::MAX,
        forall|i: int| 0 <= i < s.groups[group_id].members.len() ==> fits_i128(
            balance_or_zero(s.groups[group_id].balances, #[trigger] s.groups[group_id].members[i]@)
                + expense_change(s.groups[group_id].members, payer@, amount as int, i),
        ),
    ensures
        spec_add_expense(s, group_id, payer, amount, description, timestamp, contract_address) is Ok,
        ({
            let g = s.groups[group_id];
            let (s2, t) = spec_add_expense(s, group_id, payer, amount, description, timestamp, contract_address)->Ok_0;
            let g2 = s2.groups[group_id];
            &&& t == (Transfer { token: g.group.token, from: payer, to: contract_address, amount })
            &&& g2.group.total_paid == g.group.total_paid + amount
            &&& g2.payments.len() == g.payments.len() + 1
            &&& g2.payments.last() == (Payment { payer, amount, description, timestamp })
            &&& g2.members == g.members
            &&& forall|i: int| 0 <= i < g.members.len() ==> balance_or_zero(g2.balances, #[trigger] g.members[i]@)
                == balance_or_zero(g.balances, g.members[i]@) + expense_change(g.members, payer@, amount as int, i)
        }),
{
    let g = s.groups[group_id];
    assert(group_state_wf(g));
    assert(is_member(g.members, payer@));
    lemma_expense_books_distinct(g.balances, g.members, payer@, amount as int, g.members.len());
}

/// What the first `k` positions of an expense book on `who`'s balance
/// (more than one position where `who` is listed more than once).
pub open spec fn booked_on(members: Seq<Address>, payer: Seq<char>, amount: int, who: Seq<char>, k: nat) -> int
    decreases k,
{
    if k == 0 {
        0
    } else {
        booked_on(members, payer, amount, who, (k - 1) as nat) + if members[k - 1]@ == who {
            expense_change(members, payer, amount, k - 1)
        } else {
            0
        }
    }
}

proof fn lemma_expense_books(b: Map<Seq<char>, i128>, members: Seq<Address>, payer: Seq<char>, amount: int, k: nat)
    requires
        amount > 0,
        members.len() > 0,
        k <= members.len(),
        forall|j: int| 0 <= j < members.len() ==> fits_i128(
            balance_or_zero(b, #[trigger] members[j]@) + booked_on(members, payer, amount, members[j]@, (j + 1) as nat),
        ),
    ensures
        apply_expense(b, members, payer, amount, k) is Some,
        forall|who: Seq<char>| #[trigger] balance_or_zero(apply_expense(b, members, payer, amount, k)->Some_0, who)
            == balance_or_zero(b, who) + booked_on(members, payer, amount, who, k),
    decreases k,
{
    if k > 0 {
        lemma_expense_books(b, members, payer, amount, (k - 1) as nat);
        lemma_split_bounds(amount, members.len() as int);
        let prev = apply_expense(b, members, payer, amount, (k - 1) as nat)->Some_0;
        let w = members[k - 1]@;
        assert(balance_or_zero(prev, w) == balance_or_zero(b, w) + booked_on(members, payer, amount, w, (k - 1) as nat));
        assert(fits_i128(balance_or_zero(b, members[k - 1]@) + booked_on(members, payer, amount, members[k - 1]@, k)));
        let r = apply_expense(b, members, payer, amount, k)->Some_0;
        assert forall|who: Seq<char>| #[trigger] balance_or_zero(r, who) == balance_or_zero(b, who) + booked_on(
            members,
            payer,
            amount,
            who,
            k,
        ) by {
            assert(balance_or_zero(prev, who) == balance_or_zero(b, who) + booked_on(members, payer, amount, who, (k - 1) as nat));
        }
    }
}

/// An expense of a positive amount, paid by a member of an existing
/// unsettled group, succeeds however many payments the group holds and
/// however often a member is listed, whenever the new total fits in `i128`
/// and every balance stays in `i128` as the positions are booked in order.
/// Each listed address then gains what its positions book on it (see
/// [`booked_on`]); no other balance changes.
pub proof fn law_add_expense_succeeds_any_members(
    s: ContractState,
    group_id: u64,
    payer: Address,
    amount: i128,
    description: String,
    timestamp: u64,
    contract_address: Address,
)
    requires
        s.wf(),
        s.groups.contains_key(group_id),
        !s.groups[group_id].group.is_settled,
        exists|i: int| 0 <= i < s.groups[group_id].members.len() && #[trigger] s.groups[group_id].members[i]@ == payer@,
        amount > 0,
        s.groups[group_id].group.total_paid + amount <= i128::MAX,
        forall|j: int| 0 <= j < s.groups[group_id].members.len() ==> fits_i128(
            balance_or_zero(s.groups[group_id].balances, #[trigger] s.groups[group_id].members[j]@) + booked_on(
                s.groups[group_id].members,
                payer@,
                amount as int,
                s.groups[group_id].members[j]@,
                (j + 1) as nat,
            ),
        ),
    ensures
        spec_add_expense(s, group_id, payer, amount, description, timestamp, contract_address) is Ok,
        ({
            let g = s.groups[group_id];
            let (s2, t) = spec_add_expense(s, group_id, payer, amount, description, timestamp, contract_address)->Ok_0;
            let g2 = s2.groups[group_id];
            &&& t == (Transfer { token: g.group.token, from: payer, to: contract_address, amount })
            &&& g2.group.total_paid == g.group.total_paid + amount
            &&& g2.payments.len() == g.payments.len() + 1
            &&& g2.payments.last() == (Payment { payer, amount, description, timestamp })
            &&& forall|who: Seq<char>| #[trigger] balance_or_zero(g2.balances, who) == balance_or_zero(g.balances, who)
                + booked_on(g.members, payer@, amount as int, who, g.members.len())
        }),
{
    let g = s.groups[group_id];
    assert(group_state_wf(g));
    assert(is_member(g.members, payer@));
    lemma_expense_books(g.balances, g.members, payer@, amount as int, g.members.len());
}

proof fn lemma_settlement_some(
    b: Map<Seq<char>, i128>,
    members: Seq<Address>,
    fair_share: int,
    budget: int,
    token: Address,
    contract_address: Address,
    k: nat,
)
    requires
        k <= members.len(),
        fits_i128(fair_share),
        forall|i: int| 0 <= i < members.len() ==> fits_i128(fair_share + balance_or_zero(b, #[trigger] members[i]@)),
    ensures
        apply_settlement(b, members, fair_share, budget, token, contract_address, k) is Some,
        forall|who: Seq<char>|
            #[trigger] balance_or_zero(apply_settlement(b, members, fair_share, budget, token, contract_address, k)->Some_0.0, who)
                == balance_or_zero(b, who) || balance_or_zero(
                apply_settlement(b, members, fair_share, budget, token, contract_address, k)->Some_0.0,
                who,
            ) == 0,
    decreases k,
{
    if k > 0 {
        lemma_settlement_some(b, members, fair_share, budget, token, contract_address, (k - 1) as nat);
        let prev = apply_settlement(b, members, fair_share, budget, token, contract_address, (k - 1) as nat)->Some_0.0;
        let who = members[k - 1]@;
        assert(balance_or_zero(prev, who) == balance_or_zero(b, who) || balance_or_zero(prev, who) == 0);
        assert(fits_i128(fair_share + balance_or_zero(b, members[k - 1]@)));
        let bk = apply_settlement(b, members, fair_share, budget, token, contract_address, k)->Some_0.0;
        assert(bk == prev.insert(who, 0i128));
        assert forall|x: Seq<char>| #[trigger] balance_or_zero(bk, x) == balance_or_zero(b, x) || balance_or_zero(bk, x) == 0 by {
            if x != who {
                assert(balance_or_zero(prev, x) == balance_or_zero(b, x) || balance_or_zero(prev, x) == 0);
            }
        }
    }
}

/// The payouts a settlement owes when the deposits cover them: every
/// position, in order, whose fair share plus balance is positive gets that
/// amount.
pub open spec fn owed_transfers(
    b: Map<Seq<char>, i128>,
    members: Seq<Address>,
    fair_share: int,
    token: Address,
    contract_address: Address,
    k: nat,
) -> Seq<Transfer>
    decreases k,
{
    if k == 0 {
        Seq::empty()
    } else {
        let prev = owed_transfers(b, members, fair_share, token, contract_address, (k - 1) as nat);
        let p = fair_share + balance_or_zero(b, members[k - 1]@);
        if p > 0 {
            prev.push(Transfer { token, from: contract_address, to: members[k - 1], amount: p as i128 })
        } else {
            prev
        }
    }
}

/// The sum of the positive fair shares plus balances of the first `k`
/// positions.
pub open spec fn owed_total(b: Map<Seq<char>, i128>, members: Seq<Address>, fair_share: int, k: nat) -> int
    decreases k,
{
    if k == 0 {
        0
    } else {
        let p = fair_share + balance_or_zero(b, members[k - 1]@);
        owed_total(b, members, fair_share, (k - 1) as nat) + if p > 0 { p } else { 0 }
    }
}

proof fn lemma_owed_total_monotone(b: Map<Seq<char>, i128>, members: Seq<Address>, fair_share: int, k: nat, n: nat)
    requires
        k <= n <= members.len(),
    ensures
        0 <= owed_total(b, members, fair_share, k) <= owed_total(b, members, fair_share, n),
    decreases n,
{
    if n > k {
        lemma_owed_total_monotone(b, members, fair_share, k, (n - 1) as nat);
    } else if n > 0 {
        lemma_owed_total_monotone(b, members, fair_share, (n - 1) as nat, (n - 1) as nat);
    }
}

proof fn lemma_settlement_owed(
    b: Map<Seq<char>, i128>,
    members: Seq<Address>,
    fair_share: int,
    budget: int,
    token: Address,
    contract_address: Address,
    k: nat,
)
    requires
        members_distinct(members),
        k <= members.len(),
        fits_i128(fair_share),
        forall|i: int| 0 <= i < members.len() ==> fits_i128(fair_share + balance_or_zero(b, #[trigger] members[i]@)),
        owed_total(b, members, fair_share, members.len()) <= budget,
    ensures
        apply_settlement(b, members, fair_share, budget, token, contract_address, k) is Some,
        ({
            let (bk, ts, rest) = apply_settlement(b, members, fair_share, budget, token, contract_address, k)->Some_0;
            &&& forall|i: int| k <= i < members.len() ==> balance_or_zero(bk, #[trigger] members[i]@) == balance_or_zero(b, members[i]@)
            &&& rest == budget - owed_total(b, members, fair_share, k)
            &&& ts == owed_transfers(b, members, fair_share, token, contract_address, k)
        }),
    decreases k,
{
    lemma_settlement_some(b, members, fair_share, budget, token, contract_address, k);
    if k > 0 {
        lemma_settlement_owed(b, members, fair_share, budget, token, contract_address, (k - 1) as nat);
        lemma_owed_total_monotone(b, members, fair_share, k, members.len());
        let (prev, ts, rest) = apply_settlement(b, members, fair_share, budget, token, contract_address, (k - 1) as nat)->Some_0;
        let (bk, ts2, rest2) = apply_settlement(b, members, fair_share, budget, token, contract_address, k)->Some_0;
        let who = members[k - 1];
        assert(balance_or_zero(prev, who@) == balance_or_zero(b, who@));
        assert forall|i: int| k <= i < members.len() implies balance_or_zero(bk, #[trigger] members[i]@) == balance_or_zero(b, members[i]@) by {
            assert(members[i]@ != who@);
        }
    }
}

/// Settling an existing, unsettled group by its creator succeeds whatever
/// the total and the member count, whenever each member's fair share
/// (`total_paid / n`) plus balance fits in `i128`.  The group is then
/// settled with every member's balance at zero, and the payouts, from the
/// contract in the group's token, add up to at most the group's total.
/// Where the members are distinct and the deposits cover what is owed,
/// every member, in order, whose fair share plus balance is positive is
/// paid exactly that.
pub proof fn law_settle_group_succeeds(s: ContractState, group_id: u64, caller: Address, contract_address: Address)
    requires
        s.wf(),
        s.groups.contains_key(group_id),
        !s.groups[group_id].group.is_settled,
        caller@ == s.groups[group_id].group.creator@,
        forall|i: int| 0 <= i < s.groups[group_id].members.len() ==> fits_i128(
            s.groups[group_id].group.total_paid as int / s.groups[group_id].members.len() as int
                + balance_or_zero(s.groups[group_id].balances, #[trigger] s.groups[group_id].members[i]@),
        ),
    ensures
        spec_settle_group(s, group_id, caller, contract_address) is Ok,
        ({
            let g = s.groups[group_id];
            let n = g.members.len() as int;
            let fair = g.group.total_paid as int / n;
            let (s2, ts) = spec_settle_group(s, group_id, caller, contract_address)->Ok_0;
            let g2 = s2.groups[group_id];
            &&& g2.group.is_settled
            &&& g2.members == g.members
            &&& g2.payments == g.payments
            &&& g2.group.total_paid == g.group.total_paid
            &&& forall|i: int| 0 <= i < g.members.len() ==> balance_or_zero(g2.balances, #[trigger] g.members[i]@) == 0
            &&& 0 <= transfer_total(ts, ts.len()) <= g.group.total_paid
            &&& forall|j: int| 0 <= j < ts.len() ==> (#[trigger] ts[j]).from == contract_address && ts[j].token
                == g.group.token && ts[j].amount > 0
            &&& (members_distinct(g.members) && owed_total(g.balances, g.members, fair, g.members.len())
                <= g.group.total_paid ==> ts == owed_transfers(
                g.balances,
                g.members,
                fair,
                g.group.token,
                contract_address,
                g.members.len(),
            ))
        }),
{
    let g = s.groups[group_id];
    let n: int = g.members.len() as int;
    assert(group_state_wf(g));
    let t: int = g.group.total_paid as int;
    vstd::arithmetic::div_mod::lemma_div_pos_is_pos(t, n);
    vstd::arithmetic::div_mod::lemma_div_is_ordered_by_denominator(t, 1, n);
    let fair: int = t / n;
    assert(0 <= fair <= t);
    lemma_settlement_some(g.balances, g.members, fair, t, g.group.token, contract_address, g.members.len());
    law_settlement_clears_balances(s, group_id, caller, contract_address);
    law_settlement_within_deposits(s, group_id, caller, contract_address);
    if members_distinct(g.members) && owed_total(g.balances, g.members, fair, g.members.len()) <= t {
        lemma_settlement_owed(g.balances, g.members, fair, t, g.group.token, contract_address, g.members.len());
    }
}

/// A direct split of a positive amount among a non-empty list of recipients
/// of any length succeeds: one transfer per recipient, in order, from the
/// payer in the given token, each of `amount / n`, the first also
/// `amount % n`, adding up to `amount`.
pub proof fn law_split_payment_succeeds(payer: Address, token: Address, amount: i128, recipients: Seq<Address>)
    requires
        amount > 0,
        recipients.len() > 0,
    ensures
        spec_split_payment(payer, token, amount, recipients) is Ok,
        ({
            let ts = spec_split_payment(payer, token, amount, recipients)->Ok_0;
            let n = recipients.len() as int;
            &&& ts.len() == recipients.len()
            &&& forall|i: int| 0 <= i < ts.len() ==> #[trigger] ts[i] == (Transfer {
                token,
                from: payer,
                to: recipients[i],
                amount: (amount as int / n + if i == 0 { amount as int % n } else { 0 }) as i128,
            })
            &&& transfer_total(ts, ts.len()) == amount
        }),
{
    lemma_split_bounds(amount as int, recipients.len() as int);
    law_split_payment_total(payer, token, amount, recipients);
}

} // verus!
