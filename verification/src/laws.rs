//! Properties of the contract that span operations, proved over the model.

use vstd::prelude::*;
use crate::address::Address;
use crate::balances::balance_or_zero;
use crate::model::{
    ContractState, is_member, expense_delta, apply_expense, apply_settlement, fair_share_of, capped_payout,
    spec_initialize, spec_create_group, spec_add_expense, spec_settle_group, spec_split_payment, split_transfers,
};
use crate::types::{Group, GroupState, Payment, SplitPayError, Transfer, group_state_wf};
use crate::split::{share_of, remainder_of, lemma_split_bounds};

verus! {

/// No address occurs twice in the member list.
pub open spec fn members_distinct(members: Seq<Address>) -> bool {
    forall|i: int, j: int|
        0 <= i < members.len() && 0 <= j < members.len() && i != j ==> #[trigger] members[i]@ != #[trigger] members[j]@
}

/// The sum of the balances of the first `k` member positions.
pub open spec fn balance_total(b: Map<Seq<char>, i128>, members: Seq<Address>, k: nat) -> int
    decreases k,
{
    if k == 0 {
        0
    } else {
        balance_total(b, members, (k - 1) as nat) + balance_or_zero(b, members[k - 1]@)
    }
}

/// The sum of what an expense changes at the first `k` member positions.
pub open spec fn delta_total(members: Seq<Address>, payer: Seq<char>, amount: int, k: nat) -> int
    decreases k,
{
    if k == 0 {
        0
    } else {
        delta_total(members, payer, amount, (k - 1) as nat) + expense_delta(members, payer, amount, k - 1)
    }
}

/// How many of the first `k` member positions hold `who`.
pub open spec fn occurrences(members: Seq<Address>, who: Seq<char>, k: nat) -> nat
    decreases k,
{
    if k == 0 {
        0
    } else {
        occurrences(members, who, (k - 1) as nat) + if members[k - 1]@ == who { 1nat } else { 0nat }
    }
}

proof fn lemma_total_insert(b: Map<Seq<char>, i128>, members: Seq<Address>, k: nat, j: int, v: i128)
    requires
        members_distinct(members),
        k <= members.len(),
        0 <= j < members.len(),
    ensures
        balance_total(b.insert(members[j]@, v), members, k) == balance_total(b, members, k) + if j < k {
            v - balance_or_zero(b, members[j]@)
        } else {
            0
        },
    decreases k,
{
    if k > 0 {
        lemma_total_insert(b, members, (k - 1) as nat, j, v);
        if k - 1 != j {
            assert(members[k - 1]@ != members[j]@);
        }
    }
}

pub(crate) proof fn lemma_occurrences_distinct(members: Seq<Address>, who: Seq<char>, k: nat)
    requires
        members_distinct(members),
        k <= members.len(),
    ensures
        occurrences(members, who, k) == if exists|i: int| 0 <= i < k && #[trigger] members[i]@ == who { 1nat } else { 0nat },
    decreases k,
{
    if k > 0 {
        lemma_occurrences_distinct(members, who, (k - 1) as nat);
        if members[k - 1]@ == who {
            assert forall|i: int| 0 <= i < k - 1 implies #[trigger] members[i]@ != who by {
                assert(members[i]@ != members[k - 1]@);
            }
        } else {
            if exists|i: int| 0 <= i < k && #[trigger] members[i]@ == who {
                let i: int = choose|i: int| 0 <= i < k && #[trigger] members[i]@ == who;
                assert(i < k - 1);
            }
        }
    }
}

proof fn lemma_delta_total_closed(members: Seq<Address>, payer: Seq<char>, amount: int, k: nat)
    requires
        amount > 0,
        members.len() > 0,
        k <= members.len(),
    ensures
        delta_total(members, payer, amount, k) == amount * occurrences(members, payer, k) - k * share_of(
            amount,
            members.len() as int,
        ) - if k > 0 { remainder_of(amount, members.len() as int) } else { 0 },
    decreases k,
{
    if k > 0 {
        lemma_delta_total_closed(members, payer, amount, (k - 1) as nat);
        let n: int = members.len() as int;
        let share: int = share_of(amount, n);
        let rem: int = remainder_of(amount, n);
        let c: nat = occurrences(members, payer, (k - 1) as nat);
        let km: int = k - 1;
        assert(k * share == km * share + share) by (nonlinear_arith)
            requires
                km == k - 1,
        ;
        assert(amount * (c + 1) == amount * c + amount) by (nonlinear_arith);
        let prev: int = delta_total(members, payer, amount, (k - 1) as nat);
        assert(prev == amount * c - km * share - if km > 0 { rem } else { 0 });
        let extra: int = if km == 0 { rem } else { 0 };
        if members[km]@ == payer {
            assert(occurrences(members, payer, k) == c + 1);
            assert(expense_delta(members, payer, amount, km) == amount - share - extra);
        } else {
            assert(occurrences(members, payer, k) == c);
            assert(expense_delta(members, payer, amount, km) == -(share + extra));
        }
    } else {
        assert(amount * 0 == 0);
        assert(0 * share_of(amount, members.len() as int) == 0);
    }
}

/// An expense booked on a group whose members are distinct, and which
/// counts the payer among them, changes the members' balances by amounts
/// that add up to zero.
pub proof fn lemma_expense_deltas_cancel(members: Seq<Address>, payer: Seq<char>, amount: int)
    requires
        amount > 0,
        members_distinct(members),
        is_member(members, payer),
    ensures
        delta_total(members, payer, amount, members.len()) == 0,
{
    let n: int = members.len() as int;
    lemma_delta_total_closed(members, payer, amount, members.len());
    lemma_occurrences_distinct(members, payer, members.len());
    lemma_split_bounds(amount, n);
    assert(is_member(members, payer));
    let i: int = choose|i: int| 0 <= i < members.len() && #[trigger] members[i]@ == payer;
    assert(exists|i: int| 0 <= i < members.len() && #[trigger] members[i]@ == payer);
    assert(occurrences(members, payer, members.len()) == 1);
    assert(amount * 1 == amount);
    assert(n * share_of(amount, n) == share_of(amount, n) * n) by (nonlinear_arith);
}

/// With distinct members, booking an expense on the first `k` positions
/// changes exactly those positions' balances, each by its own delta.
pub proof fn lemma_apply_expense_distinct(
    b: Map<Seq<char>, i128>,
    members: Seq<Address>,
    payer: Seq<char>,
    amount: int,
    k: nat,
)
    requires
        members_distinct(members),
        k <= members.len(),
        apply_expense(b, members, payer, amount, k) is Some,
    ensures
        forall|i: int| 0 <= i < members.len() ==>
            balance_or_zero(apply_expense(b, members, payer, amount, k)->Some_0, #[trigger] members[i]@)
                == balance_or_zero(b, members[i]@) + if i < k { expense_delta(members, payer, amount, i) } else { 0 },
        balance_total(apply_expense(b, members, payer, amount, k)->Some_0, members, members.len())
            == balance_total(b, members, members.len()) + delta_total(members, payer, amount, k),
        forall|i: int| 0 <= i < k ==> apply_expense(b, members, payer, amount, k)->Some_0.contains_key(
            #[trigger] members[i]@,
        ),
        forall|who: Seq<char>| !is_member(members, who) ==> {
            let r = apply_expense(b, members, payer, amount, k)->Some_0;
            &&& r.contains_key(who) == b.contains_key(who)
            &&& (b.contains_key(who) ==> r[who] == b[who])
        },
    decreases k,
{
    if k > 0 {
        let prev = apply_expense(b, members, payer, amount, (k - 1) as nat)->Some_0;
        lemma_apply_expense_distinct(b, members, payer, amount, (k - 1) as nat);
        let who = members[k - 1]@;
        let v: i128 = (balance_or_zero(prev, who) + expense_delta(members, payer, amount, k - 1)) as i128;
        lemma_total_insert(prev, members, members.len(), k - 1, v);
        assert forall|i: int| 0 <= i < members.len() implies
            balance_or_zero(prev.insert(who, v), #[trigger] members[i]@)
                == balance_or_zero(b, members[i]@) + if i < k { expense_delta(members, payer, amount, i) } else { 0 } by {
            if i != k - 1 {
                assert(members[i]@ != members[k - 1]@);
            }
        }
        assert forall|who: Seq<char>| !is_member(members, who) implies who != members[k - 1]@ by {
            if who == members[k - 1]@ {
                assert(is_member(members, who));
            }
        }
    }
}

/// Two expenses booked one after the other on a group whose members are
/// distinct give the same group, members and balances in either order;
/// only the order of the two payment records differs.  (Where one order
/// overflows and the other does not, the premise fails.)
pub proof fn law_expenses_commute(
    s: ContractState,
    group_id: u64,
    payer1: Address,
    amount1: i128,
    description1: String,
    timestamp1: u64,
    payer2: Address,
    amount2: i128,
    description2: String,
    timestamp2: u64,
    contract_address: Address,
)
    requires
        members_distinct(s.groups[group_id].members),
        spec_add_expense(s, group_id, payer1, amount1, description1, timestamp1, contract_address) is Ok,
        spec_add_expense(s, group_id, payer2, amount2, description2, timestamp2, contract_address) is Ok,
        spec_add_expense(
            spec_add_expense(s, group_id, payer1, amount1, description1, timestamp1, contract_address)->Ok_0.0,
            group_id,
            payer2,
            amount2,
            description2,
            timestamp2,
            contract_address,
        ) is Ok,
        spec_add_expense(
            spec_add_expense(s, group_id, payer2, amount2, description2, timestamp2, contract_address)->Ok_0.0,
            group_id,
            payer1,
            amount1,
            description1,
            timestamp1,
            contract_address,
        ) is Ok,
    ensures
        ({
            let s1 = spec_add_expense(s, group_id, payer1, amount1, description1, timestamp1, contract_address)->Ok_0.0;
            let s2 = spec_add_expense(s, group_id, payer2, amount2, description2, timestamp2, contract_address)->Ok_0.0;
            let s12 = spec_add_expense(s1, group_id, payer2, amount2, description2, timestamp2, contract_address)->Ok_0.0;
            let s21 = spec_add_expense(s2, group_id, payer1, amount1, description1, timestamp1, contract_address)->Ok_0.0;
            let p1 = Payment { payer: payer1, amount: amount1, description: description1, timestamp: timestamp1 };
            let p2 = Payment { payer: payer2, amount: amount2, description: description2, timestamp: timestamp2 };
            let g = s.groups[group_id];
            &&& s12.groups[group_id].group == s21.groups[group_id].group
            &&& s12.groups[group_id].members == s21.groups[group_id].members
            &&& s12.groups[group_id].balances == s21.groups[group_id].balances
            &&& s12.groups[group_id].payments == g.payments.push(p1).push(p2)
            &&& s21.groups[group_id].payments == g.payments.push(p2).push(p1)
            &&& s12.groups.remove(group_id) == s21.groups.remove(group_id)
            &&& s12.admin == s21.admin
            &&& s12.group_count == s21.group_count
        }),
{
    let g = s.groups[group_id];
    let m = g.members;
    let b = g.balances;
    let s1 = spec_add_expense(s, group_id, payer1, amount1, description1, timestamp1, contract_address)->Ok_0.0;
    let s2 = spec_add_expense(s, group_id, payer2, amount2, description2, timestamp2, contract_address)->Ok_0.0;
    let s12 = spec_add_expense(s1, group_id, payer2, amount2, description2, timestamp2, contract_address)->Ok_0.0;
    let s21 = spec_add_expense(s2, group_id, payer1, amount1, description1, timestamp1, contract_address)->Ok_0.0;
    let b1 = s1.groups[group_id].balances;
    let b2 = s2.groups[group_id].balances;
    let b12 = s12.groups[group_id].balances;
    let b21 = s21.groups[group_id].balances;
    lemma_apply_expense_distinct(b, m, payer1@, amount1 as int, m.len());
    lemma_apply_expense_distinct(b, m, payer2@, amount2 as int, m.len());
    lemma_apply_expense_distinct(b1, m, payer2@, amount2 as int, m.len());
    lemma_apply_expense_distinct(b2, m, payer1@, amount1 as int, m.len());
    assert forall|who: Seq<char>| #[trigger] b12.contains_key(who) == b21.contains_key(who) && (b12.contains_key(who) ==> b12[who] == b21[who]) by {
        if is_member(m, who) {
            let i: int = choose|i: int| 0 <= i < m.len() && #[trigger] m[i]@ == who;
            assert(b12.contains_key(m[i]@));
            assert(b21.contains_key(m[i]@));
            assert(balance_or_zero(b12, m[i]@) == balance_or_zero(b21, m[i]@));
        }
    }
    assert(b12 =~= b21);
    assert(s12.groups.remove(group_id) =~= s21.groups.remove(group_id));
}

/// The sum of the amounts of the first `k` transfers.
pub open spec fn transfer_total(ts: Seq<Transfer>, k: nat) -> int
    decreases k,
{
    if k == 0 {
        0
    } else {
        transfer_total(ts, (k - 1) as nat) + ts[k - 1].amount
    }
}

/// The sum of the members' balances in a group.
pub open spec fn group_balance_total(g: GroupState) -> int {
    balance_total(g.balances, g.members, g.members.len())
}

/// Every group whose members are distinct has balances summing to zero.
pub open spec fn balances_conserved(s: ContractState) -> bool {
    forall|id: u64| #[trigger] s.groups.contains_key(id) && members_distinct(s.groups[id].members)
        ==> group_balance_total(s.groups[id]) == 0
}

/// Booking an expense on a group whose members are distinct changes each
/// member's balance by its own share of the expense (the payer is credited
/// the amount less its share, everyone else is debited its share, the first
/// member also the remainder), and leaves the sum of the balances unchanged.
pub proof fn law_expense_booking(
    s: ContractState,
    group_id: u64,
    payer: Address,
    amount: i128,
    description: String,
    timestamp: u64,
    contract_address: Address,
)
    requires
        spec_add_expense(s, group_id, payer, amount, description, timestamp, contract_address) is Ok,
        members_distinct(s.groups[group_id].members),
    ensures
        ({
            let g = s.groups[group_id];
            let g2 = spec_add_expense(s, group_id, payer, amount, description, timestamp, contract_address)->Ok_0.0.groups[group_id];
            &&& g2.members == g.members
            &&& forall|i: int| 0 <= i < g.members.len() ==>
                balance_or_zero(g2.balances, #[trigger] g.members[i]@)
                    == balance_or_zero(g.balances, g.members[i]@) + expense_delta(g.members, payer@, amount as int, i)
            &&& group_balance_total(g2) == group_balance_total(g)
        }),
{
    let g = s.groups[group_id];
    lemma_apply_expense_distinct(g.balances, g.members, payer@, amount as int, g.members.len());
    lemma_expense_deltas_cancel(g.members, payer@, amount as int);
}

proof fn lemma_zero_total(b: Map<Seq<char>, i128>, members: Seq<Address>, k: nat)
    requires
        k <= members.len(),
        forall|i: int| 0 <= i < members.len() ==> balance_or_zero(b, #[trigger] members[i]@) == 0,
    ensures
        balance_total(b, members, k) == 0,
    decreases k,
{
    if k > 0 {
        lemma_zero_total(b, members, (k - 1) as nat);
    }
}

proof fn lemma_settlement_zeroes(
    b: Map<Seq<char>, i128>,
    members: Seq<Address>,
    fair_share: int,
    budget: int,
    token: Address,
    contract_address: Address,
    k: nat,
)
    requires
        k <= members.len(),
        apply_settlement(b, members, fair_share, budget, token, contract_address, k) is Some,
    ensures
        forall|i: int| 0 <= i < k ==>
            balance_or_zero(apply_settlement(b, members, fair_share, budget, token, contract_address, k)->Some_0.0, #[trigger] members[i]@) == 0,
    decreases k,
{
    if k > 0 {
        lemma_settlement_zeroes(b, members, fair_share, budget, token, contract_address, (k - 1) as nat);
    }
}

/// A successful settlement marks the group settled and leaves every
/// member's balance at zero; members and payment history stay as they were.
pub proof fn law_settlement_clears_balances(s: ContractState, group_id: u64, caller: Address, contract_address: Address)
    requires
        spec_settle_group(s, group_id, caller, contract_address) is Ok,
    ensures
        ({
            let g = s.groups[group_id];
            let g2 = spec_settle_group(s, group_id, caller, contract_address)->Ok_0.0.groups[group_id];
            &&& g2.group.is_settled
            &&& g2.members == g.members
            &&& g2.payments == g.payments
            &&& forall|i: int| 0 <= i < g2.members.len() ==> balance_or_zero(g2.balances, #[trigger] g2.members[i]@) == 0
            &&& group_balance_total(g2) == 0
        }),
{
    let g = s.groups[group_id];
    lemma_settlement_zeroes(
        g.balances,
        g.members,
        fair_share_of(g),
        g.group.total_paid as int,
        g.group.token,
        contract_address,
        g.members.len(),
    );
    let g2 = spec_settle_group(s, group_id, caller, contract_address)->Ok_0.0.groups[group_id];
    lemma_zero_total(g2.balances, g2.members, g2.members.len());
}

/// A newly created group starts with a zero balance for every member.
pub proof fn law_new_group_balances_zero(
    s: ContractState,
    creator: Address,
    name: String,
    token: Address,
    members: Seq<Address>,
)
    requires
        spec_create_group(s, creator, name, token, members) is Ok,
    ensures
        ({
            let (s2, id) = spec_create_group(s, creator, name, token, members)->Ok_0;
            &&& forall|i: int| 0 <= i < members.len() ==> balance_or_zero(s2.groups[id].balances, #[trigger] members[i]@) == 0
            &&& group_balance_total(s2.groups[id]) == 0
        }),
{
    let (s2, id) = spec_create_group(s, creator, name, token, members)->Ok_0;
    assert forall|i: int| 0 <= i < members.len() implies balance_or_zero(s2.groups[id].balances, #[trigger] members[i]@) == 0 by {
        assert(is_member(members, members[i]@));
    }
    lemma_zero_total(s2.groups[id].balances, members, members.len());
}

/// Every operation keeps the balances of each group with distinct members
/// summing to zero.
pub proof fn law_operations_conserve_balances(s: ContractState)
    requires
        balances_conserved(s),
    ensures
        forall|admin: Address| #[trigger] spec_initialize(s, admin) is Ok ==> balances_conserved(spec_initialize(s, admin)->Ok_0),
        forall|creator: Address, name: String, token: Address, members: Seq<Address>|
            #[trigger] spec_create_group(s, creator, name, token, members) is Ok ==> balances_conserved(
                spec_create_group(s, creator, name, token, members)->Ok_0.0,
            ),
        forall|group_id: u64, payer: Address, amount: i128, description: String, timestamp: u64, contract_address: Address|
            #[trigger] spec_add_expense(s, group_id, payer, amount, description, timestamp, contract_address) is Ok
                ==> balances_conserved(
                spec_add_expense(s, group_id, payer, amount, description, timestamp, contract_address)->Ok_0.0,
            ),
        forall|group_id: u64, caller: Address, contract_address: Address|
            #[trigger] spec_settle_group(s, group_id, caller, contract_address) is Ok ==> balances_conserved(
                spec_settle_group(s, group_id, caller, contract_address)->Ok_0.0,
            ),
{
    assert forall|creator: Address, name: String, token: Address, members: Seq<Address>|
        #[trigger] spec_create_group(s, creator, name, token, members) is Ok implies balances_conserved(
            spec_create_group(s, creator, name, token, members)->Ok_0.0,
        ) by {
        law_new_group_balances_zero(s, creator, name, token, members);
    }
    assert forall|group_id: u64, payer: Address, amount: i128, description: String, timestamp: u64, contract_address: Address|
        #[trigger] spec_add_expense(s, group_id, payer, amount, description, timestamp, contract_address) is Ok
        implies balances_conserved(
        spec_add_expense(s, group_id, payer, amount, description, timestamp, contract_address)->Ok_0.0,
    ) by {
        if members_distinct(s.groups[group_id].members) {
            law_expense_booking(s, group_id, payer, amount, description, timestamp, contract_address);
        }
    }
    assert forall|group_id: u64, caller: Address, contract_address: Address|
        #[trigger] spec_settle_group(s, group_id, caller, contract_address) is Ok implies balances_conserved(
            spec_settle_group(s, group_id, caller, contract_address)->Ok_0.0,
        ) by {
        law_settlement_clears_balances(s, group_id, caller, contract_address);
    }
}

pub(crate) proof fn lemma_transfer_total_push(ts: Seq<Transfer>, t: Transfer)
    ensures
        transfer_total(ts.push(t), ts.len() + 1) == transfer_total(ts, ts.len()) + t.amount,
{
    lemma_transfer_total_prefix(ts.push(t), ts, ts.len());
}

pub(crate) proof fn lemma_transfer_total_prefix(long: Seq<Transfer>, short: Seq<Transfer>, k: nat)
    requires
        k <= short.len(),
        short.len() <= long.len(),
        forall|j: int| 0 <= j < short.len() ==> long[j] == short[j],
    ensures
        transfer_total(long, k) == transfer_total(short, k),
    decreases k,
{
    if k > 0 {
        lemma_transfer_total_prefix(long, short, (k - 1) as nat);
    }
}

proof fn lemma_settlement_budget(
    b: Map<Seq<char>, i128>,
    members: Seq<Address>,
    fair_share: int,
    budget: int,
    token: Address,
    contract_address: Address,
    k: nat,
)
    requires
        budget >= 0,
        k <= members.len(),
        apply_settlement(b, members, fair_share, budget, token, contract_address, k) is Some,
    ensures
        ({
            let (bk, ts, rest) = apply_settlement(b, members, fair_share, budget, token, contract_address, k)->Some_0;
            &&& 0 <= rest <= budget
            &&& transfer_total(ts, ts.len()) == budget - rest
            &&& forall|j: int| 0 <= j < ts.len() ==> (#[trigger] ts[j]).token == token && ts[j].from == contract_address
                && ts[j].amount > 0
        }),
    decreases k,
{
    if k > 0 {
        lemma_settlement_budget(b, members, fair_share, budget, token, contract_address, (k - 1) as nat);
        let (prev, ts, rest) = apply_settlement(b, members, fair_share, budget, token, contract_address, (k - 1) as nat)->Some_0;
        let who = members[k - 1];
        let payout: int = fair_share + balance_or_zero(prev, who@);
        let paid: int = capped_payout(payout, rest);
        if paid > 0 {
            lemma_transfer_total_push(ts, Transfer { token, from: contract_address, to: who, amount: paid as i128 });
        }
    }
}

/// A settlement pays out of the group's own deposits only: its transfers,
/// each from the contract in the group's token and of a positive amount,
/// add up to no more than what the group took in.
pub proof fn law_settlement_within_deposits(s: ContractState, group_id: u64, caller: Address, contract_address: Address)
    requires
        s.wf(),
        spec_settle_group(s, group_id, caller, contract_address) is Ok,
    ensures
        ({
            let g = s.groups[group_id];
            let ts = spec_settle_group(s, group_id, caller, contract_address)->Ok_0.1;
            &&& 0 <= transfer_total(ts, ts.len()) <= g.group.total_paid
            &&& forall|j: int| 0 <= j < ts.len() ==> (#[trigger] ts[j]).token == g.group.token
                && ts[j].from == contract_address && ts[j].amount > 0
        }),
{
    let g = s.groups[group_id];
    lemma_settlement_budget(
        g.balances,
        g.members,
        fair_share_of(g),
        g.group.total_paid as int,
        g.group.token,
        contract_address,
        g.members.len(),
    );
}

/// The sum of the fair share plus balance of the first `k` member
/// positions.
pub open spec fn payout_sum(b: Map<Seq<char>, i128>, members: Seq<Address>, fair_share: int, k: nat) -> int
    decreases k,
{
    if k == 0 {
        0
    } else {
        payout_sum(b, members, fair_share, (k - 1) as nat) + fair_share + balance_or_zero(b, members[k - 1]@)
    }
}

proof fn lemma_payout_sum_closed(b: Map<Seq<char>, i128>, members: Seq<Address>, fair_share: int, k: nat)
    requires
        k <= members.len(),
    ensures
        payout_sum(b, members, fair_share, k) == k * fair_share + balance_total(b, members, k),
    decreases k,
{
    if k > 0 {
        lemma_payout_sum_closed(b, members, fair_share, (k - 1) as nat);
        let km: int = k - 1;
        assert(k * fair_share == km * fair_share + fair_share) by (nonlinear_arith)
            requires
                km == k - 1,
        ;
    } else {
        assert(0 * fair_share == 0);
    }
}

proof fn lemma_payout_sum_monotone(b: Map<Seq<char>, i128>, members: Seq<Address>, fair_share: int, k: nat, n: nat)
    requires
        k <= n <= members.len(),
        forall|i: int| 0 <= i < members.len() ==> fair_share + balance_or_zero(b, #[trigger] members[i]@) >= 0,
    ensures
        payout_sum(b, members, fair_share, k) <= payout_sum(b, members, fair_share, n),
    decreases n - k,
{
    if k < n {
        lemma_payout_sum_monotone(b, members, fair_share, (k + 1) as nat, n);
        assert(fair_share + balance_or_zero(b, members[k as int]@) >= 0);
    }
}

/// With distinct members, no negative fair share plus balance and enough
/// deposits for all of them, the deposits never run short: position `i` is
/// paid exactly its fair share plus its balance.
proof fn lemma_settlement_uncapped(
    b: Map<Seq<char>, i128>,
    members: Seq<Address>,
    fair_share: int,
    budget: int,
    token: Address,
    contract_address: Address,
    k: nat,
)
    requires
        members_distinct(members),
        k <= members.len(),
        forall|i: int| 0 <= i < members.len() ==> fair_share + balance_or_zero(b, #[trigger] members[i]@) >= 0,
        payout_sum(b, members, fair_share, members.len()) <= budget,
        apply_settlement(b, members, fair_share, budget, token, contract_address, k) is Some,
    ensures
        ({
            let (bk, ts, rest) = apply_settlement(b, members, fair_share, budget, token, contract_address, k)->Some_0;
            &&& forall|i: int| k <= i < members.len() ==> balance_or_zero(bk, #[trigger] members[i]@) == balance_or_zero(b, members[i]@)
            &&& rest == budget - payout_sum(b, members, fair_share, k)
            &&& transfer_total(ts, ts.len()) == payout_sum(b, members, fair_share, k)
        }),
    decreases k,
{
    if k > 0 {
        lemma_settlement_uncapped(b, members, fair_share, budget, token, contract_address, (k - 1) as nat);
        lemma_payout_sum_monotone(b, members, fair_share, k, members.len());
        let (prev, ts, rest) = apply_settlement(b, members, fair_share, budget, token, contract_address, (k - 1) as nat)->Some_0;
        let (bk, ts2, rest2) = apply_settlement(b, members, fair_share, budget, token, contract_address, k)->Some_0;
        let who = members[k - 1];
        assert forall|i: int| k <= i < members.len() implies balance_or_zero(bk, #[trigger] members[i]@) == balance_or_zero(b, members[i]@) by {
            assert(members[i]@ != who@);
        }
        let payout: int = fair_share + balance_or_zero(prev, who@);
        assert(payout >= 0);
        if payout > 0 {
            lemma_transfer_total_push(ts, Transfer { token, from: contract_address, to: who, amount: payout as i128 });
        }
    }
}

/// Settling a well-formed group whose members are distinct, whose balances
/// sum to zero (as every operation keeps them) and in which no member's fair
/// share plus balance is negative pays every member exactly that amount;
/// in all `n` times the fair share, which is the group's total less only
/// the rounding remainder (fewer than `n` units).
pub proof fn law_settlement_within_total(s: ContractState, group_id: u64, caller: Address, contract_address: Address)
    requires
        s.wf(),
        spec_settle_group(s, group_id, caller, contract_address) is Ok,
        members_distinct(s.groups[group_id].members),
        group_balance_total(s.groups[group_id]) == 0,
        forall|i: int| 0 <= i < s.groups[group_id].members.len() ==>
            fair_share_of(s.groups[group_id]) + balance_or_zero(s.groups[group_id].balances, #[trigger] s.groups[group_id].members[i]@) >= 0,
    ensures
        ({
            let g = s.groups[group_id];
            let n = g.members.len() as int;
            let ts = spec_settle_group(s, group_id, caller, contract_address)->Ok_0.1;
            &&& transfer_total(ts, ts.len()) == n * fair_share_of(g)
            &&& g.group.total_paid - n < transfer_total(ts, ts.len()) <= g.group.total_paid
        }),
{
    let g = s.groups[group_id];
    let n: int = g.members.len() as int;
    assert(group_state_wf(g));
    let t: int = g.group.total_paid as int;
    vstd::arithmetic::div_mod::lemma_fundamental_div_mod(t, n);
    vstd::arithmetic::div_mod::lemma_mod_pos_bound(t, n);
    lemma_payout_sum_closed(g.balances, g.members, fair_share_of(g), g.members.len());
    assert(n * fair_share_of(g) <= t);
    lemma_settlement_uncapped(
        g.balances,
        g.members,
        fair_share_of(g),
        t,
        g.group.token,
        contract_address,
        g.members.len(),
    );
}

pub(crate) proof fn lemma_split_total(payer: Address, token: Address, amount: int, recipients: Seq<Address>, k: nat)
    requires
        k <= recipients.len(),
        0 < amount <= i128::MAX,
    ensures
        transfer_total(split_transfers(payer, token, amount, recipients), k) == k * share_of(
            amount,
            recipients.len() as int,
        ) + if k > 0 { remainder_of(amount, recipients.len() as int) } else { 0 },
    decreases k,
{
    let n: int = recipients.len() as int;
    if k > 0 {
        lemma_split_bounds(amount, n);
        lemma_split_total(payer, token, amount, recipients, (k - 1) as nat);
        let km: int = k - 1;
        let share: int = share_of(amount, n);
        assert(k * share == km * share + share) by (nonlinear_arith)
            requires
                km == k - 1,
        ;
    } else {
        assert(0 * share_of(amount, n) == 0);
    }
}

/// A direct split hands out exactly the amount: one transfer per recipient,
/// in order, each from the payer in the given token, adding up to `amount`.
pub proof fn law_split_payment_total(payer: Address, token: Address, amount: i128, recipients: Seq<Address>)
    requires
        spec_split_payment(payer, token, amount, recipients) is Ok,
    ensures
        ({
            let ts = spec_split_payment(payer, token, amount, recipients)->Ok_0;
            &&& ts.len() == recipients.len()
            &&& forall|i: int| 0 <= i < ts.len() ==> (#[trigger] ts[i]).to == recipients[i] && ts[i].from == payer
                && ts[i].token == token
            &&& transfer_total(ts, ts.len()) == amount
        }),
{
    let n: int = recipients.len() as int;
    lemma_split_total(payer, token, amount as int, recipients, recipients.len());
    lemma_split_bounds(amount as int, n);
    assert(n * share_of(amount as int, n) == share_of(amount as int, n) * n) by (nonlinear_arith);
    let ts = split_transfers(payer, token, amount as int, recipients);
    assert forall|i: int| 0 <= i < ts.len() implies #[trigger] ts[i].amount == share_of(amount as int, n) + if i == 0 {
        remainder_of(amount as int, n)
    } else {
        0
    } by {
    }
}

/// The contract can be initialized only once; initializing keeps the group
/// counter where it was (zero on a fresh contract) and touches no group.
pub proof fn law_initialize_once(s: ContractState, admin: Address, other: Address)
    requires
        spec_initialize(s, admin) is Ok,
    ensures
        ({
            let s2 = spec_initialize(s, admin)->Ok_0;
            &&& s2.admin == Some(admin)
            &&& s2.next_group_id() == s.next_group_id()
            &&& s2.groups == s.groups
            &&& spec_initialize(s2, other) == Err::<ContractState, SplitPayError>(SplitPayError::AlreadyInitialized)
        }),
{
}

/// Creating a group returns the current counter as the new id, advances
/// the counter by one, and stores the group under that id as described,
/// with no payments; every other group stays as it was.
pub proof fn law_create_group_stores_group(
    s: ContractState,
    creator: Address,
    name: String,
    token: Address,
    members: Seq<Address>,
)
    requires
        spec_create_group(s, creator, name, token, members) is Ok,
    ensures
        ({
            let (s2, id) = spec_create_group(s, creator, name, token, members)->Ok_0;
            &&& id == s.next_group_id()
            &&& s2.next_group_id() == id + 1
            &&& s2.admin == s.admin
            &&& s2.groups.contains_key(id)
            &&& s2.groups[id].group == (Group {
                id,
                name,
                creator,
                token,
                total_members: members.len() as u32,
                total_paid: 0,
                is_settled: false,
            })
            &&& s2.groups[id].members == members
            &&& s2.groups[id].payments == Seq::<Payment>::empty()
            &&& forall|other: u64| other != id ==> (#[trigger] s2.groups.contains_key(other) == s.groups.contains_key(other)
                && (s.groups.contains_key(other) ==> s2.groups[other] == s.groups[other]))
        }),
{
}

/// A booked expense adds its amount to the group's total, appends exactly
/// one payment record, asks for the amount to move from the payer to the
/// contract in the group's token, and touches no other group.
pub proof fn law_expense_recorded(
    s: ContractState,
    group_id: u64,
    payer: Address,
    amount: i128,
    description: String,
    timestamp: u64,
    contract_address: Address,
)
    requires
        spec_add_expense(s, group_id, payer, amount, description, timestamp, contract_address) is Ok,
    ensures
        ({
            let g = s.groups[group_id];
            let (s2, t) = spec_add_expense(s, group_id, payer, amount, description, timestamp, contract_address)->Ok_0;
            let g2 = s2.groups[group_id];
            &&& amount > 0
            &&& g2.group.total_paid == g.group.total_paid + amount
            &&& g2.group.is_settled == false
            &&& g2.payments == g.payments.push(Payment { payer, amount, description, timestamp })
            &&& t == (Transfer { token: g.group.token, from: payer, to: contract_address, amount })
            &&& forall|other: u64| other != group_id ==> (#[trigger] s2.groups.contains_key(other) == s.groups.contains_key(other)
                && (s.groups.contains_key(other) ==> s2.groups[other] == s.groups[other]))
        }),
{
}

/// A settled group accepts neither another expense nor another settlement.
pub proof fn law_settled_group_is_final(
    s: ContractState,
    group_id: u64,
    payer: Address,
    amount: i128,
    description: String,
    timestamp: u64,
    caller: Address,
    contract_address: Address,
)
    requires
        s.groups.contains_key(group_id),
        s.groups[group_id].group.is_settled,
        amount > 0,
    ensures
        spec_add_expense(s, group_id, payer, amount, description, timestamp, contract_address) is Err,
        spec_add_expense(s, group_id, payer, amount, description, timestamp, contract_address)->Err_0
            == SplitPayError::GroupAlreadySettled,
        spec_settle_group(s, group_id, caller, contract_address) is Err,
        spec_settle_group(s, group_id, caller, contract_address)->Err_0 == SplitPayError::GroupAlreadySettled,
{
}

} // verus!
