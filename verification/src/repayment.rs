//! How balances follow the payment history, and what settling a group whose
//! expenses split evenly pays back.

use vstd::prelude::*;
use crate::address::Address;
use crate::balances::balance_or_zero;
use crate::history::{Operation, step, run, fresh};
use crate::laws::{
    members_distinct, occurrences, lemma_occurrences_distinct, lemma_apply_expense_distinct, transfer_total,
    lemma_transfer_total_push,
};
use crate::model::{ContractState, apply_settlement, fair_share_of, spec_create_group, spec_add_expense, spec_settle_group};
use crate::split::{share_of, remainder_of, lemma_split_bounds};
use crate::types::{GroupState, Payment, Transfer, is_member, payments_total, group_state_wf};

verus! {

/// What `who` has paid into the group.
pub open spec fn paid_by(ps: Seq<Payment>, who: Seq<char>) -> int
    decreases ps.len(),
{
    if ps.len() == 0 {
        0
    } else {
        paid_by(ps.drop_last(), who) + if ps.last().payer@ == who { ps.last().amount as int } else { 0 }
    }
}

/// The sum of every expense's equal share among `n` members.
pub open spec fn shares_sum(ps: Seq<Payment>, n: int) -> int
    decreases ps.len(),
{
    if ps.len() == 0 {
        0
    } else {
        shares_sum(ps.drop_last(), n) + share_of(ps.last().amount as int, n)
    }
}

/// The sum of every expense's rounding remainder among `n` members.
pub open spec fn remainders_sum(ps: Seq<Payment>, n: int) -> int
    decreases ps.len(),
{
    if ps.len() == 0 {
        0
    } else {
        remainders_sum(ps.drop_last(), n) + remainder_of(ps.last().amount as int, n)
    }
}

/// In an unsettled group with distinct members, every member's balance is
/// what it paid less the sum of the equal shares, the first member also
/// bearing every remainder.
pub open spec fn balances_track_payments(g: GroupState) -> bool {
    members_distinct(g.members) && !g.group.is_settled ==> forall|i: int| 0 <= i < g.members.len() ==>
        balance_or_zero(g.balances, #[trigger] g.members[i]@) == paid_by(g.payments, g.members[i]@)
            - shares_sum(g.payments, g.members.len() as int) - if i == 0 {
            remainders_sum(g.payments, g.members.len() as int)
        } else {
            0
        }
}

/// Every stored group's balances follow its payment history.
pub open spec fn ledger_consistent(s: ContractState) -> bool {
    forall|id: u64| #[trigger] s.groups.contains_key(id) ==> balances_track_payments(s.groups[id])
}

/// Every call keeps the balances following the payment history.
pub proof fn law_step_keeps_ledger(s: ContractState, op: Operation)
    requires
        s.wf(),
        ledger_consistent(s),
    ensures
        ledger_consistent(step(s, op)),
{
    let s2 = step(s, op);
    match op {
        Operation::Initialize { admin } => {},
        Operation::CreateGroup { creator, name, token, members } => {
            if members@.len() <= u32::MAX && spec_create_group(s, creator, name, token, members@) is Ok {
                let id = s.next_group_id();
                let g2 = s2.groups[id];
                assert(g2.payments =~= Seq::<Payment>::empty());
                assert forall|i: int| 0 <= i < g2.members.len() implies balance_or_zero(g2.balances, #[trigger] g2.members[i]@) == 0 by {
                    assert(is_member(g2.members, g2.members[i]@));
                }
                assert forall|i: u64| #[trigger] s2.groups.contains_key(i) implies balances_track_payments(s2.groups[i]) by {
                    if i != id {
                        assert(s.groups.contains_key(i));
                    }
                }
            }
        },
        Operation::AddExpense { group_id, payer, amount, description, timestamp, contract_address } => {
            if spec_add_expense(s, group_id, payer, amount, description, timestamp, contract_address) is Ok {
                let g = s.groups[group_id];
                let g2 = s2.groups[group_id];
                let n: int = g.members.len() as int;
                assert(g2.payments.drop_last() =~= g.payments);
                if members_distinct(g.members) {
                    lemma_apply_expense_distinct(g.balances, g.members, payer@, amount as int, g.members.len());
                    assert(balances_track_payments(g));
                }
                assert forall|i: u64| #[trigger] s2.groups.contains_key(i) implies balances_track_payments(s2.groups[i]) by {
                    if i != group_id {
                        assert(s.groups.contains_key(i));
                    }
                }
            }
        },
        Operation::SettleGroup { group_id, caller, contract_address } => {
            if spec_settle_group(s, group_id, caller, contract_address) is Ok {
                assert forall|i: u64| #[trigger] s2.groups.contains_key(i) implies balances_track_payments(s2.groups[i]) by {
                    if i != group_id {
                        assert(s.groups.contains_key(i));
                    }
                }
            }
        },
    }
}

/// Any run from a well-formed state whose balances follow its payments
/// keeps them following.
pub proof fn law_run_keeps_ledger(s: ContractState, ops: Seq<Operation>)
    requires
        s.wf(),
        ledger_consistent(s),
    ensures
        ledger_consistent(run(s, ops)),
    decreases ops.len(),
{
    if ops.len() > 0 {
        law_run_keeps_ledger(s, ops.drop_last());
        crate::history::law_run_keeps_history(s, ops.drop_last());
        law_step_keeps_ledger(run(s, ops.drop_last()), ops.last());
    }
}

/// In every state a fresh contract reaches, balances follow payments.
pub proof fn law_reachable_ledger(ops: Seq<Operation>)
    ensures
        ledger_consistent(run(fresh(), ops)),
{
    assert(fresh().wf());
    law_run_keeps_ledger(fresh(), ops);
}

/// The sum of what the first `k` member positions paid in.
pub open spec fn member_paid_sum(ps: Seq<Payment>, members: Seq<Address>, k: nat) -> int
    decreases k,
{
    if k == 0 {
        0
    } else {
        member_paid_sum(ps, members, (k - 1) as nat) + paid_by(ps, members[k - 1]@)
    }
}

proof fn lemma_member_paid_sum_push(ps: Seq<Payment>, p: Payment, members: Seq<Address>, k: nat)
    requires
        k <= members.len(),
    ensures
        member_paid_sum(ps.push(p), members, k) == member_paid_sum(ps, members, k) + occurrences(members, p.payer@, k)
            * p.amount,
    decreases k,
{
    assert(ps.push(p).drop_last() =~= ps);
    if k > 0 {
        lemma_member_paid_sum_push(ps, p, members, (k - 1) as nat);
        let c = occurrences(members, p.payer@, (k - 1) as nat);
        assert((c + 1) * p.amount == c * p.amount + p.amount) by (nonlinear_arith);
    } else {
        assert(0 * p.amount == 0);
    }
}

/// With distinct members and every payer a member, what the members paid
/// in adds up to the whole payment history.
proof fn lemma_member_paid_sum_total(ps: Seq<Payment>, members: Seq<Address>)
    requires
        members_distinct(members),
        forall|j: int| 0 <= j < ps.len() ==> is_member(members, (#[trigger] ps[j]).payer@),
    ensures
        member_paid_sum(ps, members, members.len()) == payments_total(ps),
    decreases ps.len(),
{
    if ps.len() == 0 {
        lemma_member_paid_sum_zero(ps, members, members.len());
    } else {
        let d = ps.drop_last();
        let p = ps.last();
        assert forall|j: int| 0 <= j < d.len() implies is_member(members, (#[trigger] d[j]).payer@) by {
            assert(d[j] == ps[j]);
        }
        lemma_member_paid_sum_total(d, members);
        assert(d.push(p) =~= ps);
        lemma_member_paid_sum_push(d, p, members, members.len());
        lemma_occurrences_distinct(members, p.payer@, members.len());
        assert(is_member(members, ps[ps.len() - 1].payer@));
        let i: int = choose|i: int| 0 <= i < members.len() && #[trigger] members[i]@ == p.payer@;
        assert(exists|i: int| 0 <= i < members.len() && #[trigger] members[i]@ == p.payer@);
        assert(1 * p.amount == p.amount);
    }
}

proof fn lemma_member_paid_sum_zero(ps: Seq<Payment>, members: Seq<Address>, k: nat)
    requires
        ps.len() == 0,
        k <= members.len(),
    ensures
        member_paid_sum(ps, members, k) == 0,
    decreases k,
{
    if k > 0 {
        lemma_member_paid_sum_zero(ps, members, (k - 1) as nat);
    }
}

proof fn lemma_paid_by_nonnegative(ps: Seq<Payment>, who: Seq<char>)
    requires
        forall|j: int| 0 <= j < ps.len() ==> (#[trigger] ps[j]).amount > 0,
    ensures
        paid_by(ps, who) >= 0,
    decreases ps.len(),
{
    if ps.len() > 0 {
        let d = ps.drop_last();
        assert forall|j: int| 0 <= j < d.len() implies (#[trigger] d[j]).amount > 0 by {
            assert(d[j] == ps[j]);
        }
        lemma_paid_by_nonnegative(d, who);
        assert(ps[ps.len() - 1].amount > 0);
    }
}

/// Expenses that split evenly among `n` leave no remainders, and their
/// shares add up to the `n`-th part of their total.
proof fn lemma_even_sums(ps: Seq<Payment>, n: int)
    requires
        n > 0,
        forall|j: int| 0 <= j < ps.len() ==> (#[trigger] ps[j]).amount > 0 && (ps[j].amount as int) % n == 0,
    ensures
        remainders_sum(ps, n) == 0,
        shares_sum(ps, n) * n == payments_total(ps),
        shares_sum(ps, n) >= 0,
    decreases ps.len(),
{
    if ps.len() > 0 {
        let d = ps.drop_last();
        assert forall|j: int| 0 <= j < d.len() implies (#[trigger] d[j]).amount > 0 && (d[j].amount as int) % n == 0 by {
            assert(d[j] == ps[j]);
        }
        lemma_even_sums(d, n);
        let a: int = ps[ps.len() - 1].amount as int;
        assert(a > 0 && a % n == 0);
        lemma_split_bounds(a, n);
        let sh = share_of(a, n);
        let prev = shares_sum(d, n);
        assert((prev + sh) * n == prev * n + sh * n) by (nonlinear_arith);
    }
}

/// The transfers that pay every member position, in order, back what its
/// member paid in, skipping those that paid nothing.
pub open spec fn repay_transfers(
    ps: Seq<Payment>,
    members: Seq<Address>,
    token: Address,
    contract_address: Address,
    k: nat,
) -> Seq<Transfer>
    decreases k,
{
    if k == 0 {
        Seq::empty()
    } else {
        let prev = repay_transfers(ps, members, token, contract_address, (k - 1) as nat);
        let due = paid_by(ps, members[k - 1]@);
        if due > 0 {
            prev.push(Transfer { token, from: contract_address, to: members[k - 1], amount: due as i128 })
        } else {
            prev
        }
    }
}

proof fn lemma_member_paid_sum_monotone(ps: Seq<Payment>, members: Seq<Address>, k: nat, n: nat)
    requires
        k <= n <= members.len(),
        forall|j: int| 0 <= j < ps.len() ==> (#[trigger] ps[j]).amount > 0,
    ensures
        member_paid_sum(ps, members, k) <= member_paid_sum(ps, members, n),
    decreases n - k,
{
    if k < n {
        lemma_member_paid_sum_monotone(ps, members, (k + 1) as nat, n);
        lemma_paid_by_nonnegative(ps, members[k as int]@);
    }
}

proof fn lemma_settlement_repays(
    b: Map<Seq<char>, i128>,
    ps: Seq<Payment>,
    members: Seq<Address>,
    fair_share: int,
    budget: int,
    token: Address,
    contract_address: Address,
    k: nat,
)
    requires
        members_distinct(members),
        k <= members.len(),
        forall|j: int| 0 <= j < ps.len() ==> (#[trigger] ps[j]).amount > 0,
        forall|i: int| 0 <= i < members.len() ==> fair_share + balance_or_zero(b, #[trigger] members[i]@) == paid_by(
            ps,
            members[i]@,
        ),
        member_paid_sum(ps, members, members.len()) <= budget <= i128::MAX,
    ensures
        apply_settlement(b, members, fair_share, budget, token, contract_address, k) is Some,
        ({
            let (bk, ts, rest) = apply_settlement(b, members, fair_share, budget, token, contract_address, k)->Some_0;
            &&& forall|i: int| k <= i < members.len() ==> balance_or_zero(bk, #[trigger] members[i]@) == balance_or_zero(b, members[i]@)
            &&& rest == budget - member_paid_sum(ps, members, k)
            &&& ts == repay_transfers(ps, members, token, contract_address, k)
        }),
    decreases k,
{
    if k > 0 {
        lemma_settlement_repays(b, ps, members, fair_share, budget, token, contract_address, (k - 1) as nat);
        lemma_member_paid_sum_monotone(ps, members, k, members.len());
        lemma_member_paid_sum_monotone(ps, members, 0, (k - 1) as nat);
        let (prev, ts, rest) = apply_settlement(b, members, fair_share, budget, token, contract_address, (k - 1) as nat)->Some_0;
        let who = members[k - 1];
        lemma_paid_by_nonnegative(ps, who@);
        assert(balance_or_zero(prev, who@) == balance_or_zero(b, who@));
        let payout: int = fair_share + balance_or_zero(prev, who@);
        assert(payout == paid_by(ps, who@));
        assert(0 <= payout <= i128::MAX);
        assert(apply_settlement(b, members, fair_share, budget, token, contract_address, k) is Some);
        let (bk, ts2, rest2) = apply_settlement(b, members, fair_share, budget, token, contract_address, k)->Some_0;
        assert forall|i: int| k <= i < members.len() implies balance_or_zero(bk, #[trigger] members[i]@) == balance_or_zero(b, members[i]@) by {
            assert(members[i]@ != who@);
        }
    }
}

/// Settling an unsettled group whose members are distinct and whose every
/// expense splits evenly among them succeeds when its creator asks, and pays
/// each member, in order, exactly what it paid in (skipping members that
/// paid nothing); together that is the group's whole total.
pub proof fn law_even_expenses_repay_each_payer(s: ContractState, group_id: u64, caller: Address, contract_address: Address)
    requires
        s.wf(),
        ledger_consistent(s),
        s.groups.contains_key(group_id),
        members_distinct(s.groups[group_id].members),
        forall|j: int| 0 <= j < s.groups[group_id].payments.len() ==> ((#[trigger] s.groups[group_id].payments[j]).amount
            as int) % (s.groups[group_id].members.len() as int) == 0,
        !s.groups[group_id].group.is_settled,
        caller@ == s.groups[group_id].group.creator@,
    ensures
        spec_settle_group(s, group_id, caller, contract_address) is Ok,
        ({
            let g = s.groups[group_id];
            let ts = spec_settle_group(s, group_id, caller, contract_address)->Ok_0.1;
            &&& ts == repay_transfers(g.payments, g.members, g.group.token, contract_address, g.members.len())
            &&& transfer_total(ts, ts.len()) == g.group.total_paid
        }),
{
    let g = s.groups[group_id];
    let n: int = g.members.len() as int;
    let ps = g.payments;
    assert(group_state_wf(g));
    assert(balances_track_payments(g));
    lemma_even_sums(ps, n);
    let t: int = g.group.total_paid as int;
    let sh = shares_sum(ps, n);
    vstd::arithmetic::div_mod::lemma_div_by_multiple(sh, n);
    assert(fair_share_of(g) == sh);
    lemma_member_paid_sum_total(ps, g.members);
    lemma_settlement_repays(g.balances, ps, g.members, sh, t, g.group.token, contract_address, g.members.len());
    lemma_repay_total(ps, g.members, g.group.token, contract_address, g.members.len());
}

proof fn lemma_repay_total(ps: Seq<Payment>, members: Seq<Address>, token: Address, contract_address: Address, k: nat)
    requires
        k <= members.len(),
        forall|j: int| 0 <= j < ps.len() ==> (#[trigger] ps[j]).amount > 0,
        member_paid_sum(ps, members, members.len()) <= i128::MAX,
    ensures
        transfer_total(
            repay_transfers(ps, members, token, contract_address, k),
            repay_transfers(ps, members, token, contract_address, k).len(),
        ) == member_paid_sum(ps, members, k),
    decreases k,
{
    if k > 0 {
        lemma_repay_total(ps, members, token, contract_address, (k - 1) as nat);
        lemma_paid_by_nonnegative(ps, members[k - 1]@);
        lemma_member_paid_sum_monotone(ps, members, k, members.len());
        let prev = repay_transfers(ps, members, token, contract_address, (k - 1) as nat);
        let due = paid_by(ps, members[k - 1]@);
        if due > 0 {
            lemma_member_paid_sum_monotone(ps, members, 0, (k - 1) as nat);
            assert(due <= i128::MAX);
            lemma_transfer_total_push(prev, Transfer { token, from: contract_address, to: members[k - 1], amount: due as i128 });
        }
    }
}

} // verus!
