//! Runs of the contract: sequences of calls from a state, and what every
//! run keeps.

use vstd::prelude::*;
use crate::address::Address;
use crate::laws::{balances_conserved, law_operations_conserve_balances};
use crate::model::{ContractState, spec_initialize, spec_create_group, spec_add_expense, spec_settle_group};
use crate::types::{Payment, payments_total};

verus! {

/// A call of one of the contract's state-changing operations, with the
/// arguments the host supplies.
pub enum Operation {
    Initialize { admin: Address },
    CreateGroup { creator: Address, name: String, token: Address, members: Vec<Address> },
    AddExpense {
        group_id: u64,
        payer: Address,
        amount: i128,
        description: String,
        timestamp: u64,
        contract_address: Address,
    },
    SettleGroup { group_id: u64, caller: Address, contract_address: Address },
}

/// The state after one call; a refused call leaves the state as it was.
/// Member lists come from the host, whose lists have 32-bit lengths.
pub open spec fn step(s: ContractState, op: Operation) -> ContractState {
    match op {
        Operation::Initialize { admin } => match spec_initialize(s, admin) {
            Ok(s2) => s2,
            Err(_) => s,
        },
        Operation::CreateGroup { creator, name, token, members } => if members@.len() > u32::MAX {
            s
        } else {
            match spec_create_group(s, creator, name, token, members@) {
                Ok((s2, _)) => s2,
                Err(_) => s,
            }
        },
        Operation::AddExpense { group_id, payer, amount, description, timestamp, contract_address } => match spec_add_expense(
            s,
            group_id,
            payer,
            amount,
            description,
            timestamp,
            contract_address,
        ) {
            Ok((s2, _)) => s2,
            Err(_) => s,
        },
        Operation::SettleGroup { group_id, caller, contract_address } => match spec_settle_group(
            s,
            group_id,
            caller,
            contract_address,
        ) {
            Ok((s2, _)) => s2,
            Err(_) => s,
        },
    }
}

/// The state after a sequence of calls, in order.
pub open spec fn run(s: ContractState, ops: Seq<Operation>) -> ContractState
    decreases ops.len(),
{
    if ops.len() == 0 {
        s
    } else {
        step(run(s, ops.drop_last()), ops.last())
    }
}

/// The state of a freshly deployed contract.
pub open spec fn fresh() -> ContractState {
    ContractState { admin: None, group_count: None, groups: Map::empty() }
}

/// `later` keeps everything `earlier` recorded about its groups: every
/// group is still stored, under the same id, name, creator, token and
/// members; its payment history has only grown at the end; and a settled
/// group is exactly as it was.
pub open spec fn history_kept(earlier: ContractState, later: ContractState) -> bool {
    forall|id: u64| #[trigger] earlier.groups.contains_key(id) ==> {
        let g = earlier.groups[id];
        let g2 = later.groups[id];
        &&& later.groups.contains_key(id)
        &&& g2.members == g.members
        &&& g2.group.id == g.group.id
        &&& g2.group.name == g.group.name
        &&& g2.group.creator == g.group.creator
        &&& g2.group.token == g.group.token
        &&& g2.group.total_members == g.group.total_members
        &&& g.payments.len() <= g2.payments.len()
        &&& g2.payments.subrange(0, g.payments.len() as int) == g.payments
        &&& (g.group.is_settled ==> g2 == g)
    }
}

proof fn lemma_history_kept_refl(s: ContractState)
    ensures
        history_kept(s, s),
{
    assert forall|id: u64| #[trigger] s.groups.contains_key(id) implies s.groups[id].payments.subrange(
        0,
        s.groups[id].payments.len() as int,
    ) == s.groups[id].payments by {
        assert(s.groups[id].payments.subrange(0, s.groups[id].payments.len() as int) =~= s.groups[id].payments);
    }
}

proof fn lemma_history_kept_trans(a: ContractState, b: ContractState, c: ContractState)
    requires
        history_kept(a, b),
        history_kept(b, c),
    ensures
        history_kept(a, c),
{
    assert forall|id: u64| #[trigger] a.groups.contains_key(id) implies c.groups[id].payments.subrange(
        0,
        a.groups[id].payments.len() as int,
    ) == a.groups[id].payments by {
        assert(b.groups.contains_key(id));
        let pa = a.groups[id].payments;
        let pb = b.groups[id].payments;
        let pc = c.groups[id].payments;
        assert(pc.subrange(0, pb.len() as int) == pb);
        assert(pb.subrange(0, pa.len() as int) == pa);
        assert(pc.subrange(0, pa.len() as int) =~= pa);
    }
}

/// One call keeps the invariant, the history and the zero sum of balances.
pub proof fn law_step_keeps_history(s: ContractState, op: Operation)
    requires
        s.wf(),
    ensures
        step(s, op).wf(),
        history_kept(s, step(s, op)),
        balances_conserved(s) ==> balances_conserved(step(s, op)),
{
    lemma_history_kept_refl(s);
    let s2 = step(s, op);
    if balances_conserved(s) {
        law_operations_conserve_balances(s);
    }
    match op {
        Operation::Initialize { admin } => {
            if spec_initialize(s, admin) is Ok {
                assert(s2.next_group_id() == s.next_group_id());
                assert(s2.groups == s.groups);
            }
        },
        Operation::CreateGroup { creator, name, token, members } => {
            if members@.len() <= u32::MAX && spec_create_group(s, creator, name, token, members@) is Ok {
                let id = s.next_group_id();
                assert(!s.groups.contains_key(id));
                assert(s2.groups[id].payments =~= Seq::<Payment>::empty());
                assert(payments_total(Seq::<Payment>::empty()) == 0);
                assert forall|i: u64| #[trigger] s2.groups.contains_key(i) <==> i < s2.next_group_id() by {
                    if i == id {
                    } else {
                        assert(s2.groups.contains_key(i) == s.groups.contains_key(i));
                    }
                }
                assert(history_kept(s, s2));
            }
        },
        Operation::AddExpense { group_id, payer, amount, description, timestamp, contract_address } => {
            if spec_add_expense(s, group_id, payer, amount, description, timestamp, contract_address) is Ok {
                let g = s.groups[group_id];
                let g2 = s2.groups[group_id];
                let p = Payment { payer, amount, description, timestamp };
                assert(g2.payments == g.payments.push(p));
                assert(g2.payments.drop_last() =~= g.payments);
                assert(g2.payments.subrange(0, g.payments.len() as int) =~= g.payments);
                assert forall|j: int| 0 <= j < g2.payments.len() implies (#[trigger] g2.payments[j]).amount > 0
                    && crate::types::is_member(g2.members, g2.payments[j].payer@) by {
                    if j < g.payments.len() {
                        assert(g2.payments[j] == g.payments[j]);
                    }
                }
                assert(crate::types::group_state_wf(g2));
                assert(history_kept(s, s2));
            }
        },
        Operation::SettleGroup { group_id, caller, contract_address } => {
            if spec_settle_group(s, group_id, caller, contract_address) is Ok {
                let g = s.groups[group_id];
                let g2 = s2.groups[group_id];
                assert(g2.payments.subrange(0, g.payments.len() as int) =~= g.payments);
                assert(history_kept(s, s2));
            }
        },
    }
}

/// Any run from a well-formed state keeps the invariant, keeps the history
/// of every group already stored, and keeps balances summing to zero.
pub proof fn law_run_keeps_history(s: ContractState, ops: Seq<Operation>)
    requires
        s.wf(),
    ensures
        run(s, ops).wf(),
        history_kept(s, run(s, ops)),
        balances_conserved(s) ==> balances_conserved(run(s, ops)),
    decreases ops.len(),
{
    if ops.len() == 0 {
        lemma_history_kept_refl(s);
    } else {
        law_run_keeps_history(s, ops.drop_last());
        let mid = run(s, ops.drop_last());
        law_step_keeps_history(mid, ops.last());
        lemma_history_kept_trans(s, mid, run(s, ops));
    }
}

/// Every state a fresh contract reaches through its operations satisfies
/// the invariant — groups stored exactly under the ids below the counter,
/// each counting its creator among its members, with a total paid equal to
/// the sum of its positive payments by members — and every group whose
/// members are distinct has balances summing to zero.
pub proof fn law_reachable_states(ops: Seq<Operation>)
    ensures
        run(fresh(), ops).wf(),
        balances_conserved(run(fresh(), ops)),
{
    assert(fresh().wf());
    law_run_keeps_history(fresh(), ops);
}

/// Once a group is settled, nothing any later call does changes it: it stays
/// settled, with the same members, balances and payment history.
pub proof fn law_settled_group_stays_settled(s: ContractState, group_id: u64, ops: Seq<Operation>)
    requires
        s.wf(),
        s.groups.contains_key(group_id),
        s.groups[group_id].group.is_settled,
    ensures
        run(s, ops).groups.contains_key(group_id),
        run(s, ops).groups[group_id] == s.groups[group_id],
{
    law_run_keeps_history(s, ops);
}

/// Creating a group never touches a stored group, and whatever calls follow,
/// the group keeps the members it was created with.
pub proof fn law_created_group_keeps_members(
    s: ContractState,
    creator: Address,
    name: String,
    token: Address,
    members: Seq<Address>,
    ops: Seq<Operation>,
)
    requires
        s.wf(),
        members.len() <= u32::MAX,
        spec_create_group(s, creator, name, token, members) is Ok,
    ensures
        ({
            let (s2, id) = spec_create_group(s, creator, name, token, members)->Ok_0;
            &&& !s.groups.contains_key(id)
            &&& forall|other: u64| #[trigger] s.groups.contains_key(other) ==> s2.groups[other] == s.groups[other]
            &&& run(s2, ops).groups.contains_key(id)
            &&& run(s2, ops).groups[id].members == members
        }),
{
    let (s2, id) = spec_create_group(s, creator, name, token, members)->Ok_0;
    assert(!s.groups.contains_key(id));
    law_create_group_keeps_invariant(s, creator, name, token, members);
    law_run_keeps_history(s2, ops);
    assert(s2.groups.contains_key(id));
    assert forall|other: u64| #[trigger] s.groups.contains_key(other) implies s2.groups[other] == s.groups[other] by {
        assert(other != id);
    }
}

/// Creating a group keeps the invariant.
proof fn law_create_group_keeps_invariant(
    s: ContractState,
    creator: Address,
    name: String,
    token: Address,
    members: Seq<Address>,
)
    requires
        s.wf(),
        members.len() <= u32::MAX,
        spec_create_group(s, creator, name, token, members) is Ok,
    ensures
        spec_create_group(s, creator, name, token, members)->Ok_0.0.wf(),
{
    let (s2, id) = spec_create_group(s, creator, name, token, members)->Ok_0;
    assert(!s.groups.contains_key(id));
    assert(s2.groups[id].payments =~= Seq::<Payment>::empty());
    assert(payments_total(Seq::<Payment>::empty()) == 0);
    assert forall|i: u64| #[trigger] s2.groups.contains_key(i) <==> i < s2.next_group_id() by {
        if i != id {
            assert(s2.groups.contains_key(i) == s.groups.contains_key(i));
        }
    }
}

/// Group ids are handed out one after another: two successive creations
/// return consecutive fresh ids and advance the counter by two.
pub proof fn law_group_ids_consecutive(
    s: ContractState,
    creator1: Address,
    name1: String,
    token1: Address,
    members1: Seq<Address>,
    creator2: Address,
    name2: String,
    token2: Address,
    members2: Seq<Address>,
)
    requires
        s.wf(),
        members1.len() <= u32::MAX,
        spec_create_group(s, creator1, name1, token1, members1) is Ok,
        spec_create_group(spec_create_group(s, creator1, name1, token1, members1)->Ok_0.0, creator2, name2, token2, members2) is Ok,
    ensures
        ({
            let (s2, id1) = spec_create_group(s, creator1, name1, token1, members1)->Ok_0;
            let (s3, id2) = spec_create_group(s2, creator2, name2, token2, members2)->Ok_0;
            &&& id1 == s.next_group_id()
            &&& id2 == id1 + 1
            &&& s3.next_group_id() == id1 + 2
            &&& !s.groups.contains_key(id1)
            &&& !s2.groups.contains_key(id2)
        }),
{
    law_create_group_keeps_invariant(s, creator1, name1, token1, members1);
}

} // verus!
