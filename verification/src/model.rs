//! The contract's state as a mathematical value, and what each operation
//! does to it.

use vstd::prelude::*;
use crate::address::Address;
use crate::balances::balance_or_zero;
use crate::split::{share_of, remainder_of};
pub use crate::types::is_member;
use crate::types::{Group, GroupState, Payment, SplitPayError, Transfer, group_state_wf};

verus! {

/// Everything the contract stores: its admin, the id the next group will
/// get, and the groups by id.
pub struct ContractState {
    pub admin: Option<Address>,
    pub group_count: Option<u64>,
    pub groups: Map<u64, GroupState>,
}

impl ContractState {
    /// The id the next created group receives (an unset counter reads 0).
    pub open spec fn next_group_id(self) -> u64 {
        match self.group_count {
            Some(c) => c,
            None => 0,
        }
    }

    /// What every reachable state satisfies: the stored groups are exactly
    /// those with ids below the counter, and each is well formed and stored
    /// under its own id.
    pub open spec fn wf(self) -> bool {
        &&& forall|id: u64| #[trigger] self.groups.contains_key(id) <==> id < self.next_group_id()
        &&& forall|id: u64| #[trigger] self.groups.contains_key(id) ==>
            group_state_wf(self.groups[id]) && self.groups[id].group.id == id
    }
}

/// `initialize`: only an uninitialized contract accepts an admin; the group
/// counter is then stored, keeping the count of any groups created before
/// (zero on a fresh contract).
pub open spec fn spec_initialize(s: ContractState, admin: Address) -> Result<ContractState, SplitPayError> {
    if s.admin is Some {
        Err(SplitPayError::AlreadyInitialized)
    } else {
        Ok(ContractState { admin: Some(admin), group_count: Some(s.next_group_id()), ..s })
    }
}

/// The balances `b` with every listed member's balance set to zero.
pub open spec fn zeroed_balances(b: Map<Seq<char>, i128>, members: Seq<Address>) -> Map<Seq<char>, i128> {
    Map::new(
        |who: Seq<char>| b.contains_key(who) || is_member(members, who),
        |who: Seq<char>| if is_member(members, who) { 0i128 } else { b[who] },
    )
}

/// `create_group`: the creator must be listed among the members; the group
/// gets the next id, starts with nothing paid and unsettled, with no
/// payments and a zero balance for every member.  In a well-formed state no
/// group is stored under the next id, so no stored group is touched.
pub open spec fn spec_create_group(
    s: ContractState,
    creator: Address,
    name: String,
    token: Address,
    members: Seq<Address>,
) -> Result<(ContractState, u64), SplitPayError> {
    let id: u64 = s.next_group_id();
    if !is_member(members, creator@) {
        Err(SplitPayError::CreatorNotMember)
    } else if id == u64::MAX {
        Err(SplitPayError::ArithmeticOverflow)
    } else {
        let g = GroupState {
            group: Group {
                id,
                name,
                creator,
                token,
                total_members: members.len() as u32,
                total_paid: 0,
                is_settled: false,
            },
            members,
            payments: Seq::empty(),
            balances: zeroed_balances(Map::empty(), members),
        };
        Ok((ContractState { group_count: Some((id + 1) as u64), groups: s.groups.insert(id, g), ..s }, id))
    }
}

/// How an expense of `amount` paid by `payer` changes the balance of the
/// member at position `i`: every position owes an equal share, the first
/// position also the remainder, and the payer is credited the amount.
pub open spec fn expense_delta(members: Seq<Address>, payer: Seq<char>, amount: int, i: int) -> int {
    let n: int = members.len() as int;
    let extra: int = if i == 0 { remainder_of(amount, n) } else { 0 };
    if members[i]@ == payer {
        amount - share_of(amount, n) - extra
    } else {
        -(share_of(amount, n) + extra)
    }
}

/// The balances after the expense has been booked for the first `k`
/// member positions, in order; `None` where a balance leaves the range of
/// `i128` on the way.
pub open spec fn apply_expense(
    b: Map<Seq<char>, i128>,
    members: Seq<Address>,
    payer: Seq<char>,
    amount: int,
    k: nat,
) -> Option<Map<Seq<char>, i128>>
    decreases k,
{
    if k == 0 {
        Some(b)
    } else {
        match apply_expense(b, members, payer, amount, (k - 1) as nat) {
            None => None,
            Some(prev) => {
                let who = members[k - 1]@;
                let next: int = balance_or_zero(prev, who) + expense_delta(members, payer, amount, k - 1);
                if i128::MIN <= next <= i128::MAX {
                    Some(prev.insert(who, next as i128))
                } else {
                    None
                }
            },
        }
    }
}

/// `add_expense`: a positive amount, paid by a member into an existing
/// unsettled group, is moved from the payer to the contract, booked on the
/// balances, recorded as a payment and added to the group's total.
pub open spec fn spec_add_expense(
    s: ContractState,
    group_id: u64,
    payer: Address,
    amount: i128,
    description: String,
    timestamp: u64,
    contract_address: Address,
) -> Result<(ContractState, Transfer), SplitPayError> {
    if amount <= 0 {
        Err(SplitPayError::AmountNotPositive)
    } else if !s.groups.contains_key(group_id) {
        Err(SplitPayError::GroupNotFound)
    } else {
        let g = s.groups[group_id];
        if g.group.is_settled {
            Err(SplitPayError::GroupAlreadySettled)
        } else if !is_member(g.members, payer@) {
            Err(SplitPayError::PayerNotMember)
        } else {
            match apply_expense(g.balances, g.members, payer@, amount as int, g.members.len()) {
                None => Err(SplitPayError::ArithmeticOverflow),
                Some(b) => {
                    if g.group.total_paid + amount > i128::MAX {
                        Err(SplitPayError::ArithmeticOverflow)
                    } else {
                        let g2 = GroupState {
                            group: Group { total_paid: (g.group.total_paid + amount) as i128, ..g.group },
                            members: g.members,
                            payments: g.payments.push(
                                Payment { payer, amount, description, timestamp },
                            ),
                            balances: b,
                        };
                        Ok((
                            ContractState { groups: s.groups.insert(group_id, g2), ..s },
                            Transfer { token: g.group.token, from: payer, to: contract_address, amount },
                        ))
                    }
                },
            }
        }
    }
}

/// Once booking an expense has overflowed, booking further positions does
/// not recover.
pub proof fn lemma_apply_expense_stays_none(
    b: Map<Seq<char>, i128>,
    members: Seq<Address>,
    payer: Seq<char>,
    amount: int,
    k: nat,
    n: nat,
)
    requires
        k <= n,
        apply_expense(b, members, payer, amount, k) is None,
    ensures
        apply_expense(b, members, payer, amount, n) is None,
    decreases n - k,
{
    if k < n {
        lemma_apply_expense_stays_none(b, members, payer, amount, (k + 1) as nat, n);
    }
}

/// What a settlement pays a member position: its fair share plus its
/// balance, where that is positive, but never more than what is left of the
/// group's deposits.
pub open spec fn capped_payout(payout: int, remaining: int) -> int {
    if payout <= 0 {
        0
    } else if payout <= remaining {
        payout
    } else {
        remaining
    }
}

/// The balances, payouts and undistributed deposits after the first `k`
/// member positions have been settled, in order, starting from `budget`
/// deposited: each position is paid its fair share plus its balance as far
/// as the deposits left allow (see [`capped_payout`]), and its balance is
/// reset to zero; `None` where a fair share plus balance leaves the range of
/// `i128`.
pub open spec fn apply_settlement(
    b: Map<Seq<char>, i128>,
    members: Seq<Address>,
    fair_share: int,
    budget: int,
    token: Address,
    contract_address: Address,
    k: nat,
) -> Option<(Map<Seq<char>, i128>, Seq<Transfer>, int)>
    decreases k,
{
    if k == 0 {
        Some((b, Seq::empty(), budget))
    } else {
        match apply_settlement(b, members, fair_share, budget, token, contract_address, (k - 1) as nat) {
            None => None,
            Some((prev, transfers, remaining)) => {
                let who = members[k - 1];
                let payout: int = fair_share + balance_or_zero(prev, who@);
                if i128::MIN <= payout <= i128::MAX {
                    let paid: int = capped_payout(payout, remaining);
                    let transfers2 = if paid > 0 {
                        transfers.push(Transfer { token, from: contract_address, to: who, amount: paid as i128 })
                    } else {
                        transfers
                    };
                    Some((prev.insert(who@, 0i128), transfers2, remaining - paid))
                } else {
                    None
                }
            },
        }
    }
}

/// Once a payout has overflowed, settling further positions does not
/// recover.
pub proof fn lemma_apply_settlement_stays_none(
    b: Map<Seq<char>, i128>,
    members: Seq<Address>,
    fair_share: int,
    budget: int,
    token: Address,
    contract_address: Address,
    k: nat,
    n: nat,
)
    requires
        k <= n,
        apply_settlement(b, members, fair_share, budget, token, contract_address, k) is None,
    ensures
        apply_settlement(b, members, fair_share, budget, token, contract_address, n) is None,
    decreases n - k,
{
    if k < n {
        lemma_apply_settlement_stays_none(b, members, fair_share, budget, token, contract_address, (k + 1) as nat, n);
    }
}

/// The fair share of a group's total among its member positions.
pub open spec fn fair_share_of(g: GroupState) -> int {
    g.group.total_paid as int / g.members.len() as int
}

/// `settle_group`: the creator of an existing unsettled group has every
/// member paid back from the contract, out of the group's deposits only,
/// and the group marked settled.
pub open spec fn spec_settle_group(
    s: ContractState,
    group_id: u64,
    caller: Address,
    contract_address: Address,
) -> Result<(ContractState, Seq<Transfer>), SplitPayError> {
    if !s.groups.contains_key(group_id) {
        Err(SplitPayError::GroupNotFound)
    } else {
        let g = s.groups[group_id];
        if g.group.is_settled {
            Err(SplitPayError::GroupAlreadySettled)
        } else if caller@ != g.group.creator@ {
            Err(SplitPayError::NotGroupCreator)
        } else {
            match apply_settlement(
                g.balances,
                g.members,
                fair_share_of(g),
                g.group.total_paid as int,
                g.group.token,
                contract_address,
                g.members.len(),
            ) {
                None => Err(SplitPayError::ArithmeticOverflow),
                Some((b, transfers, _remaining)) => {
                    let g2 = GroupState {
                        group: Group { is_settled: true, ..g.group },
                        members: g.members,
                        payments: g.payments,
                        balances: b,
                    };
                    Ok((ContractState { groups: s.groups.insert(group_id, g2), ..s }, transfers))
                },
            }
        }
    }
}

/// The transfers of a direct split: every recipient, in order, receives an
/// equal share of `amount` from `payer`, the first one also the remainder.
pub open spec fn split_transfers(payer: Address, token: Address, amount: int, recipients: Seq<Address>) -> Seq<Transfer> {
    let n: int = recipients.len() as int;
    Seq::new(
        recipients.len(),
        |i: int|
            Transfer {
                token,
                from: payer,
                to: recipients[i],
                amount: (share_of(amount, n) + if i == 0 { remainder_of(amount, n) } else { 0 }) as i128,
            },
    )
}

/// `split_payment`: a positive amount split among at least one recipient.
pub open spec fn spec_split_payment(
    payer: Address,
    token: Address,
    amount: i128,
    recipients: Seq<Address>,
) -> Result<Seq<Transfer>, SplitPayError> {
    if amount <= 0 {
        Err(SplitPayError::AmountNotPositive)
    } else if recipients.len() == 0 {
        Err(SplitPayError::NoRecipients)
    } else {
        Ok(split_transfers(payer, token, amount as int, recipients))
    }
}

} // verus!
