//! The contract: its stored state and its operations.

use vstd::prelude::*;
use crate::address::Address;
use crate::balances::{MemberBalance, balances_unique, balance_map, balance_or_zero, set_balance, copy_balances};
use crate::model::{
    ContractState, is_member, zeroed_balances, spec_initialize, spec_create_group, expense_delta, apply_expense,
    lemma_apply_expense_stays_none, spec_add_expense, apply_settlement, lemma_apply_settlement_stays_none,
    spec_settle_group, spec_split_payment, split_transfers,
};
use crate::split::{split_amount, lemma_split_bounds, share_of, remainder_of};
use crate::balances::balance_in;
use crate::types::{
    Group, GroupRecord, GroupState, Payment, SplitPayError, Transfer, group_state_wf, copy_addresses, copy_payments,
    payments_total, lemma_payments_total_prefix,
};

verus! {

/// The stored state of the SplitPay contract.  Group ids are dense: the
/// group with id `i` sits at position `i`, and the counter is the number of
/// groups.
pub struct SplitPayContract {
    admin: Option<Address>,
    group_count: Option<u64>,
    groups: Vec<GroupRecord>,
}

/// The groups of a record list, keyed by position.
pub open spec fn records_map(s: Seq<GroupRecord>) -> Map<u64, GroupState> {
    Map::new(|id: u64| (id as int) < s.len(), |id: u64| s[id as int]@)
}

/// The invariant of the stored parts: the group counter counts the stored
/// groups, and every group is well formed and stored at its id.
pub open spec fn parts_wf(group_count: Option<u64>, groups: Seq<GroupRecord>) -> bool {
    &&& (match group_count {
        Some(c) => c as int,
        None => 0int,
    }) == groups.len()
    &&& forall|i: int| 0 <= i < groups.len() ==> (#[trigger] groups[i]).wf() && groups[i].group.id == i
}

impl View for SplitPayContract {
    type V = ContractState;

    closed spec fn view(&self) -> ContractState {
        ContractState { admin: self.admin, group_count: self.group_count, groups: records_map(self.groups@) }
    }
}

/// Whether `who` occurs in the member list.
pub fn contains_member(members: &Vec<Address>, who: &Address) -> (r: bool)
    ensures
        r == is_member(members@, who@),
{
    let mut i: usize = 0;
    while i < members.len()
        invariant
            i <= members@.len(),
            forall|j: int| 0 <= j < i ==> #[trigger] members@[j]@ != who@,
        decreases members@.len() - i,
    {
        if members[i].same(who) {
            return true;
        }
        i = i + 1;
    }
    false
}

/// Whether no member has two entries in the balance list.
fn check_unique(s: &Vec<MemberBalance>) -> (r: bool)
    ensures
        r == balances_unique(s@),
{
    let mut i: usize = 0;
    while i < s.len()
        invariant
            i <= s@.len(),
            forall|a: int, b: int| 0 <= a < i && 0 <= b < s@.len() && a != b ==> #[trigger] s@[a].member@ != #[trigger] s@[b].member@,
        decreases s@.len() - i,
    {
        let mut j: usize = 0;
        while j < s.len()
            invariant
                i < s@.len(),
                j <= s@.len(),
                forall|a: int, b: int| 0 <= a < i && 0 <= b < s@.len() && a != b ==> #[trigger] s@[a].member@ != #[trigger] s@[b].member@,
                forall|b: int| 0 <= b < j && b != i ==> s@[i as int].member@ != #[trigger] s@[b].member@,
            decreases s@.len() - j,
        {
            if j != i && s[i].member.same(&s[j].member) {
                return false;
            }
            j = j + 1;
        }
        i = i + 1;
    }
    true
}

/// Whether a payment history consists of positive payments by members that
/// add up to `total`.
fn check_payments(payments: &Vec<Payment>, members: &Vec<Address>, total: i128) -> (r: bool)
    ensures
        r == (total == payments_total(payments@) && forall|j: int| 0 <= j < payments@.len() ==> (
        #[trigger] payments@[j]).amount > 0 && is_member(members@, payments@[j].payer@)),
{
    let mut sum: i128 = 0;
    let mut j: usize = 0;
    while j < payments.len()
        invariant
            j <= payments@.len(),
            sum == payments_total(payments@.subrange(0, j as int)),
            forall|k: int| 0 <= k < j ==> (#[trigger] payments@[k]).amount > 0 && is_member(
                members@,
                payments@[k].payer@,
            ),
        decreases payments@.len() - j,
    {
        let p = &payments[j];
        if p.amount <= 0 || !contains_member(members, &p.payer) {
            return false;
        }
        proof {
            assert(payments@.subrange(0, j + 1).drop_last() =~= payments@.subrange(0, j as int));
        }
        match sum.checked_add(p.amount) {
            Some(v) => {
                sum = v;
            },
            None => {
                proof {
                    if forall|k: int| 0 <= k < payments@.len() ==> (#[trigger] payments@[k]).amount > 0 {
                        lemma_payments_total_prefix(payments@, j + 1);
                    }
                }
                return false;
            },
        }
        j = j + 1;
    }
    proof {
        assert(payments@.subrange(0, payments@.len() as int) =~= payments@);
    }
    sum == total
}

/// Whether a group record is well formed.
fn check_record(rec: &GroupRecord) -> (r: bool)
    ensures
        r == rec.wf(),
{
    let n: usize = rec.members.len();
    n > 0 && n <= u32::MAX as usize && rec.group.total_members as usize == n && rec.group.total_paid >= 0
        && contains_member(&rec.members, &rec.group.creator)
        && check_payments(&rec.payments, &rec.members, rec.group.total_paid)
        && check_unique(&rec.balances)
}

/// The balances with every listed member's balance set to zero.
fn zero_member_balances(balances: Vec<MemberBalance>, members: &Vec<Address>) -> (r: Vec<MemberBalance>)
    requires
        balances_unique(balances@),
    ensures
        balances_unique(r@),
        balance_map(r@) == zeroed_balances(balance_map(balances@), members@),
{
    let ghost b0 = balance_map(balances@);
    let mut r = balances;
    let mut i: usize = 0;
    while i < members.len()
        invariant
            i <= members@.len(),
            balances_unique(r@),
            balance_map(r@) == zeroed_balances(b0, members@.subrange(0, i as int)),
        decreases members@.len() - i,
    {
        let ghost before = balance_map(r@);
        set_balance(&mut r, &members[i], 0);
        proof {
            let prefix = members@.subrange(0, i as int);
            let next = members@.subrange(0, i + 1);
            assert forall|who: Seq<char>| #[trigger] is_member(next, who) == (is_member(prefix, who) || who == members@[i as int]@) by {
                if is_member(prefix, who) {
                    let j: int = choose|j: int| 0 <= j < prefix.len() && #[trigger] prefix[j]@ == who;
                    assert(next[j]@ == who);
                }
                if who == members@[i as int]@ {
                    assert(next[i as int]@ == who);
                }
                if is_member(next, who) {
                    let j: int = choose|j: int| 0 <= j < next.len() && #[trigger] next[j]@ == who;
                    if j < i {
                        assert(prefix[j]@ == who);
                    }
                }
            }
            assert(balance_map(r@) =~= zeroed_balances(b0, next));
        }
        i = i + 1;
    }
    proof {
        assert(members@.subrange(0, members@.len() as int) =~= members@);
    }
    r
}

/// The balances after an expense of `amount` paid by `payer` has been
/// booked for every member position in order; `None` on overflow.
fn expense_balances(balances: &Vec<MemberBalance>, members: &Vec<Address>, payer: &Address, amount: i128) -> (r:
    Option<Vec<MemberBalance>>)
    requires
        balances_unique(balances@),
        members@.len() > 0,
        amount > 0,
    ensures
        match r {
            Some(b) => balances_unique(b@) && apply_expense(
                balance_map(balances@),
                members@,
                payer@,
                amount as int,
                members@.len(),
            ) == Some(balance_map(b@)),
            None => apply_expense(balance_map(balances@), members@, payer@, amount as int, members@.len()) is None,
        },
{
    let ghost b0 = balance_map(balances@);
    let n: usize = members.len();
    let (share, rem) = split_amount(amount, n);
    proof {
        lemma_split_bounds(amount as int, n as int);
    }
    let mut r = copy_balances(balances);
    let mut i: usize = 0;
    while i < n
        invariant
            n == members@.len(),
            n > 0,
            amount > 0,
            b0 == balance_map(balances@),
            share + rem <= amount,
            share == share_of(amount as int, n as int),
            rem == remainder_of(amount as int, n as int),
            0 <= share <= amount,
            0 <= rem <= amount,
            share * n + rem == amount,
            i <= n,
            balances_unique(r@),
            apply_expense(b0, members@, payer@, amount as int, i as nat) == Some(balance_map(r@)),
        decreases n - i,
    {
        let current: i128 = balance_in(&r, &members[i]);
        let extra: i128 = if i == 0 { rem } else { 0 };
        let next: Option<i128> = if members[i].same(payer) {
            proof {
                assert(share * (n - 1) >= 0) by (nonlinear_arith)
                    requires share >= 0, n >= 1;
            }
            current.checked_add(amount - share - extra)
        } else {
            current.checked_sub(share + extra)
        };
        proof {
            assert(expense_delta(members@, payer@, amount as int, i as int) == if members@[i as int]@ == payer@ {
                amount - share - extra
            } else {
                -(share + extra)
            });
        }
        match next {
            Some(v) => {
                set_balance(&mut r, &members[i], v);
            },
            None => {
                proof {
                    lemma_apply_expense_stays_none(b0, members@, payer@, amount as int, (i + 1) as nat, n as nat);
                }
                return None;
            },
        }
        i = i + 1;
    }
    Some(r)
}

/// The balances and payouts after every member position has been settled
/// in order, paying out of `budget` at most; `None` on overflow.
fn settlement(
    balances: &Vec<MemberBalance>,
    members: &Vec<Address>,
    fair_share: i128,
    budget: i128,
    token: &Address,
    contract_address: &Address,
) -> (r: Option<(Vec<MemberBalance>, Vec<Transfer>)>)
    requires
        balances_unique(balances@),
        budget >= 0,
    ensures
        match r {
            Some((b, t)) => {
                let res = apply_settlement(
                    balance_map(balances@),
                    members@,
                    fair_share as int,
                    budget as int,
                    *token,
                    *contract_address,
                    members@.len(),
                );
                &&& balances_unique(b@)
                &&& res is Some
                &&& res->Some_0.0 == balance_map(b@)
                &&& res->Some_0.1 == t@
            },
            None => apply_settlement(
                balance_map(balances@),
                members@,
                fair_share as int,
                budget as int,
                *token,
                *contract_address,
                members@.len(),
            ) is None,
        },
{
    let ghost b0 = balance_map(balances@);
    let n: usize = members.len();
    let mut r = copy_balances(balances);
    let mut transfers: Vec<Transfer> = Vec::new();
    let mut remaining: i128 = budget;
    let mut i: usize = 0;
    while i < n
        invariant
            n == members@.len(),
            b0 == balance_map(balances@),
            i <= n,
            0 <= remaining <= budget,
            balances_unique(r@),
            apply_settlement(b0, members@, fair_share as int, budget as int, *token, *contract_address, i as nat)
                == Some((balance_map(r@), transfers@, remaining as int)),
        decreases n - i,
    {
        let current: i128 = balance_in(&r, &members[i]);
        match fair_share.checked_add(current) {
            Some(payout) => {
                let paid: i128 = if payout <= 0 {
                    0
                } else if payout <= remaining {
                    payout
                } else {
                    remaining
                };
                if paid > 0 {
                    transfers.push(
                        Transfer {
                            token: token.clone(),
                            from: contract_address.clone(),
                            to: members[i].clone(),
                            amount: paid,
                        },
                    );
                }
                remaining = remaining - paid;
                set_balance(&mut r, &members[i], 0);
            },
            None => {
                proof {
                    lemma_apply_settlement_stays_none(
                        b0,
                        members@,
                        fair_share as int,
                        budget as int,
                        *token,
                        *contract_address,
                        (i + 1) as nat,
                        n as nat,
                    );
                }
                return None;
            },
        }
        i = i + 1;
    }
    Some((r, transfers))
}

impl SplitPayContract {
    /// The contract's invariant: the group counter counts the stored
    /// groups, and every group is well formed and stored at its id.
    pub closed spec fn wf(&self) -> bool {
        parts_wf(self.group_count, self.groups@)
    }

    /// The state seen through the view satisfies the state invariant.
    pub proof fn lemma_wf(&self)
        requires
            self.wf(),
        ensures
            self@.wf(),
    {
        assert forall|id: u64| #[trigger] self@.groups.contains_key(id) implies
            group_state_wf(self@.groups[id]) && self@.groups[id].group.id == id by {
            assert(self.groups@[id as int].wf());
        }
    }

    /// The id the next group receives is the number of stored groups.
    proof fn lemma_next_id(&self)
        requires
            self.wf(),
        ensures
            self@.next_group_id() == self.groups@.len(),
    {
    }

    /// The contract holding the given stored parts, or `None` where they
    /// break the contract's invariant (see [`parts_wf`]).
    pub fn from_parts(admin: Option<Address>, group_count: Option<u64>, groups: Vec<GroupRecord>) -> (r: Option<
        SplitPayContract,
    >)
        ensures
            r is Some <==> parts_wf(group_count, groups@),
            r matches Some(c) ==> c.wf() && c@ == (ContractState {
                admin,
                group_count,
                groups: records_map(groups@),
            }),
    {
        let count: u64 = match group_count {
            Some(c) => c,
            None => 0,
        };
        if count as u128 != groups.len() as u128 {
            return None;
        }
        let mut i: usize = 0;
        while i < groups.len()
            invariant
                i <= groups@.len(),
                forall|j: int| 0 <= j < i ==> (#[trigger] groups@[j]).wf() && groups@[j].group.id == j,
            decreases groups@.len() - i,
        {
            if groups[i].group.id != i as u64 || !check_record(&groups[i]) {
                return None;
            }
            i = i + 1;
        }
        Some(SplitPayContract { admin, group_count, groups })
    }

    /// The stored parts of the contract: its admin, its group counter and
    /// its group records by id.
    pub fn into_parts(self) -> (r: (Option<Address>, Option<u64>, Vec<GroupRecord>))
        requires
            self.wf(),
        ensures
            r.0 == self@.admin,
            r.1 == self@.group_count,
            records_map(r.2@) == self@.groups,
            parts_wf(r.1, r.2@),
    {
        (self.admin, self.group_count, self.groups)
    }

    /// A freshly deployed contract: nothing stored.
    pub fn new() -> (r: SplitPayContract)
        ensures
            r.wf(),
            r@ == (ContractState { admin: None, group_count: None, groups: Map::empty() }),
    {
        let r = SplitPayContract { admin: None, group_count: None, groups: Vec::new() };
        assert(r@.groups =~= Map::<u64, GroupState>::empty());
        r
    }

    /// Stores the admin and the group counter (keeping the count of groups
    /// made before); refused when an admin is stored already.
    pub fn initialize(&mut self, admin: Address) -> (r: Result<(), SplitPayError>)
        requires
            old(self).wf(),
        ensures
            final(self).wf(),
            match spec_initialize(old(self)@, admin) {
                Ok(s) => r is Ok && final(self)@ == s,
                Err(e) => r == Err::<(), SplitPayError>(e) && final(self)@ == old(self)@,
            },
    {
        if self.admin.is_some() {
            return Err(SplitPayError::AlreadyInitialized);
        }
        let count: u64 = match self.group_count {
            Some(c) => c,
            None => 0,
        };
        self.admin = Some(admin);
        self.group_count = Some(count);
        Ok(())
    }

    /// Creates a group of `members` (which must list `creator`) paying in
    /// `token`, and returns its id.
    pub fn create_group(&mut self, creator: Address, name: String, token: Address, members: Vec<Address>) -> (r:
        Result<u64, SplitPayError>)
        requires
            old(self).wf(),
            members@.len() <= u32::MAX,
        ensures
            final(self).wf(),
            match spec_create_group(old(self)@, creator, name, token, members@) {
                Ok((s, id)) => r == Ok::<u64, SplitPayError>(id) && final(self)@ == s,
                Err(e) => r == Err::<u64, SplitPayError>(e) && final(self)@ == old(self)@,
            },
    {
        if !contains_member(&members, &creator) {
            return Err(SplitPayError::CreatorNotMember);
        }
        let id: u64 = match self.group_count {
            Some(c) => c,
            None => 0,
        };
        if id == u64::MAX {
            return Err(SplitPayError::ArithmeticOverflow);
        }
        proof {
            self.lemma_next_id();
        }
        let empty: Vec<MemberBalance> = Vec::new();
        proof {
            assert(balance_map(empty@) =~= Map::<Seq<char>, i128>::empty());
        }
        let balances = zero_member_balances(empty, &members);
        let total_members: u32 = members.len() as u32;
        let group = Group {
            id,
            name,
            creator,
            token,
            total_members,
            total_paid: 0,
            is_settled: false,
        };
        let rec = GroupRecord { group, members, payments: Vec::new(), balances };
        proof {
            assert(rec.payments@ =~= Seq::<Payment>::empty());
        }
        self.groups.push(rec);
        self.group_count = Some(id + 1);
        proof {
            assert(rec.wf());
            assert(self@.groups =~= old(self)@.groups.insert(id, rec@));
        }
        Ok(id)
    }

    /// Books an expense of `amount` paid by `payer` into group `group_id`.
    /// `timestamp` is the ledger time of the call and `contract_address`
    /// the contract's own address; the returned transfer moves the amount
    /// from the payer to the contract.
    pub fn add_expense(
        &mut self,
        group_id: u64,
        payer: Address,
        amount: i128,
        description: String,
        timestamp: u64,
        contract_address: Address,
    ) -> (r: Result<Transfer, SplitPayError>)
        requires
            old(self).wf(),
        ensures
            final(self).wf(),
            match spec_add_expense(old(self)@, group_id, payer, amount, description, timestamp, contract_address) {
                Ok((s, t)) => r == Ok::<Transfer, SplitPayError>(t) && final(self)@ == s,
                Err(e) => r == Err::<Transfer, SplitPayError>(e) && final(self)@ == old(self)@,
            },
    {
        if amount <= 0 {
            return Err(SplitPayError::AmountNotPositive);
        }
        if group_id >= self.groups.len() as u64 {
            return Err(SplitPayError::GroupNotFound);
        }
        let idx: usize = group_id as usize;
        proof {
            assert(self@.groups.contains_key(group_id));
            assert(self.groups@[idx as int].wf());
        }
        let rec = &self.groups[idx];
        if rec.group.is_settled {
            return Err(SplitPayError::GroupAlreadySettled);
        }
        if !contains_member(&rec.members, &payer) {
            return Err(SplitPayError::PayerNotMember);
        }
        let balances = match expense_balances(&rec.balances, &rec.members, &payer, amount) {
            Some(b) => b,
            None => {
                return Err(SplitPayError::ArithmeticOverflow);
            },
        };
        let total: i128 = match rec.group.total_paid.checked_add(amount) {
            Some(t) => t,
            None => {
                return Err(SplitPayError::ArithmeticOverflow);
            },
        };
        let token = rec.group.token.clone();
        let mut payments = copy_payments(&rec.payments);
        payments.push(Payment { payer: payer.clone(), amount, description, timestamp });
        let mut group = rec.group.clone();
        group.total_paid = total;
        let members = copy_addresses(&rec.members);
        let new_rec = GroupRecord { group, members, payments, balances };
        proof {
            let old_ps = old(self).groups@[idx as int].payments@;
            assert(new_rec.payments@.drop_last() =~= old_ps);
            assert(new_rec.members@ == old(self).groups@[idx as int].members@);
            assert forall|j: int| 0 <= j < new_rec.payments@.len() implies (#[trigger] new_rec.payments@[j]).amount > 0
                && is_member(new_rec.members@, new_rec.payments@[j].payer@) by {
                if j < old_ps.len() {
                    assert(new_rec.payments@[j] == old_ps[j]);
                }
            }
            assert(new_rec.wf());
        }
        self.groups[idx] = new_rec;
        proof {
            assert(self@.groups =~= old(self)@.groups.insert(group_id, new_rec@));
        }
        Ok(Transfer { token, from: payer, to: contract_address, amount })
    }

    /// Settles group `group_id` on behalf of `caller`, who must be its
    /// creator: returns the payouts from the contract (at
    /// `contract_address`) to the members, paid out of the group's own
    /// deposits only, resets their balances and marks the group settled.
    pub fn settle_group(&mut self, group_id: u64, caller: Address, contract_address: Address) -> (r: Result<
        Vec<Transfer>,
        SplitPayError,
    >)
        requires
            old(self).wf(),
        ensures
            final(self).wf(),
            match spec_settle_group(old(self)@, group_id, caller, contract_address) {
                Ok((s, t)) => r is Ok && r->Ok_0@ == t && final(self)@ == s,
                Err(e) => r is Err && r->Err_0 == e && final(self)@ == old(self)@,
            },
    {
        if group_id >= self.groups.len() as u64 {
            return Err(SplitPayError::GroupNotFound);
        }
        let idx: usize = group_id as usize;
        proof {
            assert(self@.groups.contains_key(group_id));
            assert(self.groups@[idx as int].wf());
        }
        let rec = &self.groups[idx];
        if rec.group.is_settled {
            return Err(SplitPayError::GroupAlreadySettled);
        }
        if !caller.same(&rec.group.creator) {
            return Err(SplitPayError::NotGroupCreator);
        }
        let n: i128 = rec.members.len() as i128;
        let fair_share: i128 = rec.group.total_paid / n;
        let (balances, transfers) = match settlement(
            &rec.balances,
            &rec.members,
            fair_share,
            rec.group.total_paid,
            &rec.group.token,
            &contract_address,
        ) {
            Some(p) => p,
            None => {
                return Err(SplitPayError::ArithmeticOverflow);
            },
        };
        let mut group = rec.group.clone();
        group.is_settled = true;
        let members = copy_addresses(&rec.members);
        let payments = copy_payments(&rec.payments);
        let new_rec = GroupRecord { group, members, payments, balances };
        self.groups[idx] = new_rec;
        proof {
            assert(new_rec.wf());
            assert(self@.groups =~= old(self)@.groups.insert(group_id, new_rec@));
        }
        Ok(transfers)
    }

    /// Splits `amount` of `token` from `payer` among `recipients`: every
    /// recipient gets an equal share, the first one also the remainder.
    /// Returns the transfers to carry out; the contract's state is not
    /// involved.
    pub fn split_payment(payer: Address, token: Address, amount: i128, recipients: Vec<Address>) -> (r: Result<
        Vec<Transfer>,
        SplitPayError,
    >)
        ensures
            match spec_split_payment(payer, token, amount, recipients@) {
                Ok(t) => r is Ok && r->Ok_0@ == t,
                Err(e) => r is Err && r->Err_0 == e,
            },
    {
        if amount <= 0 {
            return Err(SplitPayError::AmountNotPositive);
        }
        if recipients.len() == 0 {
            return Err(SplitPayError::NoRecipients);
        }
        let n: usize = recipients.len();
        let (share, rem) = split_amount(amount, n);
        proof {
            lemma_split_bounds(amount as int, n as int);
        }
        let ghost expected = split_transfers(payer, token, amount as int, recipients@);
        let mut transfers: Vec<Transfer> = Vec::new();
        let mut i: usize = 0;
        while i < n
            invariant
                n == recipients@.len(),
                share == share_of(amount as int, n as int),
                rem == remainder_of(amount as int, n as int),
                0 <= share,
                0 <= rem,
                share + rem <= amount,
                i <= n,
                expected == split_transfers(payer, token, amount as int, recipients@),
                transfers@ == expected.subrange(0, i as int),
            decreases n - i,
        {
            let portion: i128 = if i == 0 { share + rem } else { share };
            transfers.push(Transfer { token: token.clone(), from: payer.clone(), to: recipients[i].clone(), amount: portion });
            proof {
                assert(transfers@ =~= expected.subrange(0, i + 1));
            }
            i = i + 1;
        }
        proof {
            assert(expected.subrange(0, n as int) =~= expected);
        }
        Ok(transfers)
    }

    /// The description of group `group_id`.
    pub fn get_group(&self, group_id: u64) -> (r: Result<Group, SplitPayError>)
        requires
            self.wf(),
        ensures
            if self@.groups.contains_key(group_id) {
                r == Ok::<Group, SplitPayError>(self@.groups[group_id].group)
            } else {
                r == Err::<Group, SplitPayError>(SplitPayError::GroupNotFound)
            },
    {
        if group_id >= self.groups.len() as u64 {
            return Err(SplitPayError::GroupNotFound);
        }
        Ok(self.groups[group_id as usize].group.clone())
    }

    /// The members of group `group_id`, in the order they were given.
    pub fn get_members(&self, group_id: u64) -> (r: Result<Vec<Address>, SplitPayError>)
        requires
            self.wf(),
        ensures
            if self@.groups.contains_key(group_id) {
                r is Ok && r->Ok_0@ == self@.groups[group_id].members
            } else {
                r is Err && r->Err_0 == SplitPayError::GroupNotFound
            },
    {
        if group_id >= self.groups.len() as u64 {
            return Err(SplitPayError::GroupNotFound);
        }
        Ok(copy_addresses(&self.groups[group_id as usize].members))
    }

    /// What `member` is owed (positive) or owes (negative) in group
    /// `group_id`; zero where nothing is stored.
    pub fn get_balance(&self, group_id: u64, member: Address) -> (r: i128)
        requires
            self.wf(),
        ensures
            r == if self@.groups.contains_key(group_id) {
                balance_or_zero(self@.groups[group_id].balances, member@)
            } else {
                0
            },
    {
        if group_id >= self.groups.len() as u64 {
            return 0;
        }
        proof {
            assert(self.groups@[group_id as int].wf());
        }
        balance_in(&self.groups[group_id as usize].balances, &member)
    }

    /// The expenses recorded for group `group_id`, oldest first; empty
    /// where no group is stored.
    pub fn get_payments(&self, group_id: u64) -> (r: Vec<Payment>)
        requires
            self.wf(),
        ensures
            r@ == if self@.groups.contains_key(group_id) {
                self@.groups[group_id].payments
            } else {
                Seq::empty()
            },
    {
        if group_id >= self.groups.len() as u64 {
            return Vec::new();
        }
        copy_payments(&self.groups[group_id as usize].payments)
    }

    /// The id the next group will receive, i.e. the stored group counter
    /// (zero when unset).
    pub fn get_group_count(&self) -> (r: u64)
        ensures
            r == self@.next_group_id(),
    {
        match self.group_count {
            Some(c) => c,
            None => 0,
        }
    }
}

} // verus!
