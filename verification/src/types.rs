use vstd::prelude::*;
use crate::address::Address;
use crate::balances::{MemberBalance, balances_unique, balance_map};

verus! {

/// The stored description of an expense group.
#[derive(Debug)]
pub struct Group {
    pub id: u64,
    pub name: String,
    pub creator: Address,
    pub token: Address,
    pub total_members: u32,
    pub total_paid: i128,
    pub is_settled: bool,
}

impl Clone for Group {
    fn clone(&self) -> (r: Self)
        ensures
            r == *self,
    {
        Group {
            id: self.id,
            name: self.name.clone(),
            creator: self.creator.clone(),
            token: self.token.clone(),
            total_members: self.total_members,
            total_paid: self.total_paid,
            is_settled: self.is_settled,
        }
    }
}

/// One recorded expense of a group.
#[derive(Debug)]
pub struct Payment {
    pub payer: Address,
    pub amount: i128,
    pub description: String,
    pub timestamp: u64,
}

impl Clone for Payment {
    fn clone(&self) -> (r: Self)
        ensures
            r == *self,
    {
        Payment {
            payer: self.payer.clone(),
            amount: self.amount,
            description: self.description.clone(),
            timestamp: self.timestamp,
        }
    }
}

/// A token transfer that an operation asks the host to carry out:
/// `amount` units of `token` from `from` to `to`.
#[derive(Debug)]
pub struct Transfer {
    pub token: Address,
    pub from: Address,
    pub to: Address,
    pub amount: i128,
}

/// Why an operation was refused.  A refused operation leaves the state as it
/// was and asks for no transfer.
#[derive(Clone, Copy, Debug, PartialEq, Eq, Structural)]
pub enum SplitPayError {
    /// `initialize` on a contract that already has an admin.
    AlreadyInitialized,
    /// A group whose member list lacks its creator.
    CreatorNotMember,
    /// An expense or payment whose amount is zero or negative.
    AmountNotPositive,
    /// A direct split with nobody to pay.
    NoRecipients,
    /// No group is stored under the given id.
    GroupNotFound,
    /// The group has been settled already.
    GroupAlreadySettled,
    /// The payer of an expense is not a member of the group.
    PayerNotMember,
    /// Only the creator of a group may settle it.
    NotGroupCreator,
    /// A count or an amount would leave its integer range.
    ArithmeticOverflow,
}

/// Everything stored for one group: its description, its members in the
/// order they were given, its expense history and its balances.
pub struct GroupRecord {
    pub group: Group,
    pub members: Vec<Address>,
    pub payments: Vec<Payment>,
    pub balances: Vec<MemberBalance>,
}

/// The mathematical content of a group record.
pub struct GroupState {
    pub group: Group,
    pub members: Seq<Address>,
    pub payments: Seq<Payment>,
    pub balances: Map<Seq<char>, i128>,
}

impl View for GroupRecord {
    type V = GroupState;

    open spec fn view(&self) -> GroupState {
        GroupState {
            group: self.group,
            members: self.members@,
            payments: self.payments@,
            balances: balance_map(self.balances@),
        }
    }
}

/// Whether `who` occurs in the member list.
pub open spec fn is_member(members: Seq<Address>, who: Seq<char>) -> bool {
    exists|i: int| 0 <= i < members.len() && #[trigger] members[i]@ == who
}

/// The sum of the amounts of a payment history.
pub open spec fn payments_total(ps: Seq<Payment>) -> int
    decreases ps.len(),
{
    if ps.len() == 0 {
        0
    } else {
        payments_total(ps.drop_last()) + ps.last().amount
    }
}

/// A prefix of a history of positive payments adds up to no more than the
/// whole history.
pub proof fn lemma_payments_total_prefix(ps: Seq<Payment>, k: int)
    requires
        0 <= k <= ps.len(),
        forall|j: int| 0 <= j < ps.len() ==> (#[trigger] ps[j]).amount > 0,
    ensures
        payments_total(ps.subrange(0, k)) <= payments_total(ps),
    decreases ps.len(),
{
    if k == ps.len() {
        assert(ps.subrange(0, k) =~= ps);
    } else {
        let d = ps.drop_last();
        assert forall|j: int| 0 <= j < d.len() implies (#[trigger] d[j]).amount > 0 by {
            assert(d[j] == ps[j]);
        }
        lemma_payments_total_prefix(d, k);
        assert(d.subrange(0, k) =~= ps.subrange(0, k));
        assert(ps.last().amount > 0);
    }
}

/// What every stored group satisfies: a member list that counts the
/// creator, whose length the group records and that fits the host's 32-bit
/// lengths; a history of positive payments by members whose amounts add up
/// to the group's total.
pub open spec fn group_state_wf(g: GroupState) -> bool {
    &&& 0 < g.members.len() <= u32::MAX
    &&& g.group.total_members == g.members.len()
    &&& is_member(g.members, g.group.creator@)
    &&& g.group.total_paid >= 0
    &&& g.group.total_paid == payments_total(g.payments)
    &&& forall|j: int| 0 <= j < g.payments.len() ==> (#[trigger] g.payments[j]).amount > 0
        && is_member(g.members, g.payments[j].payer@)
}

impl GroupRecord {
    pub open spec fn wf(&self) -> bool {
        &&& balances_unique(self.balances@)
        &&& group_state_wf(self@)
    }
}

/// A copy of an address list.
pub fn copy_addresses(v: &Vec<Address>) -> (r: Vec<Address>)
    ensures
        r@ == v@,
{
    let r = v.clone();
    assert(r@ =~= v@);
    r
}

/// A copy of a payment list.
pub fn copy_payments(v: &Vec<Payment>) -> (r: Vec<Payment>)
    ensures
        r@ == v@,
{
    let r = v.clone();
    assert(r@ =~= v@);
    r
}

} // verus!
