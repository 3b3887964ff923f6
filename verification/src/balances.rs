use vstd::prelude::*;
use crate::address::Address;

verus! {

/// One stored balance of a group: what `member` is owed (positive) or owes
/// (negative) within the group.
pub struct MemberBalance {
    pub member: Address,
    pub balance: i128,
}

impl Clone for MemberBalance {
    fn clone(&self) -> (r: Self)
        ensures
            r == *self,
    {
        MemberBalance { member: self.member.clone(), balance: self.balance }
    }
}

/// No two entries of a balance list belong to the same member.
pub open spec fn balances_unique(s: Seq<MemberBalance>) -> bool {
    forall|i: int, j: int|
        0 <= i < s.len() && 0 <= j < s.len() && i != j ==> #[trigger] s[i].member@ != #[trigger] s[j].member@
}

/// Whether `who` has an entry in the list.
pub open spec fn has_entry(s: Seq<MemberBalance>, who: Seq<char>) -> bool {
    exists|i: int| 0 <= i < s.len() && #[trigger] s[i].member@ == who
}

/// The balances of a list, keyed by member.
pub open spec fn balance_map(s: Seq<MemberBalance>) -> Map<Seq<char>, i128> {
    Map::new(
        |who: Seq<char>| has_entry(s, who),
        |who: Seq<char>| s[choose|i: int| 0 <= i < s.len() && #[trigger] s[i].member@ == who].balance,
    )
}

/// The balance stored for `who`, or zero where none is stored.
pub open spec fn balance_or_zero(m: Map<Seq<char>, i128>, who: Seq<char>) -> int {
    if m.contains_key(who) {
        m[who] as int
    } else {
        0
    }
}

pub proof fn lemma_balance_map_at(s: Seq<MemberBalance>, i: int)
    requires
        balances_unique(s),
        0 <= i < s.len(),
    ensures
        balance_map(s).contains_key(s[i].member@),
        balance_map(s)[s[i].member@] == s[i].balance,
{
    let who = s[i].member@;
    assert(has_entry(s, who));
    let j: int = choose|j: int| 0 <= j < s.len() && #[trigger] s[j].member@ == who;
    assert(j == i);
}

pub proof fn lemma_balance_map_set(s: Seq<MemberBalance>, i: int, e: MemberBalance)
    requires
        balances_unique(s),
        0 <= i < s.len(),
        e.member@ == s[i].member@,
    ensures
        balances_unique(s.update(i, e)),
        balance_map(s.update(i, e)) == balance_map(s).insert(e.member@, e.balance),
{
    let t = s.update(i, e);
    assert(balances_unique(t)) by {
        assert forall|a: int, b: int| 0 <= a < t.len() && 0 <= b < t.len() && a != b implies
            #[trigger] t[a].member@ != #[trigger] t[b].member@ by {
            assert(s[a].member@ != s[b].member@);
        }
    }
    let m = balance_map(s).insert(e.member@, e.balance);
    assert forall|who: Seq<char>| #[trigger] has_entry(t, who) == m.contains_key(who) by {
        if has_entry(s, who) {
            let j: int = choose|j: int| 0 <= j < s.len() && #[trigger] s[j].member@ == who;
            assert(t[j].member@ == who);
        }
        if has_entry(t, who) {
            let j: int = choose|j: int| 0 <= j < t.len() && #[trigger] t[j].member@ == who;
            assert(s[j].member@ == who);
        }
    }
    assert forall|who: Seq<char>| #[trigger] m.contains_key(who) implies balance_map(t)[who] == m[who] by {
        let j: int = choose|j: int| 0 <= j < t.len() && #[trigger] t[j].member@ == who;
        assert(has_entry(t, who));
        if who == e.member@ {
            assert(j == i);
        } else {
            assert(s[j].member@ == who);
            lemma_balance_map_at(s, j);
        }
    }
    assert(balance_map(t) =~= m);
}

pub proof fn lemma_balance_map_push(s: Seq<MemberBalance>, e: MemberBalance)
    requires
        balances_unique(s),
        !has_entry(s, e.member@),
    ensures
        balances_unique(s.push(e)),
        balance_map(s.push(e)) == balance_map(s).insert(e.member@, e.balance),
{
    let t = s.push(e);
    assert(balances_unique(t)) by {
        assert forall|a: int, b: int| 0 <= a < t.len() && 0 <= b < t.len() && a != b implies
            #[trigger] t[a].member@ != #[trigger] t[b].member@ by {
            if a < s.len() && b < s.len() {
                assert(s[a].member@ != s[b].member@);
            } else if a < s.len() {
                assert(s[a].member@ != e.member@);
            } else {
                assert(s[b].member@ != e.member@);
            }
        }
    }
    let m = balance_map(s).insert(e.member@, e.balance);
    assert forall|who: Seq<char>| #[trigger] has_entry(t, who) == m.contains_key(who) by {
        if has_entry(s, who) {
            let j: int = choose|j: int| 0 <= j < s.len() && #[trigger] s[j].member@ == who;
            assert(t[j].member@ == who);
        }
        if who == e.member@ {
            assert(t[s.len() as int].member@ == who);
        }
        if has_entry(t, who) {
            let j: int = choose|j: int| 0 <= j < t.len() && #[trigger] t[j].member@ == who;
            if j < s.len() {
                assert(s[j].member@ == who);
            }
        }
    }
    assert forall|who: Seq<char>| #[trigger] m.contains_key(who) implies balance_map(t)[who] == m[who] by {
        let j: int = choose|j: int| 0 <= j < t.len() && #[trigger] t[j].member@ == who;
        assert(has_entry(t, who));
        if who == e.member@ {
            assert(t[s.len() as int].member@ == who);
            assert(j == s.len());
        } else {
            assert(s[j].member@ == who);
            lemma_balance_map_at(s, j);
        }
    }
    assert(balance_map(t) =~= m);
}

/// The position of `who`'s entry in the list, if it has one.
pub fn find_entry(s: &Vec<MemberBalance>, who: &Address) -> (r: Option<usize>)
    ensures
        match r {
            Some(i) => i < s@.len() && s@[i as int].member@ == who@,
            None => !has_entry(s@, who@),
        },
{
    let mut i: usize = 0;
    while i < s.len()
        invariant
            i <= s@.len(),
            forall|j: int| 0 <= j < i ==> #[trigger] s@[j].member@ != who@,
        decreases s@.len() - i,
    {
        if s[i].member.same(who) {
            return Some(i);
        }
        i = i + 1;
    }
    None
}

/// The balance the list stores for `who`, zero where it stores none.
pub fn balance_in(s: &Vec<MemberBalance>, who: &Address) -> (r: i128)
    requires
        balances_unique(s@),
    ensures
        r == balance_or_zero(balance_map(s@), who@),
{
    match find_entry(s, who) {
        Some(i) => {
            proof {
                lemma_balance_map_at(s@, i as int);
            }
            s[i].balance
        },
        None => 0,
    }
}

/// Stores `value` as `who`'s balance, replacing any earlier one.
pub fn set_balance(s: &mut Vec<MemberBalance>, who: &Address, value: i128)
    requires
        balances_unique(old(s)@),
    ensures
        balances_unique(final(s)@),
        balance_map(final(s)@) == balance_map(old(s)@).insert(who@, value),
{
    let entry = MemberBalance { member: who.clone(), balance: value };
    match find_entry(s, who) {
        Some(i) => {
            proof {
                lemma_balance_map_set(s@, i as int, entry);
            }
            s[i] = entry;
        },
        None => {
            proof {
                lemma_balance_map_push(s@, entry);
            }
            s.push(entry);
        },
    }
}

/// A copy of a balance list.
pub fn copy_balances(s: &Vec<MemberBalance>) -> (r: Vec<MemberBalance>)
    ensures
        r@ == s@,
{
    let mut r: Vec<MemberBalance> = Vec::new();
    let mut i: usize = 0;
    while i < s.len()
        invariant
            i <= s@.len(),
            r@ == s@.subrange(0, i as int),
        decreases s@.len() - i,
    {
        r.push(s[i].clone());
        i = i + 1;
    }
    assert(s@.subrange(0, s@.len() as int) == s@);
    r
}

} // verus!
