use std::collections::HashMap;

use splitpay::contract::SplitPayContract;
use splitpay::types::{GroupRecord, SplitPayError, Transfer};
use splitpay::Address;

fn addr(name: &str) -> Address {
    Address::from_string(name.to_string())
}

/// A stand-in for the token contract: balances by holder.
struct TokenLedger {
    balances: HashMap<Address, i128>,
}

impl TokenLedger {
    fn new() -> TokenLedger {
        TokenLedger { balances: HashMap::new() }
    }

    fn mint(&mut self, to: &Address, amount: i128) {
        *self.balances.entry(to.clone()).or_insert(0) += amount;
    }

    fn balance(&self, who: &Address) -> i128 {
        *self.balances.get(who).unwrap_or(&0)
    }

    fn apply(&mut self, t: &Transfer) {
        let from = self.balance(&t.from);
        assert!(from >= t.amount, "insufficient balance");
        self.balances.insert(t.from.clone(), from - t.amount);
        self.mint(&t.to, t.amount);
    }
}

fn members_of(names: &[&str]) -> Vec<Address> {
    names.iter().map(|n| addr(n)).collect()
}

#[test]
fn test_initialize() {
    let admin = addr("ADMIN");
    let mut client = SplitPayContract::new();
    client.initialize(admin).unwrap();
    assert_eq!(client.get_group_count(), 0);
}

#[test]
fn test_create_group() {
    let admin = addr("ADMIN");
    let alice = addr("ALICE");
    let token_address = addr("TOKEN");
    let mut client = SplitPayContract::new();
    client.initialize(admin).unwrap();

    let members = members_of(&["ALICE", "BOB", "CHARLIE"]);
    let group_id = client
        .create_group(alice, "Dinner Party".to_string(), token_address, members)
        .unwrap();

    assert_eq!(group_id, 0);
    assert_eq!(client.get_group_count(), 1);

    let group = client.get_group(group_id).unwrap();
    assert_eq!(group.total_members, 3);
    assert_eq!(group.is_settled, false);
}

#[test]
fn test_add_expense() {
    let admin = addr("ADMIN");
    let alice = addr("ALICE");
    let bob = addr("BOB");
    let charlie = addr("CHARLIE");
    let token_address = addr("TOKEN");
    let contract_id = addr("SPLITPAY");

    let mut ledger = TokenLedger::new();
    ledger.mint(&alice, 3000);

    let mut client = SplitPayContract::new();
    client.initialize(admin).unwrap();

    let members = vec![alice.clone(), bob.clone(), charlie.clone()];
    let group_id = client
        .create_group(alice.clone(), "Dinner Party".to_string(), token_address.clone(), members)
        .unwrap();

    let transfer = client
        .add_expense(group_id, alice.clone(), 3000, "Restaurant bill".to_string(), 0, contract_id.clone())
        .unwrap();
    ledger.apply(&transfer);

    let group = client.get_group(group_id).unwrap();
    assert_eq!(group.total_paid, 3000);

    let payments = client.get_payments(group_id);
    assert_eq!(payments.len(), 1);

    // Alice paid 3000, split 3 ways = 1000 each
    // Alice is owed 2000 (she paid for bob and charlie)
    assert_eq!(client.get_balance(group_id, alice.clone()), 2000);
    assert_eq!(client.get_balance(group_id, bob), -1000);
    assert_eq!(client.get_balance(group_id, charlie), -1000);
    assert_eq!(ledger.balance(&contract_id), 3000);
    assert_eq!(ledger.balance(&alice), 0);
}

#[test]
fn test_split_payment() {
    let payer = addr("PAYER");
    let recipient1 = addr("RECIPIENT1");
    let recipient2 = addr("RECIPIENT2");
    let token_address = addr("TOKEN");

    let mut ledger = TokenLedger::new();
    ledger.mint(&payer, 1000);

    let mut client = SplitPayContract::new();
    client.initialize(addr("ADMIN")).unwrap();

    let recipients = vec![recipient1.clone(), recipient2.clone()];
    let transfers = SplitPayContract::split_payment(payer.clone(), token_address, 1000, recipients).unwrap();
    for t in &transfers {
        ledger.apply(t);
    }

    assert_eq!(ledger.balance(&recipient1), 500);
    assert_eq!(ledger.balance(&recipient2), 500);
    assert_eq!(ledger.balance(&payer), 0);
}

#[test]
fn test_settle_group() {
    let admin = addr("ADMIN");
    let alice = addr("ALICE");
    let bob = addr("BOB");
    let token_address = addr("TOKEN");
    let contract_id = addr("SPLITPAY");

    let mut ledger = TokenLedger::new();
    ledger.mint(&alice, 1000);
    ledger.mint(&bob, 1000);

    let mut client = SplitPayContract::new();
    client.initialize(admin).unwrap();

    let members = vec![alice.clone(), bob.clone()];
    let group_id = client
        .create_group(alice.clone(), "Trip".to_string(), token_address, members)
        .unwrap();

    // Alice pays 600
    let t = client
        .add_expense(group_id, alice.clone(), 600, "Hotel".to_string(), 0, contract_id.clone())
        .unwrap();
    ledger.apply(&t);

    // Bob pays 400
    let t = client
        .add_expense(group_id, bob.clone(), 400, "Food".to_string(), 0, contract_id.clone())
        .unwrap();
    ledger.apply(&t);

    let payouts = client.settle_group(group_id, alice.clone(), contract_id.clone()).unwrap();
    for t in &payouts {
        ledger.apply(t);
    }

    let group = client.get_group(group_id).unwrap();
    assert_eq!(group.is_settled, true);

    // alice: 1000 - 600 + (500 + 100) = 1000; bob: 1000 - 400 + (500 - 100) = 1000
    assert_eq!(ledger.balance(&alice), 1000);
    assert_eq!(ledger.balance(&bob), 1000);
}

// ── Further scenarios ──────────────────────────────────────────────

#[test]
fn initialize_twice_is_refused() {
    let mut c = SplitPayContract::new();
    c.initialize(addr("ADMIN")).unwrap();
    assert_eq!(c.initialize(addr("OTHER")), Err(SplitPayError::AlreadyInitialized));
}

#[test]
fn creator_must_be_member() {
    let mut c = SplitPayContract::new();
    let r = c.create_group(addr("ALICE"), "G".to_string(), addr("TOKEN"), members_of(&["BOB"]));
    assert_eq!(r, Err(SplitPayError::CreatorNotMember));
    assert_eq!(c.get_group_count(), 0);
    assert_eq!(c.get_group(0).unwrap_err(), SplitPayError::GroupNotFound);
}

#[test]
fn expense_errors() {
    let mut c = SplitPayContract::new();
    let contract_id = addr("SPLITPAY");
    let id = c
        .create_group(addr("ALICE"), "G".to_string(), addr("TOKEN"), members_of(&["ALICE", "BOB"]))
        .unwrap();
    let r = c.add_expense(id, addr("ALICE"), 0, "x".to_string(), 0, contract_id.clone());
    assert_eq!(r.unwrap_err(), SplitPayError::AmountNotPositive);
    let r = c.add_expense(id, addr("ALICE"), -5, "x".to_string(), 0, contract_id.clone());
    assert_eq!(r.unwrap_err(), SplitPayError::AmountNotPositive);
    let r = c.add_expense(7, addr("ALICE"), 10, "x".to_string(), 0, contract_id.clone());
    assert_eq!(r.unwrap_err(), SplitPayError::GroupNotFound);
    let r = c.add_expense(id, addr("CAROL"), 10, "x".to_string(), 0, contract_id.clone());
    assert_eq!(r.unwrap_err(), SplitPayError::PayerNotMember);
    assert_eq!(c.get_group(id).unwrap().total_paid, 0);
    assert_eq!(c.get_payments(id).len(), 0);
}

#[test]
fn settle_errors_and_finality() {
    let mut c = SplitPayContract::new();
    let contract_id = addr("SPLITPAY");
    let id = c
        .create_group(addr("ALICE"), "G".to_string(), addr("TOKEN"), members_of(&["ALICE", "BOB"]))
        .unwrap();
    assert_eq!(c.settle_group(9, addr("ALICE"), contract_id.clone()).unwrap_err(), SplitPayError::GroupNotFound);
    assert_eq!(c.settle_group(id, addr("BOB"), contract_id.clone()).unwrap_err(), SplitPayError::NotGroupCreator);
    let payouts = c.settle_group(id, addr("ALICE"), contract_id.clone()).unwrap();
    assert!(payouts.is_empty());
    assert_eq!(c.settle_group(id, addr("ALICE"), contract_id.clone()).unwrap_err(), SplitPayError::GroupAlreadySettled);
    let r = c.add_expense(id, addr("ALICE"), 10, "late".to_string(), 0, contract_id);
    assert_eq!(r.unwrap_err(), SplitPayError::GroupAlreadySettled);
}

#[test]
fn split_payment_errors() {
    let r = SplitPayContract::split_payment(addr("P"), addr("T"), 0, members_of(&["A"]));
    assert_eq!(r.unwrap_err(), SplitPayError::AmountNotPositive);
    let r = SplitPayContract::split_payment(addr("P"), addr("T"), 10, Vec::new());
    assert_eq!(r.unwrap_err(), SplitPayError::NoRecipients);
}

#[test]
fn split_payment_gives_remainder_to_first() {
    let ts = SplitPayContract::split_payment(addr("P"), addr("T"), 1000, members_of(&["A", "B", "C"])).unwrap();
    let amounts: Vec<i128> = ts.iter().map(|t| t.amount).collect();
    assert_eq!(amounts, vec![334, 333, 333]);
    assert_eq!(ts[1].to, addr("B"));
    assert!(ts.iter().all(|t| t.from == addr("P") && t.token == addr("T")));
    assert_eq!(amounts.iter().sum::<i128>(), 1000);
}

#[test]
fn expense_remainder_falls_on_first_member() {
    let mut c = SplitPayContract::new();
    let contract_id = addr("SPLITPAY");
    let id = c
        .create_group(addr("ALICE"), "G".to_string(), addr("TOKEN"), members_of(&["ALICE", "BOB", "CAROL"]))
        .unwrap();
    // Bob pays 100 among 3: share 33, remainder 1 borne by Alice (position 0).
    let t = c.add_expense(id, addr("BOB"), 100, "snacks".to_string(), 42, contract_id.clone()).unwrap();
    assert_eq!(t.amount, 100);
    assert_eq!(t.from, addr("BOB"));
    assert_eq!(t.to, contract_id);
    assert_eq!(t.token, addr("TOKEN"));
    assert_eq!(c.get_balance(id, addr("ALICE")), -34);
    assert_eq!(c.get_balance(id, addr("BOB")), 67);
    assert_eq!(c.get_balance(id, addr("CAROL")), -33);
    // Balances of distinct members sum to zero.
    let sum: i128 = ["ALICE", "BOB", "CAROL"].iter().map(|m| c.get_balance(id, addr(m))).sum();
    assert_eq!(sum, 0);
    let p = &c.get_payments(id)[0];
    assert_eq!(p.payer, addr("BOB"));
    assert_eq!(p.amount, 100);
    assert_eq!(p.description, "snacks");
    assert_eq!(p.timestamp, 42);
    // Alice, at position 0, pays 100: she absorbs the remainder herself.
    c.add_expense(id, addr("ALICE"), 100, "more".to_string(), 43, contract_id).unwrap();
    assert_eq!(c.get_balance(id, addr("ALICE")), -34 + 66);
    assert_eq!(c.get_balance(id, addr("BOB")), 67 - 33);
    assert_eq!(c.get_balance(id, addr("CAROL")), -33 - 33);
}

#[test]
fn settlement_pays_fair_share_plus_balance() {
    let mut c = SplitPayContract::new();
    let contract_id = addr("SPLITPAY");
    let id = c
        .create_group(addr("ALICE"), "G".to_string(), addr("TOKEN"), members_of(&["ALICE", "BOB", "CAROL"]))
        .unwrap();
    c.add_expense(id, addr("ALICE"), 3000, "rent".to_string(), 0, contract_id.clone()).unwrap();
    let payouts = c.settle_group(id, addr("ALICE"), contract_id.clone()).unwrap();
    // fair share 1000; Alice +2000 -> 3000, Bob and Carol -1000 -> 0 (no transfer)
    assert_eq!(payouts.len(), 1);
    assert_eq!(payouts[0].to, addr("ALICE"));
    assert_eq!(payouts[0].from, contract_id);
    assert_eq!(payouts[0].amount, 3000);
    for m in ["ALICE", "BOB", "CAROL"] {
        assert_eq!(c.get_balance(id, addr(m)), 0);
    }
}

#[test]
fn overflow_is_refused() {
    let mut c = SplitPayContract::new();
    let contract_id = addr("SPLITPAY");
    let id = c
        .create_group(addr("ALICE"), "G".to_string(), addr("TOKEN"), members_of(&["ALICE"]))
        .unwrap();
    c.add_expense(id, addr("ALICE"), i128::MAX, "a".to_string(), 0, contract_id.clone()).unwrap();
    let r = c.add_expense(id, addr("ALICE"), 1, "b".to_string(), 0, contract_id);
    assert_eq!(r.unwrap_err(), SplitPayError::ArithmeticOverflow);
    assert_eq!(c.get_group(id).unwrap().total_paid, i128::MAX);
    assert_eq!(c.get_payments(id).len(), 1);
}

#[test]
fn group_counter_and_reads() {
    let mut c = SplitPayContract::new();
    c.initialize(addr("ADMIN")).unwrap();
    let a = c.create_group(addr("A"), "one".to_string(), addr("T"), members_of(&["A", "B"])).unwrap();
    let b = c.create_group(addr("B"), "two".to_string(), addr("T"), members_of(&["B"])).unwrap();
    assert_eq!((a, b), (0, 1));
    assert_eq!(c.get_group_count(), 2);
    let g = c.get_group(b).unwrap();
    assert_eq!(g.id, 1);
    assert_eq!(g.name, "two");
    assert_eq!(g.creator, addr("B"));
    assert_eq!(g.total_members, 1);
    assert_eq!(c.get_members(a).unwrap(), members_of(&["A", "B"]));
    assert_eq!(c.get_members(5).unwrap_err(), SplitPayError::GroupNotFound);
    assert_eq!(c.get_balance(a, addr("ZED")), 0);
    assert_eq!(c.get_balance(9, addr("A")), 0);
    assert!(c.get_payments(9).is_empty());
}

#[test]
fn initialize_keeps_counter_of_earlier_groups() {
    // Groups can be made before initialization; initializing keeps the
    // counter, so no later group takes an id already in use.
    let mut c = SplitPayContract::new();
    let contract_id = addr("SPLITPAY");
    let id = c.create_group(addr("A"), "old".to_string(), addr("T"), members_of(&["A", "B"])).unwrap();
    c.add_expense(id, addr("A"), 10, "x".to_string(), 0, contract_id.clone()).unwrap();
    c.settle_group(id, addr("A"), contract_id).unwrap();
    c.initialize(addr("ADMIN")).unwrap();
    assert_eq!(c.get_group_count(), 1);
    let id2 = c.create_group(addr("C"), "new".to_string(), addr("T"), members_of(&["C"])).unwrap();
    assert_eq!(id2, 1);
    let old = c.get_group(0).unwrap();
    assert_eq!(old.name, "old");
    assert!(old.is_settled);
    assert_eq!(old.total_paid, 10);
    assert_eq!(c.get_payments(0).len(), 1);
    assert_eq!(c.get_members(0).unwrap(), members_of(&["A", "B"]));
    assert_eq!(c.get_group(1).unwrap().name, "new");
}

#[test]
fn settled_group_stays_settled() {
    let mut c = SplitPayContract::new();
    let contract_id = addr("SPLITPAY");
    let id = c.create_group(addr("A"), "g".to_string(), addr("T"), members_of(&["A", "B"])).unwrap();
    c.add_expense(id, addr("B"), 40, "x".to_string(), 0, contract_id.clone()).unwrap();
    c.settle_group(id, addr("A"), contract_id.clone()).unwrap();
    c.create_group(addr("B"), "h".to_string(), addr("T"), members_of(&["B"])).unwrap();
    c.initialize(addr("ADMIN")).unwrap();
    assert!(c.add_expense(id, addr("A"), 5, "late".to_string(), 0, contract_id.clone()).is_err());
    assert!(c.settle_group(id, addr("A"), contract_id).is_err());
    let g = c.get_group(id).unwrap();
    assert!(g.is_settled);
    assert_eq!(g.total_paid, 40);
    assert_eq!(c.get_payments(id).len(), 1);
    assert_eq!(c.get_balance(id, addr("A")), 0);
    assert_eq!(c.get_balance(id, addr("B")), 0);
}

#[test]
fn members_round_trip() {
    let mut c = SplitPayContract::new();
    let contract_id = addr("SPLITPAY");
    let members = members_of(&["A", "B", "A", "C"]);
    let id = c.create_group(addr("C"), "g".to_string(), addr("T"), members.clone()).unwrap();
    c.create_group(addr("B"), "h".to_string(), addr("T"), members_of(&["B"])).unwrap();
    c.add_expense(id, addr("B"), 8, "x".to_string(), 0, contract_id.clone()).unwrap();
    c.settle_group(id, addr("C"), contract_id).unwrap();
    assert_eq!(c.get_members(id).unwrap(), members);
}

#[test]
fn group_ids_are_consecutive() {
    let mut c = SplitPayContract::new();
    c.initialize(addr("ADMIN")).unwrap();
    for expected in 0..5u64 {
        let id = c.create_group(addr("A"), "g".to_string(), addr("T"), members_of(&["A"])).unwrap();
        assert_eq!(id, expected);
        assert_eq!(c.get_group_count(), expected + 1);
    }
}

#[test]
fn even_expenses_repay_each_payer() {
    let mut c = SplitPayContract::new();
    let contract_id = addr("SPLITPAY");
    let id = c
        .create_group(addr("A"), "g".to_string(), addr("T"), members_of(&["A", "B", "C"]))
        .unwrap();
    c.add_expense(id, addr("A"), 300, "x".to_string(), 0, contract_id.clone()).unwrap();
    c.add_expense(id, addr("B"), 600, "y".to_string(), 0, contract_id.clone()).unwrap();
    let payouts = c.settle_group(id, addr("A"), contract_id).unwrap();
    let paid: Vec<(Address, i128)> = payouts.iter().map(|t| (t.to.clone(), t.amount)).collect();
    assert_eq!(paid, vec![(addr("A"), 300), (addr("B"), 600)]);
}

#[test]
fn expenses_commute() {
    let contract_id = addr("SPLITPAY");
    let mut one = SplitPayContract::new();
    let mut two = SplitPayContract::new();
    for c in [&mut one, &mut two] {
        c.create_group(addr("A"), "g".to_string(), addr("T"), members_of(&["A", "B", "C"])).unwrap();
    }
    one.add_expense(0, addr("A"), 100, "x".to_string(), 1, contract_id.clone()).unwrap();
    one.add_expense(0, addr("C"), 50, "y".to_string(), 2, contract_id.clone()).unwrap();
    two.add_expense(0, addr("C"), 50, "y".to_string(), 2, contract_id.clone()).unwrap();
    two.add_expense(0, addr("A"), 100, "x".to_string(), 1, contract_id).unwrap();
    for m in ["A", "B", "C"] {
        assert_eq!(one.get_balance(0, addr(m)), two.get_balance(0, addr(m)));
    }
    assert_eq!(one.get_group(0).unwrap().total_paid, two.get_group(0).unwrap().total_paid);
    assert_eq!(one.get_payments(0)[0].amount, 100);
    assert_eq!(two.get_payments(0)[0].amount, 50);
}

#[test]
fn parts_round_trip() {
    let mut c = SplitPayContract::new();
    c.initialize(addr("ADMIN")).unwrap();
    c.create_group(addr("A"), "g".to_string(), addr("T"), members_of(&["A", "B"])).unwrap();
    let (admin, count, groups) = c.into_parts();
    assert_eq!(admin, Some(addr("ADMIN")));
    assert_eq!(count, Some(1));
    assert_eq!(groups.len(), 1);
    let c2 = SplitPayContract::from_parts(admin, count, groups).unwrap();
    assert_eq!(c2.get_group(0).unwrap().name, "g");
    // A counter that does not count the stored groups is refused.
    assert!(SplitPayContract::from_parts(None, Some(3), Vec::<GroupRecord>::new()).is_none());
    let mut c3 = SplitPayContract::new();
    c3.create_group(addr("A"), "g".to_string(), addr("T"), members_of(&["A"])).unwrap();
    c3.add_expense(0, addr("A"), 7, "x".to_string(), 0, addr("SPLITPAY")).unwrap();
    let (admin, count, mut groups) = c3.into_parts();
    groups[0].group.total_paid = 8;
    assert!(SplitPayContract::from_parts(admin, count, groups).is_none());
}

#[test]
fn settlement_keeps_rounding_remainder() {
    let mut c = SplitPayContract::new();
    let contract_id = addr("SPLITPAY");
    let mut ledger = TokenLedger::new();
    ledger.mint(&addr("ALICE"), 1000);
    ledger.mint(&addr("BOB"), 1000);
    let id = c
        .create_group(addr("ALICE"), "Trip".to_string(), addr("TOKEN"), members_of(&["ALICE", "BOB"]))
        .unwrap();
    ledger.apply(&c.add_expense(id, addr("ALICE"), 601, "a".to_string(), 0, contract_id.clone()).unwrap());
    ledger.apply(&c.add_expense(id, addr("BOB"), 400, "b".to_string(), 0, contract_id.clone()).unwrap());
    assert_eq!(c.get_balance(id, addr("ALICE")), 100);
    assert_eq!(c.get_balance(id, addr("BOB")), -100);
    let payouts = c.settle_group(id, addr("ALICE"), contract_id.clone()).unwrap();
    let total: i128 = payouts.iter().map(|t| t.amount).sum();
    // Two members, fair share 1001 / 2 = 500: 2 * 500 paid out, 1 unit stays.
    assert_eq!(total, 1000);
    for t in &payouts {
        ledger.apply(t);
    }
    assert_eq!(ledger.balance(&contract_id), 1);
    assert_eq!(ledger.balance(&addr("ALICE")), 999);
    assert_eq!(ledger.balance(&addr("BOB")), 1000);
}

#[test]
fn settlement_never_pays_out_more_than_deposited() {
    // Bob pays 1 twice in a group of two: each time the remainder 1 is
    // charged to Alice (position 0), so Alice owes 2 and Bob is owed 2.
    // With a fair share of 1, Alice's payout would be -1 and Bob's 3; the
    // group holds only 2, so Bob receives 2 and nothing else leaves.
    let mut c = SplitPayContract::new();
    let contract_id = addr("SPLITPAY");
    let id = c
        .create_group(addr("ALICE"), "G".to_string(), addr("TOKEN"), members_of(&["ALICE", "BOB"]))
        .unwrap();
    c.add_expense(id, addr("BOB"), 1, "a".to_string(), 0, contract_id.clone()).unwrap();
    c.add_expense(id, addr("BOB"), 1, "b".to_string(), 0, contract_id.clone()).unwrap();
    assert_eq!(c.get_balance(id, addr("ALICE")), -2);
    assert_eq!(c.get_balance(id, addr("BOB")), 2);
    let payouts = c.settle_group(id, addr("ALICE"), contract_id).unwrap();
    assert_eq!(payouts.len(), 1);
    assert_eq!(payouts[0].to, addr("BOB"));
    assert_eq!(payouts[0].amount, 2);
}

#[test]
fn repeated_member_is_booked_at_each_position() {
    let mut c = SplitPayContract::new();
    let contract_id = addr("SPLITPAY");
    let id = c
        .create_group(addr("A"), "G".to_string(), addr("TOKEN"), members_of(&["A", "B", "A"]))
        .unwrap();
    assert_eq!(c.get_group(id).unwrap().total_members, 3);
    c.add_expense(id, addr("A"), 30, "x".to_string(), 0, contract_id.clone()).unwrap();
    assert_eq!(c.get_balance(id, addr("A")), 40);
    assert_eq!(c.get_balance(id, addr("B")), -10);
    // Settling would pay A's first position 10 + 40 and its second the bare
    // fair share 10, but the group holds only 30: A receives 30 in all.
    let payouts = c.settle_group(id, addr("A"), contract_id).unwrap();
    let amounts: Vec<i128> = payouts.iter().map(|t| t.amount).collect();
    assert_eq!(amounts, vec![30]);
}
