use split_payment::balance::compute_member_share;
use split_payment::{SplitError, SplitInfo, SplitPayment};

const A: u64 = 1;
const B: u64 = 2;
const C: u64 = 3;

fn split(entries: &[(u64, i128)]) -> Vec<SplitInfo> {
    entries.iter().map(|&(m, s)| SplitInfo::new(m, s)).collect()
}

fn pair_group() -> (SplitPayment, u32) {
    let mut ledger = SplitPayment::new();
    let g = ledger.create_group(vec![A, B]).unwrap();
    (ledger, g)
}

#[test]
fn create_group_rejects_empty_members() {
    let mut ledger = SplitPayment::new();
    assert_eq!(ledger.create_group(vec![]), Err(SplitError::EmptyMembers));
    assert_eq!(ledger.get_group_members(1), Err(SplitError::GroupNotFound));
}

#[test]
fn create_group_issues_increasing_ids() {
    let mut ledger = SplitPayment::new();
    assert_eq!(ledger.create_group(vec![A]), Ok(1));
    assert_eq!(ledger.create_group(vec![A, B]), Ok(2));
    assert_eq!(ledger.create_group(vec![]), Err(SplitError::EmptyMembers));
    assert_eq!(ledger.create_group(vec![C]), Ok(3));
    assert_eq!(ledger.get_group_members(2).unwrap(), &vec![A, B]);
    assert_eq!(ledger.get_member_balance(2, B), Ok(0));
}

#[test]
fn member_index_tracks_groups() {
    let mut ledger = SplitPayment::new();
    let g1 = ledger.create_group(vec![A, B]).unwrap();
    let g2 = ledger.create_group(vec![A]).unwrap();
    assert_eq!(ledger.member_groups.get(&A), Some(&vec![g1, g2]));
    ledger.add_member(g2, B).unwrap();
    assert_eq!(ledger.member_groups.get(&B), Some(&vec![g1, g2]));
    ledger.remove_member(g1, B).unwrap();
    assert_eq!(ledger.member_groups.get(&B), Some(&vec![g2]));
}

#[test]
fn add_member_appends_and_rejects_duplicates() {
    let (mut ledger, g) = pair_group();
    assert_eq!(ledger.add_member(g, C), Ok(()));
    assert_eq!(ledger.get_group_members(g).unwrap(), &vec![A, B, C]);
    assert_eq!(ledger.add_member(g, B), Err(SplitError::DuplicateMember));
    assert_eq!(ledger.add_member(9, C), Err(SplitError::GroupNotFound));
}

#[test]
fn remove_member_requires_zero_balance() {
    let (mut ledger, g) = pair_group();
    ledger.add_member(g, C).unwrap();
    ledger
        .add_expense(g, A, 100, String::from("lunch"), split(&[(A, 5000), (B, 5000)]), 7)
        .unwrap();
    assert_eq!(ledger.remove_member(g, B), Err(SplitError::NonZeroBalance));
    assert_eq!(ledger.remove_member(g, A), Err(SplitError::NonZeroBalance));
    assert_eq!(ledger.remove_member(g, 42), Err(SplitError::NotAMember));
    assert_eq!(ledger.remove_member(5, C), Err(SplitError::GroupNotFound));
    assert_eq!(ledger.remove_member(g, C), Ok(()));
    assert_eq!(ledger.get_group_members(g).unwrap(), &vec![A, B]);
    assert_eq!(ledger.get_member_balance(g, C), Err(SplitError::NotAMember));
}

#[test]
fn add_expense_validation_order() {
    let (mut ledger, g) = pair_group();
    let ok = split(&[(A, 5000), (B, 5000)]);
    let d = || String::from("d");
    assert_eq!(ledger.add_expense(7, A, 100, d(), ok.clone(), 0), Err(SplitError::GroupNotFound));
    assert_eq!(ledger.add_expense(g, C, 100, d(), ok.clone(), 0), Err(SplitError::NotAMember));
    assert_eq!(ledger.add_expense(g, A, 0, d(), ok.clone(), 0), Err(SplitError::InvalidAmount));
    assert_eq!(ledger.add_expense(g, A, -5, d(), ok.clone(), 0), Err(SplitError::InvalidAmount));
    assert_eq!(
        ledger.add_expense(g, A, 100, d(), split(&[(A, 5000), (C, 5000)]), 0),
        Err(SplitError::NotAMember)
    );
    assert_eq!(
        ledger.add_expense(g, A, 100, d(), split(&[(A, i128::MAX), (B, 1)]), 0),
        Err(SplitError::Overflow)
    );
    assert!(ledger.get_group_expenses(g).unwrap().is_empty());
    assert_eq!(ledger.groups[0].total_amount, 0);
}

#[test]
fn add_expense_rejects_shares_not_summing_to_full() {
    let mut ledger = SplitPayment::new();
    let g = ledger.create_group(vec![A, B, C]).unwrap();
    assert_eq!(
        ledger.add_expense(
            g,
            A,
            100,
            String::from("x"),
            split(&[(A, 4000), (B, 4000), (C, 1999)]),
            0
        ),
        Err(SplitError::SplitMismatch)
    );
    assert_eq!(
        ledger.add_expense(g, A, 100, String::from("x"), split(&[(A, 5000), (B, 5000)]), 0),
        Ok(0)
    );
    assert_eq!(
        ledger.add_expense(g, A, 100, String::from("x"), vec![], 0),
        Err(SplitError::SplitMismatch)
    );
}

#[test]
fn two_member_expense_and_settlement() {
    let (mut ledger, g) = pair_group();
    let idx = ledger
        .add_expense(g, A, 100, String::from("dinner"), split(&[(A, 5000), (B, 5000)]), 11)
        .unwrap();
    assert_eq!(idx, 0);
    assert_eq!(ledger.get_member_balance(g, A), Ok(50));
    assert_eq!(ledger.get_member_balance(g, B), Ok(-50));
    assert_eq!(ledger.groups[0].total_amount, 100);
    assert_eq!(ledger.settle_debt(g, B, A, 50), Ok(()));
    assert_eq!(ledger.get_member_balance(g, A), Ok(0));
    assert_eq!(ledger.get_member_balance(g, B), Ok(0));
    assert_eq!(ledger.remove_expense(g, 0, B), Err(SplitError::NotOriginalPayer));
    assert_eq!(ledger.remove_expense(g, 0, A), Ok(()));
    assert_eq!(ledger.get_member_balance(g, A), Ok(-50));
    assert_eq!(ledger.get_member_balance(g, B), Ok(50));
    assert_eq!(ledger.groups[0].total_amount, 0);
}

#[test]
fn removing_an_expense_shifts_later_indices() {
    let (mut ledger, g) = pair_group();
    let s = || split(&[(A, 5000), (B, 5000)]);
    assert_eq!(ledger.add_expense(g, A, 100, String::from("first"), s(), 1), Ok(0));
    assert_eq!(ledger.add_expense(g, B, 40, String::from("second"), s(), 2), Ok(1));
    assert_eq!(ledger.remove_expense(g, 0, A), Ok(()));
    let log = ledger.get_group_expenses(g).unwrap();
    assert_eq!(log.len(), 1);
    assert_eq!(log[0].description, "second");
    assert_eq!(log[0].payer, B);
    assert_eq!(log[0].amount, 40);
    assert_eq!(log[0].timestamp, 2);
    assert_eq!(ledger.remove_expense(g, 1, B), Err(SplitError::ExpenseIndexOutOfRange));
    assert_eq!(ledger.remove_expense(g, 0, A), Err(SplitError::NotOriginalPayer));
    assert_eq!(ledger.remove_expense(3, 0, A), Err(SplitError::GroupNotFound));
    assert_eq!(ledger.groups[0].total_amount, 40);
}

#[test]
fn add_then_remove_restores_balances() {
    let mut ledger = SplitPayment::new();
    let g = ledger.create_group(vec![A, B, C]).unwrap();
    ledger
        .add_expense(g, B, 70, String::from("taxi"), split(&[(A, 5000), (B, 5000)]), 0)
        .unwrap();
    let before: Vec<i128> = [A, B, C].iter().map(|&m| ledger.get_member_balance(g, m).unwrap()).collect();
    let idx = ledger
        .add_expense(g, A, 101, String::from("tea"), split(&[(A, 3333), (B, 3333), (C, 3334)]), 0)
        .unwrap();
    assert_eq!(ledger.get_member_balance(g, A), Ok(-35 + 101 - 33));
    assert_eq!(ledger.get_member_balance(g, B), Ok(35 - 33));
    assert_eq!(ledger.get_member_balance(g, C), Ok(-33));
    ledger.remove_expense(g, idx, A).unwrap();
    let after: Vec<i128> = [A, B, C].iter().map(|&m| ledger.get_member_balance(g, m).unwrap()).collect();
    assert_eq!(before, after);
    assert_eq!(ledger.groups[0].total_amount, 70);
}

#[test]
fn rounding_truncates_toward_zero() {
    assert_eq!(compute_member_share(101, 3333), Some(33));
    assert_eq!(compute_member_share(100, 5000), Some(50));
    assert_eq!(compute_member_share(101, -3333), Some(-33));
    assert_eq!(compute_member_share(i128::MAX, 2), None);
    let mut ledger = SplitPayment::new();
    let g = ledger.create_group(vec![A, B]).unwrap();
    ledger
        .add_expense(g, A, 3, String::from("gum"), split(&[(A, 15000), (B, -5000)]), 0)
        .unwrap();
    // A absorbs 4 (4.5 rounded toward zero), B is owed 1 (-1.5 toward zero).
    assert_eq!(ledger.get_member_balance(g, A), Ok(3 - 4));
    assert_eq!(ledger.get_member_balance(g, B), Ok(1));
}

#[test]
fn duplicate_split_entries_both_apply() {
    let (mut ledger, g) = pair_group();
    ledger
        .add_expense(g, A, 100, String::from("x"), split(&[(B, 2500), (B, 2500), (A, 5000)]), 0)
        .unwrap();
    assert_eq!(ledger.get_member_balance(g, B), Ok(-50));
    assert_eq!(ledger.get_member_balance(g, A), Ok(50));
}

#[test]
fn settle_debt_checks() {
    let mut ledger = SplitPayment::new();
    let g = ledger.create_group(vec![A, B, C]).unwrap();
    ledger
        .add_expense(g, A, 90, String::from("x"), split(&[(B, 5000), (C, 5000)]), 0)
        .unwrap();
    assert_eq!(ledger.get_member_balance(g, B), Ok(-45));
    assert_eq!(ledger.settle_debt(4, B, A, 1), Err(SplitError::GroupNotFound));
    assert_eq!(ledger.settle_debt(g, 9, A, 1), Err(SplitError::NotAMember));
    assert_eq!(ledger.settle_debt(g, B, 9, 1), Err(SplitError::NotAMember));
    assert_eq!(ledger.settle_debt(g, B, A, 0), Err(SplitError::InvalidAmount));
    assert_eq!(ledger.settle_debt(g, A, B, 10), Err(SplitError::NoDebt));
    assert_eq!(ledger.settle_debt(g, B, A, 46), Err(SplitError::OverSettlement));
    assert_eq!(ledger.settle_debt(g, B, C, 20), Ok(()));
    assert_eq!(ledger.get_member_balance(g, B), Ok(-25));
    assert_eq!(ledger.get_member_balance(g, C), Ok(-65));
    // The payer is credited only through an entry of their own.
    assert_eq!(ledger.get_member_balance(g, A), Ok(0));
    assert_eq!(ledger.settle_debt(g, B, B, 25), Ok(()));
    assert_eq!(ledger.get_member_balance(g, B), Ok(-25));
}

#[test]
fn settle_debt_reports_overflow() {
    const D: u64 = 4;
    let q = i128::MAX / 10000;
    let mut ledger = SplitPayment::new();
    let g = ledger.create_group(vec![A, B, C, D]).unwrap();
    for _ in 0..6000 {
        ledger
            .add_expense(g, A, 1, String::from("b"), split(&[(B, i128::MAX), (A, 10000 - i128::MAX)]), 0)
            .unwrap();
        ledger
            .add_expense(g, D, 1, String::from("c"), split(&[(C, i128::MAX), (D, 10000 - i128::MAX)]), 0)
            .unwrap();
    }
    assert_eq!(ledger.get_member_balance(g, B), Ok(-6000 * q));
    assert_eq!(ledger.get_member_balance(g, C), Ok(-6000 * q));
    assert_eq!(ledger.settle_debt(g, B, C, 5000 * q), Err(SplitError::Overflow));
    assert_eq!(ledger.get_member_balance(g, B), Ok(-6000 * q));
    assert_eq!(ledger.settle_debt(g, B, C, 1000 * q), Ok(()));
    assert_eq!(ledger.get_member_balance(g, C), Ok(-7000 * q));
}

#[test]
fn balance_overflow_is_rejected() {
    let mut ledger = SplitPayment::new();
    let g = ledger.create_group(vec![A, B]).unwrap();
    let mut entries = Vec::new();
    for _ in 0..10001 {
        entries.push((B, i128::MAX));
        entries.push((A, -i128::MAX));
    }
    entries.push((A, 10000));
    let r = ledger.add_expense(g, A, 1, String::from("x"), split(&entries), 0);
    assert_eq!(r, Err(SplitError::Overflow));
    assert_eq!(ledger.get_member_balance(g, B), Ok(0));
}

#[test]
fn total_overflow_is_rejected() {
    let q = i128::MAX / 10000;
    let (mut ledger, g) = pair_group();
    for _ in 0..10000 {
        ledger.add_expense(g, A, q, String::from("x"), split(&[(A, 10000)]), 0).unwrap();
    }
    assert_eq!(ledger.groups[0].total_amount, 10000 * q);
    assert_eq!(
        ledger.add_expense(g, B, q, String::from("y"), split(&[(B, 10000)]), 0),
        Err(SplitError::Overflow)
    );
    assert_eq!(ledger.get_group_expenses(g).unwrap().len(), 10000);
    assert_eq!(ledger.get_member_balance(g, A), Ok(0));
}

#[test]
fn get_group_expenses_requires_group() {
    let ledger = SplitPayment::new();
    assert!(ledger.get_group_expenses(1).is_err());
    assert_eq!(ledger.get_member_balance(1, A), Err(SplitError::GroupNotFound));
}

#[test]
fn rounding_dust_stays_below_entry_count() {
    let mut ledger = SplitPayment::new();
    let g = ledger.create_group(vec![A, B, C]).unwrap();
    ledger
        .add_expense(g, A, 101, String::from("tea"), split(&[(A, 3333), (B, 3333), (C, 3334)]), 0)
        .unwrap();
    let total: i128 = [A, B, C].iter().map(|&m| ledger.get_member_balance(g, m).unwrap()).sum();
    assert_eq!(total, 2);
    ledger.settle_debt(g, B, A, 33).unwrap();
    let total: i128 = [A, B, C].iter().map(|&m| ledger.get_member_balance(g, m).unwrap()).sum();
    assert_eq!(total, 2);
}
