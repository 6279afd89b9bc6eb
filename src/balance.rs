//! The balance-accounting rules: how one split entry of an expense moves a
//! member's balance, and how a whole split list is applied or undone.
use std::collections::HashMap;
use vstd::prelude::*;

verus! {

broadcast use vstd::std_specs::hash::group_hash_axioms;

/// Shares are stated in basis points; a full split adds up to this many.
pub const BASIS_POINTS: i128 = 10000;

/// One entry of an expense's split: a member and the basis points of the
/// amount that the member absorbs.
#[derive(Clone, Copy, PartialEq, Eq, Structural, Debug)]
pub struct SplitInfo {
    pub member: u64,
    pub share: i128,
}

impl SplitInfo {
    pub fn new(member: u64, share: i128) -> (r: SplitInfo)
        ensures
            r.member == member,
            r.share == share,
    {
        SplitInfo { member, share }
    }
}

/// Every way in which an operation of the ledger can fail. A failed operation
/// leaves the ledger as it was.
#[derive(Clone, Copy, PartialEq, Eq, Structural, Debug)]
pub enum SplitError {
    GroupNotFound,
    ExpenseIndexOutOfRange,
    EmptyMembers,
    DuplicateMember,
    NotAMember,
    InvalidAmount,
    SplitMismatch,
    NonZeroBalance,
    NotOriginalPayer,
    NoDebt,
    OverSettlement,
    /// A balance, a total, a product of amount and share, or a counter would
    /// leave the range of its integer type.
    Overflow,
}

pub open spec fn fits_i128(x: int) -> bool {
    i128::MIN <= x <= i128::MAX
}

/// Division that rounds toward zero, as integer division does on machine
/// integers (for a positive divisor).
pub open spec fn trunc_div(a: int, d: int) -> int {
    if a >= 0 {
        a / d
    } else {
        -((-a) / d)
    }
}

/// The part of `amount` that a share of `share` basis points stands for,
/// rounded toward zero.
pub open spec fn member_share(amount: int, share: int) -> int {
    trunc_div(amount * share, BASIS_POINTS as int)
}

/// A member's balance: an absent entry reads as zero.
pub open spec fn balance_of(m: Map<u64, i128>, k: u64) -> int {
    if m.contains_key(k) {
        m[k] as int
    } else {
        0
    }
}

/// No entry holds a zero balance: zero is stored as absence.
pub open spec fn no_zero_entries(m: Map<u64, i128>) -> bool {
    forall|k: u64| m.contains_key(k) ==> #[trigger] m[k] != 0
}

/// Sets a balance, storing zero as absence.
pub open spec fn set_balance(m: Map<u64, i128>, k: u64, v: int) -> Map<u64, i128> {
    if v == 0 {
        m.remove(k)
    } else {
        m.insert(k, v as i128)
    }
}

/// What recording an expense credits to the member of one split entry: the
/// payer is credited the amount less the part they absorb; anyone else owes
/// their part.
pub open spec fn entry_delta(payer: u64, amount: int, e: SplitInfo) -> int {
    if e.member == payer {
        amount - member_share(amount, e.share as int)
    } else {
        -member_share(amount, e.share as int)
    }
}

/// Applies one split entry with sign `sign` (1 records, -1 reverses); `None`
/// where the product of amount and share or the new balance leaves `i128`.
pub open spec fn shift_entry(
    m: Map<u64, i128>,
    payer: u64,
    amount: int,
    e: SplitInfo,
    sign: int,
) -> Option<Map<u64, i128>> {
    let v = balance_of(m, e.member) + sign * entry_delta(payer, amount, e);
    if fits_i128(amount * e.share) && fits_i128(v) {
        Some(set_balance(m, e.member, v))
    } else {
        None
    }
}

/// Records an expense: the split entries applied from first to last.
pub open spec fn apply_splits(
    m: Map<u64, i128>,
    payer: u64,
    amount: int,
    s: Seq<SplitInfo>,
) -> Option<Map<u64, i128>>
    decreases s.len(),
{
    if s.len() == 0 {
        Some(m)
    } else {
        match apply_splits(m, payer, amount, s.drop_last()) {
            Some(p) => shift_entry(p, payer, amount, s.last(), 1),
            None => None,
        }
    }
}

/// Reverses an expense: the split entries undone from last to first.
pub open spec fn undo_splits(
    m: Map<u64, i128>,
    payer: u64,
    amount: int,
    s: Seq<SplitInfo>,
) -> Option<Map<u64, i128>>
    decreases s.len(),
{
    if s.len() == 0 {
        Some(m)
    } else {
        match shift_entry(m, payer, amount, s.last(), -1) {
            Some(p) => undo_splits(p, payer, amount, s.drop_last()),
            None => None,
        }
    }
}

/// The sum of the shares of a split list.
pub open spec fn share_sum(s: Seq<SplitInfo>) -> int
    decreases s.len(),
{
    if s.len() == 0 {
        0
    } else {
        share_sum(s.drop_last()) + s.last().share
    }
}

/// Every running sum of the shares, from the first entry on, fits in `i128`.
pub open spec fn share_sums_fit(s: Seq<SplitInfo>) -> bool {
    forall|i: int| 0 <= i <= s.len() ==> fits_i128(#[trigger] share_sum(s.take(i)))
}

/// `x + a + b`, or `None` where the exact result leaves `i128`.
fn add3(x: i128, a: i128, b: i128) -> (r: Option<i128>)
    ensures
        r == (if fits_i128(x + a + b) {
            Some((x + a + b) as i128)
        } else {
            None
        }),
{
    if (a >= 0) != (b >= 0) {
        x.checked_add(a + b)
    } else {
        match x.checked_add(a) {
            Some(t) => t.checked_add(b),
            None => None,
        }
    }
}

/// `x + b - c`, or `None` where the exact result leaves `i128`.
fn add_sub(x: i128, b: i128, c: i128) -> (r: Option<i128>)
    ensures
        r == (if fits_i128(x + b - c) {
            Some((x + b - c) as i128)
        } else {
            None
        }),
{
    if (b >= 0) == (c >= 0) {
        x.checked_add(b - c)
    } else {
        match x.checked_add(b) {
            Some(t) => t.checked_sub(c),
            None => None,
        }
    }
}

/// `member_share(amount, share)`, or `None` where `amount * share` leaves
/// `i128`.
pub fn compute_member_share(amount: i128, share: i128) -> (r: Option<i128>)
    ensures
        r == (if fits_i128(amount * share) {
            Some(member_share(amount as int, share as int) as i128)
        } else {
            None
        }),
{
    match amount.checked_mul(share) {
        None => None,
        Some(p) => {
            if p >= 0 {
                Some(p / BASIS_POINTS)
            } else {
                let n: i128 = -(p + 1);
                let mag: u128 = (n as u128) + 1;
                let q: u128 = mag / 10000;
                assert(mag == -p);
                assert(q <= i128::MAX);
                Some(-(q as i128))
            }
        },
    }
}

/// The balance of `k` in `m`, zero where `m` has no entry for it.
pub fn read_balance(m: &HashMap<u64, i128>, k: u64) -> (r: i128)
    ensures
        r == balance_of(m@, k),
{
    match m.get(&k) {
        Some(v) => *v,
        None => 0,
    }
}

/// Stores `v` as the balance of `k`, storing zero as absence.
pub fn write_balance(m: &mut HashMap<u64, i128>, k: u64, v: i128)
    ensures
        final(m)@ == set_balance(old(m)@, k, v as int),
{
    if v == 0 {
        m.remove(&k);
    } else {
        m.insert(k, v);
    }
}

/// Applies one split entry, recording (`undo == false`) or reversing it.
/// On `false` the map is unchanged.
pub fn shift_entry_exec(
    m: &mut HashMap<u64, i128>,
    payer: u64,
    amount: i128,
    e: SplitInfo,
    undo: bool,
) -> (ok: bool)
    ensures
        ok == shift_entry(old(m)@, payer, amount as int, e, if undo { -1 } else { 1 }) is Some,
        ok ==> Some(final(m)@) == shift_entry(
            old(m)@,
            payer,
            amount as int,
            e,
            if undo { -1 } else { 1 },
        ),
        !ok ==> final(m)@ == old(m)@,
{
    let ms = match compute_member_share(amount, e.share) {
        Some(ms) => ms,
        None => return false,
    };
    assert(-i128::MAX / 10000 <= ms <= i128::MAX / 10000) by (nonlinear_arith)
        requires
            ms == trunc_div(amount * e.share, 10000),
            fits_i128(amount * e.share),
    ;
    let cur = read_balance(m, e.member);
    let next = if e.member == payer {
        if undo {
            add_sub(cur, ms, amount)
        } else {
            add3(cur, amount, -ms)
        }
    } else {
        if undo {
            add3(cur, 0, ms)
        } else {
            add3(cur, 0, -ms)
        }
    };
    match next {
        Some(v) => {
            write_balance(m, e.member, v);
            true
        },
        None => false,
    }
}

/// Storing zero as absence keeps a map free of zero entries.
pub proof fn lemma_set_balance_keeps_no_zero(m: Map<u64, i128>, k: u64, v: int)
    requires
        no_zero_entries(m),
        fits_i128(v),
    ensures
        no_zero_entries(set_balance(m, k, v)),
{
    let r = set_balance(m, k, v);
    assert forall|j: u64| r.contains_key(j) implies #[trigger] r[j] != 0 by {
        if j != k {
            assert(m.contains_key(j));
        }
    }
}

/// Recording an expense keeps the balances free of zero entries.
pub proof fn lemma_apply_keeps_no_zero(
    m: Map<u64, i128>,
    payer: u64,
    amount: int,
    s: Seq<SplitInfo>,
)
    requires
        no_zero_entries(m),
        apply_splits(m, payer, amount, s) is Some,
    ensures
        no_zero_entries(apply_splits(m, payer, amount, s)->0),
    decreases s.len(),
{
    if s.len() > 0 {
        lemma_apply_keeps_no_zero(m, payer, amount, s.drop_last());
        let p = apply_splits(m, payer, amount, s.drop_last())->0;
        let e = s.last();
        lemma_set_balance_keeps_no_zero(
            p,
            e.member,
            balance_of(p, e.member) + entry_delta(payer, amount, e),
        );
    }
}

/// Reversing an expense keeps the balances free of zero entries.
pub proof fn lemma_undo_keeps_no_zero(
    m: Map<u64, i128>,
    payer: u64,
    amount: int,
    s: Seq<SplitInfo>,
)
    requires
        no_zero_entries(m),
        undo_splits(m, payer, amount, s) is Some,
    ensures
        no_zero_entries(undo_splits(m, payer, amount, s)->0),
    decreases s.len(),
{
    if s.len() > 0 {
        let e = s.last();
        let v = balance_of(m, e.member) + -1 * entry_delta(payer, amount, e);
        lemma_set_balance_keeps_no_zero(m, e.member, v);
        lemma_undo_keeps_no_zero(set_balance(m, e.member, v), payer, amount, s.drop_last());
    }
}

proof fn lemma_apply_none_extends(
    m: Map<u64, i128>,
    payer: u64,
    amount: int,
    s: Seq<SplitInfo>,
    i: int,
)
    requires
        0 <= i <= s.len(),
        apply_splits(m, payer, amount, s.take(i)) is None,
    ensures
        apply_splits(m, payer, amount, s) is None,
    decreases s.len() - i,
{
    if i < s.len() {
        assert(s.take(i + 1).drop_last() == s.take(i));
        lemma_apply_none_extends(m, payer, amount, s, i + 1);
    } else {
        assert(s.take(i) == s);
    }
}

/// The balances `m` with an expense recorded, or `None` exactly where
/// `apply_splits` fails.
pub fn apply_splits_exec(
    m: &HashMap<u64, i128>,
    payer: u64,
    amount: i128,
    s: &Vec<SplitInfo>,
) -> (r: Option<HashMap<u64, i128>>)
    ensures
        r is Some <==> apply_splits(m@, payer, amount as int, s@) is Some,
        r matches Some(x) ==> Some(x@) == apply_splits(m@, payer, amount as int, s@),
{
    let mut cur = m.clone();
    let n = s.len();
    let mut i: usize = 0;
    assert(s@.take(0) == Seq::<SplitInfo>::empty());
    while i < n
        invariant
            n == s@.len(),
            0 <= i <= n,
            Some(cur@) == apply_splits(m@, payer, amount as int, s@.take(i as int)),
        decreases n - i,
    {
        let e = s[i];
        assert(s@.take(i + 1).drop_last() == s@.take(i as int));
        assert(s@.take(i + 1).last() == e);
        if !shift_entry_exec(&mut cur, payer, amount, e, false) {
            proof {
                lemma_apply_none_extends(m@, payer, amount as int, s@, i + 1);
            }
            return None;
        }
        i = i + 1;
    }
    assert(s@.take(n as int) == s@);
    Some(cur)
}

/// The balances `m` with an expense reversed, or `None` exactly where
/// `undo_splits` fails.
pub fn undo_splits_exec(
    m: &HashMap<u64, i128>,
    payer: u64,
    amount: i128,
    s: &Vec<SplitInfo>,
) -> (r: Option<HashMap<u64, i128>>)
    ensures
        r is Some <==> undo_splits(m@, payer, amount as int, s@) is Some,
        r matches Some(x) ==> Some(x@) == undo_splits(m@, payer, amount as int, s@),
{
    let mut cur = m.clone();
    let mut i: usize = s.len();
    assert(s@.take(i as int) == s@);
    while i > 0
        invariant
            0 <= i <= s@.len(),
            undo_splits(m@, payer, amount as int, s@) == undo_splits(
                cur@,
                payer,
                amount as int,
                s@.take(i as int),
            ),
        decreases i,
    {
        let e = s[i - 1];
        assert(s@.take(i as int).drop_last() == s@.take(i - 1));
        assert(s@.take(i as int).last() == e);
        if !shift_entry_exec(&mut cur, payer, amount, e, true) {
            return None;
        }
        i = i - 1;
    }
    Some(cur)
}

/// The sum of the shares of `s`, or `None` where a running sum leaves `i128`.
pub fn total_share(s: &Vec<SplitInfo>) -> (r: Option<i128>)
    ensures
        r == (if share_sums_fit(s@) {
            Some(share_sum(s@) as i128)
        } else {
            None
        }),
        r matches Some(t) ==> t == share_sum(s@),
{
    let mut acc: i128 = 0;
    let mut i: usize = 0;
    assert(s@.take(0) == Seq::<SplitInfo>::empty());
    while i < s.len()
        invariant
            0 <= i <= s@.len(),
            acc == share_sum(s@.take(i as int)),
            forall|j: int| 0 <= j <= i ==> fits_i128(#[trigger] share_sum(s@.take(j))),
        decreases s@.len() - i,
    {
        assert(s@.take(i + 1).drop_last() == s@.take(i as int));
        match acc.checked_add(s[i].share) {
            Some(t) => {
                acc = t;
            },
            None => {
                assert(!fits_i128(share_sum(s@.take(i + 1))));
                return None;
            },
        }
        i = i + 1;
    }
    assert(s@.take(s@.len() as int) == s@);
    Some(acc)
}

} // verus!
