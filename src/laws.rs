//! Properties that relate several operations of the ledger.
use vstd::prelude::*;
use crate::balance::{
    apply_splits, balance_of, entry_delta, fits_i128, member_share, no_zero_entries, set_balance,
    share_sum, shift_entry, undo_splits, SplitInfo,
};
use crate::ledger::{Expense, SplitPayment};

verus! {

/// Reversing an expense right after recording it gives back exactly the
/// balances from before: each entry's change is undone, last entry first,
/// from the same amount and share, so the rounding is the same both ways.
pub proof fn lemma_undo_after_apply(m: Map<u64, i128>, payer: u64, amount: int, s: Seq<SplitInfo>)
    requires
        no_zero_entries(m),
        apply_splits(m, payer, amount, s) is Some,
    ensures
        undo_splits(apply_splits(m, payer, amount, s)->0, payer, amount, s) == Some(m),
    decreases s.len(),
{
    if s.len() > 0 {
        let p = apply_splits(m, payer, amount, s.drop_last())->0;
        let e = s.last();
        let m1 = apply_splits(m, payer, amount, s)->0;
        lemma_undo_after_apply(m, payer, amount, s.drop_last());
        crate::balance::lemma_apply_keeps_no_zero(m, payer, amount, s.drop_last());
        let d = entry_delta(payer, amount, e);
        assert(m1 == set_balance(p, e.member, balance_of(p, e.member) + d));
        assert(balance_of(m1, e.member) == balance_of(p, e.member) + d);
        assert(fits_i128(balance_of(p, e.member)));
        assert(set_balance(m1, e.member, balance_of(p, e.member)) =~= p) by {
            if p.contains_key(e.member) {
                assert(p[e.member] != 0);
            }
        }
        assert(shift_entry(m1, payer, amount, e, -1) == Some(p));
    }
}

/// Adding an expense and then removing it, with nothing in between, is
/// allowed to its payer and brings the group's balances, total and log back
/// to what they were.
pub proof fn law_add_then_remove_restores(
    before: SplitPayment,
    after: SplitPayment,
    g: u32,
    payer: u64,
    amount: i128,
    description: String,
    split_members: Vec<SplitInfo>,
    timestamp: u64,
    idx: u32,
)
    requires
        before.wf(),
        after.wf(),
        before.add_expense_error(g, payer, amount, split_members@) is None,
        idx == before.log(g).len(),
        before.same_but_group(&after, g),
        after.group(g).members == before.group(g).members,
        after.group(g).total_amount == before.group(g).total_amount + amount,
        Some(after.group(g).member_shares@) == apply_splits(
            before.group(g).member_shares@,
            payer,
            amount as int,
            split_members@,
        ),
        after.log(g) == before.log(g).push(
            (Expense { payer, amount, description, split_info: split_members, timestamp }),
        ),
    ensures
        after.remove_expense_error(g, idx, payer) is None,
        undo_splits(after.group(g).member_shares@, payer, amount as int, split_members@) == Some(
            before.group(g).member_shares@,
        ),
        after.group(g).total_amount - amount == before.group(g).total_amount,
        after.log(g).remove(idx as int) == before.log(g),
{
    assert(before.groups@[g - 1].wf());
    lemma_undo_after_apply(before.group(g).member_shares@, payer, amount as int, split_members@);
    assert(after.log(g)[idx as int].split_info == split_members);
    assert(after.log(g).remove(idx as int) =~= before.log(g));
}

/// The sum of the balance changes that the entries of a split make when an
/// expense is recorded.
pub open spec fn deltas_sum(payer: u64, amount: int, s: Seq<SplitInfo>) -> int
    decreases s.len(),
{
    if s.len() == 0 {
        0
    } else {
        deltas_sum(payer, amount, s.drop_last()) + entry_delta(payer, amount, s.last())
    }
}

/// The sum of the balance changes that the entries of `k` in a split make
/// when an expense is recorded.
pub open spec fn member_delta(payer: u64, amount: int, s: Seq<SplitInfo>, k: u64) -> int
    decreases s.len(),
{
    if s.len() == 0 {
        0
    } else {
        member_delta(payer, amount, s.drop_last(), k) + if s.last().member == k {
            entry_delta(payer, amount, s.last())
        } else {
            0
        }
    }
}

/// Recording an expense moves each member's balance by the sum of the
/// changes of that member's entries, and no other balance.
pub proof fn law_apply_moves_by_member_delta(
    m: Map<u64, i128>,
    payer: u64,
    amount: int,
    s: Seq<SplitInfo>,
    k: u64,
)
    requires
        apply_splits(m, payer, amount, s) is Some,
    ensures
        balance_of(apply_splits(m, payer, amount, s)->0, k) == balance_of(m, k) + member_delta(
            payer,
            amount,
            s,
            k,
        ),
    decreases s.len(),
{
    if s.len() > 0 {
        law_apply_moves_by_member_delta(m, payer, amount, s.drop_last(), k);
    }
}

/// The sum, over the distinct members `ks`, of how far each balance moved
/// from `m` to `m1`.
pub open spec fn balance_change_sum(m: Map<u64, i128>, m1: Map<u64, i128>, ks: Seq<u64>) -> int
    decreases ks.len(),
{
    if ks.len() == 0 {
        0
    } else {
        balance_change_sum(m, m1, ks.drop_last()) + balance_of(m1, ks.last()) - balance_of(
            m,
            ks.last(),
        )
    }
}

spec fn member_delta_sum(payer: u64, amount: int, s: Seq<SplitInfo>, ks: Seq<u64>) -> int
    decreases ks.len(),
{
    if ks.len() == 0 {
        0
    } else {
        member_delta_sum(payer, amount, s, ks.drop_last()) + member_delta(
            payer,
            amount,
            s,
            ks.last(),
        )
    }
}

proof fn lemma_member_delta_sum_step(payer: u64, amount: int, s: Seq<SplitInfo>, ks: Seq<u64>)
    requires
        s.len() > 0,
        ks.no_duplicates(),
    ensures
        member_delta_sum(payer, amount, s, ks) == member_delta_sum(
            payer,
            amount,
            s.drop_last(),
            ks,
        ) + if ks.contains(s.last().member) {
            entry_delta(payer, amount, s.last())
        } else {
            0
        },
    decreases ks.len(),
{
    if ks.len() > 0 {
        let t = ks.drop_last();
        assert(t.no_duplicates());
        lemma_member_delta_sum_step(payer, amount, s, t);
        if ks.contains(s.last().member) && ks.last() != s.last().member {
            let i = choose|i: int| 0 <= i < ks.len() && ks[i] == s.last().member;
            assert(t[i] == s.last().member);
        }
        if ks.last() == s.last().member {
            assert(!t.contains(s.last().member));
        }
    }
}

proof fn lemma_deltas_by_member(payer: u64, amount: int, s: Seq<SplitInfo>, ks: Seq<u64>)
    requires
        ks.no_duplicates(),
        forall|i: int| 0 <= i < s.len() ==> ks.contains(#[trigger] s[i].member),
    ensures
        member_delta_sum(payer, amount, s, ks) == deltas_sum(payer, amount, s),
    decreases s.len(),
{
    if s.len() > 0 {
        let t = s.drop_last();
        assert forall|i: int| 0 <= i < t.len() implies ks.contains(#[trigger] t[i].member) by {
            assert(t[i] == s[i]);
        }
        lemma_deltas_by_member(payer, amount, t, ks);
        lemma_member_delta_sum_step(payer, amount, s, ks);
        assert(ks.contains(s[s.len() - 1].member));
    } else {
        lemma_member_delta_sum_zero(payer, amount, s, ks);
    }
}

proof fn lemma_member_delta_sum_zero(payer: u64, amount: int, s: Seq<SplitInfo>, ks: Seq<u64>)
    requires
        s.len() == 0,
    ensures
        member_delta_sum(payer, amount, s, ks) == 0,
    decreases ks.len(),
{
    if ks.len() > 0 {
        lemma_member_delta_sum_zero(payer, amount, s, ks.drop_last());
    }
}

proof fn lemma_change_sum_is_delta_sum(
    m: Map<u64, i128>,
    payer: u64,
    amount: int,
    s: Seq<SplitInfo>,
    ks: Seq<u64>,
)
    requires
        apply_splits(m, payer, amount, s) is Some,
    ensures
        balance_change_sum(m, apply_splits(m, payer, amount, s)->0, ks) == member_delta_sum(
            payer,
            amount,
            s,
            ks,
        ),
    decreases ks.len(),
{
    if ks.len() > 0 {
        lemma_change_sum_is_delta_sum(m, payer, amount, s, ks.drop_last());
        law_apply_moves_by_member_delta(m, payer, amount, s, ks.last());
    }
}

/// The sum of the rounded parts of the entries of a split.
pub open spec fn parts_sum(amount: int, s: Seq<SplitInfo>) -> int
    decreases s.len(),
{
    if s.len() == 0 {
        0
    } else {
        parts_sum(amount, s.drop_last()) + member_share(amount, s.last().share as int)
    }
}

/// How many entries of a split belong to `k`.
pub open spec fn entries_of(s: Seq<SplitInfo>, k: u64) -> nat
    decreases s.len(),
{
    if s.len() == 0 {
        0
    } else {
        entries_of(s.drop_last(), k) + if s.last().member == k {
            1nat
        } else {
            0nat
        }
    }
}

proof fn lemma_deltas_sum_parts(payer: u64, amount: int, s: Seq<SplitInfo>)
    ensures
        deltas_sum(payer, amount, s) == amount * entries_of(s, payer) - parts_sum(amount, s),
    decreases s.len(),
{
    if s.len() > 0 {
        lemma_deltas_sum_parts(payer, amount, s.drop_last());
        let c = entries_of(s.drop_last(), payer) as int;
        if s.last().member == payer {
            assert(entries_of(s, payer) == c + 1);
            assert(amount * entries_of(s, payer) == amount * c + amount) by (nonlinear_arith)
                requires
                    entries_of(s, payer) == c + 1,
            ;
        } else {
            assert(entries_of(s, payer) == c);
        }
        assert(deltas_sum(payer, amount, s) == deltas_sum(payer, amount, s.drop_last())
            + entry_delta(payer, amount, s.last()));
        assert(parts_sum(amount, s) == parts_sum(amount, s.drop_last()) + member_share(
            amount,
            s.last().share as int,
        ));
    } else {
        assert(amount * entries_of(s, payer) == 0) by (nonlinear_arith)
            requires
                entries_of(s, payer) == 0,
        ;
    }
}

proof fn lemma_parts_bounds(amount: int, s: Seq<SplitInfo>)
    requires
        amount > 0,
        forall|i: int| 0 <= i < s.len() ==> #[trigger] s[i].share >= 0,
    ensures
        10000 * parts_sum(amount, s) <= amount * share_sum(s),
        amount * share_sum(s) <= 10000 * parts_sum(amount, s) + 9999 * s.len(),
    decreases s.len(),
{
    if s.len() > 0 {
        let t = s.drop_last();
        assert forall|i: int| 0 <= i < t.len() implies #[trigger] t[i].share >= 0 by {
            assert(t[i] == s[i]);
        }
        lemma_parts_bounds(amount, t);
        let sh = s.last().share as int;
        assert(sh >= 0);
        let p = amount * sh;
        assert(p >= 0) by (nonlinear_arith)
            requires
                amount > 0,
                sh >= 0,
                p == amount * sh,
        ;
        let q = member_share(amount, sh);
        assert(q == p / 10000);
        assert(10000 * q <= p <= 10000 * q + 9999) by (nonlinear_arith)
            requires
                q == p / 10000,
                p >= 0,
        ;
        assert(amount * share_sum(s) == amount * share_sum(t) + p) by (nonlinear_arith)
            requires
                share_sum(s) == share_sum(t) + sh,
                p == amount * sh,
        ;
    }
}

/// Recording an expense can leave rounding dust: where the payer has one
/// entry, every share is non-negative and the shares add up to 10000, the
/// balances of the members `ks` (distinct, and covering the split) move by a
/// total of at least zero and less than the number of entries.
pub proof fn law_expense_rounding_dust(
    m: Map<u64, i128>,
    payer: u64,
    amount: int,
    s: Seq<SplitInfo>,
    ks: Seq<u64>,
)
    requires
        apply_splits(m, payer, amount, s) is Some,
        amount > 0,
        forall|i: int| 0 <= i < s.len() ==> #[trigger] s[i].share >= 0,
        share_sum(s) == 10000,
        entries_of(s, payer) == 1,
        ks.no_duplicates(),
        forall|i: int| 0 <= i < s.len() ==> ks.contains(#[trigger] s[i].member),
    ensures
        balance_change_sum(m, apply_splits(m, payer, amount, s)->0, ks) == deltas_sum(
            payer,
            amount,
            s,
        ),
        0 <= deltas_sum(payer, amount, s) < s.len(),
{
    lemma_change_sum_is_delta_sum(m, payer, amount, s, ks);
    lemma_deltas_by_member(payer, amount, s, ks);
    lemma_deltas_sum_parts(payer, amount, s);
    lemma_parts_bounds(amount, s);
    assert(s.len() >= 1) by {
        if s.len() == 0 {
            assert(entries_of(s, payer) == 0);
        }
    }
    assert(0 <= amount - parts_sum(amount, s) < s.len()) by (nonlinear_arith)
        requires
            10000 * parts_sum(amount, s) <= amount * 10000,
            amount * 10000 <= 10000 * parts_sum(amount, s) + 9999 * s.len(),
            s.len() >= 1,
    ;
}

} // verus!
