//! The ledger: groups, their expense logs and the index from each member to
//! the groups they belong to, with the operations that change them.
use std::collections::HashMap;
use vstd::prelude::*;
use crate::balance::{
    apply_splits, apply_splits_exec, balance_of, fits_i128, lemma_apply_keeps_no_zero,
    lemma_undo_keeps_no_zero, lemma_set_balance_keeps_no_zero, no_zero_entries, read_balance, set_balance, share_sum,
    share_sums_fit, total_share, undo_splits, undo_splits_exec, write_balance, SplitError,
    SplitInfo, BASIS_POINTS,
};

verus! {

broadcast use vstd::std_specs::hash::group_hash_axioms;

/// One recorded expense of a group.
pub struct Expense {
    pub payer: u64,
    pub amount: i128,
    pub description: String,
    pub split_info: Vec<SplitInfo>,
    pub timestamp: u64,
}

/// A group of participants with their balances. A balance of zero is stored
/// as the absence of an entry.
pub struct Group {
    pub members: Vec<u64>,
    pub total_amount: i128,
    pub member_shares: HashMap<u64, i128>,
}

impl Group {
    pub open spec fn wf(&self) -> bool {
        no_zero_entries(self.member_shares@)
    }

    pub open spec fn balance(&self, k: u64) -> int {
        balance_of(self.member_shares@, k)
    }
}

/// The sum of the amounts of the expenses in a log.
pub open spec fn log_total(s: Seq<Expense>) -> int
    decreases s.len(),
{
    if s.len() == 0 {
        0
    } else {
        log_total(s.drop_last()) + s.last().amount
    }
}

/// How often `k` occurs in `s`.
pub open spec fn count_of(s: Seq<u64>, k: u64) -> nat
    decreases s.len(),
{
    if s.len() == 0 {
        0
    } else {
        count_of(s.drop_last(), k) + if s.last() == k {
            1nat
        } else {
            0nat
        }
    }
}

/// `n` copies of the group id `g`.
pub open spec fn repeat_id(g: u32, n: nat) -> Seq<u32> {
    Seq::new(n, |_i: int| g)
}

/// `t` is `s` with the first occurrence of `x` removed, or `s` itself where
/// `x` does not occur.
pub open spec fn removed_first<T>(s: Seq<T>, x: T, t: Seq<T>) -> bool {
    if s.contains(x) {
        exists|i: int|
            0 <= i < s.len() && s[i] == x && (forall|j: int| 0 <= j < i ==> s[j] != x) && t
                == s.remove(i)
    } else {
        t == s
    }
}

/// The whole ledger. Group `g` (ids start at 1) is `groups[g - 1]`, and its
/// expense log is `expenses[g - 1]`; the next id issued is one past the
/// number of groups.
pub struct SplitPayment {
    pub groups: Vec<Group>,
    pub expenses: Vec<Vec<Expense>>,
    pub member_groups: HashMap<u64, Vec<u32>>,
}

impl SplitPayment {
    pub open spec fn has_group(&self, g: u32) -> bool {
        1 <= g <= self.groups@.len()
    }

    pub open spec fn group(&self, g: u32) -> Group {
        self.groups@[g - 1]
    }

    pub open spec fn log(&self, g: u32) -> Seq<Expense> {
        self.expenses@[g - 1]@
    }

    pub open spec fn is_member(&self, g: u32, k: u64) -> bool {
        self.group(g).members@.contains(k)
    }

    pub open spec fn balance(&self, g: u32, k: u64) -> int {
        self.group(g).balance(k)
    }

    /// The ids of the groups that `k` was added to, in the order of adding.
    pub open spec fn groups_of(&self, k: u64) -> Seq<u32> {
        if self.member_groups@.contains_key(k) {
            self.member_groups@[k]@
        } else {
            Seq::empty()
        }
    }

    pub open spec fn wf(&self) -> bool {
        &&& self.groups@.len() == self.expenses@.len()
        &&& self.groups@.len() <= u32::MAX
        &&& forall|i: int|
            0 <= i < self.groups@.len() ==> {
                &&& (#[trigger] self.groups@[i]).wf()
                &&& self.groups@[i].total_amount == log_total(self.expenses@[i]@)
                &&& forall|j: int|
                    0 <= j < self.expenses@[i]@.len() ==> #[trigger] self.expenses@[i]@[j].amount
                        > 0
            }
    }

    /// Only the groups of `g` and its log may differ between `self` and `o`.
    pub open spec fn same_but_group(&self, o: &SplitPayment, g: u32) -> bool {
        &&& o.groups@ == self.groups@.update(g - 1, o.group(g))
        &&& o.expenses@ == self.expenses@.update(g - 1, o.expenses@[g - 1])
        &&& o.member_groups == self.member_groups
    }

    pub fn new() -> (r: SplitPayment)
        ensures
            r.wf(),
            r.groups@.len() == 0,
            forall|k: u64| r.groups_of(k) == Seq::<u32>::empty(),
    {
        SplitPayment { groups: Vec::new(), expenses: Vec::new(), member_groups: HashMap::new() }
    }

    fn index_of(&self, g: u32) -> (r: Option<usize>)
        requires
            self.wf(),
        ensures
            r is Some <==> self.has_group(g),
            r is Some ==> r->0 == g - 1,
    {
        if g >= 1 && (g as usize) <= self.groups.len() {
            Some((g - 1) as usize)
        } else {
            None
        }
    }

    /// Appends `g` to the groups of `k`.
    fn push_group_id(&mut self, k: u64, g: u32)
        ensures
            final(self).groups == old(self).groups,
            final(self).expenses == old(self).expenses,
            forall|j: u64|
                #[trigger] final(self).groups_of(j) == if j == k {
                    old(self).groups_of(j).push(g)
                } else {
                    old(self).groups_of(j)
                },
    {
        let mut l = match self.member_groups.remove(&k) {
            Some(l) => l,
            None => Vec::new(),
        };
        l.push(g);
        self.member_groups.insert(k, l);
    }

    /// Takes `g` out of the groups of `k`: its first occurrence, if any.
    fn drop_group_id(&mut self, k: u64, g: u32)
        ensures
            final(self).groups == old(self).groups,
            final(self).expenses == old(self).expenses,
            removed_first(old(self).groups_of(k), g, final(self).groups_of(k)),
            forall|j: u64| j != k ==> #[trigger] final(self).groups_of(j) == old(self).groups_of(j),
    {
        match self.member_groups.remove(&k) {
            Some(mut l) => {
                match find_u32(&l, g) {
                    Some(i) => {
                        l.remove(i);
                    },
                    None => {},
                }
                self.member_groups.insert(k, l);
            },
            None => {},
        }
    }
}

proof fn lemma_count_step(s: Seq<u64>, i: int, k: u64, g: u32)
    requires
        0 <= i < s.len(),
    ensures
        count_of(s.take(i + 1), k) == count_of(s.take(i), k) + if s[i] == k {
            1nat
        } else {
            0nat
        },
        repeat_id(g, count_of(s.take(i + 1), k)) == if s[i] == k {
            repeat_id(g, count_of(s.take(i), k)).push(g)
        } else {
            repeat_id(g, count_of(s.take(i), k))
        },
{
    assert(s.take(i + 1).drop_last() == s.take(i));
    if s[i] == k {
        assert(repeat_id(g, count_of(s.take(i + 1), k)) =~= repeat_id(
            g,
            count_of(s.take(i), k),
        ).push(g));
    }
}

impl SplitPayment {
    /// Opens a group of `members` under the next id. Every member starts at
    /// balance zero, and each member's list of groups gains the new id once
    /// for each time the member occurs in `members`.
    pub fn create_group(&mut self, members: Vec<u64>) -> (r: Result<u32, SplitError>)
        requires
            old(self).wf(),
        ensures
            final(self).wf(),
            members@.len() == 0 ==> r == Err::<u32, SplitError>(SplitError::EmptyMembers),
            members@.len() > 0 && old(self).groups@.len() == u32::MAX ==> r == Err::<
                u32,
                SplitError,
            >(SplitError::Overflow),
            r is Err ==> *final(self) == *old(self),
            members@.len() > 0 && old(self).groups@.len() < u32::MAX ==> r == Ok::<u32, SplitError>(
                (old(self).groups@.len() + 1) as u32,
            ),
            r matches Ok(g) ==> {
                &&& forall|h: u32| old(self).has_group(h) ==> h < g
                &&& final(self).groups@.len() == g
                &&& final(self).groups@.drop_last() == old(self).groups@
                &&& final(self).expenses@.drop_last() == old(self).expenses@
                &&& final(self).group(g).members == members
                &&& final(self).group(g).total_amount == 0
                &&& final(self).group(g).member_shares@ == Map::<u64, i128>::empty()
                &&& final(self).log(g) == Seq::<Expense>::empty()
                &&& forall|k: u64|
                    #[trigger] final(self).groups_of(k) == old(self).groups_of(k) + repeat_id(
                        g,
                        count_of(members@, k),
                    )
            },
    {
        if members.len() == 0 {
            return Err(SplitError::EmptyMembers);
        }
        if self.groups.len() >= 4294967295 {
            return Err(SplitError::Overflow);
        }
        let g: u32 = (self.groups.len() + 1) as u32;
        let mut i: usize = 0;
        assert(members@.take(0) == Seq::<u64>::empty());
        while i < members.len()
            invariant
                0 <= i <= members@.len(),
                g == old(self).groups@.len() + 1,
                self.groups == old(self).groups,
                self.expenses == old(self).expenses,
                forall|k: u64|
                    #[trigger] self.groups_of(k) == old(self).groups_of(k) + repeat_id(
                        g,
                        count_of(members@.take(i as int), k),
                    ),
            decreases members@.len() - i,
        {
            let k = members[i];
            let ghost before = *self;
            self.push_group_id(k, g);
            proof {
                assert forall|j: u64|
                    #[trigger] self.groups_of(j) == old(self).groups_of(j) + repeat_id(
                        g,
                        count_of(members@.take(i + 1), j),
                    ) by {
                    lemma_count_step(members@, i as int, j, g);
                    assert(before.groups_of(j) == old(self).groups_of(j) + repeat_id(
                        g,
                        count_of(members@.take(i as int), j),
                    ));
                    if k == j {
                        assert(self.groups_of(j) =~= old(self).groups_of(j) + repeat_id(
                            g,
                            count_of(members@.take(i + 1), j),
                        ));
                    }
                }
            }
            i = i + 1;
        }
        assert(members@.take(members@.len() as int) == members@);
        let ghost indexed = *self;
        self.groups.push(Group { members, total_amount: 0, member_shares: HashMap::new() });
        self.expenses.push(Vec::new());
        proof {
            assert(self.groups@.drop_last() == old(self).groups@);
            assert(self.expenses@.drop_last() == old(self).expenses@);
            assert forall|i: int| 0 <= i < self.groups@.len() implies {
                &&& (#[trigger] self.groups@[i]).wf()
                &&& self.groups@[i].total_amount == log_total(self.expenses@[i]@)
                &&& forall|j: int|
                    0 <= j < self.expenses@[i]@.len() ==> #[trigger] self.expenses@[i]@[j].amount
                        > 0
            } by {
                if i < old(self).groups@.len() {
                    assert(self.groups@[i] == old(self).groups@[i]);
                    assert(self.expenses@[i] == old(self).expenses@[i]);
                }
            }
            assert forall|k: u64|
                #[trigger] self.groups_of(k) == old(self).groups_of(k) + repeat_id(
                    g,
                    count_of(members@, k),
                ) by {
                assert(indexed.groups_of(k) == self.groups_of(k));
            }
        }
        Ok(g)
    }

    /// Adds `new_member` at the end of the members of group `g`, with balance
    /// zero, and adds `g` to the member's list of groups.
    pub fn add_member(&mut self, g: u32, new_member: u64) -> (r: Result<(), SplitError>)
        requires
            old(self).wf(),
        ensures
            final(self).wf(),
            r == (if !old(self).has_group(g) {
                Err(SplitError::GroupNotFound)
            } else if old(self).is_member(g, new_member) {
                Err(SplitError::DuplicateMember)
            } else {
                Ok::<(), SplitError>(())
            }),
            r is Err ==> *final(self) == *old(self),
            r is Ok ==> {
                &&& final(self).groups@ == old(self).groups@.update(g - 1, final(self).group(g))
                &&& final(self).expenses == old(self).expenses
                &&& final(self).group(g).members@ == old(self).group(g).members@.push(new_member)
                &&& final(self).group(g).total_amount == old(self).group(g).total_amount
                &&& final(self).group(g).member_shares == old(self).group(g).member_shares
                &&& forall|j: u64|
                    #[trigger] final(self).groups_of(j) == if j == new_member {
                        old(self).groups_of(j).push(g)
                    } else {
                        old(self).groups_of(j)
                    }
            },
    {
        let gi = match self.index_of(g) {
            Some(gi) => gi,
            None => return Err(SplitError::GroupNotFound),
        };
        if find_u64(&self.groups[gi].members, new_member).is_some() {
            return Err(SplitError::DuplicateMember);
        }
        self.groups[gi].members.push(new_member);
        self.push_group_id(new_member, g);
        proof {
            assert(self.groups@ == old(self).groups@.update(g - 1, self.group(g)));
            assert forall|i: int| 0 <= i < self.groups@.len() implies (
            #[trigger] self.groups@[i]).wf() by {
                if i != gi {
                    assert(self.groups@[i] == old(self).groups@[i]);
                }
            }
        }
        Ok(())
    }

    /// Removes `member` from group `g`, allowed only while the member's
    /// balance is zero, and takes `g` out of the member's list of groups.
    pub fn remove_member(&mut self, g: u32, member: u64) -> (r: Result<(), SplitError>)
        requires
            old(self).wf(),
        ensures
            final(self).wf(),
            r == (if !old(self).has_group(g) {
                Err(SplitError::GroupNotFound)
            } else if !old(self).is_member(g, member) {
                Err(SplitError::NotAMember)
            } else if old(self).balance(g, member) != 0 {
                Err(SplitError::NonZeroBalance)
            } else {
                Ok::<(), SplitError>(())
            }),
            r is Err ==> *final(self) == *old(self),
            r is Ok ==> old(self).balance(g, member) == 0,
            r is Ok ==> {
                &&& final(self).groups@ == old(self).groups@.update(g - 1, final(self).group(g))
                &&& final(self).expenses == old(self).expenses
                &&& removed_first(
                    old(self).group(g).members@,
                    member,
                    final(self).group(g).members@,
                )
                &&& final(self).group(g).total_amount == old(self).group(g).total_amount
                &&& final(self).group(g).member_shares == old(self).group(g).member_shares
                &&& removed_first(old(self).groups_of(member), g, final(self).groups_of(member))
                &&& forall|j: u64|
                    j != member ==> #[trigger] final(self).groups_of(j) == old(self).groups_of(j)
            },
    {
        let gi = match self.index_of(g) {
            Some(gi) => gi,
            None => return Err(SplitError::GroupNotFound),
        };
        let pos = match find_u64(&self.groups[gi].members, member) {
            Some(pos) => pos,
            None => return Err(SplitError::NotAMember),
        };
        if read_balance(&self.groups[gi].member_shares, member) != 0 {
            return Err(SplitError::NonZeroBalance);
        }
        self.groups[gi].members.remove(pos);
        self.drop_group_id(member, g);
        proof {
            assert(self.groups@ == old(self).groups@.update(g - 1, self.group(g)));
            assert forall|i: int| 0 <= i < self.groups@.len() implies (
            #[trigger] self.groups@[i]).wf() by {
                if i != gi {
                    assert(self.groups@[i] == old(self).groups@[i]);
                }
            }
        }
        Ok(())
    }

    /// The members of group `g`, in order.
    pub fn get_group_members(&self, g: u32) -> (r: Result<&Vec<u64>, SplitError>)
        requires
            self.wf(),
        ensures
            !self.has_group(g) ==> r == Err::<&Vec<u64>, SplitError>(SplitError::GroupNotFound),
            self.has_group(g) ==> r == Ok::<&Vec<u64>, SplitError>(&self.group(g).members),
    {
        match self.index_of(g) {
            Some(gi) => Ok(&self.groups[gi].members),
            None => Err(SplitError::GroupNotFound),
        }
    }

    /// The balance of `member` in group `g`; zero where none is recorded.
    pub fn get_member_balance(&self, g: u32, member: u64) -> (r: Result<i128, SplitError>)
        requires
            self.wf(),
        ensures
            r == (if !self.has_group(g) {
                Err(SplitError::GroupNotFound)
            } else if !self.is_member(g, member) {
                Err(SplitError::NotAMember)
            } else {
                Ok::<i128, SplitError>(self.balance(g, member) as i128)
            }),
    {
        let gi = match self.index_of(g) {
            Some(gi) => gi,
            None => return Err(SplitError::GroupNotFound),
        };
        if find_u64(&self.groups[gi].members, member).is_none() {
            return Err(SplitError::NotAMember);
        }
        Ok(read_balance(&self.groups[gi].member_shares, member))
    }

    /// The expense log of group `g`, oldest first.
    pub fn get_group_expenses(&self, g: u32) -> (r: Result<&Vec<Expense>, SplitError>)
        requires
            self.wf(),
        ensures
            !self.has_group(g) ==> r == Err::<&Vec<Expense>, SplitError>(
                SplitError::GroupNotFound,
            ),
            self.has_group(g) ==> r == Ok::<&Vec<Expense>, SplitError>(&self.expenses@[g - 1]),
    {
        match self.index_of(g) {
            Some(gi) => Ok(&self.expenses[gi]),
            None => Err(SplitError::GroupNotFound),
        }
    }

    /// Moves `amount` of debt from `from` to `to`: `from`'s balance rises by
    /// `amount`, then `to`'s falls by `amount`. `from` must owe at least
    /// `amount`; whether `to` is owed anything is not checked.
    pub fn settle_debt(&mut self, g: u32, from: u64, to: u64, amount: i128) -> (r: Result<
        (),
        SplitError,
    >)
        requires
            old(self).wf(),
        ensures
            final(self).wf(),
            r is Err <==> old(self).settle_error(g, from, to, amount) is Some,
            r is Err ==> r == Err::<(), SplitError>(old(self).settle_error(g, from, to, amount)->0)
                && *final(self) == *old(self),
            r is Ok ==> old(self).balance(g, from) < 0 && amount <= -old(self).balance(g, from),
            r is Ok ==> {
                let m = old(self).group(g).member_shares@;
                let m1 = set_balance(m, from, balance_of(m, from) + amount);
                &&& final(self).groups@ == old(self).groups@.update(g - 1, final(self).group(g))
                &&& final(self).expenses == old(self).expenses
                &&& final(self).member_groups == old(self).member_groups
                &&& final(self).group(g).members == old(self).group(g).members
                &&& final(self).group(g).total_amount == old(self).group(g).total_amount
                &&& final(self).group(g).member_shares@ == set_balance(
                    m1,
                    to,
                    balance_of(m1, to) - amount,
                )
                &&& final(self).balance(g, from) + final(self).balance(g, to) == old(self).balance(
                    g,
                    from,
                ) + old(self).balance(g, to)
                &&& forall|k: u64|
                    k != from && k != to ==> #[trigger] final(self).balance(g, k) == old(
                        self,
                    ).balance(g, k)
            },
    {
        let gi = match self.index_of(g) {
            Some(gi) => gi,
            None => return Err(SplitError::GroupNotFound),
        };
        if find_u64(&self.groups[gi].members, from).is_none() {
            return Err(SplitError::NotAMember);
        }
        if find_u64(&self.groups[gi].members, to).is_none() {
            return Err(SplitError::NotAMember);
        }
        if amount <= 0 {
            return Err(SplitError::InvalidAmount);
        }
        let from_share = read_balance(&self.groups[gi].member_shares, from);
        let to_share = read_balance(&self.groups[gi].member_shares, to);
        if from_share >= 0 {
            return Err(SplitError::NoDebt);
        }
        if from_share + amount > 0 {
            return Err(SplitError::OverSettlement);
        }
        let new_from: i128 = from_share + amount;
        let new_to: i128 = if from == to {
            from_share
        } else {
            match to_share.checked_sub(amount) {
                Some(v) => v,
                None => return Err(SplitError::Overflow),
            }
        };
        let ghost m = self.groups@[gi as int].member_shares@;
        write_balance(&mut self.groups[gi].member_shares, from, new_from);
        write_balance(&mut self.groups[gi].member_shares, to, new_to);
        proof {
            lemma_set_balance_keeps_no_zero(m, from, new_from as int);
            lemma_set_balance_keeps_no_zero(set_balance(m, from, new_from as int), to, new_to as int);
            assert(self.groups@ == old(self).groups@.update(g - 1, self.group(g)));
            assert forall|i: int| 0 <= i < self.groups@.len() implies (
            #[trigger] self.groups@[i]).wf() by {
                if i != gi {
                    assert(self.groups@[i] == old(self).groups@[i]);
                }
            }
        }
        Ok(())
    }

    /// The first check that `settle_debt` fails, if any.
    pub open spec fn settle_error(&self, g: u32, from: u64, to: u64, amount: i128) -> Option<
        SplitError,
    > {
        if !self.has_group(g) {
            Some(SplitError::GroupNotFound)
        } else if !self.is_member(g, from) || !self.is_member(g, to) {
            Some(SplitError::NotAMember)
        } else if amount <= 0 {
            Some(SplitError::InvalidAmount)
        } else if self.balance(g, from) >= 0 {
            Some(SplitError::NoDebt)
        } else if amount > -self.balance(g, from) {
            Some(SplitError::OverSettlement)
        } else if from != to && !fits_i128(self.balance(g, to) - amount) {
            Some(SplitError::Overflow)
        } else {
            None
        }
    }
}

proof fn lemma_log_total_remove(s: Seq<Expense>, i: int)
    requires
        0 <= i < s.len(),
    ensures
        log_total(s.remove(i)) == log_total(s) - s[i].amount,
    decreases s.len(),
{
    if i == s.len() - 1 {
        assert(s.remove(i) == s.drop_last());
    } else {
        lemma_log_total_remove(s.drop_last(), i);
        assert(s.remove(i) == s.drop_last().remove(i).push(s.last()));
        assert(s.remove(i).drop_last() == s.drop_last().remove(i));
    }
}

proof fn lemma_log_total_nonneg(s: Seq<Expense>)
    requires
        forall|j: int| 0 <= j < s.len() ==> #[trigger] s[j].amount > 0,
    ensures
        log_total(s) >= 0,
    decreases s.len(),
{
    if s.len() > 0 {
        assert forall|j: int| 0 <= j < s.drop_last().len() implies #[trigger] s.drop_last()[j].amount
            > 0 by {
            assert(s.drop_last()[j] == s[j]);
        }
        lemma_log_total_nonneg(s.drop_last());
        assert(s[s.len() - 1].amount > 0);
    }
}

impl SplitPayment {
    /// The first check that `add_expense` fails, if any.
    pub open spec fn add_expense_error(
        &self,
        g: u32,
        payer: u64,
        amount: i128,
        s: Seq<SplitInfo>,
    ) -> Option<SplitError> {
        if !self.has_group(g) {
            Some(SplitError::GroupNotFound)
        } else if !self.is_member(g, payer) {
            Some(SplitError::NotAMember)
        } else if amount <= 0 {
            Some(SplitError::InvalidAmount)
        } else if exists|i: int| 0 <= i < s.len() && !self.is_member(g, #[trigger] s[i].member) {
            Some(SplitError::NotAMember)
        } else if !share_sums_fit(s) {
            Some(SplitError::Overflow)
        } else if share_sum(s) != BASIS_POINTS {
            Some(SplitError::SplitMismatch)
        } else if self.log(g).len() > u32::MAX || !fits_i128(
            self.group(g).total_amount + amount,
        ) || apply_splits(self.group(g).member_shares@, payer, amount as int, s) is None {
            Some(SplitError::Overflow)
        } else {
            None
        }
    }

    /// Records an expense of `amount` paid by `payer` and split by
    /// `split_members`, and returns its index in the group's log. For each
    /// split entry, in order, the payer is credited `amount` less their part
    /// and any other member owes their part, where a part is
    /// `amount * share / 10000` rounded toward zero.
    pub fn add_expense(
        &mut self,
        g: u32,
        payer: u64,
        amount: i128,
        description: String,
        split_members: Vec<SplitInfo>,
        timestamp: u64,
    ) -> (r: Result<u32, SplitError>)
        requires
            old(self).wf(),
        ensures
            final(self).wf(),
            r is Err <==> old(self).add_expense_error(g, payer, amount, split_members@) is Some,
            r is Err ==> r == Err::<u32, SplitError>(
                old(self).add_expense_error(g, payer, amount, split_members@)->0,
            ) && *final(self) == *old(self),
            r matches Ok(idx) ==> {
                &&& idx == old(self).log(g).len()
                &&& old(self).same_but_group(&*final(self), g)
                &&& final(self).group(g).members == old(self).group(g).members
                &&& final(self).group(g).total_amount == old(self).group(g).total_amount + amount
                &&& Some(final(self).group(g).member_shares@) == apply_splits(
                    old(self).group(g).member_shares@,
                    payer,
                    amount as int,
                    split_members@,
                )
                &&& final(self).log(g) == old(self).log(g).push(
                    (Expense {
                        payer,
                        amount,
                        description,
                        split_info: split_members,
                        timestamp,
                    }),
                )
            },
    {
        let gi = match self.index_of(g) {
            Some(gi) => gi,
            None => return Err(SplitError::GroupNotFound),
        };
        if find_u64(&self.groups[gi].members, payer).is_none() {
            return Err(SplitError::NotAMember);
        }
        if amount <= 0 {
            return Err(SplitError::InvalidAmount);
        }
        let mut i: usize = 0;
        while i < split_members.len()
            invariant
                0 <= i <= split_members@.len(),
                gi == g - 1,
                old(self).has_group(g),
                old(self).wf(),
                old(self).is_member(g, payer),
                amount > 0,
                *self == *old(self),
                forall|j: int| 0 <= j < i ==> self.is_member(g, #[trigger] split_members@[j].member),
            decreases split_members@.len() - i,
        {
            if find_u64(&self.groups[gi].members, split_members[i].member).is_none() {
                assert(!old(self).is_member(g, split_members@[i as int].member));
                return Err(SplitError::NotAMember);
            }
            i = i + 1;
        }
        assert(!exists|i: int|
            0 <= i < split_members@.len() && !old(self).is_member(
                g,
                #[trigger] split_members@[i].member,
            ));
        match total_share(&split_members) {
            None => return Err(SplitError::Overflow),
            Some(t) => {
                if t != BASIS_POINTS {
                    return Err(SplitError::SplitMismatch);
                }
            },
        }
        let n = self.expenses[gi].len();
        if n > 4294967295 {
            return Err(SplitError::Overflow);
        }
        let total = match self.groups[gi].total_amount.checked_add(amount) {
            Some(t) => t,
            None => return Err(SplitError::Overflow),
        };
        let ghost m = self.groups@[gi as int].member_shares@;
        let shares = match apply_splits_exec(
            &self.groups[gi].member_shares,
            payer,
            amount,
            &split_members,
        ) {
            Some(shares) => shares,
            None => return Err(SplitError::Overflow),
        };
        self.groups[gi].member_shares = shares;
        self.groups[gi].total_amount = total;
        self.expenses[gi].push(
            Expense { payer, amount, description, split_info: split_members, timestamp },
        );
        proof {
            lemma_apply_keeps_no_zero(m, payer, amount as int, split_members@);
            let l = self.expenses@[gi as int]@;
            assert(l.drop_last() == old(self).log(g));
            assert(self.groups@ == old(self).groups@.update(g - 1, self.group(g)));
            assert(self.expenses@ == old(self).expenses@.update(g - 1, self.expenses@[g - 1]));
            assert forall|i: int| 0 <= i < self.groups@.len() implies {
                &&& (#[trigger] self.groups@[i]).wf()
                &&& self.groups@[i].total_amount == log_total(self.expenses@[i]@)
                &&& forall|j: int|
                    0 <= j < self.expenses@[i]@.len() ==> #[trigger] self.expenses@[i]@[j].amount
                        > 0
            } by {
                if i != gi {
                    assert(self.groups@[i] == old(self).groups@[i]);
                    assert(self.expenses@[i] == old(self).expenses@[i]);
                } else {
                    assert forall|j: int| 0 <= j < l.len() implies #[trigger] l[j].amount > 0 by {
                        if j < l.len() - 1 {
                            assert(l[j] == old(self).log(g)[j]);
                        }
                    }
                }
            }
        }
        Ok(n as u32)
    }

    /// The first check that `remove_expense` fails, if any.
    pub open spec fn remove_expense_error(&self, g: u32, idx: u32, authorized_by: u64) -> Option<
        SplitError,
    > {
        if !self.has_group(g) {
            Some(SplitError::GroupNotFound)
        } else if idx >= self.log(g).len() {
            Some(SplitError::ExpenseIndexOutOfRange)
        } else if self.log(g)[idx as int].payer != authorized_by {
            Some(SplitError::NotOriginalPayer)
        } else if undo_splits(
            self.group(g).member_shares@,
            self.log(g)[idx as int].payer,
            self.log(g)[idx as int].amount as int,
            self.log(g)[idx as int].split_info@,
        ) is None {
            Some(SplitError::Overflow)
        } else {
            None
        }
    }

    /// Removes expense `idx` of group `g`, which only its payer may do: the
    /// balance changes it made are reversed from its amount and split, its
    /// amount leaves the group's total, and later expenses move down one place.
    pub fn remove_expense(&mut self, g: u32, idx: u32, authorized_by: u64) -> (r: Result<
        (),
        SplitError,
    >)
        requires
            old(self).wf(),
        ensures
            final(self).wf(),
            r is Err <==> old(self).remove_expense_error(g, idx, authorized_by) is Some,
            r is Err ==> r == Err::<(), SplitError>(
                old(self).remove_expense_error(g, idx, authorized_by)->0,
            ) && *final(self) == *old(self),
            r is Ok ==> {
                let e = old(self).log(g)[idx as int];
                &&& old(self).same_but_group(&*final(self), g)
                &&& final(self).group(g).members == old(self).group(g).members
                &&& final(self).group(g).total_amount == old(self).group(g).total_amount
                    - e.amount
                &&& Some(final(self).group(g).member_shares@) == undo_splits(
                    old(self).group(g).member_shares@,
                    e.payer,
                    e.amount as int,
                    e.split_info@,
                )
                &&& final(self).log(g) == old(self).log(g).remove(idx as int)
            },
    {
        let gi = match self.index_of(g) {
            Some(gi) => gi,
            None => return Err(SplitError::GroupNotFound),
        };
        let ei = idx as usize;
        if ei >= self.expenses[gi].len() {
            return Err(SplitError::ExpenseIndexOutOfRange);
        }
        let payer = self.expenses[gi][ei].payer;
        let amount = self.expenses[gi][ei].amount;
        if payer != authorized_by {
            return Err(SplitError::NotOriginalPayer);
        }
        let ghost m = self.groups@[gi as int].member_shares@;
        let ghost l = self.expenses@[gi as int]@;
        proof {
            assert(l[ei as int].amount > 0);
            lemma_log_total_remove(l, ei as int);
            assert forall|j: int| 0 <= j < l.remove(ei as int).len() implies #[trigger] l.remove(
                ei as int,
            )[j].amount > 0 by {
                if j < ei {
                    assert(l.remove(ei as int)[j] == l[j]);
                } else {
                    assert(l.remove(ei as int)[j] == l[j + 1]);
                }
            }
            lemma_log_total_nonneg(l.remove(ei as int));
        }
        let shares = match undo_splits_exec(
            &self.groups[gi].member_shares,
            payer,
            amount,
            &self.expenses[gi][ei].split_info,
        ) {
            Some(shares) => shares,
            None => return Err(SplitError::Overflow),
        };
        self.groups[gi].member_shares = shares;
        self.groups[gi].total_amount = self.groups[gi].total_amount - amount;
        self.expenses[gi].remove(ei);
        proof {
            lemma_undo_keeps_no_zero(m, payer, amount as int, l[ei as int].split_info@);
            assert(self.groups@ == old(self).groups@.update(g - 1, self.group(g)));
            assert(self.expenses@ == old(self).expenses@.update(g - 1, self.expenses@[g - 1]));
            assert forall|i: int| 0 <= i < self.groups@.len() implies {
                &&& (#[trigger] self.groups@[i]).wf()
                &&& self.groups@[i].total_amount == log_total(self.expenses@[i]@)
                &&& forall|j: int|
                    0 <= j < self.expenses@[i]@.len() ==> #[trigger] self.expenses@[i]@[j].amount
                        > 0
            } by {
                if i != gi {
                    assert(self.groups@[i] == old(self).groups@[i]);
                    assert(self.expenses@[i] == old(self).expenses@[i]);
                }
            }
        }
        Ok(())
    }
}

/// The first position of `x` in `v`.
pub fn find_u64(v: &Vec<u64>, x: u64) -> (r: Option<usize>)
    ensures
        match r {
            Some(i) => i < v@.len() && v@[i as int] == x && forall|j: int|
                0 <= j < i ==> v@[j] != x,
            None => !v@.contains(x),
        },
{
    let mut i: usize = 0;
    while i < v.len()
        invariant
            0 <= i <= v@.len(),
            forall|j: int| 0 <= j < i ==> v@[j] != x,
        decreases v@.len() - i,
    {
        if v[i] == x {
            return Some(i);
        }
        i = i + 1;
    }
    None
}

/// The first position of `x` in `v`.
pub fn find_u32(v: &Vec<u32>, x: u32) -> (r: Option<usize>)
    ensures
        match r {
            Some(i) => i < v@.len() && v@[i as int] == x && forall|j: int|
                0 <= j < i ==> v@[j] != x,
            None => !v@.contains(x),
        },
{
    let mut i: usize = 0;
    while i < v.len()
        invariant
            0 <= i <= v@.len(),
            forall|j: int| 0 <= j < i ==> v@[j] != x,
        decreases v@.len() - i,
    {
        if v[i] == x {
            return Some(i);
        }
        i = i + 1;
    }
    None
}

} // verus!
