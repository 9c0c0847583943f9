//! Projects and the per-project quadratic-funding formula.
//!
//! A project accumulates contributions per contributor and, on an explicit
//! recompute, derives its total contribution, the sum of the square roots of
//! the individual contributions, and its ideal matching amount — the square
//! of that sum of roots. The derived fields are deliberately stale between a
//! mutation and the next recompute, as the round recomputes all projects in
//! one pass.

use vstd::prelude::*;
use crate::errors::FundingError;
use crate::math::{floor_sqrt, isqrt, lemma_floor_sqrt_exists, lemma_floor_sqrt_le,
    lemma_floor_sqrt_of_square};

verus! {

/// A directed, amount-bearing record from a contributor to a project.
/// Amounts are whole currency units.
#[derive(Clone, Copy, Debug, PartialEq, Eq, Structural)]
pub struct Contribution {
    pub from: u32,
    pub to: u32,
    pub amount: u64,
}

/// No two entries of a contribution list name the same contributor.
pub open spec fn unique_keys(s: Seq<(u32, u64)>) -> bool {
    forall|i: int, j: int| 0 <= i < j < s.len() ==> s[i].0 != s[j].0
}

/// The sum of the amounts of a contribution list.
pub open spec fn sum_amounts(s: Seq<(u32, u64)>) -> int
    decreases s.len(),
{
    if s.len() == 0 {
        0
    } else {
        sum_amounts(s.drop_last()) + s.last().1
    }
}

/// The sum of the floor square roots of the amounts of a contribution list.
pub open spec fn sum_roots(s: Seq<(u32, u64)>) -> int
    decreases s.len(),
{
    if s.len() == 0 {
        0
    } else {
        sum_roots(s.drop_last()) + floor_sqrt(s.last().1 as int)
    }
}

/// The contribution list read as a map from contributor to amount.
pub open spec fn map_of(s: Seq<(u32, u64)>) -> Map<u32, u64>
    decreases s.len(),
{
    if s.len() == 0 {
        Map::empty()
    } else {
        map_of(s.drop_last()).insert(s.last().0, s.last().1)
    }
}

/// The amount a contributor stands at in a contribution map: zero if absent.
pub open spec fn amount_of(m: Map<u32, u64>, from: u32) -> int {
    if m.contains_key(from) {
        m[from] as int
    } else {
        0
    }
}

/// The index of the contributor's entry (meaningful when the contributor is
/// present and the contributors are unique).
pub open spec fn index_of_key(s: Seq<(u32, u64)>, k: u32) -> int {
    choose|i: int| 0 <= i < s.len() && s[i].0 == k
}

pub proof fn lemma_index_of_key(s: Seq<(u32, u64)>, i: int)
    requires
        unique_keys(s),
        0 <= i < s.len(),
    ensures
        index_of_key(s, s[i].0) == i,
{
    assert(0 <= i < s.len() && s[i].0 == s[i].0);
    let j = index_of_key(s, s[i].0);
    assert(0 <= j < s.len() && s[j].0 == s[i].0);
    if i < j {
        assert(s[i].0 != s[j].0);
    } else if j < i {
        assert(s[j].0 != s[i].0);
    }
}

/// `after` is `before` with one contribution of `amount` from `from`
/// recorded: the contributor's map entry grew by `amount` (from zero if it
/// was absent), a repeated contributor keeps its one entry in place while a
/// new one is appended, the running total grew by `amount`, and the
/// identifier and the derived statistics are untouched.
pub open spec fn adds_contribution(before: Project, after: Project, from: u32, amount: u64) -> bool {
    let m = before.contribution_map();
    let grown = ((amount_of(m, from) + amount) as u64);
    &&& after.spec_id() == before.spec_id()
    &&& after.spec_total() == before.spec_total()
    &&& after.spec_sum_root() == before.spec_sum_root()
    &&& after.spec_matching() == before.spec_matching()
    &&& before.spec_running_total() + amount <= u64::MAX
    &&& after.spec_running_total() == before.spec_running_total() + amount
    &&& after.contribution_map() == m.insert(from, grown)
    &&& if m.contains_key(from) {
        after.contributions() == before.contributions().update(
            index_of_key(before.contributions(), from),
            (from, grown),
        )
    } else {
        after.contributions() == before.contributions().push((from, amount))
    }
}

pub proof fn lemma_sum_amounts_nonneg(s: Seq<(u32, u64)>)
    ensures
        0 <= sum_amounts(s),
    decreases s.len(),
{
    if s.len() > 0 {
        lemma_sum_amounts_nonneg(s.drop_last());
    }
}

pub proof fn lemma_sum_amounts_take_step(s: Seq<(u32, u64)>, k: int)
    requires
        0 <= k < s.len(),
    ensures
        sum_amounts(s.take(k + 1)) == sum_amounts(s.take(k)) + s[k].1,
{
    assert(s.take(k + 1).drop_last() =~= s.take(k));
    assert(s.take(k + 1).last() == s[k]);
}

pub proof fn lemma_sum_amounts_take_le(s: Seq<(u32, u64)>, k: int)
    requires
        0 <= k <= s.len(),
    ensures
        sum_amounts(s.take(k)) <= sum_amounts(s),
    decreases s.len() - k,
{
    if k == s.len() {
        assert(s.take(k) =~= s);
    } else {
        lemma_sum_amounts_take_step(s, k);
        lemma_sum_amounts_take_le(s, k + 1);
    }
}

/// A single entry never exceeds the sum of the whole list.
pub proof fn lemma_sum_amounts_term(s: Seq<(u32, u64)>, k: int)
    requires
        0 <= k < s.len(),
    ensures
        s[k].1 <= sum_amounts(s),
{
    lemma_sum_amounts_nonneg(s.take(k));
    lemma_sum_amounts_take_step(s, k);
    lemma_sum_amounts_take_le(s, k + 1);
}

pub proof fn lemma_sum_amounts_update(s: Seq<(u32, u64)>, i: int, v: u64)
    requires
        0 <= i < s.len(),
    ensures
        sum_amounts(s.update(i, (s[i].0, v))) == sum_amounts(s) - s[i].1 + v,
    decreases s.len(),
{
    let t = s.update(i, (s[i].0, v));
    if i == s.len() - 1 {
        assert(t.drop_last() =~= s.drop_last());
        assert(t.last() == (s[i].0, v));
    } else {
        assert(t.drop_last() =~= s.drop_last().update(i, (s[i].0, v)));
        assert(t.last() == s.last());
        lemma_sum_amounts_update(s.drop_last(), i, v);
    }
}

pub proof fn lemma_sum_amounts_push(s: Seq<(u32, u64)>, k: u32, v: u64)
    ensures
        sum_amounts(s.push((k, v))) == sum_amounts(s) + v,
{
    assert(s.push((k, v)).drop_last() =~= s);
    assert(s.push((k, v)).last() == (k, v));
}

pub proof fn lemma_sum_roots_nonneg(s: Seq<(u32, u64)>)
    ensures
        0 <= sum_roots(s),
    decreases s.len(),
{
    if s.len() > 0 {
        lemma_sum_roots_nonneg(s.drop_last());
        lemma_floor_sqrt_exists(s.last().1 as int);
    }
}

pub proof fn lemma_sum_roots_take_step(s: Seq<(u32, u64)>, k: int)
    requires
        0 <= k < s.len(),
    ensures
        sum_roots(s.take(k + 1)) == sum_roots(s.take(k)) + floor_sqrt(s[k].1 as int),
{
    assert(s.take(k + 1).drop_last() =~= s.take(k));
    assert(s.take(k + 1).last() == s[k]);
}

pub proof fn lemma_sum_roots_take_le(s: Seq<(u32, u64)>, k: int)
    requires
        0 <= k <= s.len(),
    ensures
        sum_roots(s.take(k)) <= sum_roots(s),
    decreases s.len() - k,
{
    if k == s.len() {
        assert(s.take(k) =~= s);
    } else {
        lemma_sum_roots_take_step(s, k);
        lemma_floor_sqrt_exists(s[k].1 as int);
        lemma_sum_roots_take_le(s, k + 1);
    }
}

/// Each root is at most its amount, so the sum of roots is at most the sum
/// of amounts.
pub proof fn lemma_sum_roots_le_sum_amounts(s: Seq<(u32, u64)>)
    ensures
        sum_roots(s) <= sum_amounts(s),
    decreases s.len(),
{
    if s.len() > 0 {
        lemma_sum_roots_le_sum_amounts(s.drop_last());
        lemma_floor_sqrt_le(s.last().1 as int);
    }
}

pub proof fn lemma_map_of_index(s: Seq<(u32, u64)>, i: int)
    requires
        unique_keys(s),
        0 <= i < s.len(),
    ensures
        map_of(s).contains_key(s[i].0),
        map_of(s)[s[i].0] == s[i].1,
    decreases s.len(),
{
    if i < s.len() - 1 {
        assert(s.drop_last()[i] == s[i]);
        lemma_map_of_index(s.drop_last(), i);
        assert(s[s.len() - 1].0 != s[i].0);
    }
}

pub proof fn lemma_map_of_absent(s: Seq<(u32, u64)>, k: u32)
    requires
        forall|i: int| 0 <= i < s.len() ==> s[i].0 != k,
    ensures
        !map_of(s).contains_key(k),
    decreases s.len(),
{
    if s.len() > 0 {
        assert(forall|i: int| 0 <= i < s.drop_last().len() ==> s.drop_last()[i].0 != k);
        lemma_map_of_absent(s.drop_last(), k);
    }
}

pub proof fn lemma_map_of_update(s: Seq<(u32, u64)>, i: int, v: u64)
    requires
        unique_keys(s),
        0 <= i < s.len(),
    ensures
        map_of(s.update(i, (s[i].0, v))) == map_of(s).insert(s[i].0, v),
    decreases s.len(),
{
    let t = s.update(i, (s[i].0, v));
    if i == s.len() - 1 {
        assert(t.drop_last() =~= s.drop_last());
        assert(t.last() == (s[i].0, v));
        assert(map_of(t) =~= map_of(s).insert(s[i].0, v));
    } else {
        assert(t.drop_last() =~= s.drop_last().update(i, (s[i].0, v)));
        assert(t.last() == s.last());
        assert(s.drop_last()[i] == s[i]);
        lemma_map_of_update(s.drop_last(), i, v);
        assert(s[s.len() - 1].0 != s[i].0);
        assert(map_of(t) =~= map_of(s).insert(s[i].0, v));
    }
}

pub proof fn lemma_map_of_push(s: Seq<(u32, u64)>, k: u32, v: u64)
    ensures
        map_of(s.push((k, v))) == map_of(s).insert(k, v),
{
    assert(s.push((k, v)).drop_last() =~= s);
    assert(s.push((k, v)).last() == (k, v));
}

pub proof fn lemma_map_of_contains_index(s: Seq<(u32, u64)>, k: u32)
    requires
        map_of(s).contains_key(k),
    ensures
        exists|i: int| 0 <= i < s.len() && s[i].0 == k,
    decreases s.len(),
{
    if s.len() == 0 {
        assert(false);
    } else if s.last().0 == k {
        assert(s[s.len() - 1].0 == k);
    } else {
        lemma_map_of_contains_index(s.drop_last(), k);
        let i: int = choose|i: int| 0 <= i < s.drop_last().len() && s.drop_last()[i].0 == k;
        assert(s[i].0 == k);
    }
}

pub proof fn lemma_unique_keys_remove(s: Seq<(u32, u64)>, j: int)
    requires
        unique_keys(s),
        0 <= j < s.len(),
    ensures
        unique_keys(s.remove(j)),
{
    let t = s.remove(j);
    s.remove_ensures(j);
    assert forall|a: int, b: int| 0 <= a < b < t.len() implies t[a].0 != t[b].0 by {
        let a2: int = if a < j { a } else { a + 1 };
        let b2: int = if b < j { b } else { b + 1 };
        assert(t[a] == s[a2]);
        assert(t[b] == s[b2]);
        assert(s[a2].0 != s[b2].0);
    }
}

pub proof fn lemma_sum_amounts_remove(s: Seq<(u32, u64)>, j: int)
    requires
        0 <= j < s.len(),
    ensures
        sum_amounts(s.remove(j)) == sum_amounts(s) - s[j].1,
    decreases s.len(),
{
    let t = s.remove(j);
    if j == s.len() - 1 {
        assert(t =~= s.drop_last());
    } else {
        s.remove_ensures(j);
        s.drop_last().remove_ensures(j);
        assert(t.drop_last() =~= s.drop_last().remove(j));
        assert(t.last() == s.last());
        assert(s.drop_last()[j] == s[j]);
        lemma_sum_amounts_remove(s.drop_last(), j);
    }
}

pub proof fn lemma_sum_roots_remove(s: Seq<(u32, u64)>, j: int)
    requires
        0 <= j < s.len(),
    ensures
        sum_roots(s.remove(j)) == sum_roots(s) - floor_sqrt(s[j].1 as int),
    decreases s.len(),
{
    let t = s.remove(j);
    if j == s.len() - 1 {
        assert(t =~= s.drop_last());
    } else {
        s.remove_ensures(j);
        s.drop_last().remove_ensures(j);
        assert(t.drop_last() =~= s.drop_last().remove(j));
        assert(t.last() == s.last());
        assert(s.drop_last()[j] == s[j]);
        lemma_sum_roots_remove(s.drop_last(), j);
    }
}

pub proof fn lemma_map_of_remove(s: Seq<(u32, u64)>, j: int)
    requires
        unique_keys(s),
        0 <= j < s.len(),
    ensures
        map_of(s.remove(j)) == map_of(s).remove(s[j].0),
    decreases s.len(),
{
    let t = s.remove(j);
    if j == s.len() - 1 {
        assert(t =~= s.drop_last());
        assert(forall|i: int| 0 <= i < s.drop_last().len() ==> s.drop_last()[i].0 != s[j].0);
        lemma_map_of_absent(s.drop_last(), s[j].0);
        assert(map_of(t) =~= map_of(s).remove(s[j].0));
    } else {
        s.remove_ensures(j);
        s.drop_last().remove_ensures(j);
        assert(t.drop_last() =~= s.drop_last().remove(j));
        assert(t.last() == s.last());
        assert(s.drop_last()[j] == s[j]);
        assert(unique_keys(s.drop_last()));
        lemma_map_of_remove(s.drop_last(), j);
        assert(s[s.len() - 1].0 != s[j].0);
        assert(map_of(t) =~= map_of(s).remove(s[j].0));
    }
}

/// Law: the sums the recompute derives are determined by the contribution
/// map alone. Two contribution lists of the same length that read as the
/// same map — the same contributors with the same amounts, in whatever
/// order they were recorded — have the same sum of amounts and the same
/// sum of square roots, so the order of recording plays no role in the
/// derived statistics.
pub proof fn lemma_sums_map_determined(s1: Seq<(u32, u64)>, s2: Seq<(u32, u64)>)
    requires
        unique_keys(s1),
        unique_keys(s2),
        s1.len() == s2.len(),
        map_of(s1) == map_of(s2),
    ensures
        sum_amounts(s1) == sum_amounts(s2),
        sum_roots(s1) == sum_roots(s2),
    decreases s1.len(),
{
    if s1.len() > 0 {
        let n: int = s1.len() - 1;
        let k: u32 = s1[n].0;
        let v: u64 = s1[n].1;
        lemma_map_of_index(s1, n);
        lemma_map_of_contains_index(s2, k);
        let j: int = choose|j: int| 0 <= j < s2.len() && s2[j].0 == k;
        lemma_map_of_index(s2, j);
        assert(s2[j].1 == v);
        let t = s2.remove(j);
        lemma_unique_keys_remove(s2, j);
        lemma_map_of_remove(s2, j);
        assert(forall|i: int| 0 <= i < s1.drop_last().len() ==> s1.drop_last()[i].0 != k);
        lemma_map_of_absent(s1.drop_last(), k);
        assert(map_of(s1.drop_last()) =~= map_of(s1).remove(k));
        assert(unique_keys(s1.drop_last()));
        lemma_sums_map_determined(s1.drop_last(), t);
        lemma_sum_amounts_remove(s2, j);
        lemma_sum_roots_remove(s2, j);
    }
}

/// A project: one recipient of contributions, with its derived
/// quadratic-funding statistics.
pub struct Project {
    id: u32,
    total_contribution: u64,
    sum_rootsquared_contribution: u64,
    matching_amount: u128,
    contribution_list: Vec<(u32, u64)>,
    running_total: u64,
}

/// `after` holds the derived statistics recomputed from `before`'s
/// contribution list, everything else unchanged: the total is the sum of
/// the amounts, the root sum is the sum of their floor square roots, and
/// the matching amount is the square of the root sum — the per-project
/// quadratic-funding formula.
pub open spec fn recomputes(before: Project, after: Project) -> bool {
    &&& after.spec_id() == before.spec_id()
    &&& after.contributions() == before.contributions()
    &&& after.spec_running_total() == before.spec_running_total()
    &&& after.spec_total() as int == sum_amounts(before.contributions())
    &&& after.spec_sum_root() as int == sum_roots(before.contributions())
    &&& after.spec_matching() as int == sum_roots(before.contributions()) * sum_roots(
        before.contributions(),
    )
}

impl Project {
    /// The project's identifier.
    pub closed spec fn spec_id(&self) -> u32 {
        self.id
    }

    /// The recorded contributions, one entry per contributor.
    pub closed spec fn contributions(&self) -> Seq<(u32, u64)> {
        self.contribution_list@
    }

    /// The recorded contributions as a map from contributor to amount.
    pub open spec fn contribution_map(&self) -> Map<u32, u64> {
        map_of(self.contributions())
    }

    /// The derived total contribution (stale until the next recompute).
    pub closed spec fn spec_total(&self) -> u64 {
        self.total_contribution
    }

    /// The derived sum of square roots (stale until the next recompute).
    pub closed spec fn spec_sum_root(&self) -> u64 {
        self.sum_rootsquared_contribution
    }

    /// The derived ideal matching amount (stale until the next recompute).
    pub closed spec fn spec_matching(&self) -> u128 {
        self.matching_amount
    }

    /// The always-fresh running sum of the recorded amounts.
    pub closed spec fn spec_running_total(&self) -> u64 {
        self.running_total
    }

    /// Well-formedness: contributors are unique, the running total is the
    /// exact sum of the recorded amounts (so that sum fits a `u64`), and the
    /// derived root sum and matching amount are consistent with each other
    /// and bounded by the running total.
    pub open spec fn wf(&self) -> bool {
        &&& unique_keys(self.contributions())
        &&& self.spec_running_total() as int == sum_amounts(self.contributions())
        &&& self.spec_sum_root() <= self.spec_running_total()
        &&& self.spec_matching() as int == (self.spec_sum_root() as int) * (
        self.spec_sum_root() as int)
    }

    /// A fresh project: the given identifier, no contributions, all derived
    /// statistics zero.
    pub fn new(id: u32) -> (p: Project)
        ensures
            p.wf(),
            p.spec_id() == id,
            p.contributions().len() == 0,
            p.spec_total() == 0,
            p.spec_sum_root() == 0,
            p.spec_matching() == 0,
            p.spec_running_total() == 0,
    {
        Project {
            id,
            total_contribution: 0,
            sum_rootsquared_contribution: 0,
            matching_amount: 0,
            contribution_list: Vec::new(),
            running_total: 0,
        }
    }

    /// The index of the contributor's entry, if it has one.
    fn find_entry(&self, from: u32) -> (r: Option<usize>)
        ensures
            match r {
                Some(i) => i < self.contributions().len() && self.contributions()[i as int].0
                    == from,
                None => forall|j: int|
                    0 <= j < self.contributions().len() ==> self.contributions()[j].0 != from,
            },
    {
        let n: usize = self.contribution_list.len();
        let mut i: usize = 0;
        while i < n
            invariant
                i <= n,
                n == self.contribution_list@.len(),
                forall|j: int| 0 <= j < i ==> self.contribution_list@[j].0 != from,
            decreases n - i,
        {
            if self.contribution_list[i].0 == from {
                return Some(i);
            }
            i = i + 1;
        }
        None
    }

    /// Record a contribution. A repeated contributor accumulates additively
    /// into its one entry; a new contributor gets a fresh entry. The derived
    /// statistics are left untouched (they go stale until the next
    /// recompute). Refused only when the running total would pass the
    /// largest representable amount.
    pub fn add_contribution(&mut self, contribution: Contribution) -> (res: Result<
        (),
        FundingError,
    >)
        requires
            old(self).wf(),
        ensures
            final(self).wf(),
            final(self).spec_id() == old(self).spec_id(),
            final(self).spec_total() == old(self).spec_total(),
            final(self).spec_sum_root() == old(self).spec_sum_root(),
            final(self).spec_matching() == old(self).spec_matching(),
            match res {
                Ok(()) => adds_contribution(
                    *old(self),
                    *final(self),
                    contribution.from,
                    contribution.amount,
                ),
                Err(e) => {
                    &&& e == FundingError::Overflow
                    &&& old(self).spec_running_total() + contribution.amount > u64::MAX
                    &&& final(self).contributions() == old(self).contributions()
                    &&& final(self).spec_running_total() == old(self).spec_running_total()
                },
            },
    {
        if contribution.amount > u64::MAX - self.running_total {
            return Err(FundingError::Overflow);
        }
        let ghost s0 = self.contribution_list@;
        match self.find_entry(contribution.from) {
            Some(i) => {
                let prev: u64 = self.contribution_list[i].1;
                proof {
                    lemma_sum_amounts_term(s0, i as int);
                    lemma_map_of_index(s0, i as int);
                    lemma_index_of_key(s0, i as int);
                }
                self.contribution_list[i] = (contribution.from, prev + contribution.amount);
                self.running_total = self.running_total + contribution.amount;
                proof {
                    lemma_sum_amounts_update(s0, i as int, (prev + contribution.amount) as u64);
                    lemma_map_of_update(s0, i as int, (prev + contribution.amount) as u64);
                }
                Ok(())
            },
            None => {
                proof {
                    lemma_map_of_absent(s0, contribution.from);
                }
                self.contribution_list.push((contribution.from, contribution.amount));
                self.running_total = self.running_total + contribution.amount;
                proof {
                    lemma_sum_amounts_push(s0, contribution.from, contribution.amount);
                    lemma_map_of_push(s0, contribution.from, contribution.amount);
                }
                Ok(())
            },
        }
    }

    /// Recompute the derived statistics from the contribution list: the
    /// total contribution is the exact sum of the recorded amounts, the
    /// root sum is the sum of their floor square roots, and the matching
    /// amount is the square of the root sum. Idempotent: the result depends
    /// only on the contribution list.
    pub fn update(&mut self)
        requires
            old(self).wf(),
        ensures
            final(self).wf(),
            recomputes(*old(self), *final(self)),
    {
        let ghost s = self.contribution_list@;
        let n: usize = self.contribution_list.len();
        let mut total: u64 = 0;
        let mut root_sum: u64 = 0;
        let mut i: usize = 0;
        while i < n
            invariant
                i <= n,
                n == s.len(),
                s == self.contribution_list@,
                self.running_total as int == sum_amounts(s),
                total as int == sum_amounts(s.take(i as int)),
                root_sum as int == sum_roots(s.take(i as int)),
            decreases n - i,
        {
            let amount: u64 = self.contribution_list[i].1;
            let r: u64 = isqrt(amount);
            proof {
                lemma_sum_amounts_take_step(s, i as int);
                lemma_sum_amounts_take_le(s, i as int + 1);
                lemma_sum_roots_take_step(s, i as int);
                lemma_sum_roots_take_le(s, i as int + 1);
                lemma_sum_roots_le_sum_amounts(s);
                lemma_sum_roots_nonneg(s.take(i as int));
            }
            total = total + amount;
            root_sum = root_sum + r;
            i = i + 1;
        }
        proof {
            assert(s.take(n as int) =~= s);
            lemma_sum_roots_le_sum_amounts(s);
            assert((root_sum as int) * (root_sum as int) <= (u64::MAX as int) * (
            u64::MAX as int)) by (nonlinear_arith)
                requires
                    root_sum <= u64::MAX,
            ;
        }
        self.total_contribution = total;
        self.sum_rootsquared_contribution = root_sum;
        self.matching_amount = (root_sum as u128) * (root_sum as u128);
    }

    /// The project's identifier.
    pub fn get_id(&self) -> (id: u32)
        ensures
            id == self.spec_id(),
    {
        self.id
    }

    /// The derived total contribution, as of the last recompute.
    pub fn get_total_contribution(&self) -> (t: u64)
        ensures
            t == self.spec_total(),
    {
        self.total_contribution
    }

    /// The derived sum of square roots, as of the last recompute.
    pub fn get_sum_rootsquared_contribution(&self) -> (r: u64)
        ensures
            r == self.spec_sum_root(),
    {
        self.sum_rootsquared_contribution
    }

    /// The derived ideal matching amount, as of the last recompute.
    pub fn get_matching_amount(&self) -> (m: u128)
        ensures
            m == self.spec_matching(),
    {
        self.matching_amount
    }

    /// A copy of the contribution list, one `(contributor, amount)` entry
    /// per contributor.
    pub fn get_contribution_list(&self) -> (l: Vec<(u32, u64)>)
        ensures
            l@ == self.contributions(),
    {
        let n: usize = self.contribution_list.len();
        let mut out: Vec<(u32, u64)> = Vec::new();
        let mut i: usize = 0;
        while i < n
            invariant
                i <= n,
                n == self.contribution_list@.len(),
                out@ == self.contribution_list@.take(i as int),
            decreases n - i,
        {
            out.push(self.contribution_list[i]);
            proof {
                assert(self.contribution_list@.take(i as int).push(self.contribution_list@[i as int])
                    =~= self.contribution_list@.take(i as int + 1));
            }
            i = i + 1;
        }
        proof {
            assert(self.contribution_list@.take(n as int) =~= self.contribution_list@);
        }
        out
    }

    /// The amount a contributor stands at, if it has contributed.
    pub fn get_contribution(&self, from: u32) -> (r: Option<u64>)
        requires
            self.wf(),
        ensures
            match r {
                Some(v) => self.contribution_map().contains_key(from) && v
                    == self.contribution_map()[from],
                None => !self.contribution_map().contains_key(from),
            },
    {
        match self.find_entry(from) {
            Some(i) => {
                proof {
                    lemma_map_of_index(self.contribution_list@, i as int);
                }
                Some(self.contribution_list[i].1)
            },
            None => {
                proof {
                    lemma_map_of_absent(self.contribution_list@, from);
                }
                None
            },
        }
    }

    /// The always-fresh running sum of the recorded amounts.
    pub(crate) fn get_running_total(&self) -> (t: u64)
        ensures
            t == self.spec_running_total(),
    {
        self.running_total
    }
}

/// Law: the recompute is idempotent. Recomputing a second time with the
/// contribution list unchanged leaves every derived statistic where the
/// first recompute put it, since each is a pure function of the list.
pub proof fn lemma_recompute_idempotent(p: Project, once: Project, twice: Project)
    requires
        recomputes(p, once),
        recomputes(once, twice),
    ensures
        twice.spec_id() == once.spec_id(),
        twice.contributions() == once.contributions(),
        twice.spec_total() == once.spec_total(),
        twice.spec_sum_root() == once.spec_sum_root(),
        twice.spec_matching() == once.spec_matching(),
{
}

/// Law: a project holding a single contribution whose amount is a perfect
/// square gets that amount back as its matching amount after a recompute —
/// taking the square root and squaring round-trips on a single value.
pub proof fn lemma_single_square_contribution(
    before: Project,
    after: Project,
    from: u32,
    amount: u64,
    root: u64,
)
    requires
        (root as int) * (root as int) == amount as int,
        before.contributions() == seq![(from, amount)],
        recomputes(before, after),
    ensures
        after.spec_total() == amount,
        after.spec_matching() == amount,
{
    let s = seq![(from, amount)];
    assert(s.drop_last() =~= Seq::<(u32, u64)>::empty());
    assert(s.last() == (from, amount));
    lemma_floor_sqrt_of_square(root as int);
    assert(sum_amounts(Seq::<(u32, u64)>::empty()) == 0);
    assert(sum_roots(Seq::<(u32, u64)>::empty()) == 0);
    assert(sum_amounts(s) == amount);
    assert(sum_roots(s) == root as int);
}

} // verus!
