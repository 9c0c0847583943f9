//! Funding rounds and capital-constrained quadratic funding.
//!
//! A round owns a collection of projects and a matching pool. Contributions
//! are routed to the project they name; an explicit recompute pass derives
//! every project's statistics; the allocation query then hands each project
//! its ideal matching amount, rescaled by the common factor `pool / total`
//! when the ideal amounts together exceed the pool. The scale is kept as an
//! exact rational, so the rescaled amounts sum to the pool exactly.

use vstd::prelude::*;
use crate::errors::FundingError;
use crate::project::{Project, Contribution, recomputes, adds_contribution};

verus! {

/// The sum of the running contribution totals of a collection of projects.
pub open spec fn sum_running(s: Seq<Project>) -> int
    decreases s.len(),
{
    if s.len() == 0 {
        0
    } else {
        sum_running(s.drop_last()) + s.last().spec_running_total()
    }
}

/// The sum of the derived ideal matching amounts of a collection of
/// projects.
pub open spec fn sum_matching(s: Seq<Project>) -> int
    decreases s.len(),
{
    if s.len() == 0 {
        0
    } else {
        sum_matching(s.drop_last()) + s.last().spec_matching()
    }
}

/// The sum of the ideal amounts recorded in an allocation's entries.
pub open spec fn sum_ideal(s: Seq<(u32, u128)>) -> int
    decreases s.len(),
{
    if s.len() == 0 {
        0
    } else {
        sum_ideal(s.drop_last()) + s.last().1
    }
}

/// No two projects of the collection share an identifier.
pub open spec fn unique_ids(s: Seq<Project>) -> bool {
    forall|i: int, j: int| 0 <= i < j < s.len() ==> s[i].spec_id() != s[j].spec_id()
}

/// Some project of the collection has this identifier.
pub open spec fn has_project_id(s: Seq<Project>, id: u32) -> bool {
    exists|i: int| 0 <= i < s.len() && s[i].spec_id() == id
}

/// The index of the project with this identifier (meaningful when the
/// identifier is present and the identifiers are unique).
pub open spec fn index_of_id(s: Seq<Project>, id: u32) -> int {
    choose|i: int| 0 <= i < s.len() && s[i].spec_id() == id
}

pub proof fn lemma_index_of_id(s: Seq<Project>, i: int)
    requires
        unique_ids(s),
        0 <= i < s.len(),
    ensures
        has_project_id(s, s[i].spec_id()),
        index_of_id(s, s[i].spec_id()) == i,
{
    assert(has_project_id(s, s[i].spec_id()));
    let j = index_of_id(s, s[i].spec_id());
    assert(0 <= j < s.len() && s[j].spec_id() == s[i].spec_id());
    if i < j {
        assert(s[i].spec_id() != s[j].spec_id());
    } else if j < i {
        assert(s[j].spec_id() != s[i].spec_id());
    }
}

pub proof fn lemma_sum_running_nonneg(s: Seq<Project>)
    ensures
        0 <= sum_running(s),
    decreases s.len(),
{
    if s.len() > 0 {
        lemma_sum_running_nonneg(s.drop_last());
    }
}

pub proof fn lemma_sum_running_take_step(s: Seq<Project>, k: int)
    requires
        0 <= k < s.len(),
    ensures
        sum_running(s.take(k + 1)) == sum_running(s.take(k)) + s[k].spec_running_total(),
{
    assert(s.take(k + 1).drop_last() =~= s.take(k));
    assert(s.take(k + 1).last() == s[k]);
}

pub proof fn lemma_sum_running_take_le(s: Seq<Project>, k: int)
    requires
        0 <= k <= s.len(),
    ensures
        sum_running(s.take(k)) <= sum_running(s),
    decreases s.len() - k,
{
    if k == s.len() {
        assert(s.take(k) =~= s);
    } else {
        lemma_sum_running_take_step(s, k);
        lemma_sum_running_take_le(s, k + 1);
    }
}

/// One project's running total never exceeds the collection's sum.
pub proof fn lemma_sum_running_term(s: Seq<Project>, k: int)
    requires
        0 <= k < s.len(),
    ensures
        s[k].spec_running_total() <= sum_running(s),
{
    lemma_sum_running_nonneg(s.take(k));
    lemma_sum_running_take_step(s, k);
    lemma_sum_running_take_le(s, k + 1);
}

pub proof fn lemma_sum_running_update(s: Seq<Project>, i: int, p: Project)
    requires
        0 <= i < s.len(),
    ensures
        sum_running(s.update(i, p)) == sum_running(s) - s[i].spec_running_total()
            + p.spec_running_total(),
    decreases s.len(),
{
    let t = s.update(i, p);
    if i == s.len() - 1 {
        assert(t.drop_last() =~= s.drop_last());
        assert(t.last() == p);
    } else {
        assert(t.drop_last() =~= s.drop_last().update(i, p));
        assert(t.last() == s.last());
        lemma_sum_running_update(s.drop_last(), i, p);
    }
}

pub proof fn lemma_sum_running_push(s: Seq<Project>, p: Project)
    ensures
        sum_running(s.push(p)) == sum_running(s) + p.spec_running_total(),
{
    assert(s.push(p).drop_last() =~= s);
    assert(s.push(p).last() == p);
}

/// Collections whose projects agree pointwise on their running totals have
/// the same running sum.
pub proof fn lemma_sum_running_pointwise(s1: Seq<Project>, s2: Seq<Project>)
    requires
        s1.len() == s2.len(),
        forall|i: int|
            0 <= i < s1.len() ==> s1[i].spec_running_total() == s2[i].spec_running_total(),
    ensures
        sum_running(s1) == sum_running(s2),
    decreases s1.len(),
{
    if s1.len() > 0 {
        assert(forall|i: int|
            0 <= i < s1.drop_last().len() ==> s1.drop_last()[i].spec_running_total()
                == s2.drop_last()[i].spec_running_total());
        lemma_sum_running_pointwise(s1.drop_last(), s2.drop_last());
    }
}

pub proof fn lemma_sum_matching_take_step(s: Seq<Project>, k: int)
    requires
        0 <= k < s.len(),
    ensures
        sum_matching(s.take(k + 1)) == sum_matching(s.take(k)) + s[k].spec_matching(),
{
    assert(s.take(k + 1).drop_last() =~= s.take(k));
    assert(s.take(k + 1).last() == s[k]);
}

/// For well-formed projects the sum of the ideal matching amounts is at
/// most the square of the sum of the running totals: each ideal amount is
/// the square of a root sum bounded by the project's own running total.
pub proof fn lemma_sum_matching_bound(s: Seq<Project>)
    requires
        forall|i: int| 0 <= i < s.len() ==> (#[trigger] s[i]).wf(),
    ensures
        0 <= sum_matching(s),
        sum_matching(s) <= sum_running(s) * sum_running(s),
    decreases s.len(),
{
    if s.len() == 0 {
    } else {
        let dl = s.drop_last();
        assert(forall|i: int| 0 <= i < dl.len() ==> (#[trigger] dl[i]).wf()) by {
            assert(forall|i: int| 0 <= i < dl.len() ==> dl[i] == s[i]);
        }
        lemma_sum_matching_bound(dl);
        lemma_sum_running_nonneg(dl);
        let last = s.last();
        assert(last.wf());
        let a = sum_running(dl);
        let m = sum_matching(dl);
        let c = last.spec_sum_root() as int;
        let d = last.spec_running_total() as int;
        assert(m + c * c <= (a + d) * (a + d)) by (nonlinear_arith)
            requires
                0 <= a,
                0 <= m,
                m <= a * a,
                0 <= c <= d,
        ;
    }
}

/// Entries built from a collection of projects carry the same ideal total.
pub proof fn lemma_sum_ideal_matches(s: Seq<Project>, entries: Seq<(u32, u128)>)
    requires
        entries.len() == s.len(),
        forall|i: int|
            0 <= i < s.len() ==> entries[i] == (s[i].spec_id(), s[i].spec_matching()),
    ensures
        sum_ideal(entries) == sum_matching(s),
    decreases s.len(),
{
    if s.len() > 0 {
        assert(forall|i: int|
            0 <= i < s.drop_last().len() ==> entries.drop_last()[i] == (
            s.drop_last()[i].spec_id(),
            s.drop_last()[i].spec_matching(),
            ));
        lemma_sum_ideal_matches(s.drop_last(), entries.drop_last());
        assert(entries.last() == (s.last().spec_id(), s.last().spec_matching()));
    }
}

/// The result of the allocation query: each project's ideal matching
/// amount, together with one exact rational scale common to the round. A
/// project's allocated value is `ideal * scale_num / scale_den`. When the
/// pool covers the ideal total the scale is `1 / 1`; otherwise it is
/// `pool / total`, so the allocated values sum to the pool exactly.
pub struct CqfAllocation {
    /// One `(project identifier, ideal matching amount)` entry per project.
    pub entries: Vec<(u32, u128)>,
    /// Numerator of the common scale.
    pub scale_num: u64,
    /// Denominator of the common scale (at least one).
    pub scale_den: u128,
}

/// `a` is the capital-constrained quadratic-funding allocation of `round`:
/// entry `i` carries project `i`'s identifier and ideal matching amount,
/// and the scale is `1 / 1` when the pool covers the ideal total, else
/// `pool / total`. This pins the allocation down completely, so the query
/// is deterministic.
pub open spec fn allocation_matches(round: FundingRound, a: CqfAllocation) -> bool {
    let s = round.projects();
    let total = sum_matching(s);
    &&& a.entries@.len() == s.len()
    &&& forall|i: int|
        0 <= i < s.len() ==> a.entries@[i] == (s[i].spec_id(), s[i].spec_matching())
    &&& if total <= round.spec_pool() as int {
        a.scale_num == 1 && a.scale_den == 1
    } else {
        a.scale_num == round.spec_pool() && a.scale_den as int == total
    }
}

/// A funding round: a collection of projects with unique identifiers and a
/// matching pool (zero until set).
pub struct FundingRound {
    projects_list: Vec<Project>,
    matching_pool: u64,
    total_amount: u64,
}

impl FundingRound {
    /// The owned projects.
    pub closed spec fn projects(&self) -> Seq<Project> {
        self.projects_list@
    }

    /// The matching pool; zero means not yet set.
    pub closed spec fn spec_pool(&self) -> u64 {
        self.matching_pool
    }

    /// The always-fresh sum of every amount routed into the round.
    pub closed spec fn spec_total_amount(&self) -> u64 {
        self.total_amount
    }

    /// Well-formedness: the projects are well-formed with unique
    /// identifiers, and the round's running total is the exact sum of the
    /// projects' running totals (so that sum fits a `u64`).
    pub open spec fn wf(&self) -> bool {
        &&& unique_ids(self.projects())
        &&& forall|i: int| 0 <= i < self.projects().len() ==> (#[trigger] self.projects()[i]).wf()
        &&& self.spec_total_amount() as int == sum_running(self.projects())
    }

    /// An empty round with the pool not yet set.
    pub fn new() -> (round: FundingRound)
        ensures
            round.wf(),
            round.projects().len() == 0,
            round.spec_pool() == 0,
            round.spec_total_amount() == 0,
    {
        FundingRound { projects_list: Vec::new(), matching_pool: 0, total_amount: 0 }
    }

    /// Set the matching pool. A zero pool is refused: the pool must be
    /// strictly positive.
    pub fn set_matching_pool(&mut self, fund: u64) -> (res: Result<(), FundingError>)
        requires
            old(self).wf(),
        ensures
            final(self).wf(),
            final(self).projects() == old(self).projects(),
            final(self).spec_total_amount() == old(self).spec_total_amount(),
            match res {
                Ok(()) => fund > 0 && final(self).spec_pool() == fund,
                Err(e) => e == FundingError::InvalidArgument && fund == 0
                    && final(self).spec_pool() == old(self).spec_pool(),
            },
    {
        if fund == 0 {
            return Err(FundingError::InvalidArgument);
        }
        self.matching_pool = fund;
        Ok(())
    }

    /// The index of the project with this identifier, if it is registered.
    fn find_project(&self, id: u32) -> (r: Option<usize>)
        ensures
            match r {
                Some(i) => i < self.projects().len() && self.projects()[i as int].spec_id() == id,
                None => !has_project_id(self.projects(), id),
            },
    {
        let n: usize = self.projects_list.len();
        let mut i: usize = 0;
        while i < n
            invariant
                i <= n,
                n == self.projects_list@.len(),
                forall|j: int| 0 <= j < i ==> self.projects_list@[j].spec_id() != id,
            decreases n - i,
        {
            if self.projects_list[i].get_id() == id {
                return Some(i);
            }
            i = i + 1;
        }
        None
    }

    /// Register a project under its identifier. Refused when the identifier
    /// is already registered, or when the project's contributions would
    /// push the round's running total past the largest representable
    /// amount; either way the round is left untouched.
    pub fn add_project(&mut self, proj: Project) -> (res: Result<(), FundingError>)
        requires
            old(self).wf(),
            proj.wf(),
        ensures
            final(self).wf(),
            final(self).spec_pool() == old(self).spec_pool(),
            match res {
                Ok(()) => {
                    &&& !has_project_id(old(self).projects(), proj.spec_id())
                    &&& old(self).spec_total_amount() + proj.spec_running_total() <= u64::MAX
                    &&& final(self).projects() == old(self).projects().push(proj)
                    &&& final(self).spec_total_amount() == old(self).spec_total_amount()
                        + proj.spec_running_total()
                },
                Err(e) => {
                    &&& final(self).projects() == old(self).projects()
                    &&& final(self).spec_total_amount() == old(self).spec_total_amount()
                    &&& if has_project_id(old(self).projects(), proj.spec_id()) {
                        e == FundingError::DuplicateKey
                    } else {
                        e == FundingError::Overflow && old(self).spec_total_amount()
                            + proj.spec_running_total() > u64::MAX
                    }
                },
            },
    {
        let id: u32 = proj.get_id();
        match self.find_project(id) {
            Some(i) => {
                proof {
                    assert(has_project_id(self.projects(), id));
                }
                Err(FundingError::DuplicateKey)
            },
            None => {
                if proj.get_running_total() > u64::MAX - self.total_amount {
                    return Err(FundingError::Overflow);
                }
                let ghost s0 = self.projects_list@;
                proof {
                    lemma_sum_running_push(s0, proj);
                }
                self.total_amount = self.total_amount + proj.get_running_total();
                self.projects_list.push(proj);
                Ok(())
            },
        }
    }

    /// Route a contribution to the project it names, where it accumulates
    /// per contributor. Refused when no project has that identifier, or
    /// when the amount would push the round's running total past the
    /// largest representable amount; either way no project is touched.
    pub fn add_contribution(&mut self, contribution: Contribution) -> (res: Result<(), FundingError>)
        requires
            old(self).wf(),
        ensures
            final(self).wf(),
            final(self).spec_pool() == old(self).spec_pool(),
            match res {
                Ok(()) => {
                    &&& has_project_id(old(self).projects(), contribution.to)
                    &&& old(self).spec_total_amount() + contribution.amount <= u64::MAX
                    &&& final(self).spec_total_amount() == old(self).spec_total_amount()
                        + contribution.amount
                    &&& final(self).projects().len() == old(self).projects().len()
                    &&& forall|j: int|
                        0 <= j < old(self).projects().len() && j != index_of_id(
                            old(self).projects(),
                            contribution.to,
                        ) ==> final(self).projects()[j] == old(self).projects()[j]
                    &&& adds_contribution(
                        old(self).projects()[index_of_id(old(self).projects(), contribution.to)],
                        final(self).projects()[index_of_id(old(self).projects(), contribution.to)],
                        contribution.from,
                        contribution.amount,
                    )
                },
                Err(e) => {
                    &&& final(self).projects() == old(self).projects()
                    &&& final(self).spec_total_amount() == old(self).spec_total_amount()
                    &&& if !has_project_id(old(self).projects(), contribution.to) {
                        e == FundingError::NotFound
                    } else {
                        e == FundingError::Overflow && old(self).spec_total_amount()
                            + contribution.amount > u64::MAX
                    }
                },
            },
    {
        match self.find_project(contribution.to) {
            None => Err(FundingError::NotFound),
            Some(i) => {
                proof {
                    lemma_index_of_id(self.projects_list@, i as int);
                }
                if contribution.amount > u64::MAX - self.total_amount {
                    return Err(FundingError::Overflow);
                }
                let ghost s0 = self.projects_list@;
                proof {
                    lemma_sum_running_term(s0, i as int);
                }
                let res = self.projects_list[i].add_contribution(contribution);
                match res {
                    Ok(()) => {
                        self.total_amount = self.total_amount + contribution.amount;
                        proof {
                            lemma_sum_running_update(s0, i as int, self.projects_list@[i as int]);
                            assert(forall|a: int, b: int|
                                0 <= a < b < self.projects_list@.len()
                                    ==> self.projects_list@[a].spec_id()
                                    != self.projects_list@[b].spec_id()) by {
                                assert(forall|a: int|
                                    0 <= a < s0.len() ==> self.projects_list@[a].spec_id()
                                        == s0[a].spec_id());
                            }
                        }
                        Ok(())
                    },
                    Err(e) => {
                        // unreachable: the round's headroom check covers the
                        // project's own, since one project's running total is
                        // at most the round's
                        proof {
                            assert(false);
                        }
                        Err(e)
                    },
                }
            },
        }
    }

    /// Recompute every project's derived statistics from its contribution
    /// list. Order plays no role: each project is recomputed independently,
    /// and the formula is a pure sum over its own contributions.
    pub fn update_projects(&mut self)
        requires
            old(self).wf(),
        ensures
            final(self).wf(),
            final(self).spec_pool() == old(self).spec_pool(),
            final(self).spec_total_amount() == old(self).spec_total_amount(),
            final(self).projects().len() == old(self).projects().len(),
            forall|j: int|
                0 <= j < old(self).projects().len() ==> recomputes(
                    old(self).projects()[j],
                    final(self).projects()[j],
                ),
    {
        let ghost s0 = self.projects_list@;
        let n: usize = self.projects_list.len();
        let mut i: usize = 0;
        while i < n
            invariant
                i <= n,
                n == s0.len(),
                self.projects_list@.len() == n,
                self.matching_pool == old(self).matching_pool,
                self.total_amount == old(self).total_amount,
                s0 == old(self).projects_list@,
                old(self).wf(),
                forall|j: int| 0 <= j < i ==> recomputes(s0[j], self.projects_list@[j]),
                forall|j: int| 0 <= j < i ==> (#[trigger] self.projects_list@[j]).wf(),
                forall|j: int| i <= j < n ==> self.projects_list@[j] == s0[j],
            decreases n - i,
        {
            proof {
                assert(old(self).projects()[i as int].wf());
                assert(self.projects_list@[i as int] == s0[i as int]);
            }
            self.projects_list[i].update();
            i = i + 1;
        }
        proof {
            assert forall|a: int|
                0 <= a < s0.len() implies self.projects_list@[a].spec_running_total()
                == s0[a].spec_running_total() && self.projects_list@[a].spec_id()
                == s0[a].spec_id() by {
                assert(recomputes(s0[a], self.projects_list@[a]));
            }
            lemma_sum_running_pointwise(s0, self.projects_list@);
            assert forall|a: int, b: int|
                0 <= a < b < self.projects_list@.len() implies self.projects_list@[a].spec_id()
                != self.projects_list@[b].spec_id() by {
                assert(recomputes(s0[a], self.projects_list@[a]));
                assert(recomputes(s0[b], self.projects_list@[b]));
                assert(s0[a].spec_id() != s0[b].spec_id());
            }
        }
    }

    /// The capital-constrained quadratic-funding allocation: each project's
    /// ideal matching amount as of the last recompute, under the common
    /// scale `1 / 1` when the pool covers the ideal total, else
    /// `pool / total`. Refused exactly when the pool is not set. A pure
    /// read: the round is borrowed immutably, so no state changes.
    pub fn compute_cqf_allocation(&self) -> (res: Result<CqfAllocation, FundingError>)
        requires
            self.wf(),
        ensures
            match res {
                Ok(a) => self.spec_pool() > 0 && allocation_matches(*self, a),
                Err(e) => e == FundingError::PreconditionFailed && self.spec_pool() == 0,
            },
    {
        if self.matching_pool == 0 {
            return Err(FundingError::PreconditionFailed);
        }
        let ghost s = self.projects_list@;
        let n: usize = self.projects_list.len();
        let mut entries: Vec<(u32, u128)> = Vec::new();
        let mut total_ideal: u128 = 0;
        let mut i: usize = 0;
        while i < n
            invariant
                i <= n,
                n == s.len(),
                s == self.projects_list@,
                self.wf(),
                entries@.len() == i,
                forall|j: int|
                    0 <= j < i ==> entries@[j] == (s[j].spec_id(), s[j].spec_matching()),
                total_ideal as int == sum_matching(s.take(i as int)),
            decreases n - i,
        {
            proof {
                lemma_sum_matching_take_step(s, i as int);
                assert(forall|j: int|
                    0 <= j < s.take(i as int + 1).len() ==> (#[trigger] s.take(
                        i as int + 1,
                    )[j]).wf()) by {
                    assert(forall|j: int|
                        0 <= j < s.take(i as int + 1).len() ==> s.take(i as int + 1)[j] == s[j]);
                }
                lemma_sum_matching_bound(s.take(i as int + 1));
                lemma_sum_running_take_le(s, i as int + 1);
                lemma_sum_running_nonneg(s.take(i as int + 1));
                assert(sum_running(s) == self.spec_total_amount() as int);
                assert(sum_running(s.take(i as int + 1)) * sum_running(s.take(i as int + 1))
                    <= (u64::MAX as int) * (u64::MAX as int)) by (nonlinear_arith)
                    requires
                        0 <= sum_running(s.take(i as int + 1)) <= u64::MAX as int,
                ;
                assert((u64::MAX as int) * (u64::MAX as int) < u128::MAX as int);
                assert(sum_matching(s.take(i as int + 1)) < u128::MAX as int);
            }
            let id: u32 = self.projects_list[i].get_id();
            let ideal: u128 = self.projects_list[i].get_matching_amount();
            entries.push((id, ideal));
            total_ideal = total_ideal + ideal;
            i = i + 1;
        }
        proof {
            assert(s.take(n as int) =~= s);
        }
        if total_ideal <= self.matching_pool as u128 {
            Ok(CqfAllocation { entries, scale_num: 1, scale_den: 1 })
        } else {
            Ok(CqfAllocation { entries, scale_num: self.matching_pool, scale_den: total_ideal })
        }
    }

    /// The matching pool; zero means not yet set.
    pub fn get_matching_pool(&self) -> (pool: u64)
        ensures
            pool == self.spec_pool(),
    {
        self.matching_pool
    }

    /// How many projects are registered.
    pub fn project_count(&self) -> (n: usize)
        ensures
            n == self.projects().len(),
    {
        self.projects_list.len()
    }

    /// The registered project with this identifier, if any.
    pub fn get_project(&self, id: u32) -> (r: Option<&Project>)
        requires
            self.wf(),
        ensures
            match r {
                Some(p) => {
                    &&& has_project_id(self.projects(), id)
                    &&& *p == self.projects()[index_of_id(self.projects(), id)]
                    &&& p.spec_id() == id
                },
                None => !has_project_id(self.projects(), id),
            },
    {
        match self.find_project(id) {
            Some(i) => {
                proof {
                    lemma_index_of_id(self.projects_list@, i as int);
                }
                Some(&self.projects_list[i])
            },
            None => None,
        }
    }
}

/// Law: the allocation never over-spends the pool. Summed as exact
/// rationals over the common scale, the allocated values come to at most
/// the pool, with equality exactly when the pool is binding (the ideal
/// total is at least the pool).
pub proof fn lemma_allocation_within_pool(round: FundingRound, a: CqfAllocation)
    requires
        round.wf(),
        round.spec_pool() > 0,
        allocation_matches(round, a),
    ensures
        a.scale_den >= 1,
        sum_ideal(a.entries@) * a.scale_num <= round.spec_pool() * a.scale_den,
        sum_matching(round.projects()) >= round.spec_pool() ==> sum_ideal(a.entries@)
            * a.scale_num == round.spec_pool() * a.scale_den,
{
    lemma_sum_ideal_matches(round.projects(), a.entries@);
    let total = sum_matching(round.projects());
    let pool = round.spec_pool() as int;
    if total <= pool {
        assert(sum_ideal(a.entries@) * a.scale_num == total);
        assert(pool * a.scale_den == pool);
    } else {
        assert(sum_ideal(a.entries@) * a.scale_num == total * pool) by (nonlinear_arith)
            requires
                sum_ideal(a.entries@) == total,
                a.scale_num == pool,
        ;
        assert(total * pool == pool * a.scale_den) by (nonlinear_arith)
            requires
                a.scale_den == total,
                a.scale_num == pool,
        ;
    }
}

/// Law: the allocation query is deterministic. With the round unchanged,
/// two computed allocations are identical entry for entry and share the
/// same scale; together with the query borrowing the round immutably, the
/// query is idempotent and side-effect-free.
pub proof fn lemma_allocation_deterministic(
    round: FundingRound,
    a1: CqfAllocation,
    a2: CqfAllocation,
)
    requires
        round.wf(),
        allocation_matches(round, a1),
        allocation_matches(round, a2),
    ensures
        a1.entries@ == a2.entries@,
        a1.scale_num == a2.scale_num,
        a1.scale_den == a2.scale_den,
{
    assert(a1.entries@ =~= a2.entries@);
}

} // verus!
