use funding_round::errors::FundingError;
use funding_round::project::{Contribution, Project};
use funding_round::round::FundingRound;

fn ideal_for(alloc: &funding_round::round::CqfAllocation, id: u32) -> u128 {
    alloc.entries.iter().find(|e| e.0 == id).unwrap().1
}

#[test]
fn scenario_pool_sufficient() {
    // pool 100; ideal amounts 25 and 36 sum to 61, which the pool covers,
    // so the allocation is the ideal amounts unscaled
    let mut round = FundingRound::new();
    round.set_matching_pool(100).unwrap();
    round.add_project(Project::new(0)).unwrap();
    round.add_project(Project::new(1)).unwrap();
    round.add_contribution(Contribution { from: 10, to: 0, amount: 25 }).unwrap();
    round.add_contribution(Contribution { from: 10, to: 1, amount: 36 }).unwrap();
    round.update_projects();

    let alloc = round.compute_cqf_allocation().unwrap();
    assert_eq!(1, alloc.scale_num);
    assert_eq!(1, alloc.scale_den);
    assert_eq!(25, ideal_for(&alloc, 0));
    assert_eq!(36, ideal_for(&alloc, 1));
}

#[test]
fn scenario_pool_insufficient() {
    // pool 10; ideal amounts 25 and 36 sum to 61 > 10, so every amount is
    // rescaled by exactly 10/61 and the allocated values sum to the pool
    let mut round = FundingRound::new();
    round.set_matching_pool(10).unwrap();
    round.add_project(Project::new(0)).unwrap();
    round.add_project(Project::new(1)).unwrap();
    round.add_contribution(Contribution { from: 10, to: 0, amount: 25 }).unwrap();
    round.add_contribution(Contribution { from: 10, to: 1, amount: 36 }).unwrap();
    round.update_projects();

    let alloc = round.compute_cqf_allocation().unwrap();
    assert_eq!(10, alloc.scale_num);
    assert_eq!(61, alloc.scale_den);
    assert_eq!(25, ideal_for(&alloc, 0));
    assert_eq!(36, ideal_for(&alloc, 1));
    // project 0 receives 25 * 10 / 61, project 1 receives 36 * 10 / 61;
    // as exact rationals they sum to the pool: (250 + 360) / 61 == 10
    let scaled_sum: u128 =
        25 * alloc.scale_num as u128 + 36 * alloc.scale_num as u128;
    assert_eq!(scaled_sum, 10 * alloc.scale_den);
}

#[test]
fn scenario_duplicate_registration() {
    let mut round = FundingRound::new();
    round.add_project(Project::new(0)).unwrap();
    round.add_contribution(Contribution { from: 1, to: 0, amount: 7 }).unwrap();

    let duplicate = Project::new(0);
    assert_eq!(Err(FundingError::DuplicateKey), round.add_project(duplicate));

    // the registered project is untouched
    assert_eq!(1, round.project_count());
    let p = round.get_project(0).unwrap();
    assert_eq!(1, p.get_contribution_list().len());
    assert_eq!(Some(7), p.get_contribution(1));
}

#[test]
fn scenario_unrouted_contribution() {
    let mut round = FundingRound::new();
    round.add_project(Project::new(0)).unwrap();

    let unrouted = Contribution { from: 1, to: 99, amount: 5 };
    assert_eq!(Err(FundingError::NotFound), round.add_contribution(unrouted));

    // no project was touched
    let p = round.get_project(0).unwrap();
    assert_eq!(0, p.get_contribution_list().len());
}

#[test]
fn scenario_unset_pool() {
    let mut round = FundingRound::new();
    round.add_project(Project::new(0)).unwrap();
    round.add_contribution(Contribution { from: 10, to: 0, amount: 5 }).unwrap();
    round.update_projects();

    match round.compute_cqf_allocation() {
        Ok(_) => panic!("allocation must be refused while the pool is unset"),
        Err(e) => assert_eq!(FundingError::PreconditionFailed, e),
    }
}

#[test]
fn scenario_two_contributors() {
    // 100 from each of two contributors: total 200, root sum 20,
    // matching amount 400
    let mut round = FundingRound::new();
    round.add_project(Project::new(0)).unwrap();
    round.add_contribution(Contribution { from: 1, to: 0, amount: 100 }).unwrap();
    round.add_contribution(Contribution { from: 2, to: 0, amount: 100 }).unwrap();
    round.update_projects();

    let p = round.get_project(0).unwrap();
    assert_eq!(200, p.get_total_contribution());
    assert_eq!(20, p.get_sum_rootsquared_contribution());
    assert_eq!(400, p.get_matching_amount());
}

#[test]
fn allocation_is_idempotent() {
    let mut round = FundingRound::new();
    round.set_matching_pool(10).unwrap();
    round.add_project(Project::new(0)).unwrap();
    round.add_project(Project::new(1)).unwrap();
    round.add_contribution(Contribution { from: 3, to: 0, amount: 25 }).unwrap();
    round.add_contribution(Contribution { from: 4, to: 1, amount: 36 }).unwrap();
    round.update_projects();

    let first = round.compute_cqf_allocation().unwrap();
    let second = round.compute_cqf_allocation().unwrap();
    assert_eq!(first.entries, second.entries);
    assert_eq!(first.scale_num, second.scale_num);
    assert_eq!(first.scale_den, second.scale_den);

    // the query left the round and its projects unchanged
    assert_eq!(10, round.get_matching_pool());
    assert_eq!(2, round.project_count());
    assert_eq!(25, round.get_project(0).unwrap().get_matching_amount());
    assert_eq!(36, round.get_project(1).unwrap().get_matching_amount());
}

#[test]
fn invalid_pool_is_refused() {
    let mut round = FundingRound::new();
    assert_eq!(Err(FundingError::InvalidArgument), round.set_matching_pool(0));
    assert_eq!(0, round.get_matching_pool());
}

#[test]
fn overflowing_contribution_is_refused() {
    let mut project0 = Project::new(0);
    project0.add_contribution(Contribution { from: 1, to: 0, amount: u64::MAX }).unwrap();
    let over = Contribution { from: 2, to: 0, amount: 1 };
    assert_eq!(Err(FundingError::Overflow), project0.add_contribution(over));
    // the recorded contributions are untouched
    assert_eq!(1, project0.get_contribution_list().len());

    let mut round = FundingRound::new();
    round.add_project(Project::new(5)).unwrap();
    round.add_contribution(Contribution { from: 1, to: 5, amount: u64::MAX }).unwrap();
    let over_round = Contribution { from: 2, to: 5, amount: 1 };
    assert_eq!(Err(FundingError::Overflow), round.add_contribution(over_round));
}

#[test]
fn overflowing_project_is_refused() {
    let mut round = FundingRound::new();
    round.add_project(Project::new(0)).unwrap();
    round.add_contribution(Contribution { from: 1, to: 0, amount: u64::MAX }).unwrap();

    let mut heavy = Project::new(1);
    heavy.add_contribution(Contribution { from: 2, to: 1, amount: 1 }).unwrap();
    assert_eq!(Err(FundingError::Overflow), round.add_project(heavy));
    assert_eq!(1, round.project_count());
}
