use funding_round::project::{Contribution, Project};
use funding_round::round::FundingRound;

#[test]
fn test_set_matching_pool() {
    let mut funding_round = FundingRound::new();
    assert_eq!(0, funding_round.get_matching_pool());
    funding_round.set_matching_pool(100).unwrap();
    assert_eq!(100, funding_round.get_matching_pool());
}

#[test]
fn test_add_project() {
    let proj = Project::new(1);
    let mut round = FundingRound::new();
    round.add_project(proj).unwrap();

    assert_eq!(1, round.project_count());
}

#[test]
fn lib_test_add_contribution() {
    let mut round = FundingRound::new();
    let proj = Project::new(1);
    round.add_project(proj).unwrap();

    let contribution = Contribution { from: 0, to: 1, amount: 10 };
    round.add_contribution(contribution).unwrap();

    // project should now have 1 contribution
    // Other fields should not be updated yet
    let p = round.get_project(1).unwrap();
    let contributions = p.get_contribution_list();
    assert_eq!(1, p.get_id());
    assert_eq!(1, contributions.len());
}

#[test]
fn test_update_project() {
    let mut round = FundingRound::new();
    let proj = Project::new(1);
    round.add_project(proj).unwrap();

    let contribution = Contribution { from: 0, to: 1, amount: 10 };
    round.add_contribution(contribution).unwrap();

    // project should now have 1 contribution
    // Other fields should not be updated yet
    let p = round.get_project(1).unwrap();
    let contributions = p.get_contribution_list();
    assert_eq!(1, p.get_id());
    assert_eq!(1, contributions.len());
    assert_eq!(0, p.get_total_contribution());
    assert_eq!(0, p.get_sum_rootsquared_contribution());
    assert_eq!(0, p.get_matching_amount());

    round.update_projects();
    // Now other fields should be updated
    let p_updated = round.get_project(1).unwrap();
    assert_eq!(contribution.amount, p_updated.get_total_contribution());
    // the whole-unit square root of 10 is 3
    assert_eq!(3, p_updated.get_sum_rootsquared_contribution());
}

#[test]
fn test_compute_cqf_allocation_keep_qf() {
    // create the funding round
    let mut round = FundingRound::new();
    round.set_matching_pool(100).unwrap();
    // create projects for the round
    let proj0 = Project::new(0);
    let proj1 = Project::new(1);
    round.add_project(proj0).unwrap();
    round.add_project(proj1).unwrap();

    let contribution0 = Contribution { from: 10, to: 0, amount: 5 };
    let contribution1 = Contribution { from: 10, to: 1, amount: 6 };

    round.add_contribution(contribution0).unwrap();
    round.add_contribution(contribution1).unwrap();
    round.update_projects();

    // sum of matching amounts < matching pool.
    // We shall keep the qf-based matching allocation, unscaled.
    let matching_alloc = round.compute_cqf_allocation().unwrap();
    assert_eq!(1, matching_alloc.scale_num);
    assert_eq!(1, matching_alloc.scale_den);
    let entry0 = matching_alloc.entries.iter().find(|e| e.0 == 0).unwrap();
    let entry1 = matching_alloc.entries.iter().find(|e| e.0 == 1).unwrap();
    assert_eq!(round.get_project(0).unwrap().get_matching_amount(), entry0.1);
    assert_eq!(round.get_project(1).unwrap().get_matching_amount(), entry1.1);
}
