use funding_round::project::{Contribution, Project};

fn lookup(list: &[(u32, u64)], from: u32) -> Option<u64> {
    for entry in list {
        if entry.0 == from {
            return Some(entry.1);
        }
    }
    None
}

#[test]
fn test_add_contribution() {
    let mut project0 = Project::new(0);
    let contribution = Contribution { from: 10, to: 0, amount: 100 };
    project0.add_contribution(contribution).unwrap();

    assert_eq!(0, project0.get_total_contribution());
    assert_eq!(0, project0.get_sum_rootsquared_contribution());
    assert_eq!(0, project0.get_matching_amount());

    assert_eq!(1, project0.get_contribution_list().len());
    assert_eq!(Some(100), project0.get_contribution(contribution.from));
}

#[test]
fn test_add_contribution_multiple() {
    let mut project0 = Project::new(0);
    let contribution0 = Contribution { from: 10, to: 0, amount: 100 };
    let contribution1 = Contribution { from: 5, to: 0, amount: 50 };
    project0.add_contribution(contribution0).unwrap();
    project0.add_contribution(contribution1).unwrap();

    assert_eq!(0, project0.get_total_contribution());
    assert_eq!(0, project0.get_sum_rootsquared_contribution());
    assert_eq!(0, project0.get_matching_amount());

    assert_eq!(2, project0.get_contribution_list().len());
    assert_eq!(Some(100), project0.get_contribution(contribution0.from));
    assert_eq!(Some(50), project0.get_contribution(contribution1.from));
}

#[test]
fn test_add_contribution_multiple_from_single() {
    let mut project0 = Project::new(0);
    let contribution0 = Contribution { from: 10, to: 0, amount: 100 };
    let contribution1 = Contribution { from: 10, to: 0, amount: 50 };
    project0.add_contribution(contribution0).unwrap();
    project0.add_contribution(contribution1).unwrap();

    assert_eq!(0, project0.get_total_contribution());
    assert_eq!(0, project0.get_sum_rootsquared_contribution());
    assert_eq!(0, project0.get_matching_amount());

    assert_eq!(1, project0.get_contribution_list().len());
    assert_eq!(Some(150), project0.get_contribution(contribution0.from));
}

#[test]
fn test_update() {
    let mut project0 = Project::new(0);
    let contributor: u32 = 10;
    let contribution_amount: u64 = 100;
    let contribution = Contribution { from: contributor, to: 0, amount: contribution_amount };
    project0.add_contribution(contribution).unwrap();
    project0.update();

    assert_eq!(contribution_amount, project0.get_total_contribution());
    // floor_sqrt(100) == 10, and squaring it gives the amount back
    assert_eq!(10, project0.get_sum_rootsquared_contribution());
    assert_eq!(contribution_amount as u128, project0.get_matching_amount());
}

#[test]
fn test_update_multiple_contribution() {
    let mut project0 = Project::new(0);
    let contribution0 = Contribution { from: 0, to: 0, amount: 100 };
    let contribution1 = Contribution { from: 1, to: 0, amount: 100 };
    project0.add_contribution(contribution0).unwrap();
    project0.add_contribution(contribution1).unwrap();
    project0.update();

    assert_eq!(200, project0.get_total_contribution());
    // expected = sqrt(100) + sqrt(100) = 20
    assert_eq!(20, project0.get_sum_rootsquared_contribution());
    // expected = sum_rootsquared_contribution squared = 400
    assert_eq!(400, project0.get_matching_amount());
}

#[test]
fn test_contribution_list_entries() {
    let mut project0 = Project::new(7);
    project0.add_contribution(Contribution { from: 3, to: 7, amount: 4 }).unwrap();
    project0.add_contribution(Contribution { from: 8, to: 7, amount: 9 }).unwrap();

    let list = project0.get_contribution_list();
    assert_eq!(2, list.len());
    assert_eq!(Some(4), lookup(&list, 3));
    assert_eq!(Some(9), lookup(&list, 8));
    assert_eq!(None, lookup(&list, 5));
    assert_eq!(None, project0.get_contribution(5));
}

#[test]
fn test_update_exact_sums() {
    // amounts 4 and 9: total 13, root sum 2 + 3 = 5, matching 25
    let mut project0 = Project::new(0);
    project0.add_contribution(Contribution { from: 1, to: 0, amount: 4 }).unwrap();
    project0.add_contribution(Contribution { from: 2, to: 0, amount: 9 }).unwrap();
    project0.update();

    assert_eq!(13, project0.get_total_contribution());
    assert_eq!(5, project0.get_sum_rootsquared_contribution());
    assert_eq!(25, project0.get_matching_amount());
}

#[test]
fn test_update_floor_root() {
    // 10 is no perfect square: its whole-unit root is 3, so the matching
    // amount is 9
    let mut project0 = Project::new(0);
    project0.add_contribution(Contribution { from: 1, to: 0, amount: 10 }).unwrap();
    project0.update();

    assert_eq!(10, project0.get_total_contribution());
    assert_eq!(3, project0.get_sum_rootsquared_contribution());
    assert_eq!(9, project0.get_matching_amount());
}

#[test]
fn test_update_idempotent() {
    let mut project0 = Project::new(0);
    project0.add_contribution(Contribution { from: 1, to: 0, amount: 36 }).unwrap();
    project0.update();
    let total = project0.get_total_contribution();
    let roots = project0.get_sum_rootsquared_contribution();
    let matching = project0.get_matching_amount();
    project0.update();
    assert_eq!(total, project0.get_total_contribution());
    assert_eq!(roots, project0.get_sum_rootsquared_contribution());
    assert_eq!(matching, project0.get_matching_amount());
}
