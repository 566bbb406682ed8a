use qf_funding::model::{MAX_CONTRIBUTION, MS_PER_HOUR, STORAGE_SCALE};
use qf_funding::{ErrorKind, Identity, Payout, QfError, QfSystem};

fn mock_address(n: u8) -> Identity {
    let mut bytes = [0u8; 20];
    bytes[19] = n;
    Identity { bytes }
}

const ADMIN: u8 = 1;
const UNIT: u128 = 1_000_000;

/// A system with `n` projects (wallets 101, 102, ...) and one round over all
/// of them with a pool of `pool` ledger units, open from time 0 for 1000 hours.
fn setup(n: u8, pool: u128) -> QfSystem {
    let admin = mock_address(ADMIN);
    let mut s = QfSystem::new(admin, UNIT);
    let mut ids = Vec::new();
    for i in 0..n {
        ids.push(s.add_project(admin, mock_address(101 + i)).unwrap());
    }
    assert_eq!(s.create_round(admin, pool * UNIT, ids, 1000, 0), Ok(1));
    s
}

fn give(s: &mut QfSystem, who: u8, project: u32, scaled: u128) {
    let wallet = s.check_contribution(mock_address(who), 1, project, scaled * UNIT, 1000).unwrap();
    assert_eq!(wallet, s.get_project(project).unwrap().wallet_address);
    s.contribute(mock_address(who), 1, project, scaled * UNIT, 1000).unwrap();
}

#[test]
fn lib_constructor_works() {
    let qf_system = QfSystem::new(mock_address(ADMIN), 1000);
    assert_eq!(qf_system.next_project_id(), 1);
    assert_eq!(qf_system.next_round_id(), 1);
    // 1000 base units are less than one ledger unit.
    assert_eq!(qf_system.min_contribution(), 0);
}

#[test]
fn add_project_works() {
    let admin = mock_address(ADMIN);
    let mut qf_system = QfSystem::new(admin, 1000);
    let project_wallet = mock_address(100);
    let project_id = qf_system.add_project(admin, project_wallet).unwrap();
    assert_eq!(project_id, 1);
    assert_eq!(qf_system.next_project_id(), 2);

    let project = qf_system.get_project(1).unwrap();
    assert_eq!(project.wallet_address, project_wallet);
    assert_eq!(project.total_contributions, 0);
    assert_eq!(project.contributor_count, 0);
}

#[test]
fn comprehensive_qf_round_simulation() {
    let mut s = setup(3, 100);
    for (who, amount) in [(10, 5), (11, 3), (12, 2), (13, 1), (14, 1), (15, 1)] {
        give(&mut s, who, 1, amount);
    }
    for (who, amount) in [(20, 10), (21, 8), (22, 5)] {
        give(&mut s, who, 2, amount);
    }
    for (who, amount) in [(30, 15), (31, 2)] {
        give(&mut s, who, 3, amount);
    }
    let round_data = s.get_round_data(1).unwrap();
    let project1 = round_data.projects.iter().find(|p| p.project.project_id == 1).unwrap();
    let project2 = round_data.projects.iter().find(|p| p.project.project_id == 2).unwrap();
    let project3 = round_data.projects.iter().find(|p| p.project.project_id == 3).unwrap();

    assert_eq!(project1.project.total_contributions, 13);
    assert_eq!(project2.project.total_contributions, 23);
    assert_eq!(project3.project.total_contributions, 17);

    assert_eq!(project1.project.contributor_count, 6);
    assert_eq!(project2.project.contributor_count, 3);
    assert_eq!(project3.project.contributor_count, 2);

    let matching_pool_scaled = 100u128;
    let total_ideal_match = project1.ideal_match + project2.ideal_match + project3.ideal_match;
    if total_ideal_match > matching_pool_scaled {
        assert!(round_data.current_alpha < 10000);
    } else {
        assert_eq!(round_data.current_alpha, 10000);
    }
    let total_scaled_match = project1.scaled_match + project2.scaled_match + project3.scaled_match;
    assert!(total_scaled_match <= matching_pool_scaled);

    assert_eq!(project1.total_funding, project1.project.total_contributions + project1.scaled_match);
    assert_eq!(project2.total_funding, project2.project.total_contributions + project2.scaled_match);
    assert_eq!(project3.total_funding, project3.project.total_contributions + project3.scaled_match);
}

#[test]
fn simulation_exact_values() {
    let mut s = setup(3, 100);
    for (who, amount) in [(10, 5), (11, 3), (12, 2), (13, 1), (14, 1), (15, 1)] {
        give(&mut s, who, 1, amount);
    }
    for (who, amount) in [(20, 10), (21, 8), (22, 5)] {
        give(&mut s, who, 2, amount);
    }
    for (who, amount) in [(30, 15), (31, 2)] {
        give(&mut s, who, 3, amount);
    }
    let d = s.get_round_data(1).unwrap();
    let ideals: Vec<u128> = d.projects.iter().map(|p| p.ideal_match).collect();
    // (2+1+1+1+1+1)^2, (3+2+2)^2, (3+1)^2
    assert_eq!(ideals, vec![49, 49, 16]);
    // floor(100 * 10000 / 114)
    assert_eq!(d.current_alpha, 8771);
    let matches: Vec<u128> = d.projects.iter().map(|p| p.scaled_match).collect();
    assert_eq!(matches, vec![42, 42, 14]);
    let funding: Vec<u128> = d.projects.iter().map(|p| p.total_funding).collect();
    assert_eq!(funding, vec![55, 65, 31]);
    assert_eq!(d.total_matching_available, 2);
    assert_eq!(d.contributions.len(), 11);
    assert_eq!(d.round_info.round_id, 1);
    assert_eq!(d.round_info.matching_pool, 100);
}

#[test]
fn single_project_scenario() {
    let mut s = setup(1, 100);
    assert_eq!(s.min_contribution(), 1);
    for (who, amount) in [(10, 5), (11, 3), (12, 2), (13, 1), (14, 1), (15, 1)] {
        give(&mut s, who, 1, amount);
    }
    let p = s.get_project(1).unwrap();
    assert_eq!(p.total_contributions, 13);
    assert_eq!(p.contributor_count, 6);
    let d = s.get_round_data(1).unwrap();
    assert_eq!(d.projects[0].ideal_match, 49);
    assert_eq!(d.current_alpha, 10000);
    assert_eq!(d.projects[0].scaled_match, 49);
    assert_eq!(d.total_matching_available, 51);
}

#[test]
fn below_minimum_is_rejected_and_changes_nothing() {
    let mut s = setup(1, 100);
    let before = s.contributions();
    let r = s.contribute(mock_address(10), 1, 1, UNIT - 1, 1000);
    assert_eq!(r, Err(QfError::BelowMinimum));
    assert_eq!(r.unwrap_err().kind(), ErrorKind::Validation);
    assert_eq!(s.contributions(), before);
    let p = s.get_project(1).unwrap();
    assert_eq!(p.total_contributions, 0);
    assert_eq!(p.contributor_count, 0);
}

#[test]
fn after_end_time_is_rejected_and_changes_nothing() {
    let mut s = setup(1, 100);
    give(&mut s, 10, 1, 5);
    let end = 1000 * MS_PER_HOUR;
    assert_eq!(s.get_round(1).unwrap().end_time, end);
    let r = s.contribute(mock_address(11), 1, 1, 3 * UNIT, end + 1);
    assert_eq!(r, Err(QfError::OutsideWindow));
    assert_eq!(r.unwrap_err().kind(), ErrorKind::State);
    assert_eq!(s.contributions().len(), 1);
    let p = s.get_project(1).unwrap();
    assert_eq!(p.total_contributions, 5);
    assert_eq!(p.contributor_count, 1);
    // the last instant of the window is still inside it
    assert_eq!(s.contribute(mock_address(11), 1, 1, 3 * UNIT, end), Ok(()));
}

#[test]
fn round_view_is_repeatable() {
    let mut s = setup(2, 50);
    give(&mut s, 10, 1, 9);
    give(&mut s, 11, 2, 4);
    let a = s.get_round_data(1);
    let b = s.get_round_data(1);
    assert_eq!(a, b);
    give(&mut s, 12, 2, 4);
    assert_ne!(s.get_round_data(1), a);
}

#[test]
fn contributions_never_lower_tallies_or_ideal() {
    let mut s = setup(1, 1000);
    let mut last = (0u128, 0u32, 0u128);
    for (who, amount) in [(10, 4), (10, 5), (11, 1), (10, 7), (12, 9)] {
        give(&mut s, who, 1, amount);
        let p = s.get_project(1).unwrap();
        let ideal = s.get_round_data(1).unwrap().projects[0].ideal_match;
        assert!(p.total_contributions >= last.0);
        assert!(p.contributor_count >= last.1);
        assert!(ideal >= last.2);
        last = (p.total_contributions, p.contributor_count, ideal);
    }
    assert_eq!(last.0, 26);
    assert_eq!(last.1, 3);
    // contributor 10 gave 16: 4 + 1 + 3
    assert_eq!(last.2, 64);
}

#[test]
fn repeat_contributions_group_per_contributor() {
    let mut split = setup(1, 1000);
    give(&mut split, 10, 1, 2);
    give(&mut split, 10, 1, 2);
    let mut whole = setup(1, 1000);
    give(&mut whole, 10, 1, 4);
    let a = split.get_round_data(1).unwrap().projects[0].ideal_match;
    let b = whole.get_round_data(1).unwrap().projects[0].ideal_match;
    assert_eq!(a, 4);
    assert_eq!(a, b);
    assert_eq!(split.get_project(1).unwrap().contributor_count, 1);
}

#[test]
fn finalize_only_once() {
    let admin = mock_address(ADMIN);
    let mut s = setup(2, 100);
    give(&mut s, 10, 1, 25);
    give(&mut s, 11, 2, 36);
    // (5)^2 + (6)^2 = 61 <= 100
    assert_eq!(s.finalize_round(admin, 1), Ok(10000));
    let r = s.finalize_round(admin, 1);
    assert_eq!(r, Err(QfError::AlreadyFinalized));
    assert_eq!(r.unwrap_err().kind(), ErrorKind::State);
    let round = s.get_round(1).unwrap();
    assert!(round.is_finalized);
    assert_eq!(round.final_alpha, Some(10000));
    assert_eq!(s.finalize_round(mock_address(9), 1), Err(QfError::NotAdmin));
}

#[test]
fn finalize_scales_to_the_pool() {
    let admin = mock_address(ADMIN);
    let mut s = setup(2, 10);
    give(&mut s, 10, 1, 100);
    give(&mut s, 11, 2, 100);
    // ideals 100 + 100 against a pool of 10
    assert_eq!(s.finalize_round(admin, 1), Ok(500));
    let d = s.get_round_data(1).unwrap();
    assert_eq!(d.current_alpha, 500);
    assert_eq!(d.projects[0].scaled_match, 5);
    assert_eq!(d.projects[1].scaled_match, 5);
    assert_eq!(d.total_matching_available, 0);
}

#[test]
fn finalized_round_takes_no_contributions() {
    let admin = mock_address(ADMIN);
    let mut s = setup(1, 10);
    give(&mut s, 10, 1, 4);
    s.finalize_round(admin, 1).unwrap();
    let r = s.contribute(mock_address(11), 1, 1, UNIT, 1000);
    assert_eq!(r, Err(QfError::AlreadyFinalized));
}

#[test]
fn empty_round_finalizes_to_zero() {
    let admin = mock_address(ADMIN);
    let mut s = setup(2, 100);
    assert_eq!(s.finalize_round(admin, 1), Ok(0));
    let d = s.get_round_data(1).unwrap();
    assert_eq!(d.current_alpha, 0);
    assert_eq!(d.total_matching_available, 100);
}

#[test]
fn zero_pool_gives_zero_alpha() {
    let mut s = setup(1, 0);
    assert_eq!(s.min_contribution(), 1);
    give(&mut s, 10, 1, 4);
    let d = s.get_round_data(1).unwrap();
    assert_eq!(d.current_alpha, 0);
    assert_eq!(d.projects[0].ideal_match, 4);
    assert_eq!(d.projects[0].scaled_match, 0);
}

#[test]
fn distribute_pays_frozen_matches() {
    let admin = mock_address(ADMIN);
    let mut s = setup(3, 10);
    give(&mut s, 10, 1, 100);
    give(&mut s, 11, 2, 100);
    let sent = 10 * UNIT;
    assert_eq!(s.matching_payouts(admin, 1, sent), Err(QfError::NotFinalized));
    assert_eq!(s.distribute_matching_funds(admin, 1, sent), Err(QfError::NotFinalized));
    s.finalize_round(admin, 1).unwrap();
    assert_eq!(s.matching_payouts(admin, 1, sent - UNIT), Err(QfError::WrongPoolAmount));
    assert_eq!(QfError::WrongPoolAmount.kind(), ErrorKind::Validation);
    assert_eq!(s.matching_payouts(mock_address(9), 1, sent), Err(QfError::NotAdmin));
    let payouts = s.matching_payouts(admin, 1, sent).unwrap();
    // project 3 had no contributions and gets no transfer
    assert_eq!(
        payouts,
        vec![
            Payout { wallet_address: mock_address(101), amount: 5 * UNIT },
            Payout { wallet_address: mock_address(102), amount: 5 * UNIT },
        ]
    );
    let paid: u128 = payouts.iter().map(|p| p.amount).sum();
    assert!(paid <= sent);
    assert_eq!(s.distribute_matching_funds(admin, 1, sent), Ok(()));
    assert!(!s.get_round(1).unwrap().active);
    assert_eq!(s.distribute_matching_funds(admin, 1, sent), Err(QfError::AlreadyDistributed));
    let r = s.contribute(mock_address(12), 1, 1, UNIT, 1000);
    assert_eq!(r, Err(QfError::RoundInactive));
}

#[test]
fn admin_only_operations() {
    let admin = mock_address(ADMIN);
    let other = mock_address(2);
    let mut s = QfSystem::new(admin, UNIT);
    let r = s.add_project(other, mock_address(100));
    assert_eq!(r, Err(QfError::NotAdmin));
    assert_eq!(r.unwrap_err().kind(), ErrorKind::Authorization);
    assert_eq!(s.next_project_id(), 1);
    s.add_project(admin, mock_address(100)).unwrap();
    assert_eq!(s.create_round(other, 0, vec![1], 1, 0), Err(QfError::NotAdmin));
    assert_eq!(s.next_round_id(), 1);
}

#[test]
fn create_round_validates_projects() {
    let admin = mock_address(ADMIN);
    let mut s = QfSystem::new(admin, UNIT);
    s.add_project(admin, mock_address(100)).unwrap();
    s.add_project(admin, mock_address(101)).unwrap();
    let r = s.create_round(admin, 0, vec![1, 3], 1, 0);
    assert_eq!(r, Err(QfError::ProjectNotFound));
    assert_eq!(r.unwrap_err().kind(), ErrorKind::NotFound);
    let r = s.create_round(admin, 0, vec![2, 1, 2], 1, 0);
    assert_eq!(r, Err(QfError::DuplicateProject));
    assert_eq!(r.unwrap_err().kind(), ErrorKind::Validation);
    let r = s.create_round(admin, 0, vec![1], u64::MAX, 0);
    assert_eq!(r, Err(QfError::Overflow));
    assert_eq!(r.unwrap_err().kind(), ErrorKind::Arithmetic);
    assert_eq!(s.next_round_id(), 1);
    assert_eq!(s.create_round(admin, 7 * UNIT + 3, vec![], 2, 500), Ok(1));
    let round = s.get_round(1).unwrap();
    assert_eq!(round.matching_pool, 7);
    assert_eq!(round.start_time, 500);
    assert_eq!(round.end_time, 500 + 2 * MS_PER_HOUR);
    assert!(round.active);
    assert!(!round.is_finalized);
    assert_eq!(round.final_alpha, None);
}

#[test]
fn contribute_rejections() {
    let admin = mock_address(ADMIN);
    let mut s = setup(1, 10);
    s.add_project(admin, mock_address(150)).unwrap();
    let who = mock_address(10);
    assert_eq!(s.contribute(who, 1, 1, MAX_CONTRIBUTION + 1, 1000), Err(QfError::AboveCeiling));
    assert_eq!(s.contribute(who, 2, 1, UNIT, 1000), Err(QfError::RoundNotFound));
    assert_eq!(QfError::RoundNotFound.kind(), ErrorKind::NotFound);
    assert_eq!(s.contribute(who, 1, 2, UNIT, 1000), Err(QfError::NotEligible));
    assert_eq!(s.check_contribution(who, 1, 2, UNIT, 1000), Err(QfError::NotEligible));
    assert_eq!(s.contribute(who, 1, 1, MAX_CONTRIBUTION, 1000), Ok(()));
    assert_eq!(s.get_project(1).unwrap().total_contributions, MAX_CONTRIBUTION / STORAGE_SCALE);
    assert_eq!(s.contributions().len(), 1);
}

#[test]
fn contributor_stats() {
    let admin = mock_address(ADMIN);
    let mut s = setup(2, 10);
    s.create_round(admin, 0, vec![2], 10, 0).unwrap();
    give(&mut s, 10, 1, 3);
    give(&mut s, 10, 2, 4);
    give(&mut s, 10, 1, 5);
    s.contribute(mock_address(10), 2, 2, 6 * UNIT, 1000).unwrap();
    give(&mut s, 11, 1, 7);
    assert_eq!(s.get_my_stats(mock_address(10)), Ok((18, 2, vec![1, 2])));
    assert_eq!(s.get_my_stats(mock_address(11)), Ok((7, 1, vec![1])));
    assert_eq!(s.get_my_stats(mock_address(12)), Ok((0, 0, vec![])));
}

#[test]
fn open_rounds_listing() {
    let admin = mock_address(ADMIN);
    let mut s = setup(1, 10);
    s.create_round(admin, 0, vec![1], 1, 5 * MS_PER_HOUR).unwrap();
    s.create_round(admin, 0, vec![1], 1, 0).unwrap();
    assert_eq!(s.get_active_rounds(1000), vec![1, 3]);
    assert_eq!(s.get_active_rounds(5 * MS_PER_HOUR), vec![1, 2]);
    s.finalize_round(admin, 1).unwrap();
    assert_eq!(s.get_active_rounds(1000), vec![3]);
    assert_eq!(s.get_active_rounds(2000 * MS_PER_HOUR), Vec::<u32>::new());
}

#[test]
fn scale_helpers() {
    let s = QfSystem::new(mock_address(ADMIN), 0);
    assert_eq!(s.get_storage_scale(), 1_000_000);
    assert_eq!(s.scale_down_amount(2_999_999), 2);
    assert_eq!(s.scale_up_amount(3), Some(3_000_000));
    assert_eq!(s.scale_up_amount(u128::MAX / 1_000_000 + 1), None);
}

#[test]
fn error_kinds() {
    assert_eq!(QfError::TransferFailed.kind(), ErrorKind::Transfer);
    assert_eq!(QfError::AlreadyDistributed.kind(), ErrorKind::State);
    assert_eq!(QfError::NotFinalized.kind(), ErrorKind::State);
    assert_eq!(QfError::AboveCeiling.kind(), ErrorKind::Validation);
    assert_eq!(QfError::ProjectNotFound.kind(), ErrorKind::NotFound);
}
