//! The laws of the module, on concrete values.

use elections_phragmen::election::elect_prime;
use elections_phragmen::migrations::{
    migrate_candidates_to_recorded_deposit, migrate_members_to_recorded_deposit,
    migrate_voters_to_recorded_deposit,
};
use elections_phragmen::{
    AccountId, Action, Balance, BondChange, Conversion, Module, Origin, Parameters,
    PendingCandidacy, RawAction, RawEvent, Renouncing, Seat, SeatHolder, SlashHandler, Trait, Voter,
};

fn parameters() -> Parameters {
    Parameters {
        candidacy_bond: 3,
        voting_bond_base: 2,
        voting_bond_factor: 1,
        desired_members: 2,
        desired_runners_up: 2,
        term_duration: 5,
        module_id: *b"phrelect",
        conversion: Conversion::Saturating,
    }
}

fn seat(who: AccountId, stake: Balance, deposit: Balance) -> Seat {
    SeatHolder { who, stake, deposit }
}

fn voter(votes: Vec<AccountId>, stake: Balance, deposit: Balance) -> Voter<AccountId, Balance> {
    Voter { votes, stake, deposit }
}

/// Two members, two runners-up, a candidate, and a voter for each of them but one.
fn module() -> Module<Parameters> {
    let mut module = Module::genesis(parameters());
    module.members = vec![seat(10, 100, 3), seat(30, 300, 4)];
    module.runners_up = vec![seat(50, 20, 6), seat(20, 50, 5)];
    module.candidates = vec![(40, 2)];
    module.voting = vec![
        (1, voter(vec![10], 100, 3)),
        (2, voter(vec![30], 300, 3)),
        (3, voter(vec![40], 200, 3)),
        (4, voter(vec![20], 50, 3)),
        (5, voter(vec![99], 70, 3)),
    ];
    module
}

/// What is recorded of an account as deposited.
fn recorded(module: &Module<Parameters>, who: AccountId) -> Balance {
    let standing: Balance =
        module.all_candidates().iter().filter(|c| c.0 == who).map(|c| c.1).sum();
    standing + module.voting(who).deposit
}

/// What actions take from the reserved balance of an account.
fn released(actions: &[Action], who: AccountId) -> Balance {
    actions
        .iter()
        .map(|action| match action {
            RawAction::Unreserve(account, amount) if *account == who => *amount,
            RawAction::SlashReserved(account, amount, _) if *account == who => *amount,
            _ => 0,
        })
        .sum()
}

/// The prime after actions.
fn prime_after(actions: &[Action], prime: Option<AccountId>) -> Option<AccountId> {
    actions.iter().fold(prime, |prime, action| match action {
        RawAction::ChangeMembers(_, _, _) => None,
        RawAction::SetPrime(new) => *new,
        _ => prime,
    })
}

/// Every account that a module knows of.
fn everyone() -> Vec<AccountId> {
    vec![1, 2, 3, 4, 5, 10, 20, 30, 40, 50]
}

/// All accounts have recorded what they had, less what the actions release.
fn assert_bonds_kept(before: &[Balance], module: &Module<Parameters>, actions: &[Action]) {
    for (i, who) in everyone().into_iter().enumerate() {
        assert_eq!(recorded(module, who) + released(actions, who), before[i]);
    }
}

fn bonds(module: &Module<Parameters>) -> Vec<Balance> {
    everyone().into_iter().map(|who| recorded(module, who)).collect()
}

#[test]
fn zero_term_is_passive_at_every_block() {
    let mut module = module();
    module.config.term_duration = 0;
    for n in 0..20 {
        assert_eq!(module.on_initialize(n, 1).1, vec![]);
    }
    assert_eq!(module.election_rounds, 0);
}

#[test]
fn round_is_counted_and_leaves_no_candidates_but_all_votes() {
    let mut module = module();
    let voting = module.voting.clone();
    module.do_phragmen(1);
    assert_eq!(module.election_rounds, 1);
    assert!(module.candidates.is_empty());
    assert_eq!(module.voting, voting);
}

#[test]
fn losers_are_slashed_and_seat_holders_are_not() {
    let mut module = module();
    let (_, actions) = module.do_phragmen(1);
    // 50 has no votes and loses its seat as a runner-up.
    assert_eq!(module.members_ids(), vec![30, 40]);
    assert_eq!(module.runners_up, vec![seat(20, 50, 5), seat(10, 100, 3)]);
    let slashed: Vec<&Action> =
        actions.iter().filter(|a| matches!(a, RawAction::SlashReserved(_, _, _))).collect();
    let expected: Action = RawAction::SlashReserved(50, 6, SlashHandler::LoserCandidate);
    assert_eq!(slashed, vec![&expected]);
}

#[test]
fn renouncing_refunds_in_every_role() {
    for (who, role, deposit) in [
        (10, Renouncing::Member, 3),
        (20, Renouncing::RunnerUp, 5),
        (40, Renouncing::Candidate(1), 2),
    ] {
        let mut module = module();
        let actions = module.renounce_candidacy(Origin::Signed(who), role, None).unwrap();
        let refund: Action = RawAction::Unreserve(who, deposit);
        assert!(actions.contains(&refund));
        assert!(module.all_candidates().iter().all(|c| c.0 != who));
    }
}

#[test]
fn seats_go_by_rank() {
    let mut module = module();
    module.conclude_election(&vec![(50, 9), (20, 8), (40, 7), (10, 6)], 1);
    assert_eq!(module.members, vec![seat(20, 8, 5), seat(50, 9, 6)]);
    assert_eq!(module.runners_up, vec![seat(10, 6, 3), seat(40, 7, 2)]);
    // the best of the runners-up moves up first.
    module.remove_and_replace_member(50, false, None).unwrap();
    assert_eq!(module.members_ids(), vec![20, 40]);
}

#[test]
fn prime_has_the_greatest_count() {
    let voting = vec![
        (1, voter(vec![7, 8, 9], 10, 0)),
        (2, voter(vec![9, 8], 10, 0)),
        (3, voter(vec![8], 1, 0)),
    ];
    // 7: 160; 8: 150 + 150 + 16; 9: 140 + 160.
    assert_eq!(elect_prime(&voting, &vec![7, 8, 9]), Some(8));
    assert_eq!(elect_prime(&voting, &vec![7, 9]), Some(9));
}

#[test]
fn moot_votes_do_not_matter_for_the_prime() {
    let members = vec![7, 8];
    // the second vote of the first voter repeats the first one, or is for no member.
    for moot in [7, 9, 99] {
        let voting =
            vec![(1, voter(vec![7, moot, 8], 10, 0)), (2, voter(vec![8], 2, 0))];
        // 7: 160; 8: 140 + 32.
        assert_eq!(elect_prime(&voting, &members), Some(8));
    }
    let voting = vec![(1, voter(vec![7, 8, 8], 10, 0)), (2, voter(vec![8], 1, 0))];
    // 7: 160; 8: 150 + 16.
    assert_eq!(elect_prime(&voting, &members), Some(8));
}

#[test]
fn same_backing_as_before_means_same_seats() {
    let mut module = module();
    let winners = vec![(50, 9), (20, 8), (40, 7), (10, 6)];
    module.conclude_election(&winners, 1);
    let members = module.members.clone();
    let runners_up = module.runners_up.clone();
    // another total issuance, and a winner without a backing.
    let mut again = winners.clone();
    again.insert(1, (99, 0));
    let actions = module.conclude_election(&again, 2);
    assert_eq!(module.members, members);
    assert_eq!(module.runners_up, runners_up);
    let report: Action = RawAction::ChangeMembers(vec![], vec![], vec![20, 50]);
    assert_eq!(actions[0], report);
    assert_eq!(actions.len(), 3);
}

#[test]
fn members_stay_whatever_becomes_of_the_runners_up() {
    let mut module = module();
    module.conclude_election(&vec![(50, 9), (20, 8), (40, 7), (10, 6)], 1);
    assert_eq!(module.members_ids(), vec![20, 50]);
    // another order and other backings, and one runner-up is gone.
    let actions = module.conclude_election(&vec![(20, 5), (50, 4), (10, 3), (40, 0)], 1);
    assert_eq!(module.members_ids(), vec![20, 50]);
    assert_eq!(module.runners_up, vec![seat(10, 3, 3)]);
    let report: Action = RawAction::ChangeMembers(vec![], vec![], vec![20, 50]);
    assert_eq!(actions[0], report);
}

#[test]
fn tie_that_does_not_matter_is_stable() {
    let mut module = Module::genesis(parameters());
    module.candidates = vec![(1, 3), (2, 3), (3, 3)];
    // the members are tied with each other, but not with the runner-up.
    module.voting = vec![
        (10, voter(vec![1], 10, 3)),
        (20, voter(vec![2], 10, 3)),
        (30, voter(vec![3], 5, 3)),
    ];
    module.do_phragmen(1);
    let (members, runners_up) = (module.members.clone(), module.runners_up.clone());
    assert_eq!(module.members_ids(), vec![1, 2]);
    for _ in 0..3 {
        module.do_phragmen(1);
        assert_eq!(module.members, members);
        assert_eq!(module.runners_up, runners_up);
    }
}

#[test]
fn next_candidates_are_the_voted_winners() {
    let mut module = module();
    module.do_phragmen(1);
    let mut next: Vec<AccountId> = module.all_candidates().iter().map(|c| c.0).collect();
    next.sort();
    // 50 stood as well, but nobody votes for it.
    assert_eq!(next, vec![10, 20, 30, 40]);
}

#[test]
fn prime_stays_unless_it_leaves() {
    for (prime, expected) in [(Some(30), Some(30)), (Some(10), None), (None, None)] {
        let mut module = module();
        let (_, actions) = module.remove_and_replace_member(10, false, prime).unwrap();
        assert_eq!(prime_after(&actions, prime), expected);
    }
}

#[test]
fn election_sets_the_prime() {
    let mut module = module();
    let (_, actions) = module.do_phragmen(1);
    assert_eq!(prime_after(&actions, Some(10)), Some(30));
}

#[test]
fn election_reports_who_joins_and_leaves() {
    let mut module = module();
    let (_, actions) = module.do_phragmen(1);
    let report: Action = RawAction::ChangeMembers(vec![40], vec![10], vec![30, 40]);
    assert_eq!(actions[0], report);
}

#[test]
fn removal_reports_who_joins_and_leaves() {
    let mut module = module();
    let (replaced, actions) = module.remove_and_replace_member(30, true, None).unwrap();
    assert!(replaced);
    let report: Action = RawAction::ChangeMembers(vec![20], vec![30], vec![10, 20]);
    assert!(actions.contains(&report));
}

#[test]
fn removal_keeps_the_number_of_members_while_there_are_runners_up() {
    let mut module = module();
    module.remove_and_replace_member(10, false, None).unwrap();
    assert_eq!(module.members_ids(), vec![20, 30]);
    assert_eq!(module.runners_up, vec![seat(50, 20, 6)]);
    module.remove_and_replace_member(30, false, None).unwrap();
    assert_eq!(module.members_ids(), vec![20, 50]);
    module.remove_and_replace_member(20, false, None).unwrap();
    assert_eq!(module.members_ids(), vec![50]);
    assert!(module.members.iter().all(|m| m.stake > 0));
    assert!(module.members.len() <= module.max_len());
}

#[test]
fn conversion_never_loses_a_backing() {
    let mut p = parameters();
    for conversion in [Conversion::Saturating, Conversion::Scaled] {
        p.conversion = conversion;
        for issuance in [0, 1, u64::MAX as Balance, Balance::MAX] {
            assert!(p.to_currency(1, issuance) > 0);
            assert!(p.to_currency(Balance::MAX, issuance) > 0);
        }
    }
}

#[test]
fn submitting_and_renouncing_cancel_out() {
    let mut module = module();
    let pending = module.submit_candidacy(Origin::Signed(7), 1).unwrap();
    assert_eq!(pending, PendingCandidacy { who: 7, deposit: 3 });
    module.admit_candidate(pending, true).unwrap();
    assert_eq!(module.candidates, vec![(7, 3), (40, 2)]);
    let refund: Action = RawAction::Unreserve(7, 3);
    assert_eq!(
        module.renounce_candidacy(Origin::Signed(7), Renouncing::Candidate(2), None),
        Ok(vec![refund])
    );
    assert_eq!(module.candidates, vec![(40, 2)]);
}

#[test]
fn deposit_never_shrinks_with_more_votes() {
    let module = module();
    for n in 0..16 {
        assert!(module.deposit_of(n) <= module.deposit_of(n + 1));
    }
}

#[test]
fn voting_again_keeps_the_bond() {
    let mut module = module();
    let pending = module.vote(Origin::Signed(8), vec![10], 50, 1).unwrap();
    module.record_vote(pending, true, 100).unwrap();
    let again = module.vote(Origin::Signed(8), vec![30], 60, 1).unwrap();
    assert_eq!(again.bond, BondChange::Keep);
}

#[test]
fn last_vote_is_what_is_recorded() {
    let mut module = module();
    let others = module.voting[1..].to_vec();
    let pending = module.vote(Origin::Signed(1), vec![30, 40], 60, 1).unwrap();
    module.record_vote(pending, true, 100).unwrap();
    assert_eq!(module.voting(1), voter(vec![30, 40], 60, 4));
    assert_eq!(module.voting[1..].to_vec(), others);
}

#[test]
fn voting_and_leaving_cancel_out() {
    let mut module = module();
    let before = module.voting.clone();
    let pending = module.vote(Origin::Signed(8), vec![10], 50, 1).unwrap();
    assert_eq!(pending.bond, BondChange::Reserve(3));
    module.record_vote(pending, true, 100).unwrap();
    let expected: Vec<Action> =
        vec![RawAction::RemoveLock(*b"phrelect", 8), RawAction::Unreserve(8, 3)];
    assert_eq!(module.remove_voter(Origin::Signed(8)), Ok(expected));
    assert_eq!(module.voting, before);
}

#[test]
fn removed_voter_is_none_and_others_stay() {
    let mut module = module();
    module.do_remove_voter(2);
    assert_eq!(module.voting(2), Voter::default());
    assert!(!module.is_voter(2));
    let left: Vec<AccountId> = module.voting.iter().map(|v| v.0).collect();
    assert_eq!(left, vec![1, 3, 4, 5]);
}

#[test]
fn cleaning_removes_exactly_the_defunct() {
    let mut module = module();
    module.voting.insert(1, (6, voter(vec![98, 97], 10, 4)));
    let before = bonds(&module);
    let actions = module.clean_defunct_voters(Origin::Root, 6, 2).unwrap();
    let expected: Vec<Action> = vec![
        RawAction::RemoveLock(*b"phrelect", 6),
        RawAction::Unreserve(6, 4),
        RawAction::RemoveLock(*b"phrelect", 5),
        RawAction::Unreserve(5, 3),
    ];
    assert_eq!(actions, expected);
    assert_bonds_kept(&before, &module, &actions);
    let left: Vec<AccountId> = module.voting.iter().map(|v| v.0).collect();
    assert_eq!(left, vec![1, 2, 3, 4]);
    // a second time nothing is left to do.
    assert_eq!(module.clean_defunct_voters(Origin::Root, 4, 0), Ok(vec![]));
}

#[test]
fn genesis_member_backs_itself() {
    let mut module = Module::genesis(parameters());
    let pending = module.seat_genesis_member(8, 40, true, 1).unwrap();
    module.record_vote(pending, true, 50).unwrap();
    assert_eq!(module.members, vec![seat(8, 40, 3)]);
    assert_eq!(module.voting(8), voter(vec![8], 40, 3));
}

#[test]
fn genesis_seats_all_members_in_order() {
    let mut module = Module::genesis(parameters());
    for (who, stake) in [(8, 40), (2, 70), (5, 9)] {
        let pending = module.seat_genesis_member(who, stake, true, 1).unwrap();
        module.record_vote(pending, true, 100).unwrap();
    }
    assert_eq!(module.members_ids(), vec![2, 5, 8]);
    let voters: Vec<AccountId> = module.voting.iter().map(|v| v.0).collect();
    assert_eq!(voters, vec![8, 2, 5]);
    assert!(module.is_sound());
}

#[test]
fn migration_keeps_accounts_votes_and_stakes() {
    let mut module = Module::empty(parameters());
    migrate_candidates_to_recorded_deposit(&mut module, Some(vec![3, 4]), 9);
    migrate_members_to_recorded_deposit(&mut module, Ok(Some(vec![(1, 10), (2, 20)])), 9);
    migrate_voters_to_recorded_deposit(&mut module, vec![(5, (7, vec![1, 2]))], 8);
    assert_eq!(module.candidates, vec![(3, 9), (4, 9)]);
    assert_eq!(module.members, vec![seat(1, 10, 9), seat(2, 20, 9)]);
    assert_eq!(module.voting(5), voter(vec![1, 2], 7, 8));
}

#[test]
fn candidacy_records_what_is_reserved() {
    let mut module = module();
    let before = recorded(&module, 1);
    let pending = module.submit_candidacy(Origin::Signed(1), 1).unwrap();
    module.admit_candidate(pending, true).unwrap();
    assert_eq!(recorded(&module, 1), before + 3);
}

#[test]
fn renouncing_and_kicking_release_what_is_recorded() {
    let mut module = module();
    let before = bonds(&module);
    let actions =
        module.renounce_candidacy(Origin::Signed(10), Renouncing::Member, None).unwrap();
    assert_bonds_kept(&before, &module, &actions);

    let before = bonds(&module);
    let (_, actions) = module.remove_member(Origin::Root, Some(30), true, None).unwrap();
    assert_bonds_kept(&before, &module, &actions);
}

#[test]
fn voting_changes_the_record_by_the_bond() {
    let mut module = module();
    let before = recorded(&module, 10);
    let pending = module.vote(Origin::Signed(10), vec![30, 10, 20], 5, 1).unwrap();
    assert_eq!(pending.bond, BondChange::Reserve(5));
    module.record_vote(pending, true, 100).unwrap();
    assert_eq!(recorded(&module, 10), before + 5);
    let pending = module.vote(Origin::Signed(10), vec![30], 5, 1).unwrap();
    assert_eq!(pending.bond, BondChange::Unreserve(2));
    module.record_vote(pending, true, 100).unwrap();
    assert_eq!(recorded(&module, 10), before + 3);
    let actions = module.remove_voter(Origin::Signed(10)).unwrap();
    assert_eq!(released(&actions, 10), 3);
    assert_eq!(recorded(&module, 10), before);
}

#[test]
fn election_releases_what_is_recorded() {
    let mut module = module();
    let before = bonds(&module);
    let (_, actions) = module.do_phragmen(1);
    assert_bonds_kept(&before, &module, &actions);
    // so does a round without anyone standing.
    let mut nobody = Module::genesis(parameters());
    nobody.voting = vec![(1, voter(vec![10], 100, 3))];
    let before = bonds(&nobody);
    let (_, actions) = nobody.do_phragmen(1);
    assert_bonds_kept(&before, &nobody, &actions);
}

#[test]
fn same_seats_round_after_round() {
    let mut module = module();
    module.do_phragmen(1);
    let members = module.members.clone();
    let runners_up = module.runners_up.clone();
    for n in 0..4 {
        let (_, actions) = module.do_phragmen(1);
        assert_eq!(module.members, members);
        assert_eq!(module.runners_up, runners_up);
        assert_eq!(module.election_rounds, n + 2);
        // nobody joins, leaves or is slashed.
        assert_eq!(actions.len(), 3);
        let report: Action = RawAction::ChangeMembers(vec![], vec![], vec![30, 40]);
        assert_eq!(actions[0], report);
        assert_eq!(prime_after(&actions, None), Some(30));
    }
}

#[test]
fn shared_votes_are_stable_too() {
    let mut module = Module::genesis(parameters());
    module.candidates = vec![(1, 3), (2, 3), (3, 3), (4, 3), (5, 3)];
    module.voting = vec![
        (10, voter(vec![1, 2, 5], 10, 5)),
        (20, voter(vec![1, 3], 20, 4)),
        (30, voter(vec![2, 3], 30, 4)),
        (40, voter(vec![3, 4], 7, 4)),
    ];
    module.do_phragmen(1);
    let members = module.members.clone();
    let runners_up = module.runners_up.clone();
    assert_eq!(members.len(), 2);
    assert_eq!(runners_up.len(), 2);
    for _ in 0..3 {
        module.do_phragmen(1);
        assert_eq!(module.members, members);
        assert_eq!(module.runners_up, runners_up);
    }
}

#[test]
fn ties_may_swap_seats_but_nobody_is_left_without_one() {
    let mut module = Module::genesis(parameters());
    module.config.desired_members = 1;
    module.candidates = vec![(1, 3), (2, 3), (3, 3)];
    module.voting = vec![
        (10, voter(vec![1], 10, 3)),
        (20, voter(vec![2], 10, 3)),
        (30, voter(vec![3], 10, 3)),
    ];
    module.do_phragmen(1);
    let order = |module: &Module<Parameters>| -> Vec<AccountId> {
        module.all_candidates().iter().map(|c| c.0).collect()
    };
    assert_eq!(order(&module), vec![1, 3, 2]);
    module.do_phragmen(1);
    assert_eq!(order(&module), vec![1, 2, 3]);
    module.do_phragmen(1);
    let mut holders = order(&module);
    holders.sort();
    assert_eq!(holders, vec![1, 2, 3]);
}

#[test]
fn votes_too_light_for_a_backing_still_weigh_on_their_voters() {
    let mut module = Module::genesis(parameters());
    module.candidates = vec![(0, 3), (1, 3), (2, 3), (3, 3), (4, 3)];
    module.voting = vec![
        (100, voter(vec![4, 3], 4, 4)),
        (101, voter(vec![2, 3], 2, 4)),
        (102, voter(vec![2, 0, 0, 0], 2, 6)),
        (103, voter(vec![0, 2], 1, 4)),
    ];
    // 2 wins, but nothing of its votes is left for it.
    module.do_phragmen(1);
    assert_eq!(module.members_ids(), vec![3, 4]);
    assert_eq!(module.runners_up, vec![seat(0, 2, 3)]);
    // without 2 its voters have more to give to the others.
    module.do_phragmen(1);
    assert_eq!(module.members_ids(), vec![0, 3]);
    assert_eq!(module.runners_up, vec![seat(4, 2, 3)]);
}

#[test]
fn invalid_and_repeated_votes_do_not_count() {
    let mut module = module();
    module.voting[0].1.votes = vec![99, 10, 10, 98, 10];
    let mut valid = self::module();
    module.do_phragmen(1);
    valid.do_phragmen(1);
    assert_eq!(module.members, valid.members);
    assert_eq!(module.runners_up, valid.runners_up);
}

#[test]
fn every_round_is_announced() {
    let mut module = module();
    let (_, actions) = module.do_phragmen(1);
    let term: Action = RawAction::DepositEvent(RawEvent::NewTerm(vec![(30, 300), (40, 200)]));
    assert_eq!(actions.last(), Some(&term));
    let mut nobody = Module::genesis(parameters());
    let (_, actions) = nobody.do_phragmen(1);
    let empty: Action = RawAction::DepositEvent(RawEvent::EmptyTerm);
    assert_eq!(actions, vec![empty]);
}

#[test]
fn soundness_is_recognised() {
    assert!(module().is_sound());
    assert!(module().can_elect());

    let mut unsorted = module();
    unsorted.members.swap(0, 1);
    assert!(!unsorted.is_sound());
    assert!(!unsorted.can_elect());

    let mut repeated = module();
    repeated.candidates.push((40, 2));
    assert!(!repeated.is_sound());
    assert!(!repeated.has_sound_seats());
    assert!(repeated.can_elect());

    let mut doubled = module();
    doubled.runners_up.push(seat(20, 1, 1));
    assert!(!doubled.is_sound());

    let mut two_roles = module();
    two_roles.candidates = vec![(20, 2)];
    assert!(!two_roles.is_sound());

    let mut without_votes = module();
    without_votes.voting[0].1.votes = vec![];
    assert!(!without_votes.is_sound());
    assert!(without_votes.has_sound_seats());

    let mut too_many = module();
    too_many.voting[0].1.votes = vec![10; 17];
    assert!(!too_many.is_sound());
    assert!(!too_many.can_elect());

    // voters are not looked at where nobody stands.
    let mut deserted = Module::genesis(parameters());
    deserted.voting = vec![(1, voter(vec![10; 17], 100, 3))];
    assert!(deserted.can_elect());
    let empty: Action = RawAction::DepositEvent(RawEvent::EmptyTerm);
    assert_eq!(deserted.do_phragmen(1).1, vec![empty]);

    let mut worn_out = module();
    worn_out.election_rounds = u32::MAX;
    assert!(worn_out.is_sound());
    assert!(!worn_out.can_elect());
}
