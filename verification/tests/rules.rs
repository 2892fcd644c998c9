//! Each rule of the module on its own: errors, formulas, weights, migrations.

use elections_phragmen::election::elect_prime;
use elections_phragmen::migrations::{
    migrate_candidates_to_recorded_deposit, migrate_members_to_recorded_deposit,
    migrate_runners_up_to_recorded_deposit, migrate_voters_to_recorded_deposit,
};
use elections_phragmen::{
    AccountId, Action, Balance, BondChange, Call, Conversion, DispatchError,
    DispatchErrorWithPostInfo, Error, GenesisError, Module, Origin, Parameters, PendingCandidacy,
    PendingVote, RawAction, RawEvent, Renouncing, Seat, SeatHolder, SlashHandler, StorageVersion,
    Trait, Voter, Weight, MAXIMUM_VOTE,
};

fn parameters() -> Parameters {
    Parameters {
        candidacy_bond: 3,
        voting_bond_base: 2,
        voting_bond_factor: 1,
        desired_members: 2,
        desired_runners_up: 1,
        term_duration: 5,
        module_id: *b"phrelect",
        conversion: Conversion::Saturating,
    }
}

fn seat(who: AccountId, stake: Balance, deposit: Balance) -> Seat {
    SeatHolder { who, stake, deposit }
}

fn voter(votes: Vec<AccountId>, stake: Balance, deposit: Balance) -> Voter<AccountId, Balance> {
    Voter { votes, stake, deposit }
}

/// Two members, one runner-up, two candidates.
fn module() -> Module<Parameters> {
    let mut module = Module::genesis(parameters());
    module.members = vec![seat(10, 100, 3), seat(30, 300, 4)];
    module.runners_up = vec![seat(20, 50, 5)];
    module.candidates = vec![(5, 3), (40, 2)];
    module
}

fn refused<R>(error: Error) -> Result<R, DispatchError> {
    Err(DispatchError::Module(error))
}

// ---- Parameters.

#[test]
fn deposit_is_base_plus_factor_per_vote() {
    let mut module = Module::empty(parameters());
    module.config.voting_bond_factor = 3;
    assert_eq!(module.deposit_of(0), 2);
    assert_eq!(module.deposit_of(4), 14);
    assert_eq!(module.deposit_of(16), 50);
}

#[test]
fn deposit_is_capped() {
    let mut module = Module::empty(parameters());
    module.config.voting_bond_factor = Balance::MAX;
    assert_eq!(module.deposit_of(2), Balance::MAX);
    module.config.voting_bond_factor = 1;
    module.config.voting_bond_base = Balance::MAX;
    assert_eq!(module.deposit_of(2), Balance::MAX);
}

#[test]
fn saturating_conversion_caps() {
    let p = parameters();
    assert_eq!(p.to_vote(77, 1), 77);
    assert_eq!(p.to_vote(Balance::MAX, 1), u64::MAX);
    assert_eq!(p.to_currency(77, 1), 77);
    assert_eq!(p.to_currency(Balance::MAX, 1), Balance::MAX);
}

#[test]
fn scaled_conversion_scales_by_issuance() {
    let mut p = parameters();
    p.conversion = Conversion::Scaled;
    let issuance = 10 * u64::MAX as Balance;
    assert_eq!(p.to_vote(105, issuance), 10);
    assert_eq!(p.to_currency(10, issuance), 100);
    assert_eq!(p.to_vote(issuance, issuance), u64::MAX);
    // a small issuance is not scaled.
    assert_eq!(p.to_vote(105, 1000), 105);
    assert_eq!(p.to_currency(105, 1000), 105);
}

#[test]
fn getters_read_the_parameters() {
    let module = module();
    assert_eq!(module.desired_members(), 2);
    assert_eq!(module.desired_runners_up(), 1);
    assert_eq!(module.term_duration(), 5);
    assert_eq!(module.config.candidacy_bond(), 3);
    assert_eq!(module.config.voting_bond_base(), 2);
    assert_eq!(module.config.voting_bond_factor(), 1);
    assert_eq!(module.config.module_id(), *b"phrelect");
    assert_eq!(module.min_len(), 0);
    assert_eq!(module.max_len(), 2);
}

#[test]
fn storage_begins_empty() {
    let empty = Module::empty(parameters());
    assert_eq!(empty.storage_version, StorageVersion::V1);
    let genesis = Module::genesis(parameters());
    assert_eq!(genesis.storage_version, StorageVersion::V2RecordedDeposit);
    assert!(genesis.members.is_empty());
    assert!(genesis.runners_up.is_empty());
    assert!(genesis.candidates.is_empty());
    assert!(genesis.voting.is_empty());
    assert_eq!(genesis.election_rounds, 0);
}

// ---- Who is what.

#[test]
fn roles_are_told_apart() {
    let mut module = module();
    module.voting = vec![(7, voter(vec![10], 5, 3))];
    assert!(module.is_member(10));
    assert!(!module.is_member(20));
    assert!(module.contains(30));
    assert!(!module.contains(5));
    assert!(module.is_runner_up(20));
    assert!(!module.is_runner_up(10));
    assert_eq!(module.is_candidate(5), Ok(()));
    assert_eq!(module.is_candidate(1), Err(0));
    assert_eq!(module.is_candidate(6), Err(1));
    assert_eq!(module.is_candidate(41), Err(2));
    assert!(module.is_voter(7));
    assert!(!module.is_voter(10));
    assert_eq!(module.members_ids(), vec![10, 30]);
    assert_eq!(module.sorted_members(), vec![10, 30]);
    assert_eq!(module.implicit_candidates(), vec![(10, 3), (30, 4), (20, 5)]);
    assert_eq!(module.all_candidates(), vec![(5, 3), (40, 2), (10, 3), (30, 4), (20, 5)]);
    assert_eq!(module.voting(7), voter(vec![10], 5, 3));
    assert_eq!(module.voting(8), Voter::default());
}

#[test]
fn defunct_means_no_vote_for_anyone_who_stands() {
    let module = module();
    assert!(module.is_defunct_voter(&vec![]));
    assert!(module.is_defunct_voter(&vec![1, 2, 3]));
    assert!(!module.is_defunct_voter(&vec![1, 10]));
    assert!(!module.is_defunct_voter(&vec![20]));
    assert!(!module.is_defunct_voter(&vec![1, 2, 40]));
}

#[test]
fn add_makes_a_member_without_backing() {
    let mut module = module();
    module.add(10);
    assert_eq!(module.members.len(), 2);
    module.add(20);
    assert_eq!(module.members, vec![seat(10, 100, 3), seat(20, 0, 0), seat(30, 300, 4)]);
}

// ---- Candidacy.

#[test]
fn submission_is_refused_for_the_first_reason() {
    let module = module();
    let submit = |origin, count| module.submit_candidacy(origin, count);
    assert_eq!(submit(Origin::Root, 9), Err(DispatchError::BadOrigin));
    assert_eq!(submit(Origin::Unsigned, 9), Err(DispatchError::BadOrigin));
    assert_eq!(submit(Origin::Signed(5), 1), refused(Error::InvalidCandidateCount));
    assert_eq!(submit(Origin::Signed(5), 2), refused(Error::DuplicatedCandidate));
    assert_eq!(submit(Origin::Signed(10), 2), refused(Error::MemberSubmit));
    assert_eq!(submit(Origin::Signed(20), 2), refused(Error::RunnerUpSubmit));
    assert_eq!(submit(Origin::Signed(6), 3), Ok(PendingCandidacy { who: 6, deposit: 3 }));
}

#[test]
fn candidate_is_admitted_once_the_bond_is_reserved() {
    let mut module = module();
    let pending = PendingCandidacy { who: 6, deposit: 3 };
    assert_eq!(
        module.admit_candidate(pending, false),
        refused(Error::InsufficientCandidateFunds)
    );
    assert_eq!(module.candidates, vec![(5, 3), (40, 2)]);
    assert_eq!(module.admit_candidate(pending, true), Ok(()));
    assert_eq!(module.candidates, vec![(5, 3), (6, 3), (40, 2)]);
}

#[test]
fn renouncing_is_refused_in_a_wrong_role() {
    let mut module = module();
    let mut renounce = |origin, role| module.renounce_candidacy(origin, role, None);
    assert_eq!(renounce(Origin::Root, Renouncing::Member), Err(DispatchError::BadOrigin));
    assert_eq!(renounce(Origin::Signed(20), Renouncing::Member), refused(Error::NotMember));
    assert_eq!(
        renounce(Origin::Signed(10), Renouncing::RunnerUp),
        refused(Error::InvalidRenouncing)
    );
    assert_eq!(
        renounce(Origin::Signed(5), Renouncing::Candidate(1)),
        refused(Error::InvalidRenouncing)
    );
    assert_eq!(
        renounce(Origin::Signed(10), Renouncing::Candidate(2)),
        refused(Error::InvalidRenouncing)
    );
}

#[test]
fn member_leaves_and_best_runner_up_moves_up() {
    let mut module = module();
    module.runners_up = vec![seat(50, 10, 6), seat(20, 50, 5)];
    let expected: Vec<Action> = vec![
        RawAction::Unreserve(10, 3),
        RawAction::ChangeMembers(vec![20], vec![10], vec![20, 30]),
        RawAction::SetPrime(Some(30)),
        RawAction::DepositEvent(RawEvent::MemberRenounced(10)),
    ];
    assert_eq!(
        module.renounce_candidacy(Origin::Signed(10), Renouncing::Member, Some(30)),
        Ok(expected)
    );
    assert_eq!(module.members, vec![seat(20, 50, 5), seat(30, 300, 4)]);
    assert_eq!(module.runners_up, vec![seat(50, 10, 6)]);
}

#[test]
fn kicking_slashes_to_the_handler_for_kicked_members() {
    let mut module = module();
    module.runners_up = vec![];
    let expected: Vec<Action> = vec![
        RawAction::SlashReserved(30, 4, SlashHandler::KickedMember),
        RawAction::DepositEvent(RawEvent::SeatHolderSlashed(30, 4)),
        RawAction::ChangeMembers(vec![], vec![30], vec![10]),
        RawAction::DepositEvent(RawEvent::MemberKicked(30)),
    ];
    // the prime itself leaves, and no runner-up is there: an election has to follow.
    assert_eq!(
        module.remove_member(Origin::Root, Some(30), false, Some(30)),
        Ok((true, expected))
    );
    assert_eq!(module.members, vec![seat(10, 100, 3)]);
}

#[test]
fn kicking_with_replacement_needs_no_election() {
    let mut module = module();
    let expected: Vec<Action> = vec![
        RawAction::SlashReserved(30, 4, SlashHandler::KickedMember),
        RawAction::DepositEvent(RawEvent::SeatHolderSlashed(30, 4)),
        RawAction::ChangeMembers(vec![20], vec![30], vec![10, 20]),
        RawAction::DepositEvent(RawEvent::MemberKicked(30)),
    ];
    assert_eq!(
        module.remove_member(Origin::Root, Some(30), true, None),
        Ok((false, expected))
    );
    assert!(module.runners_up.is_empty());
}

#[test]
fn kicking_is_refused_for_the_first_reason() {
    let mut module = module();
    let mut kick = |origin, who, replacement| module.remove_member(origin, who, replacement, None);
    let failure = |actual_weight, error| {
        Err::<(bool, Vec<Action>), _>(DispatchErrorWithPostInfo { actual_weight, error })
    };
    assert_eq!(
        kick(Origin::Signed(10), None, false),
        failure(None, DispatchError::BadOrigin)
    );
    assert_eq!(kick(Origin::Root, None, false), failure(None, DispatchError::CannotLookup));
    assert_eq!(
        kick(Origin::Root, Some(99), false),
        failure(
            Some(Weight::RemoveMemberWrongRefund),
            DispatchError::Module(Error::InvalidReplacement)
        )
    );
    assert_eq!(
        kick(Origin::Root, Some(99), true),
        failure(None, DispatchError::Module(Error::NotMember))
    );
}

#[test]
fn removal_of_a_stranger_fails() {
    let mut module = module();
    assert_eq!(module.remove_and_replace_member(20, false, None), refused(Error::NotMember));
    assert_eq!(module.members.len(), 2);
}

// ---- Voting.

#[test]
fn vote_is_refused_for_the_first_reason() {
    let module = module();
    let vote = |origin, votes: Vec<AccountId>, value| module.vote(origin, votes, value, 1);
    let many: Vec<AccountId> = (0..MAXIMUM_VOTE as u64 + 1).collect();
    assert_eq!(vote(Origin::Root, many.clone(), 0), Err(DispatchError::BadOrigin));
    assert_eq!(vote(Origin::Signed(1), many, 0), refused(Error::MaximumVotesExceeded));
    assert_eq!(vote(Origin::Signed(1), vec![], 0), refused(Error::NoVotes));
    assert_eq!(vote(Origin::Signed(1), vec![1; 6], 0), refused(Error::TooManyVotes));
    assert_eq!(vote(Origin::Signed(1), vec![1; 5], 1), refused(Error::LowBalance));
    assert!(vote(Origin::Signed(1), vec![1; 5], 2).is_ok());

    let nobody = Module::genesis(parameters());
    assert_eq!(nobody.vote(Origin::Signed(1), vec![1], 0, 1), refused(Error::UnableToVote));
}

#[test]
fn first_vote_reserves_the_bond_and_locks_the_stake() {
    let mut module = module();
    let pending = module.vote(Origin::Signed(1), vec![10, 5], 70, 1).unwrap();
    let expected = PendingVote {
        who: 1,
        votes: vec![10, 5],
        value: 70,
        deposit: 4,
        bond: BondChange::Reserve(4),
    };
    assert_eq!(pending, expected);
    assert_eq!(
        module.record_vote(pending.clone(), false, 100),
        refused(Error::UnableToPayBond)
    );
    assert!(module.voting.is_empty());
    let lock: Action = RawAction::SetLock(*b"phrelect", 1, 70);
    assert_eq!(module.record_vote(pending, true, 100), Ok((None, vec![lock])));
    assert_eq!(module.voting, vec![(1, voter(vec![10, 5], 70, 4))]);
}

#[test]
fn stake_is_limited_by_the_balance() {
    let mut module = module();
    let pending = module.vote(Origin::Signed(1), vec![10], 70, 1).unwrap();
    let lock: Action = RawAction::SetLock(*b"phrelect", 1, 60);
    assert_eq!(module.record_vote(pending, true, 60), Ok((None, vec![lock])));
    assert_eq!(module.voting(1).stake, 60);
}

#[test]
fn changed_votes_are_refunded_by_their_number() {
    let mut module = module();
    module.voting = vec![(1, voter(vec![10, 5], 70, 4)), (2, voter(vec![10], 8, 3))];

    let same = module.vote(Origin::Signed(1), vec![30, 5], 70, 1).unwrap();
    assert_eq!(same.bond, BondChange::Keep);
    let (refund, _) = module.record_vote(same, false, 100).unwrap();
    assert_eq!(refund, Some(Weight::VoteEqual(2)));

    let fewer = module.vote(Origin::Signed(1), vec![30], 70, 1).unwrap();
    assert_eq!(fewer.bond, BondChange::Unreserve(1));
    let (refund, _) = module.record_vote(fewer, false, 100).unwrap();
    assert_eq!(refund, Some(Weight::VoteLess(1)));

    let more = module.vote(Origin::Signed(1), vec![30, 10, 5], 70, 1).unwrap();
    assert_eq!(more.bond, BondChange::Reserve(2));
    let (refund, _) = module.record_vote(more, true, 100).unwrap();
    assert_eq!(refund, None);

    assert_eq!(module.voting[0], (1, voter(vec![30, 10, 5], 70, 5)));
    assert_eq!(module.voting[1], (2, voter(vec![10], 8, 3)));
}

#[test]
fn voter_leaves_with_the_deposit() {
    let mut module = module();
    module.voting = vec![(1, voter(vec![10], 70, 9))];
    assert_eq!(module.remove_voter(Origin::Root), Err(DispatchError::BadOrigin));
    assert_eq!(module.remove_voter(Origin::Signed(2)), refused(Error::MustBeVoter));
    let expected: Vec<Action> =
        vec![RawAction::RemoveLock(*b"phrelect", 1), RawAction::Unreserve(1, 9)];
    assert_eq!(module.remove_voter(Origin::Signed(1)), Ok(expected));
    assert!(module.voting.is_empty());
    // whoever is no voter has nothing to get back.
    let nothing: Vec<Action> =
        vec![RawAction::RemoveLock(*b"phrelect", 1), RawAction::Unreserve(1, 0)];
    assert_eq!(module.do_remove_voter(1), nothing);
}

#[test]
fn cleaning_is_for_the_system_only() {
    let mut module = module();
    module.voting = vec![(1, voter(vec![99], 70, 9))];
    assert_eq!(
        module.clean_defunct_voters(Origin::Signed(1), 1, 1),
        Err(DispatchError::BadOrigin)
    );
    assert_eq!(module.voting.len(), 1);
}

// ---- Elections.

#[test]
fn election_method_balances_shared_votes() {
    let mut module = Module::genesis(parameters());
    module.config.desired_runners_up = 0;
    module.candidates = vec![(1, 3), (2, 3), (3, 3)];
    module.voting = vec![
        (10, voter(vec![1, 2], 10, 4)),
        (20, voter(vec![1, 3], 20, 4)),
        (30, voter(vec![2, 3], 30, 4)),
    ];
    let (weight, actions) = module.do_phragmen(60);
    assert_eq!(weight, Weight::ElectionPhragmen(3, 3, 6));
    assert_eq!(module.members, vec![seat(2, 25, 3), seat(3, 35, 3)]);
    let expected: Vec<Action> = vec![
        RawAction::ChangeMembers(vec![2, 3], vec![], vec![2, 3]),
        RawAction::SetPrime(Some(3)),
        RawAction::SlashReserved(1, 3, SlashHandler::LoserCandidate),
        RawAction::DepositEvent(RawEvent::CandidateSlashed(1, 3)),
        RawAction::DepositEvent(RawEvent::NewTerm(vec![(2, 25), (3, 35)])),
    ];
    assert_eq!(actions, expected);
    assert_eq!(module.election_rounds, 1);
    assert!(module.candidates.is_empty());
}

#[test]
fn conclusion_of_an_election_with_given_winners() {
    let mut module = module();
    // ranked from the best; an account without backing gets nothing.
    let winners = vec![(40, 900), (10, 800), (30, 0), (5, 700)];
    let actions = module.conclude_election(&winners, 1);
    assert_eq!(module.members, vec![seat(10, 800, 3), seat(40, 900, 2)]);
    assert_eq!(module.runners_up, vec![seat(5, 700, 3)]);
    let expected: Vec<Action> = vec![
        RawAction::ChangeMembers(vec![40], vec![30], vec![10, 40]),
        RawAction::SetPrime(Some(40)),
        RawAction::SlashReserved(30, 4, SlashHandler::LoserCandidate),
        RawAction::DepositEvent(RawEvent::CandidateSlashed(30, 4)),
        RawAction::SlashReserved(20, 5, SlashHandler::LoserCandidate),
        RawAction::DepositEvent(RawEvent::CandidateSlashed(20, 5)),
        RawAction::DepositEvent(RawEvent::NewTerm(vec![(10, 800), (40, 900)])),
    ];
    assert_eq!(actions, expected);
}

#[test]
fn winner_who_did_not_stand_has_no_deposit() {
    let mut module = module();
    module.conclude_election(&vec![(77, 1)], 1);
    assert_eq!(module.members, vec![seat(77, 1, 0)]);
}

#[test]
fn backing_is_converted_into_currency() {
    let mut module = module();
    module.config.conversion = Conversion::Scaled;
    module.conclude_election(&vec![(5, 7)], 10 * u64::MAX as Balance);
    assert_eq!(module.members, vec![seat(5, 70, 3)]);
}

#[test]
fn round_without_anyone_standing_is_empty() {
    let mut module = Module::genesis(parameters());
    let expected: Vec<Action> = vec![RawAction::DepositEvent(RawEvent::EmptyTerm)];
    assert_eq!(module.do_phragmen(1), (Weight::DbReads(5), expected));
    assert_eq!(module.election_rounds, 0);
}

#[test]
fn elections_are_due_at_multiples_of_the_term() {
    let mut module = module();
    assert_eq!(module.on_initialize(4, 1), (Weight::Zero, vec![]));
    assert_eq!(module.on_initialize(6, 1), (Weight::Zero, vec![]));
    assert_eq!(module.election_rounds, 0);
    let (weight, _) = module.on_initialize(10, 1);
    assert_eq!(weight, Weight::ElectionPhragmen(5, 0, 0));
    assert_eq!(module.election_rounds, 1);
    // nobody has votes, so all have left.
    assert!(module.members.is_empty());
    assert!(module.runners_up.is_empty());
}

#[test]
fn earlier_votes_count_more_for_the_prime() {
    // 16 points for a first vote, 15 for a second one.
    let voting = vec![(1, voter(vec![7, 8], 10, 0)), (2, voter(vec![8], 1, 0))];
    // 7 has 160 points, 8 has 150 + 16.
    assert_eq!(elect_prime(&voting, &vec![7, 8]), Some(8));
    let voting = vec![(1, voter(vec![7, 8], 10, 0))];
    assert_eq!(elect_prime(&voting, &vec![7, 8]), Some(7));
}

#[test]
fn repeated_votes_give_no_points_for_the_prime() {
    // 4 has 160 points, however often it is named; 5 has 240.
    let voting = vec![(1, voter(vec![4, 4], 10, 0)), (2, voter(vec![5], 15, 0))];
    assert_eq!(elect_prime(&voting, &vec![4, 5]), Some(5));
    let voting = vec![(1, voter(vec![4; 16], 10, 0)), (2, voter(vec![5], 80, 0))];
    assert_eq!(elect_prime(&voting, &vec![4, 5]), Some(5));
    // only the first place counts, and later votes keep their own: 5 has 140 points.
    let voting = vec![(1, voter(vec![4, 4, 5], 10, 0)), (2, voter(vec![5], 1, 0))];
    assert_eq!(elect_prime(&voting, &vec![4, 5]), Some(4));
    let voting = vec![(1, voter(vec![4, 4, 5], 10, 0)), (2, voter(vec![5], 2, 0))];
    assert_eq!(elect_prime(&voting, &vec![4, 5]), Some(5));
}

#[test]
fn election_with_a_repeated_vote_sets_the_prime_without_it() {
    let mut module = Module::genesis(parameters());
    module.config.desired_runners_up = 0;
    module.candidates = vec![(4, 3), (5, 3)];
    module.voting = vec![(1, voter(vec![4, 4], 10, 4)), (2, voter(vec![5], 15, 3))];
    let (_, actions) = module.do_phragmen(25);
    assert_eq!(module.members, vec![seat(4, 10, 3), seat(5, 15, 3)]);
    let prime: Action = RawAction::SetPrime(Some(5));
    assert_eq!(actions[1], prime);
}

#[test]
fn tie_for_the_prime_goes_to_the_highest_account() {
    let voting = vec![(1, voter(vec![7], 10, 0)), (2, voter(vec![8], 10, 0))];
    assert_eq!(elect_prime(&voting, &vec![7, 8, 9]), Some(8));
    assert_eq!(elect_prime(&vec![], &vec![7, 8, 9]), Some(9));
    assert_eq!(elect_prime(&voting, &vec![]), None);
}

#[test]
fn points_for_the_prime_are_capped() {
    let voting = vec![(1, voter(vec![7, 8], Balance::MAX, 0))];
    assert_eq!(elect_prime(&voting, &vec![7, 8]), Some(8));
}

// ---- Weights.

#[test]
fn weights_are_announced() {
    assert_eq!(Call::Vote(vec![1, 2], 9).weight(), Weight::VoteMore(2));
    assert_eq!(Call::RemoveVoter.weight(), Weight::RemoveVoter);
    assert_eq!(Call::SubmitCandidacy(7).weight(), Weight::SubmitCandidacy(7));
    assert_eq!(
        Call::RenounceCandidacy(Renouncing::Candidate(7)).weight(),
        Weight::RenounceCandidacyCandidate(7)
    );
    assert_eq!(
        Call::RenounceCandidacy(Renouncing::Member).weight(),
        Weight::RenounceCandidacyMembers
    );
    assert_eq!(
        Call::RenounceCandidacy(Renouncing::RunnerUp).weight(),
        Weight::RenounceCandidacyRunnersUp
    );
    assert_eq!(Call::RemoveMember(1, true).weight(), Weight::RemoveMemberWithReplacement);
    assert_eq!(Call::RemoveMember(1, false).weight(), Weight::MaximumBlock);
    assert_eq!(Call::CleanDefunctVoters(3, 2).weight(), Weight::Zero);
}

// ---- Genesis.

#[test]
fn genesis_member_is_refused_for_the_first_reason() {
    let mut module = Module::genesis(parameters());
    assert_eq!(module.admit_genesis_member(10, 9), Err(GenesisError::NotEnoughStake));
    assert_eq!(module.admit_genesis_member(10, 10), Ok(3));
    assert_eq!(
        module.seat_genesis_member(4, 10, false, 1),
        Err(GenesisError::NotEnoughBalance)
    );
    assert!(module.members.is_empty());
    let pending = module.seat_genesis_member(4, 10, true, 1).unwrap();
    let expected = PendingVote {
        who: 4,
        votes: vec![4],
        value: 10,
        deposit: 3,
        bond: BondChange::Reserve(3),
    };
    assert_eq!(pending, expected);
    assert_eq!(module.members, vec![seat(4, 10, 3)]);
    assert_eq!(
        module.seat_genesis_member(4, 10, true, 1),
        Err(GenesisError::DuplicateMember(4))
    );
    assert_eq!(
        module.seat_genesis_member(2, 1, true, 1),
        Err(GenesisError::CouldNotVote(DispatchError::Module(Error::LowBalance)))
    );
}

#[test]
fn genesis_members_are_reported_in_their_order() {
    let module = Module::genesis(parameters());
    let expected: Vec<Action> = vec![RawAction::InitializeMembers(vec![9, 4])];
    assert_eq!(module.report_genesis(&vec![(9, 1), (4, 2)]), expected);
}

// ---- Migrations.

#[test]
fn voters_are_migrated_once() {
    let mut module = Module::empty(parameters());
    let old = vec![(1, (10, vec![2, 3])), (4, (20, vec![5]))];
    assert_eq!(
        migrate_voters_to_recorded_deposit(&mut module, old.clone(), 7),
        Weight::Max
    );
    assert_eq!(module.storage_version, StorageVersion::V2RecordedDeposit);
    assert_eq!(
        module.voting,
        vec![(1, voter(vec![2, 3], 10, 7)), (4, voter(vec![5], 20, 7))]
    );
    assert_eq!(migrate_voters_to_recorded_deposit(&mut module, old, 8), Weight::Zero);
    assert_eq!(module.voting(1).deposit, 7);
}

#[test]
fn candidates_are_migrated() {
    let mut module = Module::empty(parameters());
    let weight = migrate_candidates_to_recorded_deposit(&mut module, Some(vec![1, 2]), 7);
    assert_eq!(weight, Weight::Max);
    assert_eq!(module.candidates, vec![(1, 7), (2, 7)]);
    assert_eq!(module.storage_version, StorageVersion::V1);
    migrate_candidates_to_recorded_deposit(&mut module, None, 7);
    assert!(module.candidates.is_empty());

    module.storage_version = StorageVersion::V2RecordedDeposit;
    let weight = migrate_candidates_to_recorded_deposit(&mut module, Some(vec![1]), 7);
    assert_eq!(weight, Weight::Zero);
    assert!(module.candidates.is_empty());
}

#[test]
fn members_are_migrated() {
    let mut module = Module::empty(parameters());
    let old = Ok(Some(vec![(1, 10), (2, 20)]));
    assert_eq!(migrate_members_to_recorded_deposit(&mut module, old, 7), Weight::Max);
    assert_eq!(module.members, vec![seat(1, 10, 7), seat(2, 20, 7)]);
    // what cannot be decoded is left alone.
    assert_eq!(migrate_members_to_recorded_deposit(&mut module, Err(()), 7), Weight::Max);
    assert_eq!(module.members.len(), 2);
    assert_eq!(migrate_members_to_recorded_deposit(&mut module, Ok(None), 7), Weight::Max);
    assert!(module.members.is_empty());

    module.storage_version = StorageVersion::V2RecordedDeposit;
    let old = Ok(Some(vec![(1, 10)]));
    assert_eq!(migrate_members_to_recorded_deposit(&mut module, old, 7), Weight::Zero);
    assert!(module.members.is_empty());
}

#[test]
fn runners_up_are_migrated() {
    let mut module = Module::empty(parameters());
    let old = Ok(Some(vec![(3, 10), (2, 20)]));
    assert_eq!(migrate_runners_up_to_recorded_deposit(&mut module, old, 7), Weight::Max);
    assert_eq!(module.runners_up, vec![seat(3, 10, 7), seat(2, 20, 7)]);
    assert_eq!(migrate_runners_up_to_recorded_deposit(&mut module, Err(()), 7), Weight::Max);
    assert_eq!(module.runners_up.len(), 2);
    assert_eq!(migrate_runners_up_to_recorded_deposit(&mut module, Ok(None), 7), Weight::Max);
    assert!(module.runners_up.is_empty());

    module.storage_version = StorageVersion::V2RecordedDeposit;
    let old = Ok(Some(vec![(3, 10)]));
    assert_eq!(migrate_runners_up_to_recorded_deposit(&mut module, old, 7), Weight::Zero);
    assert!(module.runners_up.is_empty());
}
