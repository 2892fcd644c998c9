//! What the operations promise together.
//!
//! What each operation does on its own is stated in the modules below, by what goes into it and
//! what comes out of it, in plain words on the lists as they are stored.

pub mod candidacy;
pub mod election;
pub mod plain;
pub mod setup;
pub mod voting;

use vstd::prelude::*;

use crate::arith::{low32, saturated, smaller};
use crate::bonds::lemma_all_candidates_unique;
use crate::candidacy::{
    kicking_actions, lemma_without_member_ascending, removal_actions, renounced_state,
    renouncing_actions, renouncing_error, with_candidate, without_member,
};
use crate::config::{vote_scale, Parameters, Trait};
use crate::election::{
    backed_winners, ballots, borda_count, borda_counts, elected_state, election_actions,
    election_due, last_greatest, lemma_backed_winners, lemma_borda_count_nonnegative,
    lemma_new_members_ascending, losers, method_result, new_members, new_runners_up, prime_of,
    recorded_deposit, round_actions, slashes, state_after_round, vote_points,
};
use crate::genesis::{empty_state, with_genesis_member};
use crate::ids::{
    disjoint, entry_of, ids, lemma_sort_by_id, lemma_with_entry, lemma_without_entry,
    strictly_ascending, with_entry, without, without_entry,
};
use crate::migrations::{
    migrated_candidates, migrated_seats, migrated_voter, with_migrated_voters, OldVoter,
};
use crate::outcome::{
    backing_survives, holds_seat, lemma_seated_ids, lemma_split, lemma_stands, round_held,
    seats_within, sound_election,
};
use crate::phragmen::{backed_once, valid_ballots, valid_votes};
use crate::state::{deposit_for, voter_ids, voter_of, State};
use crate::types::{
    no_voter, AccountId, ActionView, Balance, BlockNumber, BondChange, ExtendedBalance, Origin,
    RawAction, RawEvent, Renouncing, Seat, SeatHolder, SlashHandler, StorageVersion, VoterView,
    MAXIMUM_VOTE,
};
use crate::voting::{
    bond_change, defunct_voters, farewell, settled_voter, useful_voters, with_voter, without_voter,
    PendingVote,
};

verus! {

/// The prime after a list of actions: a report of a change of members resets it.
pub open spec fn prime_after(actions: Seq<ActionView>, prime: Option<AccountId>) -> Option<
    AccountId,
>
    decreases actions.len(),
{
    if actions.len() == 0 {
        prime
    } else {
        match actions.last() {
            RawAction::ChangeMembers(_, _, _) => None,
            RawAction::SetPrime(new) => new,
            _ => prime_after(actions.drop_last(), prime),
        }
    }
}

/// Whether a reported change of members is what its parts say: all parts are sorted, those who
/// leave were members and those who join were not, and both together make up the difference.
pub open spec fn truthful_report(
    old: Seq<AccountId>,
    incoming: Seq<AccountId>,
    outgoing: Seq<AccountId>,
    new: Seq<AccountId>,
) -> bool {
    &&& strictly_ascending(incoming)
    &&& strictly_ascending(outgoing)
    &&& strictly_ascending(new)
    &&& disjoint(incoming, outgoing)
    &&& disjoint(old, incoming)
    &&& forall|a: AccountId| #[trigger] outgoing.contains(a) ==> old.contains(a)
    &&& forall|a: AccountId| #[trigger]
        new.contains(a) <==> (old.contains(a) && !outgoing.contains(a)) || incoming.contains(a)
}

/// A term duration of zero means that no election is ever due.
pub proof fn law_passive<T: Trait>(config: T, n: BlockNumber)
    requires
        config.term_duration_spec() == 0,
    ensures
        !election_due(config, n),
{
}

/// A round either takes place or changes nothing. If it does, it is counted and no candidates are
/// left. Votes always persist.
pub proof fn law_round<T: Trait>(config: T, state: State, issuance: Balance)
    requires
        state.election_rounds < u32::MAX,
    ensures
        ({
            let after = state_after_round(config, state, issuance);
            &&& after.voting == state.voting
            &&& after.storage_version == state.storage_version
            &&& round_held(config, state, issuance) ==> {
                &&& after.candidates.len() == 0
                &&& after.election_rounds == state.election_rounds + 1
            }
            &&& !round_held(config, state, issuance) ==> after == state
        }),
{
}

/// Every round is announced, last of all: the new term with its members where an election took
/// place, an empty term where nobody stood, and an error where the election method failed.
pub proof fn law_announcement<T: Trait>(config: T, state: State, issuance: Balance)
    ensures
        ({
            let actions = round_actions(config, state, issuance);
            let after = state_after_round(config, state, issuance);
            &&& actions.len() > 0
            &&& round_held(config, state, issuance) ==> actions.last() == RawAction::<
                Seq<AccountId>,
                Seq<(AccountId, Balance)>,
            >::DepositEvent(
                RawEvent::NewTerm(after.members.map_values(|s: Seat| (s.who, s.stake))),
            )
            &&& state.all_candidates().len() == 0 ==> actions.last() == RawAction::<
                Seq<AccountId>,
                Seq<(AccountId, Balance)>,
            >::DepositEvent(RawEvent::EmptyTerm)
            &&& state.all_candidates().len() > 0 && !round_held(config, state, issuance)
                ==> actions.last() == RawAction::<
                Seq<AccountId>,
                Seq<(AccountId, Balance)>,
            >::DepositEvent(RawEvent::ElectionError)
        }),
{
    if round_held(config, state, issuance) {
        let winners = method_result(config, state, issuance).unwrap();
        let backed = backed_winners(config, winners, issuance);
        let after = elected_state(config, state, winners, issuance);
        assert(after.members.map_values(|s: Seat| (s.who, s.stake)) =~= new_members(
            config,
            backed,
        ));
    }
}

/// The storage with the valid votes of each voter only: those for somebody who stands, each counted
/// once.
pub open spec fn with_valid_votes(state: State) -> State {
    State {
        voting: state.voting.map_values(
            |v: (AccountId, VoterView)|
                (
                    v.0,
                    VoterView {
                        votes: valid_votes(ids(state.all_candidates()), v.1.votes),
                        ..v.1
                    },
                ),
        ),
        ..state
    }
}

/// Votes for others than those who stand, and repeated votes, do not count for the seats: without
/// them the same members and runners-up are elected with the same backing. That they do not count
/// for the prime either is [`law_prime_ignores_moot_votes`].
pub proof fn law_invalid_votes_ignored<T: Trait>(config: T, state: State, issuance: Balance)
    requires
        round_held(config, state, issuance),
        sound_election(config, state, issuance),
    ensures
        ({
            let valid = with_valid_votes(state);
            let after = state_after_round(config, state, issuance);
            let after_valid = state_after_round(config, valid, issuance);
            &&& round_held(config, valid, issuance)
            &&& after_valid.members == after.members
            &&& after_valid.runners_up == after.runners_up
        }),
{
    let valid = with_valid_votes(state);
    let candidates = ids(state.all_candidates());
    let voters = ballots(config, state.voting, issuance);
    assert(valid.all_candidates() =~= state.all_candidates());
    assert(ballots(config, valid.voting, issuance) =~= valid_ballots(candidates, voters));
}

/// Who is among the losers of an election.
proof fn lemma_loser<T: Trait>(
    config: T,
    state: State,
    winners: Seq<(AccountId, ExtendedBalance)>,
    issuance: Balance,
    who: AccountId,
)
    requires
        state.seats_wf(),
    ensures
        ({
            let backed = backed_winners(config, winners, issuance);
            let members = ids(new_members(config, backed));
            let runners_up = ids(new_runners_up(config, backed));
            let losing = losers(state.all_candidates(), members, runners_up);
            let after = elected_state(config, state, winners, issuance);
            &&& holds_seat(after, who) <==> members.contains(who) || runners_up.contains(who)
            &&& state.stands(who) && !holds_seat(after, who) ==> losing.contains(
                (who, recorded_deposit(state.all_candidates(), who)),
            )
            &&& holds_seat(after, who) ==> !ids(losing).contains(who)
        }),
{
    let all = state.all_candidates();
    let backed = backed_winners(config, winners, issuance);
    let members = ids(new_members(config, backed));
    let runners_up = ids(new_runners_up(config, backed));
    let losing = losers(all, members, runners_up);
    let lost = |c: (AccountId, Balance)| !members.contains(c.0) && !runners_up.contains(c.0);
    let after = elected_state(config, state, winners, issuance);
    lemma_seated_ids(all, new_members(config, backed));
    lemma_seated_ids(all, new_runners_up(config, backed));
    lemma_stands(state, who);
    if state.stands(who) && !holds_seat(after, who) {
        lemma_recorded_deposit(all, who);
        let entry = (who, recorded_deposit(all, who));
        all.lemma_filter_contains(lost, all.index_of(entry));
        assert(losing.contains(entry));
    }
    if ids(losing).contains(who) {
        let i = ids(losing).index_of(who);
        all.lemma_filter_pred(lost, i);
    }
}

/// The deposit that is recorded of an account in a list stands in it.
pub proof fn lemma_recorded_deposit(candidates: Seq<(AccountId, Balance)>, who: AccountId)
    requires
        ids(candidates).contains(who),
    ensures
        candidates.contains((who, recorded_deposit(candidates, who))),
    decreases candidates.len(),
{
    if candidates[0].0 == who {
        assert(candidates[0] == (who, recorded_deposit(candidates, who)));
    } else {
        let rest = candidates.drop_first();
        let i = ids(candidates).index_of(who);
        assert(ids(rest)[i - 1] == who);
        lemma_recorded_deposit(rest, who);
        let k = rest.index_of((who, recorded_deposit(rest, who)));
        assert(candidates[k + 1] == rest[k]);
    }
}

/// Who is slashed, and that nobody else is.
proof fn lemma_slashes(losing: Seq<(AccountId, Balance)>)
    ensures
        forall|c: (AccountId, Balance)| #[trigger]
            losing.contains(c) ==> slashes(losing).contains(
                RawAction::SlashReserved(c.0, c.1, SlashHandler::LoserCandidate),
            ) && slashes(losing).contains(
                RawAction::DepositEvent(RawEvent::CandidateSlashed(c.0, c.1)),
            ),
        forall|i: int|
            0 <= i < slashes(losing).len() ==> match #[trigger] slashes(losing)[i] {
                RawAction::SlashReserved(who, amount, handler) => losing.contains((who, amount))
                    && handler == SlashHandler::LoserCandidate,
                RawAction::DepositEvent(event) => event matches RawEvent::CandidateSlashed(
                    who,
                    amount,
                ) && losing.contains((who, amount)),
                _ => false,
            },
    decreases losing.len(),
{
    if losing.len() > 0 {
        let front = losing.drop_last();
        let (who, deposit) = losing.last();
        lemma_slashes(front);
        let before = slashes(front);
        let after = slashes(losing);
        let n = before.len() as int;
        assert(after[n] == RawAction::<Seq<AccountId>, Seq<(AccountId, Balance)>>::SlashReserved(
            who,
            deposit,
            SlashHandler::LoserCandidate,
        ));
        assert(after[n + 1] == RawAction::<
            Seq<AccountId>,
            Seq<(AccountId, Balance)>,
        >::DepositEvent(RawEvent::CandidateSlashed(who, deposit)));
        assert(losing[losing.len() - 1] == (who, deposit));
        assert forall|c: (AccountId, Balance)| #[trigger] losing.contains(c) implies after.contains(
            RawAction::SlashReserved(c.0, c.1, SlashHandler::LoserCandidate),
        ) && after.contains(
            RawAction::DepositEvent(RawEvent::CandidateSlashed(c.0, c.1)),
        ) by {
            if c != (who, deposit) {
                let i = losing.index_of(c);
                assert(front[i] == c);
                assert(front.contains(c));
                let slash: ActionView = RawAction::SlashReserved(
                    c.0,
                    c.1,
                    SlashHandler::LoserCandidate,
                );
                let event: ActionView = RawAction::DepositEvent(
                    RawEvent::CandidateSlashed(c.0, c.1),
                );
                assert(after[before.index_of(slash)] == slash);
                assert(after[before.index_of(event)] == event);
            }
        }
        assert forall|i: int| 0 <= i < after.len() implies match #[trigger] after[i] {
            RawAction::SlashReserved(who, amount, handler) => losing.contains((who, amount))
                && handler == SlashHandler::LoserCandidate,
            RawAction::DepositEvent(event) => event matches RawEvent::CandidateSlashed(who, amount)
                && losing.contains((who, amount)),
            _ => false,
        } by {
            if i < n {
                assert(after[i] == before[i]);
                assert forall|c: (AccountId, Balance)| #[trigger]
                    front.contains(c) implies losing.contains(c) by {
                    assert(losing[front.index_of(c)] == c);
                }
            }
        }
    }
}

/// Whoever stands in an election and ends up without a seat loses the bond: all of the recorded
/// deposit is slashed, and that is reported. This includes outgoing members and runners-up.
pub proof fn law_losers_slashed<T: Trait>(
    config: T,
    state: State,
    winners: Seq<(AccountId, ExtendedBalance)>,
    issuance: Balance,
    who: AccountId,
)
    requires
        state.seats_wf(),
        state.stands(who),
        !holds_seat(elected_state(config, state, winners, issuance), who),
    ensures
        election_actions(config, state, winners, issuance).contains(
            RawAction::SlashReserved(
                who,
                recorded_deposit(state.all_candidates(), who),
                SlashHandler::LoserCandidate,
            ),
        ),
        election_actions(config, state, winners, issuance).contains(
            RawAction::DepositEvent(
                RawEvent::CandidateSlashed(who, recorded_deposit(state.all_candidates(), who)),
            ),
        ),
{
    let backed = backed_winners(config, winners, issuance);
    let members = ids(new_members(config, backed));
    let runners_up = ids(new_runners_up(config, backed));
    let losing = losers(state.all_candidates(), members, runners_up);
    let actions = election_actions(config, state, winners, issuance);
    let deposit = recorded_deposit(state.all_candidates(), who);
    lemma_loser(config, state, winners, issuance, who);
    lemma_slashes(losing);
    let slash: ActionView = RawAction::SlashReserved(who, deposit, SlashHandler::LoserCandidate);
    let event: ActionView = RawAction::DepositEvent(RawEvent::CandidateSlashed(who, deposit));
    assert(losing.contains((who, deposit)));
    assert(actions[2 + slashes(losing).index_of(slash)] == slash);
    assert(actions[2 + slashes(losing).index_of(event)] == event);
}

/// Whoever holds a seat after an election is not slashed by it.
pub proof fn law_seat_holders_not_slashed<T: Trait>(
    config: T,
    state: State,
    winners: Seq<(AccountId, ExtendedBalance)>,
    issuance: Balance,
    who: AccountId,
    amount: Balance,
    handler: SlashHandler,
)
    requires
        state.seats_wf(),
        holds_seat(elected_state(config, state, winners, issuance), who),
    ensures
        !election_actions(config, state, winners, issuance).contains(
            RawAction::SlashReserved(who, amount, handler),
        ),
{
    let backed = backed_winners(config, winners, issuance);
    let members = ids(new_members(config, backed));
    let runners_up = ids(new_runners_up(config, backed));
    let losing = losers(state.all_candidates(), members, runners_up);
    let actions = election_actions(config, state, winners, issuance);
    lemma_loser(config, state, winners, issuance, who);
    lemma_slashes(losing);
    let slash: ActionView = RawAction::SlashReserved(who, amount, handler);
    if actions.contains(slash) {
        let i = actions.index_of(slash);
        assert(slashes(losing)[i - 2] == slash);
        assert(losing.contains((who, amount)));
        assert(ids(losing)[losing.index_of((who, amount))] == who);
    }
}

/// The deposit of an account that stands, by the role in which it stands.
proof fn lemma_deposit_by_role(state: State, who: AccountId)
    requires
        state.seats_wf(),
    ensures
        ids(state.members).contains(who) ==> recorded_deposit(state.all_candidates(), who)
            == entry_of(state.members, who).deposit,
        ids(state.runners_up).contains(who) ==> recorded_deposit(state.all_candidates(), who)
            == entry_of(state.runners_up, who).deposit,
        ids(state.candidates).contains(who) ==> recorded_deposit(state.all_candidates(), who)
            == entry_of(state.candidates, who).1,
{
    let all = state.all_candidates();
    let c = state.candidates.len() as int;
    let m = state.members.len() as int;
    lemma_all_candidates_unique(state);
    lemma_stands(state, who);
    if state.stands(who) {
        lemma_recorded_deposit(all, who);
        let k = all.index_of((who, recorded_deposit(all, who)));
        assert(ids(all)[k] == who);
        if ids(state.members).contains(who) {
            lemma_without_entry(state.members, who);
            let i = ids(state.members).index_of_first(who).unwrap();
            assert(ids(all)[c + i] == who);
            assert(all[c + i] == (who, state.members[i].deposit));
        }
        if ids(state.runners_up).contains(who) {
            lemma_without_entry(state.runners_up, who);
            let i = ids(state.runners_up).index_of_first(who).unwrap();
            assert(ids(all)[c + m + i] == who);
            assert(all[c + m + i] == (who, state.runners_up[i].deposit));
        }
        if ids(state.candidates).contains(who) {
            lemma_without_entry(state.candidates, who);
            let i = ids(state.candidates).index_of_first(who).unwrap();
            assert(ids(all)[i] == who);
        }
    }
}

/// Renouncing always returns the candidacy bond, all of it, and whoever renounces stands no more.
pub proof fn law_renouncing_refunds(
    state: State,
    who: AccountId,
    renouncing: Renouncing,
    prime: Option<AccountId>,
)
    requires
        state.wf(),
        renouncing_error(state, Origin::Signed(who), renouncing) is None,
    ensures
        renouncing_actions(state, who, renouncing, prime).contains(
            RawAction::Unreserve(who, recorded_deposit(state.all_candidates(), who)),
        ),
        !renounced_state(state, who, renouncing).stands(who),
{
    lemma_deposit_by_role(state, who);
    let actions = renouncing_actions(state, who, renouncing, prime);
    let after = renounced_state(state, who, renouncing);
    let refund: ActionView = RawAction::Unreserve(
        who,
        recorded_deposit(state.all_candidates(), who),
    );
    assert(actions[0] == refund);
    match renouncing {
        Renouncing::Member => {
            lemma_without_entry(state.members, who);
            if state.runners_up.len() > 0 {
                let next = state.runners_up.last();
                assert(ids(state.runners_up)[state.runners_up.len() - 1] == next.who);
                assert(ids(state.runners_up).contains(next.who));
                lemma_with_entry(without_entry(state.members, who), next);
                if ids(after.runners_up).contains(who) {
                    let i = ids(after.runners_up).index_of(who);
                    assert(ids(state.runners_up)[i] == who);
                    assert(ids(state.runners_up).contains(who));
                }
            }
        },
        Renouncing::RunnerUp => {
            lemma_without_entry(state.runners_up, who);
        },
        Renouncing::Candidate(_) => {
            lemma_without_entry(state.candidates, who);
        },
    }
}

/// Seats go by rank: the members are the best of the backed winners, in the order of their
/// accounts, and the runners-up are the next best ones, from the worst to the best. So the
/// runner-up who moves up first is the best one who is no member.
pub proof fn law_seats_by_rank<T: Trait>(
    config: T,
    state: State,
    winners: Seq<(AccountId, ExtendedBalance)>,
    issuance: Balance,
)
    requires
        backed_once(winners),
    ensures
        ({
            let backed = backed_winners(config, winners, issuance);
            let after = elected_state(config, state, winners, issuance);
            let seats = smaller(config.desired_members_spec() as int, backed.len() as int);
            &&& after.members.len() == seats
            &&& after.runners_up.len() == backed.len() - seats
            &&& forall|i: int|
                0 <= i < seats ==> ids(after.members).contains((#[trigger] backed[i]).0)
            &&& forall|i: int|
                0 <= i < after.runners_up.len() ==> {
                    let seat = #[trigger] after.runners_up[i];
                    (seat.who, seat.stake) == backed[backed.len() - 1 - i]
                }
        }),
{
    let backed = backed_winners(config, winners, issuance);
    let after = elected_state(config, state, winners, issuance);
    let seats = smaller(config.desired_members_spec() as int, backed.len() as int);
    let front = backed.take(seats);
    lemma_backed_winners(config, winners, issuance);
    lemma_split(config, backed);
    lemma_seated_ids(state.all_candidates(), new_members(config, backed));
    lemma_sort_by_id(front);
    assert forall|i: int| 0 <= i < seats implies ids(after.members).contains(
        (#[trigger] backed[i]).0,
    ) by {
        assert(ids(front)[i] == backed[i].0);
        assert(ids(front).contains(backed[i].0));
    }
}

/// The last index at which the greatest value stands is just that.
proof fn lemma_last_greatest(counts: Seq<Balance>)
    requires
        counts.len() > 0,
    ensures
        0 <= last_greatest(counts) < counts.len(),
        forall|i: int|
            0 <= i < counts.len() ==> (#[trigger] counts[i]) <= counts[last_greatest(counts)],
        forall|i: int|
            last_greatest(counts) < i < counts.len() ==> (#[trigger] counts[i])
                < counts[last_greatest(counts)],
    decreases counts.len(),
{
    if counts.len() > 1 {
        let front = counts.drop_last();
        lemma_last_greatest(front);
        assert forall|i: int| 0 <= i < counts.len() implies (#[trigger] counts[i])
            <= counts[last_greatest(counts)] by {
            if i < front.len() {
                assert(front[i] <= front[last_greatest(front)]);
            }
        }
        assert forall|i: int| last_greatest(counts) < i < counts.len() implies (
        #[trigger] counts[i]) < counts[last_greatest(counts)] by {
            if i < front.len() {
                assert(front[i] < front[last_greatest(front)]);
            }
        }
    }
}

/// The prime is the member with the greatest Borda count, and among several of them the one with
/// the highest account. There is a prime exactly if there are members.
pub proof fn law_prime(voting: Seq<(AccountId, VoterView)>, members: Seq<AccountId>)
    requires
        strictly_ascending(members),
        forall|v: int|
            0 <= v < voting.len() ==> (#[trigger] voting[v]).1.votes.len() <= MAXIMUM_VOTE,
    ensures
        prime_of(voting, members) is None <==> members.len() == 0,
        prime_of(voting, members) matches Some(prime) ==> {
            &&& members.contains(prime)
            &&& forall|m: AccountId| #[trigger]
                members.contains(m) ==> {
                    let count = saturated(borda_count(voting, m));
                    let best = saturated(borda_count(voting, prime));
                    count < best || (count == best && m <= prime)
                }
        },
{
    if members.len() > 0 {
        let counts = borda_counts(voting, members);
        lemma_last_greatest(counts);
        let at = last_greatest(counts);
        let prime = members[at];
        assert forall|m: AccountId| #[trigger] members.contains(m) implies {
            let count = saturated(borda_count(voting, m));
            let best = saturated(borda_count(voting, prime));
            count < best || (count == best && m <= prime)
        } by {
            let i = members.index_of(m);
            lemma_borda_count_nonnegative(voting, m);
            lemma_borda_count_nonnegative(voting, prime);
            assert(counts[i] <= counts[at]);
            if i < at {
                assert(members[i] < members[at]);
            } else if i > at {
                assert(counts[i] < counts[at]);
            }
        }
    }
}

/// A voter gives points to an account once, for the first place at which it is named, however often
/// it is named.
pub proof fn law_first_place_counts(votes: Seq<AccountId>, who: AccountId)
    ensures
        vote_points(votes, who) == if votes.contains(who) {
            MAXIMUM_VOTE - votes.index_of_first(who).unwrap()
        } else {
            0
        },
{
    votes.index_of_first_ensures(who);
}

/// Whether two voters have the same stake and name the given accounts first at the same places.
pub open spec fn same_first_places(
    voter: VoterView,
    other: VoterView,
    members: Seq<AccountId>,
) -> bool {
    &&& voter.stake == other.stake
    &&& forall|m: AccountId| #[trigger]
        members.contains(m) ==> voter.votes.index_of_first(m) == other.votes.index_of_first(m)
}

/// The Borda counts depend on nothing but the stakes and the first places.
proof fn lemma_borda_count_by_first_places(
    voting: Seq<(AccountId, VoterView)>,
    other: Seq<(AccountId, VoterView)>,
    members: Seq<AccountId>,
    who: AccountId,
)
    requires
        voting.len() == other.len(),
        forall|v: int|
            0 <= v < voting.len() ==> same_first_places(
                (#[trigger] voting[v]).1,
                other[v].1,
                members,
            ),
        members.contains(who),
    ensures
        borda_count(voting, who) == borda_count(other, who),
    decreases voting.len(),
{
    if voting.len() > 0 {
        let front = voting.drop_last();
        let other_front = other.drop_last();
        assert forall|v: int| 0 <= v < front.len() implies same_first_places(
            (#[trigger] front[v]).1,
            other_front[v].1,
            members,
        ) by {
            assert(front[v] == voting[v]);
        }
        lemma_borda_count_by_first_places(front, other_front, members, who);
        let last = voting.len() - 1;
        assert(same_first_places(voting[last].1, other[last].1, members));
    }
}

/// The prime depends on nothing but the stakes of the voters and the first places at which they
/// name the members.
pub proof fn law_prime_by_first_places(
    voting: Seq<(AccountId, VoterView)>,
    other: Seq<(AccountId, VoterView)>,
    members: Seq<AccountId>,
)
    requires
        voting.len() == other.len(),
        forall|v: int|
            0 <= v < voting.len() ==> same_first_places(
                (#[trigger] voting[v]).1,
                other[v].1,
                members,
            ),
    ensures
        prime_of(voting, members) == prime_of(other, members),
{
    assert forall|i: int| 0 <= i < members.len() implies borda_counts(voting, members)[i]
        == borda_counts(other, members)[i] by {
        assert(members.contains(members[i]));
        lemma_borda_count_by_first_places(voting, other, members, members[i]);
    }
    assert(borda_counts(voting, members) =~= borda_counts(other, members));
}

/// Whether a vote for an account, at the given place behind other votes, is moot: it repeats one of
/// them, or it is for somebody who is no member.
pub open spec fn moot(
    votes: Seq<AccountId>,
    place: int,
    who: AccountId,
    members: Seq<AccountId>,
) -> bool {
    votes.take(place).contains(who) || !members.contains(who)
}

/// Repeated votes, and votes for others than members, do not count for the prime: whichever of them
/// a voter casts at a place, the prime is the same.
pub proof fn law_prime_ignores_moot_votes(
    voting: Seq<(AccountId, VoterView)>,
    members: Seq<AccountId>,
    v: int,
    place: int,
    instead: AccountId,
)
    requires
        0 <= v < voting.len(),
        0 <= place < voting[v].1.votes.len(),
        moot(voting[v].1.votes, place, voting[v].1.votes[place], members),
        moot(voting[v].1.votes, place, instead, members),
    ensures
        ({
            let voter = VoterView {
                votes: voting[v].1.votes.update(place, instead),
                ..voting[v].1
            };
            prime_of(voting.update(v, (voting[v].0, voter)), members) == prime_of(voting, members)
        }),
{
    let votes = voting[v].1.votes;
    let changed = votes.update(place, instead);
    let voter = VoterView { votes: changed, ..voting[v].1 };
    let other = voting.update(v, (voting[v].0, voter));
    assert forall|m: AccountId| #[trigger] members.contains(m) implies votes.index_of_first(m)
        == changed.index_of_first(m) by {
        votes.index_of_first_ensures(m);
        changed.index_of_first_ensures(m);
        if votes[place] == m || instead == m {
            let i = votes.take(place).index_of(m);
            assert(votes[i] == m && changed[i] == m);
        }
        if votes.contains(m) {
            let i = votes.index_of_first(m).unwrap();
            assert(i != place);
            assert(changed[i] == m);
        }
        if changed.contains(m) {
            let i = changed.index_of_first(m).unwrap();
            assert(i != place);
            assert(votes[i] == m);
        }
    }
    assert forall|w: int| 0 <= w < voting.len() implies same_first_places(
        (#[trigger] voting[w]).1,
        other[w].1,
        members,
    ) by {}
    law_prime_by_first_places(voting, other, members);
}

/// The removal of a member leaves the prime as it is, unless it is the prime who leaves: then there
/// is no prime until the next round. A prime who was a member stays one.
pub proof fn law_prime_after_removal(
    state: State,
    who: AccountId,
    slash: bool,
    prime: Option<AccountId>,
)
    requires
        state.wf(),
        ids(state.members).contains(who),
    ensures
        prime_after(removal_actions(state, who, slash, prime), prime) == if prime == Some(who) {
            None
        } else {
            prime
        },
        prime_after(kicking_actions(state, who, prime), prime) == if prime == Some(who) {
            None
        } else {
            prime
        },
        prime is Some && prime != Some(who) && ids(state.members).contains(prime.unwrap()) ==> ids(
            without_member(state, who).members,
        ).contains(prime.unwrap()),
{
    reveal_with_fuel(prime_after, 6);
    lemma_without_entry(state.members, who);
    if state.runners_up.len() > 0 {
        let next = state.runners_up.last();
        assert(ids(state.runners_up)[state.runners_up.len() - 1] == next.who);
        assert(ids(state.runners_up).contains(next.who));
        lemma_with_entry(without_entry(state.members, who), next);
    }
    let kicked = removal_actions(state, who, true, prime);
    assert(kicking_actions(state, who, prime).drop_last() =~= kicked);
}

/// After an election the prime is the one that the Borda count gives.
pub proof fn law_prime_after_election<T: Trait>(
    config: T,
    state: State,
    winners: Seq<(AccountId, ExtendedBalance)>,
    issuance: Balance,
    prime: Option<AccountId>,
)
    ensures
        prime_after(election_actions(config, state, winners, issuance), prime) == prime_of(
            state.voting,
            ids(elected_state(config, state, winners, issuance).members),
        ),
{
    let backed = backed_winners(config, winners, issuance);
    let members = ids(new_members(config, backed));
    let runners_up = ids(new_runners_up(config, backed));
    let losing = losers(state.all_candidates(), members, runners_up);
    let actions = election_actions(config, state, winners, issuance);
    lemma_seated_ids(state.all_candidates(), new_members(config, backed));
    let first = actions.take(2);
    assert(actions.drop_last() =~= first + slashes(losing));
    lemma_prime_after_slashes(first, losing, prime);
    reveal_with_fuel(prime_after, 2);
}

proof fn lemma_prime_after_slashes(
    first: Seq<ActionView>,
    losing: Seq<(AccountId, Balance)>,
    prime: Option<AccountId>,
)
    ensures
        prime_after(first + slashes(losing), prime) == prime_after(first, prime),
    decreases losing.len(),
{
    let actions = first + slashes(losing);
    if losing.len() == 0 {
        assert(actions =~= first);
    } else {
        lemma_prime_after_slashes(first, losing.drop_last(), prime);
        assert(actions.drop_last().drop_last() =~= first + slashes(losing.drop_last()));
        reveal_with_fuel(prime_after, 3);
    }
}

/// A part of a list in ascending order is in ascending order.
proof fn lemma_without_ascending(accounts: Seq<AccountId>, others: Seq<AccountId>)
    requires
        strictly_ascending(accounts),
    ensures
        strictly_ascending(without(accounts, others)),
        forall|a: AccountId| #[trigger]
            without(accounts, others).contains(a) <==> accounts.contains(a) && !others.contains(a),
    decreases accounts.len(),
{
    reveal(Seq::filter);
    let part = without(accounts, others);
    if accounts.len() > 0 {
        let front = accounts.drop_last();
        let last = accounts.last();
        lemma_without_ascending(front, others);
        let before = without(front, others);
        assert forall|a: AccountId| #[trigger] before.contains(a) implies a < last by {
            let i = front.index_of(a);
            assert(accounts[i] < accounts[accounts.len() - 1]);
        }
        assert forall|a: AccountId| #[trigger] accounts.contains(a) <==> front.contains(a) || a
            == last by {
            if accounts.contains(a) && a != last {
                assert(front[accounts.index_of(a)] == a);
            }
            if front.contains(a) {
                assert(accounts[front.index_of(a)] == a);
            }
            assert(accounts[accounts.len() - 1] == last);
        }
        if !others.contains(last) {
            assert(part == before.push(last));
            assert forall|i: int, j: int| 0 <= i < j < part.len() implies part[i] < part[j] by {
                if j == before.len() {
                    assert(before.contains(before[i]));
                } else {
                    assert(before[i] < before[j]);
                }
            }
            assert forall|a: AccountId| #[trigger] part.contains(a) <==> before.contains(a) || a
                == last by {
                if part.contains(a) && a != last {
                    assert(before[part.index_of(a)] == a);
                }
                if before.contains(a) {
                    assert(part[before.index_of(a)] == a);
                }
                assert(part[before.len() as int] == last);
            }
        }
    }
}

/// What an election reports of the members is the truth.
pub proof fn law_election_report<T: Trait>(
    config: T,
    state: State,
    winners: Seq<(AccountId, ExtendedBalance)>,
    issuance: Balance,
)
    requires
        state.seats_wf(),
        backed_once(winners),
    ensures
        election_actions(config, state, winners, issuance)[0] matches RawAction::ChangeMembers(
            incoming,
            outgoing,
            new,
        ) && new == ids(elected_state(config, state, winners, issuance).members)
            && truthful_report(ids(state.members), incoming, outgoing, new),
{
    let backed = backed_winners(config, winners, issuance);
    let new = ids(new_members(config, backed));
    let old = ids(state.members);
    lemma_new_members_ascending(config, winners, issuance);
    lemma_seated_ids(state.all_candidates(), new_members(config, backed));
    lemma_without_ascending(new, old);
    lemma_without_ascending(old, new);
}

/// What the removal of a member reports of the members is the truth: the member leaves, and the
/// best runner-up, if there is any, joins.
pub proof fn law_removal_report(
    state: State,
    who: AccountId,
    slash: bool,
    prime: Option<AccountId>,
)
    requires
        state.wf(),
        ids(state.members).contains(who),
    ensures
        exists|i: int|
            0 <= i < removal_actions(state, who, slash, prime).len() && (
            #[trigger] removal_actions(state, who, slash, prime)[i] matches RawAction::ChangeMembers(
                incoming,
                outgoing,
                new,
            ) && outgoing == seq![who] && new == ids(without_member(state, who).members)
                && truthful_report(ids(state.members), incoming, outgoing, new)),
{
    let actions = removal_actions(state, who, slash, prime);
    let at = if slash { 2int } else { 1int };
    let incoming = if state.runners_up.len() == 0 {
        Seq::empty()
    } else {
        seq![state.runners_up.last().who]
    };
    let new = ids(without_member(state, who).members);
    let outgoing = seq![who];
    assert(actions[at] == RawAction::<
        Seq<AccountId>,
        Seq<(AccountId, Balance)>,
    >::ChangeMembers(incoming, outgoing, new));
    lemma_without_entry(state.members, who);
    lemma_without_member_ascending(state, who);
    assert(outgoing[0] == who);
    assert(forall|a: AccountId| #[trigger] outgoing.contains(a) <==> a == who);
    if state.runners_up.len() > 0 {
        let next = state.runners_up.last();
        assert(ids(state.runners_up)[state.runners_up.len() - 1] == next.who);
        assert(ids(state.runners_up).contains(next.who));
        lemma_with_entry(without_entry(state.members, who), next);
        assert(incoming[0] == next.who);
        assert(forall|a: AccountId| #[trigger] incoming.contains(a) <==> a == next.who);
    } else {
        assert(forall|a: AccountId| !#[trigger] incoming.contains(a));
    }
}

/// When a member leaves and there are runners-up, the best of them takes the seat and the number
/// of members stays; otherwise a seat stays empty. The other members and runners-up stay.
pub proof fn law_replacement(state: State, who: AccountId)
    requires
        state.wf(),
        ids(state.members).contains(who),
    ensures
        ({
            let after = without_member(state, who);
            &&& !ids(after.members).contains(who)
            &&& forall|a: AccountId|
                a != who && #[trigger] ids(state.members).contains(a) ==> ids(
                    after.members,
                ).contains(a)
            &&& state.runners_up.len() > 0 ==> {
                &&& ids(after.members).contains(state.runners_up.last().who)
                &&& after.members.contains(state.runners_up.last())
                &&& after.members.len() == state.members.len()
                &&& after.runners_up == state.runners_up.drop_last()
            }
            &&& state.runners_up.len() == 0 ==> {
                &&& after.members.len() == state.members.len() - 1
                &&& after.runners_up == state.runners_up
            }
        }),
{
    let after = without_member(state, who);
    lemma_without_entry(state.members, who);
    if state.runners_up.len() > 0 {
        let next = state.runners_up.last();
        let left = without_entry(state.members, who);
        assert(ids(state.runners_up)[state.runners_up.len() - 1] == next.who);
        assert(ids(state.runners_up).contains(next.who));
        lemma_with_entry(left, next);
        let at = crate::ids::place(ids(left), next.who);
        assert(with_entry(left, next)[at] == next);
    }
}

/// Removing members never makes them more than desired.
pub proof fn law_removal_within<T: Trait>(config: T, state: State, who: AccountId)
    requires
        state.wf(),
        ids(state.members).contains(who),
        seats_within(config, state),
    ensures
        seats_within(config, without_member(state, who)),
{
    law_replacement(state, who);
}

/// Every seat that is left has a backing when somebody has renounced. A member who is kicked leaves
/// the seats as one who renounces.
pub proof fn law_backing_kept(state: State, who: AccountId, renouncing: Renouncing)
    requires
        state.wf(),
        state.seats_backed(),
        renouncing_error(state, Origin::Signed(who), renouncing) is None,
    ensures
        renounced_state(state, who, renouncing).seats_backed(),
{
    let after = renounced_state(state, who, renouncing);
    match renouncing {
        Renouncing::Member => {
            let left = without_entry(state.members, who);
            lemma_without_entry(state.members, who);
            let at = ids(state.members).index_of_first(who).unwrap();
            assert forall|i: int| 0 <= i < left.len() implies (#[trigger] left[i]).stake > 0 by {
                let i0 = if i < at { i } else { i + 1 };
                assert(left[i] == state.members[i0]);
            }
            if state.runners_up.len() > 0 {
                let next = state.runners_up.last();
                assert(ids(state.runners_up)[state.runners_up.len() - 1] == next.who);
                assert(ids(state.runners_up).contains(next.who));
                lemma_with_entry(left, next);
                let place = crate::ids::place(ids(left), next.who);
                assert forall|i: int| 0 <= i < after.members.len() implies (
                #[trigger] after.members[i]).stake > 0 by {
                    let i0 = if i < place { i } else { i - 1 };
                    if i != place {
                        assert(after.members[i] == left[i0]);
                    }
                }
            }
        },
        Renouncing::RunnerUp => {
            lemma_without_entry(state.runners_up, who);
            let at = ids(state.runners_up).index_of_first(who).unwrap();
            assert forall|i: int| 0 <= i < after.runners_up.len() implies (
            #[trigger] after.runners_up[i]).stake > 0 by {
                let i0 = if i < at { i } else { i + 1 };
                assert(after.runners_up[i] == state.runners_up[i0]);
            }
        },
        Renouncing::Candidate(_) => {},
    }
}

/// Parameters given as plain values never lose a backing entirely when they convert it.
pub proof fn law_conversion_keeps_backing(parameters: Parameters)
    ensures
        backing_survives(parameters),
{
    assert forall|e: ExtendedBalance, issuance: Balance|
        e > 0 implies #[trigger] parameters.to_currency_spec(e, issuance) > 0 by {
        let scale = vote_scale(parameters.conversion, issuance);
        assert(e * scale >= 1) by (nonlinear_arith)
            requires
                e > 0,
                scale >= 1,
        ;
    }
}

/// Submitting candidacy and renouncing it again leaves the storage as it was and returns what has
/// been reserved. Renouncing cannot fail, if the number of candidates is not understated.
pub proof fn law_submit_then_renounce(
    state: State,
    who: AccountId,
    deposit: Balance,
    count: u32,
    prime: Option<AccountId>,
)
    requires
        state.wf(),
        !state.stands(who),
        count >= low32(state.candidates.len() as int + 1),
    ensures
        ({
            let submitted = with_candidate(state, who, deposit);
            let renouncing = Renouncing::Candidate(count);
            &&& renouncing_error(submitted, Origin::Signed(who), renouncing) is None
            &&& renounced_state(submitted, who, renouncing) == state
            &&& renouncing_actions(submitted, who, renouncing, prime) =~= seq![
                RawAction::Unreserve(who, deposit),
            ]
        }),
{
    lemma_with_entry(state.candidates, (who, deposit));
    assert(with_entry(state.candidates, (who, deposit)).len() == state.candidates.len() + 1);
}

/// More votes never take a smaller deposit.
pub proof fn law_deposit_grows<T: Trait>(config: T, fewer: int, more: int)
    requires
        0 <= fewer <= more <= u32::MAX,
    ensures
        deposit_for(config, fewer) <= deposit_for(config, more),
{
    let factor = config.voting_bond_factor_spec();
    assert(0 <= factor * fewer <= factor * more) by (nonlinear_arith)
        requires
            factor >= 0,
            0 <= fewer <= more,
    ;
}

/// Voting again, for as many accounts as before and at unchanged parameters, keeps the bond
/// untouched.
pub proof fn law_revote_keeps_bond<T: Trait>(
    config: T,
    voting: Seq<(AccountId, VoterView)>,
    who: AccountId,
    voter: VoterView,
    count: int,
)
    requires
        voter.deposit == deposit_for(config, count),
    ensures
        bond_change(
            voter_of(with_voter(voting, who, voter), who).deposit,
            deposit_for(config, count),
        ) == BondChange::Keep,
{
    law_vote_recorded(voting, who, voter, who);
}

/// What is recorded of a voter is what the last vote says, and a vote leaves the other voters
/// alone.
pub proof fn law_vote_recorded(
    voting: Seq<(AccountId, VoterView)>,
    who: AccountId,
    voter: VoterView,
    other: AccountId,
)
    ensures
        voter_ids(with_voter(voting, who, voter)).contains(who),
        voter_of(with_voter(voting, who, voter), other) == if other == who {
            voter
        } else {
            voter_of(voting, other)
        },
{
    let before = voter_ids(voting);
    let with = with_voter(voting, who, voter);
    let after = voter_ids(with);
    before.index_of_first_ensures(who);
    before.index_of_first_ensures(other);
    after.index_of_first_ensures(other);
    after.index_of_first_ensures(who);
    if before.contains(who) {
        assert(after =~= before);
    } else {
        assert(after =~= before.push(who));
        assert(after[before.len() as int] == who);
        if before.contains(other) {
            let i = before.index_of_first(other).unwrap();
            assert(after[i] == other);
            let j = after.index_of_first(other).unwrap();
            if j < i {
                assert(before[j] == other);
            }
        } else if other != who {
            if after.contains(other) {
                assert(before[after.index_of(other)] == other);
            }
        } else {
            let j = after.index_of_first(who).unwrap();
            if j < before.len() {
                assert(before[j] == who);
            }
        }
    }
}

/// Voting for the first time and leaving again leaves the voters as they were, removes the lock and
/// returns the deposit.
pub proof fn law_vote_then_remove<T: Trait>(
    config: T,
    voting: Seq<(AccountId, VoterView)>,
    who: AccountId,
    voter: VoterView,
)
    requires
        !voter_ids(voting).contains(who),
    ensures
        without_voter(with_voter(voting, who, voter), who) == voting,
        farewell(config, who, voter_of(with_voter(voting, who, voter), who).deposit) =~= seq![
            RawAction::RemoveLock(config.module_id_spec(), who),
            RawAction::Unreserve(who, voter.deposit),
        ],
{
    law_vote_recorded(voting, who, voter, who);
    let with = with_voter(voting, who, voter);
    let accounts = voter_ids(with);
    accounts.index_of_first_ensures(who);
    let at = accounts.index_of_first(who).unwrap();
    assert(accounts =~= voter_ids(voting).push(who));
    assert(accounts[voting.len() as int] == who);
    if at < voting.len() {
        assert(voter_ids(voting)[at] == who);
    }
    assert(with.remove(at) =~= voting);
}

/// Whoever is removed as a voter is none any more, and the others are left alone.
pub proof fn law_voter_removed(
    voting: Seq<(AccountId, VoterView)>,
    who: AccountId,
    other: AccountId,
)
    requires
        voter_ids(voting).no_duplicates(),
    ensures
        voter_of(without_voter(voting, who), other) == if other == who {
            no_voter()
        } else {
            voter_of(voting, other)
        },
        voter_ids(without_voter(voting, who)).contains(other) <==> other != who && voter_ids(
            voting,
        ).contains(other),
{
    let before = voter_ids(voting);
    let after = voter_ids(without_voter(voting, who));
    before.index_of_first_ensures(who);
    before.index_of_first_ensures(other);
    after.index_of_first_ensures(other);
    if before.contains(who) {
        let at = before.index_of_first(who).unwrap();
        assert(after =~= before.remove(at));
        if after.contains(other) {
            let j = after.index_of_first(other).unwrap();
            let j0 = if j < at { j } else { j + 1 };
            assert(before[j0] == other);
            assert(before[j0] != before[at]);
            assert(before.contains(other));
            assert(before.index_of_first(other).unwrap() == j0);
        }
        if before.contains(other) && other != who {
            let i = before.index_of_first(other).unwrap();
            let i0 = if i < at { i } else { i - 1 };
            assert(after[i0] == other);
        }
    }
}

/// Cleaning up removes the defunct voters and no others: a voter stays exactly if it votes for
/// somebody who stands. Cleaning up once more changes nothing.
pub proof fn law_cleaning(state: State, voter: (AccountId, VoterView))
    ensures
        useful_voters(state).contains(voter) <==> state.voting.contains(voter) && exists|i: int|
            0 <= i < voter.1.votes.len() && state.stands(#[trigger] voter.1.votes[i]),
        defunct_voters(state).contains(voter) <==> state.voting.contains(voter)
            && !useful_voters(state).contains(voter),
        useful_voters(State { voting: useful_voters(state), ..state }) == useful_voters(state),
        defunct_voters(State { voting: useful_voters(state), ..state }).len() == 0,
{
    let useful = |v: (AccountId, VoterView)| !state.defunct(v.1.votes);
    let useless = |v: (AccountId, VoterView)| state.defunct(v.1.votes);
    let kept = useful_voters(state);
    let gone = defunct_voters(state);
    let clean = State { voting: kept, ..state };
    if kept.contains(voter) {
        state.voting.lemma_filter_contains_rev(useful, voter);
        state.voting.lemma_filter_pred(useful, kept.index_of(voter));
    }
    if state.voting.contains(voter) && !state.defunct(voter.1.votes) {
        state.voting.lemma_filter_contains(useful, state.voting.index_of(voter));
    }
    if gone.contains(voter) {
        state.voting.lemma_filter_contains_rev(useless, voter);
        state.voting.lemma_filter_pred(useless, gone.index_of(voter));
    }
    if state.voting.contains(voter) && state.defunct(voter.1.votes) {
        state.voting.lemma_filter_contains(useless, state.voting.index_of(voter));
    }
    assert forall|votes: Seq<AccountId>| #[trigger] clean.defunct(votes) == state.defunct(
        votes,
    ) by {
        assert forall|a: AccountId| clean.stands(a) == #[trigger] state.stands(a) by {}
        if clean.defunct(votes) {
            assert forall|v: int| 0 <= v < votes.len() implies !state.stands(
                #[trigger] votes[v],
            ) by {
                assert(!clean.stands(votes[v]));
            }
        }
        if state.defunct(votes) {
            assert forall|v: int| 0 <= v < votes.len() implies !clean.stands(
                #[trigger] votes[v],
            ) by {
                assert(!state.stands(votes[v]));
            }
        }
    }
    assert forall|i: int| 0 <= i < kept.len() implies useful(#[trigger] kept[i]) by {
        state.voting.lemma_filter_pred(useful, i);
    }
    lemma_filter_all(kept, |v: (AccountId, VoterView)| !clean.defunct(v.1.votes));
    let again = |v: (AccountId, VoterView)| clean.defunct(v.1.votes);
    let left = kept.filter(again);
    if left.len() > 0 {
        kept.lemma_filter_pred(again, 0);
        assert(left.contains(left[0]));
        kept.lemma_filter_contains_rev(again, left[0]);
        assert(useful(kept[kept.index_of(left[0])]));
    }
}

/// A part of a list that holds everything is the list.
proof fn lemma_filter_all(
    voting: Seq<(AccountId, VoterView)>,
    keep: spec_fn((AccountId, VoterView)) -> bool,
)
    requires
        forall|i: int| 0 <= i < voting.len() ==> keep(#[trigger] voting[i]),
    ensures
        voting.filter(keep) == voting,
    decreases voting.len(),
{
    reveal(Seq::filter);
    if voting.len() > 0 {
        let front = voting.drop_last();
        assert forall|i: int| 0 <= i < front.len() implies keep(#[trigger] front[i]) by {
            assert(front[i] == voting[i]);
        }
        lemma_filter_all(front, keep);
        assert(keep(voting[voting.len() - 1]));
        assert(voting.filter(keep) =~= voting);
    }
}

/// A genesis member backs itself with exactly the backing of its seat, as its balance covers it,
/// and keeps the invariant.
pub proof fn law_genesis_member<T: Trait>(
    config: T,
    state: State,
    pending: PendingVote,
    total_balance: Balance,
)
    requires
        state.wf(),
        !state.stands(pending.who),
        pending.votes@ == seq![pending.who],
        total_balance >= pending.value,
    ensures
        ({
            let seated = with_genesis_member(config, state, pending.who, pending.value);
            let voter = settled_voter(pending, total_balance);
            let after = State {
                voting: with_voter(seated.voting, pending.who, voter),
                ..seated
            };
            &&& after.wf()
            &&& voter_of(after.voting, pending.who).votes == seq![pending.who]
            &&& voter_of(after.voting, pending.who).stake == entry_of(
                after.members,
                pending.who,
            ).stake
            &&& entry_of(after.members, pending.who).deposit == config.candidacy_bond_spec()
        }),
{
    let seat = SeatHolder {
        who: pending.who,
        stake: pending.value,
        deposit: config.candidacy_bond_spec(),
    };
    let seated = with_genesis_member(config, state, pending.who, pending.value);
    let voter = settled_voter(pending, total_balance);
    lemma_with_entry(state.members, seat);
    crate::voting::lemma_with_voter_wf(seated, pending.who, voter);
    law_vote_recorded(seated.voting, pending.who, voter, pending.who);
}

/// The storage once the given members have been seated at genesis and have voted for themselves.
pub open spec fn genesis_state<T: Trait>(config: T, members: Seq<(AccountId, Balance)>) -> State
    decreases members.len(),
{
    if members.len() == 0 {
        empty_state(StorageVersion::V2RecordedDeposit)
    } else {
        let (who, stake) = members.last();
        let seated = with_genesis_member(
            config,
            genesis_state(config, members.drop_last()),
            who,
            stake,
        );
        let voter = VoterView { votes: seq![who], stake, deposit: deposit_for(config, 1) };
        State { voting: with_voter(seated.voting, who, voter), ..seated }
    }
}

/// Genesis with any members, each named once and in whatever order, leaves a sound storage in which
/// exactly they are members, and exactly they vote.
pub proof fn law_genesis<T: Trait>(config: T, members: Seq<(AccountId, Balance)>)
    requires
        ids(members).no_duplicates(),
    ensures
        genesis_state(config, members).wf(),
        genesis_state(config, members).runners_up.len() == 0,
        genesis_state(config, members).candidates.len() == 0,
        forall|a: AccountId| #[trigger]
            ids(genesis_state(config, members).members).contains(a) <==> ids(members).contains(a),
        forall|a: AccountId| #[trigger]
            voter_ids(genesis_state(config, members).voting).contains(a) <==> ids(
                members,
            ).contains(a),
    decreases members.len(),
{
    let after = genesis_state(config, members);
    if members.len() > 0 {
        let front = members.drop_last();
        let (who, stake) = members.last();
        assert(ids(front) =~= ids(members).drop_last());
        law_genesis(config, front);
        let before = genesis_state(config, front);
        assert(!ids(front).contains(who)) by {
            if ids(front).contains(who) {
                let i = ids(front).index_of(who);
                assert(ids(members)[i] == ids(members)[members.len() - 1]);
            }
        }
        assert forall|a: AccountId| #[trigger] ids(members).contains(a) <==> ids(front).contains(a)
            || a == who by {
            if ids(members).contains(a) && a != who {
                assert(ids(front)[ids(members).index_of(a)] == a);
            }
            if ids(front).contains(a) {
                assert(ids(members)[ids(front).index_of(a)] == a);
            }
            assert(ids(members)[members.len() - 1] == who);
        }
        let seat = SeatHolder { who, stake, deposit: config.candidacy_bond_spec() };
        let voter = VoterView { votes: seq![who], stake, deposit: deposit_for(config, 1) };
        let seated = with_genesis_member(config, before, who, stake);
        lemma_with_entry(before.members, seat);
        crate::voting::lemma_with_voter_wf(seated, who, voter);
        assert(voter_ids(after.voting) =~= voter_ids(before.voting).push(who));
        assert forall|a: AccountId| #[trigger] voter_ids(after.voting).contains(a) <==> voter_ids(
            before.voting,
        ).contains(a) || a == who by {
            let old = voter_ids(before.voting);
            if voter_ids(after.voting).contains(a) && a != who {
                assert(old[voter_ids(after.voting).index_of(a)] == a);
            }
            if old.contains(a) {
                assert(voter_ids(after.voting)[old.index_of(a)] == a);
            }
            assert(voter_ids(after.voting)[old.len() as int] == who);
        }
    }
}

/// Migrating candidates and seats keeps the accounts and their order, and records the deposit for
/// each.
pub proof fn law_migration_keeps_accounts(
    candidates: Seq<AccountId>,
    seats: Seq<(AccountId, Balance)>,
    deposit: Balance,
)
    ensures
        ids(migrated_candidates(candidates, deposit)) == candidates,
        ids(migrated_seats(seats, deposit)) == ids(seats),
        forall|i: int|
            0 <= i < candidates.len() ==> (#[trigger] migrated_candidates(
                candidates,
                deposit,
            )[i]).1 == deposit,
        forall|i: int|
            0 <= i < seats.len() ==> {
                let seat = #[trigger] migrated_seats(seats, deposit)[i];
                seat.stake == seats[i].1 && seat.deposit == deposit
            },
{
    assert(ids(migrated_candidates(candidates, deposit)) =~= candidates);
    assert(ids(migrated_seats(seats, deposit)) =~= ids(seats));
}

/// Migrating voters keeps the votes and the stake of each, and records the deposit.
pub proof fn law_migration_keeps_votes(
    voting: Seq<(AccountId, VoterView)>,
    old: Seq<OldVoter>,
    deposit: Balance,
    i: int,
)
    requires
        0 <= i < old.len(),
        forall|j: int, k: int|
            0 <= j < k < old.len() ==> (#[trigger] old[j]).0 != (#[trigger] old[k]).0,
    ensures
        voter_of(with_migrated_voters(voting, old, deposit), old[i].0) == migrated_voter(
            old[i],
            deposit,
        ),
    decreases old.len(),
{
    let front = old.drop_last();
    let last = old.last();
    law_vote_recorded(
        with_migrated_voters(voting, front, deposit),
        last.0,
        migrated_voter(last, deposit),
        old[i].0,
    );
    if i < front.len() {
        assert forall|j: int, k: int| 0 <= j < k < front.len() implies (#[trigger] front[j]).0 != (
        #[trigger] front[k]).0 by {
            assert(old[j].0 != old[k].0);
        }
        law_migration_keeps_votes(voting, front, deposit, i);
        assert(front[i] == old[i]);
        assert(old[i].0 != old[old.len() - 1].0);
    }
}

} // verus!
