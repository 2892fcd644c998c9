//! Stability: without further input, whoever holds a seat keeps it.
//!
//! Members and runners-up are candidates of the next round, and votes persist. So the next round is
//! held among those who have just won, with the same votes, and has the same outcome: those who
//! lost are gone, and they do not matter.
//!
//! There are two exceptions. Where candidates are tied, the order in which they are listed decides,
//! and that order may change from one round to the next. And a winner whose votes are so light that
//! nothing of them is left after rounding loses the seat, although its election has weighed on its
//! voters. The laws leave both out.

use vstd::prelude::*;

use crate::arith::smaller;
use crate::bonds::{lemma_all_candidates_unique, lemma_deposit_taken_over, lemma_elected_deposits};
use crate::config::Trait;
use crate::election::{
    backed_winners, ballots, elected_state, election_actions, from_winner, lemma_backed_winners,
    losers, method_result, new_members, new_runners_up, prime_of, recorded_deposit, round_actions,
    slashes, state_after_round,
};
use crate::ids::{
    ids, lemma_same_ascending, lemma_sort_by_id, lemma_sort_by_id_strictly, without,
};
use crate::outcome::{
    holds_seat, lemma_elected_wf, lemma_seated_ids, lemma_split, lemma_stands, round_held,
    seats_to_fill, sound_election,
};
use crate::phragmen::{
    backed_once, phragmen_winners, voted_for, voted_winners, voted_winning_candidates, wins, Ballot,
};
use crate::state::State;
use crate::types::{AccountId, ActionView, Balance, ExtendedBalance, RawAction, RawEvent, Seat};

verus! {

/// Whether two lists name the same accounts, each of them once.
pub open spec fn same_accounts(a: Seq<AccountId>, b: Seq<AccountId>) -> bool {
    &&& a.no_duplicates()
    &&& b.no_duplicates()
    &&& forall|x: AccountId| #[trigger] a.contains(x) <==> b.contains(x)
}

/// Whether each winner for whom somebody votes has a backing.
pub open spec fn votes_count(
    voters: Seq<Ballot>,
    winners: Seq<(AccountId, ExtendedBalance)>,
) -> bool {
    forall|i: int|
        0 <= i < winners.len() && voted_for(voters, (#[trigger] winners[i]).0) ==> winners[i].1 > 0
}

/// Where a round has a stable outcome: no winner with votes is left without a backing, and the
/// order in which the winners are listed in the next round leads to the same result as the one in
/// which they are listed now.
pub open spec fn stable_round<T: Trait>(config: T, state: State, issuance: Balance) -> bool {
    let voters = ballots(config, state.voting, issuance);
    let winners = method_result(config, state, issuance).unwrap();
    &&& votes_count(voters, winners)
    &&& phragmen_winners(
        seats_to_fill(config),
        ids(state_after_round(config, state, issuance).all_candidates()),
        voters,
    ) == phragmen_winners(
        seats_to_fill(config),
        voted_winning_candidates(ids(state.all_candidates()), voters, winners),
        voters,
    )
}

/// The storage after a number of rounds.
pub open spec fn state_after_rounds<T: Trait>(
    config: T,
    state: State,
    issuance: Balance,
    n: nat,
) -> State
    decreases n,
{
    if n == 0 {
        state
    } else {
        let before = state_after_rounds(config, state, issuance, (n - 1) as nat);
        state_after_round(config, before, issuance)
    }
}

/// What has to be done after a round in which everybody is elected again: it is reported that
/// nobody joins or leaves, the prime is set, and the term is announced.
pub open spec fn quiet_actions(state: State) -> Seq<ActionView> {
    seq![
        RawAction::ChangeMembers(Seq::empty(), Seq::empty(), ids(state.members)),
        RawAction::SetPrime(prime_of(state.voting, ids(state.members))),
        RawAction::DepositEvent(
            RawEvent::NewTerm(state.members.map_values(|s: Seat| (s.who, s.stake))),
        ),
    ]
}

/// A part of a list without repetition is without repetition.
proof fn lemma_filter_unique(accounts: Seq<AccountId>, keep: spec_fn(AccountId) -> bool)
    requires
        accounts.no_duplicates(),
    ensures
        accounts.filter(keep).no_duplicates(),
        forall|a: AccountId| #[trigger]
            accounts.filter(keep).contains(a) <==> accounts.contains(a) && keep(a),
    decreases accounts.len(),
{
    let part = accounts.filter(keep);
    assert forall|a: AccountId| #[trigger] part.contains(a) <==> accounts.contains(a) && keep(
        a,
    ) by {
        if part.contains(a) {
            accounts.lemma_filter_contains_rev(keep, a);
            accounts.lemma_filter_pred(keep, part.index_of(a));
        }
        if accounts.contains(a) && keep(a) {
            accounts.lemma_filter_contains(keep, accounts.index_of(a));
        }
    }
    reveal(Seq::filter);
    if accounts.len() > 0 {
        let front = accounts.drop_last();
        lemma_filter_unique(front, keep);
        if keep(accounts.last()) {
            let before = front.filter(keep);
            assert(!before.contains(accounts.last())) by {
                if before.contains(accounts.last()) {
                    let i = front.index_of(accounts.last());
                    assert(accounts[i] == accounts[accounts.len() - 1]);
                }
            }
            assert forall|i: int, j: int| 0 <= i < j < part.len() implies part[i] != part[j] by {
                if j == before.len() {
                    assert(before.contains(before[i]));
                } else {
                    assert(before[i] != before[j]);
                }
            }
        }
    }
}

/// Nothing of a list is missing in it.
proof fn lemma_without_itself(accounts: Seq<AccountId>)
    ensures
        without(accounts, accounts) == Seq::<AccountId>::empty(),
{
    let missing = |a: AccountId| !accounts.contains(a);
    let none = without(accounts, accounts);
    if none.len() > 0 {
        accounts.lemma_filter_pred(missing, 0);
        assert(none.contains(none[0]));
        accounts.lemma_filter_contains_rev(missing, none[0]);
    }
    assert(none =~= Seq::empty());
}

/// Every winner with a backing is among the backed winners.
proof fn lemma_winner_backed<T: Trait>(
    config: T,
    winners: Seq<(AccountId, ExtendedBalance)>,
    issuance: Balance,
    i: int,
)
    requires
        0 <= i < winners.len(),
        winners[i].1 != 0,
    ensures
        ids(backed_winners(config, winners, issuance)).contains(winners[i].0),
{
    let keep = |w: (AccountId, ExtendedBalance)| w.1 != 0;
    let kept = winners.filter(keep);
    winners.lemma_filter_contains(keep, i);
    let k = kept.index_of(winners[i]);
    assert(ids(backed_winners(config, winners, issuance))[k] == winners[i].0);
}

/// Leaving out winners without votes leaves all who are backed.
proof fn lemma_voted_winners_backed<T: Trait>(
    config: T,
    voters: Seq<Ballot>,
    winners: Seq<(AccountId, ExtendedBalance)>,
    issuance: Balance,
)
    requires
        forall|i: int|
            0 <= i < winners.len() && (#[trigger] winners[i]).1 > 0 ==> voted_for(
                voters,
                winners[i].0,
            ),
    ensures
        backed_winners(config, voted_winners(voters, winners), issuance) == backed_winners(
            config,
            winners,
            issuance,
        ),
    decreases winners.len(),
{
    reveal(Seq::filter);
    if winners.len() > 0 {
        let front = winners.drop_last();
        let last = winners.last();
        assert(winners[winners.len() - 1] == last);
        assert forall|i: int| 0 <= i < front.len() && (#[trigger] front[i]).1
            > 0 implies voted_for(voters, front[i].0) by {
            assert(front[i] == winners[i]);
        }
        lemma_voted_winners_backed(config, voters, front, issuance);
        let keep = |w: (AccountId, ExtendedBalance)| w.1 != 0;
        let part = voted_winners(voters, winners);
        let before = voted_winners(voters, front);
        let convert = |w: (AccountId, ExtendedBalance)|
            (w.0, config.to_currency_spec(w.1, issuance));
        if voted_for(voters, last.0) {
            assert(part.drop_last() =~= before);
            assert(part.last() == last);
        } else {
            assert(part =~= before);
        }
        if last.1 != 0 {
            assert(part.filter(keep) =~= before.filter(keep).push(last));
            assert(winners.filter(keep) =~= front.filter(keep).push(last));
            assert(backed_winners(config, part, issuance) =~= backed_winners(
                config,
                before,
                issuance,
            ).push(convert(last)));
            assert(backed_winners(config, winners, issuance) =~= backed_winners(
                config,
                front,
                issuance,
            ).push(convert(last)));
        } else {
            assert(part.filter(keep) =~= before.filter(keep));
            assert(winners.filter(keep) =~= front.filter(keep));
        }
    }
}

/// The candidates of the next round are those winners of this one for whom somebody votes, each of
/// them once, if no votes are too light. Only the order in which they are listed may differ.
pub proof fn law_next_candidates<T: Trait>(config: T, state: State, issuance: Balance)
    requires
        state.wf(),
        round_held(config, state, issuance),
        sound_election(config, state, issuance),
        votes_count(
            ballots(config, state.voting, issuance),
            method_result(config, state, issuance).unwrap(),
        ),
    ensures
        same_accounts(
            ids(state_after_round(config, state, issuance).all_candidates()),
            voted_winning_candidates(
                ids(state.all_candidates()),
                ballots(config, state.voting, issuance),
                method_result(config, state, issuance).unwrap(),
            ),
        ),
{
    let voters = ballots(config, state.voting, issuance);
    let winners = method_result(config, state, issuance).unwrap();
    let all = ids(state.all_candidates());
    let after = state_after_round(config, state, issuance);
    let next = ids(after.all_candidates());
    let listed = voted_winning_candidates(all, voters, winners);
    let backed = backed_winners(config, winners, issuance);
    let members = ids(new_members(config, backed));
    let runners_up = ids(new_runners_up(config, backed));

    lemma_all_candidates_unique(state);
    lemma_filter_unique(all, |c: AccountId| voted_for(voters, c) && wins(winners, c));
    lemma_elected_wf(config, state, winners, issuance);
    lemma_all_candidates_unique(after);
    lemma_backed_winners(config, winners, issuance);
    lemma_split(config, backed);
    lemma_elected_deposits(config, state, winners, issuance);
    assert forall|a: AccountId| #[trigger] next.contains(a) <==> ids(backed).contains(a) by {
        if next.contains(a) {
            let i = next.index_of(a);
            if i < members.len() {
                assert(members[i] == a);
            } else {
                assert(runners_up[i - members.len()] == a);
            }
        }
        if members.contains(a) {
            assert(next[members.index_of(a)] == a);
        }
        if runners_up.contains(a) {
            assert(next[members.len() + runners_up.index_of(a)] == a);
        }
    }
    assert forall|a: AccountId| #[trigger] next.contains(a) <==> listed.contains(a) by {
        if ids(backed).contains(a) {
            let k = ids(backed).index_of(a);
            assert(from_winner(config, winners, issuance, backed[k]));
            let i = choose|i: int|
                0 <= i < winners.len() && (#[trigger] winners[i]).1 != 0 && backed[k] == (
                    winners[i].0,
                    config.to_currency_spec(winners[i].1, issuance),
                );
            assert(winners[i].0 == a);
            assert(all.contains(winners[i].0));
            assert(voted_for(voters, winners[i].0));
            assert(wins(winners, a));
        }
        if listed.contains(a) {
            let i = choose|i: int| 0 <= i < winners.len() && (#[trigger] winners[i]).0 == a;
            assert(voted_for(voters, winners[i].0));
            lemma_winner_backed(config, winners, issuance, i);
        }
    }
}

/// Stability: the round after a round among the same voters has the same outcome, unless votes are
/// too light or the new order of the candidates breaks a tie in another way. All members and
/// runners-up keep their seats, with the same backing and the same deposits; nobody joins, leaves
/// or is slashed; and the prime stays.
pub proof fn law_stable<T: Trait>(config: T, state: State, issuance: Balance)
    requires
        state.wf(),
        round_held(config, state, issuance),
        sound_election(config, state, issuance),
        stable_round(config, state, issuance),
    ensures
        ({
            let after = state_after_round(config, state, issuance);
            let again = state_after_round(config, after, issuance);
            &&& again.members == after.members
            &&& again.runners_up == after.runners_up
            &&& again.candidates == after.candidates
            &&& again.voting == after.voting
            &&& after.all_candidates().len() > 0 ==> {
                &&& round_held(config, after, issuance)
                &&& round_actions(config, after, issuance) == quiet_actions(after)
            }
        }),
{
    let voters = ballots(config, state.voting, issuance);
    let winners = method_result(config, state, issuance).unwrap();
    let after = state_after_round(config, state, issuance);
    lemma_all_candidates_unique(state);
    if after.all_candidates().len() > 0 {
        let winners_again = voted_winners(voters, winners);
        assert(method_result(config, after, issuance) == Some(winners_again));
        lemma_voted_winners_backed(config, voters, winners, issuance);
        law_reelected(config, state, winners, issuance, winners_again, issuance);
    }
}

/// Whatever the order of the candidates, the votes and the total issuance: where the same accounts
/// are backed in the same order and with the same amounts as in the election before, everybody is
/// elected again. All seats stay as they are, with their backing and their deposits; nobody joins,
/// leaves or is slashed; and the prime stays.
pub proof fn law_reelected<T: Trait>(
    config: T,
    state: State,
    winners: Seq<(AccountId, ExtendedBalance)>,
    issuance: Balance,
    winners_again: Seq<(AccountId, ExtendedBalance)>,
    issuance_again: Balance,
)
    requires
        backed_winners(config, winners_again, issuance_again) == backed_winners(
            config,
            winners,
            issuance,
        ),
    ensures
        ({
            let after = elected_state(config, state, winners, issuance);
            let again = elected_state(config, after, winners_again, issuance_again);
            &&& again.members == after.members
            &&& again.runners_up == after.runners_up
            &&& election_actions(config, after, winners_again, issuance_again) == quiet_actions(
                after,
            )
        }),
{
    let backed = backed_winners(config, winners, issuance);
    let after = elected_state(config, state, winners, issuance);
    let again = elected_state(config, after, winners_again, issuance_again);
    let all = state.all_candidates();
    let next = after.all_candidates();
    let members = new_members(config, backed);
    let runners_up = new_runners_up(config, backed);
    lemma_elected_deposits(config, state, winners, issuance);
    lemma_seated_ids(all, members);
    lemma_seated_ids(all, runners_up);
    assert forall|i: int| 0 <= i < members.len() implies recorded_deposit(
        next,
        (#[trigger] members[i]).0,
    ) == recorded_deposit(all, members[i].0) by {
        assert(ids(next)[i] == members[i].0);
        lemma_deposit_taken_over(all, next, members[i].0);
    }
    assert forall|i: int| 0 <= i < runners_up.len() implies recorded_deposit(
        next,
        (#[trigger] runners_up[i]).0,
    ) == recorded_deposit(all, runners_up[i].0) by {
        assert(ids(next)[members.len() + i] == runners_up[i].0);
        lemma_deposit_taken_over(all, next, runners_up[i].0);
    }
    assert(again.members =~= after.members);
    assert(again.runners_up =~= after.runners_up);

    let lost = |c: (AccountId, Balance)|
        !ids(members).contains(c.0) && !ids(runners_up).contains(c.0);
    let losing = losers(next, ids(members), ids(runners_up));
    if losing.len() > 0 {
        next.lemma_filter_pred(lost, 0);
        assert(losing.contains(losing[0]));
        next.lemma_filter_contains_rev(lost, losing[0]);
        let k = next.index_of(losing[0]);
        assert(ids(next)[k] == losing[0].0);
        if k < members.len() {
            assert(ids(members)[k] == losing[0].0);
        } else {
            assert(ids(runners_up)[k - members.len()] == losing[0].0);
        }
    }
    lemma_without_itself(ids(members));
    assert(slashes(losing) =~= Seq::empty());
    assert(after.members.map_values(|s: Seat| (s.who, s.stake)) =~= members);
    assert(election_actions(config, after, winners_again, issuance_again) =~= quiet_actions(after));
}

/// The accounts of the best of the backed winners, as many as there are seats for members, from the
/// best.
pub open spec fn best_accounts<T: Trait>(config: T, backed: Seq<(AccountId, Balance)>) -> Seq<
    AccountId,
> {
    ids(backed.take(smaller(config.desired_members_spec() as int, backed.len() as int)))
}

/// The members stay, whatever becomes of the runners-up: where the best of the backed winners are
/// the same accounts as in the election before, in whatever order and with whatever backing, the
/// members are the same, nobody is reported to join or to leave, and the prime stays.
#[verifier::rlimit(40)]
pub proof fn law_members_stay<T: Trait>(
    config: T,
    state: State,
    winners: Seq<(AccountId, ExtendedBalance)>,
    issuance: Balance,
    winners_again: Seq<(AccountId, ExtendedBalance)>,
    issuance_again: Balance,
)
    requires
        same_accounts(
            best_accounts(config, backed_winners(config, winners_again, issuance_again)),
            best_accounts(config, backed_winners(config, winners, issuance)),
        ),
    ensures
        ({
            let after = elected_state(config, state, winners, issuance);
            let again = elected_state(config, after, winners_again, issuance_again);
            let actions = election_actions(config, after, winners_again, issuance_again);
            &&& ids(again.members) == ids(after.members)
            &&& actions.take(2) == quiet_actions(after).take(2)
        }),
{
    let after = elected_state(config, state, winners, issuance);
    let again = elected_state(config, after, winners_again, issuance_again);
    let backed = backed_winners(config, winners, issuance);
    let backed_again = backed_winners(config, winners_again, issuance_again);
    let desired = config.desired_members_spec() as int;
    let best = backed.take(smaller(desired, backed.len() as int));
    let best_again = backed_again.take(smaller(desired, backed_again.len() as int));
    let members = new_members(config, backed);
    let members_again = new_members(config, backed_again);
    lemma_sort_by_id(best);
    lemma_sort_by_id(best_again);
    lemma_sort_by_id_strictly(best);
    lemma_sort_by_id_strictly(best_again);
    assert forall|a: AccountId| #[trigger] ids(members_again).contains(a) <==> ids(
        members,
    ).contains(a) by {
        assert(ids(best_again).contains(a) <==> ids(best).contains(a));
    }
    lemma_same_ascending(ids(members_again), ids(members));
    lemma_seated_ids(state.all_candidates(), members);
    lemma_seated_ids(after.all_candidates(), members_again);
    lemma_without_itself(ids(members));
    let actions = election_actions(config, after, winners_again, issuance_again);
    assert(actions.take(2) =~= quiet_actions(after).take(2));
}

/// Stability, round after round: as long as nobody adds or withdraws a candidacy or a vote, the
/// members and the runners-up of a round are elected again at the end of each further round, unless
/// votes are too light or the new order of the candidates breaks a tie in another way.
pub proof fn law_stable_forever<T: Trait>(config: T, state: State, issuance: Balance, n: nat)
    requires
        state.wf(),
        round_held(config, state, issuance),
        sound_election(config, state, issuance),
        stable_round(config, state, issuance),
        n >= 1,
    ensures
        ({
            let first = state_after_rounds(config, state, issuance, 1);
            let later = state_after_rounds(config, state, issuance, n);
            &&& later.members == first.members
            &&& later.runners_up == first.runners_up
            &&& later.candidates == first.candidates
            &&& later.voting == first.voting
        }),
    decreases n,
{
    let after = state_after_round(config, state, issuance);
    reveal_with_fuel(state_after_rounds, 3);
    assert(state_after_rounds(config, state, issuance, 1) == after);
    if n >= 2 {
        law_stable_forever(config, state, issuance, (n - 1) as nat);
        law_stable(config, state, issuance);
        let before = state_after_rounds(config, state, issuance, (n - 1) as nat);
        assert(before.all_candidates() == after.all_candidates());
        let again = state_after_round(config, after, issuance);
        let later = state_after_round(config, before, issuance);
        assert(method_result(config, before, issuance) == method_result(config, after, issuance));
        assert(later.members == again.members);
        assert(later.runners_up == again.runners_up);
    }
}

/// As many different accounts as a list has, all from the list, are all of the list.
proof fn lemma_all_named(named: Seq<AccountId>, listed: Seq<AccountId>)
    requires
        named.no_duplicates(),
        listed.no_duplicates(),
        named.len() == listed.len(),
        forall|i: int| 0 <= i < named.len() ==> listed.contains(#[trigger] named[i]),
    ensures
        forall|a: AccountId| #[trigger] listed.contains(a) ==> named.contains(a),
{
    named.unique_seq_to_set();
    listed.unique_seq_to_set();
    assert forall|a: AccountId| named.to_set().contains(a) implies listed.to_set().contains(a) by {
        let i = named.index_of(a);
        assert(listed.contains(named[i]));
    }
    vstd::set_lib::lemma_subset_equality(named.to_set(), listed.to_set());
    assert forall|a: AccountId| #[trigger] listed.contains(a) implies named.contains(a) by {
        assert(listed.to_set().contains(a));
        assert(named.to_set().contains(a));
    }
}

/// Even where ties decide, nobody who holds a seat is left without one in the next round, if that
/// takes place and no votes are too light in it: members and runners-up together stay the same.
/// Where there are no runners-up, the members stay the same, and nobody is reported to join or to
/// leave.
#[verifier::rlimit(40)]
pub proof fn law_seat_holders_stay<T: Trait>(config: T, state: State, issuance: Balance)
    requires
        state.wf(),
        round_held(config, state, issuance),
        sound_election(config, state, issuance),
        votes_count(
            ballots(config, state.voting, issuance),
            method_result(config, state, issuance).unwrap(),
        ),
        ({
            let after = state_after_round(config, state, issuance);
            after.all_candidates().len() > 0 ==> {
                &&& round_held(config, after, issuance)
                &&& sound_election(config, after, issuance)
                &&& votes_count(
                    ballots(config, after.voting, issuance),
                    method_result(config, after, issuance).unwrap(),
                )
            }
        }),
    ensures
        ({
            let after = state_after_round(config, state, issuance);
            let again = state_after_round(config, after, issuance);
            &&& forall|a: AccountId| #[trigger] holds_seat(again, a) <==> holds_seat(after, a)
            &&& after.runners_up.len() == 0 ==> {
                &&& again.runners_up.len() == 0
                &&& ids(again.members) == ids(after.members)
                &&& after.all_candidates().len() > 0 ==> round_actions(
                    config,
                    after,
                    issuance,
                ).take(2) == quiet_actions(after).take(2)
            }
        }),
{
    let voters = ballots(config, state.voting, issuance);
    let winners = method_result(config, state, issuance).unwrap();
    let after = state_after_round(config, state, issuance);
    let again = state_after_round(config, after, issuance);
    let backed = backed_winners(config, winners, issuance);
    let next = ids(after.all_candidates());
    law_next_candidates(config, state, issuance);
    lemma_backed_winners(config, winners, issuance);
    lemma_split(config, backed);
    lemma_elected_deposits(config, state, winners, issuance);
    if after.all_candidates().len() > 0 {
        let winners_again = method_result(config, after, issuance).unwrap();
        let backed_again = backed_winners(config, winners_again, issuance);
        let named = winners_again.map_values(|w: (AccountId, ExtendedBalance)| w.0);
        lemma_backed_winners(config, winners_again, issuance);
        lemma_split(config, backed_again);
        lemma_elected_deposits(config, after, winners_again, issuance);
        assert(named.len() == next.len());
        let listed = voted_winning_candidates(ids(state.all_candidates()), voters, winners);
        let pick = |c: AccountId| voted_for(voters, c) && wins(winners, c);
        assert forall|i: int| 0 <= i < named.len() implies next.contains(#[trigger] named[i])
            && winners_again[i].1 > 0 by {
            assert(next.contains(winners_again[i].0));
            assert(listed.contains(named[i]));
            ids(state.all_candidates()).lemma_filter_pred(pick, listed.index_of(named[i]));
            assert(voted_for(voters, winners_again[i].0));
        }
        assert forall|i: int, j: int| 0 <= i < j < named.len() implies named[i] != named[j] by {
            assert(next.contains(named[i]) && next.contains(named[j]));
            if winners_again[i].0 == winners_again[j].0 {
                assert(winners_again[i].1 == 0 || winners_again[j].1 == 0);
            }
        }
        lemma_all_named(named, next);
        assert forall|a: AccountId| #[trigger] next.contains(a) <==> ids(backed_again).contains(
            a,
        ) by {
            if next.contains(a) {
                let i = named.index_of(a);
                assert(winners_again[i].1 > 0) by {
                    assert(next.contains(named[i]));
                }
                lemma_winner_backed(config, winners_again, issuance, i);
            }
            if ids(backed_again).contains(a) {
                let k = ids(backed_again).index_of(a);
                assert(from_winner(config, winners_again, issuance, backed_again[k]));
                let i = choose|i: int|
                    0 <= i < winners_again.len() && (#[trigger] winners_again[i]).1 != 0
                        && backed_again[k] == (
                        winners_again[i].0,
                        config.to_currency_spec(winners_again[i].1, issuance),
                    );
                assert(next.contains(named[i]));
            }
        }
        lemma_seat_holders(config, state, winners, issuance);
        lemma_seat_holders(config, after, winners_again, issuance);
        assert forall|a: AccountId| #[trigger] holds_seat(again, a) <==> holds_seat(after, a) by {
            assert(ids(backed_again).contains(a) <==> next.contains(a));
        }
        if after.runners_up.len() == 0 {
            assert(backed_again.len() <= winners_again.len() == next.len() == backed.len());
            assert(again.runners_up.len() == 0);
            assert forall|a: AccountId| #[trigger] ids(again.members).contains(a) <==> ids(
                after.members,
            ).contains(a) by {
                assert(holds_seat(again, a) <==> holds_seat(after, a));
                assert(ids(again.runners_up).len() == 0 && ids(after.runners_up).len() == 0);
            }
            lemma_elected_wf(config, state, winners, issuance);
            lemma_elected_wf(config, after, winners_again, issuance);
            lemma_same_ascending(ids(again.members), ids(after.members));
            lemma_seated_ids(after.all_candidates(), new_members(config, backed_again));
            lemma_without_itself(ids(after.members));
            assert(round_actions(config, after, issuance).take(2) =~= quiet_actions(after).take(2));
        }
    }
}

/// After an election those hold a seat who are backed.
proof fn lemma_seat_holders<T: Trait>(
    config: T,
    state: State,
    winners: Seq<(AccountId, ExtendedBalance)>,
    issuance: Balance,
)
    requires
        backed_once(winners),
    ensures
        ({
            let after = elected_state(config, state, winners, issuance);
            let backed = ids(backed_winners(config, winners, issuance));
            &&& forall|a: AccountId| #[trigger] holds_seat(after, a) <==> backed.contains(a)
            &&& forall|a: AccountId| #[trigger]
                ids(after.all_candidates()).contains(a) <==> backed.contains(a)
            &&& after.members.len() + after.runners_up.len() == backed.len()
            &&& after.runners_up.len() == 0 <==> backed.len() <= config.desired_members_spec()
        }),
{
    let after = elected_state(config, state, winners, issuance);
    let backed = backed_winners(config, winners, issuance);
    lemma_backed_winners(config, winners, issuance);
    lemma_split(config, backed);
    lemma_seated_ids(state.all_candidates(), new_members(config, backed));
    lemma_seated_ids(state.all_candidates(), new_runners_up(config, backed));
    assert forall|a: AccountId| #[trigger] holds_seat(after, a) <==> ids(backed).contains(a) by {}
    assert forall|a: AccountId| #[trigger] ids(after.all_candidates()).contains(a) <==> ids(
        backed,
    ).contains(a) by {
        lemma_stands(after, a);
        assert(after.stands(a) <==> holds_seat(after, a));
    }
}

} // verus!
