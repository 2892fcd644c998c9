//! What elections do, in terms of what goes in and what comes out.

use vstd::prelude::*;

use crate::config::Trait;
use crate::election::{
    backed_winners, ballots, borda_count, borda_counts, elect_prime, elected_state,
    election_actions, election_due, lemma_new_members_ascending, losers, method_result, new_members,
    new_runners_up, prime_of, recorded_deposit, round_actions, round_weight, slashes,
    state_after_round, vote_count,
};
use crate::ids::{ids, lemma_sort_by_id, strictly_ascending};
use crate::laws::{law_prime, lemma_without_ascending};
use crate::laws::plain::{
    accounts_in_order, capped, held_by, lemma_actions, lemma_filter_picks, lemma_held_by,
    lemma_picks_same, lemma_same_module, lemma_same_voters, lemma_standing, named, nominated,
    number_standing, picks, same_module, same_voters, seats_in_order, standing,
};
use crate::outcome::{lemma_seated_ids, round_held, sound_election};
use crate::phragmen::{backed_once, phragmen_winners, Ballot};
use crate::state::{voting_view, Module};
use crate::types::{
    actions_view, AccountId, Action, Balance, BlockNumber, ExtendedBalance, RawAction, RawEvent,
    Seat, SlashHandler, Voter, VoterView, Weight, MAXIMUM_VOTE,
};

verus! {

/// The points of an account in a list of votes: what the first place is worth if it is named there,
/// one less for each place further down, and nothing if it is not named.
pub open spec fn points(votes: Seq<AccountId>, who: AccountId, worth: int) -> int
    decreases votes.len(),
{
    if votes.len() == 0 {
        0
    } else if votes[0] == who {
        worth
    } else {
        points(votes.drop_first(), who, worth - 1)
    }
}

/// The support of an account: the sum, over all voters, of the stake times the points, of which the
/// first place is worth sixteen.
pub open spec fn support(
    voting: Seq<(AccountId, Voter<AccountId, Balance>)>,
    who: AccountId,
) -> int {
    voting.fold_left(
        0int,
        |sum: int, v: (AccountId, Voter<AccountId, Balance>)|
            sum + v.1.stake * points(v.1.votes@, who, 16),
    )
}

/// The number of votes of all voters together.
pub open spec fn votes_cast(voting: Seq<(AccountId, Voter<AccountId, Balance>)>) -> int {
    voting.fold_left(
        0int,
        |sum: int, v: (AccountId, Voter<AccountId, Balance>)| sum + v.1.votes@.len(),
    )
}

/// No voter has more than sixteen votes.
pub open spec fn votes_in_bounds(voting: Seq<(AccountId, Voter<AccountId, Balance>)>) -> bool {
    forall|v: int| 0 <= v < voting.len() ==> (#[trigger] voting[v]).1.votes@.len() <= 16
}

/// Whether the prime is right: there is none exactly if there are no members. It is a member, no
/// member has more support, as far as balances go, and those with as much have a lower account.
pub open spec fn prime_is_right(
    voting: Seq<(AccountId, Voter<AccountId, Balance>)>,
    members: Seq<AccountId>,
    prime: Option<AccountId>,
) -> bool {
    &&& prime is None <==> members.len() == 0
    &&& prime matches Some(p) ==> {
        &&& named(members, p)
        &&& forall|i: int|
            0 <= i < members.len() ==> {
                let other = capped(support(voting, #[trigger] members[i]));
                let best = capped(support(voting, p));
                other < best || other == best && members[i] <= p
            }
    }
}

proof fn lemma_points(votes: Seq<AccountId>, who: AccountId, worth: int)
    ensures
        points(votes, who, worth) == match votes.index_of_first(who) {
            Some(place) => worth - place,
            None => 0,
        },
        votes.index_of_first(who) is Some <==> votes.contains(who),
    decreases votes.len(),
{
    votes.index_of_first_ensures(who);
    if votes.len() > 0 {
        let rest = votes.drop_first();
        rest.index_of_first_ensures(who);
        if votes[0] == who {
            assert(votes.contains(who));
            let place = votes.index_of_first(who).unwrap();
            if place > 0 {
                assert(votes[0] != who);
            }
        } else {
            lemma_points(rest, who, worth - 1);
            if votes.contains(who) {
                let place = votes.index_of_first(who).unwrap();
                assert(rest[place - 1] == who);
                assert(rest.contains(who));
                let other = rest.index_of_first(who).unwrap();
                assert(votes[other + 1] == who);
                assert(place == other + 1) by {
                    if place < other + 1 {
                        assert(rest[place - 1] != who);
                    }
                }
            } else if rest.contains(who) {
                let i = rest.index_of(who);
                assert(votes[i + 1] == who);
            }
        }
    }
}

/// What one more voter adds to the count of an account, however many there are: its stake times the
/// points that its votes give, and the count without voters is nothing.
pub proof fn law_one_more_voter(
    voting: Seq<(AccountId, VoterView)>,
    account: AccountId,
    voter: VoterView,
    who: AccountId,
)
    ensures
        borda_count(Seq::empty(), who) == 0,
        borda_count(voting.push((account, voter)), who) == borda_count(voting, who) + voter.stake
            * points(voter.votes, who, 16),
{
    let after = voting.push((account, voter));
    assert(after.drop_last() =~= voting);
    lemma_points(voter.votes, who, 16);
}

/// The count over two lists of voters is the sum of the counts over each of them, so it does not
/// depend on the order of the voters.
pub proof fn law_count_adds_up(
    voting: Seq<(AccountId, VoterView)>,
    more: Seq<(AccountId, VoterView)>,
    who: AccountId,
)
    ensures
        borda_count(voting + more, who) == borda_count(voting, who) + borda_count(more, who),
        borda_count(voting + more, who) == borda_count(more + voting, who),
    decreases more.len(),
{
    lemma_count_adds_up(voting, more, who);
    lemma_count_adds_up(more, voting, who);
}

proof fn lemma_count_adds_up(
    voting: Seq<(AccountId, VoterView)>,
    more: Seq<(AccountId, VoterView)>,
    who: AccountId,
)
    ensures
        borda_count(voting + more, who) == borda_count(voting, who) + borda_count(more, who),
    decreases more.len(),
{
    if more.len() == 0 {
        assert(voting + more =~= voting);
    } else {
        lemma_count_adds_up(voting, more.drop_last(), who);
        assert((voting + more).drop_last() =~= voting + more.drop_last());
    }
}

proof fn lemma_support(voting: Seq<(AccountId, Voter<AccountId, Balance>)>, who: AccountId)
    ensures
        borda_count(voting_view(voting), who) == support(voting, who),
    decreases voting.len(),
{
    reveal_with_fuel(Seq::fold_left, 2);
    if voting.len() > 0 {
        lemma_support(voting.drop_last(), who);
        assert(voting_view(voting).drop_last() =~= voting_view(voting.drop_last()));
        lemma_points(voting.last().1.votes@, who, 16);
    }
}

proof fn lemma_votes_cast(voting: Seq<(AccountId, Voter<AccountId, Balance>)>)
    ensures
        vote_count(voting_view(voting)) == votes_cast(voting),
        votes_cast(voting) >= 0,
    decreases voting.len(),
{
    reveal_with_fuel(Seq::fold_left, 2);
    if voting.len() > 0 {
        lemma_votes_cast(voting.drop_last());
        assert(voting_view(voting).drop_last() =~= voting_view(voting.drop_last()));
    }
}

proof fn lemma_prime_is_right(
    voting: Seq<(AccountId, Voter<AccountId, Balance>)>,
    members: Seq<AccountId>,
)
    requires
        votes_in_bounds(voting),
        accounts_in_order(members),
    ensures
        prime_is_right(voting, members, prime_of(voting_view(voting), members)),
{
    let view = voting_view(voting);
    assert forall|v: int| 0 <= v < view.len() implies (#[trigger] view[v]).1.votes.len()
        <= MAXIMUM_VOTE by {
        assert(view[v] == (voting[v].0, voting[v].1@));
    }
    law_prime(view, members);
    let prime = prime_of(view, members);
    if prime is Some {
        let p = prime.unwrap();
        lemma_support(voting, p);
        assert forall|i: int| 0 <= i < members.len() implies {
            let other = capped(support(voting, #[trigger] members[i]));
            let best = capped(support(voting, p));
            other < best || other == best && members[i] <= p
        } by {
            lemma_support(voting, members[i]);
            assert(members.contains(members[i]));
        }
    }
}

/// The prime that is elected is the member with the most support of all voters, and among several
/// the one with the highest account.
pub proof fn law_prime_elected(
    voting: &Vec<(AccountId, Voter<AccountId, Balance>)>,
    members: &Vec<AccountId>,
    prime: Option<AccountId>,
)
    requires
        call_ensures(elect_prime, (voting, members), prime),
        votes_in_bounds(voting@),
        accounts_in_order(members@),
    ensures
        call_requires(elect_prime, (voting, members)),
        prime_is_right(voting@, members@, prime),
{
    lemma_prime_is_right(voting@, members@);
    assert forall|v: int| 0 <= v < voting@.len() implies (#[trigger] voting_view(
        voting@,
    )[v]).1.votes.len() <= MAXIMUM_VOTE by {
        assert(voting@[v].1.votes@.len() <= 16);
    }
}

/// Whoever comes first among the voters, the prime is the same.
pub proof fn law_prime_whatever_order(
    voting: &Vec<(AccountId, Voter<AccountId, Balance>)>,
    other: &Vec<(AccountId, Voter<AccountId, Balance>)>,
    members: &Vec<AccountId>,
    prime: Option<AccountId>,
    other_prime: Option<AccountId>,
    at: int,
)
    requires
        call_ensures(elect_prime, (voting, members), prime),
        call_ensures(elect_prime, (other, members), other_prime),
        0 <= at <= voting@.len(),
        other@ == voting@.skip(at) + voting@.take(at),
    ensures
        prime == other_prime,
{
    let first = voting_view(voting@.take(at));
    let second = voting_view(voting@.skip(at));
    assert(voting_view(voting@) =~= first + second);
    assert(voting_view(other@) =~= second + first);
    let counts = borda_counts(voting_view(voting@), members@);
    let other_counts = borda_counts(voting_view(other@), members@);
    assert forall|i: int| 0 <= i < members@.len() implies counts[i] == other_counts[i] by {
        law_count_adds_up(first, second, members@[i]);
    }
    assert(counts =~= other_counts);
}

/// Whether a deposit is the one recorded of an account: that of its first entry, or none if it has
/// no entry.
pub open spec fn deposit_recorded(
    entries: Seq<(AccountId, Balance)>,
    who: AccountId,
    deposit: Balance,
) -> bool {
    if nominated(entries, who) {
        exists|i: int|
            0 <= i < entries.len() && #[trigger] entries[i] == (who, deposit) && forall|j: int|
                0 <= j < i ==> (#[trigger] entries[j]).0 != who
    } else {
        deposit == 0
    }
}

proof fn lemma_deposit_recorded(entries: Seq<(AccountId, Balance)>, who: AccountId)
    ensures
        deposit_recorded(entries, who, recorded_deposit(entries, who)),
    decreases entries.len(),
{
    if entries.len() > 0 {
        if entries[0].0 == who {
            assert(entries[0] == (who, recorded_deposit(entries, who)));
            assert(nominated(entries, who));
        } else {
            let rest = entries.drop_first();
            let deposit = recorded_deposit(rest, who);
            lemma_deposit_recorded(rest, who);
            if nominated(rest, who) {
                let i = choose|i: int|
                    0 <= i < rest.len() && #[trigger] rest[i] == (who, deposit) && forall|j: int|
                        0 <= j < i ==> (#[trigger] rest[j]).0 != who;
                assert(entries[i + 1] == (who, deposit));
                assert forall|j: int| 0 <= j < i + 1 implies (#[trigger] entries[j]).0 != who by {
                    if j > 0 {
                        assert(rest[j - 1].0 != who);
                    }
                }
            } else {
                assert(!nominated(entries, who)) by {
                    if nominated(entries, who) {
                        let i = choose|i: int|
                            0 <= i < entries.len() && (#[trigger] entries[i]).0 == who;
                        assert(rest[i - 1].0 == who);
                    }
                }
            }
        }
    }
}

/// Whether a seat is what a winner gets: its account, its backing in currency, and the deposit that
/// it had when it stood.
pub open spec fn seat_won<T: Trait>(
    before: Module<T>,
    seat: Seat,
    winner: (AccountId, ExtendedBalance),
    issuance: Balance,
) -> bool {
    &&& seat.who == winner.0
    &&& seat.stake == before.config.to_currency_spec(winner.1, issuance)
    &&& deposit_recorded(standing(before), seat.who, seat.deposit)
}

/// Whether one of the seats is what a winner gets.
pub open spec fn seated_winner<T: Trait>(
    before: Module<T>,
    seats: Seq<Seat>,
    winner: (AccountId, ExtendedBalance),
    issuance: Balance,
) -> bool {
    exists|m: int|
        0 <= m < seats.len() && seat_won(before, #[trigger] seats[m], winner, issuance)
}

/// Whether a seat is what one of the picked winners gets.
pub open spec fn winner_seated<T: Trait>(
    before: Module<T>,
    seat: Seat,
    winners: Seq<(AccountId, ExtendedBalance)>,
    picked: Seq<int>,
    issuance: Balance,
) -> bool {
    exists|k: int|
        0 <= k < picked.len() && seat_won(before, seat, winners[#[trigger] picked[k]], issuance)
}

/// Whether the seats are given to the winners with a backing, which `won` picks. The best of them,
/// as many as there are to be members, are the members, in the order of their accounts. The others
/// are the runners-up, from the worst to the best. Nobody stands as a candidate any more, one more
/// round has happened, and the voters stay.
pub open spec fn seats_given<T: Trait>(
    before: Module<T>,
    after: Module<T>,
    winners: Seq<(AccountId, ExtendedBalance)>,
    issuance: Balance,
    won: Seq<int>,
) -> bool {
    let desired = before.config.desired_members_spec() as int;
    let n = won.len() as int;
    let seats = if desired <= n {
        desired
    } else {
        n
    };
    &&& picks(won, winners.len() as int, |i: int| winners[i].1 != 0)
    &&& after.members@.len() == seats
    &&& seats_in_order(after.members@)
    &&& forall|k: int|
        0 <= k < seats ==> seated_winner(
            before,
            after.members@,
            winners[#[trigger] won[k]],
            issuance,
        )
    &&& forall|m: int|
        0 <= m < after.members@.len() ==> winner_seated(
            before,
            #[trigger] after.members@[m],
            winners,
            won.take(seats),
            issuance,
        )
    &&& after.runners_up@.len() == n - seats
    &&& forall|i: int|
        0 <= i < after.runners_up@.len() ==> seat_won(
            before,
            #[trigger] after.runners_up@[i],
            winners[won[n - 1 - i]],
            issuance,
        )
    &&& after.candidates@.len() == 0
    &&& after.election_rounds == before.election_rounds + 1
    &&& after.config == before.config
    &&& after.storage_version == before.storage_version
    &&& same_voters(after.voting@, before.voting@)
}

/// Whether the outcome is announced: first who joins, who leaves and who the members are now; then
/// the prime; then, for each of those who stood and hold no seat, which `lost` picks, that the
/// deposit is slashed; and last of all the new term.
pub open spec fn outcome_announced<T: Trait>(
    before: Module<T>,
    after: Module<T>,
    actions: Seq<Action>,
    lost: Seq<int>,
) -> bool {
    let all = standing(before);
    &&& picks(
        lost,
        all.len() as int,
        |i: int| !held_by(after.members@, all[i].0) && !held_by(after.runners_up@, all[i].0),
    )
    &&& actions.len() == 3 + 2 * lost.len()
    &&& actions[0] matches RawAction::ChangeMembers(incoming, outgoing, new) && {
        &&& accounts_in_order(incoming@)
        &&& accounts_in_order(outgoing@)
        &&& forall|a: AccountId| #[trigger]
            named(incoming@, a) <==> held_by(after.members@, a) && !held_by(before.members@, a)
        &&& forall|a: AccountId| #[trigger]
            named(outgoing@, a) <==> held_by(before.members@, a) && !held_by(after.members@, a)
        &&& new@.len() == after.members@.len()
        &&& forall|i: int| 0 <= i < new@.len() ==> #[trigger] new@[i] == after.members@[i].who
        &&& actions[1] matches RawAction::SetPrime(prime) && prime_is_right(
            before.voting@,
            new@,
            prime,
        )
    }
    &&& forall|k: int|
        0 <= k < lost.len() ==> {
            let (who, deposit) = all[#[trigger] lost[k]];
            &&& actions[2 + 2 * k] == RawAction::<
                Vec<AccountId>,
                Vec<(AccountId, Balance)>,
            >::SlashReserved(who, deposit, SlashHandler::LoserCandidate)
            &&& actions[3 + 2 * k] == RawAction::<
                Vec<AccountId>,
                Vec<(AccountId, Balance)>,
            >::DepositEvent(RawEvent::CandidateSlashed(who, deposit))
        }
    &&& actions.last() matches RawAction::DepositEvent(RawEvent::NewTerm(members)) && {
        &&& members@.len() == after.members@.len()
        &&& forall|i: int|
            0 <= i < members@.len() ==> #[trigger] members@[i] == (
                after.members@[i].who,
                after.members@[i].stake,
            )
    }
}

/// No account wins twice with a backing.
pub open spec fn wins_once(winners: Seq<(AccountId, ExtendedBalance)>) -> bool {
    forall|i: int, j: int|
        0 <= i < j < winners.len() && (#[trigger] winners[i]).0 == (#[trigger] winners[j]).0
            ==> winners[i].1 == 0 || winners[j].1 == 0
}

proof fn lemma_slash_pairs(losing: Seq<(AccountId, Balance)>)
    ensures
        slashes(losing).len() == 2 * losing.len(),
        forall|k: int|
            0 <= k < losing.len() ==> {
                &&& slashes(losing)[2 * k] == RawAction::<
                    Seq<AccountId>,
                    Seq<(AccountId, Balance)>,
                >::SlashReserved(
                    (#[trigger] losing[k]).0,
                    losing[k].1,
                    SlashHandler::LoserCandidate,
                )
                &&& slashes(losing)[2 * k + 1] == RawAction::<
                    Seq<AccountId>,
                    Seq<(AccountId, Balance)>,
                >::DepositEvent(RawEvent::CandidateSlashed(losing[k].0, losing[k].1))
            },
    decreases losing.len(),
{
    if losing.len() > 0 {
        let front = losing.drop_last();
        lemma_slash_pairs(front);
        assert forall|k: int| 0 <= k < losing.len() implies {
            &&& slashes(losing)[2 * k] == RawAction::<
                Seq<AccountId>,
                Seq<(AccountId, Balance)>,
            >::SlashReserved(
                (#[trigger] losing[k]).0,
                losing[k].1,
                SlashHandler::LoserCandidate,
            )
            &&& slashes(losing)[2 * k + 1] == RawAction::<
                Seq<AccountId>,
                Seq<(AccountId, Balance)>,
            >::DepositEvent(RawEvent::CandidateSlashed(losing[k].0, losing[k].1))
        } by {
            if k < front.len() {
                assert(front[k] == losing[k]);
            }
        }
    }
}

/// Whether indices pick the winners with a backing, as a part of the list.
spec fn picks_backed(winners: Seq<(AccountId, ExtendedBalance)>, won: Seq<int>) -> bool {
    let backed = winners.filter(|w: (AccountId, ExtendedBalance)| w.1 != 0);
    &&& picks(won, winners.len() as int, |i: int| winners[i].1 != 0)
    &&& won.len() == backed.len()
    &&& forall|k: int| 0 <= k < won.len() ==> backed[k] == winners[#[trigger] won[k]]
}

/// Which winners have a backing.
spec fn won_by(winners: Seq<(AccountId, ExtendedBalance)>) -> Seq<int> {
    choose|won: Seq<int>| picks_backed(winners, won)
}

proof fn lemma_won_by(winners: Seq<(AccountId, ExtendedBalance)>)
    ensures
        picks_backed(winners, won_by(winners)),
{
    let keep = |w: (AccountId, ExtendedBalance)| w.1 != 0;
    let won = lemma_filter_picks(winners, keep);
    lemma_picks_same(
        won,
        winners.len() as int,
        |i: int| keep(winners[i]),
        |i: int| winners[i].1 != 0,
    );
    assert(picks_backed(winners, won));
}

/// The seats after an election, from what is recorded.
#[verifier::rlimit(40)]
proof fn lemma_seats_given<T: Trait>(
    before: Module<T>,
    after: Module<T>,
    winners: Seq<(AccountId, ExtendedBalance)>,
    issuance: Balance,
)
    requires
        backed_once(winners),
        before.election_rounds < u32::MAX,
        after.config == before.config,
        after@ == elected_state(before.config, before@, winners, issuance),
    ensures
        seats_given(before, after, winners, issuance, won_by(winners)),
{
    let config = before.config;
    let won = won_by(winners);
    let n = won.len() as int;
    let desired = config.desired_members_spec() as int;
    let seats = if desired <= n {
        desired
    } else {
        n
    };
    let backed = backed_winners(config, winners, issuance);
    let front = backed.take(seats);
    let sorted = new_members(config, backed);
    lemma_won_by(winners);
    lemma_standing(before);
    assert(backed.len() == n);
    assert forall|k: int| 0 <= k < n implies #[trigger] backed[k] == (
        winners[won[k]].0,
        config.to_currency_spec(winners[won[k]].1, issuance),
    ) by {}
    lemma_new_members_ascending(config, winners, issuance);
    lemma_sort_by_id(front);
    assert forall|i: int, j: int| 0 <= i < j < after.members@.len() implies (
    #[trigger] after.members@[i]).who < (#[trigger] after.members@[j]).who by {
        assert(ids(sorted)[i] < ids(sorted)[j]);
    }
    assert forall|k: int| 0 <= k < seats implies seated_winner(
        before,
        after.members@,
        winners[#[trigger] won[k]],
        issuance,
    ) by {
        assert(front[k] == backed[k]);
        assert(front.contains(backed[k]));
        assert(sorted.contains(backed[k]));
        let m = sorted.index_of(backed[k]);
        lemma_deposit_recorded(standing(before), backed[k].0);
        assert(seat_won(before, after.members@[m], winners[won[k]], issuance));
    }
    assert forall|m: int| 0 <= m < after.members@.len() implies winner_seated(
        before,
        #[trigger] after.members@[m],
        winners,
        won.take(seats),
        issuance,
    ) by {
        assert(sorted.contains(sorted[m]));
        assert(front.contains(sorted[m]));
        let k = front.index_of(sorted[m]);
        assert(front[k] == backed[k]);
        lemma_deposit_recorded(standing(before), backed[k].0);
        assert(won.take(seats)[k] == won[k]);
        assert(seat_won(before, after.members@[m], winners[won[k]], issuance));
    }
    let runners_up = new_runners_up(config, backed);
    assert(runners_up.len() == n - seats);
    assert forall|i: int| 0 <= i < after.runners_up@.len() implies seat_won(
        before,
        #[trigger] after.runners_up@[i],
        winners[won[n - 1 - i]],
        issuance,
    ) by {
        assert(runners_up[i] == backed[n - 1 - i]);
        lemma_deposit_recorded(standing(before), runners_up[i].0);
    }
    lemma_same_voters(after.voting@, before.voting@);
}

/// Whether indices pick those who are neither among the given members nor among the given
/// runners-up, as a part of the list.
spec fn picks_losers(
    all: Seq<(AccountId, Balance)>,
    members: Seq<AccountId>,
    runners_up: Seq<AccountId>,
    lost: Seq<int>,
) -> bool {
    let losing = losers(all, members, runners_up);
    &&& picks(
        lost,
        all.len() as int,
        |i: int| !members.contains(all[i].0) && !runners_up.contains(all[i].0),
    )
    &&& lost.len() == losing.len()
    &&& forall|k: int| 0 <= k < lost.len() ==> losing[k] == all[#[trigger] lost[k]]
}

/// Which of those who stand lose an election.
spec fn lost_in<T: Trait>(
    before: Module<T>,
    winners: Seq<(AccountId, ExtendedBalance)>,
    issuance: Balance,
) -> Seq<int> {
    let backed = backed_winners(before.config, winners, issuance);
    let members = ids(new_members(before.config, backed));
    let runners_up = ids(new_runners_up(before.config, backed));
    choose|lost: Seq<int>| picks_losers(standing(before), members, runners_up, lost)
}

/// What is announced after an election, from what is returned.
#[verifier::rlimit(40)]
proof fn lemma_outcome_announced<T: Trait>(
    before: Module<T>,
    after: Module<T>,
    winners: Seq<(AccountId, ExtendedBalance)>,
    issuance: Balance,
    actions: Seq<Action>,
)
    requires
        backed_once(winners),
        seats_in_order(before.members@),
        votes_in_bounds(before.voting@),
        after@ == elected_state(before.config, before@, winners, issuance),
        actions_view(actions) == election_actions(
            before.config,
            before@,
            winners,
            issuance,
        ),
    ensures
        outcome_announced(before, after, actions, lost_in(before, winners, issuance)),
{
    let config = before.config;
    let all = standing(before);
    let backed = backed_winners(config, winners, issuance);
    let elected = new_members(config, backed);
    let members = ids(elected);
    let runners_up = ids(new_runners_up(config, backed));
    let old_members = ids(before.members@);
    let losing = losers(all, members, runners_up);
    let lost = lost_in(before, winners, issuance);
    let view = election_actions(config, before@, winners, issuance);
    let lose = |c: (AccountId, Balance)| !members.contains(c.0) && !runners_up.contains(c.0);
    let lose_at = |i: int| !members.contains(all[i].0) && !runners_up.contains(all[i].0);
    lemma_standing(before);
    assert(picks_losers(all, members, runners_up, lost)) by {
        let some = lemma_filter_picks(all, lose);
        lemma_picks_same(some, all.len() as int, |i: int| lose(all[i]), lose_at);
        assert(picks_losers(all, members, runners_up, some));
    }
    lemma_seated_ids(before@.all_candidates(), elected);
    lemma_seated_ids(before@.all_candidates(), new_runners_up(config, backed));
    assert(ids(after.members@) == members && ids(after.runners_up@) == runners_up);
    let seatless = |i: int|
        !held_by(after.members@, all[i].0) && !held_by(after.runners_up@, all[i].0);
    assert forall|i: int| 0 <= i < all.len() implies #[trigger] lose_at(i) == seatless(i) by {
        lemma_held_by(after.members@, all[i].0);
        lemma_held_by(after.runners_up@, all[i].0);
    }
    lemma_picks_same(lost, all.len() as int, lose_at, seatless);
    lemma_slash_pairs(losing);
    lemma_actions(actions);
    assert(view.len() == 3 + 2 * losing.len());
    assert(view[0] == actions[0]@ && view[1] == actions[1]@);
    assert(strictly_ascending(old_members)) by {
        assert forall|i: int, j: int| 0 <= i < j < old_members.len() implies old_members[i]
            < old_members[j] by {
            assert(before.members@[i].who < before.members@[j].who);
        }
    }
    lemma_new_members_ascending(config, winners, issuance);
    lemma_without_ascending(members, old_members);
    lemma_without_ascending(old_members, members);
    let incoming = actions[0]->ChangeMembers_0;
    let outgoing = actions[0]->ChangeMembers_1;
    let new = actions[0]->ChangeMembers_2;
    assert(actions[0] is ChangeMembers && new@ == members);
    assert forall|a: AccountId| #[trigger] named(incoming@, a) <==> held_by(after.members@, a)
        && !held_by(before.members@, a) by {
        lemma_held_by(after.members@, a);
        lemma_held_by(before.members@, a);
        assert(incoming@.contains(a) <==> named(incoming@, a));
    }
    assert forall|a: AccountId| #[trigger] named(outgoing@, a) <==> held_by(before.members@, a)
        && !held_by(after.members@, a) by {
        lemma_held_by(after.members@, a);
        lemma_held_by(before.members@, a);
        assert(outgoing@.contains(a) <==> named(outgoing@, a));
    }
    assert forall|i: int| 0 <= i < new@.len() implies #[trigger] new@[i]
        == after.members@[i].who by {
        assert(ids(after.members@)[i] == after.members@[i].who);
    }
    assert(actions[1] == RawAction::<Vec<AccountId>, Vec<(AccountId, Balance)>>::SetPrime(
        prime_of(before@.voting, members),
    ));
    assert(accounts_in_order(new@));
    lemma_prime_is_right(before.voting@, new@);
    assert forall|k: int| 0 <= k < lost.len() implies {
        let (who, deposit) = all[#[trigger] lost[k]];
        &&& actions[2 + 2 * k] == RawAction::<
            Vec<AccountId>,
            Vec<(AccountId, Balance)>,
        >::SlashReserved(who, deposit, SlashHandler::LoserCandidate)
        &&& actions[3 + 2 * k] == RawAction::<
            Vec<AccountId>,
            Vec<(AccountId, Balance)>,
        >::DepositEvent(RawEvent::CandidateSlashed(who, deposit))
    } by {
        assert(losing[k] == all[lost[k]]);
        assert(view[2 + 2 * k] == slashes(losing)[2 * k]);
        assert(view[3 + 2 * k] == slashes(losing)[2 * k + 1]);
        assert(view[2 + 2 * k] == actions[2 + 2 * k]@);
        assert(view[3 + 2 * k] == actions[3 + 2 * k]@);
    }
    let last = actions.len() - 1;
    assert(view[last] == actions[last]@);
    let term = actions[last]->DepositEvent_0->NewTerm_0;
    assert(actions[last] is DepositEvent && term@ == elected);
    assert forall|i: int| 0 <= i < term@.len() implies #[trigger] term@[i] == (
        after.members@[i].who,
        after.members@[i].stake,
    ) by {}
}

/// An election with given winners, none of whom has a backing twice, gives the seats to them by
/// rank, slashes those who stood and got none, and announces all of that.
pub proof fn law_election_concluded<T: Trait>(
    module: &mut Module<T>,
    winners: &Vec<(AccountId, ExtendedBalance)>,
    total_issuance: Balance,
    actions: Vec<Action>,
) -> (r: (Seq<int>, Seq<int>))
    requires
        call_ensures(
            Module::<T>::conclude_election,
            (module, winners, total_issuance),
            actions,
        ),
        seats_in_order(old(module).members@),
        votes_in_bounds(old(module).voting@),
        old(module).election_rounds < u32::MAX,
        wins_once(winners@),
    ensures
        call_requires(Module::<T>::conclude_election, (module, winners, total_issuance)),
        seats_given(*old(module), *final(module), winners@, total_issuance, r.0),
        outcome_announced(*old(module), *final(module), actions@, r.1),
{
    lemma_callable(*old(module));
    lemma_seats_given(*old(module), *final(module), winners@, total_issuance);
    lemma_outcome_announced(*old(module), *final(module), winners@, total_issuance, actions@);
    (won_by(winners@), lost_in(*old(module), winners@, total_issuance))
}

proof fn lemma_callable<T: Trait>(module: Module<T>)
    ensures
        seats_in_order(module.members@) <==> strictly_ascending(ids(module.members@)),
        votes_in_bounds(module.voting@) <==> module@.votes_bounded(),
{
    let members = module.members@;
    if seats_in_order(members) {
        assert forall|i: int, j: int| 0 <= i < j < ids(members).len() implies ids(members)[i]
            < ids(members)[j] by {
            assert(members[i].who < members[j].who);
        }
    }
    if strictly_ascending(ids(members)) {
        assert forall|i: int, j: int| 0 <= i < j < members.len() implies (
        #[trigger] members[i]).who < (#[trigger] members[j]).who by {
            assert(ids(members)[i] < ids(members)[j]);
        }
    }
    if votes_in_bounds(module.voting@) {
        assert forall|v: int| 0 <= v < module@.voting.len() implies (
        #[trigger] module@.voting[v]).1.votes.len() <= MAXIMUM_VOTE by {
            assert(module.voting@[v].1.votes@.len() <= 16);
        }
    }
    if module@.votes_bounded() {
        assert forall|v: int| 0 <= v < module.voting@.len() implies (
        #[trigger] module.voting@[v]).1.votes@.len() <= 16 by {
            assert(module@.voting[v].1.votes.len() <= MAXIMUM_VOTE);
        }
    }
}

/// Whether the given names are those of all who stand, and the given voters are all voters: one for
/// each that is recorded, with its account, the weight of its stake, and its votes.
pub open spec fn enter_election<T: Trait>(
    module: Module<T>,
    issuance: Balance,
    names: Seq<AccountId>,
    voters: Seq<Ballot>,
) -> bool {
    &&& names.len() == number_standing(module)
    &&& forall|i: int| 0 <= i < names.len() ==> #[trigger] names[i] == standing(module)[i].0
    &&& voters.len() == module.voting@.len()
    &&& forall|i: int|
        0 <= i < voters.len() ==> {
            let voter = module.voting@[i];
            #[trigger] voters[i] == (
                voter.0,
                module.config.to_vote_spec(voter.1.stake, issuance),
                voter.1.votes@,
            )
        }
}

/// What a round comes to. If nobody stands, or if the election method fails, nothing changes, and
/// that is announced. Otherwise the winners among all who stand, by the votes of all voters, are
/// given the seats.
pub open spec fn round_comes_to<T: Trait>(
    before: Module<T>,
    after: Module<T>,
    issuance: Balance,
    weight: Weight,
    actions: Seq<Action>,
    names: Seq<AccountId>,
    voters: Seq<Ballot>,
    won: Seq<int>,
    lost: Seq<int>,
) -> bool {
    let rounds = before.config.desired_members_spec() + before.config.desired_runners_up_spec();
    let votes = votes_cast(before.voting@);
    &&& number_standing(before) == 0 ==> {
        &&& same_module(after, before)
        &&& actions.len() == 1
        &&& actions[0] == RawAction::<Vec<AccountId>, Vec<(AccountId, Balance)>>::DepositEvent(
            RawEvent::EmptyTerm,
        )
        &&& weight == Weight::DbReads(5)
    }
    &&& number_standing(before) > 0 ==> {
        &&& weight matches Weight::ElectionPhragmen(c, v, e) && {
            &&& c == number_standing(before) % 0x1_0000_0000
            &&& v == before.voting@.len() % 0x1_0000_0000
            &&& votes <= u32::MAX ==> e == votes
            &&& votes > u32::MAX ==> e == u32::MAX
        }
        &&& match phragmen_winners(rounds, names, voters) {
            Some(winners) => {
                &&& seats_given(before, after, winners, issuance, won)
                &&& outcome_announced(before, after, actions, lost)
            },
            None => {
                &&& same_module(after, before)
                &&& actions.len() == 1
                &&& actions[0] == RawAction::<
                    Vec<AccountId>,
                    Vec<(AccountId, Balance)>,
                >::DepositEvent(RawEvent::ElectionError)
            },
        }
    }
}

proof fn lemma_entrants<T: Trait>(
    module: Module<T>,
    issuance: Balance,
    names: Seq<AccountId>,
    voters: Seq<Ballot>,
)
    requires
        enter_election(module, issuance, names, voters),
    ensures
        method_result(module.config, module@, issuance) == phragmen_winners(
            module.config.desired_members_spec() + module.config.desired_runners_up_spec(),
            names,
            voters,
        ),
        module@.all_candidates().len() == number_standing(module),
{
    lemma_standing(module);
    assert(ids(module@.all_candidates()) =~= names) by {
        assert forall|i: int| 0 <= i < names.len() implies ids(module@.all_candidates())[i]
            == names[i] by {
            assert(names[i] == standing(module)[i].0);
        }
    }
    assert(ballots(module.config, module@.voting, issuance) =~= voters) by {
        assert forall|i: int| 0 <= i < voters.len() implies ballots(
            module.config,
            module@.voting,
            issuance,
        )[i] == voters[i] by {
            assert(module@.voting[i] == (module.voting@[i].0, module.voting@[i].1@));
        }
    }
}

proof fn lemma_round<T: Trait>(
    before: Module<T>,
    after: Module<T>,
    issuance: Balance,
    weight: Weight,
    actions: Seq<Action>,
    names: Seq<AccountId>,
    voters: Seq<Ballot>,
)
    requires
        seats_in_order(before.members@),
        number_standing(before) > 0 ==> votes_in_bounds(before.voting@),
        number_standing(before) > 0 ==> before.election_rounds < u32::MAX,
        enter_election(before, issuance, names, voters),
        after.config == before.config,
        after@ == state_after_round(before.config, before@, issuance),
        weight == round_weight(before@),
        actions_view(actions) == round_actions(before.config, before@, issuance),
        round_held(before.config, before@, issuance)
            ==> sound_election(before.config, before@, issuance),
    ensures
        ({
            let winners = method_result(
                before.config,
                before@,
                issuance,
            ).unwrap();
            round_comes_to(
                before,
                after,
                issuance,
                weight,
                actions,
                names,
                voters,
                won_by(winners),
                lost_in(before, winners, issuance),
            )
        }),
{
    lemma_entrants(before, issuance, names, voters);
    lemma_votes_cast(before.voting@);
    lemma_actions(actions);
    assert(voting_view(before.voting@).len() == before.voting@.len());
    if round_held(before.config, before@, issuance) {
        let winners = method_result(before.config, before@, issuance).unwrap();
        lemma_seats_given(before, after, winners, issuance);
        lemma_outcome_announced(before, after, winners, issuance, actions);
    } else {
        lemma_same_module(after, before);
        assert(actions_view(actions)[0] == actions[0]@);
    }
}

/// A round counts all voters, with all their stake and all their votes, and all who stand. What the
/// election method makes of that decides who gets the seats.
pub proof fn law_round_run<T: Trait>(
    module: &mut Module<T>,
    total_issuance: Balance,
    weight: Weight,
    actions: Vec<Action>,
    names: Seq<AccountId>,
    voters: Seq<Ballot>,
) -> (r: (Seq<int>, Seq<int>))
    requires
        call_ensures(Module::<T>::do_phragmen, (module, total_issuance), (weight, actions)),
        seats_in_order(old(module).members@),
        number_standing(*old(module)) > 0 ==> votes_in_bounds(old(module).voting@),
        number_standing(*old(module)) > 0 ==> old(module).election_rounds < u32::MAX,
        enter_election(*old(module), total_issuance, names, voters),
    ensures
        round_comes_to(
            *old(module),
            *final(module),
            total_issuance,
            weight,
            actions@,
            names,
            voters,
            r.0,
            r.1,
        ),
{
    lemma_round(
        *old(module),
        *final(module),
        total_issuance,
        weight,
        actions@,
        names,
        voters,
    );
    let winners = method_result(
        old(module).config,
        old(module)@,
        total_issuance,
    ).unwrap();
    (won_by(winners), lost_in(*old(module), winners, total_issuance))
}

/// An election is due exactly at the multiples of the term duration, and never if that is zero.
pub proof fn law_election_due<T: Trait>(module: &Module<T>, n: BlockNumber, due: bool)
    requires
        call_ensures(Module::<T>::is_election_due, (module, n), due),
    ensures
        ({
            let term = module.config.term_duration_spec() as int;
            &&& term == 0 ==> !due
            &&& term > 0 ==> (due <==> exists|k: int| #[trigger] (k * term) == n)
        }),
{
    let term = module.config.term_duration_spec() as int;
    if term > 0 {
        lemma_multiple(n as int, term);
    }
}

proof fn lemma_multiple(n: int, term: int)
    requires
        term > 0,
        n >= 0,
    ensures
        n % term == 0 <==> exists|k: int| #[trigger] (k * term) == n,
{
    vstd::arithmetic::div_mod::lemma_fundamental_div_mod(n, term);
    if n % term == 0 {
        vstd::arithmetic::mul::lemma_mul_is_commutative(term, n / term);
        assert((n / term) * term == n);
    }
    if exists|k: int| #[trigger] (k * term) == n {
        let k = choose|k: int| #[trigger] (k * term) == n;
        vstd::arithmetic::div_mod::lemma_mod_multiples_basic(k, term);
    }
}

/// At the start of a block a round is run exactly if an election is due. Otherwise nothing happens,
/// and it weighs nothing.
pub proof fn law_block_starts<T: Trait>(
    module: &mut Module<T>,
    n: BlockNumber,
    total_issuance: Balance,
    weight: Weight,
    actions: Vec<Action>,
    names: Seq<AccountId>,
    voters: Seq<Ballot>,
) -> (r: (Seq<int>, Seq<int>))
    requires
        call_ensures(Module::<T>::on_initialize, (module, n, total_issuance), (weight, actions)),
        seats_in_order(old(module).members@),
        number_standing(*old(module)) > 0 ==> votes_in_bounds(old(module).voting@),
        number_standing(*old(module)) > 0 ==> old(module).election_rounds < u32::MAX,
        enter_election(*old(module), total_issuance, names, voters),
    ensures
        ({
            let term = old(module).config.term_duration_spec() as int;
            let due = term > 0 && exists|k: int| #[trigger] (k * term) == n;
            &&& due ==> round_comes_to(
                *old(module),
                *final(module),
                total_issuance,
                weight,
                actions@,
                names,
                voters,
                r.0,
                r.1,
            )
            &&& !due ==> {
                &&& same_module(*final(module), *old(module))
                &&& weight == Weight::Zero
                &&& actions@.len() == 0
            }
        }),
{
    let term = old(module).config.term_duration_spec() as int;
    if term > 0 {
        lemma_multiple(n as int, term);
    }
    lemma_actions(actions@);
    let winners = method_result(
        old(module).config,
        old(module)@,
        total_issuance,
    ).unwrap();
    if election_due(old(module).config, n) {
        lemma_round(
            *old(module),
            *final(module),
            total_issuance,
            weight,
            actions@,
            names,
            voters,
        );
    } else {
        lemma_same_module(*final(module), *old(module));
    }
    (won_by(winners), lost_in(*old(module), winners, total_issuance))
}

/// A round can be run wherever the members are in order, the number of seats can be counted and, if
/// anybody stands, no voter has more than sixteen votes and one more round can be counted. Callers
/// can find out whether that is so.
pub proof fn law_round_possible<T: Trait>(
    module: &mut Module<T>,
    n: BlockNumber,
    total_issuance: Balance,
    possible: bool,
)
    requires
        call_ensures(Module::<T>::can_elect, (&*old(module),), possible),
    ensures
        possible <==> {
            &&& seats_in_order(old(module).members@)
            &&& old(module).config.desired_members_spec()
                + old(module).config.desired_runners_up_spec() <= usize::MAX
            &&& number_standing(*old(module)) > 0 ==> {
                &&& votes_in_bounds(old(module).voting@)
                &&& old(module).election_rounds < u32::MAX
            }
        },
        possible ==> call_requires(Module::<T>::do_phragmen, (module, total_issuance)),
        possible ==> call_requires(Module::<T>::on_initialize, (module, n, total_issuance)),
{
    lemma_callable(*old(module));
    lemma_standing(*old(module));
}

} // verus!
