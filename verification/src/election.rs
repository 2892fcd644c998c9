//! Elections: what goes into the election method, and what its result does to the module.

use vstd::prelude::*;

use crate::arith::{count_as_u32, low32, saturated, saturating_product, saturating_sum, smaller};
use crate::config::Trait;
use crate::ids::{
    binary_search, copy_ids, ids, ids_of, is_among, is_strictly_ascending, missing_in, position,
    sort_by_id, sorted_by_id, strictly_ascending, without,
};
use crate::outcome::{
    backing_survives, lemma_elected_backed, lemma_elected_seats, lemma_elected_wf, round_held,
    sound_election, sound_outcome,
};
use crate::phragmen::{backed_once, ballots_view, phragmen_winners, seq_phragmen, Ballot};
use crate::state::{voting_view, Module, State};
use crate::types::{
    actions_view, AccountId, Action, ActionView, Balance, BlockNumber, ExtendedBalance, RawAction,
    RawEvent, Seat, SeatHolder, SlashHandler, VoteWeight, Voter, VoterView, Weight, MAXIMUM_VOTE,
};

verus! {

broadcast use crate::types::group_actions_view;

/// The voters as they enter an election.
pub open spec fn ballots<T: Trait>(
    config: T,
    voting: Seq<(AccountId, VoterView)>,
    issuance: Balance,
) -> Seq<Ballot> {
    voting.map_values(
        |v: (AccountId, VoterView)| (v.0, config.to_vote_spec(v.1.stake, issuance), v.1.votes),
    )
}

/// The number of votes of all voters together.
pub open spec fn vote_count(voting: Seq<(AccountId, VoterView)>) -> int
    decreases voting.len(),
{
    if voting.len() == 0 {
        0
    } else {
        vote_count(voting.drop_last()) + voting.last().1.votes.len()
    }
}

/// The winners with a backing, best first, with their backing in currency.
pub open spec fn backed_winners<T: Trait>(
    config: T,
    winners: Seq<(AccountId, ExtendedBalance)>,
    issuance: Balance,
) -> Seq<(AccountId, Balance)> {
    winners.filter(|w: (AccountId, ExtendedBalance)| w.1 != 0).map_values(
        |w: (AccountId, ExtendedBalance)| (w.0, config.to_currency_spec(w.1, issuance)),
    )
}

/// The best of the backed winners, as many as there are seats for members, sorted by account.
pub open spec fn new_members<T: Trait>(config: T, backed: Seq<(AccountId, Balance)>) -> Seq<
    (AccountId, Balance),
> {
    sort_by_id(
        backed.take(smaller(config.desired_members_spec() as int, backed.len() as int)),
    )
}

/// The other backed winners, worst first.
pub open spec fn new_runners_up<T: Trait>(config: T, backed: Seq<(AccountId, Balance)>) -> Seq<
    (AccountId, Balance),
> {
    backed.skip(
        smaller(config.desired_members_spec() as int, backed.len() as int),
    ).reverse()
}

/// The deposit that is recorded of an account in a list of candidates: that of its first entry, or
/// none.
pub open spec fn recorded_deposit(
    candidates: Seq<(AccountId, Balance)>,
    who: AccountId,
) -> Balance
    decreases candidates.len(),
{
    if candidates.len() == 0 {
        0
    } else if candidates.first().0 == who {
        candidates.first().1
    } else {
        recorded_deposit(candidates.drop_first(), who)
    }
}

/// The seats of the given accounts, with the deposits that are recorded of them as candidates.
pub open spec fn seated(
    candidates: Seq<(AccountId, Balance)>,
    elected: Seq<(AccountId, Balance)>,
) -> Seq<Seat> {
    elected.map_values(
        |e: (AccountId, Balance)|
            SeatHolder { who: e.0, stake: e.1, deposit: recorded_deposit(candidates, e.0) },
    )
}

/// The candidates who are neither among the new members nor among the new runners-up.
pub open spec fn losers(
    candidates: Seq<(AccountId, Balance)>,
    members: Seq<AccountId>,
    runners_up: Seq<AccountId>,
) -> Seq<(AccountId, Balance)> {
    candidates.filter(
        |c: (AccountId, Balance)| !members.contains(c.0) && !runners_up.contains(c.0),
    )
}

/// What happens to losing candidates, one after the other: their deposit is slashed, and that is
/// reported.
pub open spec fn slashes(losing: Seq<(AccountId, Balance)>) -> Seq<ActionView>
    decreases losing.len(),
{
    if losing.len() == 0 {
        Seq::empty()
    } else {
        let (who, deposit) = losing.last();
        slashes(losing.drop_last()).push(
            RawAction::SlashReserved(who, deposit, SlashHandler::LoserCandidate),
        ).push(RawAction::DepositEvent(RawEvent::CandidateSlashed(who, deposit)))
    }
}

/// The points that the votes of a voter give to an account: sixteen if it is named first, fifteen
/// if it is named second, and so on. Only the first place counts at which an account is named; its
/// repetitions are ignored.
pub open spec fn vote_points(votes: Seq<AccountId>, who: AccountId) -> int {
    match votes.index_of_first(who) {
        Some(place) => MAXIMUM_VOTE - place,
        None => 0,
    }
}

/// The Borda count of an account: the points from each voter, weighed by the stake of the voter.
pub open spec fn borda_count(voting: Seq<(AccountId, VoterView)>, who: AccountId) -> int
    decreases voting.len(),
{
    if voting.len() == 0 {
        0
    } else {
        let voter = voting.last().1;
        borda_count(voting.drop_last(), who) + voter.stake * vote_points(voter.votes, who)
    }
}

/// The Borda counts of the given accounts, capped at the greatest balance.
pub open spec fn borda_counts(
    voting: Seq<(AccountId, VoterView)>,
    members: Seq<AccountId>,
) -> Seq<Balance> {
    members.map_values(|m: AccountId| saturated(borda_count(voting, m)) as Balance)
}

/// The last index at which the greatest value stands.
pub open spec fn last_greatest(counts: Seq<Balance>) -> int
    decreases counts.len(),
{
    if counts.len() <= 1 {
        0
    } else {
        let before = last_greatest(counts.drop_last());
        if counts.last() >= counts[before] {
            counts.len() - 1
        } else {
            before
        }
    }
}

/// The prime of the given members: the one with the greatest Borda count, and among several the
/// last one.
pub open spec fn prime_of(
    voting: Seq<(AccountId, VoterView)>,
    members: Seq<AccountId>,
) -> Option<AccountId> {
    if members.len() == 0 {
        None
    } else {
        Some(members[last_greatest(borda_counts(voting, members))])
    }
}

/// The storage after an election with the given winners.
pub open spec fn elected_state<T: Trait>(
    config: T,
    state: State,
    winners: Seq<(AccountId, ExtendedBalance)>,
    issuance: Balance,
) -> State {
    let backed = backed_winners(config, winners, issuance);
    State {
        members: seated(state.all_candidates(), new_members(config, backed)),
        runners_up: seated(state.all_candidates(), new_runners_up(config, backed)),
        candidates: Seq::empty(),
        election_rounds: (state.election_rounds + 1) as u32,
        ..state
    }
}

/// What has to be done after an election with the given winners: the change of members and the
/// prime are reported, the losers slashed, and the new term is announced.
pub open spec fn election_actions<T: Trait>(
    config: T,
    state: State,
    winners: Seq<(AccountId, ExtendedBalance)>,
    issuance: Balance,
) -> Seq<ActionView> {
    let backed = backed_winners(config, winners, issuance);
    let members = ids(new_members(config, backed));
    let runners_up = ids(new_runners_up(config, backed));
    let old_members = ids(state.members);
    seq![
        RawAction::ChangeMembers(
            without(members, old_members),
            without(old_members, members),
            members,
        ),
        RawAction::SetPrime(prime_of(state.voting, members)),
    ] + slashes(losers(state.all_candidates(), members, runners_up)) + seq![
        RawAction::DepositEvent(RawEvent::NewTerm(new_members(config, backed))),
    ]
}

/// The result of the election method on the storage.
pub open spec fn method_result<T: Trait>(config: T, state: State, issuance: Balance) -> Option<
    Seq<(AccountId, ExtendedBalance)>,
> {
    phragmen_winners(
        config.desired_runners_up_spec() + config.desired_members_spec(),
        ids(state.all_candidates()),
        ballots(config, state.voting, issuance),
    )
}

/// The storage after a round.
pub open spec fn state_after_round<T: Trait>(config: T, state: State, issuance: Balance) -> State {
    if state.all_candidates().len() == 0 {
        state
    } else {
        match method_result(config, state, issuance) {
            Some(winners) => elected_state(config, state, winners, issuance),
            None => state,
        }
    }
}

/// What has to be done after a round.
pub open spec fn round_actions<T: Trait>(config: T, state: State, issuance: Balance) -> Seq<
    ActionView,
> {
    if state.all_candidates().len() == 0 {
        seq![RawAction::DepositEvent(RawEvent::EmptyTerm)]
    } else {
        match method_result(config, state, issuance) {
            Some(winners) => election_actions(config, state, winners, issuance),
            None => seq![RawAction::DepositEvent(RawEvent::ElectionError)],
        }
    }
}

/// The weight of a round.
pub open spec fn round_weight(state: State) -> Weight {
    if state.all_candidates().len() == 0 {
        Weight::DbReads(5)
    } else {
        Weight::ElectionPhragmen(
            low32(state.all_candidates().len() as int),
            low32(state.voting.len() as int),
            smaller(vote_count(state.voting), u32::MAX as int) as u32,
        )
    }
}

/// Where a round can be held: the members are sorted, the number of seats can be counted, and, if
/// anybody stands, nobody votes for too many and one more round can be counted.
pub open spec fn can_elect<T: Trait>(config: T, state: State) -> bool {
    &&& strictly_ascending(ids(state.members))
    &&& state.all_candidates().len() > 0 ==> state.votes_bounded()
    &&& state.all_candidates().len() > 0 ==> state.election_rounds < u32::MAX
    &&& config.desired_runners_up_spec() + config.desired_members_spec() <= usize::MAX
}

/// Whether an election is due at a block: its number is a multiple of the term duration, and the
/// module is not passive.
pub open spec fn election_due<T: Trait>(config: T, n: BlockNumber) -> bool {
    config.term_duration_spec() != 0 && n % config.term_duration_spec() == 0
}

/// The deposit that is recorded of an account in a list of candidates.
fn deposit_in(candidates: &Vec<(AccountId, Balance)>, who: AccountId) -> (r: Balance)
    ensures
        r == recorded_deposit(candidates@, who),
{
    let mut i: usize = 0;
    assert(candidates@.skip(0) =~= candidates@);
    while i < candidates.len()
        invariant
            i <= candidates@.len(),
            recorded_deposit(candidates@, who) == recorded_deposit(
                candidates@.skip(i as int),
                who,
            ),
        decreases candidates@.len() - i,
    {
        assert(candidates@.skip(i as int).first() == candidates@[i as int]);
        assert(candidates@.skip(i as int).drop_first() =~= candidates@.skip(i + 1));
        if candidates[i].0 == who {
            return candidates[i].1;
        }
        i += 1;
    }
    0
}

/// Gives the elected their seats.
fn take_seats(
    candidates: &Vec<(AccountId, Balance)>,
    elected: &Vec<(AccountId, Balance)>,
) -> (r: Vec<Seat>)
    ensures
        r@ == seated(candidates@, elected@),
{
    let mut r: Vec<Seat> = Vec::new();
    let mut i: usize = 0;
    while i < elected.len()
        invariant
            i <= elected@.len(),
            r@ == seated(candidates@, elected@).take(i as int),
        decreases elected@.len() - i,
    {
        let (who, stake) = elected[i];
        r.push(SeatHolder { who, stake, deposit: deposit_in(candidates, who) });
        i += 1;
    }
    r
}

/// Capping a sum once or at every step is the same.
proof fn lemma_saturated_sum(a: int, b: int)
    requires
        a >= 0,
        b >= 0,
    ensures
        saturated(saturated(a) + saturated(b)) == saturated(a + b),
{
}

/// Points are never negative.
proof fn lemma_vote_points_nonnegative(votes: Seq<AccountId>, who: AccountId)
    requires
        votes.len() <= MAXIMUM_VOTE,
    ensures
        vote_points(votes, who) >= 0,
{
    votes.index_of_first_ensures(who);
}

/// What one more vote adds: points for the account that it names, unless that has been named
/// before.
pub proof fn lemma_vote_points_push(votes: Seq<AccountId>, vote: AccountId, who: AccountId)
    ensures
        vote_points(votes.push(vote), who) == if vote == who && !votes.contains(who) {
            MAXIMUM_VOTE - votes.len()
        } else {
            vote_points(votes, who)
        },
{
    let after = votes.push(vote);
    votes.index_of_first_ensures(who);
    after.index_of_first_ensures(who);
    assert(after[votes.len() as int] == vote);
    if votes.contains(who) {
        let first = votes.index_of_first(who).unwrap();
        assert(after[first] == who);
        let place = after.index_of_first(who).unwrap();
        if place < first {
            assert(votes[place] == who);
        }
    } else if after.contains(who) {
        let place = after.index_of_first(who).unwrap();
        if place < votes.len() {
            assert(votes[place] == who);
        }
    }
}

/// A Borda count is never negative.
pub proof fn lemma_borda_count_nonnegative(voting: Seq<(AccountId, VoterView)>, who: AccountId)
    requires
        forall|v: int|
            0 <= v < voting.len() ==> (#[trigger] voting[v]).1.votes.len() <= MAXIMUM_VOTE,
    ensures
        borda_count(voting, who) >= 0,
    decreases voting.len(),
{
    if voting.len() > 0 {
        let voter = voting.last().1;
        lemma_borda_count_nonnegative(voting.drop_last(), who);
        assert(voting[voting.len() - 1].1.votes.len() <= MAXIMUM_VOTE);
        lemma_vote_points_nonnegative(voter.votes, who);
        assert(voter.stake * vote_points(voter.votes, who) >= 0) by (nonlinear_arith)
            requires
                voter.stake >= 0,
                vote_points(voter.votes, who) >= 0,
        ;
    }
}

/// Adds what one voter gives to each member.
fn count_votes(
    counts: &mut Vec<Balance>,
    members: &Vec<AccountId>,
    stake: Balance,
    votes: &Vec<AccountId>,
)
    requires
        strictly_ascending(members@),
        old(counts)@.len() == members@.len(),
        votes@.len() <= MAXIMUM_VOTE,
    ensures
        final(counts)@.len() == members@.len(),
        forall|m: int|
            0 <= m < members@.len() ==> #[trigger] final(counts)@[m] == saturated(
                old(counts)@[m] + stake * vote_points(votes@, members@[m]),
            ),
{
    let mut p: usize = 0;
    assert(ids(members@) =~= members@);
    assert(ids(votes@) =~= votes@);
    assert forall|m: int| 0 <= m < members@.len() implies vote_points(
        votes@.take(0),
        #[trigger] members@[m],
    ) == 0 by {
        votes@.take(0).index_of_first_ensures(members@[m]);
    }
    while p < votes.len()
        invariant
            strictly_ascending(members@),
            ids(members@) == members@,
            ids(votes@) == votes@,
            counts@.len() == members@.len(),
            p <= votes@.len() <= MAXIMUM_VOTE,
            forall|m: int|
                0 <= m < members@.len() ==> #[trigger] counts@[m] == saturated(
                    old(counts)@[m] + stake * vote_points(
                        votes@.take(p as int),
                        members@[m],
                    ),
                ),
        decreases votes@.len() - p,
    {
        let ghost before = counts@;
        let who: AccountId = votes[p];
        let multiplier: usize = MAXIMUM_VOTE - p;
        let ghost earlier = votes@.take(p as int);
        let named_first: bool = match position(votes, who) {
            Some(first) => first == p,
            None => false,
        };
        proof {
            assert(votes@[p as int] == who);
            assert(earlier.contains(who) <==> !named_first) by {
                if earlier.contains(who) {
                    let i = earlier.index_of(who);
                    assert(votes@[i] == who);
                }
                if !named_first {
                    let first = choose|i: int| 0 <= i < p && votes@[i] == who;
                    assert(earlier[first] == who);
                }
            }
            assert(votes@.take(p + 1) =~= earlier.push(who));
        }
        let found = binary_search(members, who);
        match found {
            Ok(i) => if named_first {
                let given: Balance = saturating_product(stake, multiplier as Balance);
                let sum: Balance = saturating_sum(counts[i], given);
                counts.set(i, sum);
            },
            Err(_) => {},
        }
        proof {
            assert forall|m: int| 0 <= m < members@.len() implies #[trigger] counts@[m]
                == saturated(
                old(counts)@[m] + stake * vote_points(votes@.take(p + 1), members@[m]),
            ) by {
                let points = vote_points(earlier, members@[m]);
                assert(before[m] == saturated(old(counts)@[m] + stake * points));
                lemma_vote_points_push(earlier, who, members@[m]);
                if members@[m] == who && named_first {
                    assert(points == 0) by {
                        earlier.index_of_first_ensures(who);
                    }
                    assert(members@.contains(who));
                    let i = found->Ok_0 as int;
                    if i < m || m < i {
                        assert(members@[i] == members@[m]);
                    }
                    assert(stake * points == 0 && stake * multiplier >= 0) by (nonlinear_arith)
                        requires
                            stake >= 0,
                            points == 0,
                            multiplier >= 0,
                    ;
                    lemma_saturated_sum(
                        old(counts)@[m] + stake * points,
                        stake * multiplier,
                    );
                } else {
                    if found is Ok && named_first {
                        assert(found->Ok_0 != m);
                    }
                }
            }
        }
        p += 1;
    }
    assert(votes@.take(votes@.len() as int) =~= votes@);
}

/// Elects the prime among the members.
pub fn elect_prime(
    voting: &Vec<(AccountId, Voter<AccountId, Balance>)>,
    members: &Vec<AccountId>,
) -> (r: Option<AccountId>)
    requires
        strictly_ascending(members@),
        forall|v: int|
            0 <= v < voting@.len() ==> (#[trigger] voting_view(voting@)[v]).1.votes.len()
                <= MAXIMUM_VOTE,
    ensures
        r == prime_of(voting_view(voting@), members@),
{
    let ghost view = voting_view(voting@);
    let mut counts: Vec<Balance> = Vec::new();
    let mut m: usize = 0;
    while m < members.len()
        invariant
            m <= members@.len(),
            counts@.len() == m,
            forall|i: int| 0 <= i < m ==> counts@[i] == 0,
        decreases members@.len() - m,
    {
        counts.push(0);
        m += 1;
    }
    let mut v: usize = 0;
    while v < voting.len()
        invariant
            v <= voting@.len(),
            view == voting_view(voting@),
            strictly_ascending(members@),
            forall|v: int|
                0 <= v < voting@.len() ==> (#[trigger] view[v]).1.votes.len() <= MAXIMUM_VOTE,
            counts@.len() == members@.len(),
            forall|m: int|
                0 <= m < members@.len() ==> #[trigger] counts@[m] == saturated(
                    borda_count(view.take(v as int), members@[m]),
                ),
        decreases voting@.len() - v,
    {
        let ghost before = counts@;
        let voter = &voting[v].1;
        assert(view[v as int].1 == voter@);
        count_votes(&mut counts, members, voter.stake, &voter.votes);
        proof {
            assert(view.take(v + 1).drop_last() =~= view.take(v as int));
            assert(view.take(v + 1).last() == view[v as int]);
            assert forall|m: int| 0 <= m < members@.len() implies #[trigger] counts@[m]
                == saturated(borda_count(view.take(v + 1), members@[m])) by {
                let points = vote_points(voter.votes@, members@[m]);
                assert(before[m] == saturated(borda_count(view.take(v as int), members@[m])));
                lemma_vote_points_nonnegative(voter.votes@, members@[m]);
                lemma_borda_count_nonnegative(view.take(v as int), members@[m]);
                assert(voter.stake * points >= 0) by (nonlinear_arith)
                    requires
                        voter.stake >= 0,
                        points >= 0,
                ;
                lemma_saturated_sum(
                    borda_count(view.take(v as int), members@[m]),
                    voter.stake * points,
                );
            }
        }
        v += 1;
    }
    proof {
        assert(view.take(voting@.len() as int) =~= view);
        assert(counts@ =~= borda_counts(view, members@));
    }
    if members.len() == 0 {
        return None;
    }
    let mut best: usize = 0;
    let mut i: usize = 1;
    assert(last_greatest(counts@.take(1)) == 0);
    while i < counts.len()
        invariant
            best < i <= counts@.len(),
            best == last_greatest(counts@.take(i as int)),
        decreases counts@.len() - i,
    {
        assert(counts@.take(i + 1).drop_last() =~= counts@.take(i as int));
        if counts[i] >= counts[best] {
            best = i;
        }
        i += 1;
    }
    assert(counts@.take(counts@.len() as int) =~= counts@);
    Some(members[best])
}

/// Whether an entry stands for a winner with a backing.
pub open spec fn from_winner<T: Trait>(
    config: T,
    winners: Seq<(AccountId, ExtendedBalance)>,
    issuance: Balance,
    entry: (AccountId, Balance),
) -> bool {
    exists|i: int|
        0 <= i < winners.len() && (#[trigger] winners[i]).1 != 0 && entry == (
            winners[i].0,
            config.to_currency_spec(winners[i].1, issuance),
        )
}

/// Each backed winner is a winner with a backing, and no account is backed twice.
pub proof fn lemma_backed_winners<T: Trait>(
    config: T,
    winners: Seq<(AccountId, ExtendedBalance)>,
    issuance: Balance,
)
    ensures
        backed_winners(config, winners, issuance).len() <= winners.len(),
        forall|k: int|
            0 <= k < backed_winners(config, winners, issuance).len() ==> from_winner(
                config,
                winners,
                issuance,
                #[trigger] backed_winners(config, winners, issuance)[k],
            ),
        backed_once(winners) ==> ids(backed_winners(config, winners, issuance)).no_duplicates(),
    decreases winners.len(),
{
    reveal(Seq::filter);
    let backed = backed_winners(config, winners, issuance);
    if winners.len() > 0 {
        let front = winners.drop_last();
        let last = winners.last();
        lemma_backed_winners(config, front, issuance);
        let before = backed_winners(config, front, issuance);
        let entry = (last.0, config.to_currency_spec(last.1, issuance));
        if last.1 != 0 {
            assert(backed =~= before.push(entry));
        } else {
            assert(backed =~= before);
        }
        assert forall|k: int| 0 <= k < backed.len() implies from_winner(
            config,
            winners,
            issuance,
            #[trigger] backed[k],
        ) by {
            if k < before.len() {
                assert(from_winner(config, front, issuance, before[k]));
                let i = choose|i: int|
                    0 <= i < front.len() && (#[trigger] front[i]).1 != 0 && before[k] == (
                        front[i].0,
                        config.to_currency_spec(front[i].1, issuance),
                    );
                assert(winners[i] == front[i]);
            } else {
                assert(winners[winners.len() - 1].1 != 0);
            }
        }
        if backed_once(winners) {
            assert(backed_once(front)) by {
                assert forall|i: int, j: int|
                    0 <= i < j < front.len() && (#[trigger] front[i]).0 == (
                    #[trigger] front[j]).0 implies front[i].1 == 0 || front[j].1 == 0 by {
                    assert(front[i] == winners[i] && front[j] == winners[j]);
                }
            }
            assert forall|k: int| 0 <= k < before.len() && last.1 != 0 implies (
            #[trigger] before[k]).0 != last.0 by {
                assert(from_winner(config, front, issuance, before[k]));
                let x = choose|x: int|
                    0 <= x < front.len() && (#[trigger] front[x]).1 != 0 && before[k] == (
                        front[x].0,
                        config.to_currency_spec(front[x].1, issuance),
                    );
                assert(winners[x] == front[x]);
                assert(winners[winners.len() - 1] == last);
            }
            assert forall|i: int, j: int|
                0 <= i < ids(backed).len() && 0 <= j < ids(backed).len() && i
                    != j implies ids(backed)[i] != ids(backed)[j] by {
                if i < before.len() && j < before.len() {
                    assert(ids(before)[i] != ids(before)[j]);
                } else if i < before.len() {
                    assert(before[i].0 != last.0);
                } else {
                    assert(before[j].0 != last.0);
                }
            }
        }
    }
}

/// The new members are in strictly ascending order.
pub proof fn lemma_new_members_ascending<T: Trait>(
    config: T,
    winners: Seq<(AccountId, ExtendedBalance)>,
    issuance: Balance,
)
    requires
        backed_once(winners),
    ensures
        strictly_ascending(
            ids(new_members(config, backed_winners(config, winners, issuance))),
        ),
{
    lemma_backed_winners(config, winners, issuance);
    let backed = backed_winners(config, winners, issuance);
    let split = smaller(config.desired_members_spec() as int, backed.len() as int);
    let front = backed.take(split);
    assert(ids(front).no_duplicates()) by {
        assert forall|i: int, j: int|
            0 <= i < ids(front).len() && 0 <= j < ids(front).len() && i != j implies ids(
            front,
        )[i] != ids(front)[j] by {
            assert(ids(backed)[i] != ids(backed)[j]);
        }
    }
    crate::ids::lemma_sort_by_id_strictly(front);
}

impl<T: Trait> Module<T> {
    /// Whether a round can be held. This is for callers that have the storage from elsewhere.
    pub fn can_elect(&self) -> (r: bool)
        ensures
            r == can_elect(self.config, self@),
    {
        let seats: u64 = self.config.desired_runners_up() as u64
            + self.config.desired_members() as u64;
        if seats > usize::MAX as u64 || !is_strictly_ascending(&self.members) {
            return false;
        }
        let nobody_stands: bool = self.candidates.len() == 0 && self.members.len() == 0
            && self.runners_up.len() == 0;
        assert(nobody_stands == (self@.all_candidates().len() == 0));
        if nobody_stands {
            return true;
        }
        let mut v: usize = 0;
        while v < self.voting.len()
            invariant
                v <= self.voting@.len(),
                self@.all_candidates().len() > 0,
                forall|i: int|
                    0 <= i < v ==> (#[trigger] self@.voting[i]).1.votes.len() <= MAXIMUM_VOTE,
            decreases self.voting@.len() - v,
        {
            let votes: usize = self.voting[v].1.votes.len();
            assert(votes == self@.voting[v as int].1.votes.len());
            if votes > MAXIMUM_VOTE {
                return false;
            }
            v += 1;
        }
        self.election_rounds < u32::MAX
    }

    /// The winners with a backing, with their backing in currency.
    fn keep_backed(
        &self,
        winners: &Vec<(AccountId, ExtendedBalance)>,
        issuance: Balance,
    ) -> (r: Vec<(AccountId, Balance)>)
        ensures
            r@ == backed_winners(self.config, winners@, issuance),
    {
        let ghost keep = |w: (AccountId, ExtendedBalance)| w.1 != 0;
        let ghost convert = |w: (AccountId, ExtendedBalance)|
            (w.0, self.config.to_currency_spec(w.1, issuance));
        let mut r: Vec<(AccountId, Balance)> = Vec::new();
        let mut i: usize = 0;
        proof {
            reveal(Seq::filter);
            assert(r@ =~= winners@.take(0).filter(keep).map_values(convert));
        }
        while i < winners.len()
            invariant
                i <= winners@.len(),
                keep == (|w: (AccountId, ExtendedBalance)| w.1 != 0),
                convert == (|w: (AccountId, ExtendedBalance)|
                    (w.0, self.config.to_currency_spec(w.1, issuance))),
                r@ == winners@.take(i as int).filter(keep).map_values(convert),
            decreases winners@.len() - i,
        {
            let ghost before = winners@.take(i as int);
            let ghost after = winners@.take(i + 1);
            proof {
                reveal(Seq::filter);
                assert(after.drop_last() =~= before);
                assert(after.last() == winners@[i as int]);
            }
            let (who, backing) = winners[i];
            if backing != 0 {
                r.push((who, self.config.to_currency(backing, issuance)));
                assert(r@ =~= after.filter(keep).map_values(convert));
            } else {
                assert(r@ =~= after.filter(keep).map_values(convert));
            }
            i += 1;
        }
        assert(winners@.take(winners@.len() as int) =~= winners@);
        r
    }

    /// Does what an election with the given winners, best first, does to the module.
    pub fn conclude_election(
        &mut self,
        winners: &Vec<(AccountId, ExtendedBalance)>,
        total_issuance: Balance,
    ) -> (actions: Vec<Action>)
        requires
            strictly_ascending(ids(old(self)@.members)),
            old(self)@.votes_bounded(),
            old(self)@.election_rounds < u32::MAX,
            backed_once(winners@),
        ensures
            final(self)@ == elected_state(old(self).config, old(self)@, winners@, total_issuance),
            final(self).config == old(self).config,
            actions_view(actions@) == election_actions(
                old(self).config,
                old(self)@,
                winners@,
                total_issuance,
            ),
            final(self)@.seats_wf(),
            old(self)@.voting_wf() ==> final(self)@.wf(),
            backing_survives(old(self).config) ==> final(self)@.seats_backed(),
    {
        let ghost config = self.config;
        let ghost state = self@;
        let candidates = self.all_candidates();
        let old_members = self.members_ids();
        let backed = self.keep_backed(winners, total_issuance);

        let desired: usize = self.config.desired_members() as usize;
        let split: usize = if desired <= backed.len() {
            desired
        } else {
            backed.len()
        };
        let mut best: Vec<(AccountId, Balance)> = Vec::new();
        let mut i: usize = 0;
        while i < split
            invariant
                i <= split <= backed@.len(),
                best@ == backed@.take(i as int),
            decreases split - i,
        {
            best.push(backed[i]);
            i += 1;
        }
        let new_members_by_id = sorted_by_id(&best);
        let mut new_runners_up_by_rank: Vec<(AccountId, Balance)> = Vec::new();
        let mut j: usize = backed.len();
        while j > split
            invariant
                split <= j <= backed@.len(),
                new_runners_up_by_rank@ == backed@.skip(j as int).reverse(),
            decreases j,
        {
            j -= 1;
            new_runners_up_by_rank.push(backed[j]);
            assert(new_runners_up_by_rank@ =~= backed@.skip(j as int).reverse());
        }
        let new_members_ids = ids_of(&new_members_by_id);
        let new_runners_up_ids = ids_of(&new_runners_up_by_rank);
        proof {
            lemma_new_members_ascending(config, winners@, total_issuance);
        }
        let prime = elect_prime(&self.voting, &new_members_ids);

        let mut actions: Vec<Action> = Vec::new();
        let incoming = missing_in(&new_members_ids, &old_members);
        let outgoing = missing_in(&old_members, &new_members_ids);
        actions.push(RawAction::ChangeMembers(incoming, outgoing, copy_ids(&new_members_ids)));
        actions.push(RawAction::SetPrime(prime));
        let ghost first = actions_view(actions@);
        let ghost lost = |c: (AccountId, Balance)|
            !new_members_ids@.contains(c.0) && !new_runners_up_ids@.contains(c.0);
        let mut k: usize = 0;
        proof {
            reveal(Seq::filter);
            assert(candidates@.take(0).filter(lost) =~= Seq::empty());
            assert(first =~= first + slashes(candidates@.take(0).filter(lost)));
        }
        while k < candidates.len()
            invariant
                k <= candidates@.len(),
                lost == (|c: (AccountId, Balance)|
                    !new_members_ids@.contains(c.0) && !new_runners_up_ids@.contains(c.0)),
                actions_view(actions@) == first + slashes(candidates@.take(k as int).filter(lost)),
            decreases candidates@.len() - k,
        {
            let (who, deposit) = candidates[k];
            let ghost before = candidates@.take(k as int).filter(lost);
            let ghost after = candidates@.take(k + 1).filter(lost);
            proof {
                reveal(Seq::filter);
                assert(candidates@.take(k + 1).drop_last() =~= candidates@.take(k as int));
            }
            if !is_among(who, &new_members_ids) && !is_among(who, &new_runners_up_ids) {
                actions.push(RawAction::SlashReserved(who, deposit, SlashHandler::LoserCandidate));
                actions.push(RawAction::DepositEvent(RawEvent::CandidateSlashed(who, deposit)));
                proof {
                    assert(after.drop_last() =~= before);
                    assert(actions_view(actions@) =~= first + slashes(after));
                }
            }
            k += 1;
        }
        proof {
            assert(candidates@.take(candidates@.len() as int) =~= candidates@);
            assert(first =~= seq![
                RawAction::ChangeMembers(incoming@, outgoing@, new_members_ids@),
                RawAction::SetPrime(prime),
            ]);
        }
        self.members = take_seats(&candidates, &new_members_by_id);
        self.runners_up = take_seats(&candidates, &new_runners_up_by_rank);
        self.candidates = Vec::new();
        self.election_rounds = self.election_rounds + 1;
        actions.push(RawAction::DepositEvent(RawEvent::NewTerm(new_members_by_id)));
        assert(actions_view(actions@) =~= election_actions(
            config,
            state,
            winners@,
            total_issuance,
        ));
        proof {
            lemma_elected_wf(config, state, winners@, total_issuance);
            if backing_survives(config) {
                lemma_elected_backed(config, state, winners@, total_issuance);
            }
        }
        actions
    }

    /// The voters as they enter an election, and the number of their votes.
    fn voters_with_weights(&self, total_issuance: Balance) -> (r: (
        Vec<(AccountId, VoteWeight, Vec<AccountId>)>,
        u32,
    ))
        requires
            self@.votes_bounded(),
        ensures
            ballots_view(r.0@) == ballots(self.config, self@.voting, total_issuance),
            r.1 == smaller(vote_count(self@.voting), u32::MAX as int),
    {
        let ghost view = self@.voting;
        let mut voters: Vec<(AccountId, VoteWeight, Vec<AccountId>)> = Vec::new();
        let mut edges: u32 = 0;
        let mut i: usize = 0;
        while i < self.voting.len()
            invariant
                i <= self.voting@.len(),
                view == self@.voting,
                self@.votes_bounded(),
                ballots_view(voters@) == ballots(self.config, view, total_issuance).take(i as int),
                edges == smaller(vote_count(view.take(i as int)), u32::MAX as int),
                0 <= vote_count(view.take(i as int)),
            decreases self.voting@.len() - i,
        {
            let voter = &self.voting[i].1;
            proof {
                assert(view[i as int] == (self.voting@[i as int].0, voter@));
                assert(view[i as int].1.votes.len() <= MAXIMUM_VOTE);
                assert(view.take(i + 1).drop_last() =~= view.take(i as int));
            }
            edges = edges.saturating_add(voter.votes.len() as u32);
            let ghost before = voters@;
            let entry = (
                self.voting[i].0,
                self.config.to_vote(voter.stake, total_issuance),
                copy_ids(&voter.votes),
            );
            voters.push(entry);
            proof {
                let all = ballots(self.config, view, total_issuance);
                assert(ballots_view(voters@) =~= ballots_view(before).push(
                    (entry.0, entry.1, entry.2@),
                ));
                assert(all[i as int] == (entry.0, entry.1, entry.2@));
                assert(all.take(i + 1) =~= all.take(i as int).push(all[i as int]));
            }
            i += 1;
        }
        proof {
            assert(view.take(view.len() as int) =~= view);
            assert(ballots(self.config, view, total_issuance).take(view.len() as int) =~= ballots(
                self.config,
                view,
                total_issuance,
            ));
        }
        (voters, edges)
    }

    /// Runs an election with all its consequences, and returns its weight and what has to be done.
    ///
    /// All who submitted candidacy stand, and so do the members and the runners-up. If nobody
    /// stands, or if the election method fails, nothing changes.
    pub fn do_phragmen(&mut self, total_issuance: Balance) -> (r: (Weight, Vec<Action>))
        requires
            can_elect(old(self).config, old(self)@),
        ensures
            final(self)@ == state_after_round(old(self).config, old(self)@, total_issuance),
            final(self).config == old(self).config,
            r.0 == round_weight(old(self)@),
            actions_view(r.1@) == round_actions(old(self).config, old(self)@, total_issuance),
            old(self)@.wf() ==> final(self)@.wf(),
            round_held(old(self).config, old(self)@, total_issuance) ==> {
                &&& sound_election(old(self).config, old(self)@, total_issuance)
                &&& sound_outcome(old(self).config, old(self)@, final(self)@)
            },
    {
        let ghost state = self@;
        let num_to_elect: usize = self.config.desired_runners_up() as usize
            + self.config.desired_members() as usize;
        let candidates = self.all_candidates();
        let mut actions: Vec<Action> = Vec::new();
        if candidates.len() == 0 {
            actions.push(RawAction::DepositEvent(RawEvent::EmptyTerm));
            assert(actions_view(actions@) =~= seq![RawAction::DepositEvent(RawEvent::EmptyTerm)]);
            return (Weight::DbReads(5), actions);
        }
        let (voters, edges) = self.voters_with_weights(total_issuance);
        let weight = Weight::ElectionPhragmen(
            count_as_u32(candidates.len()),
            count_as_u32(voters.len()),
            edges,
        );
        assert(voters@.len() == ballots_view(voters@).len());
        match seq_phragmen(num_to_elect, ids_of(&candidates), voters) {
            Ok(winners) => {
                let actions = self.conclude_election(&winners, total_issuance);
                proof {
                    lemma_elected_seats(self.config, state, winners@, total_issuance);
                }
                (weight, actions)
            },
            Err(_) => {
                actions.push(RawAction::DepositEvent(RawEvent::ElectionError));
                assert(actions_view(actions@) =~= seq![
                    RawAction::DepositEvent(RawEvent::ElectionError),
                ]);
                (weight, actions)
            },
        }
    }

    /// Whether an election is due at a block.
    pub fn is_election_due(&self, n: BlockNumber) -> (r: bool)
        ensures
            r == election_due(self.config, n),
    {
        let term: BlockNumber = self.config.term_duration();
        term != 0 && n % term == 0
    }

    /// Checks at the start of a block if an election is due, and runs it.
    pub fn on_initialize(&mut self, n: BlockNumber, total_issuance: Balance) -> (r: (
        Weight,
        Vec<Action>,
    ))
        requires
            election_due(old(self).config, n) ==> can_elect(old(self).config, old(self)@),
        ensures
            final(self).config == old(self).config,
            election_due(old(self).config, n) ==> {
                &&& final(self)@ == state_after_round(old(self).config, old(self)@, total_issuance)
                &&& r.0 == round_weight(old(self)@)
                &&& actions_view(r.1@) == round_actions(
                    old(self).config,
                    old(self)@,
                    total_issuance,
                )
            },
            !election_due(old(self).config, n) ==> {
                &&& final(self)@ == old(self)@
                &&& r.0 == Weight::Zero
                &&& actions_view(r.1@) == Seq::<ActionView>::empty()
            },
            old(self)@.wf() ==> final(self)@.wf(),
            election_due(old(self).config, n) && round_held(
                old(self).config,
                old(self)@,
                total_issuance,
            ) ==> {
                &&& sound_election(old(self).config, old(self)@, total_issuance)
                &&& sound_outcome(old(self).config, old(self)@, final(self)@)
            },
    {
        if self.is_election_due(n) {
            self.do_phragmen(total_issuance)
        } else {
            (Weight::Zero, Vec::new())
        }
    }
}

} // verus!
