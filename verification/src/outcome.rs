//! What holds of the storage after an election, whoever wins.

use vstd::prelude::*;

use crate::arith::smaller;
use crate::config::Trait;
use crate::election::{
    backed_winners, ballots, elected_state, from_winner, lemma_backed_winners,
    lemma_new_members_ascending, method_result, new_members, new_runners_up, seated,
};
use crate::ids::{ids, lemma_sort_by_id};
use crate::phragmen::{backed_once, sound_winners, voted_for};
use crate::state::State;
use crate::types::{AccountId, Balance, ExtendedBalance, VoterView};

verus! {

/// The number of seats that an election fills.
pub open spec fn seats_to_fill<T: Trait>(config: T) -> int {
    config.desired_runners_up_spec() + config.desired_members_spec()
}

/// Whether an election takes place in a round: somebody stands, and the election method succeeds.
pub open spec fn round_held<T: Trait>(config: T, state: State, issuance: Balance) -> bool {
    state.all_candidates().len() > 0 && method_result(config, state, issuance) is Some
}

/// Whether the winners of a round are sound, whoever they are.
pub open spec fn sound_election<T: Trait>(config: T, state: State, issuance: Balance) -> bool {
    sound_winners(
        seats_to_fill(config),
        ids(state.all_candidates()),
        ballots(config, state.voting, issuance),
        method_result(config, state, issuance).unwrap(),
    )
}

/// No more members and runners-up than desired.
pub open spec fn seats_within<T: Trait>(config: T, state: State) -> bool {
    &&& state.members.len() <= config.desired_members_spec()
    &&& state.runners_up.len() <= config.desired_runners_up_spec()
}

/// Whether some voter votes for the account.
pub open spec fn has_vote(voting: Seq<(AccountId, VoterView)>, who: AccountId) -> bool {
    exists|v: int| 0 <= v < voting.len() && (#[trigger] voting[v]).1.votes.contains(who)
}

/// Whether the account holds a seat, as a member or as a runner-up.
pub open spec fn holds_seat(state: State, who: AccountId) -> bool {
    ids(state.members).contains(who) || ids(state.runners_up).contains(who)
}

/// All who hold a seat in the second state stand in the first one, and somebody votes for them.
pub open spec fn seats_earned(before: State, after: State) -> bool {
    forall|a: AccountId| #[trigger]
        holds_seat(after, a) ==> before.stands(a) && has_vote(before.voting, a)
}

/// No backing is lost entirely when it is converted into currency.
pub open spec fn backing_survives<T: Trait>(config: T) -> bool {
    forall|e: ExtendedBalance, issuance: Balance|
        e > 0 ==> #[trigger] config.to_currency_spec(e, issuance) > 0
}

/// What holds after every election, of the storage before and after it: the seats are in order and
/// not more than desired, they have gone to those who stood and had votes, and, if conversion does
/// not lose it, each has a backing.
pub open spec fn sound_outcome<T: Trait>(config: T, before: State, after: State) -> bool {
    &&& after.seats_wf()
    &&& seats_within(config, after)
    &&& seats_earned(before, after)
    &&& backing_survives(config) ==> after.seats_backed()
}

/// The accounts of new seats.
pub proof fn lemma_seated_ids(
    candidates: Seq<(AccountId, Balance)>,
    elected: Seq<(AccountId, Balance)>,
)
    ensures
        ids(seated(candidates, elected)) == ids(elected),
{
    assert(ids(seated(candidates, elected)) =~= ids(elected));
}

/// Members and runners-up are the backed winners, split into two: each backed winner is in exactly
/// one of the two lists, and nobody else is in any.
pub proof fn lemma_split<T: Trait>(config: T, backed: Seq<(AccountId, Balance)>)
    requires
        ids(backed).no_duplicates(),
    ensures
        ids(new_runners_up(config, backed)).no_duplicates(),
        forall|a: AccountId|
            !(#[trigger] ids(new_members(config, backed)).contains(a) && ids(
                new_runners_up(config, backed),
            ).contains(a)),
        forall|a: AccountId| #[trigger]
            ids(backed).contains(a) <==> ids(new_members(config, backed)).contains(a) || ids(
                new_runners_up(config, backed),
            ).contains(a),
        new_members(config, backed).len() == smaller(
            config.desired_members_spec() as int,
            backed.len() as int,
        ),
        new_runners_up(config, backed).len() + new_members(config, backed).len() == backed.len(),
{
    let split = smaller(config.desired_members_spec() as int, backed.len() as int);
    let front = backed.take(split);
    let back = backed.skip(split);
    let runners_up = new_runners_up(config, backed);
    lemma_sort_by_id(front);
    assert(runners_up =~= back.reverse());
    assert forall|i: int, j: int|
        0 <= i < ids(runners_up).len() && 0 <= j < ids(runners_up).len() && i != j implies ids(
        runners_up,
    )[i] != ids(runners_up)[j] by {
        assert(ids(backed)[backed.len() - 1 - i] != ids(backed)[backed.len() - 1 - j]);
    }
    assert forall|a: AccountId| #[trigger] ids(front).contains(a) implies exists|i: int|
        0 <= i < split && ids(backed)[i] == a by {
        let i = ids(front).index_of(a);
        assert(ids(backed)[i] == a);
    }
    assert forall|a: AccountId| #[trigger] ids(runners_up).contains(a) implies exists|i: int|
        split <= i < backed.len() && ids(backed)[i] == a by {
        let i = ids(runners_up).index_of(a);
        assert(ids(backed)[backed.len() - 1 - i] == a);
    }
    assert forall|a: AccountId|
        !(#[trigger] ids(new_members(config, backed)).contains(a) && ids(runners_up).contains(
            a,
        )) by {
        if ids(new_members(config, backed)).contains(a) && ids(runners_up).contains(a) {
            assert(ids(front).contains(a));
        }
    }
    assert forall|a: AccountId| #[trigger]
        ids(backed).contains(a) <==> ids(new_members(config, backed)).contains(a) || ids(
            runners_up,
        ).contains(a) by {
        if ids(backed).contains(a) {
            let i = ids(backed).index_of(a);
            if i < split {
                assert(ids(front)[i] == a);
                assert(ids(front).contains(a));
            } else {
                assert(ids(runners_up)[backed.len() - 1 - i] == a);
            }
        }
        if ids(new_members(config, backed)).contains(a) {
            assert(ids(front).contains(a));
        }
    }
}

/// An election keeps the invariant.
pub proof fn lemma_elected_wf<T: Trait>(
    config: T,
    state: State,
    winners: Seq<(AccountId, ExtendedBalance)>,
    issuance: Balance,
)
    requires
        backed_once(winners),
    ensures
        elected_state(config, state, winners, issuance).seats_wf(),
        state.voting_wf() ==> elected_state(config, state, winners, issuance).wf(),
{
    let backed = backed_winners(config, winners, issuance);
    lemma_backed_winners(config, winners, issuance);
    lemma_new_members_ascending(config, winners, issuance);
    lemma_split(config, backed);
    lemma_seated_ids(state.all_candidates(), new_members(config, backed));
    lemma_seated_ids(state.all_candidates(), new_runners_up(config, backed));
}

/// An election gives seats only to those who stand and for whom somebody votes, and no more of
/// them than desired.
pub proof fn lemma_elected_seats<T: Trait>(
    config: T,
    state: State,
    winners: Seq<(AccountId, ExtendedBalance)>,
    issuance: Balance,
)
    requires
        sound_winners(
            seats_to_fill(config),
            ids(state.all_candidates()),
            ballots(config, state.voting, issuance),
            winners,
        ),
    ensures
        seats_within(config, elected_state(config, state, winners, issuance)),
        seats_earned(state, elected_state(config, state, winners, issuance)),
{
    let backed = backed_winners(config, winners, issuance);
    let after = elected_state(config, state, winners, issuance);
    let voters = ballots(config, state.voting, issuance);
    lemma_backed_winners(config, winners, issuance);
    lemma_split(config, backed);
    lemma_seated_ids(state.all_candidates(), new_members(config, backed));
    lemma_seated_ids(state.all_candidates(), new_runners_up(config, backed));
    assert forall|a: AccountId| #[trigger] holds_seat(after, a) implies state.stands(a)
        && has_vote(state.voting, a) by {
        assert(ids(backed).contains(a));
        let k = ids(backed).index_of(a);
        assert(from_winner(config, winners, issuance, backed[k]));
        let i = choose|i: int|
            0 <= i < winners.len() && (#[trigger] winners[i]).1 != 0 && backed[k] == (
                winners[i].0,
                config.to_currency_spec(winners[i].1, issuance),
            );
        assert(winners[i].0 == a);
        assert(voted_for(voters, a));
        let v = choose|v: int| 
            0 <= v < voters.len() && (#[trigger] voters[v]).1 > 0 && voters[v].2.contains(a);
        assert(state.voting[v].1.votes.contains(a));
        lemma_stands(state, a);
    }
}

/// The candidates of the next round are those who stand.
pub proof fn lemma_stands(state: State, who: AccountId)
    ensures
        ids(state.all_candidates()).contains(who) <==> state.stands(who),
{
    let all = ids(state.all_candidates());
    let c = state.candidates.len() as int;
    let m = state.members.len() as int;
    if all.contains(who) {
        let i = all.index_of(who);
        if i < c {
            assert(ids(state.candidates)[i] == who);
        } else if i < c + m {
            assert(ids(state.members)[i - c] == who);
        } else {
            assert(ids(state.runners_up)[i - c - m] == who);
        }
    }
    if ids(state.candidates).contains(who) {
        assert(all[ids(state.candidates).index_of(who)] == who);
    } else if ids(state.members).contains(who) {
        assert(all[c + ids(state.members).index_of(who)] == who);
    } else if ids(state.runners_up).contains(who) {
        assert(all[c + m + ids(state.runners_up).index_of(who)] == who);
    }
}

/// Everybody whom an election seats has a backing, if conversion does not lose it.
pub proof fn lemma_elected_backed<T: Trait>(
    config: T,
    state: State,
    winners: Seq<(AccountId, ExtendedBalance)>,
    issuance: Balance,
)
    requires
        backing_survives(config),
    ensures
        elected_state(config, state, winners, issuance).seats_backed(),
{
    let backed = backed_winners(config, winners, issuance);
    let after = elected_state(config, state, winners, issuance);
    let split = smaller(config.desired_members_spec() as int, backed.len() as int);
    lemma_backed_winners(config, winners, issuance);
    assert forall|k: int| 0 <= k < backed.len() implies (#[trigger] backed[k]).1 > 0 by {
        assert(from_winner(config, winners, issuance, backed[k]));
        let i = choose|i: int|
            0 <= i < winners.len() && (#[trigger] winners[i]).1 != 0 && backed[k] == (
                winners[i].0,
                config.to_currency_spec(winners[i].1, issuance),
            );
        assert(config.to_currency_spec(winners[i].1, issuance) > 0);
    }
    let front = backed.take(split);
    let sorted = new_members(config, backed);
    lemma_sort_by_id(front);
    assert forall|i: int| 0 <= i < after.members.len() implies (
    #[trigger] after.members[i]).stake > 0 by {
        assert(sorted.contains(sorted[i]));
        assert(front.contains(sorted[i]));
        let k = front.index_of(sorted[i]);
        assert(backed[k].1 > 0);
    }
    assert forall|i: int| 0 <= i < after.runners_up.len() implies (
    #[trigger] after.runners_up[i]).stake > 0 by {
        assert(backed[backed.len() - 1 - i].1 > 0);
    }
}

} // verus!
