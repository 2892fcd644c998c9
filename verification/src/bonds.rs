//! The bonds: what is recorded as deposited is what is reserved.
//!
//! Every operation changes the deposits that are recorded of an account by exactly the amount by
//! which the reserved balance of the account changes, through the actions that the operation
//! returns and the reservations that it asks for. So no deposit is returned or slashed twice, none
//! is forgotten, and none exceeds what is reserved for it.

use vstd::prelude::*;

use crate::candidacy::{
    kicking_actions, removal_actions, renounced_state, renouncing_actions, renouncing_error,
    with_candidate, without_member,
};
use crate::config::Trait;
use crate::election::{
    backed_winners, elected_state, election_actions, losers, method_result, new_members,
    new_runners_up, recorded_deposit, round_actions, slashes, state_after_round,
};
use crate::ids::{entry_of, ids, lemma_place, lemma_without_entry, place, with_entry, without_entry};
use crate::outcome::{lemma_elected_wf, round_held, sound_election};
use crate::phragmen::backed_once;
use crate::state::{voter_ids, voter_of, State};
use crate::types::{
    AccountId, ActionView, Balance, BondChange, ExtendedBalance, Origin, RawAction, Renouncing,
    Seat, VoterView,
};
use crate::voting::{
    bond_change, defunct_voters, farewell, farewells, useful_voters, with_voter, without_voter,
};

verus! {

/// The sum of the deposits that a list holds of an account.
pub open spec fn bond_sum(deposits: Seq<(AccountId, Balance)>, who: AccountId) -> int
    decreases deposits.len(),
{
    if deposits.len() == 0 {
        0
    } else {
        bond_sum(deposits.drop_last(), who) + bond_of(deposits.last(), who)
    }
}

/// What one deposit adds to the sum of an account.
pub open spec fn bond_of(deposit: (AccountId, Balance), who: AccountId) -> int {
    if deposit.0 == who {
        deposit.1 as int
    } else {
        0
    }
}

/// The deposits of the voters.
pub open spec fn voting_bonds(voting: Seq<(AccountId, VoterView)>) -> Seq<(AccountId, Balance)> {
    voting.map_values(|v: (AccountId, VoterView)| (v.0, v.1.deposit))
}

/// All deposits that are recorded of an account: for its candidacy or its seat, and for its votes.
pub open spec fn recorded_bonds(state: State, who: AccountId) -> int {
    bond_sum(state.all_candidates(), who) + bond_sum(voting_bonds(state.voting), who)
}

/// What an action takes from the reserved balance of an account.
pub open spec fn released_by(action: ActionView, who: AccountId) -> int {
    match action {
        RawAction::Unreserve(account, amount) => bond_of((account, amount), who),
        RawAction::SlashReserved(account, amount, _) => bond_of((account, amount), who),
        _ => 0,
    }
}

/// What a list of actions takes from the reserved balance of an account.
pub open spec fn released(actions: Seq<ActionView>, who: AccountId) -> int
    decreases actions.len(),
{
    if actions.len() == 0 {
        0
    } else {
        released(actions.drop_last(), who) + released_by(actions.last(), who)
    }
}

/// What a change of a bond adds to the reserved balance of the voter.
pub open spec fn bond_added(bond: BondChange) -> int {
    match bond {
        BondChange::Reserve(amount) => amount as int,
        BondChange::Keep => 0,
        BondChange::Unreserve(amount) => -amount,
    }
}

/// The deposits of a list of seats.
pub open spec fn seat_bonds(seats: Seq<Seat>) -> Seq<(AccountId, Balance)> {
    seats.map_values(|s: Seat| (s.who, s.deposit))
}

/// The sum over two lists, one behind the other.
pub proof fn lemma_bond_sum_add(
    a: Seq<(AccountId, Balance)>,
    b: Seq<(AccountId, Balance)>,
    who: AccountId,
)
    ensures
        bond_sum(a + b, who) == bond_sum(a, who) + bond_sum(b, who),
    decreases b.len(),
{
    if b.len() == 0 {
        assert(a + b =~= a);
    } else {
        lemma_bond_sum_add(a, b.drop_last(), who);
        assert((a + b).drop_last() =~= a + b.drop_last());
    }
}

/// The sum over a list that one entry has left.
pub proof fn lemma_bond_sum_remove(deposits: Seq<(AccountId, Balance)>, at: int, who: AccountId)
    requires
        0 <= at < deposits.len(),
    ensures
        bond_sum(deposits.remove(at), who) == bond_sum(deposits, who) - bond_of(deposits[at], who),
    decreases deposits.len(),
{
    if at == deposits.len() - 1 {
        assert(deposits.remove(at) =~= deposits.drop_last());
    } else {
        lemma_bond_sum_remove(deposits.drop_last(), at, who);
        assert(deposits.remove(at).drop_last() =~= deposits.drop_last().remove(at));
    }
}

/// The sum over a list that one entry has joined.
pub proof fn lemma_bond_sum_insert(
    deposits: Seq<(AccountId, Balance)>,
    at: int,
    deposit: (AccountId, Balance),
    who: AccountId,
)
    requires
        0 <= at <= deposits.len(),
    ensures
        bond_sum(deposits.insert(at, deposit), who) == bond_sum(deposits, who) + bond_of(
            deposit,
            who,
        ),
{
    let after = deposits.insert(at, deposit);
    lemma_bond_sum_remove(after, at, who);
    assert(after.remove(at) =~= deposits);
}

/// The sum of an account that is in a list once, or not at all.
pub proof fn lemma_bond_sum_unique(deposits: Seq<(AccountId, Balance)>, who: AccountId)
    requires
        ids(deposits).no_duplicates(),
    ensures
        bond_sum(deposits, who) == recorded_deposit(deposits, who),
        !ids(deposits).contains(who) ==> bond_sum(deposits, who) == 0,
    decreases deposits.len(),
{
    if deposits.len() > 0 {
        let rest = deposits.drop_first();
        assert(ids(rest) =~= ids(deposits).drop_first());
        assert forall|i: int, j: int|
            0 <= i < ids(rest).len() && 0 <= j < ids(rest).len() && i != j implies ids(rest)[i]
            != ids(rest)[j] by {
            assert(ids(deposits)[i + 1] != ids(deposits)[j + 1]);
        }
        lemma_bond_sum_unique(rest, who);
        lemma_bond_sum_remove(deposits, 0, who);
        assert(deposits.remove(0) =~= rest);
        if deposits[0].0 == who {
            assert(!ids(rest).contains(who)) by {
                if ids(rest).contains(who) {
                    let i = ids(rest).index_of(who);
                    assert(ids(deposits)[i + 1] == ids(deposits)[0]);
                }
            }
        }
        if !ids(deposits).contains(who) {
            assert(ids(deposits)[0] != who);
            if ids(rest).contains(who) {
                let i = ids(rest).index_of(who);
                assert(ids(deposits)[i + 1] == who);
            }
        }
    }
}

/// What two lists of actions take, one behind the other.
pub proof fn lemma_released_add(a: Seq<ActionView>, b: Seq<ActionView>, who: AccountId)
    ensures
        released(a + b, who) == released(a, who) + released(b, who),
    decreases b.len(),
{
    if b.len() == 0 {
        assert(a + b =~= a);
    } else {
        lemma_released_add(a, b.drop_last(), who);
        assert((a + b).drop_last() =~= a + b.drop_last());
    }
}

/// What one more action takes.
pub proof fn lemma_released_push(a: Seq<ActionView>, action: ActionView, who: AccountId)
    ensures
        released(a.push(action), who) == released(a, who) + released_by(action, who),
{
    assert(a.push(action).drop_last() =~= a);
}

/// What slashing takes is the deposits of the slashed.
pub proof fn lemma_slashes_released(losing: Seq<(AccountId, Balance)>, who: AccountId)
    ensures
        released(slashes(losing), who) == bond_sum(losing, who),
    decreases losing.len(),
{
    if losing.len() > 0 {
        let (account, deposit) = losing.last();
        let before = slashes(losing.drop_last());
        lemma_slashes_released(losing.drop_last(), who);
        let slashed = before.push(
            RawAction::SlashReserved(
                account,
                deposit,
                crate::types::SlashHandler::LoserCandidate,
            ),
        );
        lemma_released_push(
            before,
            RawAction::SlashReserved(
                account,
                deposit,
                crate::types::SlashHandler::LoserCandidate,
            ),
            who,
        );
        lemma_released_push(
            slashed,
            RawAction::DepositEvent(crate::types::RawEvent::CandidateSlashed(account, deposit)),
            who,
        );
    }
}

/// The deposits recorded for candidacies and seats, list by list.
pub proof fn lemma_candidate_bonds(state: State, who: AccountId)
    ensures
        bond_sum(state.all_candidates(), who) == bond_sum(state.candidates, who) + bond_sum(
            seat_bonds(state.members),
            who,
        ) + bond_sum(seat_bonds(state.runners_up), who),
{
    let members = seat_bonds(state.members);
    let runners_up = seat_bonds(state.runners_up);
    assert(state.implicit_candidates() =~= members + runners_up);
    lemma_bond_sum_add(members, runners_up, who);
    lemma_bond_sum_add(state.candidates, state.implicit_candidates(), who);
}

/// Submitting candidacy records what has been reserved for it.
pub proof fn law_candidacy_bond(
    state: State,
    candidate: AccountId,
    deposit: Balance,
    who: AccountId,
)
    requires
        state.wf(),
        !state.stands(candidate),
    ensures
        recorded_bonds(with_candidate(state, candidate, deposit), who) == recorded_bonds(state, who)
            + bond_of((candidate, deposit), who),
{
    let after = with_candidate(state, candidate, deposit);
    let at = place(ids(state.candidates), candidate);
    lemma_place(ids(state.candidates), candidate);
    lemma_bond_sum_insert(state.candidates, at, (candidate, deposit), who);
    lemma_candidate_bonds(state, who);
    lemma_candidate_bonds(after, who);
}

/// The deposits of a list of seats without one of them.
proof fn lemma_seat_bonds_without(seats: Seq<Seat>, gone: AccountId, who: AccountId)
    requires
        ids(seats).no_duplicates(),
        ids(seats).contains(gone),
    ensures
        bond_sum(seat_bonds(without_entry(seats, gone)), who) == bond_sum(seat_bonds(seats), who)
            - bond_of((gone, entry_of(seats, gone).deposit), who),
{
    lemma_without_entry(seats, gone);
    let at = ids(seats).index_of_first(gone).unwrap();
    lemma_bond_sum_remove(seat_bonds(seats), at, who);
    assert(seat_bonds(without_entry(seats, gone)) =~= seat_bonds(seats).remove(at));
    assert(seat_bonds(seats)[at] == (gone, entry_of(seats, gone).deposit));
}

/// The deposits that are recorded once a member has left and the best runner-up has moved up.
proof fn lemma_without_member_bonds(state: State, gone: AccountId, who: AccountId)
    requires
        state.wf(),
        ids(state.members).contains(gone),
    ensures
        recorded_bonds(without_member(state, gone), who) == recorded_bonds(state, who) - bond_of(
            (gone, entry_of(state.members, gone).deposit),
            who,
        ),
{
    let after = without_member(state, gone);
    let left = without_entry(state.members, gone);
    lemma_without_entry(state.members, gone);
    lemma_seat_bonds_without(state.members, gone, who);
    lemma_candidate_bonds(state, who);
    lemma_candidate_bonds(after, who);
    if state.runners_up.len() > 0 {
        let next = state.runners_up.last();
        assert(ids(state.runners_up)[state.runners_up.len() - 1] == next.who);
        assert(ids(state.runners_up).contains(next.who));
        assert(!ids(left).contains(next.who));
        lemma_place(ids(left), next.who);
        let at = place(ids(left), next.who);
        assert(seat_bonds(with_entry(left, next)) =~= seat_bonds(left).insert(
            at,
            (next.who, next.deposit),
        ));
        lemma_bond_sum_insert(seat_bonds(left), at, (next.who, next.deposit), who);
        assert(seat_bonds(state.runners_up).drop_last() =~= seat_bonds(
            state.runners_up.drop_last(),
        ));
    }
}

/// What the removal of a member takes from the reserved balances.
proof fn lemma_removal_released(
    state: State,
    gone: AccountId,
    slash: bool,
    prime: Option<AccountId>,
    who: AccountId,
)
    ensures
        released(removal_actions(state, gone, slash, prime), who) == bond_of(
            (gone, entry_of(state.members, gone).deposit),
            who,
        ),
{
    reveal_with_fuel(released, 6);
}

/// Renouncing, in whatever role, returns exactly the deposit that was recorded.
pub proof fn law_renouncing_bond(
    state: State,
    origin: Origin,
    renouncing: Renouncing,
    prime: Option<AccountId>,
    who: AccountId,
)
    requires
        state.wf(),
        renouncing_error(state, origin, renouncing) is None,
    ensures
        recorded_bonds(renounced_state(state, origin->Signed_0, renouncing), who)
            == recorded_bonds(state, who) - released(
            renouncing_actions(state, origin->Signed_0, renouncing, prime),
            who,
        ),
{
    let gone = origin->Signed_0;
    let after = renounced_state(state, gone, renouncing);
    lemma_candidate_bonds(state, who);
    lemma_candidate_bonds(after, who);
    reveal_with_fuel(released, 2);
    match renouncing {
        Renouncing::Member => {
            lemma_without_member_bonds(state, gone, who);
            lemma_removal_released(state, gone, false, prime, who);
            lemma_released_push(
                removal_actions(state, gone, false, prime),
                RawAction::DepositEvent(crate::types::RawEvent::MemberRenounced(gone)),
                who,
            );
        },
        Renouncing::RunnerUp => {
            lemma_seat_bonds_without(state.runners_up, gone, who);
        },
        Renouncing::Candidate(_) => {
            lemma_without_entry(state.candidates, gone);
            let at = ids(state.candidates).index_of_first(gone).unwrap();
            lemma_bond_sum_remove(state.candidates, at, who);
        },
    }
}

/// Kicking a member slashes exactly the deposit that was recorded.
pub proof fn law_kicking_bond(
    state: State,
    member: AccountId,
    prime: Option<AccountId>,
    who: AccountId,
)
    requires
        state.wf(),
        ids(state.members).contains(member),
    ensures
        recorded_bonds(without_member(state, member), who) == recorded_bonds(state, who)
            - released(kicking_actions(state, member, prime), who),
{
    lemma_without_member_bonds(state, member, who);
    lemma_removal_released(state, member, true, prime, who);
    lemma_released_push(
        removal_actions(state, member, true, prime),
        RawAction::DepositEvent(crate::types::RawEvent::MemberKicked(member)),
        who,
    );
}

/// Placing a vote changes the recorded deposit as it changes the bond.
pub proof fn law_vote_bond(state: State, account: AccountId, voter: VoterView, who: AccountId)
    ensures
        recorded_bonds(
            State { voting: with_voter(state.voting, account, voter), ..state },
            who,
        ) == recorded_bonds(state, who) + if who == account {
            bond_added(bond_change(voter_of(state.voting, account).deposit, voter.deposit))
        } else {
            0
        },
{
    let accounts = voter_ids(state.voting);
    let after = State { voting: with_voter(state.voting, account, voter), ..state };
    let before = voting_bonds(state.voting);
    let entry = (account, voter.deposit);
    assert(after.all_candidates() =~= state.all_candidates());
    accounts.index_of_first_ensures(account);
    if accounts.contains(account) {
        let at = accounts.index_of_first(account).unwrap();
        lemma_bond_sum_remove(before, at, who);
        lemma_bond_sum_insert(before.remove(at), at, entry, who);
        assert(voting_bonds(after.voting) =~= before.remove(at).insert(at, entry));
    } else {
        lemma_bond_sum_insert(before, before.len() as int, entry, who);
        assert(voting_bonds(after.voting) =~= before.insert(before.len() as int, entry));
    }
}

/// Removing a voter returns exactly the deposit that was recorded.
pub proof fn law_remove_voter_bond<T: Trait>(
    config: T,
    state: State,
    account: AccountId,
    who: AccountId,
)
    ensures
        recorded_bonds(State { voting: without_voter(state.voting, account), ..state }, who)
            == recorded_bonds(state, who) - released(
            farewell(config, account, voter_of(state.voting, account).deposit),
            who,
        ),
{
    let accounts = voter_ids(state.voting);
    let after = State { voting: without_voter(state.voting, account), ..state };
    let before = voting_bonds(state.voting);
    assert(after.all_candidates() =~= state.all_candidates());
    reveal_with_fuel(released, 3);
    accounts.index_of_first_ensures(account);
    if accounts.contains(account) {
        let at = accounts.index_of_first(account).unwrap();
        lemma_bond_sum_remove(before, at, who);
        assert(voting_bonds(after.voting) =~= before.remove(at));
    }
}

/// The deposits of the voters in two complementary parts of a list.
proof fn lemma_voting_bonds_split(
    voting: Seq<(AccountId, VoterView)>,
    keep: spec_fn((AccountId, VoterView)) -> bool,
    drop: spec_fn((AccountId, VoterView)) -> bool,
    who: AccountId,
)
    requires
        forall|v: (AccountId, VoterView)| #[trigger] keep(v) != drop(v),
    ensures
        bond_sum(voting_bonds(voting.filter(keep)), who) + bond_sum(
            voting_bonds(voting.filter(drop)),
            who,
        ) == bond_sum(voting_bonds(voting), who),
    decreases voting.len(),
{
    reveal(Seq::filter);
    if voting.len() > 0 {
        let front = voting.drop_last();
        let last = voting.last();
        let entry = (last.0, last.1.deposit);
        lemma_voting_bonds_split(front, keep, drop, who);
        assert(voting_bonds(voting).drop_last() =~= voting_bonds(front));
        let part = if keep(last) { keep } else { drop };
        assert(voting_bonds(voting.filter(part)).drop_last() =~= voting_bonds(front.filter(part)));
        assert(voting_bonds(voting.filter(part)).last() == entry);
    }
}

/// What the removal of several voters takes is their deposits.
proof fn lemma_farewells_released<T: Trait>(
    config: T,
    voters: Seq<(AccountId, VoterView)>,
    who: AccountId,
)
    ensures
        released(farewells(config, voters), who) == bond_sum(voting_bonds(voters), who),
    decreases voters.len(),
{
    if voters.len() > 0 {
        let front = voters.drop_last();
        let last = voters.last();
        lemma_farewells_released(config, front, who);
        lemma_released_add(
            farewells(config, front),
            farewell(config, last.0, last.1.deposit),
            who,
        );
        reveal_with_fuel(released, 3);
        assert(voting_bonds(voters).drop_last() =~= voting_bonds(front));
    }
}

/// Cleaning up defunct voters returns exactly their deposits.
pub proof fn law_cleaning_bond<T: Trait>(config: T, state: State, who: AccountId)
    ensures
        recorded_bonds(State { voting: useful_voters(state), ..state }, who) == recorded_bonds(
            state,
            who,
        ) - released(farewells(config, defunct_voters(state)), who),
{
    let after = State { voting: useful_voters(state), ..state };
    assert(after.all_candidates() =~= state.all_candidates());
    lemma_voting_bonds_split(
        state.voting,
        |v: (AccountId, VoterView)| !state.defunct(v.1.votes),
        |v: (AccountId, VoterView)| state.defunct(v.1.votes),
        who,
    );
    lemma_farewells_released(config, defunct_voters(state), who);
}

/// The candidates of the next round are all different.
pub proof fn lemma_all_candidates_unique(state: State)
    requires
        state.seats_wf(),
    ensures
        ids(state.all_candidates()).no_duplicates(),
{
    let all = ids(state.all_candidates());
    let c = state.candidates.len() as int;
    let m = state.members.len() as int;
    let candidates = ids(state.candidates);
    let members = ids(state.members);
    let runners_up = ids(state.runners_up);
    assert(all =~= candidates + members + runners_up);
    assert forall|i: int, j: int| 0 <= i < j < all.len() implies all[i] != all[j] by {
        if j < c {
            assert(candidates[i] < candidates[j]);
        } else if j < c + m {
            if i < c {
                assert(candidates.contains(all[i]) && members.contains(all[j]));
            } else {
                assert(members[i - c] < members[j - c]);
            }
        } else {
            assert(runners_up.contains(all[j])) by {
                assert(runners_up[j - c - m] == all[j]);
            }
            if i < c {
                assert(candidates.contains(all[i])) by {
                    assert(candidates[i] == all[i]);
                }
            } else if i < c + m {
                assert(members.contains(all[i])) by {
                    assert(members[i - c] == all[i]);
                }
            } else {
                assert(runners_up[i - c - m] != runners_up[j - c - m]);
            }
        }
    }
}

/// The sum over the part of a list that either keeps all entries of an account or none.
proof fn lemma_bond_sum_filter(
    deposits: Seq<(AccountId, Balance)>,
    keep: spec_fn((AccountId, Balance)) -> bool,
    who: AccountId,
    kept: bool,
)
    requires
        forall|d: (AccountId, Balance)| d.0 == who ==> #[trigger] keep(d) == kept,
    ensures
        bond_sum(deposits.filter(keep), who) == if kept {
            bond_sum(deposits, who)
        } else {
            0
        },
    decreases deposits.len(),
{
    reveal(Seq::filter);
    if deposits.len() > 0 {
        let front = deposits.drop_last();
        lemma_bond_sum_filter(front, keep, who, kept);
        if keep(deposits.last()) {
            assert(deposits.filter(keep).drop_last() =~= front.filter(keep));
        }
    }
}

/// The deposit that new seats hold of an account is the one recorded of it as a candidate.
pub proof fn lemma_deposit_taken_over(
    candidates: Seq<(AccountId, Balance)>,
    deposits: Seq<(AccountId, Balance)>,
    who: AccountId,
)
    requires
        forall|i: int|
            0 <= i < deposits.len() ==> (#[trigger] deposits[i]).1 == recorded_deposit(
                candidates,
                deposits[i].0,
            ),
        ids(deposits).contains(who),
    ensures
        recorded_deposit(deposits, who) == recorded_deposit(candidates, who),
    decreases deposits.len(),
{
    assert(deposits[0].1 == recorded_deposit(candidates, deposits[0].0));
    if deposits[0].0 != who {
        let rest = deposits.drop_first();
        let i = ids(deposits).index_of(who);
        assert(ids(rest)[i - 1] == who);
        assert forall|i: int| 0 <= i < rest.len() implies (#[trigger] rest[i]).1
            == recorded_deposit(candidates, rest[i].0) by {
            assert(rest[i] == deposits[i + 1]);
        }
        lemma_deposit_taken_over(candidates, rest, who);
    }
}

/// The candidates after an election are its new seats, with the deposits that they had before.
pub proof fn lemma_elected_deposits<T: Trait>(
    config: T,
    state: State,
    winners: Seq<(AccountId, ExtendedBalance)>,
    issuance: Balance,
)
    ensures
        ({
            let backed = backed_winners(config, winners, issuance);
            let next = elected_state(config, state, winners, issuance).all_candidates();
            &&& ids(next) == ids(new_members(config, backed)) + ids(new_runners_up(config, backed))
            &&& forall|i: int|
                0 <= i < next.len() ==> (#[trigger] next[i]).1 == recorded_deposit(
                    state.all_candidates(),
                    next[i].0,
                )
        }),
{
    let backed = backed_winners(config, winners, issuance);
    let next = elected_state(config, state, winners, issuance).all_candidates();
    assert(ids(next) =~= ids(new_members(config, backed)) + ids(new_runners_up(config, backed)));
}

/// An election slashes the losers by exactly the deposits that were recorded of them, and the
/// deposits of the others move on to their seats.
pub proof fn law_election_bond<T: Trait>(
    config: T,
    state: State,
    winners: Seq<(AccountId, ExtendedBalance)>,
    issuance: Balance,
    who: AccountId,
)
    requires
        state.seats_wf(),
        backed_once(winners),
    ensures
        recorded_bonds(elected_state(config, state, winners, issuance), who) == recorded_bonds(
            state,
            who,
        ) - released(election_actions(config, state, winners, issuance), who),
{
    let all = state.all_candidates();
    let backed = backed_winners(config, winners, issuance);
    let members = ids(new_members(config, backed));
    let runners_up = ids(new_runners_up(config, backed));
    let after = elected_state(config, state, winners, issuance);
    let next = after.all_candidates();
    let actions = election_actions(config, state, winners, issuance);
    let losing = losers(all, members, runners_up);
    let elected = members.contains(who) || runners_up.contains(who);

    lemma_all_candidates_unique(state);
    lemma_bond_sum_unique(all, who);
    lemma_bond_sum_filter(
        all,
        |c: (AccountId, Balance)| !members.contains(c.0) && !runners_up.contains(c.0),
        who,
        !elected,
    );
    lemma_slashes_released(losing, who);
    let first = actions.take(2);
    let last = actions.subrange(actions.len() - 1, actions.len() as int);
    assert(actions =~= first + slashes(losing) + last);
    lemma_released_add(first + slashes(losing), last, who);
    lemma_released_add(first, slashes(losing), who);
    assert(released(first, who) == 0 && released(last, who) == 0) by {
        reveal_with_fuel(released, 3);
    }

    lemma_elected_deposits(config, state, winners, issuance);
    lemma_elected_wf(config, state, winners, issuance);
    lemma_all_candidates_unique(after);
    lemma_bond_sum_unique(next, who);
    assert(ids(next).contains(who) <==> elected) by {
        if members.contains(who) {
            assert(ids(next)[members.index_of(who)] == who);
        }
        if runners_up.contains(who) {
            assert(ids(next)[members.len() + runners_up.index_of(who)] == who);
        }
        if ids(next).contains(who) {
            let i = ids(next).index_of(who);
            if i < members.len() {
                assert(members[i] == who);
            } else {
                assert(runners_up[i - members.len()] == who);
            }
        }
    }
    if elected {
        lemma_deposit_taken_over(all, next, who);
    }
}

/// A round leaves recorded exactly what it leaves reserved, whether an election takes place or not.
pub proof fn law_round_bond<T: Trait>(config: T, state: State, issuance: Balance, who: AccountId)
    requires
        state.seats_wf(),
        round_held(config, state, issuance) ==> sound_election(config, state, issuance),
    ensures
        recorded_bonds(state_after_round(config, state, issuance), who) == recorded_bonds(
            state,
            who,
        ) - released(round_actions(config, state, issuance), who),
{
    if round_held(config, state, issuance) {
        let winners = method_result(config, state, issuance).unwrap();
        law_election_bond(config, state, winners, issuance, who);
    } else {
        reveal_with_fuel(released, 2);
    }
}

} // verus!
