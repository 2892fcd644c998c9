//! What the calls of voters do, in terms of what goes in and what comes out.

use vstd::prelude::*;

use crate::config::Trait;
use crate::ids::{ascending, ids};
use crate::laws::plain::{
    candidates_in_order, first_at, lemma_actions, lemma_filter_picks, lemma_picks_same,
    lemma_same_module, lemma_same_voters, lemma_takes_part, lemma_votes_at_all, number_standing,
    picks, same_lists, same_module, same_setting, same_voter, seats_in_order, takes_part,
    votes_at_all,
};
use crate::state::{voter_ids, voter_of, voting_view, Module};
use crate::types::{
    AccountId, Action, Balance, BondChange, DispatchError, Error, Origin, RawAction, Voter,
    VoterView, Weight,
};
use crate::voting::{farewells, PendingVote};

verus! {

/// A vote is accepted exactly if it is signed, names at least one account and at most sixteen, no
/// more than stand, and its stake exceeds the minimum balance. What is accepted is what was asked
/// for.
pub proof fn law_vote_accepted<T: Trait>(
    module: &Module<T>,
    origin: Origin,
    votes: Vec<AccountId>,
    value: Balance,
    minimum_balance: Balance,
    result: Result<PendingVote, DispatchError>,
)
    requires
        call_ensures(Module::<T>::vote, (module, origin, votes, value, minimum_balance), result),
    ensures
        call_requires(Module::<T>::vote, (module, origin, votes, value, minimum_balance)),
        result is Ok <==> {
            &&& origin is Signed
            &&& 1 <= votes@.len() <= 16
            &&& votes@.len() <= number_standing(*module)
            &&& minimum_balance < value
        },
        result matches Ok(pending) ==> {
            &&& origin == Origin::Signed(pending.who)
            &&& pending.votes@ == votes@
            &&& pending.value == value
        },
{
}

/// A vote is refused for the first reason that applies: it is not signed, it names too many, it
/// names nobody, nobody stands, it names more than stand, or its stake does not exceed the minimum
/// balance.
pub proof fn law_vote_refused<T: Trait>(
    module: &Module<T>,
    origin: Origin,
    votes: Vec<AccountId>,
    value: Balance,
    minimum_balance: Balance,
    error: DispatchError,
)
    requires
        call_ensures(
            Module::<T>::vote,
            (module, origin, votes, value, minimum_balance),
            Err(error),
        ),
    ensures
        error == DispatchError::BadOrigin <==> !(origin is Signed),
        error == DispatchError::Module(Error::MaximumVotesExceeded) <==> origin is Signed
            && votes@.len() > 16,
        error == DispatchError::Module(Error::NoVotes) <==> origin is Signed && votes@.len() == 0,
        error == DispatchError::Module(Error::UnableToVote) <==> {
            &&& origin is Signed
            &&& 1 <= votes@.len() <= 16
            &&& number_standing(*module) == 0
        },
        error == DispatchError::Module(Error::TooManyVotes) <==> {
            &&& origin is Signed
            &&& 1 <= votes@.len() <= 16
            &&& 0 < number_standing(*module) < votes@.len()
        },
        error == DispatchError::Module(Error::LowBalance) <==> {
            &&& origin is Signed
            &&& 1 <= votes@.len() <= 16
            &&& votes@.len() <= number_standing(*module)
            &&& value <= minimum_balance
        },
{
}

/// A vote is bonded by the base and, for each account that it names, the factor, as far as balances
/// go. What is asked for is the difference to what the voter has deposited so far.
pub proof fn law_vote_bonded<T: Trait>(
    module: &Module<T>,
    origin: Origin,
    votes: Vec<AccountId>,
    value: Balance,
    minimum_balance: Balance,
    pending: PendingVote,
)
    requires
        call_ensures(
            Module::<T>::vote,
            (module, origin, votes, value, minimum_balance),
            Ok(pending),
        ),
    ensures
        ({
            let due = module.config.voting_bond_base_spec()
                + module.config.voting_bond_factor_spec() * votes@.len();
            &&& due <= Balance::MAX ==> pending.deposit == due
            &&& due > Balance::MAX ==> pending.deposit == Balance::MAX
        }),
        ({
            let asked = match pending.bond {
                BondChange::Reserve(amount) => amount as int,
                BondChange::Keep => 0,
                BondChange::Unreserve(amount) => -(amount as int),
            };
            &&& forall|i: int| #[trigger]
                first_at(module.voting@, pending.who, i) ==> module.voting@[i].1.deposit + asked
                    == pending.deposit
            &&& !votes_at_all(module.voting@, pending.who) ==> asked == pending.deposit
            &&& pending.bond is Reserve ==> asked > 0
            &&& pending.bond is Unreserve ==> asked < 0
        }),
{
    lemma_votes_at_all(module.voting@, pending.who);
    let factor = module.config.voting_bond_factor_spec();
    let count = votes@.len() as int;
    assert(factor * count >= 0) by (nonlinear_arith)
        requires
            factor >= 0,
            count >= 0,
    ;
    assert forall|i: int| #[trigger] first_at(
        module.voting@,
        pending.who,
        i,
    ) implies voter_of(module@.voting, pending.who).deposit
        == module.voting@[i].1.deposit by {
        assert(voting_view(module.voting@)[i] == (
            module.voting@[i].0,
            module.voting@[i].1@,
        ));
    }
}

/// The deposit of a number of votes starts at the base, and each further vote adds the factor, as
/// far as balances go.
pub proof fn law_deposit_per_vote<T: Trait>(
    module: &Module<T>,
    count: usize,
    deposit: Balance,
    next: Balance,
)
    requires
        count < u32::MAX,
        call_ensures(Module::<T>::deposit_of, (module, count), deposit),
        call_ensures(Module::<T>::deposit_of, (module, (count + 1) as usize), next),
    ensures
        count == 0 ==> deposit == module.config.voting_bond_base_spec(),
        next == deposit + module.config.voting_bond_factor_spec() || next == Balance::MAX
            && deposit + module.config.voting_bond_factor_spec() > Balance::MAX,
{
    let factor = module.config.voting_bond_factor_spec();
    assert(factor * (count + 1) == factor * count + factor && factor * count >= 0 && (count == 0
        ==> factor * count == 0)) by (nonlinear_arith)
        requires
            factor >= 0,
            count >= 0,
    ;
}

/// Of a number of votes only what fits into 32 bits counts for the deposit.
pub proof fn law_deposit_truncated<T: Trait>(
    module: &Module<T>,
    count: usize,
    rest: usize,
    deposit: Balance,
    other: Balance,
)
    requires
        rest == count as int % 0x1_0000_0000,
        call_ensures(Module::<T>::deposit_of, (module, count), deposit),
        call_ensures(Module::<T>::deposit_of, (module, rest), other),
    ensures
        call_requires(Module::<T>::deposit_of, (module, count)),
        deposit == other,
{
}

/// A vote stands once its bond is paid: the voter is recorded with the votes, with the deposit and
/// with the stake, as far as its balance goes, and that stake is locked. A voter is recorded once,
/// a new one last; nothing else changes.
pub proof fn law_vote_stands<T: Trait>(
    module: &mut Module<T>,
    pending: PendingVote,
    bond_paid: bool,
    total_balance: Balance,
    result: Result<(Option<Weight>, Vec<Action>), DispatchError>,
)
    requires
        call_ensures(
            Module::<T>::record_vote,
            (module, pending, bond_paid, total_balance),
            result,
        ),
    ensures
        call_requires(Module::<T>::record_vote, (module, pending, bond_paid, total_balance)),
        result is Err <==> pending.bond is Reserve && !bond_paid,
        result matches Err(e) ==> {
            &&& e == DispatchError::Module(Error::UnableToPayBond)
            &&& same_module(*final(module), *old(module))
        },
        result matches Ok((refund, actions)) ==> {
            let before = old(module).voting@;
            let after = final(module).voting@;
            let stake = if pending.value <= total_balance {
                pending.value
            } else {
                total_balance
            };
            &&& same_lists(*final(module), *old(module))
            &&& same_setting(*final(module), *old(module))
            &&& actions@.len() == 1
            &&& actions@[0] == RawAction::<Vec<AccountId>, Vec<(AccountId, Balance)>>::SetLock(
                old(module).config.module_id_spec(),
                pending.who,
                stake,
            )
            &&& forall|at: int| #[trigger]
                first_at(before, pending.who, at) ==> {
                    &&& after.len() == before.len()
                    &&& after[at].0 == pending.who
                    &&& after[at].1.votes@ == pending.votes@
                    &&& after[at].1.stake == stake
                    &&& after[at].1.deposit == pending.deposit
                    &&& forall|i: int|
                        0 <= i < before.len() && i != at ==> same_voter(
                            #[trigger] after[i],
                            before[i],
                        )
                }
            &&& !votes_at_all(before, pending.who) ==> {
                &&& after.len() == before.len() + 1
                &&& after.last().0 == pending.who
                &&& after.last().1.votes@ == pending.votes@
                &&& after.last().1.stake == stake
                &&& after.last().1.deposit == pending.deposit
                &&& forall|i: int|
                    0 <= i < before.len() ==> same_voter(#[trigger] after[i], before[i])
            }
        },
{
    let before = old(module).voting@;
    let after = final(module).voting@;
    let who = pending.who;
    lemma_votes_at_all(before, who);
    if result is Err {
        lemma_same_module(*final(module), *old(module));
    } else {
        let actions = result->Ok_0.1;
        lemma_actions(actions@);
        assert(voting_view(after).len() == after.len() && voting_view(before).len()
            == before.len());
        assert forall|i: int| 0 <= i < after.len() implies voting_view(after)[i] == (
            #[trigger] after[i].0,
            after[i].1@,
        ) by {}
        assert forall|at: int| #[trigger] first_at(before, who, at) implies {
            &&& after.len() == before.len()
            &&& voting_view(after)[at] == (after[at].0, after[at].1@)
            &&& forall|i: int|
                0 <= i < before.len() && i != at ==> same_voter(#[trigger] after[i], before[i])
        } by {
            assert forall|i: int| 0 <= i < before.len() && i != at implies same_voter(
                #[trigger] after[i],
                before[i],
            ) by {
                assert(voting_view(after)[i] == voting_view(before)[i]);
            }
        }
        if !votes_at_all(before, who) {
            assert(voting_view(after).last() == (after.last().0, after.last().1@));
            assert forall|i: int| 0 <= i < before.len() implies same_voter(
                #[trigger] after[i],
                before[i],
            ) by {
                assert(voting_view(after)[i] == voting_view(before)[i]);
            }
        }
        assert(actions@[0]@ is SetLock);
    }
}

/// A vote that asks for more is charged what was announced; one that leaves the bond as it is, or
/// gets something back, is charged by the number of its votes.
pub proof fn law_vote_charged<T: Trait>(
    module: &mut Module<T>,
    pending: PendingVote,
    bond_paid: bool,
    total_balance: Balance,
    refund: Option<Weight>,
    actions: Vec<Action>,
)
    requires
        call_ensures(
            Module::<T>::record_vote,
            (module, pending, bond_paid, total_balance),
            Ok((refund, actions)),
        ),
    ensures
        pending.bond is Reserve ==> refund is None,
        pending.bond is Keep ==> (refund matches Some(Weight::VoteEqual(n)) && n
            == pending.votes@.len() % 0x1_0000_0000),
        pending.bond is Unreserve ==> (refund matches Some(Weight::VoteLess(n)) && n
            == pending.votes@.len() % 0x1_0000_0000),
{
}

/// What becomes of a list of voters when one of them leaves: the others stay, in their order.
pub open spec fn left_by(
    before: Seq<(AccountId, Voter<AccountId, Balance>)>,
    after: Seq<(AccountId, Voter<AccountId, Balance>)>,
    at: int,
) -> bool {
    &&& after.len() == before.len() - 1
    &&& forall|i: int| 0 <= i < at ==> same_voter(#[trigger] after[i], before[i])
    &&& forall|i: int| at <= i < after.len() ==> same_voter(#[trigger] after[i], before[i + 1])
}

/// What is done for one voter who leaves: the lock is removed and the deposit returned.
pub open spec fn dismissed<T: Trait>(
    module: Module<T>,
    actions: Seq<Action>,
    who: AccountId,
    deposit: Balance,
) -> bool {
    &&& actions.len() == 2
    &&& actions[0] == RawAction::<Vec<AccountId>, Vec<(AccountId, Balance)>>::RemoveLock(
        module.config.module_id_spec(),
        who,
    )
    &&& actions[1] == RawAction::<Vec<AccountId>, Vec<(AccountId, Balance)>>::Unreserve(
        who,
        deposit,
    )
}

/// Removing an account as a voter removes what is recorded of it, removes the lock and returns
/// exactly the deposit that was recorded; for an account that is none, there is nothing to return.
/// Nothing else changes.
pub proof fn law_voter_leaves<T: Trait>(
    module: &mut Module<T>,
    who: AccountId,
    actions: Vec<Action>,
)
    requires
        call_ensures(Module::<T>::do_remove_voter, (module, who), actions),
    ensures
        call_requires(Module::<T>::do_remove_voter, (module, who)),
        same_lists(*final(module), *old(module)),
        same_setting(*final(module), *old(module)),
        forall|at: int| #[trigger]
            first_at(old(module).voting@, who, at) ==> {
                &&& left_by(old(module).voting@, final(module).voting@, at)
                &&& dismissed(*old(module), actions@, who, old(module).voting@[at].1.deposit)
            },
        !votes_at_all(old(module).voting@, who) ==> {
            &&& same_module(*final(module), *old(module))
            &&& dismissed(*old(module), actions@, who, 0)
        },
{
    let before = old(module).voting@;
    let after = final(module).voting@;
    lemma_votes_at_all(before, who);
    lemma_actions(actions@);
    assert(actions@[0]@ is RemoveLock && actions@[1]@ is Unreserve);
    assert forall|at: int| #[trigger] first_at(before, who, at) implies left_by(before, after, at)
        && dismissed(*old(module), actions@, who, before[at].1.deposit) by {
        assert(voting_view(before)[at] == (before[at].0, before[at].1@));
        assert(voting_view(after).len() == after.len());
        assert forall|i: int| 0 <= i < at implies same_voter(#[trigger] after[i], before[i]) by {
            assert(voting_view(after)[i] == voting_view(before)[i]);
        }
        assert forall|i: int| at <= i < after.len() implies same_voter(
            #[trigger] after[i],
            before[i + 1],
        ) by {
            assert(voting_view(after)[i] == voting_view(before)[i + 1]);
        }
    }
    if !votes_at_all(before, who) {
        lemma_same_voters(after, before);
    }
}

/// Only a voter can remove itself, and only itself: it leaves the list, its lock is removed and its
/// deposit returned. Otherwise nothing changes.
pub proof fn law_remove_voter<T: Trait>(
    module: &mut Module<T>,
    origin: Origin,
    result: Result<Vec<Action>, DispatchError>,
)
    requires
        call_ensures(Module::<T>::remove_voter, (module, origin), result),
    ensures
        call_requires(Module::<T>::remove_voter, (module, origin)),
        same_lists(*final(module), *old(module)),
        same_setting(*final(module), *old(module)),
        match origin {
            Origin::Signed(who) => {
                &&& result is Ok <==> votes_at_all(old(module).voting@, who)
                &&& result matches Err(e) ==> e == DispatchError::Module(Error::MustBeVoter)
                &&& result matches Ok(actions) ==> forall|at: int| #[trigger]
                    first_at(old(module).voting@, who, at) ==> {
                        &&& left_by(old(module).voting@, final(module).voting@, at)
                        &&& dismissed(
                            *old(module),
                            actions@,
                            who,
                            old(module).voting@[at].1.deposit,
                        )
                    }
            },
            _ => result == Err::<Vec<Action>, DispatchError>(DispatchError::BadOrigin),
        },
        result is Err ==> same_module(*final(module), *old(module)),
{
    let before = old(module).voting@;
    let after = final(module).voting@;
    if result is Err {
        lemma_same_module(*final(module), *old(module));
    }
    if origin is Signed {
        let who = origin->Signed_0;
        lemma_votes_at_all(before, who);
        if result is Ok {
            let actions = result->Ok_0;
            lemma_actions(actions@);
            assert(actions@[0]@ is RemoveLock && actions@[1]@ is Unreserve);
            assert forall|at: int| #[trigger] first_at(before, who, at) implies left_by(
                before,
                after,
                at,
            ) && dismissed(*old(module), actions@, who, before[at].1.deposit) by {
                assert(voting_view(before)[at] == (before[at].0, before[at].1@));
                assert(voting_view(after).len() == after.len());
                assert forall|i: int| 0 <= i < at implies same_voter(
                    #[trigger] after[i],
                    before[i],
                ) by {
                    assert(voting_view(after)[i] == voting_view(before)[i]);
                }
                assert forall|i: int| at <= i < after.len() implies same_voter(
                    #[trigger] after[i],
                    before[i + 1],
                ) by {
                    assert(voting_view(after)[i] == voting_view(before)[i + 1]);
                }
            }
        }
    }
}

/// Whether one of the votes is for somebody who stands.
pub open spec fn serves<T: Trait>(module: Module<T>, votes: Seq<AccountId>) -> bool {
    exists|v: int| 0 <= v < votes.len() && takes_part(module, #[trigger] votes[v])
}

/// A voter is defunct exactly if none of its votes is for a member, a runner-up or a candidate.
pub proof fn law_defunct<T: Trait>(module: &Module<T>, votes: &Vec<AccountId>, defunct: bool)
    requires
        call_ensures(Module::<T>::is_defunct_voter, (module, votes), defunct),
    ensures
        seats_in_order(module.members@) && candidates_in_order(module.candidates@)
            ==> call_requires(Module::<T>::is_defunct_voter, (module, votes)),
        defunct <==> !serves(*module, votes@),
{
    lemma_serves(*module, votes@);
    lemma_lists_ascending(*module);
}

proof fn lemma_lists_ascending<T: Trait>(module: Module<T>)
    ensures
        seats_in_order(module.members@) ==> ascending(ids(module.members@)),
        candidates_in_order(module.candidates@) ==> ascending(ids(module.candidates@)),
{
    let members = module.members@;
    let candidates = module.candidates@;
    if seats_in_order(members) {
        assert forall|i: int, j: int| 0 <= i < j < ids(members).len() implies ids(members)[i]
            <= ids(members)[j] by {
            assert(members[i].who < members[j].who);
        }
    }
    if candidates_in_order(candidates) {
        assert forall|i: int, j: int| 0 <= i < j < ids(candidates).len() implies ids(candidates)[i]
            <= ids(candidates)[j] by {
            assert(candidates[i].0 < candidates[j].0);
        }
    }
}

proof fn lemma_serves<T: Trait>(module: Module<T>, votes: Seq<AccountId>)
    ensures
        module@.defunct(votes) <==> !serves(module, votes),
{
    if serves(module, votes) {
        let v = choose|v: int| 0 <= v < votes.len() && takes_part(module, #[trigger] votes[v]);
        lemma_takes_part(module, votes[v]);
        assert(module@.stands(votes[v]));
    }
    if !module@.defunct(votes) {
        let v = choose|v: int| 0 <= v < votes.len() && module@.stands(#[trigger] votes[v]);
        lemma_takes_part(module, votes[v]);
    }
}

/// The actions for several voters who leave come one pair after the other.
proof fn lemma_farewells<T: Trait>(config: T, gone: Seq<(AccountId, VoterView)>)
    ensures
        farewells(config, gone).len() == 2 * gone.len(),
        forall|k: int|
            0 <= k < gone.len() ==> {
                &&& farewells(config, gone)[2 * k] == RawAction::<
                    Seq<AccountId>,
                    Seq<(AccountId, Balance)>,
                >::RemoveLock(config.module_id_spec(), (#[trigger] gone[k]).0)
                &&& farewells(config, gone)[2 * k + 1] == RawAction::<
                    Seq<AccountId>,
                    Seq<(AccountId, Balance)>,
                >::Unreserve(gone[k].0, gone[k].1.deposit)
            },
    decreases gone.len(),
{
    if gone.len() > 0 {
        let front = gone.drop_last();
        lemma_farewells(config, front);
        assert forall|k: int| 0 <= k < gone.len() implies {
            &&& farewells(config, gone)[2 * k] == RawAction::<
                Seq<AccountId>,
                Seq<(AccountId, Balance)>,
            >::RemoveLock(config.module_id_spec(), (#[trigger] gone[k]).0)
            &&& farewells(config, gone)[2 * k + 1] == RawAction::<
                Seq<AccountId>,
                Seq<(AccountId, Balance)>,
            >::Unreserve(gone[k].0, gone[k].1.deposit)
        } by {
            if k < front.len() {
                assert(front[k] == gone[k]);
            }
        }
    }
}

/// Cleaning up is for the system alone. It removes exactly the voters without a vote for anybody
/// who stands, whatever numbers are stated, and keeps the others in their order. For each voter who
/// goes the lock is removed and the recorded deposit returned, in their order, and nothing else is
/// done.
pub proof fn law_clean_up<T: Trait>(
    module: &mut Module<T>,
    origin: Origin,
    num_voters: u32,
    num_defunct: u32,
    result: Result<Vec<Action>, DispatchError>,
) -> (r: (Seq<int>, Seq<int>))
    requires
        call_ensures(
            Module::<T>::clean_defunct_voters,
            (module, origin, num_voters, num_defunct),
            result,
        ),
    ensures
        result is Ok <==> origin == Origin::Root,
        result matches Err(e) ==> {
            &&& e == DispatchError::BadOrigin
            &&& same_module(*final(module), *old(module))
        },
        result matches Ok(actions) ==> {
            let before = old(module).voting@;
            let after = final(module).voting@;
            let (kept, gone) = r;
            &&& same_lists(*final(module), *old(module))
            &&& same_setting(*final(module), *old(module))
            &&& picks(
                kept,
                before.len() as int,
                |i: int| serves(*old(module), before[i].1.votes@),
            )
            &&& picks(
                gone,
                before.len() as int,
                |i: int| !serves(*old(module), before[i].1.votes@),
            )
            &&& after.len() == kept.len()
            &&& forall|k: int|
                0 <= k < kept.len() ==> same_voter(after[k], before[#[trigger] kept[k]])
            &&& actions@.len() == 2 * gone.len()
            &&& forall|k: int|
                0 <= k < gone.len() ==> {
                    let voter = before[#[trigger] gone[k]];
                    &&& actions@[2 * k] == RawAction::<
                        Vec<AccountId>,
                        Vec<(AccountId, Balance)>,
                    >::RemoveLock(old(module).config.module_id_spec(), voter.0)
                    &&& actions@[2 * k + 1] == RawAction::<
                        Vec<AccountId>,
                        Vec<(AccountId, Balance)>,
                    >::Unreserve(voter.0, voter.1.deposit)
                }
        },
{
    let state = old(module)@;
    let before = old(module).voting@;
    let after = final(module).voting@;
    let view = voting_view(before);
    let useful = |v: (AccountId, VoterView)| !state.defunct(v.1.votes);
    let useless = |v: (AccountId, VoterView)| state.defunct(v.1.votes);
    let kept = lemma_filter_picks(view, useful);
    let gone = lemma_filter_picks(view, useless);
    if result is Err {
        lemma_same_module(*final(module), *old(module));
    } else {
        let actions = result->Ok_0;
        let serving = |i: int| serves(*old(module), before[i].1.votes@);
        let useless_at = |i: int| !serves(*old(module), before[i].1.votes@);
        let kept_at = |i: int| useful(view[i]);
        let gone_at = |i: int| useless(view[i]);
        assert forall|i: int| 0 <= i < before.len() implies #[trigger] kept_at(i) == serving(i) by {
            lemma_serves(*old(module), before[i].1.votes@);
            assert(view[i] == (before[i].0, before[i].1@));
        }
        assert forall|i: int| 0 <= i < before.len() implies #[trigger] gone_at(i) == useless_at(
            i,
        ) by {
            lemma_serves(*old(module), before[i].1.votes@);
            assert(view[i] == (before[i].0, before[i].1@));
        }
        lemma_picks_same(kept, before.len() as int, kept_at, serving);
        lemma_picks_same(gone, before.len() as int, gone_at, useless_at);
        assert(voting_view(after) == view.filter(useful));
        assert(voting_view(after).len() == after.len());
        assert forall|k: int| 0 <= k < kept.len() implies same_voter(
            after[k],
            before[#[trigger] kept[k]],
        ) by {
            assert(voting_view(after)[k] == view[kept[k]]);
            assert(voting_view(after)[k] == (after[k].0, after[k].1@));
        }
        let removed = view.filter(useless);
        lemma_farewells(old(module).config, removed);
        lemma_actions(actions@);
        assert forall|k: int| 0 <= k < gone.len() implies {
            let voter = before[#[trigger] gone[k]];
            &&& actions@[2 * k] == RawAction::<
                Vec<AccountId>,
                Vec<(AccountId, Balance)>,
            >::RemoveLock(old(module).config.module_id_spec(), voter.0)
            &&& actions@[2 * k + 1] == RawAction::<
                Vec<AccountId>,
                Vec<(AccountId, Balance)>,
            >::Unreserve(voter.0, voter.1.deposit)
        } by {
            assert(removed[k] == view[gone[k]]);
            assert(actions@[2 * k]@ is RemoveLock && actions@[2 * k + 1]@ is Unreserve);
        }
    }
    (kept, gone)
}

/// Cleaning up is possible wherever members and candidates are in order and no voter occurs twice.
pub proof fn law_clean_up_possible<T: Trait>(
    module: &mut Module<T>,
    origin: Origin,
    num_voters: u32,
    num_defunct: u32,
)
    requires
        seats_in_order(old(module).members@),
        candidates_in_order(old(module).candidates@),
        forall|i: int, j: int|
            0 <= i < j < old(module).voting@.len() ==> (#[trigger] old(module).voting@[i]).0 != (
            #[trigger] old(module).voting@[j]).0,
    ensures
        call_requires(
            Module::<T>::clean_defunct_voters,
            (module, origin, num_voters, num_defunct),
        ),
{
    let voting = old(module).voting@;
    lemma_lists_ascending(*old(module));
    let accounts = voter_ids(voting_view(voting));
    assert forall|i: int, j: int| 0 <= i < j < accounts.len() implies accounts[i]
        != accounts[j] by {
        assert(voting[i].0 != voting[j].0);
    }
}

} // verus!
