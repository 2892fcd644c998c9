//! Voting: placing, changing and removing votes.

use vstd::prelude::*;

use crate::arith::{count_as_u32, low32, smaller};
use crate::config::Trait;
use crate::ids::{ascending, ids, position};
use crate::state::{
    deposit_for, lemma_voter_at, lemma_voter_ids, voter_ids, voter_of, Module, State,
};
use crate::types::{
    actions_view, ensure_root, ensure_signed, AccountId, Action, ActionView, Balance, BondChange,
    DispatchError, Error, Origin, RawAction, Voter, VoterView, Weight, MAXIMUM_VOTE,
};

verus! {

broadcast use crate::types::group_actions_view;

/// A vote that stands as soon as its bond is settled.
#[derive(Clone, Debug, PartialEq)]
pub struct PendingVote {
    /// The voter.
    pub who: AccountId,
    /// The candidates being backed.
    pub votes: Vec<AccountId>,
    /// The stake that the voter wants to place.
    pub value: Balance,
    /// The deposit of the vote.
    pub deposit: Balance,
    /// What has to happen to the reserved balance of the voter.
    pub bond: BondChange,
}

/// Why votes cannot be placed, if so.
pub open spec fn vote_error(
    state: State,
    origin: Origin,
    votes: Seq<AccountId>,
    value: Balance,
    minimum_balance: Balance,
) -> Option<DispatchError> {
    if !(origin is Signed) {
        Some(DispatchError::BadOrigin)
    } else if votes.len() > MAXIMUM_VOTE {
        Some(DispatchError::Module(Error::MaximumVotesExceeded))
    } else if votes.len() == 0 {
        Some(DispatchError::Module(Error::NoVotes))
    } else if state.all_candidates().len() == 0 {
        Some(DispatchError::Module(Error::UnableToVote))
    } else if votes.len() > state.all_candidates().len() {
        Some(DispatchError::Module(Error::TooManyVotes))
    } else if value <= minimum_balance {
        Some(DispatchError::Module(Error::LowBalance))
    } else {
        None
    }
}

/// What turns one deposit into another.
pub open spec fn bond_change(old_deposit: Balance, new_deposit: Balance) -> BondChange {
    if new_deposit > old_deposit {
        BondChange::Reserve((new_deposit - old_deposit) as Balance)
    } else if new_deposit == old_deposit {
        BondChange::Keep
    } else {
        BondChange::Unreserve((old_deposit - new_deposit) as Balance)
    }
}

/// The voters with what is recorded of one of them replaced; a new one joins at the end.
pub open spec fn with_voter(
    voting: Seq<(AccountId, VoterView)>,
    who: AccountId,
    voter: VoterView,
) -> Seq<(AccountId, VoterView)> {
    if voter_ids(voting).contains(who) {
        voting.update(voter_ids(voting).index_of_first(who).unwrap(), (who, voter))
    } else {
        voting.push((who, voter))
    }
}

/// The voters without one of them.
pub open spec fn without_voter(voting: Seq<(AccountId, VoterView)>, who: AccountId) -> Seq<
    (AccountId, VoterView),
> {
    if voter_ids(voting).contains(who) {
        voting.remove(voter_ids(voting).index_of_first(who).unwrap())
    } else {
        voting
    }
}

/// What is recorded of a voter once a vote stands: the stake is what the voter wants to place, as
/// far as its total balance goes.
pub open spec fn settled_voter(pending: PendingVote, total_balance: Balance) -> VoterView {
    VoterView {
        votes: pending.votes@,
        stake: smaller(pending.value as int, total_balance as int) as Balance,
        deposit: pending.deposit,
    }
}

/// The weight to charge for a vote, where it is less than the announced one.
pub open spec fn vote_refund(bond: BondChange, votes: int) -> Option<Weight> {
    match bond {
        BondChange::Reserve(_) => None,
        BondChange::Keep => Some(Weight::VoteEqual(low32(votes))),
        BondChange::Unreserve(_) => Some(Weight::VoteLess(low32(votes))),
    }
}

/// What has to be done for a vote to stand: the stake is locked.
pub open spec fn locking<T: Trait>(config: T, who: AccountId, stake: Balance) -> Seq<ActionView> {
    seq![RawAction::SetLock(config.module_id_spec(), who, stake)]
}

/// What has to be done for a voter to be removed: its lock is removed and its deposit returned.
pub open spec fn farewell<T: Trait>(config: T, who: AccountId, deposit: Balance) -> Seq<
    ActionView,
> {
    seq![
        RawAction::RemoveLock(config.module_id_spec(), who),
        RawAction::Unreserve(who, deposit),
    ]
}

/// What has to be done for several voters to be removed, one after the other.
pub open spec fn farewells<T: Trait>(config: T, voters: Seq<(AccountId, VoterView)>) -> Seq<
    ActionView,
>
    decreases voters.len(),
{
    if voters.len() == 0 {
        Seq::empty()
    } else {
        farewells(config, voters.drop_last()) + farewell(
            config,
            voters.last().0,
            voters.last().1.deposit,
        )
    }
}

/// The voters with a vote for someone who stands.
pub open spec fn useful_voters(state: State) -> Seq<(AccountId, VoterView)> {
    state.voting.filter(|v: (AccountId, VoterView)| !state.defunct(v.1.votes))
}

/// The voters without such a vote.
pub open spec fn defunct_voters(state: State) -> Seq<(AccountId, VoterView)> {
    state.voting.filter(|v: (AccountId, VoterView)| state.defunct(v.1.votes))
}

impl<T: Trait> Module<T> {
    /// Votes for a set of candidates for the upcoming round, or changes the votes: the first step,
    /// which says what has to happen to the reserved balance of the voter. The second one is
    /// [`Module::record_vote`].
    ///
    /// The deposit is based on the number of votes. The votes should neither be empty nor be more
    /// than the possible candidates. All current members and runners-up are also candidates for
    /// the next round.
    ///
    /// `value` is the stake to be locked. It is the responsibility of the caller **not** to lock
    /// all of their balance. `minimum_balance` is the least balance of the currency.
    pub fn vote(
        &self,
        origin: Origin,
        votes: Vec<AccountId>,
        value: Balance,
        minimum_balance: Balance,
    ) -> (r: Result<PendingVote, DispatchError>)
        ensures
            match r {
                Ok(pending) => {
                    &&& vote_error(self@, origin, votes@, value, minimum_balance) is None
                    &&& origin == Origin::Signed(pending.who)
                    &&& pending.votes@ == votes@
                    &&& pending.value == value
                    &&& pending.deposit == deposit_for(self.config, votes@.len() as int)
                    &&& pending.bond == bond_change(
                        voter_of(self@.voting, pending.who).deposit,
                        pending.deposit,
                    )
                },
                Err(e) => vote_error(self@, origin, votes@, value, minimum_balance) == Some(e),
            },
    {
        let who: AccountId = match ensure_signed(origin) {
            Ok(who) => who,
            Err(e) => {
                return Err(e);
            },
        };
        if votes.len() > MAXIMUM_VOTE {
            return Err(DispatchError::Module(Error::MaximumVotesExceeded));
        }
        if votes.len() == 0 {
            return Err(DispatchError::Module(Error::NoVotes));
        }
        let allowed_votes: u128 = self.candidates.len() as u128 + self.members.len() as u128
            + self.runners_up.len() as u128;
        assert(allowed_votes == self@.all_candidates().len());
        if allowed_votes == 0 {
            return Err(DispatchError::Module(Error::UnableToVote));
        }
        if votes.len() as u128 > allowed_votes {
            return Err(DispatchError::Module(Error::TooManyVotes));
        }
        if value <= minimum_balance {
            return Err(DispatchError::Module(Error::LowBalance));
        }
        let deposit: Balance = self.deposit_of(votes.len());
        let old_deposit: Balance = self.voting(who).deposit;
        let bond = if deposit > old_deposit {
            BondChange::Reserve(deposit - old_deposit)
        } else if deposit == old_deposit {
            BondChange::Keep
        } else {
            BondChange::Unreserve(old_deposit - deposit)
        };
        Ok(PendingVote { who, votes, value, deposit, bond })
    }

    /// Votes for a set of candidates: the second step, which takes whether the change of the bond
    /// could be made, and the total balance of the voter after it. Only reserving can fail.
    ///
    /// Returns the weight to charge, where it is less than the announced one, and what has to be
    /// done.
    pub fn record_vote(
        &mut self,
        pending: PendingVote,
        bond_paid: bool,
        total_balance: Balance,
    ) -> (r: Result<(Option<Weight>, Vec<Action>), DispatchError>)
        ensures
            final(self).config == old(self).config,
            match r {
                Ok((refund, actions)) => {
                    &&& pending.bond is Reserve ==> bond_paid
                    &&& final(self)@ == (State {
                        voting: with_voter(
                            old(self)@.voting,
                            pending.who,
                            settled_voter(pending, total_balance),
                        ),
                        ..old(self)@
                    })
                    &&& refund == vote_refund(pending.bond, pending.votes@.len() as int)
                    &&& actions_view(actions@) == locking(
                        old(self).config,
                        pending.who,
                        settled_voter(pending, total_balance).stake,
                    )
                },
                Err(e) => {
                    &&& pending.bond is Reserve && !bond_paid
                    &&& e == DispatchError::Module(Error::UnableToPayBond)
                    &&& final(self)@ == old(self)@
                },
            },
            old(self)@.wf() && 0 < pending.votes@.len() <= MAXIMUM_VOTE ==> final(self)@.wf(),
    {
        let ghost state = self@;
        let refund = match pending.bond {
            BondChange::Reserve(_) => {
                if !bond_paid {
                    return Err(DispatchError::Module(Error::UnableToPayBond));
                }
                None
            },
            BondChange::Keep => Some(Weight::VoteEqual(count_as_u32(pending.votes.len()))),
            BondChange::Unreserve(_) => Some(Weight::VoteLess(count_as_u32(pending.votes.len()))),
        };
        let stake: Balance = if pending.value <= total_balance {
            pending.value
        } else {
            total_balance
        };
        let who: AccountId = pending.who;
        let ghost voter = settled_voter(pending, total_balance);
        let mut actions: Vec<Action> = Vec::new();
        actions.push(RawAction::SetLock(self.config.module_id(), who, stake));
        self.insert_voter(
            who,
            Voter { votes: pending.votes, stake, deposit: pending.deposit },
        );
        proof {
            if state.wf() && 0 < voter.votes.len() <= MAXIMUM_VOTE {
                lemma_with_voter_wf(state, who, voter);
            }
            assert(actions_view(actions@) =~= locking(self.config, who, stake));
        }
        Ok((refund, actions))
    }

    /// Records a voter.
    pub(crate) fn insert_voter(&mut self, who: AccountId, voter: Voter<AccountId, Balance>)
        ensures
            final(self).config == old(self).config,
            final(self)@ == (State {
                voting: with_voter(old(self)@.voting, who, voter@),
                ..old(self)@
            }),
    {
        let ghost state = self@;
        match position(&self.voting, who) {
            Some(i) => {
                proof {
                    lemma_voter_at(self.voting@, who, i as int);
                }
                self.voting.set(i, (who, voter));
            },
            None => {
                proof {
                    lemma_voter_ids(self.voting@);
                }
                self.voting.push((who, voter));
            },
        }
        assert(self@.voting =~= with_voter(state.voting, who, voter@));
    }

    /// Removes an account as a voter.
    pub fn do_remove_voter(&mut self, who: AccountId) -> (actions: Vec<Action>)
        ensures
            final(self).config == old(self).config,
            final(self)@ == (State { voting: without_voter(old(self)@.voting, who), ..old(self)@ }),
            actions_view(actions@) == farewell(
                old(self).config,
                who,
                voter_of(old(self)@.voting, who).deposit,
            ),
            old(self)@.wf() ==> final(self)@.wf(),
    {
        let ghost state = self@;
        let deposit: Balance = match position(&self.voting, who) {
            Some(i) => {
                proof {
                    lemma_voter_at(self.voting@, who, i as int);
                    if state.wf() {
                        lemma_without_voter_wf(state, who);
                    }
                }
                let (_, voter) = self.voting.remove(i);
                voter.deposit
            },
            None => {
                proof {
                    lemma_voter_ids(self.voting@);
                }
                0
            },
        };
        assert(self@.voting =~= without_voter(state.voting, who));
        let mut actions: Vec<Action> = Vec::new();
        actions.push(RawAction::RemoveLock(self.config.module_id(), who));
        actions.push(RawAction::Unreserve(who, deposit));
        assert(actions_view(actions@) =~= farewell(
            self.config,
            who,
            voter_of(state.voting, who).deposit,
        ));
        actions
    }

    /// Removes the caller as a voter. This removes the lock and returns the deposit.
    pub fn remove_voter(&mut self, origin: Origin) -> (r: Result<Vec<Action>, DispatchError>)
        ensures
            final(self).config == old(self).config,
            match r {
                Ok(actions) => {
                    &&& origin is Signed
                    &&& voter_ids(old(self)@.voting).contains(origin->Signed_0)
                    &&& final(self)@ == (State {
                        voting: without_voter(old(self)@.voting, origin->Signed_0),
                        ..old(self)@
                    })
                    &&& actions_view(actions@) == farewell(
                        old(self).config,
                        origin->Signed_0,
                        voter_of(old(self)@.voting, origin->Signed_0).deposit,
                    )
                },
                Err(e) => {
                    &&& final(self)@ == old(self)@
                    &&& e == if origin is Signed {
                        DispatchError::Module(Error::MustBeVoter)
                    } else {
                        DispatchError::BadOrigin
                    }
                    &&& origin is Signed ==> !voter_ids(old(self)@.voting).contains(
                        origin->Signed_0,
                    )
                },
            },
            old(self)@.wf() ==> final(self)@.wf(),
    {
        let who: AccountId = match ensure_signed(origin) {
            Ok(who) => who,
            Err(e) => {
                return Err(e);
            },
        };
        if !self.is_voter(who) {
            return Err(DispatchError::Module(Error::MustBeVoter));
        }
        Ok(self.do_remove_voter(who))
    }

    /// Removes all voters who are defunct, that is, who do not serve any purpose at all. Their
    /// deposits are returned. The caller states the number of voters and how many of them are
    /// defunct, but nothing depends on it.
    ///
    /// This is meant only for cleaning the state, and only the system itself can do it.
    pub fn clean_defunct_voters(
        &mut self,
        origin: Origin,
        _num_voters: u32,
        _num_defunct: u32,
    ) -> (r: Result<Vec<Action>, DispatchError>)
        requires
            ascending(ids(old(self)@.members)),
            ascending(ids(old(self)@.candidates)),
            voter_ids(old(self)@.voting).no_duplicates(),
        ensures
            final(self).config == old(self).config,
            match r {
                Ok(actions) => {
                    &&& origin == Origin::Root
                    &&& final(self)@ == (State { voting: useful_voters(old(self)@), ..old(self)@ })
                    &&& actions_view(actions@) == farewells(
                        old(self).config,
                        defunct_voters(old(self)@),
                    )
                },
                Err(e) => {
                    &&& origin != Origin::Root
                    &&& e == DispatchError::BadOrigin
                    &&& final(self)@ == old(self)@
                },
            },
            old(self)@.wf() ==> final(self)@.wf(),
    {
        match ensure_root(origin) {
            Ok(_) => {},
            Err(e) => {
                return Err(e);
            },
        }
        let ghost config = self.config;
        let ghost state = self@;
        let ghost all = state.voting;
        let ghost useful = |v: (AccountId, VoterView)| !state.defunct(v.1.votes);
        let ghost useless = |v: (AccountId, VoterView)| state.defunct(v.1.votes);
        let ghost mut done: int = 0;
        let mut actions: Vec<Action> = Vec::new();
        let mut i: usize = 0;
        proof {
            reveal(Seq::filter);
            assert(self@ =~= (State {
                voting: all.take(0).filter(useful) + all.skip(0),
                ..state
            }));
            assert(actions_view(actions@) =~= farewells(config, all.take(0).filter(useless)));
        }
        while i < self.voting.len()
            invariant
                self.config == config,
                ascending(ids(state.members)),
                ascending(ids(state.candidates)),
                all == state.voting,
                voter_ids(all).no_duplicates(),
                useful == (|v: (AccountId, VoterView)| !state.defunct(v.1.votes)),
                useless == (|v: (AccountId, VoterView)| state.defunct(v.1.votes)),
                0 <= done <= all.len(),
                i == all.take(done).filter(useful).len(),
                self@ == (State {
                    voting: all.take(done).filter(useful) + all.skip(done),
                    ..state
                }),
                actions_view(actions@) == farewells(config, all.take(done).filter(useless)),
                state.wf() ==> self@.wf(),
            decreases self@.voting.len() - i,
        {
            let ghost kept = all.take(done).filter(useful);
            let ghost here = all[done];
            proof {
                reveal(Seq::filter);
                assert(self@.voting.len() == kept.len() + all.len() - done);
                assert(done < all.len());
                assert(self@.voting[i as int] == here);
                assert(all.take(done + 1).drop_last() =~= all.take(done));
                assert(all.take(done + 1).last() == here);
                assert(here == (self.voting@[i as int].0, self.voting@[i as int].1@));
                assert(all.skip(done) =~= seq![here] + all.skip(done + 1));
            }
            let useless_here: bool = self.is_defunct_voter(&self.voting[i].1.votes);
            assert(useless_here == state.defunct(here.1.votes));
            if useless_here {
                let who: AccountId = self.voting[i].0;
                proof {
                    lemma_voter_ids(self.voting@);
                    lemma_kept_before(all, done, useful);
                    assert forall|j: int| 0 <= j < i implies ids(self.voting@)[j] != who by {
                        assert(voter_ids(kept)[j] == ids(self.voting@)[j]);
                    }
                    lemma_voter_at(self.voting@, who, i as int);
                }
                let mut more = self.do_remove_voter(who);
                let ghost before = actions@;
                let ghost added = more@;
                actions.append(&mut more);
                proof {
                    assert(self@.voting =~= kept + all.skip(done + 1));
                    assert(all.take(done + 1).filter(useful) =~= kept);
                    let gone = all.take(done + 1).filter(useless);
                    assert(gone.drop_last() =~= all.take(done).filter(useless));
                    assert(gone.last() == here);
                    assert(actions_view(actions@) =~= actions_view(before) + actions_view(added));
                    assert(farewells(config, gone) == farewells(config, gone.drop_last())
                        + farewell(config, here.0, here.1.deposit));
                }
            } else {
                proof {
                    assert(all.take(done + 1).filter(useful) =~= kept.push(here));
                    assert(kept.push(here) + all.skip(done + 1) =~= self@.voting);
                    assert(all.take(done + 1).filter(useless) =~= all.take(done).filter(useless));
                }
                i += 1;
            }
            proof {
                done = done + 1;
            }
        }
        proof {
            assert(self@.voting.len() == i + all.len() - done);
            assert(all.take(done) =~= all);
            assert(all.take(done).filter(useful) + all.skip(done) =~= all.filter(useful));
        }
        Ok(actions)
    }
}

/// What has been kept of the voters so far does not belong to the account that comes next.
proof fn lemma_kept_before(
    all: Seq<(AccountId, VoterView)>,
    done: int,
    keep: spec_fn((AccountId, VoterView)) -> bool,
)
    requires
        0 <= done < all.len(),
        voter_ids(all).no_duplicates(),
    ensures
        forall|j: int|
            0 <= j < all.take(done).filter(keep).len() ==> #[trigger] voter_ids(
                all.take(done).filter(keep),
            )[j] != all[done].0,
{
    let kept = all.take(done).filter(keep);
    assert forall|j: int| 0 <= j < kept.len() implies #[trigger] voter_ids(kept)[j]
        != all[done].0 by {
        all.take(done).lemma_filter_contains_rev(keep, kept[j]);
        let k = all.take(done).index_of(kept[j]);
        assert(voter_ids(all)[k] != voter_ids(all)[done]);
    }
}

/// Recording a voter with votes, but not too many, keeps the invariant.
pub proof fn lemma_with_voter_wf(state: State, who: AccountId, voter: VoterView)
    requires
        state.voting_wf(),
        0 < voter.votes.len() <= MAXIMUM_VOTE,
    ensures
        (State { voting: with_voter(state.voting, who, voter), ..state }).voting_wf(),
{
    let accounts = voter_ids(state.voting);
    let after = with_voter(state.voting, who, voter);
    accounts.index_of_first_ensures(who);
    if accounts.contains(who) {
        assert(voter_ids(after) =~= accounts);
    } else {
        assert(voter_ids(after) =~= accounts.push(who));
    }
}

/// Removing a voter keeps the invariant.
pub proof fn lemma_without_voter_wf(state: State, who: AccountId)
    requires
        state.voting_wf(),
    ensures
        (State { voting: without_voter(state.voting, who), ..state }).voting_wf(),
{
    let accounts = voter_ids(state.voting);
    let after = without_voter(state.voting, who);
    accounts.index_of_first_ensures(who);
    if accounts.contains(who) {
        let at = accounts.index_of_first(who).unwrap();
        assert(voter_ids(after) =~= accounts.remove(at));
        assert forall|v: int| 0 <= v < after.len() implies 0 < (
        #[trigger] after[v]).1.votes.len() <= MAXIMUM_VOTE by {
            let v0 = if v < at { v } else { v + 1 };
            assert(after[v] == state.voting[v0]);
        }
        assert forall|i: int, j: int|
            0 <= i < voter_ids(after).len() && 0 <= j < voter_ids(after).len() && i
                != j implies voter_ids(after)[i] != voter_ids(after)[j] by {
            let i0 = if i < at { i } else { i + 1 };
            let j0 = if j < at { j } else { j + 1 };
            assert(accounts[i0] != accounts[j0]);
        }
    }
}

} // verus!
