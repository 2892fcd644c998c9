//! The module at genesis.

use vstd::prelude::*;

use crate::config::Trait;
use crate::ids::{
    binary_search, ids, ids_of, lemma_place_unique, lemma_with_entry, strictly_ascending,
    with_entry,
};
use crate::state::{deposit_for, voter_of, Module, State};
use crate::types::{
    actions_view, AccountId, Action, ActionView, Balance, DispatchError, Error, Origin, RawAction,
    SeatHolder, StorageVersion,
};
use crate::voting::{bond_change, PendingVote};

verus! {

broadcast use crate::types::group_actions_view;

/// Why a genesis member cannot be seated.
#[derive(Clone, Copy, Debug, PartialEq, Eq)]
pub enum GenesisError {
    /// The free balance of the member is below its stake.
    NotEnoughStake,
    /// The member cannot pay the candidacy bond.
    NotEnoughBalance,
    /// The account is a member already.
    DuplicateMember(AccountId),
    /// The member cannot vote for itself.
    CouldNotVote(DispatchError),
}

/// The storage in which nothing has been put.
pub open spec fn empty_state(storage_version: StorageVersion) -> State {
    State {
        members: Seq::empty(),
        runners_up: Seq::empty(),
        election_rounds: 0,
        voting: Seq::empty(),
        candidates: Seq::empty(),
        storage_version,
    }
}

/// The storage with a genesis member seated. Its own stake is its backing, since it will only vote
/// for itself.
pub open spec fn with_genesis_member<T: Trait>(
    config: T,
    state: State,
    member: AccountId,
    stake: Balance,
) -> State {
    State {
        members: with_entry(
            state.members,
            SeatHolder { who: member, stake, deposit: config.candidacy_bond_spec() },
        ),
        ..state
    }
}

/// Why a genesis member cannot be seated, if so, once its bond has or has not been reserved.
pub open spec fn seating_error(
    state: State,
    member: AccountId,
    stake: Balance,
    reserved: bool,
    minimum_balance: Balance,
) -> Option<GenesisError> {
    if !reserved {
        Some(GenesisError::NotEnoughBalance)
    } else if ids(state.members).contains(member) {
        Some(GenesisError::DuplicateMember(member))
    } else if stake <= minimum_balance {
        Some(GenesisError::CouldNotVote(DispatchError::Module(Error::LowBalance)))
    } else {
        None
    }
}

/// What is reported at genesis: the members, in the order in which they were given.
pub open spec fn genesis_report(members: Seq<(AccountId, Balance)>) -> Seq<ActionView> {
    seq![RawAction::InitializeMembers(ids(members))]
}

impl<T: Trait> Module<T> {
    /// The module over a storage in which nothing has been put.
    pub fn empty(config: T) -> (r: Self)
        ensures
            r.config == config,
            r@ == empty_state(StorageVersion::V1),
            r@.wf(),
            r@.seats_backed(),
    {
        let r = Module {
            config,
            members: Vec::new(),
            runners_up: Vec::new(),
            election_rounds: 0,
            voting: Vec::new(),
            candidates: Vec::new(),
            storage_version: StorageVersion::V1,
        };
        assert(r@ =~= empty_state(StorageVersion::V1));
        r
    }

    /// The module at genesis, before its members are seated.
    pub fn genesis(config: T) -> (r: Self)
        ensures
            r.config == config,
            r@ == empty_state(StorageVersion::V2RecordedDeposit),
            r@.wf(),
            r@.seats_backed(),
    {
        let mut r = Module::empty(config);
        r.storage_version = StorageVersion::V2RecordedDeposit;
        r
    }

    /// Seats a genesis member: the first step, which checks its free balance and says what to
    /// reserve. The second step is [`Module::seat_genesis_member`], the third one is
    /// [`Module::record_vote`] with what that returns.
    pub fn admit_genesis_member(&self, stake: Balance, free_balance: Balance) -> (r: Result<
        Balance,
        GenesisError,
    >)
        ensures
            match r {
                Ok(bond) => free_balance >= stake && bond == self.config.candidacy_bond_spec(),
                Err(e) => free_balance < stake && e == GenesisError::NotEnoughStake,
            },
    {
        if free_balance < stake {
            return Err(GenesisError::NotEnoughStake);
        }
        Ok(self.config.candidacy_bond())
    }

    /// Seats a genesis member: the second step, which takes whether the candidacy bond could be
    /// reserved. The member votes for itself with all its stake, to make its seat persistent; the
    /// result is that vote, which still has to be recorded.
    pub fn seat_genesis_member(
        &mut self,
        member: AccountId,
        stake: Balance,
        reserved: bool,
        minimum_balance: Balance,
    ) -> (r: Result<PendingVote, GenesisError>)
        requires
            strictly_ascending(ids(old(self)@.members)),
        ensures
            final(self).config == old(self).config,
            match r {
                Ok(pending) => {
                    &&& seating_error(old(self)@, member, stake, reserved, minimum_balance) is None
                    &&& final(self)@ == with_genesis_member(
                        old(self).config,
                        old(self)@,
                        member,
                        stake,
                    )
                    &&& pending.who == member
                    &&& pending.votes@ == seq![member]
                    &&& pending.value == stake
                    &&& pending.deposit == deposit_for(old(self).config, 1)
                    &&& pending.bond == bond_change(
                        voter_of(old(self)@.voting, member).deposit,
                        pending.deposit,
                    )
                },
                Err(e) => {
                    &&& seating_error(old(self)@, member, stake, reserved, minimum_balance) == Some(
                        e,
                    )
                    &&& e is CouldNotVote ==> final(self)@ == with_genesis_member(
                        old(self).config,
                        old(self)@,
                        member,
                        stake,
                    )
                    &&& !(e is CouldNotVote) ==> final(self)@ == old(self)@
                },
            },
            strictly_ascending(ids(final(self)@.members)),
            old(self)@.wf() && !old(self)@.stands(member) ==> final(self)@.wf(),
            old(self)@.seats_backed() && stake > 0 ==> final(self)@.seats_backed(),
    {
        let ghost state = self@;
        if !reserved {
            return Err(GenesisError::NotEnoughBalance);
        }
        match binary_search(&self.members, member) {
            Ok(_) => {
                return Err(GenesisError::DuplicateMember(member));
            },
            Err(at) => {
                let seat = SeatHolder { who: member, stake, deposit: self.config.candidacy_bond() };
                proof {
                    lemma_place_unique(ids(self@.members), member, at as int);
                    lemma_with_entry(self@.members, seat);
                }
                self.members.insert(at, seat);
            },
        }
        assert(self@ =~= with_genesis_member(self.config, state, member, stake));
        let mut votes: Vec<AccountId> = Vec::new();
        votes.push(member);
        assert(votes@ =~= seq![member]);
        match self.vote(Origin::Signed(member), votes, stake, minimum_balance) {
            Ok(pending) => Ok(pending),
            Err(e) => Err(GenesisError::CouldNotVote(e)),
        }
    }

    /// What has to be done once all genesis members are seated.
    pub fn report_genesis(&self, members: &Vec<(AccountId, Balance)>) -> (actions: Vec<Action>)
        ensures
            actions_view(actions@) == genesis_report(members@),
    {
        let mut actions: Vec<Action> = Vec::new();
        actions.push(RawAction::InitializeMembers(ids_of(members)));
        assert(actions_view(actions@) =~= genesis_report(members@));
        actions
    }
}

} // verus!
