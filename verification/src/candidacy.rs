//! Candidacy: submitting and renouncing it, and the removal of members.

use vstd::prelude::*;

use crate::arith::{count_as_u32, low32};
use crate::config::Trait;
use crate::election::can_elect;
use crate::ids::{
    ascending, binary_search, entry_of, ids, lemma_only_index, lemma_place_unique,
    lemma_strictly_ascending_index, lemma_with_entry, lemma_without_entry, position,
    strictly_ascending, with_entry, without_entry,
};
use crate::state::{Module, State};
use crate::types::{
    actions_view, ensure_root, ensure_signed, AccountId, Action, ActionView, Balance, DispatchError,
    DispatchErrorWithPostInfo, Error, Origin, RawAction, RawEvent, Renouncing, SeatHolder,
    SlashHandler, Weight,
};

verus! {

broadcast use crate::types::group_actions_view;

/// A candidacy that stands as soon as its deposit is reserved.
#[derive(Clone, Copy, Debug, PartialEq, Eq)]
pub struct PendingCandidacy {
    /// The candidate.
    pub who: AccountId,
    /// The deposit that has to be reserved.
    pub deposit: Balance,
}

/// Why an account cannot submit candidacy, if so.
pub open spec fn submission_error(
    state: State,
    origin: Origin,
    candidate_count: u32,
) -> Option<DispatchError> {
    match origin {
        Origin::Signed(who) => if low32(state.candidates.len() as int) > candidate_count {
            Some(DispatchError::Module(Error::InvalidCandidateCount))
        } else if ids(state.candidates).contains(who) {
            Some(DispatchError::Module(Error::DuplicatedCandidate))
        } else if ids(state.members).contains(who) {
            Some(DispatchError::Module(Error::MemberSubmit))
        } else if ids(state.runners_up).contains(who) {
            Some(DispatchError::Module(Error::RunnerUpSubmit))
        } else {
            None
        },
        _ => Some(DispatchError::BadOrigin),
    }
}

/// The storage with a new candidate.
pub open spec fn with_candidate(state: State, who: AccountId, deposit: Balance) -> State {
    State { candidates: with_entry(state.candidates, (who, deposit)), ..state }
}

/// The storage without a candidate.
pub open spec fn without_candidate(state: State, who: AccountId) -> State {
    State { candidates: without_entry(state.candidates, who), ..state }
}

/// The storage without a runner-up.
pub open spec fn without_runner_up(state: State, who: AccountId) -> State {
    State { runners_up: without_entry(state.runners_up, who), ..state }
}

/// The storage without a member. The best runner-up, if there is any, takes the seat.
pub open spec fn without_member(state: State, who: AccountId) -> State {
    let members = without_entry(state.members, who);
    if state.runners_up.len() == 0 {
        State { members, ..state }
    } else {
        let next = state.runners_up.last();
        State {
            members: if ids(members).contains(next.who) {
                members
            } else {
                with_entry(members, next)
            },
            runners_up: state.runners_up.drop_last(),
            ..state
        }
    }
}

/// What has to be done when a member is removed: its deposit is slashed or returned, the change
/// of members is reported, and the prime is set again if another account is the prime.
pub open spec fn removal_actions(
    state: State,
    who: AccountId,
    slash: bool,
    prime: Option<AccountId>,
) -> Seq<ActionView> {
    let deposit = entry_of(state.members, who).deposit;
    let bond = if slash {
        seq![
            RawAction::SlashReserved(who, deposit, SlashHandler::KickedMember),
            RawAction::DepositEvent(RawEvent::SeatHolderSlashed(who, deposit)),
        ]
    } else {
        seq![RawAction::Unreserve(who, deposit)]
    };
    let incoming = if state.runners_up.len() == 0 {
        Seq::empty()
    } else {
        seq![state.runners_up.last().who]
    };
    let change = seq![
        RawAction::ChangeMembers(incoming, seq![who], ids(without_member(state, who).members)),
    ];
    let again = if prime is Some && prime != Some(who) {
        seq![RawAction::SetPrime(prime)]
    } else {
        Seq::empty()
    };
    bond + change + again
}

/// Why an account cannot renounce, if so.
pub open spec fn renouncing_error(
    state: State,
    origin: Origin,
    renouncing: Renouncing,
) -> Option<DispatchError> {
    match origin {
        Origin::Signed(who) => match renouncing {
            Renouncing::Member => if ids(state.members).contains(who) {
                None
            } else {
                Some(DispatchError::Module(Error::NotMember))
            },
            Renouncing::RunnerUp => if ids(state.runners_up).contains(who) {
                None
            } else {
                Some(DispatchError::Module(Error::InvalidRenouncing))
            },
            Renouncing::Candidate(count) => if count >= low32(state.candidates.len() as int)
                && ids(state.candidates).contains(who) {
                None
            } else {
                Some(DispatchError::Module(Error::InvalidRenouncing))
            },
        },
        _ => Some(DispatchError::BadOrigin),
    }
}

/// The storage after an account has renounced the given role.
pub open spec fn renounced_state(state: State, who: AccountId, renouncing: Renouncing) -> State {
    match renouncing {
        Renouncing::Member => without_member(state, who),
        Renouncing::RunnerUp => without_runner_up(state, who),
        Renouncing::Candidate(_) => without_candidate(state, who),
    }
}

/// What has to be done after an account has renounced the given role.
pub open spec fn renouncing_actions(
    state: State,
    who: AccountId,
    renouncing: Renouncing,
    prime: Option<AccountId>,
) -> Seq<ActionView> {
    match renouncing {
        Renouncing::Member => removal_actions(state, who, false, prime).push(
            RawAction::DepositEvent(RawEvent::MemberRenounced(who)),
        ),
        Renouncing::RunnerUp => seq![
            RawAction::Unreserve(who, entry_of(state.runners_up, who).deposit),
        ],
        Renouncing::Candidate(_) => seq![
            RawAction::Unreserve(who, entry_of(state.candidates, who).1),
        ],
    }
}

/// Why a member cannot be removed, if so, with the weight to charge.
pub open spec fn removal_error(
    state: State,
    origin: Origin,
    who: Option<AccountId>,
    has_replacement: bool,
) -> Option<DispatchErrorWithPostInfo> {
    if origin != Origin::Root {
        Some(DispatchErrorWithPostInfo { actual_weight: None, error: DispatchError::BadOrigin })
    } else if who is None {
        Some(DispatchErrorWithPostInfo { actual_weight: None, error: DispatchError::CannotLookup })
    } else if (state.runners_up.len() > 0) != has_replacement {
        Some(
            DispatchErrorWithPostInfo {
                actual_weight: Some(Weight::RemoveMemberWrongRefund),
                error: DispatchError::Module(Error::InvalidReplacement),
            },
        )
    } else if !ids(state.members).contains(who.unwrap()) {
        Some(
            DispatchErrorWithPostInfo {
                actual_weight: None,
                error: DispatchError::Module(Error::NotMember),
            },
        )
    } else {
        None
    }
}

/// What has to be done after a member has been kicked.
pub open spec fn kicking_actions(
    state: State,
    who: AccountId,
    prime: Option<AccountId>,
) -> Seq<ActionView> {
    removal_actions(state, who, true, prime).push(
        RawAction::DepositEvent(RawEvent::MemberKicked(who)),
    )
}

impl<T: Trait> Module<T> {
    /// Submits oneself for candidacy: the first step, which says what to reserve. The second one
    /// is [`Module::admit_candidate`].
    ///
    /// All candidates are wiped at the end of the term. They either take a seat or leave the
    /// system while their deposit is slashed. Even a candidate who ends up with a seat must
    /// renounce to get the deposit back.
    ///
    /// The number of current candidates must be provided; it may be overestimated.
    pub fn submit_candidacy(&self, origin: Origin, candidate_count: u32) -> (r: Result<
        PendingCandidacy,
        DispatchError,
    >)
        requires
            ascending(ids(self@.candidates)),
            ascending(ids(self@.members)),
        ensures
            match r {
                Ok(pending) => {
                    &&& submission_error(self@, origin, candidate_count) is None
                    &&& origin == Origin::Signed(pending.who)
                    &&& pending.deposit == self.config.candidacy_bond_spec()
                    &&& !self@.stands(pending.who)
                },
                Err(e) => submission_error(self@, origin, candidate_count) == Some(e),
            },
    {
        let who: AccountId = match ensure_signed(origin) {
            Ok(who) => who,
            Err(e) => {
                return Err(e);
            },
        };
        if count_as_u32(self.candidates.len()) > candidate_count {
            return Err(DispatchError::Module(Error::InvalidCandidateCount));
        }
        if self.is_candidate(who).is_ok() {
            return Err(DispatchError::Module(Error::DuplicatedCandidate));
        }
        if self.is_member(who) {
            return Err(DispatchError::Module(Error::MemberSubmit));
        }
        if self.is_runner_up(who) {
            return Err(DispatchError::Module(Error::RunnerUpSubmit));
        }
        Ok(PendingCandidacy { who, deposit: self.config.candidacy_bond() })
    }

    /// Submits oneself for candidacy: the second step, which takes whether the deposit could be
    /// reserved.
    pub fn admit_candidate(&mut self, pending: PendingCandidacy, reserved: bool) -> (r: Result<
        (),
        DispatchError,
    >)
        requires
            ascending(ids(old(self)@.candidates)),
            !old(self)@.stands(pending.who),
        ensures
            final(self).config == old(self).config,
            reserved ==> r is Ok && final(self)@ == with_candidate(
                old(self)@,
                pending.who,
                pending.deposit,
            ),
            !reserved ==> r == Err::<(), DispatchError>(
                DispatchError::Module(Error::InsufficientCandidateFunds),
            ) && final(self)@ == old(self)@,
            old(self)@.wf() ==> final(self)@.wf(),
    {
        if !reserved {
            return Err(DispatchError::Module(Error::InsufficientCandidateFunds));
        }
        match binary_search(&self.candidates, pending.who) {
            Ok(_) => {},
            Err(at) => {
                proof {
                    lemma_place_unique(ids(self@.candidates), pending.who, at as int);
                    if self@.wf() {
                        lemma_with_candidate_wf(self@, pending.who, pending.deposit);
                    }
                }
                self.candidates.insert(at, (pending.who, pending.deposit));
            },
        }
        Ok(())
    }

    /// Attempts to remove a member. If a runner-up exists, the best one is the replacement.
    ///
    /// Returns whether there was a replacement, and what has to be done. If `slash` is true, the
    /// deposit of the member is slashed, else it is returned. `prime` is the prime of the body
    /// that follows the membership; the report of the change wipes it, so it is set again unless
    /// it is the member who leaves.
    pub fn remove_and_replace_member(
        &mut self,
        who: AccountId,
        slash: bool,
        prime: Option<AccountId>,
    ) -> (r: Result<(bool, Vec<Action>), DispatchError>)
        requires
            strictly_ascending(ids(old(self)@.members)),
        ensures
            final(self).config == old(self).config,
            match r {
                Ok((replaced, actions)) => {
                    &&& ids(old(self)@.members).contains(who)
                    &&& replaced == (old(self)@.runners_up.len() > 0)
                    &&& final(self)@ == without_member(old(self)@, who)
                    &&& actions_view(actions@) == removal_actions(old(self)@, who, slash, prime)
                },
                Err(e) => {
                    &&& !ids(old(self)@.members).contains(who)
                    &&& e == DispatchError::Module(Error::NotMember)
                    &&& final(self)@ == old(self)@
                },
            },
            strictly_ascending(ids(final(self)@.members)),
            old(self)@.wf() ==> final(self)@.wf(),
    {
        let ghost state = self@;
        let index: usize = match binary_search(&self.members, who) {
            Ok(index) => index,
            Err(_) => {
                return Err(DispatchError::Module(Error::NotMember));
            },
        };
        proof {
            lemma_strictly_ascending_index(ids(state.members), index as int);
            lemma_without_entry(state.members, who);
            lemma_without_member_ascending(state, who);
            if state.wf() {
                lemma_without_member_wf(state, who);
            }
        }
        let removed = self.members.remove(index);
        assert(self.members@ == without_entry(state.members, who));
        let mut actions: Vec<Action> = Vec::new();
        if slash {
            actions.push(
                RawAction::SlashReserved(who, removed.deposit, SlashHandler::KickedMember),
            );
            actions.push(
                RawAction::DepositEvent(RawEvent::SeatHolderSlashed(who, removed.deposit)),
            );
        } else {
            actions.push(RawAction::Unreserve(who, removed.deposit));
        }
        let mut incoming: Vec<AccountId> = Vec::new();
        let mut outgoing: Vec<AccountId> = Vec::new();
        outgoing.push(who);
        let replaced: bool = match self.runners_up.pop() {
            Some(next) => {
                incoming.push(next.who);
                match binary_search(&self.members, next.who) {
                    Ok(_) => {},
                    Err(at) => {
                        proof {
                            lemma_place_unique(ids(self.members@), next.who, at as int);
                        }
                        self.members.insert(at, next);
                    },
                }
                true
            },
            None => false,
        };
        assert(self@ =~= without_member(state, who));
        assert(outgoing@ =~= seq![who]);
        let ghost expected_incoming = if state.runners_up.len() == 0 {
            Seq::empty()
        } else {
            seq![state.runners_up.last().who]
        };
        assert(incoming@ =~= expected_incoming);
        let members = self.members_ids();
        actions.push(RawAction::ChangeMembers(incoming, outgoing, members));
        match prime {
            Some(current) => {
                if current != who {
                    actions.push(RawAction::SetPrime(prime));
                }
            },
            None => {},
        }
        assert(actions_view(actions@) =~= removal_actions(state, who, slash, prime));
        Ok((replaced, actions))
    }

    /// Renounces one's candidacy, as one of these:
    ///
    /// - a candidate without a seat: the deposit is returned, and the candidate removed;
    /// - a runner-up: the deposit is returned, and the runner-up removed;
    /// - a member: the deposit is returned, and the member removed and replaced by the best
    ///   runner-up. If the prime is renouncing, no prime will exist until the next round.
    ///
    /// `prime` is the prime of the body that follows the membership.
    pub fn renounce_candidacy(
        &mut self,
        origin: Origin,
        renouncing: Renouncing,
        prime: Option<AccountId>,
    ) -> (r: Result<Vec<Action>, DispatchError>)
        requires
            strictly_ascending(ids(old(self)@.members)),
            strictly_ascending(ids(old(self)@.candidates)),
        ensures
            final(self).config == old(self).config,
            match r {
                Ok(actions) => {
                    &&& renouncing_error(old(self)@, origin, renouncing) is None
                    &&& final(self)@ == renounced_state(
                        old(self)@,
                        origin->Signed_0,
                        renouncing,
                    )
                    &&& actions_view(actions@) == renouncing_actions(
                        old(self)@,
                        origin->Signed_0,
                        renouncing,
                        prime,
                    )
                },
                Err(e) => {
                    &&& renouncing_error(old(self)@, origin, renouncing) == Some(e)
                    &&& final(self)@ == old(self)@
                },
            },
            old(self)@.wf() ==> final(self)@.wf(),
    {
        let ghost state = self@;
        let who: AccountId = match ensure_signed(origin) {
            Ok(who) => who,
            Err(e) => {
                return Err(e);
            },
        };
        match renouncing {
            Renouncing::Member => {
                match self.remove_and_replace_member(who, false, prime) {
                    Ok((_, removal)) => {
                        let mut actions = removal;
                        actions.push(RawAction::DepositEvent(RawEvent::MemberRenounced(who)));
                        Ok(actions)
                    },
                    Err(e) => Err(e),
                }
            },
            Renouncing::RunnerUp => {
                match position(&self.runners_up, who) {
                    Some(index) => {
                        proof {
                            lemma_only_index(ids(state.runners_up), who, index as int);
                            if state.wf() {
                                lemma_without_runner_up_wf(state, who);
                            }
                        }
                        let removed = self.runners_up.remove(index);
                        let mut actions: Vec<Action> = Vec::new();
                        actions.push(RawAction::Unreserve(who, removed.deposit));
                        assert(actions_view(actions@) =~= renouncing_actions(
                            state,
                            who,
                            renouncing,
                            prime,
                        ));
                        Ok(actions)
                    },
                    None => Err(DispatchError::Module(Error::InvalidRenouncing)),
                }
            },
            Renouncing::Candidate(count) => {
                if count < count_as_u32(self.candidates.len()) {
                    return Err(DispatchError::Module(Error::InvalidRenouncing));
                }
                match binary_search(&self.candidates, who) {
                    Ok(index) => {
                        proof {
                            lemma_strictly_ascending_index(ids(state.candidates), index as int);
                            if state.wf() {
                                lemma_without_candidate_wf(state, who);
                            }
                        }
                        let (_, deposit) = self.candidates.remove(index);
                        let mut actions: Vec<Action> = Vec::new();
                        actions.push(RawAction::Unreserve(who, deposit));
                        assert(actions_view(actions@) =~= renouncing_actions(
                            state,
                            who,
                            renouncing,
                            prime,
                        ));
                        Ok(actions)
                    },
                    Err(_) => Err(DispatchError::Module(Error::InvalidRenouncing)),
                }
            },
        }
    }

    /// Removes a particular member from the set. This is effective immediately, and the bond of
    /// the outgoing member is slashed.
    ///
    /// If a runner-up is available, the best one replaces the outgoing member. Otherwise a new
    /// election has to be held: the first value of the result says so. It is held by
    /// [`Module::do_phragmen`], once the returned actions have been performed, since the slash may
    /// change the total issuance. This does not affect the designated block number of the next
    /// election.
    ///
    /// `who` is the member, or nothing if it could not be looked up. `has_replacement` is the
    /// prediction that there is a runner-up. `prime` is the prime of the body that follows the
    /// membership.
    pub fn remove_member(
        &mut self,
        origin: Origin,
        who: Option<AccountId>,
        has_replacement: bool,
        prime: Option<AccountId>,
    ) -> (r: Result<(bool, Vec<Action>), DispatchErrorWithPostInfo>)
        requires
            strictly_ascending(ids(old(self)@.members)),
        ensures
            final(self).config == old(self).config,
            match r {
                Ok((election, actions)) => {
                    &&& removal_error(old(self)@, origin, who, has_replacement) is None
                    &&& final(self)@ == without_member(old(self)@, who.unwrap())
                    &&& election == (old(self)@.runners_up.len() == 0)
                    &&& actions_view(actions@) == kicking_actions(old(self)@, who.unwrap(), prime)
                },
                Err(e) => {
                    &&& removal_error(old(self)@, origin, who, has_replacement) == Some(e)
                    &&& final(self)@ == old(self)@
                },
            },
            can_elect(old(self).config, old(self)@) ==> can_elect(
                old(self).config,
                final(self)@,
            ),
            old(self)@.wf() ==> final(self)@.wf(),
    {
        let ghost state = self@;
        match ensure_root(origin) {
            Ok(_) => {},
            Err(error) => {
                return Err(DispatchErrorWithPostInfo { actual_weight: None, error });
            },
        }
        let who: AccountId = match who {
            Some(who) => who,
            None => {
                return Err(
                    DispatchErrorWithPostInfo {
                        actual_weight: None,
                        error: DispatchError::CannotLookup,
                    },
                );
            },
        };
        let will_have_replacement: bool = self.runners_up.len() > 0;
        if will_have_replacement != has_replacement {
            return Err(
                DispatchErrorWithPostInfo {
                    actual_weight: Some(Weight::RemoveMemberWrongRefund),
                    error: DispatchError::Module(Error::InvalidReplacement),
                },
            );
        }
        match self.remove_and_replace_member(who, true, prime) {
            Ok((had_replacement, removal)) => {
                let mut actions = removal;
                actions.push(RawAction::DepositEvent(RawEvent::MemberKicked(who)));
                proof {
                    if can_elect(self.config, state) {
                        assert(ids(state.members).len() > 0);
                        assert(state.all_candidates().len() > 0);
                    }
                }
                Ok((!had_replacement, actions))
            },
            Err(error) => Err(DispatchErrorWithPostInfo { actual_weight: None, error }),
        }
    }

    /// Whether the account is a member.
    pub fn contains(&self, who: AccountId) -> (r: bool)
        requires
            ascending(ids(self@.members)),
        ensures
            r == ids(self@.members).contains(who),
    {
        self.is_member(who)
    }

    /// The accounts of the members, sorted.
    pub fn sorted_members(&self) -> (r: Vec<AccountId>)
        ensures
            r@ == ids(self@.members),
            strictly_ascending(ids(self@.members)) ==> strictly_ascending(r@),
    {
        self.members_ids()
    }

    /// Makes the account a member without a backing and without a deposit, unless it is one. This
    /// is meant for benchmarks, which need a member to pass the checks of origins.
    pub fn add(&mut self, who: AccountId)
        requires
            ascending(ids(old(self)@.members)),
        ensures
            final(self).config == old(self).config,
            ids(old(self)@.members).contains(who) ==> final(self)@ == old(self)@,
            !ids(old(self)@.members).contains(who) ==> final(self)@ == (State {
                members: with_entry(
                    old(self)@.members,
                    SeatHolder { who, stake: 0, deposit: 0 },
                ),
                ..old(self)@
            }),
    {
        match binary_search(&self.members, who) {
            Ok(_) => {},
            Err(at) => {
                proof {
                    lemma_place_unique(ids(self@.members), who, at as int);
                }
                self.members.insert(at, SeatHolder { who, stake: 0, deposit: 0 });
            },
        }
    }

    /// The least number of members.
    pub fn min_len(&self) -> (r: usize)
        ensures
            r == 0,
    {
        0
    }

    /// The greatest number of members that an election gives.
    pub fn max_len(&self) -> (r: usize)
        ensures
            r == self.config.desired_members_spec(),
    {
        self.config.desired_members() as usize
    }
}

/// A new candidate keeps the invariant.
pub proof fn lemma_with_candidate_wf(state: State, who: AccountId, deposit: Balance)
    requires
        state.wf(),
        !state.stands(who),
    ensures
        with_candidate(state, who, deposit).wf(),
{
    lemma_with_entry(state.candidates, (who, deposit));
}

/// A candidate who leaves keeps the invariant.
pub proof fn lemma_without_candidate_wf(state: State, who: AccountId)
    requires
        state.wf(),
        ids(state.candidates).contains(who),
    ensures
        without_candidate(state, who).wf(),
{
    lemma_without_entry(state.candidates, who);
}

/// A runner-up who leaves keeps the invariant.
pub proof fn lemma_without_runner_up_wf(state: State, who: AccountId)
    requires
        state.wf(),
        ids(state.runners_up).contains(who),
    ensures
        without_runner_up(state, who).wf(),
{
    lemma_without_entry(state.runners_up, who);
}

/// A member who leaves keeps the order of the members.
pub proof fn lemma_without_member_ascending(state: State, who: AccountId)
    requires
        strictly_ascending(ids(state.members)),
        ids(state.members).contains(who),
    ensures
        strictly_ascending(ids(without_member(state, who).members)),
{
    lemma_without_entry(state.members, who);
    let members = without_entry(state.members, who);
    if state.runners_up.len() > 0 && !ids(members).contains(state.runners_up.last().who) {
        lemma_with_entry(members, state.runners_up.last());
    }
}

/// A member who leaves keeps the invariant.
pub proof fn lemma_without_member_wf(state: State, who: AccountId)
    requires
        state.wf(),
        ids(state.members).contains(who),
    ensures
        without_member(state, who).wf(),
{
    lemma_without_entry(state.members, who);
    let members = without_entry(state.members, who);
    if state.runners_up.len() > 0 {
        let next = state.runners_up.last();
        let rest = state.runners_up.drop_last();
        let accounts = ids(state.runners_up);
        assert(accounts[accounts.len() - 1] == next.who);
        assert(accounts.contains(next.who));
        lemma_with_entry(members, next);
        assert(ids(rest) =~= accounts.drop_last());
        assert forall|a: AccountId| #[trigger] ids(rest).contains(a) implies accounts.contains(a)
            && a != next.who by {
            let i = ids(rest).index_of(a);
            assert(accounts[i] == a);
        }
    }
}

} // verus!
