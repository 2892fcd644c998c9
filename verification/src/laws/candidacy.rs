//! What the calls of candidates and on members do, in terms of what goes in and what comes out.

use vstd::prelude::*;

use crate::candidacy::{
    lemma_without_member_ascending, removal_actions, without_member, PendingCandidacy,
};
use crate::config::Trait;
use crate::ids::{
    entry_of, ids, lemma_place, lemma_with_entry, lemma_without_entry, place, strictly_ascending,
    without_entry,
};
use crate::laws::plain::{
    candidates_in_order, held_by, lemma_actions, lemma_held_by, lemma_nominated, lemma_same_module,
    lemma_same_voters, nominated, same_module, same_setting, same_voters, seats_in_order,
    takes_part,
};
use crate::state::Module;
use crate::types::{
    actions_view, AccountId, Action, Balance, DispatchError, DispatchErrorWithPostInfo, Error,
    Origin, RawAction, RawEvent, Renouncing, Seat, SeatHolder, SlashHandler, Weight,
};

verus! {

/// A candidacy is accepted exactly if it is signed by somebody who does not stand yet, and the
/// number of candidates is not understated. What has to be reserved is the candidacy bond.
pub proof fn law_candidacy_accepted<T: Trait>(
    module: &Module<T>,
    origin: Origin,
    candidate_count: u32,
    result: Result<PendingCandidacy, DispatchError>,
)
    requires
        call_ensures(Module::<T>::submit_candidacy, (module, origin, candidate_count), result),
    ensures
        result is Ok <==> {
            &&& origin is Signed
            &&& !takes_part(*module, origin->Signed_0)
            &&& module.candidates@.len() % 0x1_0000_0000 <= candidate_count
        },
        result matches Ok(pending) ==> {
            &&& origin == Origin::Signed(pending.who)
            &&& pending.deposit == module.config.candidacy_bond_spec()
        },
{
    if origin is Signed {
        lemma_part(*module, origin->Signed_0);
    }
}

proof fn lemma_part<T: Trait>(module: Module<T>, who: AccountId)
    ensures
        ids(module.members@).contains(who) <==> held_by(module.members@, who),
        ids(module.runners_up@).contains(who) <==> held_by(module.runners_up@, who),
        ids(module.candidates@).contains(who) <==> nominated(module.candidates@, who),
{
    lemma_held_by(module.members@, who);
    lemma_held_by(module.runners_up@, who);
    lemma_nominated(module.candidates@, who);
}

/// A candidacy is refused for the first reason that applies: it is not signed, the number of
/// candidates is understated, or the account is a candidate, a member or a runner-up.
pub proof fn law_candidacy_refused<T: Trait>(
    module: &Module<T>,
    origin: Origin,
    candidate_count: u32,
    error: DispatchError,
)
    requires
        call_ensures(
            Module::<T>::submit_candidacy,
            (module, origin, candidate_count),
            Err(error),
        ),
    ensures
        error == DispatchError::BadOrigin <==> !(origin is Signed),
        origin matches Origin::Signed(who) ==> {
            let understated = module.candidates@.len() % 0x1_0000_0000 > candidate_count;
            let candidate = nominated(module.candidates@, who);
            let member = held_by(module.members@, who);
            let runner_up = held_by(module.runners_up@, who);
            &&& error == DispatchError::Module(Error::InvalidCandidateCount) <==> understated
            &&& error == DispatchError::Module(Error::DuplicatedCandidate) <==> !understated
                && candidate
            &&& error == DispatchError::Module(Error::MemberSubmit) <==> !understated && !candidate
                && member
            &&& error == DispatchError::Module(Error::RunnerUpSubmit) <==> !understated
                && !candidate && !member && runner_up
        },
{
    if origin is Signed {
        lemma_part(*module, origin->Signed_0);
    }
}

/// A candidate whose deposit is reserved joins the others where its account belongs, with that
/// deposit, and nothing else changes. Otherwise the candidacy fails and nothing changes at all.
pub proof fn law_candidate_joins<T: Trait>(
    module: &mut Module<T>,
    pending: PendingCandidacy,
    reserved: bool,
    result: Result<(), DispatchError>,
) -> (at: int)
    requires
        call_ensures(Module::<T>::admit_candidate, (module, pending, reserved), result),
        candidates_in_order(old(module).candidates@),
        !nominated(old(module).candidates@, pending.who),
    ensures
        !takes_part(*old(module), pending.who) ==> call_requires(
            Module::<T>::admit_candidate,
            (module, pending, reserved),
        ),
        result is Ok <==> reserved,
        result matches Err(e) ==> {
            &&& e == DispatchError::Module(Error::InsufficientCandidateFunds)
            &&& same_module(*final(module), *old(module))
        },
        result is Ok ==> {
            let before = old(module).candidates@;
            let after = final(module).candidates@;
            &&& 0 <= at <= before.len()
            &&& after == before.insert(at, (pending.who, pending.deposit))
            &&& candidates_in_order(after)
            &&& final(module).members@ == old(module).members@
            &&& final(module).runners_up@ == old(module).runners_up@
            &&& same_setting(*final(module), *old(module))
            &&& same_voters(final(module).voting@, old(module).voting@)
        },
{
    let before = old(module).candidates@;
    let after = final(module).candidates@;
    let at = place(ids(before), pending.who);
    lemma_part(*old(module), pending.who);
    assert(strictly_ascending(ids(before))) by {
        assert forall|i: int, j: int| 0 <= i < j < ids(before).len() implies ids(before)[i] < ids(
            before,
        )[j] by {
            assert(before[i].0 < before[j].0);
        }
    }
    lemma_place(ids(before), pending.who);
    if result is Err {
        lemma_same_module(*final(module), *old(module));
    } else {
        lemma_with_entry(before, (pending.who, pending.deposit));
        assert forall|i: int, j: int| 0 <= i < j < after.len() implies (#[trigger] after[i]).0 < (
        #[trigger] after[j]).0 by {
            assert(ids(after)[i] < ids(after)[j]);
        }
        lemma_same_voters(final(module).voting@, old(module).voting@);
    }
    at
}

/// What becomes of the seats when a member leaves. Without runners-up the seat stays empty.
/// Otherwise the last of the runners-up, who is the best one, leaves them and takes a seat with its
/// backing and its deposit. All others keep their seats, and the members stay in order.
pub open spec fn seat_given_up<T: Trait>(
    before: Module<T>,
    after: Module<T>,
    who: AccountId,
    at: int,
) -> bool {
    let left = before.members@.remove(at);
    &&& 0 <= at < before.members@.len()
    &&& before.members@[at].who == who
    &&& seats_in_order(after.members@)
    &&& before.runners_up@.len() == 0 ==> {
        &&& after.members@ == left
        &&& after.runners_up@.len() == 0
    }
    &&& before.runners_up@.len() > 0 ==> {
        let next = before.runners_up@.last();
        &&& after.runners_up@ == before.runners_up@.drop_last()
        &&& held_by(left, next.who) ==> after.members@ == left
        &&& !held_by(left, next.who) ==> exists|place: int|
            0 <= place <= left.len() && after.members@ == #[trigger] left.insert(place, next)
    }
    &&& after.candidates@ == before.candidates@
    &&& same_setting(after, before)
    &&& same_voters(after.voting@, before.voting@)
}

/// What is reported when a member leaves: who joins, who leaves, and who the members are now. The
/// prime is set again, unless there is none or it is the one who leaves.
pub open spec fn departure_reported<T: Trait>(
    before: Module<T>,
    after: Module<T>,
    who: AccountId,
    prime: Option<AccountId>,
    report: Seq<Action>,
) -> bool {
    &&& report.len() == if prime is Some && prime != Some(who) {
        2int
    } else {
        1
    }
    &&& report[0] matches RawAction::ChangeMembers(incoming, outgoing, new) && {
        &&& outgoing@.len() == 1 && outgoing@[0] == who
        &&& before.runners_up@.len() == 0 ==> incoming@.len() == 0
        &&& before.runners_up@.len() > 0 ==> incoming@.len() == 1 && incoming@[0]
            == before.runners_up@.last().who
        &&& new@.len() == after.members@.len()
        &&& forall|i: int|
            0 <= i < new@.len() ==> #[trigger] new@[i] == after.members@[i].who
    }
    &&& report.len() == 2 ==> report[1] == RawAction::<
        Vec<AccountId>,
        Vec<(AccountId, Balance)>,
    >::SetPrime(prime)
}

/// What happens to the deposit of a member who leaves. If it is slashed, the handler for kicked
/// members gets it, which is reported, and nothing is returned to anybody; otherwise it is returned
/// and nobody is slashed. Either way it is exactly the recorded deposit.
pub open spec fn deposit_settled(
    actions: Seq<Action>,
    who: AccountId,
    deposit: Balance,
    slash: bool,
) -> bool {
    &&& slash ==> {
        &&& actions.len() >= 2
        &&& actions[0] == RawAction::<Vec<AccountId>, Vec<(AccountId, Balance)>>::SlashReserved(
            who,
            deposit,
            SlashHandler::KickedMember,
        )
        &&& actions[1] == RawAction::<Vec<AccountId>, Vec<(AccountId, Balance)>>::DepositEvent(
            RawEvent::SeatHolderSlashed(who, deposit),
        )
        &&& forall|k: int|
            0 <= k < actions.len() ==> {
                &&& !(#[trigger] actions[k] is Unreserve)
                &&& actions[k] is SlashReserved ==> k == 0
            }
    }
    &&& !slash ==> {
        &&& actions.len() >= 1
        &&& actions[0] == RawAction::<Vec<AccountId>, Vec<(AccountId, Balance)>>::Unreserve(
            who,
            deposit,
        )
        &&& forall|k: int|
            0 <= k < actions.len() ==> {
                &&& !(#[trigger] actions[k] is SlashReserved)
                &&& actions[k] is Unreserve ==> k == 0
            }
    }
}

/// The seats after a member has left, from what is recorded.
proof fn lemma_seat_given_up<T: Trait>(
    before: Module<T>,
    after: Module<T>,
    who: AccountId,
    at: int,
)
    requires
        seats_in_order(before.members@),
        ids(before.members@).contains(who),
        after@ == without_member(before@, who),
        after.config == before.config,
        ids(before.members@).index_of_first(who) == Some(at),
    ensures
        seat_given_up(before, after, who, at),
        entry_of(before.members@, who) == before.members@[at],
{
    let members = before.members@;
    assert(strictly_ascending(ids(members))) by {
        assert forall|i: int, j: int| 0 <= i < j < ids(members).len() implies ids(members)[i]
            < ids(members)[j] by {
            assert(members[i].who < members[j].who);
        }
    }
    lemma_without_entry(members, who);
    ids(members).index_of_first_ensures(who);
    let left = members.remove(at);
    assert(left == without_entry(members, who));
    lemma_without_member_ascending(before@, who);
    assert forall|i: int, j: int| 0 <= i < j < after.members@.len() implies (
    #[trigger] after.members@[i]).who < (#[trigger] after.members@[j]).who by {
        assert(ids(after.members@)[i] < ids(after.members@)[j]);
    }
    if before.runners_up@.len() > 0 {
        let next = before.runners_up@.last();
        lemma_held_by(left, next.who);
        if !held_by(left, next.who) {
            let to = place(ids(left), next.who);
            lemma_place(ids(left), next.who);
            assert(after.members@ == left.insert(to, next));
        }
    }
    lemma_same_voters(after.voting@, before.voting@);
}

/// The actions when a member leaves, from what is returned.
proof fn lemma_departure<T: Trait>(
    before: Module<T>,
    after: Module<T>,
    who: AccountId,
    slash: bool,
    prime: Option<AccountId>,
    actions: Seq<Action>,
    n: int,
)
    requires
        after@ == without_member(before@, who),
        0 <= n <= actions.len(),
        actions_view(actions.take(n)) == removal_actions(
            before@,
            who,
            slash,
            prime,
        ),
        forall|k: int| n <= k < actions.len() ==> #[trigger] actions[k] is DepositEvent,
    ensures
        deposit_settled(
            actions,
            who,
            entry_of(before.members@, who).deposit,
            slash,
        ),
        departure_reported(
            before,
            after,
            who,
            prime,
            actions.subrange(
                if slash {
                    2
                } else {
                    1
                },
                n,
            ),
        ),
        n >= 2,
{
    let first = actions.take(n);
    let view = removal_actions(before@, who, slash, prime);
    lemma_actions(first);
    assert forall|k: int| 0 <= k < n implies view[k] == (#[trigger] actions[k])@ by {
        assert(first[k] == actions[k]);
    }
    let from: int = if slash {
        2
    } else {
        1
    };
    let report = actions.subrange(from, n);
    assert(view[from] == actions[from]@);
    assert(report[0] == actions[from]);
    assert(report[0] is ChangeMembers);
    let new = report[0]->ChangeMembers_2;
    assert(new@ == ids(after.members@));
    assert forall|i: int| 0 <= i < new@.len() implies #[trigger] new@[i]
        == after.members@[i].who by {
        assert(ids(after.members@)[i] == after.members@[i].who);
    }
    assert(view[0] == actions[0]@);
    assert(view[1] == actions[1]@);
    if report.len() == 2 {
        assert(report[1] == actions[from + 1]);
        assert(view[from + 1] == actions[from + 1]@);
    }
    assert forall|k: int| 0 <= k < actions.len() && slash implies !(
    #[trigger] actions[k] is Unreserve) && (actions[k] is SlashReserved ==> k == 0) by {
        if k < n {
            assert(view[k] == actions[k]@);
        }
    }
    assert forall|k: int| 0 <= k < actions.len() && !slash implies !(
    #[trigger] actions[k] is SlashReserved) && (actions[k] is Unreserve ==> k == 0) by {
        if k < n {
            assert(view[k] == actions[k]@);
        }
    }
}

/// Removing a member works exactly for members. The best runner-up, if there is any, takes the
/// seat; the deposit is slashed or returned as asked for; and the change is reported.
pub proof fn law_member_leaves<T: Trait>(
    module: &mut Module<T>,
    who: AccountId,
    slash: bool,
    prime: Option<AccountId>,
    result: Result<(bool, Vec<Action>), DispatchError>,
) -> (at: int)
    requires
        call_ensures(
            Module::<T>::remove_and_replace_member,
            (module, who, slash, prime),
            result,
        ),
        seats_in_order(old(module).members@),
    ensures
        call_requires(Module::<T>::remove_and_replace_member, (module, who, slash, prime)),
        result is Ok <==> held_by(old(module).members@, who),
        result matches Err(e) ==> {
            &&& e == DispatchError::Module(Error::NotMember)
            &&& same_module(*final(module), *old(module))
        },
        result matches Ok((replaced, actions)) ==> {
            let from: int = if slash {
                2
            } else {
                1
            };
            &&& replaced <==> old(module).runners_up@.len() > 0
            &&& seat_given_up(*old(module), *final(module), who, at)
            &&& deposit_settled(actions@, who, old(module).members@[at].deposit, slash)
            &&& departure_reported(
                *old(module),
                *final(module),
                who,
                prime,
                actions@.subrange(from, actions@.len() as int),
            )
        },
{
    lemma_in_order(old(module).members@);
    lemma_held_by(old(module).members@, who);
    if result is Err {
        lemma_same_module(*final(module), *old(module));
        0
    } else {
        let actions = result->Ok_0.1@;
        let at = ids(old(module).members@).index_of_first(who).unwrap();
        ids(old(module).members@).index_of_first_ensures(who);
        lemma_seat_given_up(*old(module), *final(module), who, at);
        assert(actions.take(actions.len() as int) =~= actions);
        lemma_departure(
            *old(module),
            *final(module),
            who,
            slash,
            prime,
            actions,
            actions.len() as int,
        );
        at
    }
}

proof fn lemma_in_order(seats: Seq<Seat>)
    requires
        seats_in_order(seats),
    ensures
        strictly_ascending(ids(seats)),
{
    assert forall|i: int, j: int| 0 <= i < j < ids(seats).len() implies ids(seats)[i] < ids(
        seats,
    )[j] by {
        assert(seats[i].who < seats[j].who);
    }
}

/// Kicking a member is for the system alone, and works exactly if the member can be looked up, is
/// one, and the prediction of a replacement is right. The deposit is slashed, whoever the prime is
/// and whether or not there is a replacement; the kick is reported last. An election has to follow
/// exactly if there is no replacement.
pub proof fn law_member_kicked<T: Trait>(
    module: &mut Module<T>,
    origin: Origin,
    who: Option<AccountId>,
    has_replacement: bool,
    prime: Option<AccountId>,
    result: Result<(bool, Vec<Action>), DispatchErrorWithPostInfo>,
) -> (at: int)
    requires
        call_ensures(
            Module::<T>::remove_member,
            (module, origin, who, has_replacement, prime),
            result,
        ),
        seats_in_order(old(module).members@),
    ensures
        call_requires(Module::<T>::remove_member, (module, origin, who, has_replacement, prime)),
        result is Ok <==> {
            &&& origin == Origin::Root
            &&& who is Some
            &&& has_replacement <==> old(module).runners_up@.len() > 0
            &&& held_by(old(module).members@, who.unwrap())
        },
        result is Err ==> same_module(*final(module), *old(module)),
        result matches Ok((election, actions)) ==> {
            let account = who.unwrap();
            let n = actions@.len() as int;
            &&& election <==> old(module).runners_up@.len() == 0
            &&& seat_given_up(*old(module), *final(module), account, at)
            &&& deposit_settled(actions@, account, old(module).members@[at].deposit, true)
            &&& departure_reported(
                *old(module),
                *final(module),
                account,
                prime,
                actions@.subrange(2, n - 1),
            )
            &&& actions@[n - 1] == RawAction::<
                Vec<AccountId>,
                Vec<(AccountId, Balance)>,
            >::DepositEvent(RawEvent::MemberKicked(account))
        },
{
    lemma_in_order(old(module).members@);
    if who is Some {
        lemma_held_by(old(module).members@, who.unwrap());
    }
    if result is Err {
        lemma_same_module(*final(module), *old(module));
        0
    } else {
        let actions = result->Ok_0.1@;
        let n = actions.len() as int;
        let account = who.unwrap();
        let at = ids(old(module).members@).index_of_first(account).unwrap();
        ids(old(module).members@).index_of_first_ensures(account);
        lemma_seat_given_up(*old(module), *final(module), account, at);
        lemma_actions(actions);
        let view = removal_actions(old(module)@, account, true, prime);
        assert(actions_view(actions) == view.push(
            RawAction::DepositEvent(RawEvent::MemberKicked(account)),
        ));
        assert(actions_view(actions.take(n - 1)) =~= view);
        assert(actions_view(actions)[n - 1] == actions[n - 1]@);
        lemma_departure(*old(module), *final(module), account, true, prime, actions, n - 1);
        at
    }
}

/// Kicking is refused for the first reason that applies: the caller is not the system, the member
/// cannot be looked up, the prediction of a replacement is wrong, or the account is no member. Only
/// a wrong prediction is charged otherwise than announced.
pub proof fn law_kick_refused<T: Trait>(
    module: &mut Module<T>,
    origin: Origin,
    who: Option<AccountId>,
    has_replacement: bool,
    prime: Option<AccountId>,
    refusal: DispatchErrorWithPostInfo,
)
    requires
        call_ensures(
            Module::<T>::remove_member,
            (module, origin, who, has_replacement, prime),
            Err(refusal),
        ),
    ensures
        ({
            let wrong = has_replacement != (old(module).runners_up@.len() > 0);
            let known = origin == Origin::Root && who is Some;
            &&& refusal.error == DispatchError::BadOrigin <==> origin != Origin::Root
            &&& refusal.error == DispatchError::CannotLookup <==> origin == Origin::Root && who
                is None
            &&& refusal.error == DispatchError::Module(Error::InvalidReplacement) <==> known
                && wrong
            &&& refusal.error == DispatchError::Module(Error::NotMember) <==> known && !wrong
            &&& refusal.error == DispatchError::Module(Error::NotMember) ==> !held_by(
                old(module).members@,
                who.unwrap(),
            )
            &&& refusal.actual_weight == if known && wrong {
                Some(Weight::RemoveMemberWrongRefund)
            } else {
                None
            }
        }),
{
    if who is Some {
        lemma_held_by(old(module).members@, who.unwrap());
    }
}

/// A runner-up who renounces leaves the list, in which all others stay in their order, from the
/// worst to the best. The recorded deposit is returned, and nothing else happens.
pub proof fn law_runner_up_renounces<T: Trait>(
    module: &mut Module<T>,
    origin: Origin,
    prime: Option<AccountId>,
    result: Result<Vec<Action>, DispatchError>,
) -> (at: int)
    requires
        call_ensures(
            Module::<T>::renounce_candidacy,
            (module, origin, Renouncing::RunnerUp, prime),
            result,
        ),
    ensures
        result is Ok <==> origin is Signed && held_by(old(module).runners_up@, origin->Signed_0),
        result matches Err(e) ==> {
            &&& e == if origin is Signed {
                DispatchError::Module(Error::InvalidRenouncing)
            } else {
                DispatchError::BadOrigin
            }
            &&& same_module(*final(module), *old(module))
        },
        result matches Ok(actions) ==> {
            let before = old(module).runners_up@;
            let after = final(module).runners_up@;
            &&& 0 <= at < before.len()
            &&& before[at].who == origin->Signed_0
            &&& forall|i: int| 0 <= i < at ==> (#[trigger] before[i]).who != origin->Signed_0
            &&& after.len() == before.len() - 1
            &&& forall|i: int| 0 <= i < at ==> #[trigger] after[i] == before[i]
            &&& forall|i: int| at <= i < after.len() ==> #[trigger] after[i] == before[i + 1]
            &&& final(module).members@ == old(module).members@
            &&& final(module).candidates@ == old(module).candidates@
            &&& same_setting(*final(module), *old(module))
            &&& same_voters(final(module).voting@, old(module).voting@)
            &&& actions@.len() == 1
            &&& actions@[0] == RawAction::<Vec<AccountId>, Vec<(AccountId, Balance)>>::Unreserve(
                origin->Signed_0,
                before[at].deposit,
            )
        },
{
    let before = old(module).runners_up@;
    if origin is Signed {
        lemma_held_by(before, origin->Signed_0);
    }
    if result is Err {
        lemma_same_module(*final(module), *old(module));
        0
    } else {
        let who = origin->Signed_0;
        let actions = result->Ok_0@;
        ids(before).index_of_first_ensures(who);
        let at = ids(before).index_of_first(who).unwrap();
        assert forall|i: int| 0 <= i < at implies (#[trigger] before[i]).who != who by {
            assert(ids(before)[i] != who);
        }
        lemma_actions(actions);
        assert(actions[0]@ is Unreserve);
        lemma_same_voters(final(module).voting@, old(module).voting@);
        at
    }
}

/// Whether one seat stands before another one in a list.
pub open spec fn stands_before(seats: Seq<Seat>, a: Seat, b: Seat) -> bool {
    exists|i: int, j: int|
        0 <= i < j < seats.len() && #[trigger] seats[i] == a && #[trigger] seats[j] == b
}

/// Of two runners-up who stay when another one renounces, the one that stood before the other still
/// does. So if they were in the order of their backing, they still are.
pub proof fn law_runners_up_keep_rank<T: Trait>(
    module: &mut Module<T>,
    origin: Origin,
    prime: Option<AccountId>,
    actions: Vec<Action>,
)
    requires
        call_ensures(
            Module::<T>::renounce_candidacy,
            (module, origin, Renouncing::RunnerUp, prime),
            Ok(actions),
        ),
    ensures
        forall|i: int, j: int|
            0 <= i < j < final(module).runners_up@.len() ==> stands_before(
                old(module).runners_up@,
                #[trigger] final(module).runners_up@[i],
                #[trigger] final(module).runners_up@[j],
            ),
        (forall|i: int, j: int|
            0 <= i < j < old(module).runners_up@.len() ==> (
            #[trigger] old(module).runners_up@[i]).stake <= (
            #[trigger] old(module).runners_up@[j]).stake) ==> (forall|i: int, j: int|
            0 <= i < j < final(module).runners_up@.len() ==> (
            #[trigger] final(module).runners_up@[i]).stake <= (
            #[trigger] final(module).runners_up@[j]).stake),
{
    let at = law_runner_up_renounces(module, origin, prime, Ok(actions));
    let before = old(module).runners_up@;
    let after = final(module).runners_up@;
    assert forall|i: int, j: int| 0 <= i < j < after.len() implies stands_before(
        before,
        #[trigger] after[i],
        #[trigger] after[j],
    ) by {
        let k = if i < at { i } else { i + 1 };
        let l = if j < at { j } else { j + 1 };
        assert(before[k] == after[i] && before[l] == after[j]);
    }
}

/// A candidate who renounces, without understating the number of candidates, leaves the list, in
/// which all others stay in their order. The recorded deposit is returned, and nothing else
/// happens.
pub proof fn law_candidate_renounces<T: Trait>(
    module: &mut Module<T>,
    origin: Origin,
    count: u32,
    prime: Option<AccountId>,
    result: Result<Vec<Action>, DispatchError>,
) -> (at: int)
    requires
        call_ensures(
            Module::<T>::renounce_candidacy,
            (module, origin, Renouncing::Candidate(count), prime),
            result,
        ),
    ensures
        result is Ok <==> {
            &&& origin is Signed
            &&& nominated(old(module).candidates@, origin->Signed_0)
            &&& old(module).candidates@.len() % 0x1_0000_0000 <= count
        },
        result matches Err(e) ==> {
            &&& e == if origin is Signed {
                DispatchError::Module(Error::InvalidRenouncing)
            } else {
                DispatchError::BadOrigin
            }
            &&& same_module(*final(module), *old(module))
        },
        result matches Ok(actions) ==> {
            let before = old(module).candidates@;
            &&& 0 <= at < before.len()
            &&& before[at].0 == origin->Signed_0
            &&& final(module).candidates@ == before.remove(at)
            &&& final(module).members@ == old(module).members@
            &&& final(module).runners_up@ == old(module).runners_up@
            &&& same_setting(*final(module), *old(module))
            &&& same_voters(final(module).voting@, old(module).voting@)
            &&& actions@.len() == 1
            &&& actions@[0] == RawAction::<Vec<AccountId>, Vec<(AccountId, Balance)>>::Unreserve(
                origin->Signed_0,
                before[at].1,
            )
        },
{
    let before = old(module).candidates@;
    if origin is Signed {
        lemma_nominated(before, origin->Signed_0);
    }
    if result is Err {
        lemma_same_module(*final(module), *old(module));
        0
    } else {
        let who = origin->Signed_0;
        let actions = result->Ok_0@;
        ids(before).index_of_first_ensures(who);
        let at = ids(before).index_of_first(who).unwrap();
        lemma_actions(actions);
        assert(actions[0]@ is Unreserve);
        lemma_same_voters(final(module).voting@, old(module).voting@);
        at
    }
}

/// A member who renounces gives up the seat, to the best runner-up if there is any, and gets the
/// recorded deposit back; nobody is slashed. That the member renounced is reported last.
pub proof fn law_member_renounces<T: Trait>(
    module: &mut Module<T>,
    origin: Origin,
    prime: Option<AccountId>,
    result: Result<Vec<Action>, DispatchError>,
) -> (at: int)
    requires
        call_ensures(
            Module::<T>::renounce_candidacy,
            (module, origin, Renouncing::Member, prime),
            result,
        ),
        seats_in_order(old(module).members@),
    ensures
        result is Ok <==> origin is Signed && held_by(old(module).members@, origin->Signed_0),
        result matches Err(e) ==> {
            &&& e == if origin is Signed {
                DispatchError::Module(Error::NotMember)
            } else {
                DispatchError::BadOrigin
            }
            &&& same_module(*final(module), *old(module))
        },
        result matches Ok(actions) ==> {
            let who = origin->Signed_0;
            let n = actions@.len() as int;
            &&& seat_given_up(*old(module), *final(module), who, at)
            &&& deposit_settled(actions@, who, old(module).members@[at].deposit, false)
            &&& departure_reported(
                *old(module),
                *final(module),
                who,
                prime,
                actions@.subrange(1, n - 1),
            )
            &&& actions@[n - 1] == RawAction::<
                Vec<AccountId>,
                Vec<(AccountId, Balance)>,
            >::DepositEvent(RawEvent::MemberRenounced(who))
        },
{
    lemma_in_order(old(module).members@);
    if origin is Signed {
        lemma_held_by(old(module).members@, origin->Signed_0);
    }
    if result is Err {
        lemma_same_module(*final(module), *old(module));
        0
    } else {
        let actions = result->Ok_0@;
        let n = actions.len() as int;
        let who = origin->Signed_0;
        let at = ids(old(module).members@).index_of_first(who).unwrap();
        ids(old(module).members@).index_of_first_ensures(who);
        lemma_seat_given_up(*old(module), *final(module), who, at);
        lemma_actions(actions);
        let view = removal_actions(old(module)@, who, false, prime);
        assert(actions_view(actions) == view.push(
            RawAction::DepositEvent(RawEvent::MemberRenounced(who)),
        ));
        assert(actions_view(actions.take(n - 1)) =~= view);
        assert(actions_view(actions)[n - 1] == actions[n - 1]@);
        lemma_departure(*old(module), *final(module), who, false, prime, actions, n - 1);
        at
    }
}

/// Renouncing, in whatever role, is possible wherever members and candidates are in order, and so
/// is submitting candidacy.
pub proof fn law_candidacy_possible<T: Trait>(
    module: &mut Module<T>,
    origin: Origin,
    renouncing: Renouncing,
    prime: Option<AccountId>,
    candidate_count: u32,
)
    requires
        seats_in_order(old(module).members@),
        candidates_in_order(old(module).candidates@),
    ensures
        call_requires(Module::<T>::renounce_candidacy, (module, origin, renouncing, prime)),
        call_requires(
            Module::<T>::submit_candidacy,
            (&*old(module), origin, candidate_count),
        ),
{
    let candidates = old(module).candidates@;
    lemma_in_order(old(module).members@);
    assert forall|i: int, j: int| 0 <= i < j < ids(candidates).len() implies ids(candidates)[i]
        < ids(candidates)[j] by {
        assert(candidates[i].0 < candidates[j].0);
    }
}

/// Making an account a member for benchmarks puts it where it belongs, without a backing and
/// without a deposit, unless it is one. Nothing else changes.
pub proof fn law_add<T: Trait>(module: &mut Module<T>, who: AccountId)
    requires
        call_ensures(Module::<T>::add, (module, who), ()),
        seats_in_order(old(module).members@),
    ensures
        call_requires(Module::<T>::add, (module, who)),
        held_by(old(module).members@, who) ==> same_module(*final(module), *old(module)),
        !held_by(old(module).members@, who) ==> {
            &&& seats_in_order(final(module).members@)
            &&& exists|at: int|
                0 <= at <= old(module).members@.len() && final(module).members@
                    == #[trigger] old(module).members@.insert(
                    at,
                    SeatHolder { who, stake: 0, deposit: 0 },
                )
            &&& final(module).runners_up@ == old(module).runners_up@
            &&& final(module).candidates@ == old(module).candidates@
            &&& same_setting(*final(module), *old(module))
            &&& same_voters(final(module).voting@, old(module).voting@)
        },
{
    let before = old(module).members@;
    let after = final(module).members@;
    lemma_held_by(before, who);
    lemma_in_order(before);
    if held_by(before, who) {
        lemma_same_module(*final(module), *old(module));
    } else {
        let seat: Seat = SeatHolder { who, stake: 0, deposit: 0 };
        let at = place(ids(before), who);
        lemma_place(ids(before), who);
        lemma_with_entry(before, seat);
        assert(after == before.insert(at, seat));
        assert forall|i: int, j: int| 0 <= i < j < after.len() implies (#[trigger] after[i]).who < (
        #[trigger] after[j]).who by {
            assert(ids(after)[i] < ids(after)[j]);
        }
        lemma_same_voters(final(module).voting@, old(module).voting@);
    }
}

} // verus!
