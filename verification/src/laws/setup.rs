//! What questions to the module, genesis and migrations come to, in terms of what goes in and what
//! comes out.

use vstd::prelude::*;

use crate::arith::{count_as_u32, low32, saturating_product, saturating_sum};
use crate::calls::Call;
use crate::config::{vote_scale, Conversion, Parameters, Trait};
use crate::genesis::GenesisError;
use crate::ids::{disjoint, ids, lemma_place, lemma_with_entry, place, strictly_ascending};
use crate::laws::{law_migration_keeps_votes, law_vote_recorded};
use crate::laws::plain::{
    candidates_in_order, capped, first_at, held_by, lemma_actions, lemma_held_by, lemma_nominated,
    lemma_same_module, lemma_same_voters, lemma_standing, lemma_votes_at_all, nominated,
    number_standing, same_lists, same_module, same_setting, same_voter, same_voters, seats_distinct,
    seats_in_order, standing, votes_at_all,
};
use crate::migrations::{
    migrate_candidates_to_recorded_deposit, migrate_members_to_recorded_deposit,
    migrate_runners_up_to_recorded_deposit, migrate_voters_to_recorded_deposit, migrated_voter,
    with_migrated_voters, OldVoter,
};
use crate::state::{voter_ids, voter_of, voting_view, Module};
use crate::types::{
    actions_view, ensure_root, ensure_signed, AccountId, Action, Balance, BlockNumber, BondChange,
    DispatchError, Error, Origin, RawAction, Renouncing, Seat, SeatHolder, StorageVersion, Voter,
    VoterView, Weight, MAXIMUM_VOTE,
};
use crate::voting::{with_voter, PendingVote};

verus! {

/// Whether an account is a member, a runner-up, a candidate or a voter is what the lists say. An
/// account that is no candidate can be put where all before it are lower and all behind it higher.
pub proof fn law_roles<T: Trait>(
    module: &Module<T>,
    who: AccountId,
    member: bool,
    contained: bool,
    runner_up: bool,
    candidate: Result<(), usize>,
    voter: bool,
)
    requires
        call_ensures(Module::<T>::is_member, (module, who), member),
        call_ensures(Module::<T>::contains, (module, who), contained),
        call_ensures(Module::<T>::is_runner_up, (module, who), runner_up),
        call_ensures(Module::<T>::is_candidate, (module, who), candidate),
        call_ensures(Module::<T>::is_voter, (module, who), voter),
    ensures
        seats_in_order(module.members@) ==> {
            &&& call_requires(Module::<T>::is_member, (module, who))
            &&& call_requires(Module::<T>::contains, (module, who))
        },
        candidates_in_order(module.candidates@) ==> call_requires(
            Module::<T>::is_candidate,
            (module, who),
        ),
        member <==> held_by(module.members@, who),
        contained <==> held_by(module.members@, who),
        runner_up <==> held_by(module.runners_up@, who),
        candidate is Ok <==> nominated(module.candidates@, who),
        candidate matches Err(at) ==> {
            &&& at <= module.candidates@.len()
            &&& forall|i: int| 0 <= i < at ==> (#[trigger] module.candidates@[i]).0 < who
            &&& forall|i: int|
                at <= i < module.candidates@.len() ==> who < (#[trigger] module.candidates@[i]).0
        },
        voter <==> votes_at_all(module.voting@, who),
{
    lemma_held_by(module.members@, who);
    lemma_held_by(module.runners_up@, who);
    lemma_nominated(module.candidates@, who);
    lemma_votes_at_all(module.voting@, who);
    if seats_in_order(module.members@) {
        let members = module.members@;
        assert forall|i: int, j: int| 0 <= i < j < ids(members).len() implies ids(members)[i]
            <= ids(members)[j] by {
            assert(members[i].who < members[j].who);
        }
    }
    if candidates_in_order(module.candidates@) {
        let candidates = module.candidates@;
        assert forall|i: int, j: int| 0 <= i < j < ids(candidates).len() implies ids(candidates)[i]
            <= ids(candidates)[j] by {
            assert(candidates[i].0 < candidates[j].0);
        }
    }
    if candidate is Err {
        let at = candidate->Err_0 as int;
        let candidates = module.candidates@;
        assert forall|i: int| 0 <= i < at implies (#[trigger] candidates[i]).0 < who by {
            assert(ids(candidates)[i] < who);
        }
        assert forall|i: int| at <= i < candidates.len() implies who < (
        #[trigger] candidates[i]).0 by {
            assert(who < ids(candidates)[i]);
        }
    }
}

/// What is recorded of a voter is its first entry; of an account that is none, nothing is backed,
/// staked or deposited.
pub proof fn law_voter_record<T: Trait>(
    module: &Module<T>,
    who: AccountId,
    voter: Voter<AccountId, Balance>,
)
    requires
        call_ensures(Module::<T>::voting, (module, who), voter),
    ensures
        forall|at: int| #[trigger]
            first_at(module.voting@, who, at) ==> {
                let entry = module.voting@[at].1;
                &&& voter.votes@ == entry.votes@
                &&& voter.stake == entry.stake
                &&& voter.deposit == entry.deposit
            },
        !votes_at_all(module.voting@, who) ==> {
            &&& voter.votes@.len() == 0
            &&& voter.stake == 0
            &&& voter.deposit == 0
        },
{
    lemma_votes_at_all(module.voting@, who);
    assert forall|at: int| #[trigger] first_at(module.voting@, who, at) implies voter@
        == module.voting@[at].1@ by {
        assert(voting_view(module.voting@)[at] == (module.voting@[at].0, module.voting@[at].1@));
    }
}

/// The lists that are handed out are the lists that are stored, in the same order: the accounts of
/// the members; the members and runners-up with their deposits; and all who stand.
pub proof fn law_rosters<T: Trait>(
    module: &Module<T>,
    members: Vec<AccountId>,
    sorted: Vec<AccountId>,
    implicit: Vec<(AccountId, Balance)>,
    all: Vec<(AccountId, Balance)>,
)
    requires
        call_ensures(Module::<T>::members_ids, (module,), members),
        call_ensures(Module::<T>::sorted_members, (module,), sorted),
        call_ensures(Module::<T>::implicit_candidates, (module,), implicit),
        call_ensures(Module::<T>::all_candidates, (module,), all),
    ensures
        members@.len() == module.members@.len(),
        forall|i: int| 0 <= i < members@.len() ==> #[trigger] members@[i] == module.members@[i].who,
        sorted@ == members@,
        all@ == standing(*module),
        implicit@ == standing(*module).skip(module.candidates@.len() as int),
{
    lemma_standing(*module);
    assert(module@.implicit_candidates() =~= standing(*module).skip(
        module.candidates@.len() as int,
    )) by {
        assert(module@.all_candidates().skip(module.candidates@.len() as int)
            =~= module@.implicit_candidates());
    }
}

/// The figures that are handed out are the parameters.
pub proof fn law_figures<T: Trait>(
    module: &Module<T>,
    desired_members: u32,
    desired_runners_up: u32,
    term_duration: BlockNumber,
    least: usize,
    most: usize,
)
    requires
        call_ensures(Module::<T>::desired_members, (module,), desired_members),
        call_ensures(Module::<T>::desired_runners_up, (module,), desired_runners_up),
        call_ensures(Module::<T>::term_duration, (module,), term_duration),
        call_ensures(Module::<T>::min_len, (module,), least),
        call_ensures(Module::<T>::max_len, (module,), most),
    ensures
        desired_members == module.config.desired_members_spec(),
        desired_runners_up == module.config.desired_runners_up_spec(),
        term_duration == module.config.term_duration_spec(),
        least == 0,
        most == module.config.desired_members_spec(),
{
}

/// No account is in two of the lists of members, runners-up and candidates.
pub open spec fn roles_apart<T: Trait>(module: Module<T>) -> bool {
    forall|a: AccountId|
        #![trigger held_by(module.members@, a)]
        #![trigger held_by(module.runners_up@, a)]
        #![trigger nominated(module.candidates@, a)]
        {
            &&& !(held_by(module.members@, a) && held_by(module.runners_up@, a))
            &&& !(held_by(module.members@, a) && nominated(module.candidates@, a))
            &&& !(held_by(module.runners_up@, a) && nominated(module.candidates@, a))
        }
}

/// The storage is sound exactly if members and candidates are in order, no runner-up occurs twice,
/// nobody has two roles, no voter occurs twice, and each has from one to sixteen votes.
pub proof fn law_soundness<T: Trait>(module: &Module<T>, seats: bool, all: bool)
    requires
        call_ensures(Module::<T>::has_sound_seats, (module,), seats),
        call_ensures(Module::<T>::is_sound, (module,), all),
    ensures
        seats <==> {
            &&& seats_in_order(module.members@)
            &&& candidates_in_order(module.candidates@)
            &&& seats_distinct(module.runners_up@)
            &&& roles_apart(*module)
        },
        all <==> {
            &&& seats
            &&& forall|i: int, j: int|
                0 <= i < j < module.voting@.len() ==> (#[trigger] module.voting@[i]).0 != (
                #[trigger] module.voting@[j]).0
            &&& forall|i: int|
                0 <= i < module.voting@.len() ==> 1 <= (
                #[trigger] module.voting@[i]).1.votes@.len() <= 16
        },
{
    let members = module.members@;
    let candidates = module.candidates@;
    let runners_up = module.runners_up@;
    let voting = module.voting@;
    let accounts = voter_ids(voting_view(voting));
    assert forall|i: int| 0 <= i < members.len() implies ids(members)[i] == (
    #[trigger] members[i]).who by {}
    assert forall|i: int| 0 <= i < candidates.len() implies ids(candidates)[i] == (
    #[trigger] candidates[i]).0 by {}
    assert forall|i: int| 0 <= i < runners_up.len() implies ids(runners_up)[i] == (
    #[trigger] runners_up[i]).who by {}
    assert forall|i: int| 0 <= i < voting.len() implies accounts[i] == (#[trigger] voting[i]).0
        && voting_view(voting)[i] == (voting[i].0, voting[i].1@) by {}
    assert(roles_apart(*module) <==> {
        &&& disjoint(ids(members), ids(runners_up))
        &&& disjoint(ids(members), ids(candidates))
        &&& disjoint(ids(runners_up), ids(candidates))
    }) by {
        assert forall|a: AccountId|
            (#[trigger] ids(members).contains(a) <==> held_by(members, a)) && (ids(
                runners_up,
            ).contains(a) <==> held_by(runners_up, a)) && (ids(candidates).contains(a)
                <==> nominated(candidates, a)) by {
            lemma_held_by(members, a);
            lemma_held_by(runners_up, a);
            lemma_nominated(candidates, a);
        }
        assert forall|a: AccountId|
            (#[trigger] ids(runners_up).contains(a) <==> held_by(runners_up, a)) && (ids(
                candidates,
            ).contains(a) <==> nominated(candidates, a)) by {
            lemma_held_by(runners_up, a);
            lemma_nominated(candidates, a);
        }
        if roles_apart(*module) {
            assert(disjoint(ids(members), ids(runners_up)));
            assert(disjoint(ids(members), ids(candidates)));
            assert(disjoint(ids(runners_up), ids(candidates)));
        }
        if disjoint(ids(members), ids(runners_up)) && disjoint(
            ids(members),
            ids(candidates),
        ) && disjoint(ids(runners_up), ids(candidates)) {
            assert forall|a: AccountId|
                #![trigger held_by(members, a)]
                #![trigger held_by(runners_up, a)]
                #![trigger nominated(candidates, a)]
                {
                    &&& !(held_by(members, a) && held_by(runners_up, a))
                    &&& !(held_by(members, a) && nominated(candidates, a))
                    &&& !(held_by(runners_up, a) && nominated(candidates, a))
                } by {
                assert(ids(members).contains(a) <==> held_by(members, a));
                assert(ids(runners_up).contains(a) <==> held_by(runners_up, a));
            }
        }
    }
    if strictly_ascending(ids(members)) {
        assert forall|i: int, j: int| 0 <= i < j < members.len() implies (
        #[trigger] members[i]).who < (#[trigger] members[j]).who by {
            assert(ids(members)[i] < ids(members)[j]);
        }
    }
    if seats_in_order(members) {
        assert forall|i: int, j: int| 0 <= i < j < ids(members).len() implies ids(members)[i]
            < ids(members)[j] by {
            assert(members[i].who < members[j].who);
        }
    }
    if strictly_ascending(ids(candidates)) {
        assert forall|i: int, j: int| 0 <= i < j < candidates.len() implies (
        #[trigger] candidates[i]).0 < (#[trigger] candidates[j]).0 by {
            assert(ids(candidates)[i] < ids(candidates)[j]);
        }
    }
    if candidates_in_order(candidates) {
        assert forall|i: int, j: int| 0 <= i < j < ids(candidates).len() implies ids(candidates)[i]
            < ids(candidates)[j] by {
            assert(candidates[i].0 < candidates[j].0);
        }
    }
    if ids(runners_up).no_duplicates() {
        assert forall|i: int, j: int| 0 <= i < j < runners_up.len() implies (
        #[trigger] runners_up[i]).who != (#[trigger] runners_up[j]).who by {
            assert(ids(runners_up)[i] != ids(runners_up)[j]);
        }
    }
    if seats_distinct(runners_up) {
        assert forall|i: int, j: int| 0 <= i < j < ids(runners_up).len() implies ids(runners_up)[i]
            != ids(runners_up)[j] by {
            assert(runners_up[i].who != runners_up[j].who);
        }
    }
    let distinct = forall|i: int, j: int|
        0 <= i < j < voting.len() ==> (#[trigger] voting[i]).0 != (#[trigger] voting[j]).0;
    let bounded = forall|i: int|
        0 <= i < voting.len() ==> 1 <= (#[trigger] voting[i]).1.votes@.len() <= 16;
    if module@.voting_wf() {
        assert forall|i: int, j: int| 0 <= i < j < voting.len() implies (#[trigger] voting[i]).0
            != (#[trigger] voting[j]).0 by {
            assert(accounts[i] != accounts[j]);
        }
        assert forall|i: int| 0 <= i < voting.len() implies 1 <= (
        #[trigger] voting[i]).1.votes@.len() <= 16 by {
            assert(module@.voting[i].1.votes.len() <= MAXIMUM_VOTE);
            assert(module@.voting[i].1.votes.len() > 0);
        }
    }
    if distinct && bounded {
        assert forall|i: int, j: int| 0 <= i < j < accounts.len() implies accounts[i]
            != accounts[j] by {
            assert(voting[i].0 != voting[j].0);
        }
        assert forall|i: int| 0 <= i < module@.voting.len() implies 0 < (
        #[trigger] module@.voting[i]).1.votes.len() <= MAXIMUM_VOTE by {
            assert(1 <= voting[i].1.votes@.len() <= 16);
        }
    }
}

/// A new module holds nothing; at genesis its storage has the version with recorded deposits,
/// before that the initial one.
pub proof fn law_new_module<T: Trait>(config: T, empty: Module<T>, genesis: Module<T>)
    requires
        call_ensures(Module::<T>::empty, (config,), empty),
        call_ensures(Module::<T>::genesis, (config,), genesis),
    ensures
        call_requires(Module::<T>::empty, (config,)),
        call_requires(Module::<T>::genesis, (config,)),
        number_standing(empty) == 0 && number_standing(genesis) == 0,
        empty.voting@.len() == 0 && genesis.voting@.len() == 0,
        empty.election_rounds == 0 && genesis.election_rounds == 0,
        empty.config == config && genesis.config == config,
        empty.storage_version == StorageVersion::V1,
        genesis.storage_version == StorageVersion::V2RecordedDeposit,
{
    assert(voting_view(empty.voting@).len() == empty.voting@.len());
    assert(voting_view(genesis.voting@).len() == genesis.voting@.len());
}

/// A genesis member is admitted exactly if its free balance covers its stake, and then has to pay
/// the candidacy bond.
pub proof fn law_genesis_admission<T: Trait>(
    module: &Module<T>,
    stake: Balance,
    free_balance: Balance,
    result: Result<Balance, GenesisError>,
)
    requires
        call_ensures(Module::<T>::admit_genesis_member, (module, stake, free_balance), result),
    ensures
        call_requires(Module::<T>::admit_genesis_member, (module, stake, free_balance)),
        result is Ok <==> stake <= free_balance,
        result matches Ok(bond) ==> bond == module.config.candidacy_bond_spec(),
        result matches Err(e) ==> e == GenesisError::NotEnoughStake,
{
}

/// A genesis member is seated where its account belongs, with its stake as backing and the
/// candidacy bond as deposit, and votes for itself alone with all its stake. This fails exactly if
/// the bond could not be reserved, if the account is a member already, or if the stake does not
/// exceed the minimum balance; only in the last case the seat is taken all the same.
pub proof fn law_genesis_seat<T: Trait>(
    module: &mut Module<T>,
    member: AccountId,
    stake: Balance,
    reserved: bool,
    minimum_balance: Balance,
    result: Result<PendingVote, GenesisError>,
) -> (at: int)
    requires
        call_ensures(
            Module::<T>::seat_genesis_member,
            (module, member, stake, reserved, minimum_balance),
            result,
        ),
        seats_in_order(old(module).members@),
    ensures
        call_requires(
            Module::<T>::seat_genesis_member,
            (module, member, stake, reserved, minimum_balance),
        ),
        ({
            let taken = held_by(old(module).members@, member);
            &&& result is Ok <==> reserved && !taken && minimum_balance < stake
            &&& result == Err::<PendingVote, GenesisError>(GenesisError::NotEnoughBalance)
                <==> !reserved
            &&& result == Err::<PendingVote, GenesisError>(
                GenesisError::DuplicateMember(member),
            ) <==> reserved && taken
            &&& result == Err::<PendingVote, GenesisError>(
                GenesisError::CouldNotVote(DispatchError::Module(Error::LowBalance)),
            ) <==> reserved && !taken && stake <= minimum_balance
            &&& !reserved || taken ==> same_module(*final(module), *old(module))
            &&& reserved && !taken ==> {
                &&& 0 <= at <= old(module).members@.len()
                &&& final(module).members@ == old(module).members@.insert(
                    at,
                    SeatHolder {
                        who: member,
                        stake,
                        deposit: old(module).config.candidacy_bond_spec(),
                    },
                )
                &&& seats_in_order(final(module).members@)
                &&& final(module).runners_up@ == old(module).runners_up@
                &&& final(module).candidates@ == old(module).candidates@
                &&& same_setting(*final(module), *old(module))
                &&& same_voters(final(module).voting@, old(module).voting@)
            }
        }),
        result matches Ok(pending) ==> {
            let asked = match pending.bond {
                BondChange::Reserve(amount) => amount as int,
                BondChange::Keep => 0,
                BondChange::Unreserve(amount) => -(amount as int),
            };
            &&& pending.who == member
            &&& pending.votes@.len() == 1
            &&& pending.votes@[0] == member
            &&& pending.value == stake
            &&& pending.deposit == capped(
                old(module).config.voting_bond_base_spec()
                    + old(module).config.voting_bond_factor_spec(),
            )
            &&& forall|i: int| #[trigger]
                first_at(old(module).voting@, member, i) ==> old(module).voting@[i].1.deposit
                    + asked == pending.deposit
            &&& !votes_at_all(old(module).voting@, member) ==> asked == pending.deposit
        },
{
    let before = old(module).members@;
    let after = final(module).members@;
    let voting = old(module).voting@;
    let seat: Seat = SeatHolder {
        who: member,
        stake,
        deposit: old(module).config.candidacy_bond_spec(),
    };
    let at = place(ids(before), member);
    assert(strictly_ascending(ids(before))) by {
        assert forall|i: int, j: int| 0 <= i < j < ids(before).len() implies ids(before)[i] < ids(
            before,
        )[j] by {
            assert(before[i].who < before[j].who);
        }
    }
    lemma_held_by(before, member);
    lemma_votes_at_all(voting, member);
    assert(low32(1) == 1);
    assert forall|i: int| #[trigger] first_at(voting, member, i) implies voter_of(
        voting_view(voting),
        member,
    ).deposit == voting[i].1.deposit by {
        assert(voting_view(voting)[i] == (voting[i].0, voting[i].1@));
    }
    if reserved && !held_by(before, member) {
        lemma_place(ids(before), member);
        lemma_with_entry(before, seat);
        assert(after == before.insert(at, seat));
        assert forall|i: int, j: int| 0 <= i < j < after.len() implies (#[trigger] after[i]).who < (
        #[trigger] after[j]).who by {
            assert(ids(after)[i] < ids(after)[j]);
        }
        lemma_same_voters(final(module).voting@, voting);
    } else {
        lemma_same_module(*final(module), *old(module));
    }
    at
}

/// The members at genesis are reported in the order in which they were given.
pub proof fn law_genesis_reported<T: Trait>(
    module: &Module<T>,
    members: &Vec<(AccountId, Balance)>,
    actions: Vec<Action>,
)
    requires
        call_ensures(Module::<T>::report_genesis, (module, members), actions),
    ensures
        actions@.len() == 1,
        actions@[0] matches RawAction::InitializeMembers(accounts) && {
            &&& accounts@.len() == members@.len()
            &&& forall|i: int|
                0 <= i < accounts@.len() ==> #[trigger] accounts@[i] == members@[i].0
        },
{
    lemma_actions(actions@);
    assert(actions_view(actions@)[0] == actions@[0]@);
    let accounts = actions@[0]->InitializeMembers_0;
    assert(accounts@ == ids(members@));
    assert forall|i: int| 0 <= i < accounts@.len() implies #[trigger] accounts@[i]
        == members@[i].0 by {
        assert(ids(members@)[i] == members@[i].0);
    }
}

proof fn lemma_migrated_list(old: Seq<OldVoter>, deposit: Balance)
    requires
        forall|j: int, k: int|
            0 <= j < k < old.len() ==> (#[trigger] old[j]).0 != (#[trigger] old[k]).0,
    ensures
        ({
            let after = with_migrated_voters(Seq::empty(), old, deposit);
            &&& after.len() == old.len()
            &&& forall|i: int|
                0 <= i < old.len() ==> #[trigger] after[i] == (
                    old[i].0,
                    migrated_voter(old[i], deposit),
                )
        }),
    decreases old.len(),
{
    if old.len() > 0 {
        let front = old.drop_last();
        assert forall|j: int, k: int| 0 <= j < k < front.len() implies (#[trigger] front[j]).0 != (
        #[trigger] front[k]).0 by {
            assert(old[j].0 != old[k].0);
        }
        lemma_migrated_list(front, deposit);
        let before = with_migrated_voters(Seq::empty(), front, deposit);
        let accounts = voter_ids(before);
        assert(!accounts.contains(old.last().0)) by {
            if accounts.contains(old.last().0) {
                let i = accounts.index_of(old.last().0);
                assert(before[i].0 == front[i].0);
                assert(old[i].0 != old[old.len() - 1].0);
            }
        }
    }
}

/// Whether an account is one of the old voters.
pub open spec fn migrates(old: Seq<OldVoter>, who: AccountId) -> bool {
    exists|i: int| 0 <= i < old.len() && (#[trigger] old[i]).0 == who
}

proof fn lemma_others_kept(
    voting: Seq<(AccountId, VoterView)>,
    old: Seq<OldVoter>,
    deposit: Balance,
    who: AccountId,
)
    ensures
        ({
            let after = with_migrated_voters(voting, old, deposit);
            &&& voter_ids(after).contains(who) <==> voter_ids(voting).contains(who) || migrates(
                old,
                who,
            )
            &&& !migrates(old, who) ==> voter_of(after, who) == voter_of(voting, who)
        }),
    decreases old.len(),
{
    if old.len() > 0 {
        let front = old.drop_last();
        let last = old.last();
        let before = with_migrated_voters(voting, front, deposit);
        let voter = migrated_voter(last, deposit);
        lemma_others_kept(voting, front, deposit, who);
        law_vote_recorded(before, last.0, voter, who);
        assert(migrates(old, who) <==> migrates(front, who) || last.0 == who) by {
            if migrates(old, who) && last.0 != who {
                let i = choose|i: int| 0 <= i < old.len() && (#[trigger] old[i]).0 == who;
                assert(front[i].0 == who);
            }
            if migrates(front, who) {
                let i = choose|i: int| 0 <= i < front.len() && (#[trigger] front[i]).0 == who;
                assert(old[i].0 == who);
            }
            if last.0 == who {
                assert(old[old.len() - 1].0 == who);
            }
        }
        let accounts = voter_ids(before);
        let after = voter_ids(with_voter(before, last.0, voter));
        accounts.index_of_first_ensures(last.0);
        if accounts.contains(last.0) {
            assert(after =~= accounts);
        } else {
            assert(after =~= accounts.push(last.0));
            if accounts.contains(who) {
                assert(after[accounts.index_of(who)] == who);
            }
            if after.contains(who) && who != last.0 {
                assert(accounts[after.index_of(who)] == who);
            }
        }
    }
}

/// Migrating voters, where that is still to be done, records for each old voter its votes, its
/// stake and the deposit, and the new version; other voters stay as they are, and nothing else
/// changes. Into a storage without voters they come in their order, and nobody else. Where it has
/// been done, nothing changes.
pub proof fn law_voters_migrated<T: Trait>(
    module: &mut Module<T>,
    old_voters: Vec<OldVoter>,
    old_deposit: Balance,
    weight: Weight,
)
    requires
        call_ensures(
            migrate_voters_to_recorded_deposit::<T>,
            (module, old_voters, old_deposit),
            weight,
        ),
        forall|j: int, k: int|
            0 <= j < k < old_voters@.len() ==> (#[trigger] old_voters@[j]).0 != (
            #[trigger] old_voters@[k]).0,
    ensures
        old(module).storage_version != StorageVersion::V1 ==> {
            &&& weight == Weight::Zero
            &&& same_module(*final(module), *old(module))
        },
        old(module).storage_version == StorageVersion::V1 ==> {
            let after = final(module).voting@;
            &&& weight == Weight::Max
            &&& final(module).storage_version == StorageVersion::V2RecordedDeposit
            &&& same_lists(*final(module), *old(module))
            &&& final(module).config == old(module).config
            &&& final(module).election_rounds == old(module).election_rounds
            &&& forall|i: int, at: int|
                0 <= i < old_voters@.len() && first_at(after, (#[trigger] old_voters@[i]).0, at)
                    ==> {
                    &&& (#[trigger] after[at]).1.votes@ == old_voters@[i].1.1@
                    &&& after[at].1.stake == old_voters@[i].1.0
                    &&& after[at].1.deposit == old_deposit
                }
            &&& forall|a: AccountId| #[trigger]
                votes_at_all(after, a) <==> votes_at_all(old(module).voting@, a) || migrates(
                    old_voters@,
                    a,
                )
            &&& forall|a: AccountId, i: int, at: int|
                #![trigger first_at(old(module).voting@, a, i), first_at(after, a, at)]
                first_at(old(module).voting@, a, i) && first_at(after, a, at) && !migrates(
                    old_voters@,
                    a,
                ) ==> same_voter(after[at], old(module).voting@[i])
            &&& old(module).voting@.len() == 0 ==> {
                &&& after.len() == old_voters@.len()
                &&& forall|i: int|
                    0 <= i < after.len() ==> {
                        &&& (#[trigger] after[i]).0 == old_voters@[i].0
                        &&& after[i].1.votes@ == old_voters@[i].1.1@
                        &&& after[i].1.stake == old_voters@[i].1.0
                        &&& after[i].1.deposit == old_deposit
                    }
            }
        },
{
    let before = old(module).voting@;
    let after = final(module).voting@;
    if old(module).storage_version != StorageVersion::V1 {
        lemma_same_module(*final(module), *old(module));
    } else {
        assert forall|i: int, at: int|
            0 <= i < old_voters@.len() && first_at(
                after,
                (#[trigger] old_voters@[i]).0,
                at,
            ) implies {
            &&& (#[trigger] after[at]).1.votes@ == old_voters@[i].1.1@
            &&& after[at].1.stake == old_voters@[i].1.0
            &&& after[at].1.deposit == old_deposit
        } by {
            let who = old_voters@[i].0;
            lemma_votes_at_all(after, who);
            law_migration_keeps_votes(
                voting_view(before),
                old_voters@,
                old_deposit,
                i,
            );
            assert(after[at].0 == who);
            assert(votes_at_all(after, who));
            assert(voting_view(after)[at] == (after[at].0, after[at].1@));
        }
        assert forall|a: AccountId| #[trigger] votes_at_all(after, a) <==> votes_at_all(before, a)
            || migrates(old_voters@, a) by {
            lemma_others_kept(voting_view(before), old_voters@, old_deposit, a);
            lemma_votes_at_all(before, a);
            lemma_votes_at_all(after, a);
        }
        assert forall|a: AccountId, i: int, at: int|
            #![trigger first_at(before, a, i), first_at(after, a, at)]
            first_at(before, a, i) && first_at(after, a, at) && !migrates(
                old_voters@,
                a,
            ) implies same_voter(after[at], before[i]) by {
            lemma_others_kept(voting_view(before), old_voters@, old_deposit, a);
            lemma_votes_at_all(before, a);
            lemma_votes_at_all(after, a);
            assert(votes_at_all(before, a) && votes_at_all(after, a));
            assert(voting_view(after)[at] == (after[at].0, after[at].1@));
            assert(voting_view(before)[i] == (before[i].0, before[i].1@));
        }
        if before.len() == 0 {
            assert(voting_view(before) =~= Seq::empty());
            lemma_migrated_list(old_voters@, old_deposit);
            assert(voting_view(after).len() == after.len());
            assert forall|i: int| 0 <= i < after.len() implies {
                &&& (#[trigger] after[i]).0 == old_voters@[i].0
                &&& after[i].1.votes@ == old_voters@[i].1.1@
                &&& after[i].1.stake == old_voters@[i].1.0
                &&& after[i].1.deposit == old_deposit
            } by {
                assert(voting_view(after)[i] == (after[i].0, after[i].1@));
            }
        }
    }
}

/// Migrating candidates, where that is still to be done, records the deposit for each of them, in
/// their order, and nothing else changes. Where it has been done, nothing changes.
pub proof fn law_candidates_migrated<T: Trait>(
    module: &mut Module<T>,
    old_candidates: Option<Vec<AccountId>>,
    old_deposit: Balance,
    weight: Weight,
)
    requires
        call_ensures(
            migrate_candidates_to_recorded_deposit::<T>,
            (module, old_candidates, old_deposit),
            weight,
        ),
    ensures
        old(module).storage_version != StorageVersion::V1 ==> {
            &&& weight == Weight::Zero
            &&& same_module(*final(module), *old(module))
        },
        old(module).storage_version == StorageVersion::V1 ==> {
            let after = final(module).candidates@;
            &&& weight == Weight::Max
            &&& final(module).members@ == old(module).members@
            &&& final(module).runners_up@ == old(module).runners_up@
            &&& same_setting(*final(module), *old(module))
            &&& same_voters(final(module).voting@, old(module).voting@)
            &&& old_candidates is None ==> after.len() == 0
            &&& old_candidates matches Some(candidates) ==> {
                &&& after.len() == candidates@.len()
                &&& forall|i: int|
                    0 <= i < after.len() ==> #[trigger] after[i] == (candidates@[i], old_deposit)
            }
        },
{
    if old(module).storage_version != StorageVersion::V1 {
        lemma_same_module(*final(module), *old(module));
    } else {
        lemma_same_voters(final(module).voting@, old(module).voting@);
    }
}

/// Whether seats are the old ones with the deposit, in their order: none if there were none, and
/// the present ones if the old ones could not be decoded.
pub open spec fn seats_migrated(
    before: Seq<Seat>,
    after: Seq<Seat>,
    old: Result<Option<Vec<(AccountId, Balance)>>, ()>,
    deposit: Balance,
) -> bool {
    match old {
        Ok(Some(seats)) => {
            &&& after.len() == seats@.len()
            &&& forall|i: int|
                0 <= i < after.len() ==> #[trigger] after[i] == (SeatHolder {
                    who: seats@[i].0,
                    stake: seats@[i].1,
                    deposit,
                })
        },
        Ok(None) => after.len() == 0,
        Err(_) => after == before,
    }
}

/// Migrating members, where that is still to be done, records the deposit for each of them, and
/// nothing else changes. Where it has been done, nothing changes.
pub proof fn law_members_migrated<T: Trait>(
    module: &mut Module<T>,
    old_members: Result<Option<Vec<(AccountId, Balance)>>, ()>,
    deposit: Balance,
    weight: Weight,
)
    requires
        call_ensures(
            migrate_members_to_recorded_deposit::<T>,
            (module, old_members, deposit),
            weight,
        ),
    ensures
        old(module).storage_version != StorageVersion::V1 ==> {
            &&& weight == Weight::Zero
            &&& same_module(*final(module), *old(module))
        },
        old(module).storage_version == StorageVersion::V1 ==> {
            &&& weight == Weight::Max
            &&& seats_migrated(
                old(module).members@,
                final(module).members@,
                old_members,
                deposit,
            )
            &&& final(module).runners_up@ == old(module).runners_up@
            &&& final(module).candidates@ == old(module).candidates@
            &&& same_setting(*final(module), *old(module))
            &&& same_voters(final(module).voting@, old(module).voting@)
        },
{
    if old(module).storage_version != StorageVersion::V1 {
        lemma_same_module(*final(module), *old(module));
    } else {
        lemma_same_voters(final(module).voting@, old(module).voting@);
    }
}

/// Migrating runners-up, where that is still to be done, records the deposit for each of them, and
/// nothing else changes. Where it has been done, nothing changes.
pub proof fn law_runners_up_migrated<T: Trait>(
    module: &mut Module<T>,
    old_runners_up: Result<Option<Vec<(AccountId, Balance)>>, ()>,
    deposit: Balance,
    weight: Weight,
)
    requires
        call_ensures(
            migrate_runners_up_to_recorded_deposit::<T>,
            (module, old_runners_up, deposit),
            weight,
        ),
    ensures
        old(module).storage_version != StorageVersion::V1 ==> {
            &&& weight == Weight::Zero
            &&& same_module(*final(module), *old(module))
        },
        old(module).storage_version == StorageVersion::V1 ==> {
            &&& weight == Weight::Max
            &&& seats_migrated(
                old(module).runners_up@,
                final(module).runners_up@,
                old_runners_up,
                deposit,
            )
            &&& final(module).members@ == old(module).members@
            &&& final(module).candidates@ == old(module).candidates@
            &&& same_setting(*final(module), *old(module))
            &&& same_voters(final(module).voting@, old(module).voting@)
        },
{
    if old(module).storage_version != StorageVersion::V1 {
        lemma_same_module(*final(module), *old(module));
    } else {
        lemma_same_voters(final(module).voting@, old(module).voting@);
    }
}

/// The weight announced for a call: by the number of votes, by the number of candidates that is
/// stated, by the role that is renounced, or for a full block where an election may follow.
/// Cleaning up weighs nothing.
pub proof fn law_call_announced(call: &Call, weight: Weight)
    requires
        call_ensures(Call::weight, (call,), weight),
    ensures
        match *call {
            Call::Vote(votes, _) => weight matches Weight::VoteMore(n) && n == votes@.len()
                % 0x1_0000_0000,
            Call::RemoveVoter => weight == Weight::RemoveVoter,
            Call::SubmitCandidacy(count) => weight == Weight::SubmitCandidacy(count),
            Call::RenounceCandidacy(Renouncing::Candidate(count)) => weight
                == Weight::RenounceCandidacyCandidate(count),
            Call::RenounceCandidacy(Renouncing::Member) => weight
                == Weight::RenounceCandidacyMembers,
            Call::RenounceCandidacy(Renouncing::RunnerUp) => weight
                == Weight::RenounceCandidacyRunnersUp,
            Call::RemoveMember(_, true) => weight == Weight::RemoveMemberWithReplacement,
            Call::RemoveMember(_, false) => weight == Weight::MaximumBlock,
            Call::CleanDefunctVoters(_, _) => weight == Weight::Zero,
        },
{
}

/// Stakes become vote weights as they are, or, if they are scaled, by as many units for one as the
/// total issuance exceeds the greatest weight, but at least one; what does not fit is capped. Back
/// in currency, a sum of weights stands for as many units each, as far as balances go.
pub proof fn law_conversion(parameters: Parameters, amount: Balance, issuance: Balance)
    ensures
        ({
            let ratio = issuance as int / 0xFFFF_FFFF_FFFF_FFFF;
            let units = if parameters.conversion == Conversion::Scaled && ratio >= 1 {
                ratio
            } else {
                1
            };
            let weight = parameters.to_vote_spec(amount, issuance) as int;
            &&& weight * units <= amount
            &&& amount < (weight + 1) * units || weight == 0xFFFF_FFFF_FFFF_FFFF
            &&& parameters.to_currency_spec(amount, issuance) == capped(amount * units)
        }),
{
    let units = vote_scale(parameters.conversion, issuance);
    let quotient = amount as int / units;
    let weight = parameters.to_vote_spec(amount, issuance) as int;
    vstd::arithmetic::div_mod::lemma_fundamental_div_mod(amount as int, units);
    assert(0 <= amount as int % units < units) by {
        vstd::arithmetic::div_mod::lemma_mod_bound(amount as int, units);
    }
    assert(quotient >= 0 && quotient * units <= amount && amount < (quotient + 1) * units) by (
    nonlinear_arith)
        requires
            amount as int == units * quotient + amount as int % units,
            0 <= amount as int % units < units,
            amount >= 0,
            units >= 1,
    ;
    assert(weight * units <= quotient * units) by (nonlinear_arith)
        requires
            weight <= quotient,
            units >= 1,
    ;
}

/// Sums and products of balances are exact as far as balances go, and counts as 32-bit numbers are
/// what is left of them.
pub proof fn law_arithmetic(
    a: Balance,
    b: Balance,
    count: usize,
    sum: Balance,
    product: Balance,
    rest: u32,
)
    requires
        call_ensures(saturating_sum, (a, b), sum),
        call_ensures(saturating_product, (a, b), product),
        call_ensures(count_as_u32, (count,), rest),
    ensures
        sum == capped(a + b),
        product == capped(a * b),
        rest == count as int % 0x1_0000_0000,
{
}

/// Signed calls come from their signers, and calls of the system from the system; all others are
/// refused.
pub proof fn law_origins(
    origin: Origin,
    signer: Result<AccountId, DispatchError>,
    root: Result<(), DispatchError>,
)
    requires
        call_ensures(ensure_signed, (origin,), signer),
        call_ensures(ensure_root, (origin,), root),
    ensures
        match origin {
            Origin::Signed(who) => signer == Ok::<AccountId, DispatchError>(who) && root is Err,
            Origin::Root => signer is Err && root is Ok,
            Origin::Unsigned => signer is Err && root is Err,
        },
        signer matches Err(e) ==> e == DispatchError::BadOrigin,
        root matches Err(e) ==> e == DispatchError::BadOrigin,
{
}

/// Parameters given as plain values are these values.
pub proof fn law_parameters(parameters: Parameters)
    ensures
        parameters.candidacy_bond_spec() == parameters.candidacy_bond,
        parameters.voting_bond_base_spec() == parameters.voting_bond_base,
        parameters.voting_bond_factor_spec() == parameters.voting_bond_factor,
        parameters.desired_members_spec() == parameters.desired_members,
        parameters.desired_runners_up_spec() == parameters.desired_runners_up,
        parameters.term_duration_spec() == parameters.term_duration,
        parameters.module_id_spec() == parameters.module_id,
{
}

} // verus!
