//! The words in which laws speak of the module: its lists as they are stored, entry by entry.

use vstd::prelude::*;

use crate::config::Trait;
use crate::ids::ids;
use crate::state::{voter_ids, voting_view, Module};
use crate::types::{actions_view, AccountId, Action, Balance, Seat, Voter};

verus! {

/// Whether one of the seats belongs to the account.
pub open spec fn held_by(seats: Seq<Seat>, who: AccountId) -> bool {
    exists|i: int| 0 <= i < seats.len() && (#[trigger] seats[i]).who == who
}

/// Whether the account is one of the candidates.
pub open spec fn nominated(candidates: Seq<(AccountId, Balance)>, who: AccountId) -> bool {
    exists|i: int| 0 <= i < candidates.len() && (#[trigger] candidates[i]).0 == who
}

/// Whether the account is among the given ones.
pub open spec fn named(accounts: Seq<AccountId>, who: AccountId) -> bool {
    exists|i: int| 0 <= i < accounts.len() && #[trigger] accounts[i] == who
}

/// Seats in the order of their accounts, each account once.
pub open spec fn seats_in_order(seats: Seq<Seat>) -> bool {
    forall|i: int, j: int|
        0 <= i < j < seats.len() ==> (#[trigger] seats[i]).who < (#[trigger] seats[j]).who
}

/// Candidates in the order of their accounts, each account once.
pub open spec fn candidates_in_order(candidates: Seq<(AccountId, Balance)>) -> bool {
    forall|i: int, j: int|
        0 <= i < j < candidates.len() ==> (#[trigger] candidates[i]).0 < (
        #[trigger] candidates[j]).0
}

/// Accounts in ascending order, each once.
pub open spec fn accounts_in_order(accounts: Seq<AccountId>) -> bool {
    forall|i: int, j: int|
        0 <= i < j < accounts.len() ==> (#[trigger] accounts[i]) < (#[trigger] accounts[j])
}

/// No seat belongs to the account of another one.
pub open spec fn seats_distinct(seats: Seq<Seat>) -> bool {
    forall|i: int, j: int|
        0 <= i < j < seats.len() ==> (#[trigger] seats[i]).who != (#[trigger] seats[j]).who
}

/// Two entries that say the same of a voter.
pub open spec fn same_voter(
    a: (AccountId, Voter<AccountId, Balance>),
    b: (AccountId, Voter<AccountId, Balance>),
) -> bool {
    &&& a.0 == b.0
    &&& a.1.votes@ == b.1.votes@
    &&& a.1.stake == b.1.stake
    &&& a.1.deposit == b.1.deposit
}

/// Two lists that say the same of all voters, in the same order.
pub open spec fn same_voters(
    a: Seq<(AccountId, Voter<AccountId, Balance>)>,
    b: Seq<(AccountId, Voter<AccountId, Balance>)>,
) -> bool {
    &&& a.len() == b.len()
    &&& forall|i: int| 0 <= i < a.len() ==> same_voter(#[trigger] a[i], b[i])
}

/// Whether an account is found in a list of voters first at the given index.
pub open spec fn first_at(
    voting: Seq<(AccountId, Voter<AccountId, Balance>)>,
    who: AccountId,
    at: int,
) -> bool {
    &&& 0 <= at < voting.len()
    &&& voting[at].0 == who
    &&& forall|j: int| 0 <= j < at ==> (#[trigger] voting[j]).0 != who
}

/// Whether an account is one of the voters.
pub open spec fn votes_at_all(
    voting: Seq<(AccountId, Voter<AccountId, Balance>)>,
    who: AccountId,
) -> bool {
    exists|i: int| 0 <= i < voting.len() && (#[trigger] voting[i]).0 == who
}

/// Two modules with the same members, runners-up and candidates.
pub open spec fn same_lists<T: Trait>(a: Module<T>, b: Module<T>) -> bool {
    &&& a.members@ == b.members@
    &&& a.runners_up@ == b.runners_up@
    &&& a.candidates@ == b.candidates@
}

/// Two modules with the same parameters, the same number of rounds and the same version.
pub open spec fn same_setting<T: Trait>(a: Module<T>, b: Module<T>) -> bool {
    &&& a.config == b.config
    &&& a.election_rounds == b.election_rounds
    &&& a.storage_version == b.storage_version
}

/// Two modules that say the same of everything.
pub open spec fn same_module<T: Trait>(a: Module<T>, b: Module<T>) -> bool {
    &&& same_lists(a, b)
    &&& same_setting(a, b)
    &&& same_voters(a.voting@, b.voting@)
}

/// How many members, runners-up and candidates there are.
pub open spec fn number_standing<T: Trait>(module: Module<T>) -> nat {
    module.candidates@.len() + module.members@.len() + module.runners_up@.len()
}

/// All who stand for the next round with their deposits: the candidates, the members and the
/// runners-up.
pub open spec fn standing<T: Trait>(module: Module<T>) -> Seq<(AccountId, Balance)> {
    let candidates = module.candidates@;
    let members = module.members@;
    let runners_up = module.runners_up@;
    Seq::new(
        candidates.len() + members.len() + runners_up.len(),
        |i: int|
            if i < candidates.len() {
                candidates[i]
            } else if i < candidates.len() + members.len() {
                (
                    members[i - candidates.len()].who,
                    members[i - candidates.len()].deposit,
                )
            } else {
                (
                    runners_up[i - candidates.len() - members.len()].who,
                    runners_up[i - candidates.len() - members.len()].deposit,
                )
            },
    )
}

/// Whether the account is a member, a runner-up or a candidate.
pub open spec fn takes_part<T: Trait>(module: Module<T>, who: AccountId) -> bool {
    held_by(module.members@, who) || held_by(module.runners_up@, who) || nominated(
        module.candidates@,
        who,
    )
}

/// Indices in ascending order, each once, that pick exactly those of the first `n` for which
/// something holds.
pub open spec fn picks(at: Seq<int>, n: int, keep: spec_fn(int) -> bool) -> bool {
    &&& forall|k: int| 0 <= k < at.len() ==> 0 <= #[trigger] at[k] < n && keep(at[k])
    &&& forall|k: int, l: int| 0 <= k < l < at.len() ==> #[trigger] at[k] < #[trigger] at[l]
    &&& forall|i: int| 0 <= i < n && #[trigger] keep(i) ==> at.contains(i)
}

/// An amount as far as balances go.
pub open spec fn capped(amount: int) -> int {
    if amount <= Balance::MAX {
        amount
    } else {
        Balance::MAX as int
    }
}

/// Indices that pick what something else holds for just as well.
pub proof fn lemma_picks_same(
    at: Seq<int>,
    n: int,
    keep: spec_fn(int) -> bool,
    same: spec_fn(int) -> bool,
)
    requires
        picks(at, n, keep),
        forall|i: int| 0 <= i < n ==> #[trigger] keep(i) == same(i),
    ensures
        picks(at, n, same),
{
    assert forall|k: int| 0 <= k < at.len() implies 0 <= #[trigger] at[k] < n && same(at[k]) by {
        assert(keep(at[k]));
    }
    assert forall|i: int| 0 <= i < n && #[trigger] same(i) implies at.contains(i) by {
        assert(keep(i));
    }
}

/// The seats of an account, read either way.
pub proof fn lemma_held_by(seats: Seq<Seat>, who: AccountId)
    ensures
        ids(seats).contains(who) <==> held_by(seats, who),
{
    if ids(seats).contains(who) {
        let i = ids(seats).index_of(who);
        assert(seats[i].who == who);
    }
    if held_by(seats, who) {
        let i = choose|i: int| 0 <= i < seats.len() && (#[trigger] seats[i]).who == who;
        assert(ids(seats)[i] == who);
    }
}

/// The candidacy of an account, read either way.
pub proof fn lemma_nominated(candidates: Seq<(AccountId, Balance)>, who: AccountId)
    ensures
        ids(candidates).contains(who) <==> nominated(candidates, who),
{
    if ids(candidates).contains(who) {
        let i = ids(candidates).index_of(who);
        assert(candidates[i].0 == who);
    }
    if nominated(candidates, who) {
        let i = choose|i: int| 0 <= i < candidates.len() && (#[trigger] candidates[i]).0 == who;
        assert(ids(candidates)[i] == who);
    }
}

/// Whether an account stands, read either way.
pub proof fn lemma_takes_part<T: Trait>(module: Module<T>, who: AccountId)
    ensures
        module@.stands(who) <==> takes_part(module, who),
{
    lemma_held_by(module.members@, who);
    lemma_held_by(module.runners_up@, who);
    lemma_nominated(module.candidates@, who);
}

/// The voters, read either way.
pub proof fn lemma_votes_at_all(
    voting: Seq<(AccountId, Voter<AccountId, Balance>)>,
    who: AccountId,
)
    ensures
        voter_ids(voting_view(voting)).contains(who) <==> votes_at_all(voting, who),
        forall|i: int| #[trigger]
            first_at(voting, who, i) ==> voter_ids(voting_view(voting)).index_of_first(who)
                == Some(i),
        votes_at_all(voting, who) ==> first_at(
            voting,
            who,
            voter_ids(voting_view(voting)).index_of_first(who).unwrap(),
        ),
{
    let accounts = voter_ids(voting_view(voting));
    accounts.index_of_first_ensures(who);
    if accounts.contains(who) {
        let i = accounts.index_of(who);
        assert(voting[i].0 == who);
        let first = accounts.index_of_first(who).unwrap();
        assert forall|j: int| 0 <= j < first implies (#[trigger] voting[j]).0 != who by {
            assert(accounts[j] != who);
        }
    }
    if votes_at_all(voting, who) {
        let i = choose|i: int| 0 <= i < voting.len() && (#[trigger] voting[i]).0 == who;
        assert(accounts[i] == who);
    }
    assert forall|i: int| #[trigger] first_at(voting, who, i) implies accounts.index_of_first(who)
        == Some(i) by {
        assert(accounts[i] == who);
        let first = accounts.index_of_first(who).unwrap();
        assert(accounts[first] == who);
        if first < i {
            assert(voting[first].0 == who);
        }
    }
}

/// Lists of voters that look the same say the same.
pub proof fn lemma_same_voters(
    a: Seq<(AccountId, Voter<AccountId, Balance>)>,
    b: Seq<(AccountId, Voter<AccountId, Balance>)>,
)
    requires
        voting_view(a) == voting_view(b),
    ensures
        same_voters(a, b),
{
    assert(voting_view(a).len() == a.len() && voting_view(b).len() == b.len());
    assert forall|i: int| 0 <= i < a.len() implies same_voter(#[trigger] a[i], b[i]) by {
        assert(voting_view(a)[i] == (a[i].0, a[i].1@));
        assert(voting_view(b)[i] == (b[i].0, b[i].1@));
    }
}

/// Modules that look the same say the same.
pub proof fn lemma_same_module<T: Trait>(a: Module<T>, b: Module<T>)
    requires
        a@ == b@,
        a.config == b.config,
    ensures
        same_module(a, b),
{
    lemma_same_voters(a.voting@, b.voting@);
}

/// Each action, read either way.
pub proof fn lemma_actions(actions: Seq<Action>)
    ensures
        actions_view(actions).len() == actions.len(),
        forall|k: int|
            #![trigger actions[k]]
            #![trigger actions_view(actions)[k]]
            0 <= k < actions.len() ==> actions_view(actions)[k] == actions[k]@,
{
}

/// All who stand, read either way.
pub proof fn lemma_standing<T: Trait>(module: Module<T>)
    ensures
        module@.all_candidates() == standing(module),
        standing(module).len() == number_standing(module),
{
    assert(module@.all_candidates() =~= standing(module));
}

/// A part of a list comes from certain indices of it, in order.
pub proof fn lemma_filter_picks<A>(list: Seq<A>, keep: spec_fn(A) -> bool) -> (at: Seq<int>)
    ensures
        at.len() == list.filter(keep).len(),
        forall|k: int| 0 <= k < at.len() ==> 0 <= #[trigger] at[k] < list.len(),
        forall|k: int| 0 <= k < at.len() ==> list.filter(keep)[k] == list[#[trigger] at[k]],
        picks(at, list.len() as int, |i: int| keep(list[i])),
    decreases list.len(),
{
    reveal(Seq::filter);
    let pick = |i: int| keep(list[i]);
    if list.len() == 0 {
        Seq::empty()
    } else {
        let front = list.drop_last();
        let before = lemma_filter_picks(front, keep);
        let last = list.len() - 1;
        let front_pick = |i: int| keep(front[i]);
        let at = if keep(list.last()) {
            before.push(last)
        } else {
            before
        };
        assert forall|k: int| 0 <= k < at.len() implies 0 <= #[trigger] at[k] < list.len() && pick(
            at[k],
        ) && list.filter(keep)[k] == list[at[k]] by {
            if k < before.len() {
                assert(at[k] == before[k]);
                assert(front_pick(before[k]));
                assert(front[before[k]] == list[before[k]]);
            }
        }
        assert forall|k: int, l: int| 0 <= k < l < at.len() implies #[trigger] at[k]
            < #[trigger] at[l] by {
            assert(at[k] == before[k]);
            if l < before.len() {
                assert(at[l] == before[l]);
            }
        }
        assert forall|i: int| 0 <= i < list.len() && #[trigger] pick(i) implies at.contains(i) by {
            if i < last {
                assert(front[i] == list[i]);
                assert(front_pick(i));
                assert(before.contains(i));
                let k = before.index_of(i);
                assert(at[k] == i);
            } else {
                assert(at[before.len() as int] == last);
            }
        }
        at
    }
}

} // verus!
