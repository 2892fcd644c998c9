//! The storage of the module.

use vstd::prelude::*;

use crate::arith::{count_as_u32, low32, saturated, saturating_product, saturating_sum};
use crate::config::Trait;
use crate::ids::{
    ascending, binary_search, disjoint, ids, ids_of, is_disjoint, is_strictly_ascending,
    is_without_repetition, position, strictly_ascending,
};
use crate::types::{
    no_voter, AccountId, Balance, BlockNumber, Seat, StorageVersion, Voter, VoterView, MAXIMUM_VOTE,
};

verus! {

/// The module: its parameters and its storage.
pub struct Module<T: Trait> {
    /// The parameters.
    pub config: T,
    /// The current elected members, sorted by account.
    pub members: Vec<Seat>,
    /// The current reserved runners-up, sorted from the worst to the best. Upon removal of a
    /// member, the last one replaces it.
    pub runners_up: Vec<Seat>,
    /// The total number of vote rounds that have happened, excluding the upcoming one.
    pub election_rounds: u32,
    /// Votes, locked stake and deposit of each voter, in the order in which the voters enter an
    /// election.
    pub voting: Vec<(AccountId, Voter<AccountId, Balance>)>,
    /// The present candidates with their deposits, sorted by account. A current member or
    /// runner-up never enters this list and is always implicitly a candidate.
    pub candidates: Vec<(AccountId, Balance)>,
    /// The version of the storage layout.
    pub storage_version: StorageVersion,
}

/// The storage of the module as contracts see it.
#[verifier::ext_equal]
pub struct State {
    /// The members.
    pub members: Seq<Seat>,
    /// The runners-up, from the worst to the best.
    pub runners_up: Seq<Seat>,
    /// The number of rounds that have happened.
    pub election_rounds: u32,
    /// The voters.
    pub voting: Seq<(AccountId, VoterView)>,
    /// The candidates with their deposits.
    pub candidates: Seq<(AccountId, Balance)>,
    /// The version of the storage layout.
    pub storage_version: StorageVersion,
}

/// The voters as contracts see them.
pub open spec fn voting_view(voting: Seq<(AccountId, Voter<AccountId, Balance>)>) -> Seq<
    (AccountId, VoterView),
> {
    voting.map_values(|v: (AccountId, Voter<AccountId, Balance>)| (v.0, v.1@))
}

/// The accounts of the voters.
pub open spec fn voter_ids(voting: Seq<(AccountId, VoterView)>) -> Seq<AccountId> {
    voting.map_values(|v: (AccountId, VoterView)| v.0)
}

/// What is recorded of an account as a voter: its first entry, or nothing.
pub open spec fn voter_of(voting: Seq<(AccountId, VoterView)>, who: AccountId) -> VoterView {
    if voter_ids(voting).contains(who) {
        voting[voter_ids(voting).index_of_first(who).unwrap()].1
    } else {
        no_voter()
    }
}

/// The deposit of `count` votes.
pub open spec fn deposit_for<T: Trait>(config: T, count: int) -> Balance {
    saturated(
        config.voting_bond_base_spec() + saturated(
            config.voting_bond_factor_spec() * low32(count),
        ),
    ) as Balance
}

impl State {
    /// The members and the runners-up with their deposits: candidates of the next round without
    /// having submitted.
    pub open spec fn implicit_candidates(self) -> Seq<(AccountId, Balance)> {
        self.members.map_values(|s: Seat| (s.who, s.deposit)) + self.runners_up.map_values(
            |s: Seat| (s.who, s.deposit),
        )
    }

    /// All candidates of the next round with their deposits.
    pub open spec fn all_candidates(self) -> Seq<(AccountId, Balance)> {
        self.candidates + self.implicit_candidates()
    }

    /// Whether the account is a member, a runner-up or a candidate.
    pub open spec fn stands(self, who: AccountId) -> bool {
        ||| ids(self.members).contains(who)
        ||| ids(self.runners_up).contains(who)
        ||| ids(self.candidates).contains(who)
    }

    /// No vote is for anyone who stands.
    pub open spec fn defunct(self, votes: Seq<AccountId>) -> bool {
        forall|v: int| 0 <= v < votes.len() ==> !self.stands(#[trigger] votes[v])
    }

    /// What the lists of members, runners-up and candidates always are: members and candidates
    /// sorted by account and without repetition, runners-up without repetition, and no account
    /// in two of them.
    pub open spec fn seats_wf(self) -> bool {
        &&& strictly_ascending(ids(self.members))
        &&& strictly_ascending(ids(self.candidates))
        &&& ids(self.runners_up).no_duplicates()
        &&& disjoint(ids(self.members), ids(self.runners_up))
        &&& disjoint(ids(self.members), ids(self.candidates))
        &&& disjoint(ids(self.runners_up), ids(self.candidates))
    }

    /// No voter votes for more than the maximum.
    pub open spec fn votes_bounded(self) -> bool {
        forall|v: int|
            0 <= v < self.voting.len() ==> (#[trigger] self.voting[v]).1.votes.len()
                <= MAXIMUM_VOTE
    }

    /// What the list of voters always is: each account once, each with at least one vote and with
    /// no more than the maximum.
    pub open spec fn voting_wf(self) -> bool {
        &&& voter_ids(self.voting).no_duplicates()
        &&& self.votes_bounded()
        &&& forall|v: int|
            0 <= v < self.voting.len() ==> (#[trigger] self.voting[v]).1.votes.len() > 0
    }

    /// The invariant of the module.
    pub open spec fn wf(self) -> bool {
        &&& self.seats_wf()
        &&& self.voting_wf()
    }

    /// Every seat holder has a backing.
    pub open spec fn seats_backed(self) -> bool {
        &&& forall|i: int| 0 <= i < self.members.len() ==> (#[trigger] self.members[i]).stake > 0
        &&& forall|i: int|
            0 <= i < self.runners_up.len() ==> (#[trigger] self.runners_up[i]).stake > 0
    }
}

impl<T: Trait> View for Module<T> {
    type V = State;

    open spec fn view(&self) -> State {
        State {
            members: self.members@,
            runners_up: self.runners_up@,
            election_rounds: self.election_rounds,
            voting: voting_view(self.voting@),
            candidates: self.candidates@,
            storage_version: self.storage_version,
        }
    }
}

impl<T: Trait> Module<T> {
    /// Whether the lists of members, runners-up and candidates are as the operations leave them.
    /// This is for callers that have the storage from elsewhere.
    pub fn has_sound_seats(&self) -> (r: bool)
        ensures
            r == self@.seats_wf(),
    {
        is_strictly_ascending(&self.members) && is_strictly_ascending(&self.candidates)
            && is_without_repetition(&self.runners_up) && is_disjoint(
            &self.members,
            &self.runners_up,
        ) && is_disjoint(&self.members, &self.candidates) && is_disjoint(
            &self.runners_up,
            &self.candidates,
        )
    }

    /// Whether the whole storage is as the operations leave it.
    pub fn is_sound(&self) -> (r: bool)
        ensures
            r == self@.wf(),
    {
        proof {
            lemma_voter_ids(self.voting@);
        }
        if !self.has_sound_seats() || !is_without_repetition(&self.voting) {
            return false;
        }
        let mut v: usize = 0;
        while v < self.voting.len()
            invariant
                v <= self.voting@.len(),
                forall|i: int|
                    0 <= i < v ==> 0 < (#[trigger] self@.voting[i]).1.votes.len() <= MAXIMUM_VOTE,
            decreases self.voting@.len() - v,
        {
            let votes: usize = self.voting[v].1.votes.len();
            assert(votes == self@.voting[v as int].1.votes.len());
            if votes == 0 || votes > MAXIMUM_VOTE {
                return false;
            }
            v += 1;
        }
        true
    }

    /// The deposit value of `count` votes.
    pub fn deposit_of(&self, count: usize) -> (r: Balance)
        ensures
            r == deposit_for(self.config, count as int),
    {
        let votes: u32 = count_as_u32(count);
        saturating_sum(
            self.config.voting_bond_base(),
            saturating_product(self.config.voting_bond_factor(), votes as Balance),
        )
    }

    /// Checks if `who` is a candidate. If not, the error is the index at which it can be inserted.
    pub fn is_candidate(&self, who: AccountId) -> (r: Result<(), usize>)
        requires
            ascending(ids(self@.candidates)),
        ensures
            r is Ok <==> ids(self@.candidates).contains(who),
            r matches Err(at) ==> {
                &&& at <= self@.candidates.len()
                &&& forall|j: int| 0 <= j < at ==> ids(self@.candidates)[j] < who
                &&& forall|j: int|
                    at <= j < self@.candidates.len() ==> who < ids(self@.candidates)[j]
            },
    {
        match binary_search(&self.candidates, who) {
            Ok(_) => Ok(()),
            Err(at) => Err(at),
        }
    }

    /// Checks if `who` is a voter. It may or may not be a current one.
    pub fn is_voter(&self, who: AccountId) -> (r: bool)
        ensures
            r == voter_ids(self@.voting).contains(who),
    {
        proof {
            lemma_voter_ids(self.voting@);
        }
        position(&self.voting, who).is_some()
    }

    /// Checks if `who` is currently an active member.
    pub fn is_member(&self, who: AccountId) -> (r: bool)
        requires
            ascending(ids(self@.members)),
        ensures
            r == ids(self@.members).contains(who),
    {
        binary_search(&self.members, who).is_ok()
    }

    /// Checks if `who` is currently an active runner-up.
    pub fn is_runner_up(&self, who: AccountId) -> (r: bool)
        ensures
            r == ids(self@.runners_up).contains(who),
    {
        position(&self.runners_up, who).is_some()
    }

    /// The number of desired members.
    pub fn desired_members(&self) -> (r: u32)
        ensures
            r == self.config.desired_members_spec(),
    {
        self.config.desired_members()
    }

    /// The number of desired runners-up.
    pub fn desired_runners_up(&self) -> (r: u32)
        ensures
            r == self.config.desired_runners_up_spec(),
    {
        self.config.desired_runners_up()
    }

    /// The term duration.
    pub fn term_duration(&self) -> (r: BlockNumber)
        ensures
            r == self.config.term_duration_spec(),
    {
        self.config.term_duration()
    }

    /// The members' accounts.
    pub fn members_ids(&self) -> (r: Vec<AccountId>)
        ensures
            r@ == ids(self@.members),
    {
        ids_of(&self.members)
    }

    /// The members followed by the runners-up, with their deposits. These accounts are treated as
    /// candidates.
    pub fn implicit_candidates(&self) -> (r: Vec<(AccountId, Balance)>)
        ensures
            r@ == self@.implicit_candidates(),
    {
        let ghost members = self.members@.map_values(|s: Seat| (s.who, s.deposit));
        let ghost runners_up = self.runners_up@.map_values(|s: Seat| (s.who, s.deposit));
        let mut r: Vec<(AccountId, Balance)> = Vec::new();
        let mut i: usize = 0;
        while i < self.members.len()
            invariant
                i <= self.members@.len(),
                members == self.members@.map_values(|s: Seat| (s.who, s.deposit)),
                r@ == members.take(i as int),
            decreases self.members@.len() - i,
        {
            r.push((self.members[i].who, self.members[i].deposit));
            i += 1;
        }
        let mut j: usize = 0;
        while j < self.runners_up.len()
            invariant
                j <= self.runners_up@.len(),
                runners_up == self.runners_up@.map_values(|s: Seat| (s.who, s.deposit)),
                r@ == members + runners_up.take(j as int),
            decreases self.runners_up@.len() - j,
        {
            r.push((self.runners_up[j].who, self.runners_up[j].deposit));
            j += 1;
        }
        r
    }

    /// All candidates of the next round with their deposits: those who submitted, then the
    /// members, then the runners-up.
    pub fn all_candidates(&self) -> (r: Vec<(AccountId, Balance)>)
        ensures
            r@ == self@.all_candidates(),
    {
        let mut r: Vec<(AccountId, Balance)> = Vec::new();
        let mut i: usize = 0;
        while i < self.candidates.len()
            invariant
                i <= self.candidates@.len(),
                r@ == self.candidates@.take(i as int),
            decreases self.candidates@.len() - i,
        {
            r.push(self.candidates[i]);
            i += 1;
        }
        let mut implicit = self.implicit_candidates();
        r.append(&mut implicit);
        r
    }

    /// Checks if a voter with the given votes is defunct: none of them is for a member, a
    /// runner-up or a candidate.
    pub fn is_defunct_voter(&self, votes: &Vec<AccountId>) -> (r: bool)
        requires
            ascending(ids(self@.members)),
            ascending(ids(self@.candidates)),
        ensures
            r == self@.defunct(votes@),
    {
        let mut i: usize = 0;
        while i < votes.len()
            invariant
                i <= votes@.len(),
                ascending(ids(self@.members)),
                ascending(ids(self@.candidates)),
                forall|v: int| 0 <= v < i ==> !self@.stands(#[trigger] votes@[v]),
            decreases votes@.len() - i,
        {
            let who: AccountId = votes[i];
            if self.is_member(who) || self.is_runner_up(who) || self.is_candidate(who).is_ok() {
                assert(self@.stands(votes@[i as int]));
                return false;
            }
            i += 1;
        }
        true
    }

    /// What is recorded of an account as a voter; an empty record if it is none.
    pub fn voting(&self, who: AccountId) -> (r: Voter<AccountId, Balance>)
        ensures
            r@ == voter_of(self@.voting, who),
    {
        match position(&self.voting, who) {
            Some(i) => {
                proof {
                    lemma_voter_at(self.voting@, who, i as int);
                }
                let voter = &self.voting[i].1;
                Voter {
                    votes: crate::ids::copy_ids(&voter.votes),
                    stake: voter.stake,
                    deposit: voter.deposit,
                }
            },
            None => {
                proof {
                    lemma_voter_ids(self.voting@);
                }
                Voter::default()
            },
        }
    }
}

/// The accounts of the voters, read from the list or from its view.
pub proof fn lemma_voter_ids(voting: Seq<(AccountId, Voter<AccountId, Balance>)>)
    ensures
        voter_ids(voting_view(voting)) == ids(voting),
{
    assert(voter_ids(voting_view(voting)) =~= ids(voting));
}

/// The first entry of an account is what is recorded of it.
pub proof fn lemma_voter_at(
    voting: Seq<(AccountId, Voter<AccountId, Balance>)>,
    who: AccountId,
    at: int,
)
    requires
        0 <= at < voting.len(),
        ids(voting)[at] == who,
        forall|j: int| 0 <= j < at ==> ids(voting)[j] != who,
    ensures
        voter_ids(voting_view(voting)).contains(who),
        voter_ids(voting_view(voting)).index_of_first(who) == Some(at),
        voter_of(voting_view(voting), who) == voting[at].1@,
{
    lemma_voter_ids(voting);
    let accounts = voter_ids(voting_view(voting));
    assert(accounts[at] == who);
    accounts.index_of_first_ensures(who);
    let first = accounts.index_of_first(who).unwrap();
    assert(accounts[first] == who);
}

} // verus!
