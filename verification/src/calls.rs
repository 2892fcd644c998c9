//! The calls of the module and the weights announced for them.

use vstd::prelude::*;

use crate::arith::{count_as_u32, low32};
use crate::types::{AccountId, Balance, Renouncing, Weight};

verus! {

/// A call of the module.
#[derive(Clone, Debug, PartialEq)]
pub enum Call {
    /// [`Module::vote`](crate::state::Module::vote): the votes and the stake.
    Vote(Vec<AccountId>, Balance),
    /// [`Module::remove_voter`](crate::state::Module::remove_voter).
    RemoveVoter,
    /// [`Module::submit_candidacy`](crate::state::Module::submit_candidacy): the number of
    /// candidates.
    SubmitCandidacy(u32),
    /// [`Module::renounce_candidacy`](crate::state::Module::renounce_candidacy): the role.
    RenounceCandidacy(Renouncing),
    /// [`Module::remove_member`](crate::state::Module::remove_member): the member, and whether
    /// there is a replacement.
    RemoveMember(AccountId, bool),
    /// [`Module::clean_defunct_voters`](crate::state::Module::clean_defunct_voters): the number of
    /// voters, and of those who are defunct.
    CleanDefunctVoters(u32, u32),
}

/// The weight announced for a call.
pub open spec fn announced_weight(call: Call) -> Weight {
    match call {
        // The common case of placing more votes; in the other two there is a refund.
        Call::Vote(votes, _) => Weight::VoteMore(low32(votes@.len() as int)),
        Call::RemoveVoter => Weight::RemoveVoter,
        Call::SubmitCandidacy(candidate_count) => Weight::SubmitCandidacy(candidate_count),
        Call::RenounceCandidacy(renouncing) => match renouncing {
            Renouncing::Candidate(count) => Weight::RenounceCandidacyCandidate(count),
            Renouncing::Member => Weight::RenounceCandidacyMembers,
            Renouncing::RunnerUp => Weight::RenounceCandidacyRunnersUp,
        },
        // Without a replacement the call goes into an election, for which a full block is assumed.
        Call::RemoveMember(_, has_replacement) => if has_replacement {
            Weight::RemoveMemberWithReplacement
        } else {
            Weight::MaximumBlock
        },
        Call::CleanDefunctVoters(_, _) => Weight::Zero,
    }
}

impl Call {
    /// The weight announced for the call.
    pub fn weight(&self) -> (r: Weight)
        ensures
            r == announced_weight(*self),
    {
        match self {
            Call::Vote(votes, _) => Weight::VoteMore(count_as_u32(votes.len())),
            Call::RemoveVoter => Weight::RemoveVoter,
            Call::SubmitCandidacy(candidate_count) => Weight::SubmitCandidacy(*candidate_count),
            Call::RenounceCandidacy(renouncing) => match renouncing {
                Renouncing::Candidate(count) => Weight::RenounceCandidacyCandidate(*count),
                Renouncing::Member => Weight::RenounceCandidacyMembers,
                Renouncing::RunnerUp => Weight::RenounceCandidacyRunnersUp,
            },
            Call::RemoveMember(_, has_replacement) => if *has_replacement {
                Weight::RemoveMemberWithReplacement
            } else {
                Weight::MaximumBlock
            },
            Call::CleanDefunctVoters(_, _) => Weight::Zero,
        }
    }
}

} // verus!
