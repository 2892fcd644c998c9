//! The election method itself, which comes from the `sp_npos_elections` crate.

use sp_npos_elections::Error as ElectionMethodError;
use vstd::prelude::*;

use crate::arith::smaller;
use crate::types::{AccountId, ExtendedBalance, VoteWeight};

verus! {

/// The error of the election method, which is only carried through.
#[verifier::external_type_specification]
#[verifier::external_body]
pub struct ExElectionMethodError(ElectionMethodError);

/// A voter of an election as contracts see it: the account, the weight and the votes.
pub type Ballot = (AccountId, VoteWeight, Seq<AccountId>);

/// The voters of an election as contracts see them.
pub open spec fn ballots_view(voters: Seq<(AccountId, VoteWeight, Vec<AccountId>)>) -> Seq<
    Ballot,
> {
    voters.map_values(|v: (AccountId, VoteWeight, Vec<AccountId>)| (v.0, v.1, v.2@))
}

/// The winners of sequential Phragmén without balancing rounds, best first, each with its backing;
/// `None` where the method fails.
pub uninterp spec fn phragmen_winners(
    rounds: int,
    candidates: Seq<AccountId>,
    voters: Seq<Ballot>,
) -> Option<Seq<(AccountId, ExtendedBalance)>>;

/// Whether some voter votes for the account with a weight.
pub open spec fn voted_for(voters: Seq<Ballot>, who: AccountId) -> bool {
    exists|v: int|
        0 <= v < voters.len() && (#[trigger] voters[v]).1 > 0 && voters[v].2.contains(who)
}

/// Whether the account is among the winners.
pub open spec fn wins(winners: Seq<(AccountId, ExtendedBalance)>, who: AccountId) -> bool {
    exists|i: int| 0 <= i < winners.len() && (#[trigger] winners[i]).0 == who
}

/// The candidates who win and for whom somebody votes, in the order in which they are listed.
pub open spec fn voted_winning_candidates(
    candidates: Seq<AccountId>,
    voters: Seq<Ballot>,
    winners: Seq<(AccountId, ExtendedBalance)>,
) -> Seq<AccountId> {
    candidates.filter(|c: AccountId| voted_for(voters, c) && wins(winners, c))
}

/// The winners for whom somebody votes, best first.
pub open spec fn voted_winners(
    voters: Seq<Ballot>,
    winners: Seq<(AccountId, ExtendedBalance)>,
) -> Seq<(AccountId, ExtendedBalance)> {
    winners.filter(|w: (AccountId, ExtendedBalance)| voted_for(voters, w.0))
}

/// Whether the winners owe nothing to those who lose or for whom nobody votes: without these the
/// others win as before.
pub open spec fn others_irrelevant(
    rounds: int,
    candidates: Seq<AccountId>,
    voters: Seq<Ballot>,
    winners: Seq<(AccountId, ExtendedBalance)>,
) -> bool {
    candidates.no_duplicates() ==> phragmen_winners(
        rounds,
        voted_winning_candidates(candidates, voters, winners),
        voters,
    ) == Some(voted_winners(voters, winners))
}

/// No account wins twice with a backing.
pub open spec fn backed_once(winners: Seq<(AccountId, ExtendedBalance)>) -> bool {
    forall|i: int, j: int|
        0 <= i < j < winners.len() && (#[trigger] winners[i]).0 == (#[trigger] winners[j]).0
            ==> winners[i].1 == 0 || winners[j].1 == 0
}

/// The votes of a voter that are for candidates, each counted once.
pub open spec fn valid_votes(candidates: Seq<AccountId>, votes: Seq<AccountId>) -> Seq<AccountId>
    decreases votes.len(),
{
    if votes.len() == 0 {
        votes
    } else {
        let before = valid_votes(candidates, votes.drop_last());
        if candidates.contains(votes.last()) && !before.contains(votes.last()) {
            before.push(votes.last())
        } else {
            before
        }
    }
}

/// The voters with their valid votes only.
pub open spec fn valid_ballots(candidates: Seq<AccountId>, voters: Seq<Ballot>) -> Seq<Ballot> {
    voters.map_values(|v: Ballot| (v.0, v.1, valid_votes(candidates, v.2)))
}

/// What holds of the winners of every successful election: there are as many as there are rounds,
/// or all candidates where they are fewer; only candidates win; no account wins twice with a
/// backing; nobody is backed for whom nobody votes; those who lose or for whom nobody votes are
/// irrelevant; and so are votes for others than candidates, and repeated votes.
pub open spec fn sound_winners(
    rounds: int,
    candidates: Seq<AccountId>,
    voters: Seq<Ballot>,
    winners: Seq<(AccountId, ExtendedBalance)>,
) -> bool {
    &&& winners.len() == smaller(rounds, candidates.len() as int)
    &&& forall|i: int| 0 <= i < winners.len() ==> candidates.contains((#[trigger] winners[i]).0)
    &&& backed_once(winners)
    &&& forall|i: int|
        0 <= i < winners.len() && (#[trigger] winners[i]).1 > 0 ==> voted_for(voters, winners[i].0)
    &&& others_irrelevant(rounds, candidates, voters, winners)
    &&& phragmen_winners(rounds, candidates, valid_ballots(candidates, voters)) == Some(winners)
}

/// Sequential Phragmén: `sp_npos_elections::seq_phragmen` with the ratios of assignments in parts
/// per billion, without balancing, reduced to its winners.
///
/// The result depends on the arguments alone and is given the name [`phragmen_winners`]. Beyond
/// that the contract claims that the winners of every successful run are [`sound_winners`]: as many
/// candidates win as there are rounds, or all of them where they are fewer; only candidates win;
/// where the list of candidates repeats an account, at most one of its winning entries is backed;
/// and nobody is backed for whom nobody votes with a weight.
///
/// Where no candidate is repeated, an election among only those winners for whom somebody votes
/// with a weight, listed in the same order, has the same result for them. This is so because the
/// method ranks a candidate by the votes for it and by the load of its voters, because only the
/// election of a candidate with such votes changes a load that counts, and because a candidate
/// without them ranks behind all others. The result is also the same without votes for others than
/// candidates and without repeated votes, since the method drops both before it begins.
///
/// The contract says neither who wins nor when the method fails.
#[verifier::external_body]
pub(crate) fn seq_phragmen(
    rounds: usize,
    candidates: Vec<AccountId>,
    voters: Vec<(AccountId, VoteWeight, Vec<AccountId>)>,
) -> (r: Result<Vec<(AccountId, ExtendedBalance)>, ElectionMethodError>)
    ensures
        match r {
            Ok(winners) => phragmen_winners(rounds as int, candidates@, ballots_view(voters@))
                == Some(winners@),
            Err(_) => phragmen_winners(rounds as int, candidates@, ballots_view(voters@)) is None,
        },
        r matches Ok(winners) ==> sound_winners(
            rounds as int,
            candidates@,
            ballots_view(voters@),
            winners@,
        ),
{
    sp_npos_elections::seq_phragmen::<AccountId, sp_runtime::Perbill>(
        rounds,
        candidates,
        voters,
        None,
    ).map(|result| result.winners)
}

} // verus!
