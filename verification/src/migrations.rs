//! Migrations of the storage from the initial version, which records no deposits, to the one that
//! records them.

use vstd::prelude::*;

use crate::config::Trait;
use crate::state::{Module, State};
use crate::types::{AccountId, Balance, Seat, SeatHolder, StorageVersion, Voter, VoterView, Weight};
use crate::voting::with_voter;

verus! {

/// A voter in the initial version of the storage: the account, the stake and the votes.
pub type OldVoter = (AccountId, (Balance, Vec<AccountId>));

/// What becomes of a voter of the initial version.
pub open spec fn migrated_voter(old: OldVoter, deposit: Balance) -> VoterView {
    VoterView { votes: old.1.1@, stake: old.1.0, deposit }
}

/// The voters, with the given ones of the initial version recorded one after the other.
pub open spec fn with_migrated_voters(
    voting: Seq<(AccountId, VoterView)>,
    old: Seq<OldVoter>,
    deposit: Balance,
) -> Seq<(AccountId, VoterView)>
    decreases old.len(),
{
    if old.len() == 0 {
        voting
    } else {
        with_voter(
            with_migrated_voters(voting, old.drop_last(), deposit),
            old.last().0,
            migrated_voter(old.last(), deposit),
        )
    }
}

/// Candidates of the initial version, with a deposit.
pub open spec fn migrated_candidates(old: Seq<AccountId>, deposit: Balance) -> Seq<
    (AccountId, Balance),
> {
    old.map_values(|c: AccountId| (c, deposit))
}

/// Seats of the initial version, with a deposit.
pub open spec fn migrated_seats(old: Seq<(AccountId, Balance)>, deposit: Balance) -> Seq<Seat> {
    old.map_values(|s: (AccountId, Balance)| SeatHolder { who: s.0, stake: s.1, deposit })
}

/// What a list of seats becomes: nothing happens to it where the old one cannot be decoded, and
/// where there was none there will be none.
pub open spec fn seats_after_migration(
    current: Seq<Seat>,
    old: Result<Option<Seq<(AccountId, Balance)>>, ()>,
    deposit: Balance,
) -> Seq<Seat> {
    match old {
        Ok(Some(seats)) => migrated_seats(seats, deposit),
        Ok(None) => Seq::empty(),
        Err(_) => current,
    }
}

/// Old seats as contracts see them.
pub open spec fn old_seats_view(old: Result<Option<Vec<(AccountId, Balance)>>, ()>) -> Result<
    Option<Seq<(AccountId, Balance)>>,
    (),
> {
    match old {
        Ok(Some(seats)) => Ok(Some(seats@)),
        Ok(None) => Ok(None),
        Err(e) => Err(e),
    }
}

/// Migrates from the old legacy voting bond, which was fixed, to the new one, which depends on the
/// number of votes.
///
/// `old_voters` are the voters of the initial version. Does something only if the storage has the
/// initial version, and then sets it to the one with recorded deposits.
pub fn migrate_voters_to_recorded_deposit<T: Trait>(
    module: &mut Module<T>,
    old_voters: Vec<OldVoter>,
    old_deposit: Balance,
) -> (weight: Weight)
    ensures
        final(module).config == old(module).config,
        old(module)@.storage_version == StorageVersion::V1 ==> {
            &&& weight == Weight::Max
            &&& final(module)@ == (State {
                voting: with_migrated_voters(old(module)@.voting, old_voters@, old_deposit),
                storage_version: StorageVersion::V2RecordedDeposit,
                ..old(module)@
            })
        },
        old(module)@.storage_version != StorageVersion::V1 ==> {
            &&& weight == Weight::Zero
            &&& final(module)@ == old(module)@
        },
{
    if module.storage_version != StorageVersion::V1 {
        return Weight::Zero;
    }
    let ghost state = module@;
    let mut i: usize = 0;
    while i < old_voters.len()
        invariant
            i <= old_voters@.len(),
            module.config == old(module).config,
            module@ == (State {
                voting: with_migrated_voters(
                    state.voting,
                    old_voters@.take(i as int),
                    old_deposit,
                ),
                ..state
            }),
        decreases old_voters@.len() - i,
    {
        let (stake, votes) = &old_voters[i].1;
        let voter = Voter {
            votes: crate::ids::copy_ids(votes),
            stake: *stake,
            deposit: old_deposit,
        };
        proof {
            assert(old_voters@.take(i + 1).drop_last() =~= old_voters@.take(i as int));
            assert(old_voters@.take(i + 1).last() == old_voters@[i as int]);
            assert(voter@ =~= migrated_voter(old_voters@[i as int], old_deposit));
        }
        module.insert_voter(old_voters[i].0, voter);
        i += 1;
    }
    assert(old_voters@.take(old_voters@.len() as int) =~= old_voters@);
    module.storage_version = StorageVersion::V2RecordedDeposit;
    Weight::Max
}

/// Migrates all candidates to recorded deposits.
///
/// `old_candidates` are the candidates of the initial version, if there are any. Does something
/// only if the storage has the initial version.
pub fn migrate_candidates_to_recorded_deposit<T: Trait>(
    module: &mut Module<T>,
    old_candidates: Option<Vec<AccountId>>,
    old_deposit: Balance,
) -> (weight: Weight)
    ensures
        final(module).config == old(module).config,
        old(module)@.storage_version == StorageVersion::V1 ==> {
            &&& weight == Weight::Max
            &&& final(module)@ == (State {
                candidates: match old_candidates {
                    Some(candidates) => migrated_candidates(candidates@, old_deposit),
                    None => Seq::empty(),
                },
                ..old(module)@
            })
        },
        old(module)@.storage_version != StorageVersion::V1 ==> {
            &&& weight == Weight::Zero
            &&& final(module)@ == old(module)@
        },
{
    if module.storage_version != StorageVersion::V1 {
        return Weight::Zero;
    }
    let mut new_candidates: Vec<(AccountId, Balance)> = Vec::new();
    match old_candidates {
        Some(candidates) => {
            let mut i: usize = 0;
            while i < candidates.len()
                invariant
                    i <= candidates@.len(),
                    new_candidates@ == migrated_candidates(candidates@, old_deposit).take(i as int),
                decreases candidates@.len() - i,
            {
                new_candidates.push((candidates[i], old_deposit));
                i += 1;
            }
        },
        None => {},
    }
    module.candidates = new_candidates;
    Weight::Max
}

/// Gives seats of the initial version a deposit.
fn record_deposits(old: &Vec<(AccountId, Balance)>, deposit: Balance) -> (r: Vec<Seat>)
    ensures
        r@ == migrated_seats(old@, deposit),
{
    let mut r: Vec<Seat> = Vec::new();
    let mut i: usize = 0;
    while i < old.len()
        invariant
            i <= old@.len(),
            r@ == migrated_seats(old@, deposit).take(i as int),
        decreases old@.len() - i,
    {
        r.push(SeatHolder { who: old[i].0, stake: old[i].1, deposit });
        i += 1;
    }
    r
}

/// Migrates all members to recorded deposits.
///
/// `old_members` are the members of the initial version, if there are any; an error if they cannot
/// be decoded. Does something only if the storage has the initial version.
pub fn migrate_members_to_recorded_deposit<T: Trait>(
    module: &mut Module<T>,
    old_members: Result<Option<Vec<(AccountId, Balance)>>, ()>,
    deposit: Balance,
) -> (weight: Weight)
    ensures
        final(module).config == old(module).config,
        old(module)@.storage_version == StorageVersion::V1 ==> {
            &&& weight == Weight::Max
            &&& final(module)@ == (State {
                members: seats_after_migration(
                    old(module)@.members,
                    old_seats_view(old_members),
                    deposit,
                ),
                ..old(module)@
            })
        },
        old(module)@.storage_version != StorageVersion::V1 ==> {
            &&& weight == Weight::Zero
            &&& final(module)@ == old(module)@
        },
{
    if module.storage_version != StorageVersion::V1 {
        return Weight::Zero;
    }
    match old_members {
        Ok(Some(seats)) => {
            module.members = record_deposits(&seats, deposit);
        },
        Ok(None) => {
            module.members = Vec::new();
        },
        Err(_) => {},
    }
    Weight::Max
}

/// Migrates all runners-up to recorded deposits.
///
/// `old_runners_up` are the runners-up of the initial version, if there are any; an error if they
/// cannot be decoded. Does something only if the storage has the initial version.
pub fn migrate_runners_up_to_recorded_deposit<T: Trait>(
    module: &mut Module<T>,
    old_runners_up: Result<Option<Vec<(AccountId, Balance)>>, ()>,
    deposit: Balance,
) -> (weight: Weight)
    ensures
        final(module).config == old(module).config,
        old(module)@.storage_version == StorageVersion::V1 ==> {
            &&& weight == Weight::Max
            &&& final(module)@ == (State {
                runners_up: seats_after_migration(
                    old(module)@.runners_up,
                    old_seats_view(old_runners_up),
                    deposit,
                ),
                ..old(module)@
            })
        },
        old(module)@.storage_version != StorageVersion::V1 ==> {
            &&& weight == Weight::Zero
            &&& final(module)@ == old(module)@
        },
{
    if module.storage_version != StorageVersion::V1 {
        return Weight::Zero;
    }
    match old_runners_up {
        Ok(Some(seats)) => {
            module.runners_up = record_deposits(&seats, deposit);
        },
        Ok(None) => {
            module.runners_up = Vec::new();
        },
        Err(_) => {},
    }
    Weight::Max
}

} // verus!
