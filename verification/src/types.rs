//! The values that the module stores, receives and hands out.

use vstd::prelude::*;

verus! {

/// An account.
pub type AccountId = u64;

/// An amount of the currency.
pub type Balance = u128;

/// The number of a block.
pub type BlockNumber = u64;

/// The weight of a vote in an election.
pub type VoteWeight = u64;

/// A sum of vote weights.
pub type ExtendedBalance = u128;

/// A seat of the module.
pub type Seat = SeatHolder<AccountId, Balance>;

/// The maximum votes allowed per voter.
pub const MAXIMUM_VOTE: usize = 16;

/// Which role a renouncing account currently has.
#[derive(Clone, Copy, Debug, PartialEq, Eq)]
pub enum Renouncing {
    /// A member is renouncing.
    Member,
    /// A runner-up is renouncing.
    RunnerUp,
    /// A candidate is renouncing, while the given total number of candidates exists.
    Candidate(u32),
}

/// An active voter.
#[derive(Clone, Debug, PartialEq)]
pub struct Voter<AccountId, Balance> {
    /// The candidates being backed.
    pub votes: Vec<AccountId>,
    /// The amount of stake placed on this vote.
    pub stake: Balance,
    /// The amount of deposit reserved for this vote, to be unreserved upon removal.
    pub deposit: Balance,
}

/// A voter as contracts see it.
#[verifier::ext_equal]
pub struct VoterView {
    /// The candidates being backed.
    pub votes: Seq<AccountId>,
    /// The amount of stake placed on this vote.
    pub stake: Balance,
    /// The amount of deposit reserved for this vote.
    pub deposit: Balance,
}

impl View for Voter<AccountId, Balance> {
    type V = VoterView;

    open spec fn view(&self) -> VoterView {
        VoterView { votes: self.votes@, stake: self.stake, deposit: self.deposit }
    }
}

/// The voter that stands for an account without votes: nothing backed, staked or reserved.
pub open spec fn no_voter() -> VoterView {
    VoterView { votes: Seq::empty(), stake: 0, deposit: 0 }
}

impl Default for Voter<AccountId, Balance> {
    fn default() -> (voter: Self)
        ensures
            voter@ == no_voter(),
    {
        Voter { votes: Vec::new(), stake: 0, deposit: 0 }
    }
}

/// A holder of a seat, as either a member or a runner-up.
#[derive(Clone, Copy, Debug, PartialEq)]
pub struct SeatHolder<AccountId, Balance> {
    /// The holder.
    pub who: AccountId,
    /// The total backing stake.
    pub stake: Balance,
    /// The amount of deposit held.
    pub deposit: Balance,
}

impl Default for SeatHolder<AccountId, Balance> {
    fn default() -> (seat: Self)
        ensures
            seat == (SeatHolder::<AccountId, Balance> { who: 0, stake: 0, deposit: 0 }),
    {
        SeatHolder { who: 0, stake: 0, deposit: 0 }
    }
}

/// The version of the storage layout.
#[derive(Clone, Copy, Debug, PartialEq, Eq, Structural)]
pub enum StorageVersion {
    /// Initial version.
    V1,
    /// After moving to per-vote deposit.
    V2RecordedDeposit,
}

/// Where a call comes from.
#[derive(Clone, Copy, Debug, PartialEq, Eq)]
pub enum Origin {
    /// The system itself.
    Root,
    /// The given account, which signed the call.
    Signed(AccountId),
    /// Nobody: the call is not signed.
    Unsigned,
}

/// Why the module refuses a call.
#[derive(Clone, Copy, Debug, PartialEq, Eq)]
pub enum Error {
    /// Cannot vote when no candidates or members exist.
    UnableToVote,
    /// Must vote for at least one candidate.
    NoVotes,
    /// Cannot vote more than candidates.
    TooManyVotes,
    /// Cannot vote more than maximum allowed.
    MaximumVotesExceeded,
    /// Cannot vote with stake less than minimum balance.
    LowBalance,
    /// Voter can not pay voting bond.
    UnableToPayBond,
    /// Must be a voter.
    MustBeVoter,
    /// Cannot report self.
    ReportSelf,
    /// Duplicated candidate submission.
    DuplicatedCandidate,
    /// Member cannot re-submit candidacy.
    MemberSubmit,
    /// Runner cannot re-submit candidacy.
    RunnerUpSubmit,
    /// Candidate does not have enough funds.
    InsufficientCandidateFunds,
    /// Not a member.
    NotMember,
    /// The provided count of number of candidates is incorrect.
    InvalidCandidateCount,
    /// The provided count of number of votes is incorrect.
    InvalidVoteCount,
    /// The renouncing origin presented a wrong `Renouncing` parameter.
    InvalidRenouncing,
    /// Prediction regarding replacement after member removal is wrong.
    InvalidReplacement,
}

/// Why a call fails.
#[derive(Clone, Copy, Debug, PartialEq, Eq)]
pub enum DispatchError {
    /// The call comes from the wrong kind of origin.
    BadOrigin,
    /// The account that the call names cannot be looked up.
    CannotLookup,
    /// The module refuses the call.
    Module(Error),
}

/// Why a call fails, with the weight that it is charged where that differs from the weight
/// announced for the call.
#[derive(Clone, Copy, Debug, PartialEq, Eq)]
pub struct DispatchErrorWithPostInfo {
    /// The weight to charge, if not the announced one.
    pub actual_weight: Option<Weight>,
    /// The error itself.
    pub error: DispatchError,
}

/// A weight, by the figure of the weight table that it stands for.
#[derive(Clone, Copy, Debug, PartialEq, Eq)]
pub enum Weight {
    /// No weight at all.
    Zero,
    /// Placing more votes than before; the number of votes.
    VoteMore(u32),
    /// Placing as many votes as before; the number of votes.
    VoteEqual(u32),
    /// Placing fewer votes than before; the number of votes.
    VoteLess(u32),
    /// Removing a voter.
    RemoveVoter,
    /// Submitting candidacy; the number of candidates.
    SubmitCandidacy(u32),
    /// Renouncing as a candidate; the number of candidates.
    RenounceCandidacyCandidate(u32),
    /// Renouncing as a member.
    RenounceCandidacyMembers,
    /// Renouncing as a runner-up.
    RenounceCandidacyRunnersUp,
    /// Removing a member for whom there is a replacement.
    RemoveMemberWithReplacement,
    /// Removing a member with a wrong prediction of the replacement.
    RemoveMemberWrongRefund,
    /// Running an election; the numbers of candidates, of voters and of votes.
    ElectionPhragmen(u32, u32, u32),
    /// The given number of database reads.
    DbReads(u64),
    /// A full block.
    MaximumBlock,
    /// The greatest weight there is.
    Max,
}

/// What happened, as reported to the outside. `Seats` is a list of accounts with their backing.
#[derive(Clone, Debug, PartialEq)]
pub enum RawEvent<Seats> {
    /// A new term with new members. This indicates that enough candidates existed to run the
    /// election, not that enough have been elected: the inner value must be examined for that.
    /// An empty list says that some candidates got their bond slashed and none were elected,
    /// whilst `EmptyTerm` means that no candidates existed to begin with.
    NewTerm(Seats),
    /// No candidates existed for this round.
    EmptyTerm,
    /// Internal error happened while trying to perform election.
    ElectionError,
    /// A member has been removed.
    MemberKicked(AccountId),
    /// A member has renounced their candidacy.
    MemberRenounced(AccountId),
    /// A candidate was slashed by the amount due to failing to obtain a seat as member or
    /// runner-up. Old members and runners-up are also candidates.
    CandidateSlashed(AccountId, Balance),
    /// A seat holder was slashed by the amount by being forcefully removed from the set.
    SeatHolderSlashed(AccountId, Balance),
}

/// An event of the module.
pub type Event = RawEvent<Vec<(AccountId, Balance)>>;

/// An event as contracts see it.
pub type EventView = RawEvent<Seq<(AccountId, Balance)>>;

impl View for RawEvent<Vec<(AccountId, Balance)>> {
    type V = EventView;

    open spec fn view(&self) -> EventView {
        match *self {
            RawEvent::NewTerm(seats) => RawEvent::NewTerm(seats@),
            RawEvent::EmptyTerm => RawEvent::EmptyTerm,
            RawEvent::ElectionError => RawEvent::ElectionError,
            RawEvent::MemberKicked(who) => RawEvent::MemberKicked(who),
            RawEvent::MemberRenounced(who) => RawEvent::MemberRenounced(who),
            RawEvent::CandidateSlashed(who, amount) => RawEvent::CandidateSlashed(who, amount),
            RawEvent::SeatHolderSlashed(who, amount) => RawEvent::SeatHolderSlashed(who, amount),
        }
    }
}

/// Who receives what has been slashed.
#[derive(Clone, Copy, Debug, PartialEq, Eq)]
pub enum SlashHandler {
    /// The handler for the bonds of candidates who have lost and are not runners-up.
    LoserCandidate,
    /// The handler for the bonds of members who have been kicked.
    KickedMember,
}

/// What the surroundings of the module have to do. `Ids` is a list of accounts, `Seats` a list
/// of accounts with their backing.
#[derive(Clone, Debug, PartialEq)]
pub enum RawAction<Ids, Seats> {
    /// Move the amount from the reserved balance of the account to its free balance.
    Unreserve(AccountId, Balance),
    /// Deduct the amount from the reserved balance of the account, and pass what was deducted to
    /// the handler.
    SlashReserved(AccountId, Balance, SlashHandler),
    /// Set the lock with the given identifier on the account to the amount, for every reason but
    /// the payment of transactions.
    SetLock([u8; 8], AccountId, Balance),
    /// Remove the lock with the given identifier from the account.
    RemoveLock([u8; 8], AccountId),
    /// Report the members that joined, the members that left, and the resulting members, each
    /// sorted. This resets the prime.
    ChangeMembers(Ids, Ids, Ids),
    /// Set the prime.
    SetPrime(Option<AccountId>),
    /// Report the members at genesis.
    InitializeMembers(Ids),
    /// Emit the event.
    DepositEvent(RawEvent<Seats>),
}

/// An action of the module.
pub type Action = RawAction<Vec<AccountId>, Vec<(AccountId, Balance)>>;

/// An action as contracts see it.
pub type ActionView = RawAction<Seq<AccountId>, Seq<(AccountId, Balance)>>;

impl View for RawAction<Vec<AccountId>, Vec<(AccountId, Balance)>> {
    type V = ActionView;

    open spec fn view(&self) -> ActionView {
        match *self {
            RawAction::Unreserve(who, amount) => RawAction::Unreserve(who, amount),
            RawAction::SlashReserved(who, amount, handler) => RawAction::SlashReserved(
                who,
                amount,
                handler,
            ),
            RawAction::SetLock(id, who, amount) => RawAction::SetLock(id, who, amount),
            RawAction::RemoveLock(id, who) => RawAction::RemoveLock(id, who),
            RawAction::ChangeMembers(incoming, outgoing, new) => RawAction::ChangeMembers(
                incoming@,
                outgoing@,
                new@,
            ),
            RawAction::SetPrime(prime) => RawAction::SetPrime(prime),
            RawAction::InitializeMembers(members) => RawAction::InitializeMembers(members@),
            RawAction::DepositEvent(event) => RawAction::DepositEvent(event@),
        }
    }
}

/// A list of actions as contracts see it.
pub open spec fn actions_view(actions: Seq<Action>) -> Seq<ActionView> {
    actions.map_values(|a: Action| a@)
}

/// Adding an action adds it to what contracts see.
pub broadcast proof fn lemma_actions_view_push(actions: Seq<Action>, action: Action)
    ensures
        #[trigger] actions_view(actions.push(action)) == actions_view(actions).push(action@),
{
    assert(actions_view(actions.push(action)) =~= actions_view(actions).push(action@));
}

/// No actions, as contracts see them.
pub broadcast proof fn lemma_actions_view_empty()
    ensures
        #[trigger] actions_view(Seq::empty()) == Seq::<ActionView>::empty(),
{
    assert(actions_view(Seq::empty()) =~= Seq::<ActionView>::empty());
}

/// How lists of actions look to contracts.
pub broadcast group group_actions_view {
    lemma_actions_view_push,
    lemma_actions_view_empty,
}

/// What has to happen to the reserved balance of a voter.
#[derive(Clone, Copy, Debug, PartialEq, Eq)]
pub enum BondChange {
    /// The amount has to be reserved; the vote stands only if that succeeds.
    Reserve(Balance),
    /// Nothing has to happen.
    Keep,
    /// The amount has to be moved back to the free balance.
    Unreserve(Balance),
}

/// The signer of a call; an error for any other origin.
pub fn ensure_signed(origin: Origin) -> (r: Result<AccountId, DispatchError>)
    ensures
        r == match origin {
            Origin::Signed(who) => Ok::<AccountId, DispatchError>(who),
            _ => Err(DispatchError::BadOrigin),
        },
{
    match origin {
        Origin::Signed(who) => Ok(who),
        _ => Err(DispatchError::BadOrigin),
    }
}

/// Accepts calls of the system itself only.
pub fn ensure_root(origin: Origin) -> (r: Result<(), DispatchError>)
    ensures
        r == match origin {
            Origin::Root => Ok::<(), DispatchError>(()),
            _ => Err(DispatchError::BadOrigin),
        },
{
    match origin {
        Origin::Root => Ok(()),
        _ => Err(DispatchError::BadOrigin),
    }
}

} // verus!
