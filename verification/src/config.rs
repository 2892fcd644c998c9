//! The parameters of the module.

use vstd::prelude::*;

use crate::arith::smaller;
use crate::types::{Balance, BlockNumber, ExtendedBalance, VoteWeight};

verus! {

/// What the surroundings of the module choose.
///
/// Each method returns the value that the specification function beside it names, so that the
/// parameters do not change while an operation runs.
pub trait Trait: Sized {
    /// See [`Trait::candidacy_bond`].
    spec fn candidacy_bond_spec(&self) -> Balance;

    /// See [`Trait::voting_bond_base`].
    spec fn voting_bond_base_spec(&self) -> Balance;

    /// See [`Trait::voting_bond_factor`].
    spec fn voting_bond_factor_spec(&self) -> Balance;

    /// See [`Trait::desired_members`].
    spec fn desired_members_spec(&self) -> u32;

    /// See [`Trait::desired_runners_up`].
    spec fn desired_runners_up_spec(&self) -> u32;

    /// See [`Trait::term_duration`].
    spec fn term_duration_spec(&self) -> BlockNumber;

    /// See [`Trait::module_id`].
    spec fn module_id_spec(&self) -> [u8; 8];

    /// See [`Trait::to_vote`].
    spec fn to_vote_spec(&self, value: Balance, issuance: Balance) -> VoteWeight;

    /// See [`Trait::to_currency`].
    spec fn to_currency_spec(&self, value: ExtendedBalance, issuance: Balance) -> Balance;

    /// How much should be locked up in order to submit one's candidacy.
    fn candidacy_bond(&self) -> (r: Balance)
        ensures
            r == self.candidacy_bond_spec(),
    ;

    /// Base deposit associated with voting. This should be sensibly high to economically ensure
    /// the module cannot be attacked by creating a gigantic number of votes.
    fn voting_bond_base(&self) -> (r: Balance)
        ensures
            r == self.voting_bond_base_spec(),
    ;

    /// The amount of bond that needs to be locked for each vote.
    fn voting_bond_factor(&self) -> (r: Balance)
        ensures
            r == self.voting_bond_factor_spec(),
    ;

    /// Number of members to elect.
    fn desired_members(&self) -> (r: u32)
        ensures
            r == self.desired_members_spec(),
    ;

    /// Number of runners-up to keep.
    fn desired_runners_up(&self) -> (r: u32)
        ensures
            r == self.desired_runners_up_spec(),
    ;

    /// How long each seat is kept. An election happens at every block whose number is a multiple
    /// of it. If it is zero, no elections are ever triggered and the module is passive.
    fn term_duration(&self) -> (r: BlockNumber)
        ensures
            r == self.term_duration_spec(),
    ;

    /// The identifier of the lock that the module puts on the stake of voters.
    fn module_id(&self) -> (r: [u8; 8])
        ensures
            r == self.module_id_spec(),
    ;

    /// The weight of a vote with the given stake, at the given total issuance of the currency.
    /// The conversion may be sensibly lossy.
    fn to_vote(&self, value: Balance, issuance: Balance) -> (r: VoteWeight)
        ensures
            r == self.to_vote_spec(value, issuance),
    ;

    /// The amount of currency that a sum of vote weights stands for, at the given total issuance.
    fn to_currency(&self, value: ExtendedBalance, issuance: Balance) -> (r: Balance)
        ensures
            r == self.to_currency_spec(value, issuance),
    ;
}

/// How amounts of the currency are converted into vote weights and back.
#[derive(Clone, Copy, Debug, PartialEq, Eq)]
pub enum Conversion {
    /// As they are, capped where they do not fit.
    Saturating,
    /// Scaled by the total issuance, so that no amount in circulation exceeds a vote weight.
    Scaled,
}

/// Parameters given as plain values.
#[derive(Clone, Copy, Debug, PartialEq, Eq)]
pub struct Parameters {
    /// See [`Trait::candidacy_bond`].
    pub candidacy_bond: Balance,
    /// See [`Trait::voting_bond_base`].
    pub voting_bond_base: Balance,
    /// See [`Trait::voting_bond_factor`].
    pub voting_bond_factor: Balance,
    /// See [`Trait::desired_members`].
    pub desired_members: u32,
    /// See [`Trait::desired_runners_up`].
    pub desired_runners_up: u32,
    /// See [`Trait::term_duration`].
    pub term_duration: BlockNumber,
    /// See [`Trait::module_id`].
    pub module_id: [u8; 8],
    /// See [`Trait::to_vote`] and [`Trait::to_currency`].
    pub conversion: Conversion,
}

/// How many units of the currency one unit of vote weight stands for.
pub open spec fn vote_scale(conversion: Conversion, issuance: Balance) -> int {
    match conversion {
        Conversion::Saturating => 1,
        Conversion::Scaled => {
            let scale = issuance as int / u64::MAX as int;
            if scale > 1 {
                scale
            } else {
                1
            }
        },
    }
}

/// The scale of vote weights at the given total issuance.
fn scale_of(conversion: Conversion, issuance: Balance) -> (r: Balance)
    ensures
        r == vote_scale(conversion, issuance),
        r >= 1,
{
    match conversion {
        Conversion::Saturating => 1,
        Conversion::Scaled => {
            let scale: Balance = issuance / (u64::MAX as u128);
            if scale > 1 {
                scale
            } else {
                1
            }
        },
    }
}

impl Trait for Parameters {
    open spec fn candidacy_bond_spec(&self) -> Balance {
        self.candidacy_bond
    }

    open spec fn voting_bond_base_spec(&self) -> Balance {
        self.voting_bond_base
    }

    open spec fn voting_bond_factor_spec(&self) -> Balance {
        self.voting_bond_factor
    }

    open spec fn desired_members_spec(&self) -> u32 {
        self.desired_members
    }

    open spec fn desired_runners_up_spec(&self) -> u32 {
        self.desired_runners_up
    }

    open spec fn term_duration_spec(&self) -> BlockNumber {
        self.term_duration
    }

    open spec fn module_id_spec(&self) -> [u8; 8] {
        self.module_id
    }

    open spec fn to_vote_spec(&self, value: Balance, issuance: Balance) -> VoteWeight {
        smaller(value as int / vote_scale(self.conversion, issuance), u64::MAX as int) as u64
    }

    open spec fn to_currency_spec(&self, value: ExtendedBalance, issuance: Balance) -> Balance {
        crate::arith::saturated(value * vote_scale(self.conversion, issuance)) as Balance
    }

    fn candidacy_bond(&self) -> (r: Balance) {
        self.candidacy_bond
    }

    fn voting_bond_base(&self) -> (r: Balance) {
        self.voting_bond_base
    }

    fn voting_bond_factor(&self) -> (r: Balance) {
        self.voting_bond_factor
    }

    fn desired_members(&self) -> (r: u32) {
        self.desired_members
    }

    fn desired_runners_up(&self) -> (r: u32) {
        self.desired_runners_up
    }

    fn term_duration(&self) -> (r: BlockNumber) {
        self.term_duration
    }

    fn module_id(&self) -> (r: [u8; 8]) {
        self.module_id
    }

    fn to_vote(&self, value: Balance, issuance: Balance) -> (r: VoteWeight) {
        let scale: Balance = scale_of(self.conversion, issuance);
        let weight: Balance = value / scale;
        if weight <= u64::MAX as u128 {
            weight as u64
        } else {
            u64::MAX
        }
    }

    fn to_currency(&self, value: ExtendedBalance, issuance: Balance) -> (r: Balance) {
        let scale: Balance = scale_of(self.conversion, issuance);
        crate::arith::saturating_product(value, scale)
    }
}

} // verus!
