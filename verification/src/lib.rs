//! # Phragmén elections
//!
//! The state and the rules of an election module based on sequential Phragmén: accounts vote
//! for candidates and lock stake behind their votes, and every so many blocks the best backed
//! candidates take the seats of members and of runners-up.
//!
//! ### Terms and rounds
//!
//! Elections happen in rounds. At every block whose number is a multiple of
//! [`Trait::term_duration`] all members are retired and a new set is elected, which may overlap
//! with the previous one. A term duration of zero switches the elections off.
//!
//! ### Bonds
//!
//! Both voting and standing for election take a deposit. Deposits are recorded where they are
//! due: with the voter, with the candidate, with the seat holder. They are returned to those who
//! leave in order, and slashed from candidates and seat holders who lose an election and from
//! members who are kicked.
//!
//! ### Who keeps the money
//!
//! This crate holds no balances. What has to happen to the currency, to the body that follows
//! the membership and to the event log is returned as a list of [`Action`]s, to be performed in
//! order. Where the currency decides something, namely whether a bond can be reserved, an
//! operation has two steps: the first says what to reserve, the second takes the answer.

pub mod arith;
pub mod bonds;
pub mod calls;
pub mod candidacy;
pub mod config;
pub mod election;
pub mod genesis;
pub mod ids;
pub mod laws;
pub mod migrations;
pub mod outcome;
pub mod phragmen;
pub mod stability;
pub mod state;
pub mod types;
pub mod voting;

pub use calls::Call;
pub use candidacy::PendingCandidacy;
pub use config::{Conversion, Parameters, Trait};
pub use genesis::GenesisError;
pub use state::Module;
pub use types::{
    AccountId, Action, Balance, BlockNumber, BondChange, DispatchError,
    DispatchErrorWithPostInfo, Error, Event, ExtendedBalance, Origin, RawAction, RawEvent,
    Renouncing, Seat, SeatHolder, SlashHandler, StorageVersion, VoteWeight, Voter, Weight,
    MAXIMUM_VOTE,
};
pub use voting::PendingVote;
