//! The module at work: a small runtime around it, with a ledger, a body that follows the
//! membership, and an event log.

use std::collections::BTreeMap;
use std::fmt::Debug;

use elections_phragmen::{
    AccountId, Action, Balance, BondChange, Conversion, DispatchError, DispatchErrorWithPostInfo,
    Error, Event, GenesisError, Module, Origin, Parameters, PendingVote, RawAction, RawEvent,
    Renouncing, SeatHolder, Voter, Weight,
};

const MODULE_ID: [u8; 8] = *b"phrelect";

/// An account of the ledger.
#[derive(Clone, Debug, Default, PartialEq)]
struct Account {
    free: Balance,
    reserved: Balance,
    locks: Vec<([u8; 8], Balance)>,
}

/// All that the surroundings of the module keep, together with the module.
struct Runtime {
    module: Module<Parameters>,
    accounts: BTreeMap<AccountId, Account>,
    body: Vec<AccountId>,
    prime: Option<AccountId>,
    events: Vec<Event>,
    block: u64,
}

/// What can be compared of a runtime.
#[derive(Debug, PartialEq)]
struct Snapshot {
    members: Vec<SeatHolder<AccountId, Balance>>,
    runners_up: Vec<SeatHolder<AccountId, Balance>>,
    rounds: u32,
    voting: Vec<(AccountId, Voter<AccountId, Balance>)>,
    candidates: Vec<(AccountId, Balance)>,
    accounts: BTreeMap<AccountId, Account>,
    body: Vec<AccountId>,
    prime: Option<AccountId>,
    events: Vec<Event>,
}

impl Runtime {
    // ---- The ledger.

    fn account(&self, who: &AccountId) -> Account {
        self.accounts.get(who).cloned().unwrap_or_default()
    }

    fn minimum_balance(&self) -> Balance {
        1
    }

    fn total_balance(&self, who: &AccountId) -> Balance {
        let account = self.account(who);
        account.free + account.reserved
    }

    fn total_issuance(&self) -> Balance {
        self.accounts.values().map(|a| a.free + a.reserved).sum()
    }

    fn reserve(&mut self, who: AccountId, amount: Balance) -> bool {
        let account = self.accounts.entry(who).or_default();
        let locked = account.locks.iter().map(|l| l.1).max().unwrap_or(0);
        if amount == 0 {
            return true;
        }
        if account.free < amount || account.free - amount < locked {
            return false;
        }
        account.free -= amount;
        account.reserved += amount;
        true
    }

    fn unreserve(&mut self, who: AccountId, amount: Balance) {
        let account = self.accounts.entry(who).or_default();
        // Nothing is ever returned that has not been reserved.
        assert!(account.reserved >= amount);
        account.reserved -= amount;
        account.free += amount;
    }

    fn slash_reserved(&mut self, who: AccountId, amount: Balance) {
        let account = self.accounts.entry(who).or_default();
        let slashed = account.reserved.min(amount);
        account.reserved -= slashed;
    }

    fn set_lock(&mut self, id: [u8; 8], who: AccountId, amount: Balance) {
        self.remove_lock(id, who);
        self.accounts.entry(who).or_default().locks.push((id, amount));
    }

    fn remove_lock(&mut self, id: [u8; 8], who: AccountId) {
        self.accounts.entry(who).or_default().locks.retain(|l| l.0 != id);
    }

    fn locks(&self, who: &AccountId) -> Vec<([u8; 8], Balance)> {
        self.account(who).locks
    }

    // ---- The body that follows the membership.

    fn change_members_sorted(
        &mut self,
        incoming: &[AccountId],
        outgoing: &[AccountId],
        new: &[AccountId],
    ) {
        // new, incoming, outgoing must be sorted.
        let mut new_sorted = new.to_vec();
        new_sorted.sort();
        assert_eq!(new, &new_sorted[..]);

        let mut incoming_sorted = incoming.to_vec();
        incoming_sorted.sort();
        assert_eq!(incoming, &incoming_sorted[..]);

        let mut outgoing_sorted = outgoing.to_vec();
        outgoing_sorted.sort();
        assert_eq!(outgoing, &outgoing_sorted[..]);

        // incoming and outgoing must be disjoint
        for x in incoming.iter() {
            assert!(outgoing.binary_search(x).is_err());
        }

        let mut old_plus_incoming = self.body.clone();
        old_plus_incoming.extend_from_slice(incoming);
        old_plus_incoming.sort();

        let mut new_plus_outgoing = new.to_vec();
        new_plus_outgoing.extend_from_slice(outgoing);
        new_plus_outgoing.sort();

        assert_eq!(old_plus_incoming, new_plus_outgoing, "change members call is incorrect!");

        self.body = new.to_vec();
        self.prime = None;
    }

    // ---- What the module asks for.

    fn perform(&mut self, actions: Vec<Action>) {
        for action in actions {
            match action {
                RawAction::Unreserve(who, amount) => self.unreserve(who, amount),
                RawAction::SlashReserved(who, amount, _) => self.slash_reserved(who, amount),
                RawAction::SetLock(id, who, amount) => self.set_lock(id, who, amount),
                RawAction::RemoveLock(id, who) => self.remove_lock(id, who),
                RawAction::ChangeMembers(incoming, outgoing, new) => {
                    self.change_members_sorted(&incoming, &outgoing, &new)
                }
                RawAction::SetPrime(prime) => self.prime = prime,
                RawAction::InitializeMembers(members) => assert_eq!(members, self.body),
                RawAction::DepositEvent(event) => self.events.push(event),
            }
        }
    }

    fn settle(&mut self, pending: PendingVote) -> Result<Option<Weight>, DispatchError> {
        let who = pending.who;
        let paid = match pending.bond {
            BondChange::Reserve(amount) => self.reserve(who, amount),
            BondChange::Keep => true,
            BondChange::Unreserve(amount) => {
                self.unreserve(who, amount);
                true
            }
        };
        let total_balance = self.total_balance(&who);
        let (refund, actions) = self.module.record_vote(pending, paid, total_balance)?;
        self.perform(actions);
        Ok(refund)
    }

    fn seat(&mut self, member: AccountId, stake: Balance) -> Result<(), GenesisError> {
        let free_balance = self.account(&member).free;
        let bond = self.module.admit_genesis_member(stake, free_balance)?;
        let reserved = self.reserve(member, bond);
        let minimum = self.minimum_balance();
        let pending = self.module.seat_genesis_member(member, stake, reserved, minimum)?;
        self.settle(pending).map_err(GenesisError::CouldNotVote)?;
        Ok(())
    }

    // ---- The calls.

    fn submit_candidacy(&mut self, origin: Origin) -> Result<(), DispatchError> {
        let pending = self.module.submit_candidacy(origin, self.module.candidates.len() as u32)?;
        let reserved = self.reserve(pending.who, pending.deposit);
        self.module.admit_candidate(pending, reserved)
    }

    fn vote(
        &mut self,
        origin: Origin,
        votes: Vec<AccountId>,
        stake: Balance,
    ) -> Result<Option<Weight>, DispatchError> {
        let pending = self.module.vote(origin, votes, stake, self.minimum_balance())?;
        self.settle(pending)
    }

    fn remove_voter(&mut self, origin: Origin) -> Result<(), DispatchError> {
        let actions = self.module.remove_voter(origin)?;
        self.perform(actions);
        Ok(())
    }

    fn renounce_candidacy(
        &mut self,
        origin: Origin,
        renouncing: Renouncing,
    ) -> Result<(), DispatchError> {
        let actions = self.module.renounce_candidacy(origin, renouncing, self.prime)?;
        self.perform(actions);
        Ok(())
    }

    fn remove_member(
        &mut self,
        origin: Origin,
        who: AccountId,
        has_replacement: bool,
    ) -> Result<(), DispatchErrorWithPostInfo> {
        let (election, actions) =
            self.module.remove_member(origin, Some(who), has_replacement, self.prime)?;
        self.perform(actions);
        if election {
            let (_, actions) = self.module.do_phragmen(self.total_issuance());
            self.perform(actions);
        }
        Ok(())
    }

    fn remove_and_replace_member(
        &mut self,
        who: AccountId,
        slash: bool,
    ) -> Result<bool, DispatchError> {
        let (replaced, actions) =
            self.module.remove_and_replace_member(who, slash, self.prime)?;
        self.perform(actions);
        Ok(replaced)
    }

    fn on_initialize(&mut self, n: u64) -> Weight {
        let (weight, actions) = self.module.on_initialize(n, self.total_issuance());
        self.perform(actions);
        weight
    }

    // ---- What tests look at.

    fn set_block_number(&mut self, n: u64) {
        self.block = n;
    }

    fn block_number(&self) -> u64 {
        self.block
    }

    fn members(&self) -> Vec<SeatHolder<AccountId, Balance>> {
        self.module.members.clone()
    }

    fn runners_up(&self) -> Vec<SeatHolder<AccountId, Balance>> {
        self.module.runners_up.clone()
    }

    fn candidates(&self) -> Vec<(AccountId, Balance)> {
        self.module.candidates.clone()
    }

    fn candidates_len(&self) -> Option<usize> {
        if self.module.candidates.is_empty() {
            None
        } else {
            Some(self.module.candidates.len())
        }
    }

    fn members_ids(&self) -> Vec<AccountId> {
        self.module.members_ids()
    }

    fn election_rounds(&self) -> u32 {
        self.module.election_rounds
    }

    fn desired_members(&self) -> u32 {
        self.module.desired_members()
    }

    fn desired_runners_up(&self) -> u32 {
        self.module.desired_runners_up()
    }

    fn term_duration(&self) -> u64 {
        self.module.term_duration()
    }

    fn is_candidate(&self, who: AccountId) -> Result<(), usize> {
        self.module.is_candidate(who)
    }

    fn voting(&self, who: AccountId) -> Voter<AccountId, Balance> {
        self.module.voting(who)
    }

    fn candidate_ids(&self) -> Vec<AccountId> {
        self.module.candidates.iter().map(|c| c.0).collect()
    }

    fn candidate_deposit(&self, who: &AccountId) -> Balance {
        self.module.candidates.iter().find(|c| c.0 == *who).map(|c| c.1).unwrap_or_default()
    }

    fn voter_deposit(&self, who: &AccountId) -> Balance {
        self.module.voting(*who).deposit
    }

    fn runners_up_ids(&self) -> Vec<AccountId> {
        self.module.runners_up.iter().map(|r| r.who).collect()
    }

    fn members_and_stake(&self) -> Vec<(AccountId, Balance)> {
        self.module.members.iter().map(|m| (m.who, m.stake)).collect()
    }

    fn runners_up_and_stake(&self) -> Vec<(AccountId, Balance)> {
        self.module.runners_up.iter().map(|r| (r.who, r.stake)).collect()
    }

    fn all_voters(&self) -> Vec<AccountId> {
        self.module.voting.iter().map(|v| v.0).collect()
    }

    fn balances(&self, who: &AccountId) -> (Balance, Balance) {
        let account = self.account(who);
        (account.free, account.reserved)
    }

    fn has_lock(&self, who: &AccountId) -> Balance {
        let lock = self.locks(who)[0];
        assert_eq!(lock.0, MODULE_ID);
        lock.1
    }

    fn locked_stake_of(&self, who: &AccountId) -> Balance {
        self.module.voting(*who).stake
    }

    fn votes_of(&self, who: &AccountId) -> Vec<AccountId> {
        self.module.voting(*who).votes
    }

    fn snapshot(&self) -> Snapshot {
        Snapshot {
            members: self.module.members.clone(),
            runners_up: self.module.runners_up.clone(),
            rounds: self.module.election_rounds,
            voting: self.module.voting.clone(),
            candidates: self.module.candidates.clone(),
            accounts: self
                .accounts
                .clone()
                .into_iter()
                .filter(|a| a.1 != Account::default())
                .collect(),
            body: self.body.clone(),
            prime: self.prime,
            events: self.events.clone(),
        }
    }

    /// The call fails with the error, and changes nothing.
    fn assert_noop<R: Debug + PartialEq>(
        &mut self,
        call: impl FnOnce(&mut Runtime) -> Result<R, DispatchError>,
        error: Error,
    ) {
        let before = self.snapshot();
        assert_eq!(call(self), Err(DispatchError::Module(error)));
        assert_eq!(self.snapshot(), before);
    }

    // ---- What always holds.

    fn ensure_members_sorted(&self) {
        let mut members = self.members();
        members.sort_by_key(|m| m.who);
        assert_eq!(self.members(), members);
    }

    fn ensure_candidates_sorted(&self) {
        let mut candidates = self.candidates();
        candidates.sort_by_key(|c| c.0);
        assert_eq!(self.candidates(), candidates);
    }

    fn ensure_members_has_approval_stake(&self) {
        // we filter members that have no approval state. This means that even we have more seats
        // than candidates, we will never ever chose a member with no votes.
        assert!(self
            .module
            .members
            .iter()
            .chain(self.module.runners_up.iter())
            .all(|s| s.stake != 0));
    }

    fn ensure_member_candidates_runners_up_disjoint(&self) {
        // members, candidates and runners-up must always be disjoint sets.
        assert!(!intersects(&self.members_ids(), &self.candidate_ids()));
        assert!(!intersects(&self.members_ids(), &self.runners_up_ids()));
        assert!(!intersects(&self.candidate_ids(), &self.runners_up_ids()));
    }

    /// What is recorded of each account as deposited is what is reserved.
    fn ensure_bonds_are_reserved(&self) {
        for (who, account) in self.accounts.iter() {
            let seats = self.module.members.iter().chain(self.module.runners_up.iter());
            let seat: Balance = seats.filter(|s| s.who == *who).map(|s| s.deposit).sum();
            let candidacy = self.candidate_deposit(who);
            assert_eq!(account.reserved, seat + candidacy + self.voter_deposit(who));
        }
    }

    fn pre_conditions(&mut self) {
        self.set_block_number(1);
        self.ensure_members_sorted();
        self.ensure_candidates_sorted();
    }

    fn post_conditions(&self) {
        self.ensure_members_sorted();
        self.ensure_candidates_sorted();
        self.ensure_member_candidates_runners_up_disjoint();
        self.ensure_members_has_approval_stake();
        self.ensure_bonds_are_reserved();
    }
}

fn intersects(a: &[AccountId], b: &[AccountId]) -> bool {
    a.iter().any(|e| b.contains(e))
}

fn assert_ok<R, E: Debug>(result: Result<R, E>) {
    assert!(result.is_ok(), "{:?}", result.err());
}

fn assert_eq_uvec(a: Vec<AccountId>, b: Vec<AccountId>) {
    let mut a = a;
    let mut b = b;
    a.sort();
    b.sort();
    assert_eq!(a, b);
}

/// The figure of the weight table that the runtime has for a weight.
fn figure(weight: Weight) -> u64 {
    match weight {
        Weight::RemoveMemberWrongRefund => 34042000,
        _ => u64::MAX,
    }
}

fn assert_err_with_weight(
    result: Result<(), DispatchErrorWithPostInfo>,
    error: Error,
    weight: Option<u64>,
) {
    let failure = result.unwrap_err();
    assert_eq!(failure.error, DispatchError::Module(error));
    assert_eq!(failure.actual_weight.map(figure), weight);
}

/// How a runtime begins.
struct Genesis {
    parameters: Parameters,
    balance_factor: Balance,
    members: Vec<(AccountId, Balance)>,
}

impl Default for Genesis {
    fn default() -> Self {
        Genesis {
            parameters: Parameters {
                candidacy_bond: 3,
                voting_bond_base: 2,
                voting_bond_factor: 0,
                desired_members: 2,
                desired_runners_up: 0,
                term_duration: 5,
                module_id: MODULE_ID,
                conversion: Conversion::Saturating,
            },
            balance_factor: 1,
            members: vec![],
        }
    }
}

impl Genesis {
    fn voter_bond(mut self, bond: Balance) -> Self {
        self.parameters.voting_bond_base = bond;
        self
    }

    fn voter_bond_factor(mut self, bond: Balance) -> Self {
        self.parameters.voting_bond_factor = bond;
        self
    }

    fn desired_runners_up(mut self, count: u32) -> Self {
        self.parameters.desired_runners_up = count;
        self
    }

    fn term_duration(mut self, duration: u64) -> Self {
        self.parameters.term_duration = duration;
        self
    }

    fn genesis_members(mut self, members: Vec<(AccountId, Balance)>) -> Self {
        self.members = members;
        self
    }

    fn desired_members(mut self, count: u32) -> Self {
        self.parameters.desired_members = count;
        self
    }

    fn balance_factor(mut self, factor: Balance) -> Self {
        self.balance_factor = factor;
        self
    }

    fn run(self, test: impl FnOnce(&mut Runtime)) {
        let mut runtime = Runtime {
            module: Module::genesis(self.parameters),
            accounts: BTreeMap::new(),
            body: self.members.iter().map(|m| m.0).collect(),
            prime: None,
            events: vec![],
            block: 0,
        };
        for who in 1..7 {
            let free = 10 * who as Balance * self.balance_factor;
            runtime.accounts.insert(who, Account { free, reserved: 0, locks: vec![] });
        }
        for (member, stake) in self.members.iter() {
            match runtime.seat(*member, *stake) {
                Ok(()) => {}
                Err(GenesisError::NotEnoughStake) => {
                    panic!("Genesis member does not have enough stake.")
                }
                Err(GenesisError::NotEnoughBalance) => {
                    panic!("Genesis member does not have enough balance to be a candidate")
                }
                Err(GenesisError::DuplicateMember(member)) => {
                    panic!("Duplicate member in elections-phragmen genesis: {}", member)
                }
                Err(GenesisError::CouldNotVote(_)) => panic!("Genesis member could not vote."),
            }
        }
        let actions = runtime.module.report_genesis(&self.members);
        runtime.perform(actions);
        runtime.pre_conditions();
        test(&mut runtime);
        runtime.post_conditions();
    }
}

#[test]
fn params_should_work() {
    Genesis::default().run(|t| {
        assert_eq!(t.desired_members(), 2);
        assert_eq!(t.desired_runners_up(), 0);
        assert_eq!(t.module.config.voting_bond_base, 2);
        assert_eq!(t.module.config.voting_bond_factor, 0);
        assert_eq!(t.module.config.candidacy_bond, 3);
        assert_eq!(t.term_duration(), 5);
        assert_eq!(t.election_rounds(), 0);

        assert!(t.members().is_empty());
        assert!(t.runners_up().is_empty());

        assert!(t.candidate_ids().is_empty());
        assert_eq!(t.candidates_len(), None);
        assert!(t.is_candidate(1).is_err());

        assert!(t.all_voters().is_empty());
        assert!(t.votes_of(&1).is_empty());
    });
}

#[test]
fn genesis_members_should_work() {
    Genesis::default()
        .genesis_members(vec![(1, 10), (2, 20)])
        .run(|t| {
            t.set_block_number(1);
            assert_eq!(
                t.members(),
                vec![
                    SeatHolder {
                        who: 1,
                        stake: 10,
                        deposit: 3,
                    },
                    SeatHolder {
                        who: 2,
                        stake: 20,
                        deposit: 3,
                    }
                ]
            );

            assert_eq!(
                t.voting(1),
                Voter {
                    stake: 10,
                    votes: vec![1],
                    deposit: 2,
                }
            );
            assert_eq!(
                t.voting(2),
                Voter {
                    stake: 20,
                    votes: vec![2],
                    deposit: 2,
                }
            );

            // they will persist since they have self vote.
            t.set_block_number(5);
            t.on_initialize(t.block_number());

            assert_eq!(t.members_ids(), vec![1, 2]);
        })
}

#[test]
fn genesis_members_unsorted_should_work() {
    Genesis::default()
        .genesis_members(vec![(2, 20), (1, 10)])
        .run(|t| {
            t.set_block_number(1);
            assert_eq!(
                t.members(),
                vec![
                    SeatHolder {
                        who: 1,
                        stake: 10,
                        deposit: 3,
                    },
                    SeatHolder {
                        who: 2,
                        stake: 20,
                        deposit: 3,
                    }
                ]
            );

            assert_eq!(
                t.voting(1),
                Voter {
                    stake: 10,
                    votes: vec![1],
                    deposit: 2
                }
            );
            assert_eq!(
                t.voting(2),
                Voter {
                    stake: 20,
                    votes: vec![2],
                    deposit: 2
                }
            );

            // they will persist since they have self vote.
            t.set_block_number(5);
            t.on_initialize(t.block_number());

            assert_eq!(t.members_ids(), vec![1, 2]);
        })
}

#[test]
#[should_panic = "Genesis member does not have enough stake"]
fn genesis_members_cannot_over_stake_0() {
    // 10 cannot lock 20 as their stake and extra genesis will panic.
    Genesis::default()
        .genesis_members(vec![(1, 20), (2, 20)])
        .run(|_| {});
}

#[test]
#[should_panic]
fn genesis_members_cannot_over_stake_1() {
    // 20 cannot reserve 20 as voting bond and extra genesis will panic.
    Genesis::default()
        .voter_bond(20)
        .genesis_members(vec![(1, 10), (2, 20)])
        .run(|_| {});
}

#[test]
#[should_panic = "Duplicate member in elections-phragmen genesis: 2"]
fn genesis_members_cannot_be_duplicate() {
    Genesis::default()
        .genesis_members(vec![(1, 10), (2, 10), (2, 12)])
        .run(|_| {});
}

#[test]
fn term_duration_zero_is_passive() {
    Genesis::default()
        .term_duration(0)
        .run(|t| {
        assert_eq!(t.term_duration(), 0);
        assert_eq!(t.desired_members(), 2);
        assert_eq!(t.election_rounds(), 0);

        assert!(t.members_ids().is_empty());
        assert!(t.runners_up().is_empty());
        assert!(t.candidate_ids().is_empty());

        t.set_block_number(5);
        t.on_initialize(t.block_number());

        assert!(t.members_ids().is_empty());
        assert!(t.runners_up().is_empty());
        assert!(t.candidate_ids().is_empty());
    });
}

#[test]
fn simple_candidate_submission_should_work() {
    Genesis::default().run(|t| {
        assert_eq!(t.candidate_ids(), Vec::<u64>::new());
        assert!(t.is_candidate(1).is_err());
        assert!(t.is_candidate(2).is_err());

        assert_eq!(t.balances(&1), (10, 0));
        assert_ok(t.submit_candidacy(Origin::Signed(1)));
        assert_eq!(t.balances(&1), (7, 3));

        assert_eq!(t.candidate_ids(), vec![1]);

        assert!(t.is_candidate(1).is_ok());
        assert!(t.is_candidate(2).is_err());

        assert_eq!(t.balances(&2), (20, 0));
        assert_ok(t.submit_candidacy(Origin::Signed(2)));
        assert_eq!(t.balances(&2), (17, 3));

        assert_eq!(t.candidate_ids(), vec![1, 2]);

        assert!(t.is_candidate(1).is_ok());
        assert!(t.is_candidate(2).is_ok());

        assert_eq!(t.candidate_deposit(&1), 3);
        assert_eq!(t.candidate_deposit(&2), 3);
        assert_eq!(t.candidate_deposit(&3), 0);
    });
}

#[test]
fn updating_candidacy_bond_works() {
    Genesis::default().run(|t| {
        assert_ok(t.submit_candidacy(Origin::Signed(5)));
        assert_ok(t.vote(Origin::Signed(5), vec![5], 50));
        assert_eq!(t.candidates(), vec![(5, 3)]);

        // a runtime upgrade changes the bond.
        t.module.config.candidacy_bond = 4;

        assert_ok(t.submit_candidacy(Origin::Signed(4)));
        assert_ok(t.vote(Origin::Signed(4), vec![4], 40));
        assert_eq!(t.candidates(), vec![(4, 4), (5, 3)]);

        // once elected, they each hold their candidacy bond, no more.
        t.set_block_number(5);
        t.on_initialize(t.block_number());

        assert_eq!(
            t.members(),
            vec![
                SeatHolder {
                    who: 4,
                    stake: 40,
                    deposit: 4
                },
                SeatHolder {
                    who: 5,
                    stake: 50,
                    deposit: 3
                }
            ]
        );
    })
}

#[test]
fn simple_candidate_submission_with_no_votes_should_work() {
    Genesis::default().run(|t| {
        assert_eq!(t.candidate_ids(), Vec::<u64>::new());

        assert_ok(t.submit_candidacy(Origin::Signed(1)));
        assert_ok(t.submit_candidacy(Origin::Signed(2)));

        assert!(t.is_candidate(1).is_ok());
        assert!(t.is_candidate(2).is_ok());
        assert_eq!(t.candidate_ids(), vec![1, 2]);

        assert!(t.members_ids().is_empty());
        assert!(t.runners_up().is_empty());

        t.set_block_number(5);
        t.on_initialize(t.block_number());

        assert!(t.is_candidate(1).is_err());
        assert!(t.is_candidate(2).is_err());
        assert!(t.candidate_ids().is_empty());

        assert!(t.members_ids().is_empty());
        assert!(t.runners_up().is_empty());
    });
}

#[test]
fn dupe_candidate_submission_should_not_work() {
    Genesis::default().run(|t| {
        assert_eq!(t.candidate_ids(), Vec::<u64>::new());
        assert_ok(t.submit_candidacy(Origin::Signed(1)));
        assert_eq!(t.candidate_ids(), vec![1]);
        t.assert_noop(|t| t.submit_candidacy(Origin::Signed(1)), Error::DuplicatedCandidate);
    });
}

#[test]
fn member_candidacy_submission_should_not_work() {
    // critically important to make sure that outgoing candidates and losers are not mixed up.
    Genesis::default().run(|t| {
        assert_ok(t.submit_candidacy(Origin::Signed(5)));
        assert_ok(t.vote(Origin::Signed(2), vec![5], 20));

        t.set_block_number(5);
        t.on_initialize(t.block_number());

        assert_eq!(t.members_ids(), vec![5]);
        assert!(t.runners_up().is_empty());
        assert!(t.candidate_ids().is_empty());

        t.assert_noop(|t| t.submit_candidacy(Origin::Signed(5)), Error::MemberSubmit);
    });
}

#[test]
fn runner_candidate_submission_should_not_work() {
    Genesis::default().desired_runners_up(2).run(|t| {
        assert_ok(t.submit_candidacy(Origin::Signed(5)));
        assert_ok(t.submit_candidacy(Origin::Signed(4)));
        assert_ok(t.submit_candidacy(Origin::Signed(3)));

        assert_ok(t.vote(Origin::Signed(2), vec![5, 4], 20));
        assert_ok(t.vote(Origin::Signed(1), vec![3], 10));

        t.set_block_number(5);
        t.on_initialize(t.block_number());

        assert_eq!(t.members_ids(), vec![4, 5]);
        assert_eq!(t.runners_up_ids(), vec![3]);

        t.assert_noop(|t| t.submit_candidacy(Origin::Signed(3)), Error::RunnerUpSubmit);
    });
}

#[test]
fn poor_candidate_submission_should_not_work() {
    Genesis::default().run(|t| {
        assert_eq!(t.candidate_ids(), Vec::<u64>::new());
        t.assert_noop(|t| t.submit_candidacy(Origin::Signed(7)), Error::InsufficientCandidateFunds);
    });
}

#[test]
fn simple_voting_should_work() {
    Genesis::default().run(|t| {
        assert_eq!(t.candidate_ids(), Vec::<u64>::new());
        assert_eq!(t.balances(&2), (20, 0));

        assert_ok(t.submit_candidacy(Origin::Signed(5)));
        assert_ok(t.vote(Origin::Signed(2), vec![5], 20));

        assert_eq!(t.balances(&2), (18, 2));
        assert_eq!(t.has_lock(&2), 20);
    });
}

#[test]
fn can_vote_with_custom_stake() {
    Genesis::default().run(|t| {
        assert_eq!(t.candidate_ids(), Vec::<u64>::new());
        assert_eq!(t.balances(&2), (20, 0));

        assert_ok(t.submit_candidacy(Origin::Signed(5)));
        assert_ok(t.vote(Origin::Signed(2), vec![5], 12));

        assert_eq!(t.balances(&2), (18, 2));
        assert_eq!(t.has_lock(&2), 12);
    });
}

#[test]
fn can_update_votes_and_stake() {
    Genesis::default().run(|t| {
        assert_eq!(t.balances(&2), (20, 0));

        assert_ok(t.submit_candidacy(Origin::Signed(5)));
        assert_ok(t.submit_candidacy(Origin::Signed(4)));
        assert_ok(t.vote(Origin::Signed(2), vec![5], 20));

        assert_eq!(t.balances(&2), (18, 2));
        assert_eq!(t.has_lock(&2), 20);
        assert_eq!(t.locked_stake_of(&2), 20);

        // can update; different stake; different lock and reserve.
        assert_ok(t.vote(Origin::Signed(2), vec![5, 4], 15));
        assert_eq!(t.balances(&2), (18, 2));
        assert_eq!(t.has_lock(&2), 15);
        assert_eq!(t.locked_stake_of(&2), 15);
    });
}

#[test]
fn updated_voting_bond_works() {
    Genesis::default().run(|t| {
        assert_ok(t.submit_candidacy(Origin::Signed(5)));

        assert_eq!(t.balances(&2), (20, 0));
        assert_ok(t.vote(Origin::Signed(2), vec![5], 5));
        assert_eq!(t.balances(&2), (18, 2));
        assert_eq!(t.voter_deposit(&2), 2);

        // a runtime upgrade lowers the voting bond to 1. This guy still un-reserves 2 when
        // leaving.
        t.module.config.voting_bond_base = 1;

        // proof that bond changed.
        assert_eq!(t.balances(&1), (10, 0));
        assert_ok(t.vote(Origin::Signed(1), vec![5], 5));
        assert_eq!(t.balances(&1), (9, 1));
        assert_eq!(t.voter_deposit(&1), 1);

        assert_ok(t.remove_voter(Origin::Signed(2)));
        assert_eq!(t.balances(&2), (20, 0));
    })
}

#[test]
fn voting_reserves_bond_per_vote() {
    Genesis::default().voter_bond_factor(1).run(|t| {
        assert_eq!(t.balances(&2), (20, 0));

        assert_ok(t.submit_candidacy(Origin::Signed(5)));
        assert_ok(t.submit_candidacy(Origin::Signed(4)));

        // initial vote.
        assert_ok(t.vote(Origin::Signed(2), vec![5], 10));

        // 2 + 1
        assert_eq!(t.balances(&2), (17, 3));
        assert_eq!(t.voting(2).deposit, 3);
        assert_eq!(t.has_lock(&2), 10);
        assert_eq!(t.locked_stake_of(&2), 10);

        // can update; different stake; different lock and reserve.
        assert_ok(t.vote(Origin::Signed(2), vec![5, 4], 15));
        // 2 + 2
        assert_eq!(t.balances(&2), (16, 4));
        assert_eq!(t.voting(2).deposit, 4);
        assert_eq!(t.has_lock(&2), 15);
        assert_eq!(t.locked_stake_of(&2), 15);

        // stay at two votes with different stake.
        assert_ok(t.vote(Origin::Signed(2), vec![5, 3], 18));
        // 2 + 2
        assert_eq!(t.balances(&2), (16, 4));
        assert_eq!(t.voting(2).deposit, 4);
        assert_eq!(t.has_lock(&2), 18);
        assert_eq!(t.locked_stake_of(&2), 18);

        // back to 1 vote.
        assert_ok(t.vote(Origin::Signed(2), vec![4], 12));
        // 2 + 1
        assert_eq!(t.balances(&2), (17, 3));
        assert_eq!(t.voting(2).deposit, 3);
        assert_eq!(t.has_lock(&2), 12);
        assert_eq!(t.locked_stake_of(&2), 12);
    });
}

#[test]
fn cannot_vote_for_no_candidate() {
    Genesis::default().run(|t| {
        t.assert_noop(|t| t.vote(Origin::Signed(2), vec![], 20), Error::NoVotes);
    });
}

#[test]
fn can_vote_for_old_members_even_when_no_new_candidates() {
    Genesis::default().run(|t| {
        assert_ok(t.submit_candidacy(Origin::Signed(5)));
        assert_ok(t.submit_candidacy(Origin::Signed(4)));

        assert_ok(t.vote(Origin::Signed(2), vec![4, 5], 20));

        t.set_block_number(5);
        t.on_initialize(t.block_number());

        assert_eq!(t.members_ids(), vec![4, 5]);
        assert!(t.candidate_ids().is_empty());

        assert_ok(t.vote(Origin::Signed(3), vec![4, 5], 10));
    });
}

#[test]
fn prime_works() {
    Genesis::default().run(|t| {
        assert_ok(t.submit_candidacy(Origin::Signed(3)));
        assert_ok(t.submit_candidacy(Origin::Signed(4)));
        assert_ok(t.submit_candidacy(Origin::Signed(5)));

        assert_ok(t.vote(Origin::Signed(1), vec![4, 3], 10));
        assert_ok(t.vote(Origin::Signed(2), vec![4], 20));
        assert_ok(t.vote(Origin::Signed(3), vec![3], 30));
        assert_ok(t.vote(Origin::Signed(4), vec![4], 40));
        assert_ok(t.vote(Origin::Signed(5), vec![5], 50));

        t.set_block_number(5);
        t.on_initialize(t.block_number());

        assert_eq!(t.members_ids(), vec![4, 5]);
        assert!(t.candidate_ids().is_empty());

        assert_ok(t.vote(Origin::Signed(3), vec![4, 5], 10));
        assert_eq!(t.prime, Some(4));
    });
}

#[test]
fn prime_votes_for_exiting_members_are_removed() {
    Genesis::default().run(|t| {
        assert_ok(t.submit_candidacy(Origin::Signed(3)));
        assert_ok(t.submit_candidacy(Origin::Signed(4)));
        assert_ok(t.submit_candidacy(Origin::Signed(5)));

        assert_ok(t.vote(Origin::Signed(1), vec![4, 3], 10));
        assert_ok(t.vote(Origin::Signed(2), vec![4], 20));
        assert_ok(t.vote(Origin::Signed(3), vec![3], 30));
        assert_ok(t.vote(Origin::Signed(4), vec![4], 40));
        assert_ok(t.vote(Origin::Signed(5), vec![5], 50));

        assert_ok(t.renounce_candidacy(Origin::Signed(4), Renouncing::Candidate(3)));

        t.set_block_number(5);
        t.on_initialize(t.block_number());

        assert_eq!(t.members_ids(), vec![3, 5]);
        assert!(t.candidate_ids().is_empty());

        assert_eq!(t.prime, Some(5));
    });
}

#[test]
fn prime_is_kept_if_other_members_leave() {
    Genesis::default().run(|t| {
        assert_ok(t.submit_candidacy(Origin::Signed(4)));
        assert_ok(t.submit_candidacy(Origin::Signed(5)));

        assert_ok(t.vote(Origin::Signed(4), vec![4], 40));
        assert_ok(t.vote(Origin::Signed(5), vec![5], 50));

        t.set_block_number(5);
        t.on_initialize(t.block_number());

        assert_eq!(t.members_ids(), vec![4, 5]);
        assert_eq!(t.prime, Some(5));
        assert_ok(t.renounce_candidacy(
            Origin::Signed(4),
            Renouncing::Member
        ));

        assert_eq!(t.members_ids(), vec![5]);
        assert_eq!(t.prime, Some(5));
    })
}

#[test]
fn prime_is_gone_if_renouncing() {
    Genesis::default().run(|t| {
        assert_ok(t.submit_candidacy(Origin::Signed(4)));
        assert_ok(t.submit_candidacy(Origin::Signed(5)));

        assert_ok(t.vote(Origin::Signed(4), vec![4], 40));
        assert_ok(t.vote(Origin::Signed(5), vec![5], 50));

        t.set_block_number(5);
        t.on_initialize(t.block_number());

        assert_eq!(t.members_ids(), vec![4, 5]);
        assert_eq!(t.prime, Some(5));
        assert_ok(t.renounce_candidacy(Origin::Signed(5), Renouncing::Member));

        assert_eq!(t.members_ids(), vec![4]);
        assert_eq!(t.prime, None);
    })
}

#[test]
fn cannot_vote_for_more_than_candidates_and_members_and_runners() {
    Genesis::default()
        .desired_runners_up(1)
        .balance_factor(10)
        .run(|t| {
        // when we have only candidates
        assert_ok(t.submit_candidacy(Origin::Signed(5)));
        assert_ok(t.submit_candidacy(Origin::Signed(4)));
        assert_ok(t.submit_candidacy(Origin::Signed(3)));

        // content of the vote is irrelevant.
        t.assert_noop(
            |t| t.vote(Origin::Signed(1), vec![9, 99, 999, 9999], 5),
            Error::TooManyVotes,
        );

        assert_ok(t.vote(Origin::Signed(3), vec![3], 30));
        assert_ok(t.vote(Origin::Signed(4), vec![4], 40));
        assert_ok(t.vote(Origin::Signed(5), vec![5], 50));

        t.set_block_number(5);
        t.on_initialize(t.block_number());

        // now we have 2 members, 1 runner-up, and 1 new candidate
        assert_ok(t.submit_candidacy(Origin::Signed(2)));

        assert_ok(t.vote(Origin::Signed(1), vec![9, 99, 999, 9999], 5));
        t.assert_noop(
            |t| t.vote(Origin::Signed(1), vec![9, 99, 999, 9_999, 99_999], 5),
            Error::TooManyVotes,
        );
    });
}

#[test]
fn cannot_vote_for_less_than_ed() {
    Genesis::default().run(|t| {
        assert_ok(t.submit_candidacy(Origin::Signed(5)));
        assert_ok(t.submit_candidacy(Origin::Signed(4)));

        t.assert_noop(|t| t.vote(Origin::Signed(2), vec![4], 1), Error::LowBalance);
    })
}

#[test]
fn can_vote_for_more_than_total_balance_but_moot() {
    Genesis::default().run(|t| {
        assert_ok(t.submit_candidacy(Origin::Signed(5)));
        assert_ok(t.submit_candidacy(Origin::Signed(4)));

        assert_ok(t.vote(Origin::Signed(2), vec![4, 5], 30));
        // you can lie but won't get away with it.
        assert_eq!(t.locked_stake_of(&2), 20);
        assert_eq!(t.has_lock(&2), 20);
    });
}

#[test]
fn remove_voter_should_work() {
    Genesis::default().voter_bond(8).run(|t| {
        assert_ok(t.submit_candidacy(Origin::Signed(5)));

        assert_ok(t.vote(Origin::Signed(2), vec![5], 20));
        assert_ok(t.vote(Origin::Signed(3), vec![5], 30));

        assert_eq_uvec(t.all_voters(), vec![2, 3]);
        assert_eq!(t.locked_stake_of(&2), 20);
        assert_eq!(t.locked_stake_of(&3), 30);
        assert_eq!(t.votes_of(&2), vec![5]);
        assert_eq!(t.votes_of(&3), vec![5]);

        assert_ok(t.remove_voter(Origin::Signed(2)));

        assert_eq_uvec(t.all_voters(), vec![3]);
        assert!(t.votes_of(&2).is_empty());
        assert_eq!(t.locked_stake_of(&2), 0);

        assert_eq!(t.balances(&2), (20, 0));
        assert_eq!(t.locks(&2).len(), 0);
    });
}

#[test]
fn non_voter_remove_should_not_work() {
    Genesis::default().run(|t| {
        t.assert_noop(|t| t.remove_voter(Origin::Signed(3)), Error::MustBeVoter);
    });
}

#[test]
fn dupe_remove_should_fail() {
    Genesis::default().run(|t| {
        assert_ok(t.submit_candidacy(Origin::Signed(5)));
        assert_ok(t.vote(Origin::Signed(2), vec![5], 20));

        assert_ok(t.remove_voter(Origin::Signed(2)));
        assert!(t.all_voters().is_empty());

        t.assert_noop(|t| t.remove_voter(Origin::Signed(2)), Error::MustBeVoter);
    });
}

#[test]
fn removed_voter_should_not_be_counted() {
    Genesis::default().run(|t| {
        assert_ok(t.submit_candidacy(Origin::Signed(5)));
        assert_ok(t.submit_candidacy(Origin::Signed(4)));
        assert_ok(t.submit_candidacy(Origin::Signed(3)));

        assert_ok(t.vote(Origin::Signed(5), vec![5], 50));
        assert_ok(t.vote(Origin::Signed(4), vec![4], 40));
        assert_ok(t.vote(Origin::Signed(3), vec![3], 30));

        assert_ok(t.remove_voter(Origin::Signed(4)));

        t.set_block_number(5);
        t.on_initialize(t.block_number());

        assert_eq!(t.members_ids(), vec![3, 5]);
    });
}

#[test]
fn simple_voting_rounds_should_work() {
    Genesis::default().run(|t| {
        assert_ok(t.submit_candidacy(Origin::Signed(5)));
        assert_ok(t.submit_candidacy(Origin::Signed(4)));
        assert_ok(t.submit_candidacy(Origin::Signed(3)));

        assert_ok(t.vote(Origin::Signed(2), vec![5], 20));
        assert_ok(t.vote(Origin::Signed(4), vec![4], 15));
        assert_ok(t.vote(Origin::Signed(3), vec![3], 30));

        assert_eq_uvec(t.all_voters(), vec![2, 3, 4]);

        assert_eq!(t.votes_of(&2), vec![5]);
        assert_eq!(t.votes_of(&3), vec![3]);
        assert_eq!(t.votes_of(&4), vec![4]);

        assert_eq!(t.candidate_ids(), vec![3, 4, 5]);
        assert_eq!(t.candidates_len().unwrap(), 3);

        assert_eq!(t.election_rounds(), 0);

        t.set_block_number(5);
        t.on_initialize(t.block_number());

        assert_eq!(t.members_and_stake(), vec![(3, 30), (5, 20)]);
        assert!(t.runners_up().is_empty());

        assert_eq_uvec(t.all_voters(), vec![2, 3, 4]);
        assert!(t.candidate_ids().is_empty());
        assert_eq!(t.candidates_len(), None);

        assert_eq!(t.election_rounds(), 1);
    });
}

#[test]
fn empty_term() {
    Genesis::default().run(|t| {
        // no candidates, no nothing.
        t.set_block_number(5);
        t.on_initialize(t.block_number());

        assert_eq!(
            *t.events.last().unwrap(),
            RawEvent::EmptyTerm,
        )
    })
}

#[test]
fn all_outgoing() {
    Genesis::default().run(|t| {
        assert_ok(t.submit_candidacy(Origin::Signed(5)));
        assert_ok(t.submit_candidacy(Origin::Signed(4)));

        assert_ok(t.vote(Origin::Signed(5), vec![5], 50));
        assert_ok(t.vote(Origin::Signed(4), vec![4], 40));

        t.set_block_number(5);
        t.on_initialize(t.block_number());

        assert_eq!(
            *t.events.last().unwrap(),
            RawEvent::NewTerm(vec![(4, 40), (5, 50)]),
        );

        assert_eq!(t.members_and_stake(), vec![(4, 40), (5, 50)]);
        assert_eq!(t.runners_up_and_stake(), vec![]);

        assert_ok(t.remove_voter(Origin::Signed(5)));
        assert_ok(t.remove_voter(Origin::Signed(4)));

        t.set_block_number(10);
        t.on_initialize(t.block_number());

        assert_eq!(
            *t.events.last().unwrap(),
            RawEvent::NewTerm(vec![]),
        );

        // outgoing have lost their bond.
        assert_eq!(t.balances(&4), (37, 0));
        assert_eq!(t.balances(&5), (47, 0));
    });
}

#[test]
fn defunct_voter_will_be_counted() {
    Genesis::default().run(|t| {
        assert_ok(t.submit_candidacy(Origin::Signed(5)));

        // This guy's vote is pointless for this round.
        assert_ok(t.vote(Origin::Signed(3), vec![4], 30));
        assert_ok(t.vote(Origin::Signed(5), vec![5], 50));

        t.set_block_number(5);
        t.on_initialize(t.block_number());

        assert_eq!(t.members_and_stake(), vec![(5, 50)]);
        assert_eq!(t.election_rounds(), 1);

        // but now it has a valid target.
        assert_ok(t.submit_candidacy(Origin::Signed(4)));

        t.set_block_number(10);
        t.on_initialize(t.block_number());

        // candidate 4 is affected by an old vote.
        assert_eq!(t.members_and_stake(), vec![(4, 30), (5, 50)]);
        assert_eq!(t.election_rounds(), 2);
        assert_eq_uvec(t.all_voters(), vec![3, 5]);
    });
}

#[test]
fn only_desired_seats_are_chosen() {
    Genesis::default().run(|t| {
        assert_ok(t.submit_candidacy(Origin::Signed(5)));
        assert_ok(t.submit_candidacy(Origin::Signed(4)));
        assert_ok(t.submit_candidacy(Origin::Signed(3)));
        assert_ok(t.submit_candidacy(Origin::Signed(2)));

        assert_ok(t.vote(Origin::Signed(2), vec![2], 20));
        assert_ok(t.vote(Origin::Signed(3), vec![3], 30));
        assert_ok(t.vote(Origin::Signed(4), vec![4], 40));
        assert_ok(t.vote(Origin::Signed(5), vec![5], 50));

        t.set_block_number(5);
        t.on_initialize(t.block_number());

        assert_eq!(t.election_rounds(), 1);
        assert_eq!(t.members_ids(), vec![4, 5]);
    });
}

#[test]
fn phragmen_should_not_self_vote() {
    Genesis::default().run(|t| {
        assert_ok(t.submit_candidacy(Origin::Signed(5)));
        assert_ok(t.submit_candidacy(Origin::Signed(4)));

        t.set_block_number(5);
        t.on_initialize(t.block_number());

        assert!(t.candidate_ids().is_empty());
        assert_eq!(t.election_rounds(), 1);
        assert!(t.members_ids().is_empty());

        assert_eq!(
            *t.events.last().unwrap(),
            RawEvent::NewTerm(vec![]),
        )
    });
}

#[test]
fn runners_up_should_be_kept() {
    Genesis::default().desired_runners_up(2).run(|t| {
        assert_ok(t.submit_candidacy(Origin::Signed(5)));
        assert_ok(t.submit_candidacy(Origin::Signed(4)));
        assert_ok(t.submit_candidacy(Origin::Signed(3)));
        assert_ok(t.submit_candidacy(Origin::Signed(2)));

        assert_ok(t.vote(Origin::Signed(2), vec![3], 20));
        assert_ok(t.vote(Origin::Signed(3), vec![2], 30));
        assert_ok(t.vote(Origin::Signed(4), vec![5], 40));
        assert_ok(t.vote(Origin::Signed(5), vec![4], 50));

        t.set_block_number(5);
        t.on_initialize(t.block_number());
        // sorted based on account id.
        assert_eq!(t.members_ids(), vec![4, 5]);
        // sorted based on merit (least -> most)
        assert_eq!(t.runners_up_ids(), vec![3, 2]);

        // runner ups are still locked.
        assert_eq!(t.balances(&4), (35, 5));
        assert_eq!(t.balances(&5), (45, 5));
        assert_eq!(t.balances(&3), (25, 5));
    });
}

#[test]
fn runners_up_should_be_next_candidates() {
    Genesis::default().desired_runners_up(2).run(|t| {
        assert_ok(t.submit_candidacy(Origin::Signed(5)));
        assert_ok(t.submit_candidacy(Origin::Signed(4)));
        assert_ok(t.submit_candidacy(Origin::Signed(3)));
        assert_ok(t.submit_candidacy(Origin::Signed(2)));

        assert_ok(t.vote(Origin::Signed(2), vec![2], 20));
        assert_ok(t.vote(Origin::Signed(3), vec![3], 30));
        assert_ok(t.vote(Origin::Signed(4), vec![4], 40));
        assert_ok(t.vote(Origin::Signed(5), vec![5], 50));

        t.set_block_number(5);
        t.on_initialize(t.block_number());
        assert_eq!(t.members_and_stake(), vec![(4, 40), (5, 50)]);
        assert_eq!(t.runners_up_and_stake(), vec![(2, 20), (3, 30)]);

        assert_ok(t.vote(Origin::Signed(5), vec![5], 15));

        t.set_block_number(10);
        t.on_initialize(t.block_number());
        assert_eq!(t.members_and_stake(), vec![(3, 30), (4, 40)]);
        assert_eq!(t.runners_up_and_stake(), vec![(5, 15), (2, 20)]);
    });
}

#[test]
fn runners_up_lose_bond_once_outgoing() {
    Genesis::default().desired_runners_up(1).run(|t| {
        assert_ok(t.submit_candidacy(Origin::Signed(5)));
        assert_ok(t.submit_candidacy(Origin::Signed(4)));
        assert_ok(t.submit_candidacy(Origin::Signed(2)));

        assert_ok(t.vote(Origin::Signed(2), vec![2], 20));
        assert_ok(t.vote(Origin::Signed(4), vec![4], 40));
        assert_ok(t.vote(Origin::Signed(5), vec![5], 50));

        t.set_block_number(5);
        t.on_initialize(t.block_number());
        assert_eq!(t.members_ids(), vec![4, 5]);
        assert_eq!(t.runners_up_ids(), vec![2]);
        assert_eq!(t.balances(&2), (15, 5));

        assert_ok(t.submit_candidacy(Origin::Signed(3)));
        assert_ok(t.vote(Origin::Signed(3), vec![3], 30));

        t.set_block_number(10);
        t.on_initialize(t.block_number());

        assert_eq!(t.runners_up_ids(), vec![3]);
        assert_eq!(t.balances(&2), (15, 2));
    });
}

#[test]
fn members_lose_bond_once_outgoing() {
    Genesis::default().run(|t| {
        assert_eq!(t.balances(&5), (50, 0));

        assert_ok(t.submit_candidacy(Origin::Signed(5)));
        assert_eq!(t.balances(&5), (47, 3));

        assert_ok(t.vote(Origin::Signed(5), vec![5], 50));
        assert_eq!(t.balances(&5), (45, 5));

        t.set_block_number(5);
        t.on_initialize(t.block_number());
        assert_eq!(t.members_ids(), vec![5]);

        assert_ok(t.remove_voter(Origin::Signed(5)));
        assert_eq!(t.balances(&5), (47, 3));

        t.set_block_number(10);
        t.on_initialize(t.block_number());
        assert!(t.members_ids().is_empty());

        assert_eq!(t.balances(&5), (47, 0));
    });
}

#[test]
fn losers_will_lose_the_bond() {
    Genesis::default().run(|t| {
        assert_ok(t.submit_candidacy(Origin::Signed(5)));
        assert_ok(t.submit_candidacy(Origin::Signed(3)));

        assert_ok(t.vote(Origin::Signed(4), vec![5], 40));

        assert_eq!(t.balances(&5), (47, 3));
        assert_eq!(t.balances(&3), (27, 3));

        t.set_block_number(5);
        t.on_initialize(t.block_number());

        assert_eq!(t.members_ids(), vec![5]);

        // winner
        assert_eq!(t.balances(&5), (47, 3));
        // loser
        assert_eq!(t.balances(&3), (27, 0));
    });
}

#[test]
fn current_members_are_always_next_candidate() {
    Genesis::default().run(|t| {
        assert_ok(t.submit_candidacy(Origin::Signed(5)));
        assert_ok(t.submit_candidacy(Origin::Signed(4)));

        assert_ok(t.vote(Origin::Signed(4), vec![4], 40));
        assert_ok(t.vote(Origin::Signed(5), vec![5], 50));

        t.set_block_number(5);
        t.on_initialize(t.block_number());

        assert_eq!(t.members_ids(), vec![4, 5]);
        assert_eq!(t.election_rounds(), 1);

        assert_ok(t.submit_candidacy(Origin::Signed(2)));
        assert_ok(t.vote(Origin::Signed(2), vec![2], 20));

        assert_ok(t.submit_candidacy(Origin::Signed(3)));
        assert_ok(t.vote(Origin::Signed(3), vec![3], 30));

        assert_ok(t.remove_voter(Origin::Signed(4)));

        // 5 will persist as candidates despite not being in the list.
        assert_eq!(t.candidate_ids(), vec![2, 3]);

        t.set_block_number(10);
        t.on_initialize(t.block_number());

        // 4 removed; 5 and 3 are the new best.
        assert_eq!(t.members_ids(), vec![3, 5]);
    });
}

#[test]
fn election_state_is_uninterrupted() {
    // what I mean by uninterrupted:
    // given no input or stimulants the same members are re-elected.
    Genesis::default().desired_runners_up(2).run(|t| {
        assert_ok(t.submit_candidacy(Origin::Signed(5)));
        assert_ok(t.submit_candidacy(Origin::Signed(4)));
        assert_ok(t.submit_candidacy(Origin::Signed(3)));
        assert_ok(t.submit_candidacy(Origin::Signed(2)));

        assert_ok(t.vote(Origin::Signed(5), vec![5], 50));
        assert_ok(t.vote(Origin::Signed(4), vec![4], 40));
        assert_ok(t.vote(Origin::Signed(3), vec![3], 30));
        assert_ok(t.vote(Origin::Signed(2), vec![2], 20));

        let check_at_block = |t: &mut Runtime, b: u32| {
            t.set_block_number(b.into());
            t.on_initialize(t.block_number());
            // we keep re-electing the same folks.
            assert_eq!(t.members_and_stake(), vec![(4, 40), (5, 50)]);
            assert_eq!(t.runners_up_and_stake(), vec![(2, 20), (3, 30)]);
            // no new candidates but old members and runners-up are always added.
            assert!(t.candidate_ids().is_empty());
            assert_eq!(t.election_rounds(), b / 5);
            assert_eq_uvec(t.all_voters(), vec![2, 3, 4, 5]);
        };

        // this state will always persist when no further input is given.
        check_at_block(t, 5);
        check_at_block(t, 10);
        check_at_block(t, 15);
        check_at_block(t, 20);
    });
}

#[test]
fn remove_members_triggers_election() {
    Genesis::default().run(|t| {
        assert_ok(t.submit_candidacy(Origin::Signed(5)));
        assert_ok(t.submit_candidacy(Origin::Signed(4)));

        assert_ok(t.vote(Origin::Signed(4), vec![4], 40));
        assert_ok(t.vote(Origin::Signed(5), vec![5], 50));

        t.set_block_number(5);
        t.on_initialize(t.block_number());
        assert_eq!(t.members_ids(), vec![4, 5]);
        assert_eq!(t.election_rounds(), 1);

        // a new candidate
        assert_ok(t.submit_candidacy(Origin::Signed(3)));
        assert_ok(t.vote(Origin::Signed(3), vec![3], 30));

        assert_ok(t.remove_member(Origin::Root, 4, false));

        assert_eq!(t.balances(&4), (35, 2)); // slashed
        assert_eq!(t.election_rounds(), 2); // new election round
        assert_eq!(t.members_ids(), vec![3, 5]); // new members
    });
}

#[test]
fn remove_member_should_indicate_replacement() {
    Genesis::default().run(|t| {
        assert_ok(t.submit_candidacy(Origin::Signed(5)));
        assert_ok(t.submit_candidacy(Origin::Signed(4)));

        assert_ok(t.vote(Origin::Signed(4), vec![4], 40));
        assert_ok(t.vote(Origin::Signed(5), vec![5], 50));

        t.set_block_number(5);
        t.on_initialize(t.block_number());
        assert_eq!(t.members_ids(), vec![4, 5]);

        // no replacement yet.
        // only thing that matters for now is that it is NOT the full block.
        assert_err_with_weight(
            t.remove_member(Origin::Root, 4, true),
            Error::InvalidReplacement,
            Some(34042000),
        );
    });

    Genesis::default().desired_runners_up(1).run(|t| {
        assert_ok(t.submit_candidacy(Origin::Signed(5)));
        assert_ok(t.submit_candidacy(Origin::Signed(4)));
        assert_ok(t.submit_candidacy(Origin::Signed(3)));

        assert_ok(t.vote(Origin::Signed(3), vec![3], 30));
        assert_ok(t.vote(Origin::Signed(4), vec![4], 40));
        assert_ok(t.vote(Origin::Signed(5), vec![5], 50));

        t.set_block_number(5);
        t.on_initialize(t.block_number());
        assert_eq!(t.members_ids(), vec![4, 5]);
        assert_eq!(t.runners_up_ids(), vec![3]);

        // there is a replacement! and this one needs a weight refund.
        // only thing that matters for now is that it is NOT the full block.
        assert_err_with_weight(
            t.remove_member(Origin::Root, 4, false),
            Error::InvalidReplacement,
            Some(34042000),
        );
    });
}

#[test]
fn seats_should_be_released_when_no_vote() {
    Genesis::default().run(|t| {
        assert_ok(t.submit_candidacy(Origin::Signed(5)));
        assert_ok(t.submit_candidacy(Origin::Signed(4)));
        assert_ok(t.submit_candidacy(Origin::Signed(3)));

        assert_ok(t.vote(Origin::Signed(2), vec![3], 20));
        assert_ok(t.vote(Origin::Signed(3), vec![3], 30));
        assert_ok(t.vote(Origin::Signed(4), vec![4], 40));
        assert_ok(t.vote(Origin::Signed(5), vec![5], 50));

        assert_eq!(t.candidates_len().unwrap(), 3);

        assert_eq!(t.election_rounds(), 0);

        t.set_block_number(5);
        t.on_initialize(t.block_number());
        assert_eq!(t.members_ids(), vec![3, 5]);
        assert_eq!(t.election_rounds(), 1);

        assert_ok(t.remove_voter(Origin::Signed(2)));
        assert_ok(t.remove_voter(Origin::Signed(3)));
        assert_ok(t.remove_voter(Origin::Signed(4)));
        assert_ok(t.remove_voter(Origin::Signed(5)));

        // meanwhile, no one cares to become a candidate again.
        t.set_block_number(10);
        t.on_initialize(t.block_number());
        assert!(t.members_ids().is_empty());
        assert_eq!(t.election_rounds(), 2);
    });
}

#[test]
fn incoming_outgoing_are_reported() {
    Genesis::default().run(|t| {
        assert_ok(t.submit_candidacy(Origin::Signed(4)));
        assert_ok(t.submit_candidacy(Origin::Signed(5)));

        assert_ok(t.vote(Origin::Signed(4), vec![4], 40));
        assert_ok(t.vote(Origin::Signed(5), vec![5], 50));

        t.set_block_number(5);
        t.on_initialize(t.block_number());
        assert_eq!(t.members_ids(), vec![4, 5]);

        assert_ok(t.submit_candidacy(Origin::Signed(1)));
        assert_ok(t.submit_candidacy(Origin::Signed(2)));
        assert_ok(t.submit_candidacy(Origin::Signed(3)));

        // 5 will change their vote and becomes an `outgoing`
        assert_ok(t.vote(Origin::Signed(5), vec![4], 8));
        // 4 will stay in the set
        assert_ok(t.vote(Origin::Signed(4), vec![4], 40));
        // 3 will become a winner
        assert_ok(t.vote(Origin::Signed(3), vec![3], 30));
        // these two are losers.
        assert_ok(t.vote(Origin::Signed(2), vec![2], 20));
        assert_ok(t.vote(Origin::Signed(1), vec![1], 10));

        t.set_block_number(10);
        t.on_initialize(t.block_number());

        // 3, 4 are new members, must still be bonded, nothing slashed.
        assert_eq!(t.members_and_stake(), vec![(3, 30), (4, 48)]);
        assert_eq!(t.balances(&3), (25, 5));
        assert_eq!(t.balances(&4), (35, 5));

        // 1 is a loser, slashed by 3.
        assert_eq!(t.balances(&1), (5, 2));

        // 5 is an outgoing loser. will also get slashed.
        assert_eq!(t.balances(&5), (45, 2));

        assert!(t.events.iter().any(|event| {
            *event == RawEvent::NewTerm(vec![(4, 40), (5, 50)])
        }));
    })
}

#[test]
fn invalid_votes_are_moot() {
    Genesis::default().run(|t| {
        assert_ok(t.submit_candidacy(Origin::Signed(4)));
        assert_ok(t.submit_candidacy(Origin::Signed(3)));

        assert_ok(t.vote(Origin::Signed(3), vec![3], 30));
        assert_ok(t.vote(Origin::Signed(4), vec![4], 40));
        assert_ok(t.vote(Origin::Signed(5), vec![10], 50));

        t.set_block_number(5);
        t.on_initialize(t.block_number());

        assert_eq_uvec(t.members_ids(), vec![3, 4]);
        assert_eq!(t.election_rounds(), 1);
    });
}

#[test]
fn members_are_sorted_based_on_id_runners_on_merit() {
    Genesis::default().desired_runners_up(2).run(|t| {
        assert_ok(t.submit_candidacy(Origin::Signed(5)));
        assert_ok(t.submit_candidacy(Origin::Signed(4)));
        assert_ok(t.submit_candidacy(Origin::Signed(3)));
        assert_ok(t.submit_candidacy(Origin::Signed(2)));

        assert_ok(t.vote(Origin::Signed(2), vec![3], 20));
        assert_ok(t.vote(Origin::Signed(3), vec![2], 30));
        assert_ok(t.vote(Origin::Signed(4), vec![5], 40));
        assert_ok(t.vote(Origin::Signed(5), vec![4], 50));

        t.set_block_number(5);
        t.on_initialize(t.block_number());
        // id: low -> high.
        assert_eq!(t.members_and_stake(), vec![(4, 50), (5, 40)]);
        // merit: low -> high.
        assert_eq!(t.runners_up_and_stake(), vec![(3, 20), (2, 30)]);
    });
}

#[test]
fn candidates_are_sorted() {
    Genesis::default().run(|t| {
        assert_ok(t.submit_candidacy(Origin::Signed(5)));
        assert_ok(t.submit_candidacy(Origin::Signed(3)));

        assert_eq!(t.candidate_ids(), vec![3, 5]);

        assert_ok(t.submit_candidacy(Origin::Signed(2)));
        assert_ok(t.submit_candidacy(Origin::Signed(4)));
        assert_ok(t.renounce_candidacy(Origin::Signed(3), Renouncing::Candidate(4)));

        assert_eq!(t.candidate_ids(), vec![2, 4, 5]);
    })
}

#[test]
fn runner_up_replacement_maintains_members_order() {
    Genesis::default().desired_runners_up(2).run(|t| {
        assert_ok(t.submit_candidacy(Origin::Signed(5)));
        assert_ok(t.submit_candidacy(Origin::Signed(4)));
        assert_ok(t.submit_candidacy(Origin::Signed(2)));

        assert_ok(t.vote(Origin::Signed(2), vec![5], 20));
        assert_ok(t.vote(Origin::Signed(4), vec![4], 40));
        assert_ok(t.vote(Origin::Signed(5), vec![2], 50));

        t.set_block_number(5);
        t.on_initialize(t.block_number());

        assert_eq!(t.members_ids(), vec![2, 4]);
        assert_ok(t.remove_member(Origin::Root, 2, true));
        assert_eq!(t.members_ids(), vec![4, 5]);
    });
}

#[test]
fn can_renounce_candidacy_member_with_runners_bond_is_refunded() {
    Genesis::default().desired_runners_up(2).run(|t| {
        assert_ok(t.submit_candidacy(Origin::Signed(5)));
        assert_ok(t.submit_candidacy(Origin::Signed(4)));
        assert_ok(t.submit_candidacy(Origin::Signed(3)));
        assert_ok(t.submit_candidacy(Origin::Signed(2)));

        assert_ok(t.vote(Origin::Signed(5), vec![5], 50));
        assert_ok(t.vote(Origin::Signed(4), vec![4], 40));
        assert_ok(t.vote(Origin::Signed(3), vec![3], 30));
        assert_ok(t.vote(Origin::Signed(2), vec![2], 20));

        t.set_block_number(5);
        t.on_initialize(t.block_number());

        assert_eq!(t.members_ids(), vec![4, 5]);
        assert_eq!(t.runners_up_ids(), vec![2, 3]);

        assert_ok(t.renounce_candidacy(Origin::Signed(4), Renouncing::Member));
        assert_eq!(t.balances(&4), (38, 2)); // 2 is voting bond.

        assert_eq!(t.members_ids(), vec![3, 5]);
        assert_eq!(t.runners_up_ids(), vec![2]);
    })
}

#[test]
fn can_renounce_candidacy_member_without_runners_bond_is_refunded() {
    Genesis::default().desired_runners_up(2).run(|t| {
        assert_ok(t.submit_candidacy(Origin::Signed(5)));
        assert_ok(t.submit_candidacy(Origin::Signed(4)));

        assert_ok(t.vote(Origin::Signed(5), vec![5], 50));
        assert_ok(t.vote(Origin::Signed(4), vec![4], 40));

        t.set_block_number(5);
        t.on_initialize(t.block_number());

        assert_eq!(t.members_ids(), vec![4, 5]);
        assert!(t.runners_up_ids().is_empty());

        assert_ok(t.renounce_candidacy(Origin::Signed(4), Renouncing::Member));
        assert_eq!(t.balances(&4), (38, 2)); // 2 is voting bond.

        // no replacement
        assert_eq!(t.members_ids(), vec![5]);
        assert!(t.runners_up_ids().is_empty());
    })
}

#[test]
fn can_renounce_candidacy_runner() {
    Genesis::default().desired_runners_up(2).run(|t| {
        assert_ok(t.submit_candidacy(Origin::Signed(5)));
        assert_ok(t.submit_candidacy(Origin::Signed(4)));
        assert_ok(t.submit_candidacy(Origin::Signed(3)));
        assert_ok(t.submit_candidacy(Origin::Signed(2)));

        assert_ok(t.vote(Origin::Signed(5), vec![4], 50));
        assert_ok(t.vote(Origin::Signed(4), vec![5], 40));
        assert_ok(t.vote(Origin::Signed(3), vec![3], 30));
        assert_ok(t.vote(Origin::Signed(2), vec![2], 20));

        t.set_block_number(5);
        t.on_initialize(t.block_number());

        assert_eq!(t.members_ids(), vec![4, 5]);
        assert_eq!(t.runners_up_ids(), vec![2, 3]);

        assert_ok(t.renounce_candidacy(Origin::Signed(3), Renouncing::RunnerUp));
        assert_eq!(t.balances(&3), (28, 2)); // 2 is voting bond.

        assert_eq!(t.members_ids(), vec![4, 5]);
        assert_eq!(t.runners_up_ids(), vec![2]);
    })
}

#[test]
fn runner_up_replacement_works_when_out_of_order() {
    Genesis::default().desired_runners_up(2).run(|t| {
        assert_ok(t.submit_candidacy(Origin::Signed(5)));
        assert_ok(t.submit_candidacy(Origin::Signed(4)));
        assert_ok(t.submit_candidacy(Origin::Signed(3)));
        assert_ok(t.submit_candidacy(Origin::Signed(2)));

        assert_ok(t.vote(Origin::Signed(2), vec![5], 20));
        assert_ok(t.vote(Origin::Signed(3), vec![3], 30));
        assert_ok(t.vote(Origin::Signed(4), vec![4], 40));
        assert_ok(t.vote(Origin::Signed(5), vec![2], 50));

        t.set_block_number(5);
        t.on_initialize(t.block_number());

        assert_eq!(t.members_ids(), vec![2, 4]);
        assert_eq!(t.runners_up_ids(), vec![5, 3]);
        assert_ok(t.renounce_candidacy(Origin::Signed(3), Renouncing::RunnerUp));
        assert_eq!(t.members_ids(), vec![2, 4]);
        assert_eq!(t.runners_up_ids(), vec![5]);
    });
}

#[test]
fn can_renounce_candidacy_candidate() {
    Genesis::default().run(|t| {
        assert_ok(t.submit_candidacy(Origin::Signed(5)));
        assert_eq!(t.balances(&5), (47, 3));
        assert_eq!(t.candidate_ids(), vec![5]);

        assert_ok(t.renounce_candidacy(Origin::Signed(5), Renouncing::Candidate(1)));
        assert_eq!(t.balances(&5), (50, 0));
        assert!(t.candidate_ids().is_empty());
    })
}

#[test]
fn wrong_renounce_candidacy_should_fail() {
    Genesis::default().run(|t| {
        t.assert_noop(
            |t| t.renounce_candidacy(Origin::Signed(5), Renouncing::Candidate(0)),
            Error::InvalidRenouncing,
        );
        t.assert_noop(
            |t| t.renounce_candidacy(Origin::Signed(5), Renouncing::Member),
            Error::NotMember,
        );
        t.assert_noop(
            |t| t.renounce_candidacy(Origin::Signed(5), Renouncing::RunnerUp),
            Error::InvalidRenouncing,
        );
    })
}

#[test]
fn non_member_renounce_member_should_fail() {
    Genesis::default().desired_runners_up(1).run(|t| {
        assert_ok(t.submit_candidacy(Origin::Signed(5)));
        assert_ok(t.submit_candidacy(Origin::Signed(4)));
        assert_ok(t.submit_candidacy(Origin::Signed(3)));

        assert_ok(t.vote(Origin::Signed(5), vec![5], 50));
        assert_ok(t.vote(Origin::Signed(4), vec![4], 40));
        assert_ok(t.vote(Origin::Signed(3), vec![3], 30));

        t.set_block_number(5);
        t.on_initialize(t.block_number());

        assert_eq!(t.members_ids(), vec![4, 5]);
        assert_eq!(t.runners_up_ids(), vec![3]);

        t.assert_noop(
            |t| t.renounce_candidacy(Origin::Signed(3), Renouncing::Member),
            Error::NotMember,
        );
    })
}

#[test]
fn non_runner_up_renounce_runner_up_should_fail() {
    Genesis::default().desired_runners_up(1).run(|t| {
        assert_ok(t.submit_candidacy(Origin::Signed(5)));
        assert_ok(t.submit_candidacy(Origin::Signed(4)));
        assert_ok(t.submit_candidacy(Origin::Signed(3)));

        assert_ok(t.vote(Origin::Signed(5), vec![5], 50));
        assert_ok(t.vote(Origin::Signed(4), vec![4], 40));
        assert_ok(t.vote(Origin::Signed(3), vec![3], 30));

        t.set_block_number(5);
        t.on_initialize(t.block_number());

        assert_eq!(t.members_ids(), vec![4, 5]);
        assert_eq!(t.runners_up_ids(), vec![3]);

        t.assert_noop(
            |t| t.renounce_candidacy(Origin::Signed(4), Renouncing::RunnerUp),
            Error::InvalidRenouncing,
        );
    })
}

#[test]
fn wrong_candidate_count_renounce_should_fail() {
    Genesis::default().run(|t| {
        assert_ok(t.submit_candidacy(Origin::Signed(5)));
        assert_ok(t.submit_candidacy(Origin::Signed(4)));
        assert_ok(t.submit_candidacy(Origin::Signed(3)));

        t.assert_noop(
            |t| t.renounce_candidacy(Origin::Signed(4), Renouncing::Candidate(2)),
            Error::InvalidRenouncing,
        );

        assert_ok(t.renounce_candidacy(Origin::Signed(4), Renouncing::Candidate(3)));
    })
}

#[test]
fn renounce_candidacy_count_can_overestimate() {
    Genesis::default().run(|t| {
        assert_ok(t.submit_candidacy(Origin::Signed(5)));
        assert_ok(t.submit_candidacy(Origin::Signed(4)));
        assert_ok(t.submit_candidacy(Origin::Signed(3)));
        // while we have only 3 candidates.
        assert_ok(t.renounce_candidacy(Origin::Signed(4), Renouncing::Candidate(4)));
    })
}

#[test]
fn behavior_with_dupe_candidate() {
    Genesis::default()
        .desired_runners_up(2)
        .run(|t| {
            t.module.candidates = vec![(1, 0), (1, 0), (2, 0), (3, 0), (4, 0)];

            assert_ok(t.vote(Origin::Signed(5), vec![1], 50));
            assert_ok(t.vote(Origin::Signed(4), vec![4], 40));
            assert_ok(t.vote(Origin::Signed(3), vec![3], 30));
        assert_ok(t.vote(Origin::Signed(2), vec![2], 20));

        t.set_block_number(5);
        t.on_initialize(t.block_number());

            assert_eq!(t.members_ids(), vec![1, 4]);
            assert_eq!(t.runners_up_ids(), vec![2, 3]);
            assert!(t.candidate_ids().is_empty());
        })
}

#[test]
fn unsorted_runners_up_are_detected() {
    Genesis::default().desired_runners_up(2).desired_members(1).run(|t| {
        assert_ok(t.submit_candidacy(Origin::Signed(5)));
        assert_ok(t.submit_candidacy(Origin::Signed(4)));
        assert_ok(t.submit_candidacy(Origin::Signed(3)));

        assert_ok(t.vote(Origin::Signed(5), vec![5], 50));
        assert_ok(t.vote(Origin::Signed(4), vec![4], 5));
        assert_ok(t.vote(Origin::Signed(3), vec![3], 15));

        t.set_block_number(5);
        t.on_initialize(t.block_number());

        assert_eq!(t.members_ids(), vec![5]);
        assert_eq!(t.runners_up_ids(), vec![4, 3]);

        assert_ok(t.submit_candidacy(Origin::Signed(2)));
        assert_ok(t.vote(Origin::Signed(2), vec![2], 10));

        t.set_block_number(10);
        t.on_initialize(t.block_number());

        assert_eq!(t.members_ids(), vec![5]);
        assert_eq!(t.runners_up_ids(), vec![2, 3]);

        // 4 is outgoing runner-up. Slash candidacy bond.
        assert_eq!(t.balances(&4), (35, 2));
        // 3 stays.
        assert_eq!(t.balances(&3), (25, 5));
    })
}

#[test]
fn member_to_runner_up_wont_slash() {
    Genesis::default().desired_runners_up(2).desired_members(1).run(|t| {
        assert_ok(t.submit_candidacy(Origin::Signed(4)));
        assert_ok(t.submit_candidacy(Origin::Signed(3)));
        assert_ok(t.submit_candidacy(Origin::Signed(2)));


        assert_ok(t.vote(Origin::Signed(4), vec![4], 40));
        assert_ok(t.vote(Origin::Signed(3), vec![3], 30));
        assert_ok(t.vote(Origin::Signed(2), vec![2], 20));

        t.set_block_number(5);
        t.on_initialize(t.block_number());

        assert_eq!(t.members_ids(), vec![4]);
        assert_eq!(t.runners_up_ids(), vec![2, 3]);

        assert_eq!(t.balances(&4), (35, 5));
        assert_eq!(t.balances(&3), (25, 5));
        assert_eq!(t.balances(&2), (15, 5));

        // this guy will shift everyone down.
        assert_ok(t.submit_candidacy(Origin::Signed(5)));
        assert_ok(t.vote(Origin::Signed(5), vec![5], 50));

        t.set_block_number(10);
        t.on_initialize(t.block_number());

        assert_eq!(t.members_ids(), vec![5]);
        assert_eq!(t.runners_up_ids(), vec![3, 4]);

        // 4 went from member to runner-up -- don't slash.
        assert_eq!(t.balances(&4), (35, 5));
        // 3 stayed runner-up -- don't slash.
        assert_eq!(t.balances(&3), (25, 5));
        // 2 was removed -- slash.
        assert_eq!(t.balances(&2), (15, 2));
    });
}

#[test]
fn runner_up_to_member_wont_slash() {
    Genesis::default().desired_runners_up(2).desired_members(1).run(|t| {
        assert_ok(t.submit_candidacy(Origin::Signed(4)));
        assert_ok(t.submit_candidacy(Origin::Signed(3)));
        assert_ok(t.submit_candidacy(Origin::Signed(2)));


        assert_ok(t.vote(Origin::Signed(4), vec![4], 40));
        assert_ok(t.vote(Origin::Signed(3), vec![3], 30));
        assert_ok(t.vote(Origin::Signed(2), vec![2], 20));

        t.set_block_number(5);
        t.on_initialize(t.block_number());

        assert_eq!(t.members_ids(), vec![4]);
        assert_eq!(t.runners_up_ids(), vec![2, 3]);

        assert_eq!(t.balances(&4), (35, 5));
        assert_eq!(t.balances(&3), (25, 5));
        assert_eq!(t.balances(&2), (15, 5));

        // swap some votes.
        assert_ok(t.vote(Origin::Signed(4), vec![2], 40));
        assert_ok(t.vote(Origin::Signed(2), vec![4], 20));

        t.set_block_number(10);
        t.on_initialize(t.block_number());

        assert_eq!(t.members_ids(), vec![2]);
        assert_eq!(t.runners_up_ids(), vec![4, 3]);

        // 2 went from runner to member, don't slash
        assert_eq!(t.balances(&2), (15, 5));
        // 4 went from member to runner, don't slash
        assert_eq!(t.balances(&4), (35, 5));
        // 3 stayed the same
        assert_eq!(t.balances(&3), (25, 5));
    });
}

#[test]
fn dupe_voter_is_moot() {
    Genesis::default().run(|t| {
        assert_ok(t.submit_candidacy(Origin::Signed(5)));
        assert_ok(t.submit_candidacy(Origin::Signed(4)));

        // naming a candidate twice doubles neither the backing nor the points for the prime.
        assert_ok(t.vote(Origin::Signed(3), vec![4, 4], 20));
        assert_ok(t.vote(Origin::Signed(2), vec![5], 15));
        assert_ok(t.vote(Origin::Signed(1), vec![5], 9));

        t.set_block_number(5);
        t.on_initialize(t.block_number());

        assert_eq!(t.members_and_stake(), vec![(4, 20), (5, 24)]);
        assert_eq!(t.prime, Some(5));
    });
}

#[test]
fn remove_and_replace_member_works() {
    let setup = |t: &mut Runtime| {
        assert_ok(t.submit_candidacy(Origin::Signed(5)));
        assert_ok(t.submit_candidacy(Origin::Signed(4)));
        assert_ok(t.submit_candidacy(Origin::Signed(3)));

        assert_ok(t.vote(Origin::Signed(5), vec![5], 50));
        assert_ok(t.vote(Origin::Signed(4), vec![4], 40));
        assert_ok(t.vote(Origin::Signed(3), vec![3], 30));

        t.set_block_number(5);
        t.on_initialize(t.block_number());

        assert_eq!(t.members_ids(), vec![4, 5]);
        assert_eq!(t.runners_up_ids(), vec![3]);
    };

    // member removed, replacement found.
    Genesis::default().desired_runners_up(1).run(|t| {
        setup(t);
        assert_eq!(t.remove_and_replace_member(4, false), Ok(true));

        assert_eq!(t.members_ids(), vec![3, 5]);
        assert_eq!(t.runners_up_ids().len(), 0);
    });

    // member removed, no replacement found.
    Genesis::default().desired_runners_up(1).run(|t| {
        setup(t);
        assert_ok(t.renounce_candidacy(Origin::Signed(3), Renouncing::RunnerUp));
        assert_eq!(t.remove_and_replace_member(4, false), Ok(false));

        assert_eq!(t.members_ids(), vec![5]);
        assert_eq!(t.runners_up_ids().len(), 0);
    });

    // wrong member to remove.
    Genesis::default().desired_runners_up(1).run(|t| {
        setup(t);
        assert!(matches!(t.remove_and_replace_member(2, false), Err(_)));
    });
}
