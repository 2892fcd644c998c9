//! What the module relies on of the election method, on many small elections.

use elections_phragmen::{AccountId, ExtendedBalance, VoteWeight};
use sp_npos_elections::seq_phragmen;
use sp_runtime::Perbill;

type Ballot = (AccountId, VoteWeight, Vec<AccountId>);

/// A linear congruential generator.
struct Dice(u64);

impl Dice {
    fn roll(&mut self, sides: u64) -> u64 {
        self.0 = self.0.wrapping_mul(6364136223846793005).wrapping_add(1442695040888963407);
        (self.0 >> 33) % sides
    }
}

fn winners(
    rounds: usize,
    candidates: &[AccountId],
    voters: &[Ballot],
) -> Vec<(AccountId, ExtendedBalance)> {
    seq_phragmen::<AccountId, Perbill>(rounds, candidates.to_vec(), voters.to_vec(), None)
        .unwrap()
        .winners
}

fn voted_for(voters: &[Ballot], who: AccountId) -> bool {
    voters.iter().any(|v| v.1 > 0 && v.2.contains(&who))
}

/// Voters with weights of very different sizes, some of them zero, who vote for candidates and for
/// others, some of them twice.
fn electorate(dice: &mut Dice, greatest: u64) -> Vec<Ballot> {
    (0..dice.roll(6))
        .map(|v| {
            let weight = match dice.roll(5) {
                0 => 0,
                1 => dice.roll(3),
                2 => dice.roll(100),
                3 => dice.roll(1_000_000_007),
                _ => u64::MAX - dice.roll(1000),
            };
            let votes = (0..dice.roll(5)).map(|_| dice.roll(greatest)).collect();
            (100 + v, weight, votes)
        })
        .collect()
}

#[test]
fn winners_are_sound_in_many_elections() {
    let mut dice = Dice(2021);
    for _ in 0..20_000 {
        let candidates: Vec<AccountId> = (0..dice.roll(7)).map(|_| dice.roll(9)).collect();
        let voters = electorate(&mut dice, 10);
        let rounds = dice.roll(8) as usize;
        let won = winners(rounds, &candidates, &voters);
        assert_eq!(won.len(), rounds.min(candidates.len()));
        for (i, (who, backing)) in won.iter().enumerate() {
            assert!(candidates.contains(who));
            assert!(*backing == 0 || voted_for(&voters, *who));
            for (other, other_backing) in won[i + 1..].iter() {
                assert!(who != other || *backing == 0 || *other_backing == 0);
            }
        }
    }
}

#[test]
fn others_are_irrelevant_in_many_elections() {
    let mut dice = Dice(7);
    for _ in 0..20_000 {
        let mut candidates: Vec<AccountId> = vec![];
        for _ in 0..dice.roll(9) {
            let who = dice.roll(12);
            if !candidates.contains(&who) {
                candidates.push(who);
            }
        }
        let voters = electorate(&mut dice, 12);
        let rounds = dice.roll(8) as usize;
        let won = winners(rounds, &candidates, &voters);
        let fewer: Vec<AccountId> = candidates
            .iter()
            .cloned()
            .filter(|c| voted_for(&voters, *c) && won.iter().any(|w| w.0 == *c))
            .collect();
        let left: Vec<(AccountId, ExtendedBalance)> =
            won.iter().cloned().filter(|w| voted_for(&voters, w.0)).collect();
        assert_eq!(winners(rounds, &fewer, &voters), left);
    }
}

#[test]
fn invalid_and_repeated_votes_are_irrelevant_in_many_elections() {
    let mut dice = Dice(31);
    for _ in 0..20_000 {
        let candidates: Vec<AccountId> = (0..dice.roll(7)).map(|_| dice.roll(9)).collect();
        let voters = electorate(&mut dice, 12);
        let rounds = dice.roll(8) as usize;
        let mut valid: Vec<Ballot> = vec![];
        for (who, weight, votes) in voters.iter() {
            let mut kept: Vec<AccountId> = vec![];
            for vote in votes {
                if candidates.contains(vote) && !kept.contains(vote) {
                    kept.push(*vote);
                }
            }
            valid.push((*who, *weight, kept));
        }
        assert_eq!(winners(rounds, &candidates, &valid), winners(rounds, &candidates, &voters));
    }
}
