use pallet_sequencer::election::{elect, StakeRegistry};

const A: u64 = 1;
const B: u64 = 2;
const C: u64 = 3;
const D: u64 = 4;
const E: u64 = 5;

fn registry(entries: &[(u64, u128)]) -> StakeRegistry {
    let mut reg = StakeRegistry::new();
    for (who, amount) in entries {
        reg.set(*who, *amount);
    }
    reg
}

#[test]
fn scenario_a_backfills_to_the_minimum() {
    let reg = registry(&[(A, 100), (B, 90), (C, 10), (D, 0)]);
    let roster = elect(&vec![A, B, C, D], &reg, 3);
    assert_eq!(roster, vec![(A, 100), (B, 90), (C, 10)]);
}

#[test]
fn threshold_pass_alone_when_minimum_met() {
    let reg = registry(&[(A, 100), (B, 90), (C, 10), (D, 0)]);
    assert_eq!(elect(&vec![A, B, C, D], &reg, 2), vec![(A, 100), (B, 90)]);
    assert_eq!(elect(&vec![A, B, C, D], &reg, 0), vec![(A, 100), (B, 90)]);
}

#[test]
fn input_order_is_kept() {
    let reg = registry(&[(A, 100), (B, 90), (C, 10), (D, 0)]);
    assert_eq!(elect(&vec![D, C, B, A], &reg, 3), vec![(B, 90), (A, 100), (D, 0)]);
}

#[test]
fn average_counts_every_registry_entry() {
    // Average over A, B, E is 60, so the bar is 40: C's 10 misses it.
    let reg = registry(&[(A, 100), (B, 80), (E, 0)]);
    assert_eq!(elect(&vec![A, C], &reg, 0), vec![(A, 100)]);
    // Over A alone the bar is 66.
    let reg = registry(&[(A, 100)]);
    assert_eq!(elect(&vec![A, B], &reg, 0), vec![(A, 100)]);
}

#[test]
fn bar_is_two_thirds_rounded_down() {
    // Total 6 over 3 entries: average 2, bar floor(4 / 3) = 1.
    let reg = registry(&[(A, 3), (B, 1), (C, 2)]);
    assert_eq!(elect(&vec![A, B, C], &reg, 0), vec![(A, 3), (B, 1), (C, 2)]);
    // Average 4: bar floor(8 / 3) = 2, so B's 1 misses it.
    let reg = registry(&[(A, 6), (B, 1), (C, 5)]);
    assert_eq!(elect(&vec![A, B, C], &reg, 0), vec![(A, 6), (C, 5)]);
    // Average 9: bar 6 exactly.
    let reg = registry(&[(A, 6), (B, 5), (C, 16)]);
    assert_eq!(elect(&vec![A, B, C], &reg, 0), vec![(A, 6), (C, 16)]);
}

#[test]
fn zero_stakes_meet_a_bar_of_one() {
    let reg = registry(&[(A, 0), (B, 0)]);
    assert_eq!(elect(&vec![A, B], &reg, 0), vec![]);
    assert_eq!(elect(&vec![A, B], &reg, 1), vec![(A, 0)]);
    assert_eq!(elect(&vec![A, B], &reg, 5), vec![(A, 0), (B, 0)]);
}

#[test]
fn empty_registry_and_empty_candidates() {
    let reg = StakeRegistry::new();
    assert_eq!(elect(&vec![], &reg, 3), vec![]);
    assert_eq!(elect(&vec![A, B], &reg, 1), vec![(A, 0)]);
    // Average 1: twice that is under 3, so the bar is 1.
    let reg = registry(&[(A, 1), (B, 1)]);
    assert_eq!(elect(&vec![A, B, C], &reg, 0), vec![(A, 1), (B, 1)]);
}

#[test]
fn largest_stake_does_not_overflow() {
    let reg = registry(&[(A, u128::MAX)]);
    assert_eq!(elect(&vec![A, B], &reg, 0), vec![(A, u128::MAX)]);
    let reg = registry(&[(A, u128::MAX - 3), (B, 3)]);
    assert_eq!(elect(&vec![A, B], &reg, 0), vec![(A, u128::MAX - 3)]);
}

#[test]
fn roster_size_between_floor_and_candidates() {
    let reg = registry(&[(A, 10), (B, 10), (C, 10), (D, 10), (E, 10)]);
    let cands = vec![A, B, C, D, E];
    assert_eq!(elect(&cands, &reg, 3).len(), 5);
    let reg = registry(&[(A, 100), (B, 0), (C, 0), (D, 0)]);
    let cands = vec![A, B, C, D];
    for m in 0u32..8 {
        let n = elect(&cands, &reg, m).len();
        assert!(n >= std::cmp::min(m as usize, 4) && n <= 4);
    }
    for (who, _) in elect(&cands, &reg, 8) {
        assert!(cands.contains(&who));
    }
}

#[test]
fn repeated_candidate_is_elected_once_by_backfill() {
    let reg = registry(&[(A, 0)]);
    assert_eq!(elect(&vec![A, A], &reg, 2), vec![(A, 0)]);
}

#[test]
fn election_is_deterministic() {
    let reg = registry(&[(A, 7), (B, 90), (C, 10), (D, 0), (E, 45)]);
    let cands = vec![E, D, C, B, A];
    assert_eq!(elect(&cands, &reg, 4), elect(&cands, &reg, 4));
}

#[test]
fn registry_overwrites() {
    let mut reg = StakeRegistry::new();
    reg.set(A, 5);
    reg.set(A, 7);
    assert_eq!(reg.len(), 1);
    assert_eq!(reg.get(A), 7);
    assert_eq!(reg.get(B), 0);
    reg.set(B, 3);
    assert_eq!(reg.len(), 2);
    assert_eq!(reg.average(), 5);
    reg.set(A, 6);
    assert_eq!(reg.get(A), 6);
    assert_eq!(reg.average(), 4);
}

#[test]
fn average_of_stakes_beyond_128_bits() {
    let reg = registry(&[(A, u128::MAX), (B, u128::MAX), (C, u128::MAX)]);
    assert_eq!(reg.average(), u128::MAX);
    let reg = registry(&[(A, u128::MAX), (B, u128::MAX - 1)]);
    assert_eq!(reg.average(), u128::MAX - 1);
    let reg = registry(&[(A, u128::MAX), (B, 1)]);
    assert_eq!(reg.average(), u128::MAX / 2 + 1);
    assert_eq!(StakeRegistry::new().average(), 0);
    // The average is about two thirds of MAX, the bar four ninths: C misses it.
    let reg = registry(&[(A, u128::MAX), (B, u128::MAX - 2), (C, 1)]);
    assert_eq!(elect(&vec![A, B, C], &reg, 0), vec![(A, u128::MAX), (B, u128::MAX - 2)]);
}

#[test]
fn registry_order_does_not_change_the_roster() {
    let first = registry(&[(A, 100), (B, 90), (C, 10), (D, 0)]);
    let second = registry(&[(D, 0), (C, 10), (A, 100), (B, 90)]);
    let cands = vec![D, C, B, A, E];
    assert_eq!(elect(&cands, &first, 4), elect(&cands, &second, 4));
    assert_eq!(elect(&cands, &first, 4), vec![(B, 90), (A, 100), (D, 0), (C, 10)]);
}

#[test]
fn elected_accounts_are_distinct() {
    let reg = registry(&[(A, 100), (B, 0), (C, 0), (D, 0)]);
    let roster = elect(&vec![A, B, C, D, E], &reg, 5);
    for i in 0..roster.len() {
        for j in (i + 1)..roster.len() {
            assert_ne!(roster[i].0, roster[j].0);
        }
    }
    assert_eq!(roster.len(), 5);
}
