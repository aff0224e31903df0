use pallet_sequencer::pallet::{Pallet, SessionManager};
use pallet_sequencer::types::{ActiveEraInfo, Config, Error, Forcing, Origin};

const A: u64 = 1;
const B: u64 = 2;
const C: u64 = 3;
const D: u64 = 4;

fn config(history_depth: u32) -> Config {
    Config { sessions_per_era: 6, history_depth, min_sequencer_count: 3 }
}

fn staked(history_depth: u32) -> Pallet {
    let mut p = Pallet::new(config(history_depth));
    for (who, amount) in [(A, 100u128), (B, 90), (C, 10), (D, 0)] {
        p.deposit(Origin::Signed(who), who, amount).unwrap();
    }
    p
}

#[test]
fn fresh_state() {
    let p = Pallet::new(config(84));
    assert_eq!(p.current_era(), None);
    assert_eq!(p.active_era(), None);
    assert_eq!(p.force_era(), Forcing::NotForcing);
    assert_eq!(p.sequencers_per_group(), 0);
    assert_eq!(p.eras_start_session_index(0), None);
    assert_eq!(p.eras_sequencers(0), vec![]);
    assert_eq!(p.restake_data(A), 0);
    assert_eq!(p.config(), config(84));
    assert_eq!(Forcing::default(), Forcing::NotForcing);
}

#[test]
fn scenario_a_first_era_roster() {
    let mut p = staked(84);
    let roster = p.new_session(0, &vec![A, B, C, D]);
    assert_eq!(roster, Some(vec![(A, 100), (B, 90), (C, 10)]));
    assert_eq!(p.eras_sequencers(0), vec![(A, 100), (B, 90), (C, 10)]);
}

#[test]
fn scenario_b_force_none_holds_the_era() {
    let mut p = staked(84);
    p.new_session(0, &vec![A, B, C, D]).unwrap();
    p.set_force_era(Forcing::ForceNone);
    assert_eq!(p.new_session(3, &vec![A, B, C, D]), None);
    assert_eq!(p.current_era(), Some(0));
    assert_eq!(p.new_session(600, &vec![A, B, C, D]), None);
    assert_eq!(p.current_era(), Some(0));
}

#[test]
fn scenario_c_first_session_plans_era_zero() {
    let mut p = staked(84);
    let roster = p.new_session(10, &vec![A, B, C, D]);
    assert!(roster.is_some());
    assert_eq!(p.current_era(), Some(0));
    assert_eq!(p.eras_start_session_index(0), Some(10));
}

#[test]
fn first_session_plans_even_under_force_none() {
    let mut p = staked(84);
    p.set_force_era(Forcing::ForceNone);
    assert!(p.new_session(10, &vec![A]).is_some());
    assert_eq!(p.current_era(), Some(0));
}

#[test]
fn not_forcing_waits_for_the_era_length() {
    let mut p = staked(84);
    p.new_session(10, &vec![A, B, C, D]).unwrap();
    for s in 11..16 {
        assert_eq!(p.new_session(s, &vec![A, B, C, D]), None);
        assert_eq!(p.current_era(), Some(0));
    }
    assert!(p.new_session(16, &vec![A, B]).is_some());
    assert_eq!(p.current_era(), Some(1));
    assert_eq!(p.eras_start_session_index(1), Some(16));
    assert_eq!(p.eras_sequencers(1), vec![(A, 100), (B, 90)]);
    assert_eq!(p.eras_sequencers(0), vec![(A, 100), (B, 90), (C, 10)]);
}

#[test]
fn session_before_era_start_counts_as_zero_length() {
    let mut p = staked(84);
    p.new_session(10, &vec![A]).unwrap();
    assert_eq!(p.new_session(2, &vec![A]), None);
    assert_eq!(p.current_era(), Some(0));
}

#[test]
fn force_always_triggers_every_session() {
    let mut p = staked(84);
    p.set_force_era(Forcing::ForceAlways);
    for s in 0u32..5 {
        assert!(p.new_session(s, &vec![A, B, C, D]).is_some());
        assert_eq!(p.current_era(), Some(s));
    }
}

#[test]
fn force_new_triggers_until_reset() {
    let mut p = staked(84);
    p.new_session(0, &vec![A]).unwrap();
    p.set_force_era(Forcing::ForceNew);
    assert!(p.new_session(1, &vec![A]).is_some());
    assert!(p.new_session(2, &vec![A]).is_some());
    assert_eq!(p.current_era(), Some(2));
    p.set_force_era(Forcing::NotForcing);
    assert_eq!(p.new_session(3, &vec![A]), None);
}

#[test]
fn era_counter_steps_by_one() {
    let mut p = staked(84);
    let mut last: Option<u32> = None;
    for s in 0u32..40 {
        let planned = p.new_session(s, &vec![A, B]).is_some();
        let now = p.current_era();
        match (last, planned) {
            (None, _) => assert_eq!(now, Some(0)),
            (Some(e), true) => assert_eq!(now, Some(e + 1)),
            (Some(e), false) => assert_eq!(now, Some(e)),
        }
        last = now;
    }
    assert_eq!(last, Some(6));
}

#[test]
fn history_keeps_the_latest_eras() {
    let mut p = staked(2);
    p.set_force_era(Forcing::ForceAlways);
    for s in 0u32..6 {
        p.new_session(s * 10, &vec![A]).unwrap();
    }
    assert_eq!(p.current_era(), Some(5));
    for era in 0u32..4 {
        assert_eq!(p.eras_start_session_index(era), None);
    }
    assert_eq!(p.eras_start_session_index(4), Some(40));
    assert_eq!(p.eras_start_session_index(5), Some(50));
    // Rosters are not pruned.
    assert_eq!(p.eras_sequencers(0), vec![(A, 100)]);
}

#[test]
fn zero_history_depth_keeps_nothing() {
    let mut p = staked(0);
    p.new_session(10, &vec![A]).unwrap();
    assert_eq!(p.eras_start_session_index(0), None);
    // The missing start counts as session 0.
    assert!(p.new_session(6, &vec![A]).is_some());
    assert_eq!(p.current_era(), Some(1));
}

#[test]
fn activation_and_stamping() {
    let mut p = staked(84);
    p.start_session(10);
    assert_eq!(p.active_era(), None);
    p.new_session(10, &vec![A]).unwrap();
    p.on_finalize(5);
    assert_eq!(p.active_era(), None);
    p.start_session(9);
    assert_eq!(p.active_era(), None);
    p.start_session(10);
    assert_eq!(p.active_era(), Some(ActiveEraInfo { index: 0, start: None }));
    p.on_finalize(1234);
    assert_eq!(p.active_era(), Some(ActiveEraInfo { index: 0, start: Some(1234) }));
    p.on_finalize(9999);
    assert_eq!(p.active_era(), Some(ActiveEraInfo { index: 0, start: Some(1234) }));
    p.start_session(11);
    assert_eq!(p.active_era().unwrap().index, 0);
}

#[test]
fn skipped_session_still_activates() {
    let mut p = staked(84);
    p.new_session(10, &vec![A]).unwrap();
    p.start_session(10);
    p.new_session(16, &vec![A]).unwrap();
    p.start_session(15);
    assert_eq!(p.active_era().unwrap().index, 0);
    p.start_session(17);
    assert_eq!(p.active_era(), Some(ActiveEraInfo { index: 1, start: None }));
}

#[test]
fn deposit_always_records() {
    let mut p = Pallet::new(config(84));
    assert_eq!(p.deposit(Origin::Unsigned, A, 5), Ok(()));
    assert_eq!(p.deposit(Origin::Root, A, 8), Ok(()));
    assert_eq!(p.restake_data(A), 8);
    assert_eq!(p.deposit(Origin::Signed(B), B, u128::MAX), Ok(()));
    assert_eq!(p.deposit(Origin::Signed(C), C, u128::MAX), Ok(()));
    assert_eq!(p.restake_data(C), u128::MAX);
    assert_eq!(p.restake_data(A), 8);
    // Average (8 + 2 * MAX) / 3 leaves A below the bar; backfill adds it.
    let roster = p.new_session(0, &vec![A, B, C]).unwrap();
    assert_eq!(roster, vec![(B, u128::MAX), (C, u128::MAX), (A, 8)]);
}

#[test]
fn sequencers_per_group_needs_root() {
    let mut p = Pallet::new(config(84));
    assert_eq!(p.set_sequencers_per_group(Origin::Signed(A), 4), Err(Error::BadOrigin));
    assert_eq!(p.set_sequencers_per_group(Origin::Unsigned, 4), Err(Error::BadOrigin));
    assert_eq!(p.sequencers_per_group(), 0);
    assert_eq!(p.set_sequencers_per_group(Origin::Root, 4), Ok(()));
    assert_eq!(p.sequencers_per_group(), 4);
}

#[test]
fn session_manager_forwards() {
    let mut p = staked(84);
    assert_eq!(SessionManager::new_session(&mut p, 10, None), None);
    assert_eq!(p.current_era(), None);
    let out = SessionManager::new_session_genesis(&mut p, 10, Some(vec![A, B, C, D]));
    assert_eq!(out, Some(vec![A, B, C, D]));
    assert_eq!(p.current_era(), Some(0));
    assert_eq!(p.eras_sequencers(0), vec![(A, 100), (B, 90), (C, 10)]);
    SessionManager::start_session(&mut p, 10);
    assert_eq!(p.active_era().unwrap().index, 0);
    assert_eq!(SessionManager::new_session(&mut p, 16, Some(vec![D])), Some(vec![D]));
    assert_eq!(p.current_era(), Some(1));
    assert_eq!(p.eras_sequencers(1), vec![(D, 0)]);
}

#[test]
fn would_trigger_follows_the_forcing_mode() {
    let mut p = staked(84);
    assert!(p.would_trigger(10));
    p.new_session(10, &vec![A]).unwrap();
    assert!(!p.would_trigger(15));
    assert!(p.would_trigger(16));
    p.set_force_era(Forcing::ForceNone);
    assert!(!p.would_trigger(1000));
    p.set_force_era(Forcing::ForceAlways);
    assert!(p.would_trigger(10));
}

#[test]
fn deposit_sets_only_that_account() {
    let mut p = staked(84);
    assert_eq!(p.deposit(Origin::Signed(B), B, 7), Ok(()));
    assert_eq!(p.restake_data(B), 7);
    assert_eq!(p.restake_data(A), 100);
    assert_eq!(p.restake_data(C), 10);
    assert_eq!(p.restake_data(D), 0);
}
