use a_sabr::bundle::Bundle;
use a_sabr::contact::ContactInfo;
use a_sabr::contact_manager::legacy::evl::{EVLManager, PBEVLManager, PEVLManager};
use a_sabr::contact_manager::ContactManager;
use a_sabr::types::{TICKS_PER_UNIT, VOLUME_SCALE};

/// A date given in time units, in ticks.
fn t(x: f64) -> u64 {
    (x * TICKS_PER_UNIT as f64).round() as u64
}

/// A volume given in volume units, in volume steps.
fn v(x: f64) -> u64 {
    (x * VOLUME_SCALE as f64).round() as u64
}

const RATE: u64 = 1000;
const DELAY: u64 = 4 * TICKS_PER_UNIT;
const C_START: u64 = 0 * TICKS_PER_UNIT;
const C_END: u64 = 10 * TICKS_PER_UNIT;
const BUDGET_P0: u64 = 10_000 * VOLUME_SCALE;
const BUDGET_P1: u64 = 10_000 * VOLUME_SCALE;
const BUDGET_P2: u64 = 10_000 * VOLUME_SCALE;

fn make_contact_info(start: u64, end: u64) -> ContactInfo {
    ContactInfo::new(0, 1, start, end)
}

fn bp0(size: f64) -> Bundle {
    Bundle { source: 0, destinations: vec![1], priority: 0, size: v(size), expiration: t(1000.0) }
}

fn bp1(size: f64) -> Bundle {
    Bundle { source: 0, destinations: vec![1], priority: 1, size: v(size), expiration: t(1000.0) }
}

fn evl() -> EVLManager {
    let mut manager = EVLManager::new(RATE, DELAY);
    manager.try_init(&make_contact_info(C_START, C_END));
    manager
}

fn pevl() -> PEVLManager {
    let mut manager = PEVLManager::new(RATE, DELAY);
    manager.try_init(&make_contact_info(C_START, C_END));
    manager
}

fn pbevl() -> PBEVLManager {
    let mut manager = PBEVLManager::new(RATE, DELAY, [BUDGET_P0, BUDGET_P1, BUDGET_P2]);
    manager.try_init(&make_contact_info(C_START, C_END));
    manager
}

#[test]
fn tx_start_unaffected_by_queue_occupancy() {
    let mut manager = evl();
    let contact = make_contact_info(C_START, C_END);

    let before = manager.dry_run_tx(&contact, C_START, &bp0(1000.0)).unwrap();

    manager.schedule_tx(&contact, C_START, &bp0(1000.0)).unwrap();
    manager.schedule_tx(&contact, C_START, &bp0(1000.0)).unwrap();
    manager.schedule_tx(&contact, C_START, &bp0(1000.0)).unwrap();

    let after = manager.dry_run_tx(&contact, C_START, &bp0(1000.0)).unwrap();

    assert_eq!(
        before.tx_start, after.tx_start,
        "TEST FAILED: EVL tx_start should not be affected by queue occupancy."
    );
}

#[test]
fn schedule_tx_auto_updates_and_can_saturate() {
    let mut manager = evl();
    let contact = make_contact_info(C_START, C_END);

    for _ in 0..10 {
        assert!(
            manager.schedule_tx(&contact, C_START, &bp0(1000.0)).is_some(),
            "TEST FAILED: first 10 bundles should fit exactly in the contact volume."
        );
    }

    assert!(
        manager.schedule_tx(&contact, C_START, &bp0(100.0)).is_none(),
        "TEST FAILED: EVL should reject extra volume once capacity is full."
    );
}

#[test]
fn priority_queue_is_used_in_pevl() {
    let mut manager = pevl();
    let contact = make_contact_info(C_START, C_END);

    let before = manager.dry_run_tx(&contact, C_START, &bp1(1000.0)).unwrap();
    manager.schedule_tx(&contact, C_START, &bp1(1000.0)).unwrap();
    let after = manager.dry_run_tx(&contact, C_START, &bp1(1000.0)).unwrap();

    assert!(
        after.tx_start >= before.tx_start,
        "TEST FAILED: scheduling a priority 1 bundle should not improve tx_start."
    );
}

#[test]
fn budget_blocks_too_large_bundle_in_pbevl() {
    let manager = pbevl();
    let contact = make_contact_info(C_START, C_END);

    assert!(
        manager.dry_run_tx(&contact, C_START, &bp0(20_000.0)).is_none(),
        "TEST FAILED: bundle should be rejected when it exceeds the budget."
    );
}

#[test]
fn evl_exact_values_and_queue() {
    let mut manager = evl();
    let contact = make_contact_info(C_START, C_END);
    let data = manager.schedule_tx(&contact, t(2.0), &bp0(1500.0)).unwrap();
    assert_eq!(
        (data.tx_start, data.tx_end, data.delay, data.arrival, data.expiration),
        (t(2.0), t(3.5), t(4.0), t(7.5), t(10.0)),
    );
    assert_eq!(manager.queue_size, vec![v(1500.0)]);
    // the volume left from 2 on is 8000, of which 1500 is queued
    assert!(manager.dry_run_tx(&contact, t(2.0), &bp0(6500.0)).is_some());
    assert!(manager.dry_run_tx(&contact, t(2.0), &bp0(6501.0)).is_none());
}

#[test]
fn pbevl_budget_counts_the_queue_of_the_level() {
    let mut manager = PBEVLManager::new(RATE, DELAY, [v(3000.0), v(10_000.0), v(10_000.0)]);
    let contact = make_contact_info(C_START, C_END);
    assert!(manager.schedule_tx(&contact, t(0.0), &bp0(2000.0)).is_some());
    assert!(manager.dry_run_tx(&contact, t(0.0), &bp0(1000.0)).is_some());
    assert!(manager.dry_run_tx(&contact, t(0.0), &bp0(1001.0)).is_none());
    assert!(manager.dry_run_tx(&contact, t(0.0), &bp1(5000.0)).is_some());
}

#[test]
fn evl_try_init_checks_the_contact_window() {
    let mut manager = EVLManager::new(RATE, DELAY);
    assert!(manager.try_init(&make_contact_info(t(0.0), t(10.0))));
    assert!(!manager.try_init(&make_contact_info(t(10.0), t(0.0))));
}
