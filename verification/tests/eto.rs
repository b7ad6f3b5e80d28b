use a_sabr::bundle::Bundle;
use a_sabr::contact::ContactInfo;
use a_sabr::contact_manager::legacy::eto::{ETOManager, PBETOManager, PETOManager};
use a_sabr::contact_manager::ContactManager;
use a_sabr::types::{TICKS_PER_UNIT, VOLUME_SCALE};

/// A date given in time units, in ticks.
fn t(x: f64) -> u64 {
    (x * TICKS_PER_UNIT as f64).round() as u64
}

/// A volume given in volume units, in volume steps.
fn v(x: f64) -> u64 {
    (x * VOLUME_SCALE as f64).round() as u64
}

const RATE: u64 = 1000;
const DELAY: u64 = 4 * TICKS_PER_UNIT;
const C_START: u64 = 0 * TICKS_PER_UNIT;
const C_END: u64 = 10 * TICKS_PER_UNIT;
const BUDGET_P0: u64 = 10_000 * VOLUME_SCALE;
const BUDGET_P1: u64 = 10_000 * VOLUME_SCALE;
const BUDGET_P2: u64 = 10_000 * VOLUME_SCALE;

fn make_contact_info(start: u64, end: u64) -> ContactInfo {
    ContactInfo::new(0, 1, start, end)
}

fn bp0(size: f64) -> Bundle {
    Bundle { source: 0, destinations: vec![1], priority: 0, size: v(size), expiration: t(1000.0) }
}

fn eto() -> ETOManager {
    let mut manager = ETOManager::new(RATE, DELAY);
    manager.try_init(&make_contact_info(C_START, C_END));
    manager
}

fn pbeto() -> PBETOManager {
    let mut manager = PBETOManager::new(RATE, DELAY, [BUDGET_P0, BUDGET_P1, BUDGET_P2]);
    manager.try_init(&make_contact_info(C_START, C_END));
    manager
}

#[test]
fn schedule_tx_does_not_consume_volume() {
    let mut manager = eto();
    let contact = make_contact_info(C_START, C_END);

    for i in 0..20 {
        assert!(
            manager.schedule_tx(&contact, C_START, &bp0(1000.0)).is_some(),
            "TEST FAILED: ETO schedule_tx should never saturate (call {}).",
            i + 1
        );
    }
}

#[test]
fn schedule_tx_always_returns_same_result() {
    let mut manager = eto();
    let contact = make_contact_info(C_START, C_END);
    let bundle = bp0(1000.0);

    let first = manager.schedule_tx(&contact, C_START, &bundle);
    let second = manager.schedule_tx(&contact, C_START, &bundle);

    assert_eq!(first.is_some(), second.is_some());

    if let (Some(a), Some(b)) = (first, second) {
        assert_eq!(a.tx_start, b.tx_start);
        assert_eq!(a.tx_end, b.tx_end);
        assert_eq!(a.expiration, b.expiration);
        assert_eq!(a.rx_start, b.rx_start);
        assert_eq!(a.rx_end, b.rx_end);
    }
}

#[test]
fn budget_blocks_too_large_bundle() {
    let manager = pbeto();
    let contact = make_contact_info(C_START, C_END);

    assert!(
        manager.dry_run_tx(&contact, C_START, &bp0(20_000.0)).is_none(),
        "TEST FAILED: bundle should be rejected when it exceeds the budget."
    );
}

#[test]
fn manual_enqueue_shifts_tx_start_from_at_time() {
    let mut manager = eto();
    let contact = make_contact_info(C_START, C_END);

    manager.manual_enqueue(&bp0(2000.0));

    let data = manager.dry_run_tx(&contact, t(3.0), &bp0(100.0)).unwrap();

    assert_eq!(data.tx_start, t(5.0), "TEST FAILED: tx_start should be at_time + queue/rate for ETO.");
}

#[test]
fn manual_enqueue_shift_can_push_past_contact_end() {
    let mut manager = eto();
    let contact = make_contact_info(C_START, C_END);

    manager.manual_enqueue(&bp0(9900.0));

    assert!(
        manager.dry_run_tx(&contact, C_START, &bp0(200.0)).is_none(),
        "TEST FAILED: Bundle should not fit when manual queue shift pushes tx_end past contact end."
    );
}

#[test]
fn eto_exact_values() {
    let mut manager = eto();
    let contact = make_contact_info(C_START, C_END);
    manager.manual_enqueue(&bp0(2500.0));
    // the queue of 2500 takes 2.5 time units, the bundle of 1000 one more
    let data = manager.dry_run_tx(&contact, t(1.0), &bp0(1000.0)).unwrap();
    assert_eq!((data.tx_start, data.tx_end), (t(3.5), t(4.5)));
    assert_eq!(
        (data.delay, data.arrival, data.rx_start, data.rx_end, data.expiration),
        (t(4.0), t(8.5), t(7.5), t(8.5), t(10.0)),
    );
}

#[test]
fn peto_lower_priority_waits_for_higher() {
    let mut manager = PETOManager::new(RATE, DELAY);
    let contact = make_contact_info(C_START, C_END);
    let mut high = bp0(3000.0);
    high.priority = 2;
    manager.manual_enqueue(&high);
    // a priority 0 bundle waits for the priority 2 queue, a priority 2 one too
    assert_eq!(manager.dry_run_tx(&contact, t(0.0), &bp0(100.0)).unwrap().tx_start, t(3.0));
    let mut p2 = bp0(100.0);
    p2.priority = 2;
    assert_eq!(manager.dry_run_tx(&contact, t(0.0), &p2).unwrap().tx_start, t(3.0));
    // an out of range priority is refused
    let mut bad = bp0(100.0);
    bad.priority = 3;
    assert!(manager.dry_run_tx(&contact, t(0.0), &bad).is_none());
}

#[test]
fn eto_refuses_after_the_contact() {
    let manager = eto();
    let contact = make_contact_info(C_START, C_END);
    assert!(manager.dry_run_tx(&contact, t(11.0), &bp0(1.0)).is_none());
}
