use a_sabr::bundle::Bundle;
use a_sabr::contact::ContactInfo;
use a_sabr::contact_manager::segmentation::pseg::PSegmentationManager;
use a_sabr::contact_manager::segmentation::{BaseSegmentationManager, Segment};
use a_sabr::contact_manager::ContactManager;
use a_sabr::types::{TICKS_PER_UNIT, VOLUME_SCALE};

/// A date given in time units, in ticks.
fn t(x: f64) -> u64 {
    (x * TICKS_PER_UNIT as f64).round() as u64
}

/// A volume given in volume units, in volume steps.
fn v(x: f64) -> u64 {
    (x * VOLUME_SCALE as f64).round() as u64
}

fn bundle_of(priority: i8, size: f64) -> Bundle {
    Bundle { source: 1, destinations: vec![2], priority, size: v(size), expiration: t(100.0) }
}

fn initialized(rate: u64, delays: Vec<Segment<u64>>) -> (PSegmentationManager, ContactInfo) {
    let rate_intervals = vec![Segment { start: t(0.0), end: t(10.0), val: rate }];
    let mut manager = PSegmentationManager::new(rate_intervals, delays);
    let contact = ContactInfo::new(1, 2, t(0.0), t(10.0));
    assert!(manager.try_init(&contact));
    (manager, contact)
}

#[test]
fn pseg_test_new_manager() {
    let rate_intervals = vec![Segment { start: t(0.0), end: t(10.0), val: 2 }];
    let delay_intervals = vec![Segment { start: t(0.0), end: t(10.0), val: t(1.0) }];
    let manager = PSegmentationManager::new(rate_intervals, delay_intervals);

    assert!(manager.booking.is_empty());

    assert_eq!(manager.rate_intervals.len(), 1);
    assert_eq!(manager.rate_intervals[0].start, t(0.0));
    assert_eq!(manager.rate_intervals[0].end, t(10.0));
    assert_eq!(manager.rate_intervals[0].val, 2);

    assert_eq!(manager.delay_intervals.len(), 1);
    assert_eq!(manager.delay_intervals[0].start, t(0.0));
    assert_eq!(manager.delay_intervals[0].end, t(10.0));
    assert_eq!(manager.delay_intervals[0].val, t(1.0));
}

#[test]
fn pseg_test_manager_initial_state() {
    let rate_intervals = vec![Segment { start: t(0.0), end: t(10.0), val: 1 }];
    let delay_intervals = vec![Segment { start: t(0.0), end: t(10.0), val: t(1.0) }];
    let manager = PSegmentationManager::new(rate_intervals, delay_intervals);

    assert!(manager.booking.is_empty());
}

#[test]
fn pseg_test_new_manager_from_trait() {
    let rate_intervals = vec![Segment { start: t(5.0), end: t(15.0), val: 4 }];
    let delay_intervals = vec![Segment { start: t(5.0), end: t(15.0), val: t(2.0) }];
    let manager =
        <PSegmentationManager as BaseSegmentationManager>::new(rate_intervals, delay_intervals);

    assert!(manager.booking.is_empty());

    assert_eq!(manager.rate_intervals.len(), 1);
    assert_eq!(manager.rate_intervals[0].start, t(5.0));
    assert_eq!(manager.rate_intervals[0].end, t(15.0));
    assert_eq!(manager.rate_intervals[0].val, 4);

    assert_eq!(manager.delay_intervals.len(), 1);
    assert_eq!(manager.delay_intervals[0].start, t(5.0));
    assert_eq!(manager.delay_intervals[0].end, t(15.0));
    assert_eq!(manager.delay_intervals[0].val, t(2.0));
}

#[test]
fn test_try_init_creates_booking_interval() {
    let (manager, _contact) = initialized(2, vec![Segment { start: t(0.0), end: t(10.0), val: t(1.0) }]);

    assert_eq!(manager.booking.len(), 1);
    assert_eq!(manager.booking[0].start, t(0.0));
    assert_eq!(manager.booking[0].end, t(10.0));
    assert_eq!(manager.booking[0].val, -1);
}

#[test]
fn pseg_test_dry_run_returns_none_when_not_initialized() {
    let rate_intervals = vec![Segment { start: t(0.0), end: t(10.0), val: 2 }];
    let delay_intervals = vec![Segment { start: t(0.0), end: t(10.0), val: t(1.0) }];
    let manager = PSegmentationManager::new(rate_intervals, delay_intervals);
    let contact = ContactInfo::new(1, 2, t(0.0), t(10.0));

    let result = manager.dry_run_tx(&contact, t(0.0), &bundle_of(0, 4.0));

    assert!(result.is_none());
}

#[test]
fn pseg_test_dry_run_returns_some_after_init() {
    let (manager, contact) = initialized(2, vec![Segment { start: t(0.0), end: t(10.0), val: t(1.0) }]);

    let result = manager.dry_run_tx(&contact, t(0.0), &bundle_of(0, 4.0));

    assert!(result.is_some());
}

#[test]
fn pseg_test_dry_run_uses_at_time_as_start_when_inside_contact() {
    let (manager, contact) = initialized(2, vec![Segment { start: t(0.0), end: t(10.0), val: t(1.0) }]);

    let result = manager.dry_run_tx(&contact, t(3.0), &bundle_of(0, 4.0)).unwrap();

    assert_eq!(result.tx_start, t(3.0));
}

#[test]
fn pseg_test_dry_run_returns_none_when_bundle_is_too_large() {
    let (manager, contact) = initialized(1, vec![Segment { start: t(0.0), end: t(10.0), val: t(1.0) }]);

    let result = manager.dry_run_tx(&contact, t(0.0), &bundle_of(0, 20.0));

    assert!(result.is_none());
}

#[test]
fn test_dry_run_returns_correct_tx_values() {
    let (manager, contact) = initialized(
        1,
        vec![Segment { start: t(0.0), end: t(4.0), val: t(1.0) }, Segment { start: t(4.0), end: t(10.0), val: t(3.0) }],
    );

    let result = manager.dry_run_tx(&contact, t(0.0), &bundle_of(0, 5.0)).unwrap();

    assert_eq!(result.tx_start, t(0.0));
    assert_eq!(result.tx_end, t(5.0));
    assert_eq!(result.delay, t(3.0));
    assert_eq!(result.expiration, t(10.0));
    assert_eq!(result.arrival, t(8.0));
}

#[test]
fn test_schedule_tx_updates_booking() {
    let (mut manager, contact) = initialized(2, vec![Segment { start: t(0.0), end: t(10.0), val: t(1.0) }]);

    let result = manager.schedule_tx(&contact, t(0.0), &bundle_of(2, 4.0));
    assert!(result.is_some());

    assert_eq!(manager.booking.len(), 2);

    assert_eq!(manager.booking[0].start, t(0.0));
    assert_eq!(manager.booking[0].end, t(2.0));
    assert_eq!(manager.booking[0].val, 2);

    assert_eq!(manager.booking[1].start, t(2.0));
    assert_eq!(manager.booking[1].end, t(10.0));
    assert_eq!(manager.booking[1].val, -1);
}

#[test]
fn test_dry_run_skips_booked_interval_for_lower_priority() {
    let (mut manager, contact) = initialized(2, vec![Segment { start: t(0.0), end: t(10.0), val: t(1.0) }]);

    assert!(manager.schedule_tx(&contact, t(0.0), &bundle_of(2, 4.0)).is_some());

    let result = manager.dry_run_tx(&contact, t(0.0), &bundle_of(1, 4.0)).unwrap();

    assert_eq!(result.tx_start, t(2.0));
}

#[test]
fn pseg_booking_in_the_middle_cuts_three_ways() {
    let (mut manager, contact) = initialized(2, vec![Segment { start: t(0.0), end: t(10.0), val: t(1.0) }]);

    let booked = manager.schedule_tx(&contact, t(3.0), &bundle_of(1, 4.0)).unwrap();
    assert_eq!((booked.tx_start, booked.tx_end), (t(3.0), t(5.0)));
    let b: Vec<(u64, u64, i8)> = manager.booking.iter().map(|s| (s.start, s.end, s.val)).collect();
    assert_eq!(b, vec![(t(0.0), t(3.0), -1), (t(3.0), t(5.0), 1), (t(5.0), t(10.0), -1)]);
}

#[test]
fn pseg_higher_priority_may_use_a_lower_booking() {
    let (mut manager, contact) = initialized(2, vec![Segment { start: t(0.0), end: t(10.0), val: t(1.0) }]);

    assert!(manager.schedule_tx(&contact, t(0.0), &bundle_of(1, 4.0)).is_some());
    // a bundle of the same priority must wait, a higher one may take the window again
    let same = manager.dry_run_tx(&contact, t(0.0), &bundle_of(1, 4.0)).unwrap();
    assert_eq!(same.tx_start, t(2.0));
    let higher = manager.dry_run_tx(&contact, t(0.0), &bundle_of(2, 4.0)).unwrap();
    assert_eq!(higher.tx_start, t(0.0));
    assert_eq!(higher.expiration, t(10.0));
}

#[test]
fn pseg_transmission_ending_with_the_contact_is_refused() {
    // the transmission must end strictly before the end of its booking interval
    let (manager, contact) = initialized(1, vec![Segment { start: t(0.0), end: t(10.0), val: t(1.0) }]);
    assert!(manager.dry_run_tx(&contact, t(0.0), &bundle_of(0, 10.0)).is_none());
    assert!(manager.dry_run_tx(&contact, t(0.0), &bundle_of(0, 9.0)).is_some());
}
