use a_sabr::bundle::Bundle;
use a_sabr::contact::ContactInfo;
use a_sabr::contact_manager::segmentation::seg::SegmentationManager;
use a_sabr::contact_manager::segmentation::{BaseSegmentationManager, Segment};
use a_sabr::contact_manager::ContactManager;
use a_sabr::types::{TICKS_PER_UNIT, VOLUME_SCALE};

/// A date given in time units, in ticks.
fn t(x: f64) -> u64 {
    (x * TICKS_PER_UNIT as f64).round() as u64
}

/// A volume given in volume units, in volume steps.
fn v(x: f64) -> u64 {
    (x * VOLUME_SCALE as f64).round() as u64
}

fn bundle_of(size: f64) -> Bundle {
    Bundle { source: 1, destinations: vec![2], priority: 0, size: v(size), expiration: t(100.0) }
}

#[test]
fn seg_test_new_manager() {
    let rate_intervals = vec![Segment { start: t(0.0), end: t(10.0), val: 2 }];
    let delay_intervals = vec![Segment { start: t(0.0), end: t(10.0), val: t(1.0) }];
    let manager = SegmentationManager::new(rate_intervals, delay_intervals);

    assert!(manager.free_intervals.is_empty());

    assert_eq!(manager.rate_intervals.len(), 1);
    assert_eq!(manager.rate_intervals[0].start, t(0.0));
    assert_eq!(manager.rate_intervals[0].end, t(10.0));
    assert_eq!(manager.rate_intervals[0].val, 2);

    assert_eq!(manager.delay_intervals.len(), 1);
    assert_eq!(manager.delay_intervals[0].start, t(0.0));
    assert_eq!(manager.delay_intervals[0].end, t(10.0));
    assert_eq!(manager.delay_intervals[0].val, t(1.0));
}

#[test]
fn test_manager_stores_multiple_intervals() {
    let rate_intervals = vec![
        Segment { start: t(0.0), end: t(5.0), val: 1 },
        Segment { start: t(5.0), end: t(10.0), val: 2 },
    ];
    let delay_intervals = vec![
        Segment { start: t(0.0), end: t(5.0), val: t(1.0) },
        Segment { start: t(5.0), end: t(10.0), val: t(1.0) },
    ];
    let manager = SegmentationManager::new(rate_intervals, delay_intervals);

    assert_eq!(manager.rate_intervals.len(), 2);
    assert_eq!(manager.delay_intervals.len(), 2);
}

#[test]
fn test_manager_keeps_segment_values() {
    let rate_intervals = vec![Segment { start: t(0.0), end: t(20.0), val: 5 }];
    let delay_intervals = vec![Segment { start: t(0.0), end: t(20.0), val: t(3.0) }];
    let manager = SegmentationManager::new(rate_intervals, delay_intervals);

    assert_eq!(manager.rate_intervals[0].val, 5);
    assert_eq!(manager.delay_intervals[0].val, t(3.0));
}

#[test]
fn seg_test_manager_initial_state() {
    let rate_intervals = vec![Segment { start: t(0.0), end: t(10.0), val: 1 }];
    let delay_intervals = vec![Segment { start: t(0.0), end: t(10.0), val: t(1.0) }];
    let manager = SegmentationManager::new(rate_intervals, delay_intervals);

    assert!(manager.free_intervals.is_empty());
}

#[test]
fn seg_test_new_manager_from_trait() {
    let rate_intervals = vec![Segment { start: t(5.0), end: t(15.0), val: 4 }];
    let delay_intervals = vec![Segment { start: t(5.0), end: t(15.0), val: t(2.0) }];
    let manager =
        <SegmentationManager as BaseSegmentationManager>::new(rate_intervals, delay_intervals);

    assert!(manager.free_intervals.is_empty());

    assert_eq!(manager.rate_intervals.len(), 1);
    assert_eq!(manager.rate_intervals[0].start, t(5.0));
    assert_eq!(manager.rate_intervals[0].end, t(15.0));
    assert_eq!(manager.rate_intervals[0].val, 4);

    assert_eq!(manager.delay_intervals.len(), 1);
    assert_eq!(manager.delay_intervals[0].start, t(5.0));
    assert_eq!(manager.delay_intervals[0].end, t(15.0));
    assert_eq!(manager.delay_intervals[0].val, t(2.0));
}

#[test]
fn seg_test_dry_run_returns_none_when_not_initialized() {
    let rate_intervals = vec![Segment { start: t(0.0), end: t(10.0), val: 2 }];
    let delay_intervals = vec![Segment { start: t(0.0), end: t(10.0), val: t(1.0) }];
    let manager = SegmentationManager::new(rate_intervals, delay_intervals);
    let contact = ContactInfo::new(1, 2, t(0.0), t(10.0));

    let result = manager.dry_run_tx(&contact, t(0.0), &bundle_of(4.0));

    assert!(result.is_none());
}

#[test]
fn seg_test_dry_run_returns_some_after_init() {
    let rate_intervals = vec![Segment { start: t(0.0), end: t(10.0), val: 2 }];
    let delay_intervals = vec![Segment { start: t(0.0), end: t(10.0), val: t(1.0) }];
    let mut manager = SegmentationManager::new(rate_intervals, delay_intervals);
    let contact = ContactInfo::new(1, 2, t(0.0), t(10.0));
    assert!(manager.try_init(&contact));

    let result = manager.dry_run_tx(&contact, t(0.0), &bundle_of(4.0));

    assert!(result.is_some());
}

#[test]
fn seg_test_dry_run_uses_at_time_as_start_when_inside_contact() {
    let rate_intervals = vec![Segment { start: t(0.0), end: t(10.0), val: 2 }];
    let delay_intervals = vec![Segment { start: t(0.0), end: t(10.0), val: t(1.0) }];
    let mut manager = SegmentationManager::new(rate_intervals, delay_intervals);
    let contact = ContactInfo::new(1, 2, t(0.0), t(10.0));
    assert!(manager.try_init(&contact));

    let result = manager.dry_run_tx(&contact, t(3.0), &bundle_of(4.0)).unwrap();

    assert_eq!(result.tx_start, t(3.0));
}

#[test]
fn test_dry_run_uses_contact_start_when_at_time_is_before_contact() {
    let rate_intervals = vec![Segment { start: t(5.0), end: t(15.0), val: 2 }];
    let delay_intervals = vec![Segment { start: t(5.0), end: t(15.0), val: t(1.0) }];
    let mut manager = SegmentationManager::new(rate_intervals, delay_intervals);
    let contact = ContactInfo::new(1, 2, t(5.0), t(15.0));
    assert!(manager.try_init(&contact));

    let result = manager.dry_run_tx(&contact, t(0.0), &bundle_of(4.0)).unwrap();

    assert_eq!(result.tx_start, t(5.0));
}

#[test]
fn seg_test_dry_run_returns_none_when_bundle_is_too_large() {
    let rate_intervals = vec![Segment { start: t(0.0), end: t(10.0), val: 1 }];
    let delay_intervals = vec![Segment { start: t(0.0), end: t(10.0), val: t(1.0) }];
    let mut manager = SegmentationManager::new(rate_intervals, delay_intervals);
    let contact = ContactInfo::new(1, 2, t(0.0), t(10.0));
    assert!(manager.try_init(&contact));

    let result = manager.dry_run_tx(&contact, t(0.0), &bundle_of(20.0));

    assert!(result.is_none());
}

#[test]
fn test_dry_run_uses_the_correct_values() {
    let rate_intervals = vec![Segment { start: t(0.0), end: t(10.0), val: 1 }];
    let delay_intervals = vec![
        Segment { start: t(0.0), end: t(4.0), val: t(1.0) },
        Segment { start: t(4.0), end: t(10.0), val: t(3.0) },
    ];
    let mut manager = SegmentationManager::new(rate_intervals, delay_intervals);
    let contact = ContactInfo::new(1, 2, t(0.0), t(10.0));
    assert!(manager.try_init(&contact));

    let result = manager.dry_run_tx(&contact, t(0.0), &bundle_of(5.0)).unwrap();

    assert_eq!(result.tx_start, t(0.0));
    assert_eq!(result.tx_end, t(5.0));
    assert_eq!(result.delay, t(3.0));
    assert_eq!(result.expiration, t(10.0));
    assert_eq!(result.arrival, t(8.0));
}

#[test]
fn seg_schedule_tx_cuts_the_window_out_of_the_free_interval() {
    let rate_intervals = vec![Segment { start: t(0.0), end: t(10.0), val: 2 }];
    let delay_intervals = vec![Segment { start: t(0.0), end: t(10.0), val: t(1.0) }];
    let mut manager = SegmentationManager::new(rate_intervals, delay_intervals);
    let contact = ContactInfo::new(1, 2, t(0.0), t(10.0));
    assert!(manager.try_init(&contact));

    let dry = manager.dry_run_tx(&contact, t(3.0), &bundle_of(4.0)).unwrap();
    let booked = manager.schedule_tx(&contact, t(3.0), &bundle_of(4.0)).unwrap();
    assert_eq!((dry.tx_start, dry.tx_end, dry.arrival), (booked.tx_start, booked.tx_end, booked.arrival));
    assert_eq!((booked.tx_start, booked.tx_end), (t(3.0), t(5.0)));

    assert_eq!(manager.free_intervals.len(), 2);
    assert_eq!((manager.free_intervals[0].start, manager.free_intervals[0].end), (t(0.0), t(3.0)));
    assert_eq!((manager.free_intervals[1].start, manager.free_intervals[1].end), (t(5.0), t(10.0)));

    let next = manager.dry_run_tx(&contact, t(3.0), &bundle_of(4.0)).unwrap();
    assert_eq!((next.tx_start, next.tx_end), (t(5.0), t(7.0)));
}

#[test]
fn seg_schedule_tx_from_the_start_shrinks_the_free_interval() {
    let rate_intervals = vec![Segment { start: t(0.0), end: t(10.0), val: 2 }];
    let delay_intervals = vec![Segment { start: t(0.0), end: t(10.0), val: t(1.0) }];
    let mut manager = SegmentationManager::new(rate_intervals, delay_intervals);
    let contact = ContactInfo::new(1, 2, t(0.0), t(10.0));
    assert!(manager.try_init(&contact));

    assert!(manager.schedule_tx(&contact, t(0.0), &bundle_of(4.0)).is_some());
    assert_eq!(manager.free_intervals.len(), 1);
    assert_eq!((manager.free_intervals[0].start, manager.free_intervals[0].end), (t(2.0), t(10.0)));
    assert!(manager.schedule_tx(&contact, t(0.0), &bundle_of(17.0)).is_none());
    assert_eq!(manager.free_intervals.len(), 1);
}

#[test]
fn seg_try_init_refuses_a_gap_in_the_rates() {
    let rate_intervals = vec![
        Segment { start: t(0.0), end: t(4.0), val: 2 },
        Segment { start: t(5.0), end: t(10.0), val: 2 },
    ];
    let delay_intervals = vec![Segment { start: t(0.0), end: t(10.0), val: t(1.0) }];
    let mut manager = SegmentationManager::new(rate_intervals, delay_intervals);
    assert!(!manager.try_init(&ContactInfo::new(1, 2, t(0.0), t(10.0))));
    assert!(manager.free_intervals.is_empty());
}

#[test]
fn seg_tx_end_spans_several_rate_segments() {
    // 2 units per time unit over [0, 4], then 1 over [4, 10]: 10 units end at 6.
    let rate_intervals = vec![
        Segment { start: t(0.0), end: t(4.0), val: 2 },
        Segment { start: t(4.0), end: t(10.0), val: 1 },
    ];
    let delay_intervals = vec![Segment { start: t(0.0), end: t(10.0), val: t(0.0) }];
    let mut manager = SegmentationManager::new(rate_intervals, delay_intervals);
    let contact = ContactInfo::new(1, 2, t(0.0), t(10.0));
    assert!(manager.try_init(&contact));
    let result = manager.dry_run_tx(&contact, t(0.0), &bundle_of(10.0)).unwrap();
    assert_eq!(result.tx_end, t(6.0));
    assert_eq!(result.arrival, t(6.0));
}

#[test]
fn seg_try_init_refuses_a_reversed_window() {
    let rate_intervals = vec![Segment { start: t(0.0), end: t(10.0), val: 2 }];
    let delay_intervals = vec![Segment { start: t(0.0), end: t(10.0), val: t(1.0) }];
    let mut manager = SegmentationManager::new(rate_intervals, delay_intervals);
    assert!(!manager.try_init(&ContactInfo::new(1, 2, t(8.0), t(2.0))));
    assert!(manager.free_intervals.is_empty());
}
