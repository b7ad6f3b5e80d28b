use a_sabr::bundle::Bundle;
use a_sabr::contact::{Contact, ContactInfo};
use a_sabr::contact_manager::segmentation::pseg::PSegmentationManager;
use a_sabr::contact_manager::segmentation::Segment;
use a_sabr::node::{Node, NodeInfo};
use a_sabr::node_manager::{NoManagement, NodeManager};
use a_sabr::pathfinding::{try_make_hop, PathFindingOutput};
use a_sabr::route_stage::RouteStage;
use a_sabr::types::{TICKS_PER_UNIT, VOLUME_SCALE};

#[derive(Debug)]
struct MockNodeManager {
    tx_ok: bool,
    rx_ok: bool,
}

impl MockNodeManager {
    fn accepting() -> Self {
        Self { tx_ok: true, rx_ok: true }
    }
    fn refusing_tx() -> Self {
        Self { tx_ok: false, rx_ok: true }
    }
    fn refusing_rx() -> Self {
        Self { tx_ok: true, rx_ok: false }
    }
}

impl NodeManager for MockNodeManager {
    fn tx_accepts(&self, _waiting_since: u64, _start: u64, _end: u64, _bundle: Bundle) -> bool {
        self.tx_ok
    }
    fn rx_accepts(&self, _start: u64, _end: u64, _bundle: Bundle) -> bool {
        self.rx_ok
    }
    fn tx_booked(&self, _next: Self, _waiting_since: u64, _start: u64, _end: u64, _bundle: Bundle) -> bool {
        true
    }
    fn rx_booked(&self, _next: Self, _start: u64, _end: u64, _bundle: Bundle) -> bool {
        true
    }
    fn dry_run_tx(&self, _waiting_since: u64, _start: u64, _end: u64, _bundle: &Bundle) -> bool {
        self.tx_ok
    }
    fn schedule_tx(&mut self, _waiting_since: u64, _start: u64, _end: u64, _bundle: &Bundle) -> bool {
        panic!("Not needed in tests")
    }
    fn dry_run_rx(&self, _start: u64, _end: u64, _bundle: &Bundle) -> bool {
        self.rx_ok
    }
    fn schedule_rx(&mut self, _start: u64, _end: u64, _bundle: &Bundle) -> bool {
        panic!("Not needed in tests")
    }
}

fn make_node<NM: NodeManager>(id: u16, nm: NM) -> Node<NM> {
    Node::try_new(NodeInfo { id, name: format!("N{id}"), excluded: false }, nm).unwrap()
}

/// A date given in time units, in ticks.
fn t(x: f64) -> u64 {
    (x * TICKS_PER_UNIT as f64).round() as u64
}

/// A volume given in volume units, in volume steps.
fn v(x: f64) -> u64 {
    (x * VOLUME_SCALE as f64).round() as u64
}

fn make_bundle(size: f64) -> Bundle {
    Bundle { source: 0, destinations: vec![1], priority: 1, size: v(size), expiration: t(2000.0) }
}

fn make_source(at_time: f64, node_id: u16) -> RouteStage {
    RouteStage::new(t(at_time), node_id, None)
}

fn make_contact(tx_id: u16, rx_id: u16, start: f64, end: f64, rate: f64, delay: f64) -> Contact<PSegmentationManager> {
    let (start, end) = (t(start), t(end));
    let rates = vec![Segment { start, end, val: rate as u64 }];
    let delays = vec![Segment { start, end, val: t(delay) }];
    Contact::try_new(ContactInfo::new(tx_id, rx_id, start, end), PSegmentationManager::new(rates, delays))
        .expect("Contact creation failed")
}

fn start_test<NM: NodeManager>(
    first_contact_index: usize,
    source: &RouteStage,
    bundle: &Bundle,
    contacts: &[Contact<PSegmentationManager>],
    tx: &Node<NM>,
    rx: &Node<NM>,
) -> Option<RouteStage> {
    try_make_hop(first_contact_index, source, bundle, contacts, tx, rx)
}

#[test]
fn test_empty_contacts() {
    let bundle = make_bundle(1.0);
    let source = make_source(0.0, 0);
    let tx = make_node(0, NoManagement {});
    let rx = make_node(1, NoManagement {});

    let result = start_test(0, &source, &bundle, &[], &tx, &rx);

    assert!(result.is_none(), "TEST FAILED: Expected None when contacts list is empty.");
}

#[test]
fn test_first_contact_index_beyond_slice() {
    let bundle = make_bundle(1.0);
    let source = make_source(0.0, 0);
    let tx = make_node(0, NoManagement {});
    let rx = make_node(1, NoManagement {});
    let contacts = vec![make_contact(0, 1,0.0,200.0,100.0,1.0)];

    let result = start_test(1, &source, &bundle, &contacts, &tx, &rx);

    assert!(
        result.is_none(),
        "TEST FAILED: Expected None when first_contact_index is beyond the slice."
    );
}

#[test]
fn test_bundle_too_large() {
    let bundle = make_bundle(999_999.0);
    let source = make_source(0.0, 0);
    let tx = make_node(0, NoManagement {});
    let rx = make_node(1, NoManagement {});
    let contacts = vec![make_contact(0, 1,0.0,200.0,100.0,1.0)];

    let result = start_test(0, &source, &bundle, &contacts, &tx, &rx);

    assert!(
        result.is_none(),
        "TEST FAILED: Expected None when the bundle size exceeds contact capacity."
    );
}

#[test]
fn test_single_contact_valid() {
    let bundle = make_bundle(50.0);
    let source = make_source(0.0, 0);
    let tx = make_node(0, NoManagement {});
    let rx = make_node(1, NoManagement {});
    let contacts = vec![make_contact(0, 1,0.0,200.0,100.0,1.0)];

    let result = start_test(0, &source, &bundle, &contacts, &tx, &rx);

    assert!(
        result.is_some(),
        "TEST FAILED: Expected Some when the contact is valid and the bundle size is within contact capacity."
    );
}

#[test]
fn test_all_contacts_supressed() {
    let bundle = make_bundle(30.0);
    let source = make_source(0.0, 0);
    let tx = make_node(0, NoManagement {});
    let rx = make_node(1, NoManagement {});
    let mut contact1 = make_contact(0, 1,0.0,200.0,100.0,1.0);
    let mut contact2 = make_contact(0, 1,20.0,100.0,50.0,1.0);
    let mut contact3 = make_contact(0, 1,10.0,300.0,100.0,1.0);
    contact1.suppressed = true;
    contact2.suppressed = true;
    contact3.suppressed = true;

    let result = start_test(0, &source, &bundle, &[contact1, contact2, contact3], &tx, &rx);
    assert!(
        result.is_none(),
        "TEST FAILED: Expected None when all contacts are supressed with contact_suppression feature."
    );
}

#[test]
fn test_node_tx_refusing() {
    let bundle = make_bundle(1.0);
    let source = make_source(0.0, 0);
    let tx = make_node(0, MockNodeManager::refusing_tx());
    let rx = make_node(1, MockNodeManager::accepting());
    let contacts = vec![make_contact(0, 1,0.0,2000.0,100.0,1.0)];

    let result = start_test(0, &source, &bundle, &contacts, &tx, &rx);

    assert!(result.is_none(), "TEST FAILED: Expected None when tx node refuses to emit.");
}

#[test]
fn test_node_rx_refusing() {
    let bundle = make_bundle(1.0);
    let source = make_source(0.0, 0);
    let tx = make_node(0, MockNodeManager::accepting());
    let rx = make_node(1, MockNodeManager::refusing_rx());
    let contacts = vec![make_contact(0, 1,0.0,2000.0,100.0,1.0)];

    let result = start_test(0, &source, &bundle, &contacts, &tx, &rx);

    assert!(result.is_none(), "TEST FAILED: Expected None when rx node refuses to receive.");
}

#[test]
fn try_make_hop_keeps_the_earliest_arrival() {
    let bundle = make_bundle(100.0);
    let mut source = make_source(5.0, 0);
    source.cumulative_delay = t(2.0);
    source.expiration = t(500.0);
    source.hop_count = 3;
    let tx = make_node(0, NoManagement {});
    let rx = make_node(1, NoManagement {});
    // rate 10: 10 time units; rate 100: 1 time unit
    let contacts = vec![
        make_contact(0, 1,0.0,200.0,10.0,1.0),
        make_contact(0, 1,0.0,300.0,100.0,4.0),
        make_contact(0, 1,0.0,400.0,100.0,4.0),
    ];
    let stage = start_test(0, &source, &bundle, &contacts, &tx, &rx).unwrap();
    assert_eq!(stage.at_time, t(10.0));
    assert_eq!(stage.to_node, 1);
    assert_eq!(stage.hop_count, 4);
    assert_eq!(stage.cumulative_delay, t(6.0));
    assert_eq!(stage.expiration, t(298.0));
    let via = stage.via.as_ref().unwrap();
    // the later contact with the same arrival is not preferred
    assert_eq!(via.contact, 1);
    assert_eq!(via.parent_route.at_time, t(5.0));
}

#[test]
fn try_make_hop_stops_at_contacts_opening_after_the_best_arrival() {
    let bundle = make_bundle(100.0);
    let source = make_source(0.0, 0);
    let tx = make_node(0, NoManagement {});
    let rx = make_node(1, NoManagement {});
    let contacts = vec![make_contact(0, 1,0.0,200.0,100.0,0.0), make_contact(0, 1,5.0,300.0,1000.0,0.0)];
    // the first contact arrives at 1; the second opens later and is not looked at
    let stage = start_test(0, &source, &bundle, &contacts, &tx, &rx).unwrap();
    assert_eq!(stage.at_time, t(1.0));
    assert_eq!(stage.via.as_ref().unwrap().contact, 0);
}

#[test]
fn path_finding_output_starts_empty_and_sets_up_routes() {
    let bundle = make_bundle(1.0);
    let source = make_source(0.0, 0);
    let mut out = PathFindingOutput::new(&bundle, source, &[3, 4], 5);
    assert_eq!(out.by_destination.len(), 5);
    assert!(out.by_destination.iter().all(|s| s.is_none()));
    assert_eq!(out.excluded_nodes_sorted, vec![3, 4]);
    assert_eq!(out.get_source_route().to_node, 0);

    let tx = make_node(0, NoManagement {});
    let rx = make_node(1, NoManagement {});
    let contacts = vec![make_contact(0, 1,0.0,200.0,100.0,1.0)];
    let hop = start_test(0, &out.get_source_route(), &bundle, &contacts, &tx, &rx).unwrap();
    out.by_destination[1] = Some(hop);
    assert!(out.init_for_destination(1).is_ok());
    assert!(out.init_for_destination(2).is_ok());
    let route = &out.by_destination[1].as_ref().unwrap().route;
    assert_eq!(route.len(), 1);
    assert_eq!((route[0].contact, route[0].tx_node, route[0].rx_node), (0, 0, 1));
}

#[test]
fn path_finding_output_sorts_the_excluded_nodes() {
    let bundle = make_bundle(1.0);
    let out = PathFindingOutput::new(&bundle, make_source(0.0, 0), &[4, 1, 3, 1], 5);
    assert_eq!(out.excluded_nodes_sorted, vec![1, 1, 3, 4]);
    assert_eq!(a_sabr::pathfinding::sorted_nodes(&[]), Vec::<u16>::new());
    assert_eq!(a_sabr::pathfinding::sorted_nodes(&[9, 2, 5]), vec![2, 5, 9]);
}

#[test]
fn single_contact_arrives_after_size_over_rate_plus_delay() {
    let bundle = make_bundle(50.0);
    let source = make_source(0.0, 0);
    let tx = make_node(0, NoManagement {});
    let rx = make_node(1, NoManagement {});
    let contacts = vec![make_contact(0, 1, 0.0, 200.0, 100.0, 1.0)];
    // 50 at rate 100 takes 0.5, then a delay of 1
    let stage = start_test(0, &source, &bundle, &contacts, &tx, &rx).unwrap();
    assert_eq!(stage.at_time, t(1.5));
    assert_eq!(stage.hop_count, 1);
    assert_eq!(stage.to_node, 1);
}
