use a_sabr::bundle::Bundle;
use a_sabr::contact::{Contact, ContactInfo};
use a_sabr::contact_manager::legacy::evl::EVLManager;
use a_sabr::contact_plan::ContactPlan;
use a_sabr::distance::SABR;
use a_sabr::errors::ASABRError;
use a_sabr::node::{Node, NodeInfo};
use a_sabr::node_manager::NoManagement;
use a_sabr::pathfinding::node_parenting::{NodeParentingTree, NodeParentingTreeExcl};
use a_sabr::route_storage::table::RoutingTable;
use a_sabr::routing::volcgr::VolCgr;
use a_sabr::routing::Router;
use a_sabr::types::{TICKS_PER_UNIT, VOLUME_SCALE};

fn make_node(id: u16, name: &str, nm: NoManagement) -> Node<NoManagement> {
    Node::try_new(NodeInfo { id, name: name.to_string(), excluded: false }, nm).unwrap()
}

/// A date given in time units, in ticks.
fn t(x: f64) -> u64 {
    (x * TICKS_PER_UNIT as f64).round() as u64
}

/// A volume given in volume units, in volume steps.
fn v(x: f64) -> u64 {
    (x * VOLUME_SCALE as f64).round() as u64
}

fn make_contact(tx: u16, rx: u16, start: f64, end: f64, rate: f64, delay: f64) -> Contact<EVLManager> {
    Contact::try_new(ContactInfo::new(tx, rx, t(start), t(end)), EVLManager::new(rate as u64, t(delay)))
        .expect("TEST SETUP FAILED: contact creation failed.")
}

/// 0 -> 1 is small (volume 10), 0 -> 2 opens late, 1 -> 2 and 1 -> 3 -> 4 are wide open.
fn make_cp() -> ContactPlan<NoManagement, EVLManager> {
    ContactPlan::new(
        vec![
            make_node(0, "source", NoManagement {}),
            make_node(1, "relay", NoManagement {}),
            make_node(2, "dest_a", NoManagement {}),
            make_node(3, "relay2", NoManagement {}),
            make_node(4, "dest_b", NoManagement {}),
        ],
        vec![
            make_contact(0, 2, 25.0, 2000.0, 100.0, 0.0),
            make_contact(0, 1, 0.0, 10.0, 1.0, 0.0),
            make_contact(1, 2, 0.0, 2000.0, 100.0, 0.0),
            make_contact(1, 3, 0.0, 2000.0, 100.0, 0.0),
            make_contact(3, 4, 0.0, 2000.0, 100.0, 0.0),
        ],
    )
    .expect("TEST SETUP FAILED: Failed to create ContactPlan.")
}

fn make_bundle(dest: u16, priority: i8, size: f64, expiration: f64) -> Bundle {
    Bundle { source: 0, destinations: vec![dest], priority, size: v(size), expiration: t(expiration) }
}

type Table = RoutingTable<NoManagement, EVLManager, SABR>;

#[test]
fn test_volcgr_start() -> Result<(), ASABRError> {
    let cp = make_cp();
    let mut router = VolCgr::<NoManagement, EVLManager, NodeParentingTree<NoManagement, EVLManager, SABR>, Table>::new(
        cp,
        Table::new(),
    )?;

    let bundle = make_bundle(2, 1, 1.0, 1000.0);
    let output1 = router.route(0, &bundle, t(0.0), &[])?.expect("First routing should succeed");

    assert!(router.route_storage.has_route_to(2), "Route should be stored for node 2");

    let output2 = router.route(0, &bundle, t(0.0), &[])?.expect("Second routing should succeed (from cache)");

    assert_eq!(output1.first_hops.len(), output2.first_hops.len());
    assert_eq!(router.route_storage.route_count_for(2), 1, "Duplicate detected in cache");
    Ok(())
}

#[test]
fn test_volcgr_consummed() -> Result<(), ASABRError> {
    let cp = make_cp();
    let mut router = VolCgr::<NoManagement, EVLManager, NodeParentingTree<NoManagement, EVLManager, SABR>, Table>::new(
        cp,
        Table::new(),
    )?;

    let bundle = make_bundle(2, 1, 10.0, 1000.0);
    let output1 = router.route(0, &bundle, t(0.0), &[])?.expect("First routing should succeed");

    assert!(router.route_storage.has_route_to(2), "Route should be stored for node 2");

    let output2 = router.route(0, &bundle, t(0.0), &[])?.expect("Second routing should succeed");

    let hop1 = output1.lazy_get_for_unicast(2).expect("Should have route to 2");
    let hop2 = output2.lazy_get_for_unicast(2).expect("Should have route to 2");

    assert_eq!(hop1.1.hop_count, 2, "First route should be 2 hops (0->1->2)");
    assert_eq!(hop2.1.hop_count, 1, "Second route should be 1 hop (0->2 direct)");
    assert_eq!(router.route_storage.route_count_for(2), 2, "New Road created : contact 1 is depleted");
    Ok(())
}

#[test]
fn test_volcgr_excluded() -> Result<(), ASABRError> {
    let cp = make_cp();
    let mut router = VolCgr::<NoManagement, EVLManager, NodeParentingTreeExcl<NoManagement, EVLManager, SABR>, Table>::new(
        cp,
        Table::new(),
    )?;

    let bundle = make_bundle(2, 1, 1.0, 1000.0);

    let output1 = router.route(0, &bundle, t(0.0), &[])?.expect("First routing should succeed");
    assert_eq!(
        output1.lazy_get_for_unicast(2).unwrap().1.hop_count,
        2,
        "First route should be 2 hops (0->1->2)"
    );

    let output2 =
        router.route(0, &bundle, t(0.0), &[1])?.expect("Second routing should succeed via alternate path");
    assert_eq!(
        output2.lazy_get_for_unicast(2).unwrap().1.hop_count,
        1,
        "Second route should be 1 hop (0->2 direct) since node 1 is excluded"
    );

    Ok(())
}

#[test]
fn volcgr_refuses_multicast() {
    let mut router = VolCgr::<NoManagement, EVLManager, NodeParentingTree<NoManagement, EVLManager, SABR>, Table>::new(
        make_cp(),
        Table::new(),
    )
    .unwrap();
    let bundle = Bundle { source: 0, destinations: vec![2, 4], priority: 1, size: v(1.0), expiration: t(1000.0) };
    assert_eq!(router.route(0, &bundle, t(0.0), &[]).err(), Some(ASABRError::MulticastUnsupportedError));
    let expired = make_bundle(2, 1, 1.0, 10.0);
    assert!(router.route(0, &expired, t(20.0), &[]).unwrap().is_none());
}

#[test]
fn contact_plan_checks_node_ids_and_contacts() {
    let bad_ids = ContactPlan::<NoManagement, EVLManager>::new(
        vec![make_node(1, "one", NoManagement {})],
        vec![],
    );
    assert_eq!(bad_ids.err(), Some(ASABRError::NodeIdMismatch));
    let bad_contact = ContactPlan::new(
        vec![make_node(0, "zero", NoManagement {})],
        vec![make_contact(0, 3, 0.0, 10.0, 1.0, 0.0)],
    );
    assert_eq!(bad_contact.err(), Some(ASABRError::NodeOutOfRange));
    let refused = Contact::try_new(ContactInfo::new(0, 1, t(10.0), t(0.0)), EVLManager::new(1, 0));
    assert_eq!(refused.err().map(|_| 0), Some(0));
}
