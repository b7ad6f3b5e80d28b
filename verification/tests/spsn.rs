use a_sabr::bundle::Bundle;
use a_sabr::contact::{Contact, ContactInfo};
use a_sabr::contact_manager::legacy::evl::EVLManager;
use a_sabr::contact_plan::ContactPlan;
use a_sabr::distance::{Hop, SABR};
use a_sabr::errors::ASABRError;
use a_sabr::node::{Node, NodeInfo};
use a_sabr::node_manager::NoManagement;
use a_sabr::pathfinding::node_parenting::{NodeParentingTree, NodeParentingTreeExcl};
use a_sabr::route_storage::cache::TreeCache;
use a_sabr::routing::spsn::Spsn;
use a_sabr::routing::Router;
use a_sabr::types::{TICKS_PER_UNIT, VOLUME_SCALE};
use a_sabr::multigraph::Multigraph;
use a_sabr::pathfinding::Pathfinding;
use a_sabr::routing::dry_run_unicast_path;

type TestSpsn = Spsn<NoManagement, EVLManager, NodeParentingTreeExcl<NoManagement, EVLManager, Hop>, TreeCache>;

fn make_node(id: u16, name: &str, nm: NoManagement) -> Node<NoManagement> {
    Node::try_new(NodeInfo { id, name: name.to_string(), excluded: false }, nm).unwrap()
}

/// A date given in time units, in ticks.
fn t(x: f64) -> u64 {
    (x * TICKS_PER_UNIT as f64).round() as u64
}

/// A volume given in volume units, in volume steps.
fn v(x: f64) -> u64 {
    (x * VOLUME_SCALE as f64).round() as u64
}

fn make_contact(tx: u16, rx: u16, start: f64, end: f64, rate: f64, delay: f64) -> Contact<EVLManager> {
    Contact::try_new(ContactInfo::new(tx, rx, t(start), t(end)), EVLManager::new(rate as u64, t(delay)))
        .expect("TEST SETUP FAILED: contact creation failed.")
}

/// 0 -> 1 is small (volume 10), 0 -> 2 opens late and carries a bundle of 1
/// in one time unit, 1 -> 2 and 1 -> 3 -> 4 are wide open.
fn make_cp() -> ContactPlan<NoManagement, EVLManager> {
    ContactPlan::new(
        vec![
            make_node(0, "source", NoManagement {}),
            make_node(1, "relay", NoManagement {}),
            make_node(2, "dest_a", NoManagement {}),
            make_node(3, "relay2", NoManagement {}),
            make_node(4, "dest_b", NoManagement {}),
        ],
        vec![
            make_contact(0, 2, 25.0, 2000.0, 1.0, 0.0),
            make_contact(0, 1, 0.0, 10.0, 1.0, 0.0),
            make_contact(1, 2, 0.0, 2000.0, 100.0, 0.0),
            make_contact(1, 3, 0.0, 2000.0, 100.0, 0.0),
            make_contact(3, 4, 0.0, 2000.0, 100.0, 0.0),
        ],
    )
    .expect("TEST SETUP FAILED: Failed to create ContactPlan.")
}

fn make_bundle(dest: u16, priority: i8, size: f64, expiration: f64) -> Bundle {
    Bundle { source: 0, destinations: vec![dest], priority, size: v(size), expiration: t(expiration) }
}

fn make_multicast_bundle(dests: Vec<u16>, priority: i8, size: f64, expiration: f64) -> Bundle {
    Bundle { source: 0, destinations: dests, priority, size: v(size), expiration: t(expiration) }
}

fn make_cache(max: usize) -> TreeCache {
    TreeCache::new(false, false, max)
}

fn make_spsn(with_priorities: bool) -> TestSpsn {
    TestSpsn::new(make_cp(), make_cache(10), with_priorities).unwrap()
}

#[test]
fn test_new_valid() -> Result<(), ASABRError> {
    let cache = make_cache(10);
    let result = TestSpsn::new(make_cp(), cache, false);

    assert!(result.is_ok(), "TEST FAILED: Spsn::new() should succeed with a valid contact plan.");
    Ok(())
}

#[test]
fn test_route_expired_bundle() -> Result<(), ASABRError> {
    let mut spsn = make_spsn(false);
    let bundle = make_bundle(2, 1, 1.0, 10.0);
    let result = spsn.route(0, &bundle, t(20.0), &[])?;

    assert!(result.is_none(), "TEST FAILED: Expired bundle should return None.");
    Ok(())
}

#[test]
fn test_route_unicast_unreachable_dest() -> Result<(), ASABRError> {
    let mut spsn = make_spsn(false);
    let bundle = make_bundle(4, 1, 5.0, 1000.0);
    let result = spsn.route(0, &bundle, t(0.0), &[1, 2, 3])?;

    assert!(result.is_none(), "TEST FAILED: Unreachable destination should return None.");
    Ok(())
}

#[test]
fn test_route_unicast_guard_aborts() -> Result<(), ASABRError> {
    let mut spsn = make_spsn(false);
    let bundle_large = make_bundle(4, 1, 5.0, 1000.0);
    spsn.route(0, &bundle_large, t(0.0), &[1, 2, 3])?;
    let bundle_small = make_bundle(4, 1, 1.0, 1000.0);
    let result = spsn.route(0, &bundle_small, t(0.0), &[])?;

    assert!(
        result.is_none(),
        "TEST FAILED: Guard should abort routing for a bundle smaller than the known limit."
    );
    Ok(())
}

#[test]
fn test_route_unicast_cache_hit() -> Result<(), ASABRError> {
    let mut spsn = make_spsn(false);
    let bundle = make_bundle(2, 1, 1.0, 1000.0);
    let result1 = spsn.route(0, &bundle, t(0.0), &[])?;

    assert!(result1.is_some(), "TEST FAILED: First routing should succeed.");

    let result2 = spsn.route(0, &bundle, t(0.0), &[])?;

    assert!(result2.is_some(), "TEST FAILED: Second routing should succeed via cache.");
    assert!(
        result1.unwrap().lazy_get_for_unicast(2).is_some(),
        "TEST FAILED: First route should reach node 2."
    );
    assert!(
        result2.unwrap().lazy_get_for_unicast(2).is_some(),
        "TEST FAILED: Second route should reach node 2."
    );
    Ok(())
}

#[test]
fn test_route_unicast_path_found_but_expired() -> Result<(), ASABRError> {
    let mut spsn = make_spsn(false);
    let bundle = make_bundle(2, 1, 1.0, 5.0);
    let result = spsn.route(0, &bundle, t(0.0), &[])?;

    assert!(result.is_none(), "TEST FAILED: Bundle expiring before arrival should return None.");

    let bundle_valid = make_bundle(2, 1, 1.0, 1000.0);
    let result_valid = spsn.route(0, &bundle_valid, t(0.0), &[])?;

    assert!(
        result_valid.is_some(),
        "TEST FAILED: Guard should not have been updated when the bundle expires before arrival."
    );
    Ok(())
}

#[test]
fn test_route_unicast_fresh_tree() -> Result<(), ASABRError> {
    let mut spsn = make_spsn(false);
    let bundle = make_bundle(2, 1, 1.0, 1000.0);
    let result = spsn.route(0, &bundle, t(0.0), &[])?;

    assert!(
        result.is_some(),
        "TEST FAILED: Fresh tree routing should return Some for a reachable destination."
    );

    let (_contact, dest_stage) = result
        .unwrap()
        .lazy_get_for_unicast(2)
        .expect("TEST FAILED: RoutingOutput should contain a route to node 2.");

    assert_eq!(dest_stage.to_node, 2, "TEST FAILED: Destination stage should point to node 2.");
    assert_eq!(
        dest_stage.hop_count, 1,
        "TEST FAILED: Hop distance selects direct path 0 -> 2, should only be 1 hop."
    );
    assert_eq!(dest_stage.at_time, t(26.0), "TEST FAILED: Direct path 0 -> 2, arrival should be 26.0.");
    Ok(())
}

#[test]
fn test_route_multicast_cache_miss() -> Result<(), ASABRError> {
    let mut spsn = make_spsn(false);
    let bundle = make_multicast_bundle(vec![2, 4], 1, 1.0, 1000.0);
    let result = spsn.route(0, &bundle, t(0.0), &[])?;

    assert!(result.is_some(), "TEST FAILED: Multicast should succeed for reachable destinations.");
    assert!(
        !result.unwrap().first_hops.is_empty(),
        "TEST FAILED: RoutingOutput should contain at least one first hop."
    );
    Ok(())
}

#[test]
fn test_route_multicast_cache_hit_full() -> Result<(), ASABRError> {
    let mut spsn = make_spsn(false);
    let bundle = make_multicast_bundle(vec![2, 4], 1, 1.0, 1000.0);
    let result1 = spsn.route(0, &bundle, t(0.0), &[])?;

    assert!(result1.is_some(), "TEST FAILED: First multicast should succeed.");
    let result2 = spsn.route(0, &bundle, t(0.0), &[])?;
    assert!(result2.is_some(), "TEST FAILED: Second multicast should succeed via full cache hit.");
    assert!(
        !result2.unwrap().first_hops.is_empty(),
        "TEST FAILED: RoutingOutput from cache should contain first hops."
    );
    Ok(())
}

fn make_cp_partial_window() -> ContactPlan<NoManagement, EVLManager> {
    ContactPlan::new(
        vec![
            make_node(0, "source", NoManagement {}),
            make_node(1, "relay", NoManagement {}),
            make_node(2, "dest_a", NoManagement {}),
            make_node(3, "relay2", NoManagement {}),
            make_node(4, "dest_b", NoManagement {}),
        ],
        vec![
            make_contact(0, 2, 0.0, 2000.0, 100.0, 0.0),
            make_contact(0, 1, 0.0, 2000.0, 100.0, 0.0),
            make_contact(1, 3, 0.0, 2000.0, 100.0, 0.0),
            make_contact(3, 4, 0.0, 5.0, 100.0, 0.0),
        ],
    )
    .expect("TEST SETUP FAILED: Failed to create M3 ContactPlan.")
}

#[test]
fn test_route_multicast_cache_hit_partial() -> Result<(), ASABRError> {
    let cache = TreeCache::new(false, false, 10);
    let mut spsn = TestSpsn::new(make_cp_partial_window(), cache, false)?;

    let bundle = make_multicast_bundle(vec![2, 4], 1, 1.0, 1000.0);
    let result1 = spsn.route(0, &bundle, t(0.0), &[])?;

    assert!(result1.is_some(), "TEST FAILED: First multicast at t = 0.0 should succeed.");
    let result2 = spsn.route(0, &bundle, t(6.0), &[])?;
    assert!(
        result2.is_some(),
        "TEST FAILED: Partial cache hit should still return a result for reachable destinations."
    );
    assert!(
        !result2.unwrap().first_hops.is_empty(),
        "TEST FAILED: RoutingOutput should contain first hops for reachable destinations (dest 2 only)."
    );
    Ok(())
}

#[test]
fn test_guard_with_priorities_isolates_by_priority() -> Result<(), ASABRError> {
    let mut spsn = make_spsn(true);
    let bundle_p1 = make_bundle(4, 1, 5.0, 1000.0);
    spsn.route(0, &bundle_p1, t(0.0), &[1, 2, 3])?;
    let bundle_p2 = make_bundle(4, 2, 1.0, 1000.0);
    let result = spsn.route(0, &bundle_p2, t(0.0), &[])?;

    assert!(result.is_some(), "TEST FAILED: priority 2 should not be blocked by priority 1 limit.");
    Ok(())
}

#[test]
fn test_guard_without_priorities_ignores_priority() -> Result<(), ASABRError> {
    let mut spsn = make_spsn(false);
    let bundle_p1 = make_bundle(4, 1, 5.0, 1000.0);
    spsn.route(0, &bundle_p1, t(0.0), &[1, 2, 3])?;
    let bundle_p2 = make_bundle(4, 2, 1.0, 1000.0);
    let result = spsn.route(0, &bundle_p2, t(0.0), &[])?;

    assert!(result.is_none(), "TEST FAILED: priority 2 should be blocked by priority 1 limit.");
    Ok(())
}

#[test]
fn test_guard_add_limit_ignores_larger_value() -> Result<(), ASABRError> {
    let mut spsn = make_spsn(false);
    let bundle_small = make_bundle(4, 1, 3.0, 1000.0);
    spsn.route(0, &bundle_small, t(0.0), &[1, 2, 3])?;
    let bundle_large = make_bundle(4, 1, 5.0, 1000.0);
    spsn.route(0, &bundle_large, t(0.0), &[1, 2, 3])?;
    let bundle_valid = make_bundle(4, 1, 4.0, 1000.0);
    let result = spsn.route(0, &bundle_valid, t(0.0), &[])?;

    assert!(
        result.is_some(),
        "TEST FAILED: Guard limit should stay at 3.0, bundle of size 4.0 should not be blocked"
    );
    Ok(())
}

#[test]
fn test_route_multicast_no_reachable_destinations() -> Result<(), ASABRError> {
    let mut spsn = make_spsn(false);
    let bundle = make_multicast_bundle(vec![2, 4], 1, 1.0, 1000.0);
    let result = spsn.route(0, &bundle, t(0.0), &[1, 2, 3])?;

    assert!(result.is_some(), "TEST FAILED: route_multicast always returns Some even with 0 reachable destinations");
    assert!(
        result.unwrap().first_hops.is_empty(),
        "TEST FAILED: RoutingOutput should have empty first_hops when no destination is reachable"
    );
    Ok(())
}

#[test]
fn guard_learns_only_the_lower_limit() {
    let mut spsn = make_spsn(false);
    spsn.route(0, &make_bundle(4, 1, 5.0, 1000.0), t(0.0), &[1, 2, 3]).unwrap();
    assert_eq!(spsn.unicast_guard.limits.len(), 1);
    assert_eq!(spsn.unicast_guard.limits[0].size, v(5.0));
    spsn.route(0, &make_bundle(4, 1, 6.0, 1000.0), t(0.0), &[1, 2, 3]).unwrap();
    assert_eq!(spsn.unicast_guard.limits[0].size, v(5.0));
}

#[test]
fn multicast_groups_destinations_by_first_hop() -> Result<(), ASABRError> {
    let mut spsn = make_spsn(false);
    // the two destinations leave node 0 through two distinct first hops
    let bundle = make_multicast_bundle(vec![2, 4], 1, 1.0, 1000.0);
    let out = spsn.route(0, &bundle, t(0.0), &[])?.unwrap();
    assert_eq!(out.first_hops.len(), 2);
    let (_c, to4) = out.lazy_get_for_unicast(4).unwrap();
    assert_eq!(to4.hop_count, 3);
    // 0 -> 1 carries the bundle in one time unit, 1 -> 3 and 3 -> 4 in 0.01 each
    assert_eq!(to4.at_time, t(1.02));
    Ok(())
}

#[test]
fn pathfinding_stages_are_where_their_hops_arrive() {
    let graph = Multigraph::new(make_cp());
    let mut pf = NodeParentingTreeExcl::<NoManagement, EVLManager, Hop>::new();
    let bundle = make_multicast_bundle(vec![2, 4], 1, 1.0, 1000.0);
    let tree = pf.get_next(&graph, t(5.0), 0, &bundle, &[]).unwrap();
    let mut reached = 0;
    for (j, slot) in tree.by_destination.iter().enumerate() {
        if let Some(stage) = slot {
            reached += 1;
            let path = stage.collect_path();
            if j == 0 {
                assert!(path.is_empty());
            } else {
                assert_eq!(path[0].tx_node, 0);
                assert_eq!(path[path.len() - 1].rx_node as usize, j);
            }
            let walked = dry_run_unicast_path(&bundle, t(5.0), 0, &path, &graph).unwrap();
            assert_eq!(walked.at_time, stage.at_time);
        }
    }
    assert_eq!(reached, 5);
    // node 4 is reached through 0 -> 1 -> 3 -> 4, leaving node 0 at 5: one
    // time unit on 0 -> 1, then 0.01 on each of the two others
    assert_eq!(tree.by_destination[4].as_ref().unwrap().at_time, t(6.02));
}

#[test]
fn pathfinding_keeps_the_stage_its_distance_prefers() {
    // node 2 is reached directly at 26 (one hop) or through node 1 at 1.01 (two hops)
    let graph = Multigraph::new(make_cp());
    let bundle = make_bundle(2, 1, 1.0, 1000.0);
    let mut by_hops = NodeParentingTree::<NoManagement, EVLManager, Hop>::new();
    let tree = by_hops.get_next(&graph, t(0.0), 0, &bundle, &[]).unwrap();
    let st = tree.by_destination[2].as_ref().unwrap();
    assert_eq!((st.hop_count, st.at_time), (1, t(26.0)));
    let mut by_arrival = NodeParentingTree::<NoManagement, EVLManager, SABR>::new();
    let tree = by_arrival.get_next(&graph, t(0.0), 0, &bundle, &[]).unwrap();
    let st = tree.by_destination[2].as_ref().unwrap();
    assert_eq!((st.hop_count, st.at_time), (2, t(1.01)));
}

#[test]
fn pathfinding_with_exclusions_never_goes_through_an_excluded_node() {
    let graph = Multigraph::new(make_cp());
    let bundle = make_bundle(4, 1, 1.0, 1000.0);
    let mut pf = NodeParentingTreeExcl::<NoManagement, EVLManager, Hop>::new();
    let tree = pf.get_next(&graph, t(0.0), 0, &bundle, &[1]).unwrap();
    assert!(tree.by_destination[1].is_none());
    assert!(tree.by_destination[3].is_none());
    assert!(tree.by_destination[4].is_none());
    assert_eq!(tree.by_destination[2].as_ref().unwrap().at_time, t(26.0));
}

#[test]
fn multicast_books_a_shared_hop_once_and_continues_from_it() -> Result<(), ASABRError> {
    // 3 is reached through 0 -> 1 -> 3 and 4 through 0 -> 1 -> 3 -> 4: the
    // route towards 4 continues from the hops already booked towards 3
    let mut spsn = make_spsn(false);
    let bundle = make_multicast_bundle(vec![3, 4], 1, 1.0, 1000.0);
    let out = spsn.route(0, &bundle, t(0.0), &[])?.unwrap();
    assert_eq!(out.first_hops.len(), 1);
    assert_eq!((out.first_hops[0].contact.tx_node, out.first_hops[0].contact.rx_node), (0, 1));
    let stages = &out.first_hops[0].stages;
    assert_eq!(stages.len(), 2);
    assert_eq!((stages[0].to_node, stages[0].at_time), (3, t(1.01)));
    assert_eq!((stages[1].to_node, stages[1].at_time), (4, t(1.02)));
    Ok(())
}

