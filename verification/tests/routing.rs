use bpa::eid::{Eid, IpnNodeId, NodeIds};
use bpa::pattern::{EidPattern, EidPatternItem, NumberRange, TextPattern};
use bpa::routing::action::{Action, InternalAction, ReasonCode, RouteAction, Service};
use bpa::routing::entry::Entry;
use bpa::routing::lookup::LookupResult;
use bpa::routing::table::{flatten, Error, RouteTable};
use bpa::routing::trail::RecursionTrail;
use std::collections::{BTreeSet, HashSet};
use std::sync::Arc;

fn number(text: &str) -> NumberRange {
    if text == "*" {
        NumberRange::any()
    } else {
        NumberRange::exact(text.parse().unwrap())
    }
}

fn item(text: &str) -> EidPatternItem {
    if let Some(rest) = text.strip_prefix("ipn:") {
        if rest == "**" {
            return EidPatternItem::Ipn {
                allocator_id: NumberRange::any(),
                node_number: NumberRange::any(),
                service_number: NumberRange::any(),
            };
        }
        let parts: Vec<&str> = rest.split('.').collect();
        let (allocator_id, node, service) = if parts.len() == 3 {
            (number(parts[0]), parts[1], parts[2])
        } else {
            (NumberRange::exact(0), parts[0], parts[1])
        };
        EidPatternItem::Ipn {
            allocator_id,
            node_number: number(node),
            service_number: number(service),
        }
    } else {
        let rest = text.strip_prefix("dtn://").unwrap();
        let (node, service) = rest.split_once('/').unwrap();
        EidPatternItem::Dtn {
            node_name: TextPattern::Exact(node.to_string()),
            service_name: if service == "**" {
                TextPattern::Any
            } else {
                TextPattern::Exact(service.to_string())
            },
        }
    }
}

fn pattern(text: &str) -> EidPattern {
    if text == "*:**" {
        EidPattern::Any
    } else {
        EidPattern::Union(text.split('|').map(item).collect())
    }
}

fn eid(text: &str) -> Eid {
    if let Some(rest) = text.strip_prefix("ipn:") {
        let parts: Vec<u32> = rest.split('.').map(|p| p.parse().unwrap()).collect();
        let (allocator_id, node_number, service_number) = if parts.len() == 3 {
            (parts[0], parts[1], parts[2])
        } else {
            (0, parts[0], parts[1])
        };
        Eid::Ipn {
            fqnn: IpnNodeId {
                allocator_id,
                node_number,
            },
            service_number,
        }
    } else {
        let rest = text.strip_prefix("dtn://").unwrap();
        let (node, service) = rest.split_once('/').unwrap();
        Eid::Dtn {
            node_name: node.to_string(),
            service_name: service.to_string(),
        }
    }
}

fn make_table() -> RouteTable {
    RouteTable::new(Arc::new(NodeIds {
        ipn: Some(IpnNodeId {
            allocator_id: 0,
            node_number: 1,
        }),
        dtn: None,
    }))
}

fn entry(action: Action, source: &str) -> Entry {
    Entry {
        action,
        source: source.to_string(),
    }
}

fn via(to: &str) -> Action {
    Action::Route(RouteAction::Via(eid(to)))
}

fn forward(peer: u32) -> Action {
    Action::Internal(InternalAction::Forward(peer))
}

fn local(service_id: &str) -> Action {
    Action::Internal(InternalAction::Local(Arc::new(Service {
        service_id: service_id.to_string(),
    })))
}

fn has_priority(table: &RouteTable, priority: u32) -> bool {
    table.routes().iter().any(|r| r.priority == priority)
}

#[test]
fn test_admin_endpoint_at_construction() {
    let table = make_table();

    let admin_pattern = EidPattern::exact(&Eid::Ipn {
        fqnn: IpnNodeId {
            allocator_id: 0,
            node_number: 1,
        },
        service_number: 0,
    });
    let admin_actions: Vec<_> = table
        .routes()
        .iter()
        .filter(|r| r.priority == 0 && r.pattern == admin_pattern)
        .collect();
    assert!(admin_actions.iter().any(|r| matches!(
        r.entry.action,
        Action::Internal(InternalAction::AdminEndpoint)
    )));
}

#[test]
fn test_insert_and_remove() {
    let mut table = make_table();
    let e = entry(Action::Internal(InternalAction::Forward(42)), "neighbours");
    assert!(table.insert(pattern("ipn:0.2.*"), e.clone(), 0).unwrap());

    assert!(table.remove(&pattern("ipn:0.2.*"), &e, 0));
}

#[test]
fn test_impacted_subsets() {
    let mut table = make_table();

    table
        .insert(
            pattern("ipn:*.*"),
            entry(Action::Route(RouteAction::Via(eid("ipn:0.2.0"))), "src"),
            10,
        )
        .unwrap();
    table
        .insert(
            pattern("ipn:0.3.*"),
            entry(Action::Route(RouteAction::Drop(None)), "src"),
            20,
        )
        .unwrap();

    assert!(has_priority(&table, 10));
    assert!(has_priority(&table, 20));
}

#[test]
fn test_local_action_sort() {
    let admin = Action::Internal(InternalAction::AdminEndpoint);
    let forward_1 = Action::Internal(InternalAction::Forward(1));
    let forward_2 = Action::Internal(InternalAction::Forward(2));

    assert!(admin < forward_1);
    assert!(forward_1 < forward_2);

    let mut set = BTreeSet::new();
    set.insert(forward_2.clone());
    set.insert(admin.clone());
    set.insert(forward_1.clone());

    let sorted: Vec<_> = set.into_iter().collect();
    assert_eq!(sorted[0], admin);
    assert_eq!(sorted[1], forward_1);
    assert_eq!(sorted[2], forward_2);
}

#[test]
fn test_action_precedence() {
    let drop_entry = entry(Action::Route(RouteAction::Drop(None)), "a");
    let reflect_entry = entry(Action::Route(RouteAction::Reflect), "a");
    let via_entry = entry(Action::Route(RouteAction::Via(eid("ipn:1.0"))), "a");

    assert!(drop_entry < reflect_entry);
    assert!(reflect_entry < via_entry);
    assert!(drop_entry < via_entry);
}

#[test]
fn test_route_entry_sort() {
    let mut set = BTreeSet::new();

    set.insert(entry(
        Action::Route(RouteAction::Via(eid("ipn:2.0"))),
        "src1",
    ));
    set.insert(entry(
        Action::Route(RouteAction::Via(eid("ipn:1.0"))),
        "src1",
    ));
    set.insert(entry(Action::Route(RouteAction::Drop(None)), "src1"));
    set.insert(entry(Action::Route(RouteAction::Reflect), "src1"));

    let sorted: Vec<_> = set.into_iter().collect();
    assert!(matches!(
        sorted[0].action,
        Action::Route(RouteAction::Drop(_))
    ));
    assert!(matches!(
        sorted[1].action,
        Action::Route(RouteAction::Reflect)
    ));
    assert!(matches!(
        sorted[2].action,
        Action::Route(RouteAction::Via(_))
    ));
    assert!(matches!(
        sorted[3].action,
        Action::Route(RouteAction::Via(_))
    ));
}

#[test]
fn test_entry_source_tiebreak() {
    let a = entry(Action::Route(RouteAction::Reflect), "alpha");
    let b = entry(Action::Route(RouteAction::Reflect), "beta");
    assert!(a < b);
}

#[test]
fn test_entry_dedup() {
    let mut set = BTreeSet::new();
    let e1 = entry(Action::Route(RouteAction::Reflect), "src");
    let e2 = entry(Action::Route(RouteAction::Reflect), "src");
    assert!(set.insert(e1));
    assert!(!set.insert(e2));
}

#[test]
fn test_union_route_member_specificity() {
    let mut table = make_table();

    // A union pairing a specific member with a broad one: the broad
    // member must not drag the specific member's selection rank down.
    let union: EidPattern = pattern("ipn:0.2.*|ipn:**");
    let union_entry = entry(Action::Internal(InternalAction::Forward(1)), "union");
    assert!(table
        .insert(union.clone(), union_entry.clone(), 10)
        .unwrap());

    // Strictly broader than the union's ipn:0.2.* member, strictly
    // narrower than its ipn:** member.
    table
        .insert(
            pattern("ipn:0.*.*"),
            entry(Action::Internal(InternalAction::Forward(2)), "broad"),
            10,
        )
        .unwrap();

    // ipn:0.2.5 matches both routes; the union's matching member is the
    // most specific pattern in the table and must win.
    let to: Eid = eid("ipn:0.2.5");
    match table.find_recurse(&to, false, &mut RecursionTrail::new()) {
        Some(LookupResult::Forward(peer, _)) => assert_eq!(peer, 1),
        other => panic!("unexpected lookup result: {other:?}"),
    }

    // The union's broad member routes independently.
    let elsewhere: Eid = eid("ipn:7.7.7");
    match table.find_recurse(&elsewhere, false, &mut RecursionTrail::new()) {
        Some(LookupResult::Forward(peer, _)) => assert_eq!(peer, 1),
        other => panic!("unexpected lookup result: {other:?}"),
    }

    // Removing the union removes every member.
    assert!(table.remove(&union, &union_entry, 10));
    assert!(table
        .find_recurse(&elsewhere, false, &mut RecursionTrail::new())
        .is_none());
    match table.find_recurse(&to, false, &mut RecursionTrail::new()) {
        Some(LookupResult::Forward(peer, _)) => assert_eq!(peer, 2),
        other => panic!("unexpected lookup result: {other:?}"),
    };
}

#[test]
fn test_validate_null_next_hop() {
    let mut table = make_table();
    let result = table.insert(
        pattern("ipn:0.2.*"),
        entry(Action::Route(RouteAction::Via(Eid::Null)), "test"),
        10,
    );
    assert!(
        matches!(result, Err(Error::NullNextHop)),
        "Via null endpoint should be rejected, got {result:?}"
    );
}

#[test]
fn test_validate_via_own_node() {
    let mut table = make_table();
    let result = table.insert(
        pattern("ipn:0.99.*"),
        entry(Action::Route(RouteAction::Via(eid("ipn:0.1.0"))), "test"),
        10,
    );
    assert!(
        matches!(result, Err(Error::ViaOwnNode(_))),
        "Via own node should be rejected, got {result:?}"
    );
}

#[test]
fn test_allow_default_route() {
    let mut table = make_table();
    let result = table.insert(
        pattern("*:**"),
        entry(Action::Route(RouteAction::Via(eid("ipn:0.2.0"))), "test"),
        10,
    );
    assert!(
        matches!(result, Ok(true)),
        "Default route should be accepted, got {result:?}"
    );
}

#[test]
fn test_impacted_vias_capacity_optimization() {
    let mut table = make_table();

    // Add many routes at different priorities
    for i in 0..10 {
        table
            .insert(
                pattern(&format!("ipn:0.{}.0", i + 10)),
                entry(
                    Action::Route(RouteAction::Via(eid(&format!("ipn:0.{}.0", i + 20)))),
                    "test",
                ),
                i,
            )
            .unwrap();
    }

    let all: EidPattern = pattern("ipn:*.*");
    let vias = table.impacted_vias(&all, 5);

    // Should find vias from priority 5 and higher (priorities 5,6,7,8,9)
    assert_eq!(vias.len(), 5);

    // Test that all expected vias are present
    for i in 5..10 {
        let expected_via: Eid = eid(&format!("ipn:0.{}.0", i + 20));
        assert!(
            vias.contains(&expected_via),
            "Missing via for priority {}",
            i
        );
    }
}

#[test]
fn test_impacted_vias_empty_table() {
    let table = make_table();
    let all: EidPattern = pattern("ipn:*.*");
    let vias = table.impacted_vias(&all, 0);

    // Empty table should return empty set without panicking
    assert!(vias.is_empty());
}

#[test]
fn test_impacted_vias_no_matching_priorities() {
    let mut table = make_table();

    // Add routes at low priorities
    for i in 0..5 {
        table
            .insert(
                pattern(&format!("ipn:0.{}.0", i + 10)),
                entry(
                    Action::Route(RouteAction::Via(eid(&format!("ipn:0.{}.0", i + 20)))),
                    "test",
                ),
                i,
            )
            .unwrap();
    }

    let all: EidPattern = pattern("ipn:*.*");
    // Query for priority higher than any existing routes
    let vias = table.impacted_vias(&all, 10);

    // Should return empty set when no routes match priority criteria
    assert!(vias.is_empty());
}

#[test]
fn test_flatten_performance_with_single_pattern() {
    let single_pattern: EidPattern = pattern("ipn:0.1.0");
    let flattened = flatten(single_pattern.clone());

    assert_eq!(flattened.len(), 1);
    assert_eq!(flattened[0], single_pattern);

    // Test with different pattern types
    let wildcard_pattern: EidPattern = pattern("ipn:*.*");
    let flattened = flatten(wildcard_pattern.clone());
    assert_eq!(flattened.len(), 1);
    assert_eq!(flattened[0], wildcard_pattern);
}

#[test]
fn test_flatten_performance_with_union_patterns() {
    // The union of 0.10.0, 0.20.0 and 0.30.0
    let union_pattern = EidPattern::Union(vec![
        item("ipn:0.10.0"),
        item("ipn:0.20.0"),
        item("ipn:0.30.0"),
    ]);
    let flattened = flatten(union_pattern);
    assert_eq!(flattened.len(), 3);

    // Verify each member is correctly flattened
    let expected_patterns = [
        pattern("ipn:0.10.0"),
        pattern("ipn:0.20.0"),
        pattern("ipn:0.30.0"),
    ];

    for expected in &expected_patterns {
        assert!(
            flattened.iter().any(|p| {
                if let (EidPattern::Union(a), EidPattern::Union(b)) = (p, expected) {
                    a.len() == 1 && b.len() == 1 && a.iter().next() == b.iter().next()
                } else {
                    false
                }
            }),
            "Missing expected pattern: {:?}",
            expected
        );
    }

    let single: EidPattern = pattern("ipn:0.10.0");
    let flattened = flatten(single);
    assert_eq!(
        flattened.len(),
        1,
        "Single pattern should flatten to one element"
    );
}

#[test]
fn test_flatten_single_item_union() {
    // Edge case: union with single item should behave like single pattern
    let single_pattern: EidPattern = pattern("ipn:0.10.0");
    let flattened = flatten(single_pattern);

    // Single pattern should not be split
    assert_eq!(flattened.len(), 1);
}

#[test]
fn test_recursion_trail_basic_operations() {
    let trail = RecursionTrail::new();
    assert!(matches!(trail, RecursionTrail::Small(_)));
}

#[test]
fn test_container_optimization_structures() {
    let mut table = make_table();

    for i in 2..=7 {
        let result = table.insert(
            pattern(&format!("ipn:0.{}.0", i + 90)),
            entry(
                Action::Route(RouteAction::Via(eid(&format!("ipn:0.{}.0", i)))),
                "test",
            ),
            0,
        );
        assert!(
            result.is_ok(),
            "Failed to insert route for peer {}: {:?}",
            i,
            result
        );
    }

    assert!(!table.routes().is_empty(), "Routes should be inserted");

    let all: EidPattern = pattern("ipn:*.*");
    let vias = table.impacted_vias(&all, 0);

    // Should find some vias from our inserted routes
    assert!(vias.len() > 0, "Should find vias from inserted routes");
}

#[test]
fn test_routing_table_efficiency_optimizations() {
    let mut table = make_table();

    let route_count = 20;

    for i in 0..route_count {
        let result = table.insert(
            pattern(&format!("ipn:0.{}.0", i + 100)),
            entry(
                Action::Route(RouteAction::Via(eid(&format!("ipn:0.{}.0", i + 200)))),
                "perf_test",
            ),
            i % 5,
        );
        assert!(result.is_ok(), "Failed to insert route {}: {:?}", i, result);
    }

    assert!(
        !table.routes().is_empty(),
        "Routes should be populated after insertions"
    );

    let start = std::time::Instant::now();

    let all: EidPattern = pattern("ipn:*.*");
    for _i in 0..10 {
        let _vias = table.impacted_vias(&all, 0);
    }

    let elapsed = start.elapsed();

    assert!(
        elapsed.as_millis() < 10,
        "Impacted vias calculations took too long: {:?}ms",
        elapsed.as_millis()
    );

    let test_patterns = [
        pattern("ipn:0.10.0"),
        pattern("ipn:0.20.0"),
        pattern("ipn:*.*"),
    ];

    let start = std::time::Instant::now();
    for p in &test_patterns {
        let _flattened = flatten(p.clone());
    }
    let elapsed = start.elapsed();

    assert!(
        elapsed.as_millis() < 5,
        "Pattern flattening took too long: {:?}ms",
        elapsed.as_millis()
    );
}

#[test]
fn test_impacted_vias_large_route_table() {
    let mut table = make_table();

    for priority in 0..20 {
        for subnet in 0..10 {
            table
                .insert(
                    pattern(&format!("ipn:0.{}.0", subnet + 100)),
                    entry(
                        Action::Route(RouteAction::Via(eid(&format!("ipn:0.{}.0", subnet + 200)))),
                        "large_test",
                    ),
                    priority,
                )
                .unwrap();
        }
    }

    // Test impacted_vias with different priority thresholds
    let all: EidPattern = pattern("ipn:*.*");

    // High priority threshold - should find fewer vias
    let high_priority_vias = table.impacted_vias(&all, 15);
    assert!(
        high_priority_vias.len() <= 10 * 5, // max 10 vias per priority * 5 priorities (15-19)
        "Too many vias for high priority threshold: {}",
        high_priority_vias.len()
    );

    // Low priority threshold - should find more vias
    let low_priority_vias = table.impacted_vias(&all, 0);
    assert!(
        low_priority_vias.len() <= 10, // Should be exactly 10 unique vias (one per subnet)
        "Unexpected via count for low priority: {}",
        low_priority_vias.len()
    );
    assert_eq!(low_priority_vias.len(), 10);

    let medium_priority_vias = table.impacted_vias(&all, 5);
    assert!(
        !medium_priority_vias.is_empty(),
        "Should find some vias for medium priority"
    );
}

#[test]
fn test_memory_efficient_pattern_handling() {
    let patterns = [
        pattern("ipn:0.1.0"),
        pattern("ipn:*.*"),
        pattern("dtn://example.com/test"),
    ];

    for p in &patterns {
        let flattened = flatten(p.clone());
        assert_eq!(
            flattened.len(),
            1,
            "Single pattern should flatten to exactly one item: {:?}",
            p
        );
        assert_eq!(
            flattened[0], *p,
            "Flattened pattern should equal original: {:?}",
            p
        );
    }

    let large_pattern_str = "ipn:*.*";
    let large_pattern: EidPattern = pattern(large_pattern_str);
    let flattened = flatten(large_pattern.clone());

    assert_eq!(
        flattened.len(),
        1,
        "Wildcard pattern should flatten to 1 pattern"
    );

    assert_eq!(
        flattened[0], large_pattern,
        "Flattened wildcard should equal original"
    );

    let test_patterns = [
        pattern("ipn:0.10.0"),
        pattern("ipn:0.20.0"),
        pattern("ipn:0.30.0"),
        pattern("ipn:0.40.0"),
        pattern("ipn:0.50.0"),
        pattern("ipn:0.60.0"),
        pattern("ipn:0.70.0"),
        pattern("ipn:0.80.0"),
    ];

    // Verify no duplicates and correct flattening behavior for multiple patterns
    for (i, p) in test_patterns.iter().enumerate() {
        let flattened = flatten(p.clone());
        assert_eq!(
            flattened.len(),
            1,
            "Pattern {} should flatten to exactly one item",
            i
        );
        assert_eq!(
            flattened[0], *p,
            "Flattened pattern {} should equal original",
            i
        );
    }
}

#[test]
fn new_table_serves_admin_and_nothing_else() {
    let table = RouteTable::new(Arc::new(NodeIds {
        ipn: Some(IpnNodeId {
            allocator_id: 0,
            node_number: 1,
        }),
        dtn: Some("me".to_string()),
    }));
    assert_eq!(table.routes().len(), 2);
    for admin in [eid("ipn:0.1.0"), eid("dtn://me/")] {
        assert!(matches!(
            table.find_recurse(&admin, false, &mut RecursionTrail::new()),
            Some(LookupResult::AdminEndpoint)
        ));
    }
    assert!(table
        .find_recurse(&eid("ipn:0.1.7"), true, &mut RecursionTrail::new())
        .is_none());
    assert!(table
        .routes()
        .iter()
        .all(|r| r.entry.source == "administrative endpoint"));
}

#[test]
fn insert_twice_is_told() {
    let mut table = make_table();
    let e = entry(forward(1), "a");
    assert!(table.insert(pattern("ipn:0.2.*"), e.clone(), 3).unwrap());
    assert!(!table.insert(pattern("ipn:0.2.*"), e.clone(), 3).unwrap());
    assert!(table.insert(pattern("ipn:0.2.*"), e.clone(), 4).unwrap());
    // One new member is enough.
    assert!(table
        .insert(pattern("ipn:0.2.*|ipn:0.3.*"), e.clone(), 3)
        .unwrap());
    assert_eq!(table.routes().len(), 4);
}

#[test]
fn remove_undoes_insert_and_misses_are_told() {
    let mut table = make_table();
    let before: Vec<(u32, EidPattern, Entry)> = table
        .routes()
        .iter()
        .map(|r| (r.priority, r.pattern.clone(), r.entry.clone()))
        .collect();
    let e = entry(via("ipn:0.9.0"), "a");
    table
        .insert(pattern("ipn:0.2.*|ipn:0.3.*"), e.clone(), 3)
        .unwrap();
    assert!(!table.remove(&pattern("ipn:0.2.*"), &e, 4));
    assert!(!table.remove(&pattern("ipn:0.2.*"), &entry(forward(1), "a"), 3));
    assert!(table.remove(&pattern("ipn:0.2.*|ipn:0.3.*"), &e, 3));
    assert!(!table.remove(&pattern("ipn:0.2.*|ipn:0.3.*"), &e, 3));
    let after: Vec<(u32, EidPattern, Entry)> = table
        .routes()
        .iter()
        .map(|r| (r.priority, r.pattern.clone(), r.entry.clone()))
        .collect();
    assert_eq!(before, after);
}

#[test]
fn order_does_not_depend_on_insertion() {
    let routes = [
        ("ipn:0.2.*", forward(2), "a", 5),
        ("ipn:0.2.7", forward(1), "a", 5),
        ("ipn:**", via("ipn:0.9.0"), "b", 1),
        ("*:**", Action::Route(RouteAction::Reflect), "b", 5),
        ("ipn:0.2.*", forward(1), "c", 5),
    ];
    let mut forwards = make_table();
    for (p, a, s, n) in routes.iter() {
        forwards.insert(pattern(p), entry(a.clone(), s), *n).unwrap();
    }
    let mut backwards = make_table();
    for (p, a, s, n) in routes.iter().rev() {
        backwards.insert(pattern(p), entry(a.clone(), s), *n).unwrap();
    }
    let list = |t: &RouteTable| -> Vec<(u32, EidPattern, Entry)> {
        t.routes()
            .iter()
            .map(|r| (r.priority, r.pattern.clone(), r.entry.clone()))
            .collect()
    };
    assert_eq!(list(&forwards), list(&backwards));
    assert_eq!(list(&forwards), list(&forwards.clone()));
    let priorities: Vec<u32> = forwards.routes().iter().map(|r| r.priority).collect();
    assert_eq!(priorities, vec![0, 1, 5, 5, 5, 5]);
    assert_eq!(forwards.routes()[2].pattern, pattern("ipn:0.2.7"));
    assert_eq!(forwards.routes()[5].pattern, EidPattern::Any);
}

#[test]
fn remove_by_source_takes_all_of_one_source() {
    let mut table = make_table();
    table
        .insert(pattern("ipn:0.2.*"), entry(via("ipn:0.9.0"), "gone"), 1)
        .unwrap();
    table
        .insert(pattern("ipn:0.3.*"), entry(via("ipn:0.9.0"), "gone"), 1)
        .unwrap();
    table
        .insert(pattern("ipn:0.4.*"), entry(forward(7), "gone"), 1)
        .unwrap();
    table
        .insert(pattern("ipn:0.4.*"), entry(forward(8), "stays"), 1)
        .unwrap();
    table
        .insert(
            pattern("ipn:0.5.*"),
            entry(Action::Route(RouteAction::Drop(None)), "gone"),
            1,
        )
        .unwrap();
    let (vias, peers, has_local, removed) = table.remove_by_source("gone");
    assert_eq!(vias, vec![eid("ipn:0.9.0")]);
    assert_eq!(peers, HashSet::from([7]));
    assert!(!has_local);
    assert_eq!(removed, 4);
    assert_eq!(table.routes().len(), 2);

    table
        .insert(pattern("ipn:0.1.5"), entry(local("svc"), "more"), 1)
        .unwrap();
    let (vias, peers, has_local, removed) = table.remove_by_source("more");
    assert!(vias.is_empty() && peers.is_empty());
    assert!(has_local);
    assert_eq!(removed, 1);
    let (_, _, has_local, removed) = table.remove_by_source("nobody");
    assert!(!has_local);
    assert_eq!(removed, 0);
}

#[test]
fn equal_routes_share_in_ascending_order() {
    let mut table = make_table();
    for (peer, source) in [(9, "a"), (3, "b"), (9, "c"), (5, "a")] {
        table
            .insert(pattern("ipn:0.2.*"), entry(forward(peer), source), 1)
            .unwrap();
    }
    table
        .insert(pattern("ipn:0.*.*"), entry(forward(1), "a"), 1)
        .unwrap();
    let to = eid("ipn:0.2.5");
    match table.find_recurse(&to, false, &mut RecursionTrail::new()) {
        Some(LookupResult::ForwardEcmp(peers)) => {
            assert_eq!(peers.into_vec(), vec![(3, &to), (5, &to), (9, &to)]);
        }
        other => panic!("unexpected lookup result: {other:?}"),
    }
    assert_eq!(table.find_peers(&to), Some(HashSet::from([3, 5, 9])));
    assert_eq!(
        table.find_peers(&eid("ipn:0.3.0")),
        Some(HashSet::from([1]))
    );
    assert_eq!(table.find_peers(&eid("dtn://x/y")), None);
}

#[test]
fn via_carries_the_neighbour_up() {
    let mut table = make_table();
    table
        .insert(pattern("ipn:0.50.*"), entry(via("ipn:0.40.0"), "a"), 1)
        .unwrap();
    table
        .insert(pattern("ipn:0.40.*"), entry(via("ipn:0.30.0"), "a"), 1)
        .unwrap();
    table
        .insert(pattern("ipn:0.30.*"), entry(forward(3), "a"), 1)
        .unwrap();
    let to = eid("ipn:0.50.1");
    let mut trail = RecursionTrail::new();
    match table.find_recurse(&to, false, &mut trail) {
        Some(LookupResult::Forward(peer, next_hop)) => {
            assert_eq!(peer, 3);
            assert_eq!(*next_hop, eid("ipn:0.30.0"));
        }
        other => panic!("unexpected lookup result: {other:?}"),
    }
    // Nothing is left on the trail.
    assert!(!trail.remove(&to));
    drop(trail);
    // A second route of the same rank joins in.
    table
        .insert(pattern("ipn:0.50.*"), entry(forward(2), "a"), 1)
        .unwrap();
    match table.find_recurse(&to, false, &mut RecursionTrail::new()) {
        Some(LookupResult::ForwardEcmp(peers)) => {
            let via = eid("ipn:0.30.0");
            assert_eq!(peers.into_vec(), vec![(2, &to), (3, &via)]);
        }
        other => panic!("unexpected lookup result: {other:?}"),
    }
    // Several peers behind a route are all taken over.
    table
        .insert(pattern("ipn:0.30.*"), entry(forward(1), "a"), 1)
        .unwrap();
    assert_eq!(table.find_peers(&to), Some(HashSet::from([1, 2, 3])));
}

#[test]
fn loops_find_nothing_and_do_not_hang() {
    let mut table = make_table();
    let n = 8;
    for i in 0..n {
        table
            .insert(
                pattern(&format!("ipn:0.{}.*", 10 + i)),
                entry(via(&format!("ipn:0.{}.0", 10 + (i + 1) % n)), "ring"),
                1,
            )
            .unwrap();
    }
    let to = eid("ipn:0.10.0");
    assert!(table
        .find_recurse(&to, false, &mut RecursionTrail::new())
        .is_none());
    // A way out of the ring is found from anywhere in it.
    table
        .insert(pattern("ipn:0.14.*"), entry(forward(6), "out"), 2)
        .unwrap();
    assert_eq!(table.find_peers(&to), Some(HashSet::from([6])));
    assert_eq!(
        table.find_peers(&eid("ipn:0.15.3")),
        Some(HashSet::from([6]))
    );
}

#[test]
fn drop_and_reflect() {
    let mut table = make_table();
    table
        .insert(
            pattern("ipn:0.2.*"),
            entry(Action::Route(RouteAction::Drop(Some(ReasonCode(7)))), "a"),
            1,
        )
        .unwrap();
    table
        .insert(
            pattern("ipn:0.3.*"),
            entry(Action::Route(RouteAction::Reflect), "a"),
            1,
        )
        .unwrap();
    table
        .insert(pattern("ipn:0.4.*"), entry(via("ipn:0.2.0"), "a"), 1)
        .unwrap();
    for to in ["ipn:0.2.1", "ipn:0.4.1"] {
        assert!(matches!(
            table.find_recurse(&eid(to), false, &mut RecursionTrail::new()),
            Some(LookupResult::Drop(Some(ReasonCode(7))))
        ));
    }
    let to = eid("ipn:0.3.1");
    assert!(matches!(
        table.find_recurse(&to, true, &mut RecursionTrail::new()),
        Some(LookupResult::Reflect)
    ));
    assert!(table
        .find_recurse(&to, false, &mut RecursionTrail::new())
        .is_none());
    // A later route counts where reflecting is not asked for.
    table
        .insert(pattern("ipn:0.3.*"), entry(forward(4), "a"), 2)
        .unwrap();
    assert_eq!(table.find_peers(&to), Some(HashSet::from([4])));
}

#[test]
fn services_are_found() {
    let mut table = make_table();
    assert!(table.find_service(&eid("ipn:0.1.5")).is_none());
    table
        .insert(pattern("ipn:0.1.*"), entry(local("broad"), "a"), 1)
        .unwrap();
    table
        .insert(pattern("ipn:0.1.5"), entry(local("narrow"), "a"), 1)
        .unwrap();
    assert_eq!(
        table.find_service(&eid("ipn:0.1.5")).unwrap().service_id,
        "narrow"
    );
    assert_eq!(
        table.find_service(&eid("ipn:0.1.6")).unwrap().service_id,
        "broad"
    );
    let to = eid("ipn:0.1.5");
    match table.find_recurse(&to, false, &mut RecursionTrail::new()) {
        Some(LookupResult::Deliver(service)) => assert_eq!(service.service_id, "narrow"),
        other => panic!("unexpected lookup result: {other:?}"),
    }
    // An earlier priority hides a narrower pattern.
    table
        .insert(
            pattern("ipn:0.1.*"),
            entry(Action::Route(RouteAction::Drop(None)), "a"),
            0,
        )
        .unwrap();
    assert!(matches!(
        table.find_recurse(&to, false, &mut RecursionTrail::new()),
        Some(LookupResult::Drop(None))
    ));
}

#[test]
fn own_node_is_refused_by_name_too() {
    let mut table = RouteTable::new(Arc::new(NodeIds {
        ipn: None,
        dtn: Some("me".to_string()),
    }));
    match table.insert(pattern("*:**"), entry(via("dtn://me/x"), "a"), 1) {
        Err(Error::ViaOwnNode(next_hop)) => assert_eq!(next_hop, eid("dtn://me/x")),
        other => panic!("unexpected result: {other:?}"),
    }
    assert!(matches!(
        table.insert(pattern("*:**"), entry(via("dtn://you/x"), "a"), 1),
        Ok(true)
    ));
    assert!(matches!(
        table.insert(pattern("*:**"), entry(via("ipn:0.1.0"), "a"), 1),
        Ok(true)
    ));
}

#[test]
fn trail_grows_past_four_and_remembers() {
    let eids: Vec<Eid> = (0..7).map(|i| eid(&format!("ipn:0.{}.0", i))).collect();
    let mut trail = RecursionTrail::new();
    for (i, e) in eids.iter().enumerate() {
        assert!(trail.insert(e));
        assert!(!trail.insert(e));
        assert_eq!(matches!(trail, RecursionTrail::Small(_)), i < 4);
    }
    for e in &eids {
        assert!(trail.remove(e));
        assert!(!trail.remove(e));
    }
    assert!(trail.insert(&eids[0]));
    assert!(matches!(trail, RecursionTrail::Large(_)));
    let mut small = RecursionTrail::new();
    assert!(small.insert(&eids[0]) && small.insert(&eids[1]) && small.insert(&eids[2]));
    assert!(small.remove(&eids[0]));
    assert!(small.insert(&eids[0]));
    assert!(!small.insert(&eids[1]) && !small.insert(&eids[2]));
    assert!(matches!(small, RecursionTrail::Small(_)));
}

#[test]
fn patterns_take_and_contain() {
    assert!(pattern("ipn:0.2.*").matches(&eid("ipn:0.2.9")));
    assert!(!pattern("ipn:0.2.*").matches(&eid("ipn:0.3.9")));
    assert!(!pattern("ipn:0.2.*").matches(&Eid::Null));
    assert!(pattern("*:**").matches(&Eid::Null));
    assert!(pattern("dtn://a/**").matches(&eid("dtn://a/b")));
    assert!(!pattern("dtn://a/**").matches(&eid("dtn://b/b")));
    assert!(pattern("ipn:0.2.*|dtn://a/b").matches(&eid("dtn://a/b")));
    assert!(pattern("ipn:0.2.5").is_subset(&pattern("ipn:0.2.*")));
    assert!(!pattern("ipn:0.2.*").is_subset(&pattern("ipn:0.2.5")));
    assert!(pattern("ipn:0.2.5|dtn://a/b").is_subset(&pattern("dtn://a/**|ipn:**")));
    assert!(!pattern("*:**").is_subset(&pattern("ipn:**")));
    assert!(pattern("ipn:**").is_subset(&pattern("*:**")));
    let exact = EidPattern::exact(&eid("dtn://a/b"));
    assert!(exact.matches(&eid("dtn://a/b")));
    assert!(!exact.matches(&eid("dtn://a/c")));
}

#[test]
fn actions_are_ranked_by_kind() {
    let ranked = [
        Action::Internal(InternalAction::AdminEndpoint),
        local("a"),
        local("b"),
        forward(1),
        forward(2),
        Action::Route(RouteAction::Drop(None)),
        Action::Route(RouteAction::Drop(Some(ReasonCode(1)))),
        Action::Route(RouteAction::Drop(Some(ReasonCode(2)))),
        Action::Route(RouteAction::Reflect),
        via("ipn:0.1.0"),
        via("ipn:0.2.0"),
        via("dtn://a/b"),
    ];
    for (i, a) in ranked.iter().enumerate() {
        for (j, b) in ranked.iter().enumerate() {
            assert_eq!(a < b, i < j);
            assert_eq!(a == b, i == j);
            assert_eq!(a.cmp(b), i.cmp(&j));
        }
    }
}

#[test]
fn an_acting_route_behind_a_loop_is_found() {
    let mut table = make_table();
    table
        .insert(pattern("ipn:0.2.*"), entry(via("ipn:0.2.0"), "loop"), 1)
        .unwrap();
    let to = eid("ipn:0.2.5");
    assert!(table
        .find_recurse(&to, true, &mut RecursionTrail::new())
        .is_none());
    table
        .insert(pattern("*:**"), entry(forward(8), "default"), 9)
        .unwrap();
    assert_eq!(table.find_peers(&to), Some(HashSet::from([8])));
}

#[test]
fn reflecting_routes_do_not_count_unless_asked_for() {
    let reflecting = [
        ("ipn:0.2.*", 1),
        ("ipn:0.3.*", 1),
        ("ipn:0.4.*", 2),
        ("*:**", 3),
    ];
    let others = [
        ("ipn:0.2.*", forward(1), 1),
        ("ipn:0.2.*", via("ipn:0.3.0"), 1),
        ("ipn:0.3.*", forward(2), 2),
        ("ipn:0.4.*", via("ipn:0.2.0"), 2),
    ];
    let mut without = make_table();
    let mut with = make_table();
    for (p, a, n) in others.iter() {
        without.insert(pattern(p), entry(a.clone(), "s"), *n).unwrap();
        with.insert(pattern(p), entry(a.clone(), "s"), *n).unwrap();
    }
    for (p, n) in reflecting.iter() {
        with.insert(
            pattern(p),
            entry(Action::Route(RouteAction::Reflect), "s"),
            *n,
        )
        .unwrap();
    }
    for to in ["ipn:0.2.1", "ipn:0.3.1", "ipn:0.4.1", "ipn:0.5.1"] {
        assert_eq!(with.find_peers(&eid(to)), without.find_peers(&eid(to)));
    }
    assert_eq!(
        with.find_peers(&eid("ipn:0.4.1")),
        Some(HashSet::from([1, 2]))
    );
}

#[test]
fn nothing_is_found_where_every_route_is_blocked() {
    let mut table = make_table();
    table
        .insert(
            pattern("ipn:0.2.*"),
            entry(Action::Route(RouteAction::Reflect), "s"),
            1,
        )
        .unwrap();
    table
        .insert(pattern("ipn:0.2.*"), entry(via("ipn:0.9.0"), "s"), 1)
        .unwrap();
    table
        .insert(pattern("ipn:0.2.*"), entry(via("ipn:0.2.0"), "s"), 2)
        .unwrap();
    let to = eid("ipn:0.2.0");
    assert!(table
        .find_recurse(&to, false, &mut RecursionTrail::new())
        .is_none());
    assert!(table
        .find_recurse(&to, true, &mut RecursionTrail::new())
        .is_some());
}
