use ratman_core::routes::{RouteEntry, RouteTable, RouteType};
use ratman_core::types::Address;

#[test]
fn local_addresses_first() {
    let mut t = RouteTable::new();
    let a = Address([1; 32]);
    t.add_local(a);
    assert!(t.is_local(&a));
    assert_eq!(t.reachable(&a), Some(RouteType::Local));
}

#[test]
fn unknown_address_has_no_route() {
    let t = RouteTable::new();
    assert_eq!(t.reachable(&Address([3; 32])), None);
}

#[test]
fn route_needs_live_session() {
    let mut t = RouteTable::new();
    let a = Address([2; 32]);
    t.update(a, 0, 5, 0, 100, 10);
    assert_eq!(t.reachable(&a), None);
    t.add_session(0, 5);
    assert_eq!(t.reachable(&a), Some(RouteType::Remote(0, 5)));
    t.remove_session(0, 5);
    assert_eq!(t.reachable(&a), None);
    t.add_session(0, 5);
    assert_eq!(t.reachable(&a), None);
}

#[test]
fn fewer_hops_win() {
    let mut t = RouteTable::new();
    let a = Address([2; 32]);
    t.add_session(0, 1);
    t.add_session(1, 2);
    t.update(a, 0, 1, 3, 100, 10);
    t.update(a, 1, 2, 1, 50, 1);
    assert_eq!(t.reachable(&a), Some(RouteType::Remote(1, 2)));
}

#[test]
fn ties_broken_by_freshness_then_bandwidth() {
    let mut t = RouteTable::new();
    let a = Address([2; 32]);
    t.add_session(0, 1);
    t.add_session(0, 2);
    t.add_session(0, 3);
    t.update(a, 0, 1, 1, 100, 10);
    t.update(a, 0, 2, 1, 200, 10);
    assert_eq!(t.reachable(&a), Some(RouteType::Remote(0, 2)));
    t.update(a, 0, 3, 1, 200, 50);
    assert_eq!(t.reachable(&a), Some(RouteType::Remote(0, 3)));
}

#[test]
fn refresh_replaces_entry() {
    let mut t = RouteTable::new();
    let a = Address([2; 32]);
    t.add_session(0, 1);
    t.add_session(0, 2);
    t.update(a, 0, 1, 4, 100, 10);
    t.update(a, 0, 2, 2, 100, 10);
    t.update(a, 0, 1, 0, 100, 10);
    assert_eq!(t.reachable(&a), Some(RouteType::Remote(0, 1)));
}

#[test]
fn expiry_drops_old_entries() {
    let mut t = RouteTable::new();
    let a = Address([2; 32]);
    let b = Address([3; 32]);
    t.add_session(0, 1);
    t.update(a, 0, 1, 0, 100, 10);
    t.update(b, 0, 1, 0, 150, 10);
    t.expire(200, 60);
    assert_eq!(t.reachable(&a), None);
    assert_eq!(t.reachable(&b), Some(RouteType::Remote(0, 1)));
    t.expire(210, 60);
    assert_eq!(t.reachable(&b), Some(RouteType::Remote(0, 1)));
}

#[test]
fn seeded_entries_wait_for_refresh() {
    let mut t = RouteTable::new();
    let a = Address([2; 32]);
    t.add_session(0, 1);
    t.seed(RouteEntry { address: a, endpoint: 0, neighbour: 1, hop_count: 1, last_seen: 5, bandwidth: 0, stale: false });
    assert_eq!(t.reachable(&a), None);
    t.update(a, 0, 1, 0, 10, 0);
    assert_eq!(t.reachable(&a), Some(RouteType::Remote(0, 1)));
}
