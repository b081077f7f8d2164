#![allow(non_snake_case)]

//! Networks of services with chains set up through proxies, and what is left of them after a change.

use nullnet_grpc::addr::{IpAddr, Ipv4Addr};
use nullnet_grpc::graphviz::{normalize_graphviz, render_graphviz};
use nullnet_grpc::net::Net;
use nullnet_grpc::nullnet_grpc_impl::NullnetGrpcImpl;
use nullnet_grpc::services::clients::Client;
use nullnet_grpc::services::input::{apply_config_update, ServiceToml, ServicesToml};
use nullnet_grpc::services::service_info::{RegisteredServiceInfo, ServiceInfo, Services, Upstream};
use nullnet_grpc::timeout::apply_timeouts;

/// When the chains are set up, in nanoseconds.
const START: u128 = 1_000_000_000_000;
const MILLISECOND: u128 = 1_000_000;

fn ip(a: u8, b: u8, c: u8, d: u8) -> IpAddr {
    IpAddr::V4(Ipv4Addr::new(a, b, c, d))
}

fn service(name: &str, timeout: Option<u64>, dependencies: &[&str]) -> ServiceToml {
    ServiceToml {
        name: name.to_string(),
        timeout,
        proxy_dependencies: dependencies.iter().map(|d| d.to_string()).collect(),
        triggers: Vec::new(),
        max_networks: None,
    }
}

fn config(services: Vec<ServiceToml>) -> Services {
    ServicesToml { services }.services_map(0)
}

fn get<'a>(server: &'a NullnetGrpcImpl, name: &str) -> &'a ServiceInfo {
    server
        .services()
        .get(&name.to_string())
        .expect("service not found")
}

fn contains(server: &NullnetGrpcImpl, name: &str) -> bool {
    server.services().contains_key(&name.to_string())
}

fn registered<'a>(server: &'a NullnetGrpcImpl, name: &str) -> &'a RegisteredServiceInfo {
    get(server, name).as_registered().expect("service not registered")
}

fn add_replica(server: &mut NullnetGrpcImpl, name: &str, at: IpAddr, docker: Option<&str>) {
    server
        .services
        .get_mut(&name.to_string())
        .expect("service not found")
        .add_replica(at, 8080, docker.map(String::from));
}

fn register_services(server: &mut NullnetGrpcImpl, ip_map: &[(&str, IpAddr)]) {
    for (name, at) in ip_map {
        add_replica(server, name, *at, None);
        server.orchestrator.add_client(*at);
    }
}

fn assert_net_ids_in_use(server: &NullnetGrpcImpl, expected: usize) {
    assert_eq!(server.orchestrator().net_ids_in_use(), expected);
}

/// Compares the connections that the graph draws, and the styles of its nodes, in any order.
fn assert_graph(server: &NullnetGrpcImpl, connections: &[(&str, &str)], nodes: &[(&str, &str)]) {
    let graph = normalize_graphviz(&render_graphviz(server.services(), server.orchestrator().net()));
    let mut actual: Vec<String> = graph
        .lines()
        .filter(|line| line.starts_with("\t\""))
        .map(|line| line.trim().to_string())
        .collect();
    actual.sort();
    let mut wanted: Vec<String> = connections
        .iter()
        .map(|(client, name)| format!("\"{client}\" -> \"{name}\";"))
        .collect();
    for (name, style) in nodes {
        wanted.push(format!("\"{name}\" [{style}];"));
    }
    wanted.sort();
    assert_eq!(actual, wanted);
}

/// An entry point that runs.
const ENTRY: &str = "style=solid, color=green";
/// An entry point that does not run.
const ENTRY_DOWN: &str = "style=solid, color=red";
/// A service on a chain that runs.
const INNER: &str = "style=dashed, color=green";
/// A service on a chain that does not run.
const INNER_DOWN: &str = "style=dashed, color=red";

fn setup_proxy_chain(server: &mut NullnetGrpcImpl, name: &str, proxy_ip: IpAddr, client_ip: &str) {
    let (service_ip, service_docker) = {
        let replica = registered(server, name)
            .pick_replica_least_clients()
            .expect("no replica");
        (replica.ip(), replica.docker_container().clone())
    };
    let edges = server
        .setup_proxy_chain(name, proxy_ip, client_ip, service_ip, &service_docker)
        .expect("setup_proxy_chain failed");
    let ids: Vec<(String, String)> = (0..edges.len())
        .map(|i| (format!("{client_ip} server {i}"), format!("{client_ip} client {i}")))
        .collect();
    let acks = vec![(true, true); edges.len()];
    server
        .net_chain_setup(edges, &ids, &acks, START, START)
        .expect("net_chain_setup failed");
}

fn update_config(server: &mut NullnetGrpcImpl, loaded: Services, now: u128) {
    apply_config_update(&mut server.services, loaded, &mut server.orchestrator, now);
}

fn expire(server: &mut NullnetGrpcImpl, now: u128) {
    apply_timeouts(&mut server.services, &mut server.orchestrator, now);
}

// A->C->D, B->D (D shared). proxy1->A+B, proxy2->A

const SHARED_START: [(&str, &str); 6] = [
    ("10.0.0.1", "A"),
    ("10.0.0.2", "A"),
    ("10.0.0.1", "B"),
    ("A", "C"),
    ("C", "D"),
    ("B", "D"),
];
const SHARED_NODES: [(&str, &str); 4] =
    [("A", ENTRY), ("B", ENTRY), ("C", INNER), ("D", INNER)];
const ONLY_A: [(&str, &str); 4] = [("10.0.0.1", "A"), ("10.0.0.2", "A"), ("A", "C"), ("C", "D")];
const ONLY_B: [(&str, &str); 2] = [("10.0.0.1", "B"), ("B", "D")];

fn shared_setup(services: Services, ip_map: &[(&str, IpAddr)]) -> NullnetGrpcImpl {
    let mut server = NullnetGrpcImpl::new(services, Net::Vxlan);
    let proxy1 = ip(5, 5, 5, 5);
    let proxy2 = ip(6, 6, 6, 6);
    register_services(&mut server, ip_map);
    server.orchestrator.add_client(proxy1);
    server.orchestrator.add_client(proxy2);

    setup_proxy_chain(&mut server, "A", proxy1, "10.0.0.1");
    setup_proxy_chain(&mut server, "B", proxy1, "10.0.0.1");
    setup_proxy_chain(&mut server, "A", proxy2, "10.0.0.2");

    // A->C, C->D, proxy1->A, B->D, proxy1->B, proxy2->A = 6 IDs
    assert_net_ids_in_use(&server, 6);
    assert_graph(&server, &SHARED_START, &SHARED_NODES);
    server
}

fn service_a() -> ServiceToml {
    service("A", Some(0), &["C", "D"])
}

fn service_b() -> ServiceToml {
    service("B", Some(0), &["D"])
}

fn service_removed_setup() -> NullnetGrpcImpl {
    shared_setup(
        config(vec![service_a(), service_b()]),
        &[
            ("A", ip(1, 1, 1, 1)),
            ("B", ip(2, 2, 2, 2)),
            ("C", ip(3, 3, 3, 3)),
            ("D", ip(4, 4, 4, 4)),
        ],
    )
}

/// A and C removed (C only dep of A). D stays (dep of B). proxy1->B->D survives.
#[test]
fn service_removed_remove_A() {
    let mut server = service_removed_setup();
    update_config(&mut server, config(vec![service_b()]), START);
    assert_graph(&server, &ONLY_B, &[("B", ENTRY), ("D", INNER)]);

    // A->C, C->D, proxy1->A, proxy2->A freed; B->D, proxy1->B survive = 2 IDs
    assert_net_ids_in_use(&server, 2);

    assert!(!contains(&server, "A"));
    assert!(!contains(&server, "C"));
    assert!(contains(&server, "B"));
    assert!(contains(&server, "D"));
}

/// D stays (dep of A). A chains survive.
#[test]
fn service_removed_remove_B() {
    let mut server = service_removed_setup();
    update_config(&mut server, config(vec![service_a()]), START);
    assert_graph(&server, &ONLY_A, &[("A", ENTRY), ("C", INNER), ("D", INNER)]);

    // B->D, proxy1->B freed; A->C, C->D, proxy1->A, proxy2->A survive = 4 IDs
    assert_net_ids_in_use(&server, 4);

    assert!(!contains(&server, "B"));
    assert!(contains(&server, "A"));
    assert!(contains(&server, "C"));
    assert!(contains(&server, "D"));
}

// A->B->C, D->C (C shared). proxy1->A+D, proxy2->A

const DEP_NODES: [(&str, &str); 4] =
    [("A", ENTRY), ("B", INNER), ("C", INNER), ("D", ENTRY)];
const ONLY_D: [(&str, &str); 2] = [("10.0.0.1", "D"), ("D", "C")];

fn dep_changed_setup() -> NullnetGrpcImpl {
    let services = config(vec![
        service("A", Some(0), &["B", "C"]),
        service("D", Some(0), &["C"]),
    ]);
    let mut server = NullnetGrpcImpl::new(services, Net::Vxlan);
    let proxy1 = ip(5, 5, 5, 5);
    let proxy2 = ip(6, 6, 6, 6);
    register_services(
        &mut server,
        &[
            ("A", ip(1, 1, 1, 1)),
            ("B", ip(2, 2, 2, 2)),
            ("C", ip(3, 3, 3, 3)),
            ("D", ip(4, 4, 4, 4)),
        ],
    );
    server.orchestrator.add_client(proxy1);
    server.orchestrator.add_client(proxy2);

    setup_proxy_chain(&mut server, "A", proxy1, "10.0.0.1");
    setup_proxy_chain(&mut server, "D", proxy1, "10.0.0.1");
    setup_proxy_chain(&mut server, "A", proxy2, "10.0.0.2");

    assert_graph(
        &server,
        &[
            ("10.0.0.1", "A"),
            ("10.0.0.2", "A"),
            ("10.0.0.1", "D"),
            ("A", "B"),
            ("B", "C"),
            ("D", "C"),
        ],
        &DEP_NODES,
    );
    server
}

/// A's chain cleaned up (dep change). E added as unregistered. D->C survives.
#[test]
fn dep_changed_add_E_to_A() {
    let mut server = dep_changed_setup();
    let loaded = config(vec![
        service("A", Some(0), &["B", "C", "E"]),
        service("D", Some(0), &["C"]),
    ]);
    update_config(&mut server, loaded, START);
    assert_graph(
        &server,
        &ONLY_D,
        &[("A", ENTRY), ("B", INNER), ("C", INNER), ("D", ENTRY), ("E", INNER_DOWN)],
    );

    assert_eq!(
        get(&server, "A").dependencies(),
        vec!["B".to_string(), "C".to_string(), "E".to_string()]
    );
    assert!(contains(&server, "E"));
    assert!(matches!(get(&server, "E"), ServiceInfo::Unregistered(_)));
}

/// A's chain cleaned up but A stays registered. D->C survives.
#[test]
fn dep_changed_drop_C_from_A() {
    let mut server = dep_changed_setup();
    let loaded = config(vec![
        service("A", Some(0), &["B"]),
        service("D", Some(0), &["C"]),
    ]);
    update_config(&mut server, loaded, START);
    assert_graph(&server, &ONLY_D, &DEP_NODES);

    assert!(contains(&server, "A"));
    assert_eq!(get(&server, "A").dependencies(), vec!["B".to_string()]);
    assert!(contains(&server, "C"));
}

/// D's chain cleaned up but D stays registered. A chains survive.
#[test]
fn dep_changed_drop_all_from_D() {
    let mut server = dep_changed_setup();
    let loaded = config(vec![
        service("A", Some(0), &["B", "C"]),
        service("D", Some(0), &[]),
    ]);
    update_config(&mut server, loaded, START);
    assert_graph(
        &server,
        &[("10.0.0.1", "A"), ("10.0.0.2", "A"), ("A", "B"), ("B", "C")],
        &DEP_NODES,
    );

    assert!(get(&server, "D").dependencies().is_empty());
    assert!(contains(&server, "C"));
}

/// A's chain cleaned up. E added as unregistered. D->C survives.
#[test]
fn dep_changed_swap_C_for_E() {
    let mut server = dep_changed_setup();
    let loaded = config(vec![
        service("A", Some(0), &["B", "E"]),
        service("D", Some(0), &["C"]),
    ]);
    update_config(&mut server, loaded, START);
    assert_graph(
        &server,
        &ONLY_D,
        &[("A", ENTRY), ("B", INNER), ("C", INNER), ("D", ENTRY), ("E", INNER_DOWN)],
    );

    assert_eq!(
        get(&server, "A").dependencies(),
        vec!["B".to_string(), "E".to_string()]
    );
    assert!(contains(&server, "E"));
    assert!(matches!(get(&server, "E"), ServiceInfo::Unregistered(_)));
}

// A->B->C, D->E. proxy1->A+D, proxy2->B. B is both proxy-reachable and a dep of A.

fn reachability_changed_setup() -> NullnetGrpcImpl {
    let services = config(vec![
        service("A", Some(0), &["B", "C"]),
        service("B", Some(0), &["C"]),
        service("D", Some(0), &["E"]),
    ]);
    let mut server = NullnetGrpcImpl::new(services, Net::Vxlan);
    let proxy1 = ip(6, 6, 6, 6);
    let proxy2 = ip(7, 7, 7, 7);
    register_services(
        &mut server,
        &[
            ("A", ip(1, 1, 1, 1)),
            ("B", ip(2, 2, 2, 2)),
            ("C", ip(3, 3, 3, 3)),
            ("D", ip(4, 4, 4, 4)),
            ("E", ip(5, 5, 5, 5)),
        ],
    );
    server.orchestrator.add_client(proxy1);
    server.orchestrator.add_client(proxy2);

    setup_proxy_chain(&mut server, "A", proxy1, "10.0.0.1");
    setup_proxy_chain(&mut server, "D", proxy1, "10.0.0.1");
    setup_proxy_chain(&mut server, "B", proxy2, "10.0.0.2");

    assert_graph(
        &server,
        &[
            ("10.0.0.1", "A"),
            ("10.0.0.1", "D"),
            ("10.0.0.2", "B"),
            ("A", "B"),
            ("B", "C"),
            ("D", "E"),
        ],
        &[("A", ENTRY), ("B", ENTRY), ("C", INNER), ("D", ENTRY), ("E", INNER)],
    );
    server
}

/// B's own proxy chain (proxy2->B) is torn down, but A's chain survives because B's deps are
/// inferred from A's dependency list. D->E also survives.
#[test]
fn reachability_changed_unreachable_B() {
    let mut server = reachability_changed_setup();
    let loaded = config(vec![
        service("A", Some(0), &["B", "C"]),
        service("D", Some(0), &["E"]),
    ]);
    update_config(&mut server, loaded, START);
    assert_graph(
        &server,
        &[
            ("10.0.0.1", "A"),
            ("10.0.0.1", "D"),
            ("A", "B"),
            ("B", "C"),
            ("D", "E"),
        ],
        &[("A", ENTRY), ("B", INNER), ("C", INNER), ("D", ENTRY), ("E", INNER)],
    );

    assert!(contains(&server, "B"));
    assert!(get(&server, "B").is_proxy_reachable().is_none());
}

/// No other service depends on D, so D and E are fully removed. proxy1->D and D->E torn down.
/// A and B chains survive.
#[test]
fn reachability_changed_unreachable_D() {
    let mut server = reachability_changed_setup();
    let loaded = config(vec![
        service("A", Some(0), &["B", "C"]),
        service("B", Some(0), &["C"]),
    ]);
    update_config(&mut server, loaded, START);
    assert_graph(
        &server,
        &[("10.0.0.1", "A"), ("10.0.0.2", "B"), ("A", "B"), ("B", "C")],
        &[("A", ENTRY), ("B", ENTRY), ("C", INNER)],
    );

    assert!(!contains(&server, "D"));
    assert!(!contains(&server, "E"));
}

// A->C->D, B->D (D shared). A+B co-located at 1.1.1.1. proxy1->A+B, proxy2->A

fn co_located_setup() -> NullnetGrpcImpl {
    shared_setup(
        config(vec![service_a(), service_b()]),
        &[
            ("A", ip(1, 1, 1, 1)),
            ("B", ip(1, 1, 1, 1)),
            ("C", ip(2, 2, 2, 2)),
            ("D", ip(3, 3, 3, 3)),
        ],
    )
}

/// A's chains cleaned up. B->D survives.
#[test]
fn service_unregistered_drop_A() {
    let mut server = co_located_setup();
    server.apply_services_list(ip(1, 1, 1, 1), &vec![("B".to_string(), 8080, None)]);
    assert_graph(&server, &ONLY_B, &[("A", ENTRY_DOWN), ("B", ENTRY), ("C", INNER), ("D", INNER)]);

    assert!(matches!(get(&server, "A"), ServiceInfo::Unregistered(_)));
    assert!(matches!(get(&server, "B"), ServiceInfo::Registered(_)));
}

/// B's chain cleaned up. A chains survive.
#[test]
fn service_unregistered_drop_B() {
    let mut server = co_located_setup();
    server.apply_services_list(ip(1, 1, 1, 1), &vec![("A".to_string(), 8080, None)]);
    assert_graph(&server, &ONLY_A, &[("A", ENTRY), ("B", ENTRY_DOWN), ("C", INNER), ("D", INNER)]);

    assert!(matches!(get(&server, "A"), ServiceInfo::Registered(_)));
    assert!(matches!(get(&server, "B"), ServiceInfo::Unregistered(_)));
}

/// Cascades to A (depends on C). B->D survives (B doesn't depend on C).
#[test]
fn service_unregistered_drop_C() {
    let mut server = co_located_setup();
    server.apply_services_list(ip(2, 2, 2, 2), &Vec::new());
    assert_graph(&server, &ONLY_B, &[("A", ENTRY), ("B", ENTRY), ("C", INNER_DOWN), ("D", INNER)]);

    assert!(matches!(get(&server, "C"), ServiceInfo::Unregistered(_)));
    assert!(matches!(get(&server, "B"), ServiceInfo::Registered(_)));
}

/// Cascades to A and B (both depend on D). All chains torn down, all 6 NET IDs freed.
#[test]
fn service_unregistered_drop_D() {
    let mut server = co_located_setup();
    server.apply_services_list(ip(3, 3, 3, 3), &Vec::new());
    assert_graph(&server, &[], &[("A", ENTRY), ("B", ENTRY), ("C", INNER), ("D", INNER_DOWN)]);

    assert_net_ids_in_use(&server, 0);
    assert!(matches!(get(&server, "D"), ServiceInfo::Unregistered(_)));
}

/// Both A and B cleaned up. All 6 NET IDs freed.
#[test]
fn node_disconnected_A_B() {
    let mut server = co_located_setup();
    server.handle_node_disconnect(ip(1, 1, 1, 1));
    assert_graph(
        &server,
        &[],
        &[("A", ENTRY_DOWN), ("B", ENTRY_DOWN), ("C", INNER), ("D", INNER)],
    );

    assert_net_ids_in_use(&server, 0);
    assert!(matches!(get(&server, "A"), ServiceInfo::Unregistered(_)));
    assert!(matches!(get(&server, "B"), ServiceInfo::Unregistered(_)));
}

/// C cleaned up, cascades to A (depends on C). B->D survives (B doesn't depend on C).
#[test]
fn node_disconnected_C() {
    let mut server = co_located_setup();
    server.handle_node_disconnect(ip(2, 2, 2, 2));
    assert_graph(&server, &ONLY_B, &[("A", ENTRY), ("B", ENTRY), ("C", INNER_DOWN), ("D", INNER)]);

    assert!(matches!(get(&server, "C"), ServiceInfo::Unregistered(_)));
    assert!(matches!(get(&server, "B"), ServiceInfo::Registered(_)));
}

/// D cleaned up, cascades to A and B (both depend on D).
#[test]
fn node_disconnected_D() {
    let mut server = co_located_setup();
    server.handle_node_disconnect(ip(3, 3, 3, 3));
    assert_graph(&server, &[], &[("A", ENTRY), ("B", ENTRY), ("C", INNER), ("D", INNER_DOWN)]);

    assert!(matches!(get(&server, "D"), ServiceInfo::Unregistered(_)));
}

/// proxy1->A and proxy1->B chains torn down. proxy2->A survives, so A->C->D edges survive. All
/// services stay registered.
#[test]
fn node_disconnected_proxy1() {
    let mut server = co_located_setup();
    server.handle_node_disconnect(ip(5, 5, 5, 5));
    assert_graph(&server, &[("10.0.0.2", "A"), ("A", "C"), ("C", "D")], &SHARED_NODES);

    // proxy1->A, proxy1->B, B->D freed; A->C, C->D, proxy2->A survive = 3 IDs
    assert_net_ids_in_use(&server, 3);

    assert!(matches!(get(&server, "A"), ServiceInfo::Registered(_)));
    assert!(matches!(get(&server, "B"), ServiceInfo::Registered(_)));
    assert!(matches!(get(&server, "C"), ServiceInfo::Registered(_)));
    assert!(matches!(get(&server, "D"), ServiceInfo::Registered(_)));
}

// A->C->D, B->D (D shared). proxy1->A+B, proxy2->A. A has timeout=1, B has timeout=2.

fn proxy_timeout_setup() -> NullnetGrpcImpl {
    shared_setup(
        config(vec![
            service("A", Some(1), &["C", "D"]),
            service("B", Some(2), &["D"]),
        ]),
        &[
            ("A", ip(1, 1, 1, 1)),
            ("B", ip(2, 2, 2, 2)),
            ("C", ip(3, 3, 3, 3)),
            ("D", ip(4, 4, 4, 4)),
        ],
    )
}

/// Both proxy clients on A expire. B's proxy client survives (timeout=2). A->C->D edges removed
/// (no more proxy clients on A). B->D edge survives.
#[test]
fn proxy_timeout_A() {
    let mut server = proxy_timeout_setup();
    expire(&mut server, START + 1100 * MILLISECOND);
    assert_graph(&server, &ONLY_B, &SHARED_NODES);

    // A is still registered but has no proxy clients
    assert!(matches!(get(&server, "A"), ServiceInfo::Registered(_)));
    // B's proxy client is still alive
    assert!(matches!(get(&server, "B"), ServiceInfo::Registered(_)));
    assert_eq!(registered(&server, "B").client_count(), 1);
    assert!(!registered(&server, "A").has_clients());
}

fn assert_no_clients(server: &NullnetGrpcImpl) {
    for i in 0..server.services().len() {
        if let ServiceInfo::Registered(reg) = server.services().value_at(i) {
            assert!(!reg.has_clients());
        }
    }
}

/// B's proxy client also expires. All proxy chains gone; all services still registered.
#[test]
fn proxy_timeout_A_then_B() {
    let mut server = proxy_timeout_setup();

    // A expires after 1s
    expire(&mut server, START + 1100 * MILLISECOND);
    assert_graph(&server, &ONLY_B, &SHARED_NODES);

    // B expires after 2s total
    expire(&mut server, START + 2200 * MILLISECOND);
    assert_graph(&server, &[], &SHARED_NODES);

    assert_no_clients(&server);
    assert_net_ids_in_use(&server, 0);
}

/// Both A and B expire in a single apply. All 6 NET IDs freed.
#[test]
fn proxy_timeout_all_at_once() {
    let mut server = proxy_timeout_setup();
    expire(&mut server, START + 2100 * MILLISECOND);
    assert_graph(&server, &[], &SHARED_NODES);

    assert_no_clients(&server);
    assert_net_ids_in_use(&server, 0);
}

/// After 1.5s, B's clients are past the new limit and get expired by the config change. A's timeout
/// is unchanged in the config, so the config path doesn't touch A's clients.
#[test]
fn proxy_timeout_config_tighten_B() {
    let mut server = proxy_timeout_setup();
    let loaded = config(vec![
        service("A", Some(1), &["C", "D"]),
        service("B", Some(1), &["D"]),
    ]);
    update_config(&mut server, loaded, START + 1500 * MILLISECOND);
    assert_graph(&server, &ONLY_A, &SHARED_NODES);

    // B's proxy client expired due to config tightening
    assert!(!registered(&server, "B").has_clients());
    // A's clients are still present (config path only handles config changes)
    assert_eq!(registered(&server, "A").client_count(), 2);
}

/// Even after 1.5s, A's clients are not expired because the timeout was removed, not tightened.
/// B's timeout is unchanged, so B's client also stays.
#[test]
fn proxy_timeout_config_remove_timeout_A() {
    let mut server = proxy_timeout_setup();
    let loaded = config(vec![
        service("A", Some(0), &["C", "D"]),
        service("B", Some(2), &["D"]),
    ]);
    update_config(&mut server, loaded, START + 1500 * MILLISECOND);
    assert_graph(&server, &SHARED_START, &SHARED_NODES);

    // no expiry, clients still present
    assert_eq!(get(&server, "A").is_proxy_reachable(), Some(0));
    assert_eq!(registered(&server, "A").client_count(), 2);
    // B unchanged
    assert_eq!(registered(&server, "B").client_count(), 1);
}

// A->B, C->B. B has 3 replicas across 2 IPs: 2.2.2.2 "b1", 4.4.4.4 without container, 2.2.2.2 "b2"

fn multi_replica_config() -> Services {
    config(vec![
        service("A", Some(0), &["B"]),
        service("C", Some(0), &["B"]),
    ])
}

fn multi_replica_setup() -> NullnetGrpcImpl {
    let mut server = NullnetGrpcImpl::new(multi_replica_config(), Net::Vxlan);
    register_services(&mut server, &[("A", ip(1, 1, 1, 1)), ("C", ip(3, 3, 3, 3))]);
    // the first replica with the fewest clients wins, so that 4.4.4.4 in between makes for
    // clients on both hosts
    add_replica(&mut server, "B", ip(2, 2, 2, 2), Some("b1"));
    add_replica(&mut server, "B", ip(4, 4, 4, 4), None);
    add_replica(&mut server, "B", ip(2, 2, 2, 2), Some("b2"));
    server.orchestrator.add_client(ip(2, 2, 2, 2));
    server.orchestrator.add_client(ip(4, 4, 4, 4));
    server
}

/// The containers of the replicas at an address.
fn containers_on(reg: &RegisteredServiceInfo, at: IpAddr) -> Vec<Option<String>> {
    reg.replicas()
        .iter()
        .filter(|r| r.ip() == at)
        .map(|r| r.docker_container().clone())
        .collect()
}

/// B has 3 replicas across 2 IPs.
#[test]
fn multi_replica_register() {
    let server = multi_replica_setup();
    let reg = registered(&server, "B");
    assert_eq!(reg.replicas().len(), 3);
    assert!(reg.has_replica_on_ip(ip(2, 2, 2, 2)));
    assert!(reg.has_replica_on_ip(ip(4, 4, 4, 4)));
    let containers = containers_on(reg, ip(2, 2, 2, 2));
    assert_eq!(containers.len(), 2);
    assert!(containers.contains(&Some("b1".to_string())));
    assert!(containers.contains(&Some("b2".to_string())));
}

const MULTI_NODES: [(&str, &str); 3] = [("A", ENTRY), ("B", INNER), ("C", ENTRY)];
const MULTI_START: [(&str, &str); 4] =
    [("10.0.0.1", "A"), ("10.0.0.2", "C"), ("A", "B"), ("C", "B")];

/// The second chain picks a different replica of B than the first.
#[test]
fn multi_replica_least_clients() {
    let mut server = multi_replica_setup();
    let proxy1 = ip(5, 5, 5, 5);
    server.orchestrator.add_client(proxy1);

    setup_proxy_chain(&mut server, "A", proxy1, "10.0.0.1");
    assert_eq!(registered(&server, "B").client_count(), 1);

    setup_proxy_chain(&mut server, "C", proxy1, "10.0.0.2");
    assert_graph(&server, &MULTI_START, &MULTI_NODES);

    let reg_b = registered(&server, "B");
    assert_eq!(reg_b.client_count(), 2);
    for replica in reg_b.replicas() {
        assert!(replica.clients().len() <= 1);
    }
}

fn upstream(server: &NullnetGrpcImpl, proxy_ip: IpAddr) -> Upstream {
    let client = Client::new("10.0.0.1".to_string(), Some(proxy_ip));
    registered(server, "A")
        .is_client_setup(&client)
        .expect("client should be set up")
}

/// The same proxy client reconnects to the same replica.
#[test]
fn multi_replica_sticky_session() {
    let mut server = multi_replica_setup();
    let proxy1 = ip(5, 5, 5, 5);
    server.orchestrator.add_client(proxy1);

    setup_proxy_chain(&mut server, "A", proxy1, "10.0.0.1");

    let first_upstream = upstream(&server, proxy1);
    let second_upstream = upstream(&server, proxy1);
    assert_eq!(first_upstream, second_upstream);
}

/// Two of B's replicas are removed, but B stays registered via the replica at 4.4.4.4. A->B on "b1"
/// is affected; C->B on 4.4.4.4 survives.
#[test]
fn multi_replica_partial_disconnect() {
    let mut server = multi_replica_setup();
    let proxy1 = ip(5, 5, 5, 5);
    server.orchestrator.add_client(proxy1);

    setup_proxy_chain(&mut server, "A", proxy1, "10.0.0.1");
    setup_proxy_chain(&mut server, "C", proxy1, "10.0.0.2");

    // A->B, proxy->A, C->B, proxy->C = 4 NET IDs
    assert_net_ids_in_use(&server, 4);
    assert_graph(&server, &MULTI_START, &MULTI_NODES);

    server.handle_node_disconnect(ip(2, 2, 2, 2));
    assert_graph(&server, &[("10.0.0.2", "C"), ("C", "B")], &MULTI_NODES);

    let reg = registered(&server, "B");
    assert_eq!(reg.replicas().len(), 1);
    assert!(reg.has_replica_on_ip(ip(4, 4, 4, 4)));
    assert!(!reg.has_replica_on_ip(ip(2, 2, 2, 2)));
    assert_eq!(reg.client_count(), 1);
    assert!(!registered(&server, "A").has_clients());
    assert_eq!(registered(&server, "C").client_count(), 1);

    // A->B and proxy->A freed; C->B and proxy->C survive = 2 NET IDs
    assert_net_ids_in_use(&server, 2);
}

/// The last replica leaves: B becomes unregistered and cascades to A and C.
#[test]
fn multi_replica_full_disconnect() {
    let mut server = multi_replica_setup();
    let proxy1 = ip(5, 5, 5, 5);
    server.orchestrator.add_client(proxy1);

    setup_proxy_chain(&mut server, "A", proxy1, "10.0.0.1");
    setup_proxy_chain(&mut server, "C", proxy1, "10.0.0.2");
    assert_graph(&server, &MULTI_START, &MULTI_NODES);

    server.handle_node_disconnect(ip(2, 2, 2, 2));
    assert_graph(&server, &[("10.0.0.2", "C"), ("C", "B")], &MULTI_NODES);
    assert_eq!(registered(&server, "B").replicas().len(), 1);

    server.handle_node_disconnect(ip(4, 4, 4, 4));
    assert_graph(&server, &[], &[("A", ENTRY), ("B", INNER_DOWN), ("C", ENTRY)]);
    assert!(matches!(get(&server, "B"), ServiceInfo::Unregistered(_)));
    assert_net_ids_in_use(&server, 0);
}

fn offers_of_b(containers: &[Option<&str>], port: u16) -> Vec<(String, u16, Option<String>)> {
    containers
        .iter()
        .map(|c| ("B".to_string(), port, c.map(String::from)))
        .collect()
}

fn two_hosts_setup() -> NullnetGrpcImpl {
    let mut server = NullnetGrpcImpl::new(multi_replica_config(), Net::Vxlan);
    server.orchestrator.add_client(ip(2, 2, 2, 2));
    server.apply_services_list(ip(2, 2, 2, 2), &offers_of_b(&[Some("b1"), Some("b2")], 8080));
    server.orchestrator.add_client(ip(4, 4, 4, 4));
    server.apply_services_list(ip(4, 4, 4, 4), &offers_of_b(&[None], 9090));
    assert_eq!(registered(&server, "B").replicas().len(), 3);
    server
}

/// A host that lists nothing any more loses both its replicas, the other host's stays.
#[test]
fn multi_replica_via_services_list() {
    let mut server = two_hosts_setup();
    let reg = registered(&server, "B");
    assert_eq!(containers_on(reg, ip(2, 2, 2, 2)).len(), 2);
    assert!(reg.has_replica_on_ip(ip(4, 4, 4, 4)));

    server.apply_services_list(ip(2, 2, 2, 2), &Vec::new());

    let reg = registered(&server, "B");
    assert_eq!(reg.replicas().len(), 1);
    assert!(reg.has_replica_on_ip(ip(4, 4, 4, 4)));
    assert!(!reg.has_replica_on_ip(ip(2, 2, 2, 2)));
}

/// Container "b1" dies, so the host lists only "b2". "b2" and the replica at 4.4.4.4 survive.
#[test]
fn multi_replica_single_container_removed() {
    let mut server = two_hosts_setup();

    server.apply_services_list(ip(2, 2, 2, 2), &offers_of_b(&[Some("b2")], 8080));

    let reg = registered(&server, "B");
    assert_eq!(reg.replicas().len(), 2);
    assert!(reg.has_replica_on_ip(ip(2, 2, 2, 2)));
    assert!(reg.has_replica_on_ip(ip(4, 4, 4, 4)));
    assert_eq!(containers_on(reg, ip(2, 2, 2, 2)), vec![Some("b2".to_string())]);
}
