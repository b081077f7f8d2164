//! The configuration of services, when it is read again, and timeouts.

use nullnet_grpc::addr::{IpAddr, Ipv4Addr};
use nullnet_grpc::net::Net;
use nullnet_grpc::nullnet_grpc_impl::RequestError;
use nullnet_grpc::orchestrator::Orchestrator;
use nullnet_grpc::services::changes::{
    detect_config_changes, detect_node_disconnect_changes, detect_services_list_changes,
    ServiceChange,
};
use nullnet_grpc::services::clients::{Client, ClientInfo};
use nullnet_grpc::services::input::{
    apply_config_update, tail_after, Debounce, ServiceToml, ServicesToml,
};
use nullnet_grpc::services::service_info::{ServiceInfo, Services, Trigger};
use nullnet_grpc::table::Table;
use nullnet_grpc::timeout::{collect_timed_out_clients, nearest_timeout};
use nullnet_grpc::vlan::{cleanup_vlans_chain, cleanup_vlans_failed_service};

const SECOND: u128 = 1_000_000_000;

fn ip(a: u8, b: u8, c: u8, d: u8) -> IpAddr {
    IpAddr::V4(Ipv4Addr::new(a, b, c, d))
}

fn names(list: &[&str]) -> Vec<String> {
    list.iter().map(|s| s.to_string()).collect()
}

fn service(name: &str, timeout: Option<u64>, dependencies: &[&str]) -> ServiceToml {
    ServiceToml {
        name: name.to_string(),
        timeout,
        proxy_dependencies: names(dependencies),
        triggers: Vec::new(),
        max_networks: None,
    }
}

fn get<'a>(services: &'a Services, name: &str) -> &'a ServiceInfo {
    services.get(&name.to_string()).expect("a service")
}

fn chains(si: &ServiceInfo) -> Vec<(u16, Vec<String>)> {
    si.triggers().iter().map(|t| (t.port, t.chain.clone())).collect()
}

#[test]
fn tails_start_after_the_first_occurrence() {
    let list = names(&["a", "b", "a", "c"]);
    assert_eq!(tail_after(&list, "a"), names(&["b", "a", "c"]));
    assert_eq!(tail_after(&list, "c"), names(&[]));
    assert_eq!(tail_after(&list, "z"), names(&[]));
}

/// The declaration of the documentation: `color.com` is reached through proxies and triggers a chain,
/// `fs.color.com` is declared too, `ts.color.com` is only named.
#[test]
fn declared_and_named_services() {
    let mut color = service("color.com", Some(0), &["fs.color.com"]);
    color.triggers = vec![Trigger { port: 5555, chain: names(&["ts.color.com"]) }];
    color.max_networks = Some(3);
    let services = ServicesToml { services: vec![color, service("fs.color.com", None, &[])] }
        .services_map(60);
    assert_eq!(services.len(), 3);

    let color = get(&services, "color.com");
    assert_eq!(color.timeout(), Some(0));
    assert_eq!(color.dependencies(), names(&["fs.color.com"]));
    assert_eq!(chains(color), vec![(5555, names(&["ts.color.com"]))]);
    assert_eq!(color.max_networks(), Some(3));
    assert!(matches!(color, ServiceInfo::Unregistered(_)));

    // a declaration without a timeout has the default one
    assert_eq!(get(&services, "fs.color.com").is_proxy_reachable(), Some(60));
    // a service that is only named is not reached through proxies
    assert_eq!(get(&services, "ts.color.com").is_proxy_reachable(), None);
}

/// A service that is only named has the rest of the last proxy chain that it is on, and the rests of
/// all the trigger chains.
#[test]
fn named_services_have_the_rest_of_their_chains() {
    let mut a = service("A", Some(0), &["X", "Y", "Z"]);
    a.triggers = vec![
        Trigger { port: 1, chain: names(&["X", "T"]) },
        Trigger { port: 2, chain: names(&["X"]) },
    ];
    let b = service("B", Some(0), &["Y"]);
    let services = ServicesToml { services: vec![a, b] }.services_map(0);
    assert_eq!(get(&services, "X").dependencies(), names(&["Y", "Z"]));
    assert_eq!(get(&services, "Y").dependencies(), names(&[]));
    assert_eq!(get(&services, "Z").dependencies(), names(&[]));
    // an empty rest is no trigger
    assert_eq!(chains(get(&services, "X")), vec![(1, names(&["T"]))]);
    assert_eq!(chains(get(&services, "T")), vec![]);
}

/// The last of two declarations counts, and a declaration counts more than a mention.
#[test]
fn later_declarations_win() {
    let services = ServicesToml {
        services: vec![
            service("A", Some(1), &["B"]),
            service("A", Some(2), &["C"]),
            service("B", Some(3), &["D"]),
            service("Z", Some(0), &["B", "Q"]),
        ],
    }
    .services_map(0);
    assert_eq!(get(&services, "A").timeout(), Some(2));
    assert_eq!(get(&services, "A").dependencies(), names(&["C"]));
    assert_eq!(get(&services, "B").dependencies(), names(&["D"]));
    assert_eq!(get(&services, "B").timeout(), Some(3));
}

#[test]
fn no_declarations_no_services() {
    assert_eq!(ServicesToml { services: Vec::new() }.services_map(5).len(), 0);
}

#[test]
fn reading_again_is_debounced() {
    let mut debounce = Debounce::new();
    assert!(debounce.should_reload(true, 0));
    assert!(!debounce.should_reload(false, 0));
    debounce.reloaded(SECOND);
    assert!(!debounce.should_reload(true, SECOND));
    assert!(!debounce.should_reload(true, SECOND + 100_999_999));
    assert!(debounce.should_reload(true, SECOND + 101_000_000));
    assert!(!debounce.should_reload(true, 0));
    assert!(!debounce.should_reload(false, 2 * SECOND));
}

fn load(list: Vec<ServiceToml>) -> Services {
    ServicesToml { services: list }.services_map(0)
}

/// A configuration that was taken over leaves no changes.
#[test]
fn a_configuration_update_settles() {
    let mut services = load(vec![service("A", Some(0), &["B"])]);
    let mut orchestrator = Orchestrator::new(Net::Vxlan);
    let list = || vec![service("A", Some(9), &["C"]), service("D", None, &[])];
    assert!(!detect_config_changes(&services, &load(list()), 0).is_empty());
    apply_config_update(&mut services, load(list()), &mut orchestrator, 0);
    assert!(detect_config_changes(&services, &load(list()), 0).is_empty());
    assert!(!services.contains_key(&"B".to_string()));
    assert_eq!(get(&services, "A").timeout(), Some(9));
    assert_eq!(get(&services, "D").timeout(), Some(0));
}

fn running(timeout: u64) -> Services {
    let mut services = load(vec![service("A", Some(timeout), &["B"])]);
    for (name, at) in [("A", ip(1, 1, 1, 1)), ("B", ip(2, 2, 2, 2))] {
        services
            .get_mut(&name.to_string())
            .expect("a service")
            .add_replica(at, 80, None);
    }
    services
}

fn info(now: u128) -> ClientInfo {
    let net = Ipv4Addr::new(10, 0, 1, 1);
    ClientInfo::new(ip(9, 9, 9, 9), net, net, 1, 0, None, now)
}

fn connect(services: &mut Services, name: &str, at: IpAddr, client: Client, ci: ClientInfo) {
    match services.get_mut(&name.to_string()) {
        Some(ServiceInfo::Registered(reg)) => reg.add_client_to_replica(at, &None, client, ci),
        _ => panic!("not registered"),
    }
}

/// A connection expires when it has not been used for the timeout, and not before.
#[test]
fn clients_expire_at_their_timeout() {
    let mut services = running(2);
    let client = Client::new("c".to_string(), Some(ip(9, 9, 9, 9)));
    connect(&mut services, "A", ip(1, 1, 1, 1), client, info(SECOND));
    assert!(collect_timed_out_clients(&services, 3 * SECOND - 1).is_empty());
    let changes = collect_timed_out_clients(&services, 3 * SECOND);
    assert_eq!(changes.len(), 1);
    let ServiceChange::ProxyClientTimedOut { name, client } = &changes[0] else {
        panic!("not a timeout");
    };
    assert_eq!((name.as_str(), client.name().as_str()), ("A", "c"));
    assert_eq!(client.is_proxy(), Some(ip(9, 9, 9, 9)));

    // a timeout of zero is none
    let mut services = running(0);
    let client = Client::new("c".to_string(), Some(ip(9, 9, 9, 9)));
    connect(&mut services, "A", ip(1, 1, 1, 1), client, info(SECOND));
    assert!(collect_timed_out_clients(&services, 1000 * SECOND).is_empty());
}

/// A chain that a replica triggered expires by the timeout of the service that triggered it.
#[test]
fn triggered_chains_expire() {
    let mut services = running(2);
    let client = Client::new_service("A".to_string(), ip(1, 1, 1, 1), None);
    let ci = info(SECOND).with_backend_entry(true);
    connect(&mut services, "B", ip(2, 2, 2, 2), client, ci);
    assert!(collect_timed_out_clients(&services, 3 * SECOND - 1).is_empty());
    let changes = collect_timed_out_clients(&services, 3 * SECOND);
    assert_eq!(changes.len(), 1);
    let ServiceChange::BackendChainTimedOut {
        initiator_name,
        initiator_ip,
        initiator_docker,
        first_dependency,
    } = &changes[0]
    else {
        panic!("not a timeout");
    };
    assert_eq!(initiator_name, "A");
    assert_eq!(*initiator_ip, ip(1, 1, 1, 1));
    assert_eq!(*initiator_docker, None);
    assert_eq!(first_dependency, "B");
}

#[test]
fn the_nearest_timeout() {
    // nothing expires sooner than the default
    assert_eq!(nearest_timeout(&running(0), SECOND, 60), 60 * SECOND);
    // the limit of a service itself
    assert_eq!(nearest_timeout(&running(20), SECOND, 60), 20 * SECOND);
    // what is left of a connection's time
    let mut services = running(20);
    let client = Client::new("c".to_string(), Some(ip(9, 9, 9, 9)));
    connect(&mut services, "A", ip(1, 1, 1, 1), client, info(SECOND));
    assert_eq!(nearest_timeout(&services, 6 * SECOND, 60), 15 * SECOND);
    // a connection that is due
    assert_eq!(nearest_timeout(&services, 50 * SECOND, 60), 0);
}

#[test]
fn hosts_that_list_what_runs_change_nothing() {
    let mut services = running(0);
    let list = vec![("A".to_string(), 80, None)];
    assert!(detect_services_list_changes(&services, ip(1, 1, 1, 1), &list).is_empty());
    let changes = detect_services_list_changes(&services, ip(1, 1, 1, 1), &Vec::new());
    assert_eq!(changes.len(), 1);
    assert!(matches!(&changes[0], ServiceChange::ReplicaRemoved { name, .. } if name == "A"));

    // one of two containers on a host
    services
        .get_mut(&"A".to_string())
        .expect("a service")
        .add_replica(ip(1, 1, 1, 1), 81, Some("box".to_string()));
    let changes = detect_services_list_changes(&services, ip(1, 1, 1, 1), &list);
    assert_eq!(changes.len(), 1);
    assert!(matches!(
        &changes[0],
        ServiceChange::ReplicaRemoved { docker_container: Some(c), .. } if c == "box"
    ));
}

#[test]
fn a_disconnected_host_loses_its_replicas_and_proxy_clients() {
    let mut services = running(0);
    let client = Client::new("c".to_string(), Some(ip(1, 1, 1, 1)));
    connect(&mut services, "A", ip(1, 1, 1, 1), client, info(0));
    let changes = detect_node_disconnect_changes(&services, ip(1, 1, 1, 1));
    assert_eq!(changes.len(), 2);
    assert!(changes.iter().any(
        |c| matches!(c, ServiceChange::ReplicasRemoved { name, ip: at } if name == "A" && *at == ip(1, 1, 1, 1))
    ));
    assert!(changes
        .iter()
        .any(|c| matches!(c, ServiceChange::ProxyDisconnected { ip: at } if *at == ip(1, 1, 1, 1))));
    assert!(detect_node_disconnect_changes(&services, ip(3, 3, 3, 3)).is_empty());
}

#[test]
fn tables_keep_one_value_per_key() {
    let mut table: Table<String, u32> = Table::new();
    table.insert("a".to_string(), 1);
    table.insert("b".to_string(), 2);
    table.insert("a".to_string(), 3);
    assert_eq!(table.len(), 2);
    assert_eq!((table.key_at(0).as_str(), *table.value_at(0)), ("a", 3));
    assert_eq!(table.get(&"b".to_string()), Some(&2));
    if let Some(v) = table.get_mut(&"b".to_string()) {
        *v = 5;
    }
    assert_eq!(table.remove(&"b".to_string()), Some(5));
    assert_eq!(table.remove(&"b".to_string()), None);
    assert!(!table.contains_key(&"b".to_string()));
    assert_eq!(table.len(), 1);
}

#[test]
fn clients_and_connections() {
    let client = Client::new("c".to_string(), Some(ip(9, 9, 9, 9)));
    assert_eq!(client.display_name("9.9.9.9"), "c (via 9.9.9.9)");
    assert_eq!(client.replica_identity(), None);
    let replica = Client::new_service("A".to_string(), ip(1, 1, 1, 1), Some("box".to_string()));
    assert_eq!(replica.display_name("unused"), "A");
    assert_eq!(
        replica.replica_identity(),
        Some((ip(1, 1, 1, 1), Some("box".to_string())))
    );

    let mut ci = ClientInfo::new(
        ip(9, 9, 9, 9),
        Ipv4Addr::new(10, 0, 1, 4),
        Ipv4Addr::new(10, 0, 1, 2),
        1,
        12,
        None,
        100,
    );
    assert_eq!(ci.active_chains(), 0);
    ci.add_active_chain(200);
    ci.add_active_chain(300);
    assert_eq!((ci.active_chains(), ci.latest()), (2, 300));
    assert_eq!(ci.idle(350), 50);
    assert_eq!(ci.idle(250), 0);
    ci.remove_active_chains(3);
    assert_eq!(ci.active_chains(), 0);
    ci.set_latest_now(400);
    assert_eq!(ci.latest(), 400);
    assert_eq!(ci.time_ms(), 12);
    let placeholder = ClientInfo::placeholder(ip(9, 9, 9, 9), 7);
    assert_eq!((placeholder.net_id(), placeholder.latest()), (0, 7));
    assert_eq!(placeholder.server_net(), Ipv4Addr::unspecified());
}

/// A service that is found to run elsewhere moves there with its clients.
#[test]
fn a_registered_service_moves_with_its_clients() {
    let mut services = running(0);
    let client = Client::new("c".to_string(), Some(ip(9, 9, 9, 9)));
    connect(&mut services, "A", ip(1, 1, 1, 1), client, info(0));
    let moved = services
        .remove(&"A".to_string())
        .expect("a service")
        .register(ip(7, 7, 7, 7), 90);
    let reg = moved.as_registered().expect("a running service");
    assert_eq!(reg.replicas().len(), 1);
    assert_eq!((reg.replicas()[0].ip(), reg.replicas()[0].port()), (ip(7, 7, 7, 7), 90));
    assert_eq!(reg.client_count(), 1);
    assert_eq!(moved.dependencies(), names(&["B"]));

    let idle = ServiceInfo::new(names(&["X"]), Vec::new(), None, None);
    assert!(idle.as_registered().is_none());
    let reg = idle.register(ip(7, 7, 7, 7), 90);
    assert!(!reg.as_registered().expect("a running service").has_clients());
}

/// Where no networks have to be torn down, chains are taken off the services alone; a chain with a
/// dependency that does not run is left alone.
#[test]
fn chains_are_taken_off_services() {
    let mut services = running(0);
    let client = Client::new("c".to_string(), Some(ip(9, 9, 9, 9)));
    connect(&mut services, "A", ip(1, 1, 1, 1), client, info(0));
    let replica = Client::new_service("A".to_string(), ip(1, 1, 1, 1), None);
    connect(&mut services, "B", ip(2, 2, 2, 2), replica, info(0));
    assert_eq!(cleanup_vlans_failed_service("B", &mut services), Ok(()));
    assert!(!get(&services, "A").as_registered().expect("A runs").has_clients());
    assert!(get(&services, "B").as_registered().is_none());

    assert_eq!(
        cleanup_vlans_chain("A", &mut services),
        Err(RequestError::DependencyNotRegistered)
    );
    assert_eq!(
        cleanup_vlans_failed_service("A", &mut services),
        Err(RequestError::DependencyNotRegistered)
    );
    assert_eq!(cleanup_vlans_chain("nowhere", &mut services), Ok(()));
}
