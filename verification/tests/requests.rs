//! Requests of proxies and triggers, and the chains that answer them.

use nullnet_grpc::addr::{IpAddr, Ipv4Addr};
use nullnet_grpc::chain_setup::{EdgeOutcome, EdgeProgress};
use nullnet_grpc::graphviz::{normalize_graphviz, render_graphviz};
use nullnet_grpc::net::{Net, NetMessage};
use nullnet_grpc::nullnet_grpc_impl::{
    parse_services_list, NullnetGrpcImpl, ProxyReply, RequestError, TriggerReply,
};
use nullnet_grpc::services::changes::{
    collect_dep_chain_edges, teardown_chain, teardown_partial_replicas, ProxyFilter,
};
use nullnet_grpc::services::clients::Client;
use nullnet_grpc::services::edge::RegisteredEdge;
use nullnet_grpc::services::input::{apply_config_update, ServiceToml, ServicesToml};
use nullnet_grpc::services::room::counters_have_room;
use nullnet_grpc::services::service_info::{Place, RegisteredServiceInfo, Trigger, Upstream};
use nullnet_grpc::timeout::apply_timeouts;
use nullnet_grpc::vxlan::{cleanup_vxlans_chain, cleanup_vxlans_invalidated_service};

const SECOND: u128 = 1_000_000_000;

fn ip(a: u8, b: u8, c: u8, d: u8) -> IpAddr {
    IpAddr::V4(Ipv4Addr::new(a, b, c, d))
}

const PROXY: IpAddr = IpAddr::V4(Ipv4Addr { a: 5, b: 5, c: 5, d: 5 });

fn names(list: &[&str]) -> Vec<String> {
    list.iter().map(|s| s.to_string()).collect()
}

fn service(name: &str, dependencies: &[&str], max_networks: Option<u32>) -> ServiceToml {
    ServiceToml {
        name: name.to_string(),
        timeout: Some(10),
        proxy_dependencies: names(dependencies),
        triggers: Vec::new(),
        max_networks,
    }
}

/// A->B->C, of which A triggers T->C on port 5555. All run, on hosts that can be reached.
fn controller(max_networks: Option<u32>) -> NullnetGrpcImpl {
    let mut a = service("A", &["B", "C"], max_networks);
    a.triggers = vec![Trigger { port: 5555, chain: names(&["T", "C"]) }];
    let services = ServicesToml { services: vec![a] }.services_map(0);
    let mut server = NullnetGrpcImpl::new(services, Net::Vxlan);
    for (name, at) in [
        ("A", ip(1, 1, 1, 1)),
        ("B", ip(2, 2, 2, 2)),
        ("C", ip(3, 3, 3, 3)),
        ("T", ip(4, 4, 4, 4)),
    ] {
        add_replica(&mut server, name, at);
        server.orchestrator.add_client(at);
    }
    server.orchestrator.add_client(PROXY);
    server
}

fn add_replica(server: &mut NullnetGrpcImpl, name: &str, at: IpAddr) {
    server
        .services
        .get_mut(&name.to_string())
        .expect("a service")
        .add_replica(at, 8080, None);
}

fn registered<'a>(server: &'a NullnetGrpcImpl, name: &str) -> &'a RegisteredServiceInfo {
    server
        .services()
        .get(&name.to_string())
        .and_then(|si| si.as_registered())
        .expect("a running service")
}

fn set_up(
    server: &mut NullnetGrpcImpl,
    edges: Vec<RegisteredEdge>,
    acks: &[(bool, bool)],
    now: u128,
) -> Result<Option<Ipv4Addr>, RequestError> {
    let ids: Vec<(String, String)> = (0..edges.len())
        .map(|i| (format!("server {i}"), format!("client {i}")))
        .collect();
    server.net_chain_setup(edges, &ids, &acks.to_vec(), now, now)
}

fn request(server: &mut NullnetGrpcImpl, client: &str, now: u128) -> Result<ProxyReply, RequestError> {
    server.handle_proxy_request("A", PROXY, client, now)
}

fn connect(server: &mut NullnetGrpcImpl, client: &str, now: u128) -> Ipv4Addr {
    let Ok(ProxyReply::Setup(chain)) = request(server, client, now) else {
        panic!("no chain to set up");
    };
    let acks = vec![(true, true); chain.edges.len()];
    set_up(server, chain.edges, &acks, now)
        .expect("a chain")
        .expect("an upstream")
}

/// The connections that the graph draws, sorted.
fn connections(server: &NullnetGrpcImpl) -> Vec<String> {
    let graph = normalize_graphviz(&render_graphviz(server.services(), Net::Vxlan));
    let mut lines: Vec<String> = graph
        .lines()
        .filter(|line| line.contains("->"))
        .map(|line| line.trim().to_string())
        .collect();
    lines.sort();
    lines
}

fn refused(reply: Result<ProxyReply, RequestError>) -> RequestError {
    match reply {
        Err(e) => e,
        Ok(_) => panic!("not refused"),
    }
}

#[test]
fn requests_that_are_refused() {
    let mut server = controller(None);
    let reply = server.handle_proxy_request("nowhere", PROXY, "c", 0);
    assert_eq!(refused(reply), RequestError::ServiceNotFound);
    // B is only named on a chain
    let reply = server.handle_proxy_request("B", PROXY, "c", 0);
    assert_eq!(refused(reply), RequestError::NotEntryPoint);

    let services = ServicesToml { services: vec![service("A", &["B"], None)] }.services_map(0);
    let mut server = NullnetGrpcImpl::new(services, Net::Vxlan);
    assert_eq!(refused(request(&mut server, "c", 0)), RequestError::NotRegistered);
    add_replica(&mut server, "A", ip(1, 1, 1, 1));
    assert_eq!(
        refused(request(&mut server, "c", 0)),
        RequestError::DependencyNotRegistered
    );
    let chain = server.setup_proxy_chain("A", PROXY, "c", ip(1, 1, 1, 1), &None);
    assert!(matches!(chain, Err(RequestError::DependencyNotRegistered)));
    assert!(matches!(
        server.new_proxy_chain("A", PROXY, "c"),
        Err(RequestError::DependencyNotRegistered)
    ));
    assert!(connections(&server).is_empty());
}

#[test]
fn reasons_in_words() {
    assert_eq!(RequestError::ServiceNotFound.message(), "Service not found");
    assert_eq!(RequestError::NoReplicas.message(), "Service has no replicas");
    assert_eq!(RequestError::SetupFailed.message(), "NET chain setup failed");
    assert_eq!(
        RequestError::NoUpstream.message(),
        "No valid upstream IP found after NET chain setup"
    );
    assert_eq!(
        RequestError::NoInitiatorReplica.message(),
        "No initiator replica found on sender host"
    );
}

/// The chain of a new client leads along the dependencies, the client's own edge comes last.
#[test]
fn a_new_client_takes_a_chain() {
    let mut server = controller(None);
    let Ok(ProxyReply::Setup(chain)) = request(&mut server, "c", 0) else {
        panic!("no chain to set up");
    };
    assert_eq!(chain.port, 8080);
    let hops: Vec<(&str, &str)> = chain
        .edges
        .iter()
        .map(|e| (e.client.1.name().as_str(), e.server.1.name().as_str()))
        .collect();
    assert_eq!(hops, vec![("A", "B"), ("B", "C"), ("c", "A")]);
    assert_eq!(chain.edges[2].client.0, PROXY);
    assert_eq!(chain.edges[2].client.1.is_proxy(), Some(PROXY));
    assert_eq!(chain.edges[2].server.0, ip(1, 1, 1, 1));
}

/// A client that is connected is answered with the address that the set-up gave, again and again.
#[test]
fn a_connected_client_keeps_its_upstream() {
    let mut server = controller(None);
    let addr = connect(&mut server, "c", SECOND);
    // the identifiers go to the edges in order, and the upstream is on the server's bridge
    assert_eq!(addr, Ipv4Addr::new(10, 0, 3, 2));
    for now in [2 * SECOND, 3 * SECOND] {
        let Ok(ProxyReply::Ready(upstream)) = request(&mut server, "c", now) else {
            panic!("not ready");
        };
        assert_eq!(upstream, Upstream { ip: "10.0.3.2".to_string(), port: 8080 });
    }
    // each request counts as a use
    apply_timeouts(&mut server.services, &mut server.orchestrator, 13 * SECOND - 1);
    assert!(registered(&server, "A").has_clients());
    apply_timeouts(&mut server.services, &mut server.orchestrator, 13 * SECOND);
    assert!(!registered(&server, "A").has_clients());
}

/// Both ends of each edge are asked, the server's first.
#[test]
fn hosts_are_asked_to_set_up_their_ends() {
    let mut server = controller(None);
    connect(&mut server, "c", 0);
    let sent = server.orchestrator.take_outbox();
    let dests: Vec<IpAddr> = sent.iter().map(|d| d.dest).collect();
    assert_eq!(
        dests,
        vec![
            ip(2, 2, 2, 2),
            ip(1, 1, 1, 1),
            ip(3, 3, 3, 3),
            ip(2, 2, 2, 2),
            ip(1, 1, 1, 1),
            PROXY,
        ]
    );
    let ids: Vec<u32> = sent
        .iter()
        .map(|d| match &d.message {
            NetMessage::VxlanSetup(m) => m.vxlan_id,
            _ => 0,
        })
        .collect();
    assert_eq!(ids, vec![1, 1, 2, 2, 3, 3]);
}

/// Message identifiers are random, and written with hyphens.
#[test]
fn message_identifiers_are_fresh() {
    let mut server = controller(None);
    let Ok(ProxyReply::Setup(chain)) = request(&mut server, "c", 0) else {
        panic!("no chain to set up");
    };
    let mut ids: Vec<String> = Vec::new();
    for edge in chain.edges {
        let EdgeProgress::Pending(pending) = server.begin_edge(edge, 0) else {
            panic!("not pending");
        };
        ids.push(pending.server_msg.clone());
        ids.push(pending.client_msg.clone());
    }
    for id in &ids {
        let chars: Vec<char> = id.chars().collect();
        assert_eq!(chars.len(), 36);
        for (i, c) in chars.iter().enumerate() {
            match i {
                8 | 13 | 18 | 23 => assert_eq!(*c, '-'),
                14 => assert_eq!(*c, '4'),
                19 => assert!(matches!(c, '8' | '9' | 'a' | 'b')),
                _ => assert!(matches!(c, '0'..='9' | 'a'..='f')),
            }
        }
        assert_eq!(ids.iter().filter(|other| *other == id).count(), 1);
    }
}

/// A chain of which an edge fails leaves nothing behind, whichever edge it is.
#[test]
fn a_failed_chain_leaves_nothing_behind() {
    for failing in 0..3 {
        for ack in [(false, true), (true, false), (false, false)] {
            let mut server = controller(None);
            connect(&mut server, "first", 0);
            let before = connections(&server);
            let Ok(ProxyReply::Setup(chain)) = request(&mut server, "c", 0) else {
                panic!("no chain to set up");
            };
            // the edges between services are there already, the client's own is new
            let mut acks = vec![(true, true); 3];
            acks[failing] = ack;
            let result = set_up(&mut server, chain.edges, &acks, 0);
            if failing == 2 {
                assert_eq!(result, Err(RequestError::SetupFailed));
                assert_eq!(connections(&server), before);
                assert_eq!(server.orchestrator().net_ids_in_use(), 3);
            } else {
                assert!(result.is_ok());
            }

            // without another chain every edge is new
            let mut server = controller(None);
            let Ok(ProxyReply::Setup(chain)) = request(&mut server, "c", 0) else {
                panic!("no chain to set up");
            };
            let result = set_up(&mut server, chain.edges, &acks, 0);
            assert_eq!(result, Err(RequestError::SetupFailed));
            assert!(connections(&server).is_empty());
            assert_eq!(server.orchestrator().net_ids_in_use(), 0);
        }
    }
}

/// An edge to a host without a control channel fails.
#[test]
fn unreachable_hosts_fail_a_chain() {
    let mut server = controller(None);
    server.orchestrator.remove_client(&ip(2, 2, 2, 2));
    let Ok(ProxyReply::Setup(chain)) = request(&mut server, "c", 0) else {
        panic!("no chain to set up");
    };
    let acks = vec![(true, true); 3];
    assert_eq!(
        set_up(&mut server, chain.edges, &acks, 0),
        Err(RequestError::SetupFailed)
    );
    assert!(connections(&server).is_empty());
}

/// What is set up for a client is taken down when it times out.
#[test]
fn a_chain_is_taken_down_with_its_last_client() {
    let mut server = controller(None);
    connect(&mut server, "c", 0);
    connect(&mut server, "d", SECOND);
    assert_eq!(server.orchestrator().net_ids_in_use(), 4);

    apply_timeouts(&mut server.services, &mut server.orchestrator, 10 * SECOND);
    assert_eq!(server.orchestrator().net_ids_in_use(), 3);
    assert_eq!(
        connections(&server),
        names(&["\"A\" -> \"B\";", "\"B\" -> \"C\";", "\"d\" -> \"A\";"])
    );

    apply_timeouts(&mut server.services, &mut server.orchestrator, 11 * SECOND);
    assert_eq!(server.orchestrator().net_ids_in_use(), 0);
    assert!(connections(&server).is_empty());
}

#[test]
fn the_edges_of_a_chain_are_collected() {
    let mut server = controller(None);
    connect(&mut server, "c", 0);
    let edges = collect_dep_chain_edges(&"A".to_string(), ip(1, 1, 1, 1), &None, server.services());
    let pairs: Vec<(&str, &str)> = edges
        .iter()
        .map(|(client, name)| (client.name().as_str(), name.as_str()))
        .collect();
    // A is looked up at all of its dependencies, B at its own
    assert_eq!(pairs, vec![("A", "B"), ("A", "C"), ("B", "C")]);
}

#[test]
fn filters_select_proxy_clients() {
    let mut server = controller(None);
    connect(&mut server, "c", 0);
    connect(&mut server, "d", 0);
    let client = Client::new("c".to_string(), Some(PROXY));
    teardown_chain(
        &"A".to_string(),
        &mut server.services,
        &mut server.orchestrator,
        &ProxyFilter::ByClient(client),
    );
    assert_eq!(registered(&server, "A").client_count(), 1);
    teardown_chain(
        &"A".to_string(),
        &mut server.services,
        &mut server.orchestrator,
        &ProxyFilter::ByIp(ip(9, 9, 9, 9)),
    );
    assert_eq!(registered(&server, "A").client_count(), 1);
    teardown_chain(
        &"A".to_string(),
        &mut server.services,
        &mut server.orchestrator,
        &ProxyFilter::All,
    );
    assert_eq!(registered(&server, "A").client_count(), 0);
    assert_eq!(server.orchestrator().net_ids_in_use(), 0);
}

#[test]
fn chains_are_cleaned_up_by_service() {
    let mut server = controller(None);
    connect(&mut server, "c", 0);
    cleanup_vxlans_chain("A", &mut server.services, &mut server.orchestrator, Some(ip(9, 9, 9, 9)));
    assert_eq!(server.orchestrator().net_ids_in_use(), 3);
    cleanup_vxlans_chain("A", &mut server.services, &mut server.orchestrator, None);
    assert_eq!(server.orchestrator().net_ids_in_use(), 0);

    connect(&mut server, "c", 0);
    cleanup_vxlans_invalidated_service("C", true, &mut server.services, &mut server.orchestrator);
    assert_eq!(server.orchestrator().net_ids_in_use(), 0);
    assert!(server
        .services()
        .get(&"C".to_string())
        .is_some_and(|si| si.as_registered().is_none()));
}

/// From the limit on, clients of a proxy share its least used network.
#[test]
fn clients_share_networks_at_the_limit() {
    let mut server = controller(Some(1));
    let addr = connect(&mut server, "c", 0);
    assert_eq!(server.orchestrator().net_ids_in_use(), 3);

    let Ok(ProxyReply::Share(network)) = request(&mut server, "d", SECOND) else {
        panic!("nothing to share");
    };
    assert_eq!(network.entry.client.name(), "c");
    assert!(counters_have_room(server.services(), 1 + network.edges.len()));
    let upstream = server.share_network("A", PROXY, "d", network, SECOND);
    assert_eq!(upstream, Upstream { ip: addr.to_text(), port: 8080 });
    assert_eq!(server.orchestrator().net_ids_in_use(), 3);
    assert_eq!(registered(&server, "A").client_count(), 2);

    // the chain stays for the second client
    apply_timeouts(&mut server.services, &mut server.orchestrator, 10 * SECOND);
    assert_eq!(
        connections(&server),
        names(&["\"A\" -> \"B\";", "\"B\" -> \"C\";", "\"d\" -> \"A\";"])
    );

    // another proxy has no network to share
    let other = ip(6, 6, 6, 6);
    let reply = server.handle_proxy_request("A", other, "e", 10 * SECOND);
    assert!(matches!(reply, Ok(ProxyReply::Setup(_))));
}

fn trigger(server: &mut NullnetGrpcImpl, now: u128) -> Result<TriggerReply, RequestError> {
    server.handle_backend_trigger("A", ip(1, 1, 1, 1), 5555, now)
}

/// Sets up the chain that a trigger asks for, on hosts that all answer alike.
fn set_up_trigger(
    server: &mut NullnetGrpcImpl,
    edges: Vec<RegisteredEdge>,
    ack: bool,
    now: u128,
) -> Result<(), RequestError> {
    let entry = edges[0].clone();
    let mut outcomes: Vec<EdgeOutcome> = Vec::new();
    for edge in edges {
        match server.begin_edge(edge, now) {
            EdgeProgress::Finished(outcome) => outcomes.push(outcome),
            EdgeProgress::Pending(pending) => {
                outcomes.push(server.finish_edge(pending, ack, ack, now));
            }
        }
    }
    server.finish_backend_chain(outcomes, &entry)
}

fn is_entry(server: &NullnetGrpcImpl, name: &str) -> bool {
    registered(server, name)
        .all_clients_owned()
        .iter()
        .any(|e| e.info.is_backend_entry())
}

#[test]
fn triggers_that_are_refused() {
    let mut server = controller(None);
    let at = ip(1, 1, 1, 1);
    let refused = |reply: Result<TriggerReply, RequestError>| match reply {
        Err(e) => e,
        Ok(_) => panic!("not refused"),
    };
    assert_eq!(
        refused(server.handle_backend_trigger("nowhere", at, 5555, 0)),
        RequestError::InitiatorNotFound
    );
    assert_eq!(
        refused(server.handle_backend_trigger("B", ip(2, 2, 2, 2), 5555, 0)),
        RequestError::InitiatorNotEntryPoint
    );
    assert_eq!(
        refused(server.handle_backend_trigger("A", ip(2, 2, 2, 2), 5555, 0)),
        RequestError::NoInitiatorReplica
    );
    assert_eq!(
        refused(server.handle_backend_trigger("A", at, 5556, 0)),
        RequestError::NoDependencies
    );
    server.handle_node_disconnect(ip(4, 4, 4, 4));
    assert_eq!(
        refused(trigger(&mut server, 0)),
        RequestError::DependencyNotRegistered
    );
    server.handle_node_disconnect(at);
    assert_eq!(
        refused(trigger(&mut server, 0)),
        RequestError::InitiatorNotRegistered
    );
}

/// A trigger sets up the chain of its port once; after that it marks the chain as used. The chain is
/// taken down when it has not been used for the initiator's timeout.
#[test]
fn a_trigger_sets_up_its_chain() {
    let mut server = controller(None);
    let Ok(TriggerReply::Setup(edges)) = trigger(&mut server, 0) else {
        panic!("no chain to set up");
    };
    assert!(edges[0].is_backend_entry);
    assert!(!edges[1].is_backend_entry);
    assert_eq!(set_up_trigger(&mut server, edges, true, 0), Ok(()));
    assert_eq!(
        connections(&server),
        names(&["\"A\" -> \"T\";", "\"T\" -> \"C\";"])
    );

    assert!(matches!(trigger(&mut server, 5 * SECOND), Ok(TriggerReply::Refreshed)));
    apply_timeouts(&mut server.services, &mut server.orchestrator, 15 * SECOND - 1);
    assert_eq!(server.orchestrator().net_ids_in_use(), 2);
    apply_timeouts(&mut server.services, &mut server.orchestrator, 15 * SECOND);
    assert_eq!(server.orchestrator().net_ids_in_use(), 0);
    assert!(connections(&server).is_empty());
}

#[test]
fn a_chain_can_be_named_for_a_trigger() {
    let server = controller(None);
    let edges = server
        .setup_backend_chain("A", ip(1, 1, 1, 1), &None, &names(&["T"]))
        .expect("a chain");
    assert_eq!(edges.len(), 1);
    assert!(edges[0].is_backend_entry);
    let none = server.setup_backend_chain("A", ip(1, 1, 1, 1), &None, &names(&["X"]));
    assert!(matches!(none, Err(RequestError::DependencyNotRegistered)));
}

/// The upstream of a chain is the address of its proxy client; a chain without one has none.
#[test]
fn the_upstream_of_a_finished_chain() {
    let mut server = controller(None);
    let Ok(ProxyReply::Setup(chain)) = request(&mut server, "c", 0) else {
        panic!("no chain to set up");
    };
    let mut outcomes: Vec<EdgeOutcome> = Vec::new();
    for edge in chain.edges {
        let EdgeProgress::Pending(pending) = server.begin_edge(edge, 0) else {
            panic!("not pending");
        };
        outcomes.push(server.finish_edge(pending, true, true, 12_000_000));
    }
    assert_eq!(
        server.finish_proxy_chain(outcomes, chain.port),
        Ok(Upstream { ip: "10.0.3.2".to_string(), port: 8080 })
    );
    assert_eq!(server.finish_proxy_chain(Vec::new(), 80), Err(RequestError::NoUpstream));
    assert_eq!(
        server.finish_proxy_chain(vec![EdgeOutcome::Failed], 80),
        Err(RequestError::SetupFailed)
    );
}

#[test]
fn ports_have_to_be_in_range() {
    let list = vec![("A".to_string(), 65535u32, None), ("B".to_string(), 0, Some("b".to_string()))];
    assert_eq!(
        parse_services_list(&list),
        Ok(vec![("A".to_string(), 65535u16, None), ("B".to_string(), 0, Some("b".to_string()))])
    );
    let list = vec![("A".to_string(), 80u32, None), ("B".to_string(), 65536, None)];
    assert_eq!(parse_services_list(&list), Err(RequestError::InvalidPort));
}

/// The graph of a chain, with the network and the duration of each connection.
#[test]
fn the_graph_of_a_chain() {
    let services = ServicesToml { services: vec![service("A", &["B"], None)] }.services_map(0);
    let mut server = NullnetGrpcImpl::new(services, Net::Vxlan);
    let head = "digraph G {\n\tbgcolor=grey10;\n\tnode [color=white, fontcolor=white];\n\tedge [color=white, fontcolor=white, fontsize=9, labelangle=180, labeldistance=0.8];\n";
    let first = render_graphviz(server.services(), Net::Vxlan);
    assert!(first.starts_with(head));
    assert!(first.contains("\n\t\"A\" [style=solid, color=red];\n"));
    assert!(first.contains("\n\t\"B\" [style=dashed, color=red];\n"));
    assert!(first.ends_with("];\n}\n"));

    add_replica(&mut server, "A", ip(1, 1, 1, 1));
    add_replica(&mut server, "B", ip(2, 2, 2, 2));
    for at in [ip(1, 1, 1, 1), ip(2, 2, 2, 2), PROXY] {
        server.orchestrator.add_client(at);
    }
    let Ok(ProxyReply::Setup(chain)) = request(&mut server, "c", 0) else {
        panic!("no chain to set up");
    };
    let ids = vec![
        ("1".to_string(), "2".to_string()),
        ("3".to_string(), "4".to_string()),
    ];
    server
        .net_chain_setup(chain.edges, &ids, &vec![(true, true); 2], 0, 12_999_999)
        .expect("a chain");
    let graph = render_graphviz(server.services(), Net::Vxlan);
    assert!(graph.contains(
        "\n\t\"A\" [style=solid, color=green];\n\t\"c\" -> \"A\" [label=\"VXLAN 2 [12ms]\"];\n"
    ));
    assert!(graph.contains(
        "\n\t\"B\" [style=dashed, color=green];\n\t\"A\" -> \"B\" [label=\"VXLAN 1 [12ms]\"];\n"
    ));
    let plain = normalize_graphviz(&graph);
    assert!(plain.contains("\n\t\"c\" -> \"A\";\n"));
    assert!(!plain.contains("label=\""));
    assert_eq!(normalize_graphviz(&plain), plain);

    let entry = &registered(&server, "A").all_clients_owned()[0];
    assert_eq!(
        entry.info.graphviz_edge_label(Net::Vlan, true),
        "[label=\"VLAN 2 [12ms]\", taillabel=\"10.0.2.4\", headlabel=\"10.0.2.2\"]"
    );
}

#[test]
fn lines_are_stripped_where_they_draw_a_connection() {
    assert_eq!(normalize_graphviz("a -> b [label=\"x\"];\r\nc [label=\"y\"];\n"), "a -> b;\nc [label=\"y\"];");
    assert_eq!(normalize_graphviz(""), "");
    assert_eq!(normalize_graphviz("\n\na -> b;"), "\n\na -> b;");
}

/// Graphs of the same connections are equal once they are normalised.
#[test]
fn graphs_compare_by_their_connections() {
    let mut first = controller(None);
    connect(&mut first, "c", 0);
    let mut second = controller(None);
    assert_eq!(second.orchestrator.allocate_net_id(), Some(1));
    connect(&mut second, "c", SECOND);
    let graphs = [&first, &second].map(|s| render_graphviz(s.services(), Net::Vxlan));
    assert_ne!(graphs[0], graphs[1]);
    assert_eq!(normalize_graphviz(&graphs[0]), normalize_graphviz(&graphs[1]));
}

/// A controller whose service A triggers the given chains.
fn with_triggers(triggers: &[(u16, &[&str])]) -> NullnetGrpcImpl {
    let mut server = controller(None);
    reconfigure(&mut server, triggers);
    server
}

fn reconfigure(server: &mut NullnetGrpcImpl, triggers: &[(u16, &[&str])]) {
    let mut a = service("A", &["B", "C"], None);
    a.triggers = triggers
        .iter()
        .map(|(port, chain)| Trigger { port: *port, chain: names(chain) })
        .collect();
    let loaded = ServicesToml { services: vec![a, service("T", &[], None)] }.services_map(0);
    apply_config_update(&mut server.services, loaded, &mut server.orchestrator, 0);
}

fn trigger_port(
    server: &mut NullnetGrpcImpl,
    port: u16,
    now: u128,
) -> Result<TriggerReply, RequestError> {
    server.handle_backend_trigger("A", ip(1, 1, 1, 1), port, now)
}

fn serve(server: &mut NullnetGrpcImpl, port: u16, now: u128) {
    let Ok(TriggerReply::Setup(edges)) = trigger_port(server, port, now) else {
        panic!("no chain to set up");
    };
    assert_eq!(set_up_trigger(server, edges, true, now), Ok(()));
}

/// Each port has its chain, also where two chains start alike. They are taken down together when the
/// connection that they share has not been used.
#[test]
fn each_port_has_its_chain() {
    let mut server = with_triggers(&[(1, &["T", "B"]), (2, &["T", "C"])]);
    serve(&mut server, 1, 0);
    assert_eq!(
        connections(&server),
        names(&["\"A\" -> \"T\";", "\"T\" -> \"B\";"])
    );
    serve(&mut server, 2, SECOND);
    assert_eq!(
        connections(&server),
        names(&["\"A\" -> \"T\";", "\"T\" -> \"B\";", "\"T\" -> \"C\";"])
    );
    // after that both are there
    for port in [1, 2] {
        assert!(matches!(
            trigger_port(&mut server, port, 2 * SECOND),
            Ok(TriggerReply::Refreshed)
        ));
    }
    assert_eq!(server.orchestrator().net_ids_in_use(), 3);

    apply_timeouts(&mut server.services, &mut server.orchestrator, 12 * SECOND - 1);
    assert_eq!(server.orchestrator().net_ids_in_use(), 3);
    apply_timeouts(&mut server.services, &mut server.orchestrator, 12 * SECOND);
    assert_eq!(server.orchestrator().net_ids_in_use(), 0);
    assert!(connections(&server).is_empty());
}

/// A triggered chain over a connection that is there for a proxy client ends without it.
#[test]
fn a_triggered_chain_shares_a_connection() {
    let mut server = with_triggers(&[(1, &["B", "T"])]);
    connect(&mut server, "c", 0);
    assert!(!is_entry(&server, "B"));
    serve(&mut server, 1, 0);
    assert!(is_entry(&server, "B"));
    assert_eq!(server.orchestrator().net_ids_in_use(), 4);

    // the client stays, the trigger does not come again
    assert!(matches!(request(&mut server, "c", 5 * SECOND), Ok(ProxyReply::Ready(_))));
    for now in [10 * SECOND, 11 * SECOND] {
        apply_timeouts(&mut server.services, &mut server.orchestrator, now);
        assert_eq!(
            connections(&server),
            names(&["\"A\" -> \"B\";", "\"B\" -> \"C\";", "\"c\" -> \"A\";"])
        );
        assert!(!is_entry(&server, "B"));
    }
    apply_timeouts(&mut server.services, &mut server.orchestrator, 15 * SECOND);
    assert_eq!(server.orchestrator().net_ids_in_use(), 0);
}

/// A triggered chain that fails leaves nothing behind.
#[test]
fn a_failed_trigger_leaves_nothing_behind() {
    let mut server = with_triggers(&[(1, &["B", "T"])]);
    connect(&mut server, "c", 0);
    let before = connections(&server);
    let Ok(TriggerReply::Setup(edges)) = trigger_port(&mut server, 1, 0) else {
        panic!("no chain to set up");
    };
    assert_eq!(
        set_up_trigger(&mut server, edges, false, 0),
        Err(RequestError::SetupFailed)
    );
    assert_eq!(connections(&server), before);
    assert!(!is_entry(&server, "B"));
    assert_eq!(server.orchestrator().net_ids_in_use(), 3);
}

/// A service that stops takes the proxy chains over it along. A triggered chain keeps its entry until it
/// times out, and the trigger is answered as before.
#[test]
fn triggered_chains_outlast_a_service() {
    let mut server = with_triggers(&[(1, &["T", "C"])]);
    connect(&mut server, "c", 0);
    serve(&mut server, 1, 0);
    server.apply_services_list(ip(2, 2, 2, 2), &Vec::new());
    assert_eq!(
        connections(&server),
        names(&["\"A\" -> \"T\";", "\"T\" -> \"C\";"])
    );
    server.apply_services_list(ip(3, 3, 3, 3), &Vec::new());
    assert_eq!(connections(&server), names(&["\"A\" -> \"T\";"]));
    assert!(matches!(
        trigger_port(&mut server, 1, SECOND),
        Ok(TriggerReply::Refreshed)
    ));
    apply_timeouts(&mut server.services, &mut server.orchestrator, 11 * SECOND);
    assert!(connections(&server).is_empty());
}

/// A trigger that is configured otherwise leaves connections alone. The entry of the chain before goes
/// when it times out.
#[test]
fn triggers_are_configured_otherwise() {
    let mut server = with_triggers(&[(1, &["T"])]);
    connect(&mut server, "c", 0);
    serve(&mut server, 1, 0);
    reconfigure(&mut server, &[(1, &["C"])]);
    assert_eq!(server.orchestrator().net_ids_in_use(), 4);
    serve(&mut server, 1, 5 * SECOND);
    assert_eq!(server.orchestrator().net_ids_in_use(), 5);
    apply_timeouts(&mut server.services, &mut server.orchestrator, 10 * SECOND);
    assert_eq!(connections(&server), names(&["\"A\" -> \"C\";"]));
    apply_timeouts(&mut server.services, &mut server.orchestrator, 15 * SECOND);
    assert_eq!(server.orchestrator().net_ids_in_use(), 0);
}

/// Services that run on hosts that can be reached, each with its own dependencies.
fn network(declared: &[(&str, &[&str])]) -> NullnetGrpcImpl {
    let services = declared.iter().map(|(name, deps)| service(name, deps, None)).collect();
    let mut server = NullnetGrpcImpl::new(ServicesToml { services }.services_map(0), Net::Vxlan);
    for (i, (name, _)) in declared.iter().enumerate() {
        let at = ip(1, 1, 1, i as u8);
        add_replica(&mut server, name, at);
        server.orchestrator.add_client(at);
    }
    server.orchestrator.add_client(PROXY);
    server
}

fn connect_to(server: &mut NullnetGrpcImpl, name: &str, client: &str) {
    let Ok(ProxyReply::Setup(chain)) = server.handle_proxy_request(name, PROXY, client, 0) else {
        panic!("no chain to set up");
    };
    let acks = vec![(true, true); chain.edges.len()];
    assert!(set_up(server, chain.edges, &acks, 0).is_ok());
}

/// A chain is taken down along the list that it was set up along, whatever its members are declared
/// with.
#[test]
fn chains_follow_the_list_of_their_service() {
    for member in [&[] as &[&str], &["E"]] {
        let mut server = network(&[("A", &["C", "D"]), ("C", member), ("D", &[]), ("E", &[])]);
        connect_to(&mut server, "A", "c");
        let before = connections(&server);
        assert_eq!(
            before,
            names(&["\"A\" -> \"C\";", "\"C\" -> \"D\";", "\"c\" -> \"A\";"])
        );
        // the chain of C has a connection of its own
        connect_to(&mut server, "C", "d");
        let client = Client::new("c".to_string(), Some(PROXY));
        teardown_chain(
            &"A".to_string(),
            &mut server.services,
            &mut server.orchestrator,
            &ProxyFilter::ByClient(client),
        );
        let left: &[&str] = if member.is_empty() {
            &["\"d\" -> \"C\";"]
        } else {
            &["\"C\" -> \"E\";", "\"d\" -> \"C\";"]
        };
        assert_eq!(connections(&server), names(left));
        assert_eq!(server.orchestrator().net_ids_in_use(), left.len());
    }
}

/// Clients that share a network keep the whole chain in use.
#[test]
fn shared_networks_follow_the_list_of_their_service() {
    let mut services = vec![service("A", &["C", "D"], Some(1))];
    services.push(service("C", &[], None));
    let mut server = NullnetGrpcImpl::new(ServicesToml { services }.services_map(0), Net::Vxlan);
    for (name, at) in [("A", ip(1, 1, 1, 1)), ("C", ip(2, 2, 2, 2)), ("D", ip(3, 3, 3, 3))] {
        add_replica(&mut server, name, at);
        server.orchestrator.add_client(at);
    }
    server.orchestrator.add_client(PROXY);
    connect_to(&mut server, "A", "c");
    let Ok(ProxyReply::Share(network)) = request(&mut server, "d", SECOND) else {
        panic!("nothing to share");
    };
    let pairs: Vec<(&str, &str)> = network
        .edges
        .iter()
        .map(|(client, name)| (client.name().as_str(), name.as_str()))
        .collect();
    assert_eq!(pairs, vec![("A", "C"), ("C", "D")]);
    let upstream = server.share_network("A", PROXY, "d", network, SECOND);
    // asked again, the client is answered alike
    let Ok(ProxyReply::Ready(again)) = request(&mut server, "d", SECOND) else {
        panic!("not ready");
    };
    assert_eq!(again, upstream);
    apply_timeouts(&mut server.services, &mut server.orchestrator, 10 * SECOND);
    assert_eq!(
        connections(&server),
        names(&["\"A\" -> \"C\";", "\"C\" -> \"D\";", "\"d\" -> \"A\";"])
    );
    apply_timeouts(&mut server.services, &mut server.orchestrator, 11 * SECOND);
    assert!(connections(&server).is_empty());
}

/// Services that depend on each other: cleaning up one leaves the other connected to it.
#[test]
fn cleaning_up_spares_other_services() {
    let mut server = network(&[("A", &["B"]), ("B", &["A"])]);
    connect_to(&mut server, "A", "c");
    connect_to(&mut server, "B", "d");
    assert_eq!(server.orchestrator().net_ids_in_use(), 4);
    cleanup_vxlans_chain("A", &mut server.services, &mut server.orchestrator, None);
    assert_eq!(
        connections(&server),
        names(&["\"B\" -> \"A\";", "\"d\" -> \"B\";"])
    );
    assert_eq!(server.orchestrator().net_ids_in_use(), 2);
}

/// The replicas of a service in a place go with the chains through them.
#[test]
fn replicas_go_with_their_chains() {
    let mut server = controller(None);
    add_replica(&mut server, "B", ip(3, 3, 3, 3));
    connect(&mut server, "c", 0);
    teardown_partial_replicas(
        &"B".to_string(),
        Place::Host(ip(2, 2, 2, 2)),
        &mut server.services,
        &mut server.orchestrator,
    );
    let replicas = registered(&server, "B").replicas();
    assert_eq!(replicas.len(), 1);
    assert_eq!(replicas[0].ip(), ip(3, 3, 3, 3));
    assert!(connections(&server).is_empty());
    assert_eq!(server.orchestrator().net_ids_in_use(), 0);
}

/// Replicas on other hosts keep their order when a host sends its list, and the list changes nothing
/// when it comes again.
#[test]
fn replicas_elsewhere_keep_their_order() {
    let mut server = controller(None);
    for (at, docker) in [(7, None), (8, Some("x")), (7, Some("y")), (9, None)] {
        server
            .services
            .get_mut(&"B".to_string())
            .expect("a service")
            .add_replica(ip(at, 0, 0, 0), 80, docker.map(String::from));
    }
    let offer = |docker: &str, port: u16| ("B".to_string(), port, Some(docker.to_string()));
    let list = vec![offer("z", 1), offer("y", 2), offer("z", 3)];
    let mut seen: Vec<Vec<(IpAddr, u16, Option<String>)>> = Vec::new();
    for _ in 0..2 {
        server.apply_services_list(ip(7, 0, 0, 0), &list);
        seen.push(
            registered(&server, "B")
                .replicas()
                .iter()
                .map(|r| (r.ip(), r.port(), r.docker_container().clone()))
                .collect(),
        );
    }
    assert_eq!(
        seen[0],
        vec![
            (ip(2, 2, 2, 2), 8080, None),
            (ip(8, 0, 0, 0), 80, Some("x".to_string())),
            (ip(7, 0, 0, 0), 2, Some("y".to_string())),
            (ip(9, 0, 0, 0), 80, None),
            (ip(7, 0, 0, 0), 3, Some("z".to_string())),
        ]
    );
    assert_eq!(seen[0], seen[1]);
}

/// What follows the start of a label is lost alone, and only once.
#[test]
fn labels_alone_are_lost() {
    let one = "x\na -> b [label=1];\nc [label=2];\n";
    let other = "x\na -> b [label=\"other\", color=red];\nc [label=2];\n";
    assert_eq!(normalize_graphviz(one), normalize_graphviz(other));
    assert_ne!(normalize_graphviz(one), normalize_graphviz("x\na -> b [label=1];\nc;\n"));
    for text in [one, other, "", "\n", "a -> b [label= [label=", "a\r"] {
        let plain = normalize_graphviz(text);
        assert_eq!(normalize_graphviz(&plain), plain);
    }
    // a last line that is empty is lost
    assert_eq!(normalize_graphviz("a\n\n"), "a\n");
    assert_eq!(normalize_graphviz("a\n"), "a");
}

/// The clients of each replica of a service.
fn clients_of(server: &NullnetGrpcImpl, name: &str) -> Vec<usize> {
    registered(server, name)
        .replicas()
        .iter()
        .map(|r| r.clients().len())
        .collect()
}

/// A chain may connect a client to another replica of a service than chains before did. Where it fails,
/// the connections before stay, and the one that it reserved or made is given up.
#[test]
fn failed_chains_spare_other_replicas() {
    let other = ip(6, 6, 6, 6);
    let mut server = controller(None);
    add_replica(&mut server, "B", other);
    server.orchestrator.add_client(other);
    connect(&mut server, "c", 0);
    assert_eq!(clients_of(&server, "B"), vec![1, 0]);
    let before = connections(&server);
    // the edges lead from A to B, from B to C and from the client to A
    for acks in [
        [(false, true), (true, true), (true, true)],
        [(true, true), (true, false), (true, true)],
        [(true, true), (true, true), (false, false)],
    ] {
        let Ok(ProxyReply::Setup(chain)) = request(&mut server, "d", 0) else {
            panic!("no chain to set up");
        };
        assert_eq!(chain.edges[0].server.0, other);
        assert_eq!(
            set_up(&mut server, chain.edges, &acks, 0),
            Err(RequestError::SetupFailed)
        );
        assert_eq!(clients_of(&server, "B"), vec![1, 0]);
        assert_eq!(connections(&server), before);
        assert_eq!(server.orchestrator().net_ids_in_use(), 3);
    }

    // a chain over the same replica counts there
    connect(&mut server, "d", 0);
    assert_eq!(clients_of(&server, "B"), vec![1, 1]);
    assert_eq!(server.orchestrator().net_ids_in_use(), 6);
    let edge = server
        .setup_proxy_chain("A", PROXY, "e", ip(1, 1, 1, 1), &None)
        .expect("a chain")
        .remove(0);
    let again = RegisteredEdge {
        server: (other, edge.server.1.clone()),
        ..edge
    };
    assert!(set_up(&mut server, vec![again], &[(true, true)], 0).is_ok());
    let counts: Vec<usize> = registered(&server, "B")
        .all_clients_owned()
        .iter()
        .map(|e| e.info.active_chains())
        .collect();
    assert_eq!(counts, vec![1, 2]);
}

/// Chains over different replicas are all taken down.
#[test]
fn chains_over_several_replicas_are_taken_down() {
    let other = ip(6, 6, 6, 6);
    let mut server = controller(None);
    add_replica(&mut server, "B", other);
    server.orchestrator.add_client(other);
    connect(&mut server, "c", 0);
    connect(&mut server, "d", SECOND);
    assert_eq!(clients_of(&server, "B"), vec![1, 1]);
    apply_timeouts(&mut server.services, &mut server.orchestrator, 10 * SECOND);
    apply_timeouts(&mut server.services, &mut server.orchestrator, 11 * SECOND);
    assert_eq!(server.orchestrator().net_ids_in_use(), 0);
    assert!(connections(&server).is_empty());
}

/// A triggered chain over another replica than a proxy chain has its entry there: it is kept in use, and
/// goes, without the proxy chain.
#[test]
fn a_triggered_chain_has_its_own_replica() {
    let other = ip(6, 6, 6, 6);
    let mut server = with_triggers(&[(1, &["B", "T"])]);
    add_replica(&mut server, "B", other);
    server.orchestrator.add_client(other);
    connect(&mut server, "c", 0);
    serve(&mut server, 1, 0);
    assert_eq!(clients_of(&server, "B"), vec![1, 1]);
    let entries: Vec<bool> = registered(&server, "B")
        .all_clients_owned()
        .iter()
        .map(|e| e.info.is_backend_entry())
        .collect();
    assert_eq!(entries, vec![false, true]);
    for now in [5 * SECOND, 10 * SECOND] {
        assert!(matches!(trigger_port(&mut server, 1, now), Ok(TriggerReply::Refreshed)));
        assert!(matches!(request(&mut server, "c", now), Ok(ProxyReply::Ready(_))));
        apply_timeouts(&mut server.services, &mut server.orchestrator, now);
        assert_eq!(server.orchestrator().net_ids_in_use(), 5);
    }

    // the client stays, the trigger does not come again
    assert!(matches!(request(&mut server, "c", 15 * SECOND), Ok(ProxyReply::Ready(_))));
    apply_timeouts(&mut server.services, &mut server.orchestrator, 20 * SECOND);
    assert_eq!(clients_of(&server, "B"), vec![1, 0]);
    assert_eq!(
        connections(&server),
        names(&["\"A\" -> \"B\";", "\"B\" -> \"C\";", "\"c\" -> \"A\";"])
    );
    assert_eq!(server.orchestrator().net_ids_in_use(), 3);
    apply_timeouts(&mut server.services, &mut server.orchestrator, 25 * SECOND);
    assert_eq!(server.orchestrator().net_ids_in_use(), 0);
}

/// A trigger whose chain no other starts like is answered without a set-up as soon as its replica is
/// connected to the first service.
#[test]
fn a_trigger_keeps_to_its_entry() {
    let mut server = with_triggers(&[(1, &["B", "C"])]);
    connect(&mut server, "c", 0);
    // the dependencies of A are the same chain
    assert!(matches!(trigger_port(&mut server, 1, 0), Ok(TriggerReply::Refreshed)));
    assert_eq!(server.orchestrator().net_ids_in_use(), 3);
    apply_timeouts(&mut server.services, &mut server.orchestrator, 10 * SECOND);
    assert_eq!(server.orchestrator().net_ids_in_use(), 0);
    serve(&mut server, 1, 10 * SECOND);
    assert!(matches!(
        trigger_port(&mut server, 1, 10 * SECOND),
        Ok(TriggerReply::Refreshed)
    ));
    assert_eq!(server.orchestrator().net_ids_in_use(), 2);
}

/// A host that closed its control channel is connected no more, however often it had opened it.
#[test]
fn hosts_connect_once() {
    let mut server = controller(None);
    let host = ip(2, 2, 2, 2);
    server.orchestrator.add_client(host);
    server.orchestrator.add_client(host);
    assert!(server.orchestrator().is_connected(host));
    server.handle_node_disconnect(host);
    assert!(!server.orchestrator().is_connected(host));
    assert!(server.orchestrator().is_connected(ip(1, 1, 1, 1)));
}
