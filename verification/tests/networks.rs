//! The address plan, the messages to hosts, and the orchestrator.

use nullnet_grpc::addr::{IpAddr, Ipv4Addr};
use nullnet_grpc::fixtures::fixture_path;
use nullnet_grpc::net::{br_name_of, ns_name_of, Net, NetMessage};
use nullnet_grpc::orchestrator::{Orchestrator, MAX_NET_ID};
use nullnet_grpc::services::service_info::Services;
use nullnet_grpc::text::{
    copy_list, copy_option, decimal, list_contains, same_list, same_option,
};

fn ip(a: u8, b: u8, c: u8, d: u8) -> IpAddr {
    IpAddr::V4(Ipv4Addr::new(a, b, c, d))
}

#[test]
fn fixture_path_joins_its_parts() {
    assert_eq!(fixture_path("/root", "a", "b.toml"), "/root/tests/fixtures/a/b.toml");
}

#[test]
fn addresses_are_written_in_dotted_form() {
    assert_eq!(Ipv4Addr::new(10, 0, 255, 7).to_text(), "10.0.255.7");
    assert_eq!(Ipv4Addr::unspecified().to_text(), "0.0.0.0");
}

#[test]
fn numbers_are_written_in_decimal() {
    assert_eq!(decimal(0), "0");
    assert_eq!(decimal(9), "9");
    assert_eq!(decimal(10), "10");
    assert_eq!(decimal(u128::MAX), u128::MAX.to_string());
}

#[test]
fn lists_and_options_compare_by_content() {
    let a = vec!["x".to_string(), "y".to_string()];
    assert!(same_list(&a, &copy_list(&a)));
    assert!(!same_list(&a, &vec!["x".to_string()]));
    assert!(!same_list(&a, &vec!["y".to_string(), "x".to_string()]));
    assert!(list_contains(&a, &"y".to_string()));
    assert!(!list_contains(&a, &"z".to_string()));
    let some = Some("x".to_string());
    assert!(same_option(&some, &copy_option(&some)));
    assert!(!same_option(&some, &Some("y".to_string())));
    assert!(!same_option(&some, &None));
    assert!(same_option(&None, &None));
}

#[test]
fn names_of_a_network() {
    assert_eq!(ns_name_of(17), "ns_17");
    assert_eq!(br_name_of(65535), "br_65535");
}

/// The client's end of a VXLAN, whose written networks come out of the network library.
#[test]
fn vxlan_setup_for_the_client() {
    let (addr, message) = Net::Vxlan
        .setup(
            "id".to_string(),
            ip(1, 1, 1, 1),
            Some("server.com".to_string()),
            0x0102,
            ip(2, 2, 2, 2),
        )
        .expect("a message");
    assert_eq!(addr, Ipv4Addr::new(10, 1, 2, 4));
    let NetMessage::VxlanSetup(m) = message else {
        panic!("not a VXLAN");
    };
    assert_eq!(m.msg_id, "id");
    assert_eq!(m.vxlan_id, 0x0102);
    assert_eq!(m.ns_name, "ns_258");
    assert_eq!(m.ns_net, "10.1.2.3/24");
    assert_eq!(m.br_name, "br_258");
    assert_eq!(m.br_net, "10.1.2.4/24");
    assert_eq!(m.local_ip, ip(1, 1, 1, 1));
    assert_eq!(m.remote_ip, ip(2, 2, 2, 2));
    let mapping = m.host_mapping.expect("a mapping");
    assert_eq!(mapping.ip, "10.1.2.4");
    assert_eq!(mapping.name, "server.com");
}

#[test]
fn vxlan_setup_for_the_server() {
    let (addr, message) = Net::Vxlan
        .setup("id".to_string(), ip(2, 2, 2, 2), None, 0x0102, ip(1, 1, 1, 1))
        .expect("a message");
    assert_eq!(addr, Ipv4Addr::new(10, 1, 2, 2));
    let NetMessage::VxlanSetup(m) = message else {
        panic!("not a VXLAN");
    };
    assert_eq!(m.ns_net, "10.1.2.1/24");
    assert_eq!(m.br_net, "10.1.2.2/24");
    assert_eq!(m.local_ip, ip(2, 2, 2, 2));
    assert_eq!(m.remote_ip, ip(1, 1, 1, 1));
    assert!(m.host_mapping.is_none());
}

/// What is local to one end of a VLAN is remote to the other.
#[test]
fn vlan_setups_fit_together() {
    let (server, client) = (ip(2, 2, 2, 2), ip(1, 1, 1, 1));
    let (far_of_server, server_message) = Net::Vlan
        .setup("s".to_string(), server, None, 5, client)
        .expect("a message");
    let (far_of_client, client_message) = Net::Vlan
        .setup("c".to_string(), client, Some("x".to_string()), 5, server)
        .expect("a message");
    assert_eq!(far_of_server, Ipv4Addr::new(10, 0, 5, 2));
    assert_eq!(far_of_client, Ipv4Addr::new(10, 0, 5, 1));
    let (NetMessage::VlanSetup(s), NetMessage::VlanSetup(c)) = (server_message, client_message)
    else {
        panic!("not VLANs");
    };
    assert_eq!(s.vlan_id, 5);
    assert_eq!(s.local_veth, c.remote_veth);
    assert_eq!(s.remote_veth, c.local_veth);
    assert_eq!((s.local_ip, s.remote_ip), (c.remote_ip, c.local_ip));
    assert!(s.host_mapping.is_none());
    assert_eq!(c.host_mapping.expect("a mapping").ip, "10.0.5.1");
}

/// Only the two low bytes of an identifier go into addresses, so that networks whose identifiers are
/// in range have none in common.
#[test]
fn networks_in_range_have_different_addresses() {
    let addr = |id: u32| {
        Net::Vlan
            .setup("m".to_string(), ip(1, 1, 1, 1), None, id, ip(2, 2, 2, 2))
            .expect("a message")
            .0
    };
    assert_eq!(addr(MAX_NET_ID), Ipv4Addr::new(10, 255, 255, 2));
    assert_ne!(addr(1), addr(2));
    assert_ne!(addr(1), addr(257));
    assert_eq!(addr(1), addr(65537));
}

#[test]
fn identifiers_are_the_lowest_free_ones() {
    let mut orchestrator = Orchestrator::new(Net::Vxlan);
    assert_eq!(orchestrator.allocate_net_id(), Some(1));
    assert_eq!(orchestrator.allocate_net_id(), Some(2));
    assert_eq!(orchestrator.allocate_net_id(), Some(3));
    orchestrator.send_net_teardown(ip(1, 1, 1, 1), None, ip(2, 2, 2, 2), None, 2);
    assert_eq!(orchestrator.net_ids_in_use(), 2);
    assert_eq!(orchestrator.allocate_net_id(), Some(2));
    assert_eq!(orchestrator.allocate_net_id(), Some(4));
}

/// Messages go to hosts with an open control channel alone.
#[test]
fn messages_need_a_control_channel() {
    let mut orchestrator = Orchestrator::new(Net::Vxlan);
    let (near, far) = (ip(1, 1, 1, 1), ip(2, 2, 2, 2));
    assert!(!orchestrator.is_connected(near));
    assert_eq!(
        orchestrator.send_net_setup("m".to_string(), near, None, 1, far, None),
        None
    );
    assert!(orchestrator.take_outbox().is_empty());
    assert!(!orchestrator.settle(&"m".to_string()));

    orchestrator.add_client(near);
    assert!(orchestrator.is_connected(near));
    assert_eq!(
        orchestrator.send_net_setup("m".to_string(), near, None, 1, far, Some("box".to_string())),
        Some(Ipv4Addr::new(10, 0, 1, 2))
    );
    let sent = orchestrator.take_outbox();
    assert_eq!(sent.len(), 1);
    assert_eq!(sent[0].dest, near);
    assert_eq!(sent[0].docker_container, Some("box".to_string()));
    assert!(matches!(sent[0].message, NetMessage::VxlanSetup(_)));
    assert!(orchestrator.take_outbox().is_empty());

    // an acknowledgement is awaited once
    assert!(orchestrator.settle(&"m".to_string()));
    assert!(!orchestrator.settle(&"m".to_string()));

    orchestrator.remove_client(&near);
    assert!(!orchestrator.is_connected(near));
}

/// A VXLAN is torn down at both ends, the server's first; a VLAN takes no message.
#[test]
fn teardown_messages() {
    let (client, server) = (ip(1, 1, 1, 1), ip(2, 2, 2, 2));
    let mut orchestrator = Orchestrator::new(Net::Vxlan);
    orchestrator.add_client(client);
    orchestrator.add_client(server);
    orchestrator.send_net_teardown(client, Some("c".to_string()), server, None, 7);
    let sent = orchestrator.take_outbox();
    assert_eq!(sent.len(), 2);
    assert_eq!((sent[0].dest, &sent[0].docker_container), (server, &None));
    assert_eq!(
        (sent[1].dest, &sent[1].docker_container),
        (client, &Some("c".to_string()))
    );
    for dispatch in sent {
        let NetMessage::VxlanTeardown(m) = dispatch.message else {
            panic!("not a teardown");
        };
        assert_eq!((m.ns_name.as_str(), m.br_name.as_str()), ("ns_7", "br_7"));
    }

    let mut orchestrator = Orchestrator::new(Net::Vlan);
    assert_eq!(orchestrator.net(), Net::Vlan);
    orchestrator.add_client(client);
    orchestrator.add_client(server);
    orchestrator.send_net_teardown(client, None, server, None, 7);
    assert!(orchestrator.take_outbox().is_empty());
}

#[test]
fn a_disconnected_host_has_no_control_channel() {
    let mut orchestrator = Orchestrator::new(Net::Vxlan);
    let mut services = Services::new();
    orchestrator.add_client(ip(1, 1, 1, 1));
    orchestrator.handle_node_disconnect(ip(1, 1, 1, 1), &mut services);
    assert!(!orchestrator.is_connected(ip(1, 1, 1, 1)));
}
