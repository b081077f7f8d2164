//! The address plan of a virtual network and the messages that set one up on its two hosts.
use crate::addr::{IpAddr, Ipv4Addr};
use crate::text;
use vstd::prelude::*;

verus! {

/// The kind of virtual network that connects a client to a server.
#[derive(Clone, Copy, PartialEq, Eq, Structural, Debug)]
pub enum Net {
    Vlan,
    Vxlan,
}

/// The prefix length of a network.
pub const PREFIX: u8 = 24;

/// The address with host part `host` on network `net_id`: `10.a.b.host`, where `a` and `b` are the
/// two low bytes of the identifier.
pub open spec fn net_addr(net_id: u32, host: u8) -> Ipv4Addr {
    Ipv4Addr { a: 10, b: (net_id / 256 % 256) as u8, c: (net_id % 256) as u8, d: host }
}

/// The written form of an address with its prefix length.
pub open spec fn cidr_text(addr: Ipv4Addr, prefix: u8) -> Seq<char> {
    addr.dotted() + "/"@ + text::decimal_text(prefix as nat)
}

/// The name of the namespace of network `net_id`.
pub open spec fn ns_name(net_id: u32) -> Seq<char> {
    "ns_"@ + text::decimal_text(net_id as nat)
}

/// The name of the bridge of network `net_id`.
pub open spec fn br_name(net_id: u32) -> Seq<char> {
    "br_"@ + text::decimal_text(net_id as nat)
}

/// A host name and the address that it maps to.
#[derive(Debug)]
pub struct HostMapping {
    pub ip: String,
    pub name: String,
}

#[verifier::ext_equal]
pub struct HostMappingView {
    pub ip: Seq<char>,
    pub name: Seq<char>,
}

impl View for HostMapping {
    type V = HostMappingView;

    open spec fn view(&self) -> HostMappingView {
        HostMappingView { ip: self.ip@, name: self.name@ }
    }
}

impl DeepView for HostMapping {
    type V = HostMappingView;

    open spec fn deep_view(&self) -> HostMappingView {
        self@
    }
}

/// Asks a host to set up its end of a VLAN.
#[derive(Debug)]
pub struct VlanSetup {
    pub msg_id: String,
    pub vlan_id: u32,
    pub local_veth: String,
    pub remote_veth: String,
    pub local_ip: IpAddr,
    pub remote_ip: IpAddr,
    pub host_mapping: Option<HostMapping>,
}

/// Asks a host to set up its end of a VXLAN.
#[derive(Debug)]
pub struct VxlanSetup {
    pub msg_id: String,
    pub vxlan_id: u32,
    pub ns_name: String,
    pub ns_net: String,
    pub br_name: String,
    pub br_net: String,
    pub local_ip: IpAddr,
    pub remote_ip: IpAddr,
    pub host_mapping: Option<HostMapping>,
}

/// Asks a host to tear down its end of a VXLAN.
#[derive(Debug)]
pub struct VxlanTeardown {
    pub ns_name: String,
    pub br_name: String,
}

/// A message to a host.
#[derive(Debug)]
pub enum NetMessage {
    VlanSetup(VlanSetup),
    VxlanSetup(VxlanSetup),
    VxlanTeardown(VxlanTeardown),
}

#[verifier::ext_equal]
pub enum NetMessageView {
    VlanSetup {
        msg_id: Seq<char>,
        vlan_id: u32,
        local_veth: Seq<char>,
        remote_veth: Seq<char>,
        local_ip: IpAddr,
        remote_ip: IpAddr,
        host_mapping: Option<HostMappingView>,
    },
    VxlanSetup {
        msg_id: Seq<char>,
        vxlan_id: u32,
        ns_name: Seq<char>,
        ns_net: Seq<char>,
        br_name: Seq<char>,
        br_net: Seq<char>,
        local_ip: IpAddr,
        remote_ip: IpAddr,
        host_mapping: Option<HostMappingView>,
    },
    VxlanTeardown { ns_name: Seq<char>, br_name: Seq<char> },
}

impl View for NetMessage {
    type V = NetMessageView;

    open spec fn view(&self) -> NetMessageView {
        match *self {
            NetMessage::VlanSetup(m) => NetMessageView::VlanSetup {
                msg_id: m.msg_id@,
                vlan_id: m.vlan_id,
                local_veth: m.local_veth@,
                remote_veth: m.remote_veth@,
                local_ip: m.local_ip,
                remote_ip: m.remote_ip,
                host_mapping: m.host_mapping.deep_view(),
            },
            NetMessage::VxlanSetup(m) => NetMessageView::VxlanSetup {
                msg_id: m.msg_id@,
                vxlan_id: m.vxlan_id,
                ns_name: m.ns_name@,
                ns_net: m.ns_net@,
                br_name: m.br_name@,
                br_net: m.br_net@,
                local_ip: m.local_ip,
                remote_ip: m.remote_ip,
                host_mapping: m.host_mapping.deep_view(),
            },
            NetMessage::VxlanTeardown(m) => NetMessageView::VxlanTeardown {
                ns_name: m.ns_name@,
                br_name: m.br_name@,
            },
        }
    }
}

impl DeepView for NetMessage {
    type V = NetMessageView;

    open spec fn deep_view(&self) -> NetMessageView {
        self@
    }
}

/// The mapping of the server's name on the client's host.
pub open spec fn mapping(name: Option<Seq<char>>, addr: Ipv4Addr) -> Option<HostMappingView> {
    match name {
        Some(name) => Some(HostMappingView { ip: addr.dotted(), name }),
        None => None,
    }
}

impl Net {
    /// The address that goes with the set-up of one end of network `net_id`: on a VLAN that of the
    /// far end, on a VXLAN that of the end's own bridge. A set-up for the client names the server.
    pub open spec fn setup_addr(self, for_client: bool, net_id: u32) -> Ipv4Addr {
        match self {
            Net::Vlan => net_addr(
                net_id,
                if for_client {
                    1
                } else {
                    2
                },
            ),
            Net::Vxlan => net_addr(
                net_id,
                if for_client {
                    4
                } else {
                    2
                },
            ),
        }
    }

    /// The message that sets up one end of network `net_id` on host `dest`.
    pub open spec fn setup_message(
        self,
        id: Seq<char>,
        dest: IpAddr,
        server_name: Option<Seq<char>>,
        net_id: u32,
        remote: IpAddr,
    ) -> NetMessageView {
        let for_client = server_name is Some;
        match self {
            Net::Vlan => NetMessageView::VlanSetup {
                msg_id: id,
                vlan_id: net_id,
                local_veth: net_addr(
                    net_id,
                    if for_client {
                        2
                    } else {
                        1
                    },
                ).dotted(),
                remote_veth: self.setup_addr(for_client, net_id).dotted(),
                local_ip: dest,
                remote_ip: remote,
                host_mapping: mapping(server_name, self.setup_addr(for_client, net_id)),
            },
            Net::Vxlan => NetMessageView::VxlanSetup {
                msg_id: id,
                vxlan_id: net_id,
                ns_name: ns_name(net_id),
                ns_net: cidr_text(
                    net_addr(
                        net_id,
                        if for_client {
                            3
                        } else {
                            1
                        },
                    ),
                    PREFIX,
                ),
                br_name: br_name(net_id),
                br_net: cidr_text(self.setup_addr(for_client, net_id), PREFIX),
                local_ip: dest,
                remote_ip: remote,
                host_mapping: mapping(server_name, self.setup_addr(for_client, net_id)),
            },
        }
    }

    /// Composes the set-up of one end of network `net_id` on host `dest`, whose far end is on host
    /// `remote`. `remote_server_name` is given where the end is the client's.
    pub fn setup(
        self,
        id: String,
        dest: IpAddr,
        remote_server_name: Option<String>,
        net_id: u32,
        remote: IpAddr,
    ) -> (r: Option<(Ipv4Addr, NetMessage)>)
        ensures
            r.deep_view() == Some(
                (
                    self.setup_addr(remote_server_name is Some, net_id),
                    self.setup_message(id@, dest, remote_server_name.deep_view(), net_id, remote),
                ),
            ),
    {
        match self {
            Net::Vlan => Self::vlan_setup(id, dest, remote_server_name, net_id, remote),
            Net::Vxlan => Self::vxlan_setup(id, dest, remote_server_name, net_id, remote),
        }
    }

    /// Composes the set-up of one end of a VLAN.
    pub fn vlan_setup(
        id: String,
        dest: IpAddr,
        remote_server_name: Option<String>,
        vlan_id: u32,
        remote: IpAddr,
    ) -> (r: Option<(Ipv4Addr, NetMessage)>)
        ensures
            r.deep_view() == Some(
                (
                    Net::Vlan.setup_addr(remote_server_name is Some, vlan_id),
                    Net::Vlan.setup_message(
                        id@,
                        dest,
                        remote_server_name.deep_view(),
                        vlan_id,
                        remote,
                    ),
                ),
            ),
    {
        let (local_veth, remote_veth) = if remote_server_name.is_some() {
            // this is for client
            (host_addr(vlan_id, 2), host_addr(vlan_id, 1))
        } else {
            // this is for server
            (host_addr(vlan_id, 1), host_addr(vlan_id, 2))
        };

        let host_mapping = match remote_server_name {
            Some(name) => Some(HostMapping { ip: remote_veth.to_text(), name }),
            None => None,
        };

        Some(
            (
                remote_veth,
                NetMessage::VlanSetup(
                    VlanSetup {
                        msg_id: id,
                        vlan_id,
                        local_veth: local_veth.to_text(),
                        remote_veth: remote_veth.to_text(),
                        local_ip: dest,
                        remote_ip: remote,
                        host_mapping,
                    },
                ),
            ),
        )
    }

    /// Composes the set-up of one end of a VXLAN.
    pub fn vxlan_setup(
        id: String,
        dest: IpAddr,
        remote_server_name: Option<String>,
        vxlan_id: u32,
        remote: IpAddr,
    ) -> (r: Option<(Ipv4Addr, NetMessage)>)
        ensures
            r.deep_view() == Some(
                (
                    Net::Vxlan.setup_addr(remote_server_name is Some, vxlan_id),
                    Net::Vxlan.setup_message(
                        id@,
                        dest,
                        remote_server_name.deep_view(),
                        vxlan_id,
                        remote,
                    ),
                ),
            ),
    {
        let (ns_host, br_host): (u8, u8) = if remote_server_name.is_some() {
            // this is for client
            (3, 4)
        } else {
            // this is for server
            (1, 2)
        };
        let (_, ns_net) = match ipv4_network(host_addr(vxlan_id, ns_host), PREFIX) {
            Some(net) => net,
            None => return None,
        };
        let (br_ip, br_net) = match ipv4_network(host_addr(vxlan_id, br_host), PREFIX) {
            Some(net) => net,
            None => return None,
        };

        let host_mapping = match remote_server_name {
            Some(name) => Some(HostMapping { ip: br_ip.to_text(), name }),
            None => None,
        };

        Some(
            (
                br_ip,
                NetMessage::VxlanSetup(
                    VxlanSetup {
                        msg_id: id,
                        vxlan_id,
                        ns_name: ns_name_of(vxlan_id),
                        ns_net,
                        br_name: br_name_of(vxlan_id),
                        br_net,
                        local_ip: dest,
                        remote_ip: remote,
                        host_mapping,
                    },
                ),
            ),
        )
    }
}

/// `ipnetwork::Ipv4Network::new`, read back through its `ip` method and its `Display`: the network
/// exists for a prefix of at most 32 bits, keeps the address it was made with, host part included,
/// and is written as the dotted address, a slash and the prefix length.
#[verifier::external_body]
fn ipv4_network(addr: Ipv4Addr, prefix: u8) -> (r: Option<(Ipv4Addr, String)>)
    ensures
        r.deep_view() == (if prefix <= 32 {
            Some((addr, cidr_text(addr, prefix)))
        } else {
            None
        }),
{
    match ipnetwork::Ipv4Network::new([addr.a, addr.b, addr.c, addr.d].into(), prefix) {
        Ok(net) => {
            let [a, b, c, d] = net.ip().octets();
            Some((Ipv4Addr { a, b, c, d }, net.to_string()))
        },
        Err(_) => None,
    }
}

fn host_addr(net_id: u32, host: u8) -> (r: Ipv4Addr)
    ensures
        r == net_addr(net_id, host),
{
    Ipv4Addr::new(10, (net_id / 256 % 256) as u8, (net_id % 256) as u8, host)
}

/// The namespace of a network.
pub fn ns_name_of(net_id: u32) -> (r: String)
    ensures
        r@ == ns_name(net_id),
{
    let mut r = "ns_".to_owned();
    r.append(text::decimal(net_id as u128).as_str());
    r
}

/// The bridge of a network.
pub fn br_name_of(net_id: u32) -> (r: String)
    ensures
        r@ == br_name(net_id),
{
    let mut r = "br_".to_owned();
    r.append(text::decimal(net_id as u128).as_str());
    r
}

} // verus!
