//! What holds of the address plan.
use crate::addr::IpAddr;
use crate::net;
use crate::net::{Net, NetMessageView};
use crate::text;
use vstd::prelude::*;

verus! {

/// Different numbers have different numerals.
proof fn lemma_decimal_text(a: nat, b: nat)
    requires
        text::decimal_text(a) == text::decimal_text(b),
    ensures
        a == b,
    decreases a,
{
    let (s, t) = (text::decimal_text(a), text::decimal_text(b));
    lemma_decimal_len(a);
    lemma_decimal_len(b);
    assert(s.last() == text::digit_char(a % 10));
    assert(t.last() == text::digit_char(b % 10));
    if a >= 10 {
        assert(s.drop_last() =~= text::decimal_text(a / 10));
        assert(t.drop_last() =~= text::decimal_text(b / 10));
        lemma_decimal_text(a / 10, b / 10);
    }
}

/// A number below ten has a numeral of one character, any other a longer one.
proof fn lemma_decimal_len(n: nat)
    ensures
        n < 10 ==> text::decimal_text(n).len() == 1,
        n >= 10 ==> text::decimal_text(n).len() > 1,
    decreases n,
{
    if n >= 10 {
        lemma_decimal_len(n / 10);
    }
}

/// Different networks have no address in common, and have namespaces and bridges of different names.
/// Their identifiers are in the range that is handed out.
pub proof fn law_networks_apart(a: u32, b: u32)
    requires
        a != b,
        a <= crate::orchestrator::MAX_NET_ID,
        b <= crate::orchestrator::MAX_NET_ID,
    ensures
        forall|h: u8, k: u8| net::net_addr(a, h) != net::net_addr(b, k),
        net::ns_name(a) != net::ns_name(b),
        net::br_name(a) != net::br_name(b),
{
    assert(a / 256 % 256 == a / 256 && b / 256 % 256 == b / 256);
    assert forall|h: u8, k: u8| net::net_addr(a, h) != net::net_addr(b, k) by {
        let (x, y) = (net::net_addr(a, h), net::net_addr(b, k));
        assert(x.b == a / 256 && y.b == b / 256);
        assert(x.c == a % 256 && y.c == b % 256);
    }
    let (s, t) = (text::decimal_text(a as nat), text::decimal_text(b as nat));
    if net::ns_name(a) == net::ns_name(b) {
        let n = "ns_"@.len() as int;
        assert(net::ns_name(a).skip(n) =~= s);
        assert(net::ns_name(b).skip(n) =~= t);
        lemma_decimal_text(a as nat, b as nat);
    }
    if net::br_name(a) == net::br_name(b) {
        let n = "br_"@.len() as int;
        assert(net::br_name(a).skip(n) =~= s);
        assert(net::br_name(b).skip(n) =~= t);
        lemma_decimal_text(a as nat, b as nat);
    }
}

/// The set-ups of the two ends of a VLAN fit together: what is local to one end is remote to the
/// other, each is answered with the address of the far end, and the client finds the server's name at
/// the server's address.
pub proof fn law_vlan_ends_meet(
    server_id: Seq<char>,
    client_id: Seq<char>,
    server: IpAddr,
    client: IpAddr,
    name: Seq<char>,
    net_id: u32,
)
    ensures
        match (
            Net::Vlan.setup_message(server_id, server, None, net_id, client),
            Net::Vlan.setup_message(client_id, client, Some(name), net_id, server),
        ) {
            (
                NetMessageView::VlanSetup {
                    msg_id: m,
                    vlan_id: i,
                    local_veth: lv,
                    remote_veth: rv,
                    local_ip: li,
                    remote_ip: ri,
                    host_mapping: hs,
                },
                NetMessageView::VlanSetup {
                    msg_id: n,
                    vlan_id: j,
                    local_veth: lw,
                    remote_veth: rw,
                    local_ip: lj,
                    remote_ip: rj,
                    host_mapping: hc,
                },
            ) => {
                &&& m == server_id && n == client_id
                &&& i == net_id && j == net_id
                &&& lv == net::net_addr(net_id, 1).dotted() && lw == net::net_addr(
                    net_id,
                    2,
                ).dotted()
                &&& lv == rw && rv == lw
                &&& li == server && lj == client
                &&& li == rj && ri == lj
                &&& hs is None
                &&& hc == Some(net::HostMappingView { ip: lv, name })
            },
            _ => false,
        },
        Net::Vlan.setup_addr(false, net_id) == net::net_addr(net_id, 2),
        Net::Vlan.setup_addr(true, net_id) == net::net_addr(net_id, 1),
        Net::Vlan.setup_addr(false, net_id) != Net::Vlan.setup_addr(true, net_id),
{
}

/// The set-ups of the two ends of a VXLAN fit together: they name the same network, each host has the
/// other as its remote, and no two of the four addresses are the same.
pub proof fn law_vxlan_ends_meet(
    server_id: Seq<char>,
    client_id: Seq<char>,
    server: IpAddr,
    client: IpAddr,
    name: Seq<char>,
    net_id: u32,
)
    ensures
        match (
            Net::Vxlan.setup_message(server_id, server, None, net_id, client),
            Net::Vxlan.setup_message(client_id, client, Some(name), net_id, server),
        ) {
            (
                NetMessageView::VxlanSetup {
                    msg_id: m,
                    vxlan_id: i,
                    ns_name: ns,
                    ns_net: sn,
                    br_name: bs,
                    br_net: sb,
                    local_ip: li,
                    remote_ip: ri,
                    host_mapping: hs,
                },
                NetMessageView::VxlanSetup {
                    msg_id: n,
                    vxlan_id: j,
                    ns_name: nc,
                    ns_net: cn,
                    br_name: bc,
                    br_net: cb,
                    local_ip: lj,
                    remote_ip: rj,
                    host_mapping: hc,
                },
            ) => {
                &&& i == j && ns == nc && bs == bc
                &&& li == rj && ri == lj
                &&& sn == net::cidr_text(net::net_addr(net_id, 1), net::PREFIX)
                &&& sb == net::cidr_text(net::net_addr(net_id, 2), net::PREFIX)
                &&& cn == net::cidr_text(net::net_addr(net_id, 3), net::PREFIX)
                &&& cb == net::cidr_text(net::net_addr(net_id, 4), net::PREFIX)
                &&& hs is None && hc is Some
            },
            _ => false,
        },
        forall|h: u8, k: u8| h != k ==> net::net_addr(net_id, h) != net::net_addr(net_id, k),
{
}

} // verus!
