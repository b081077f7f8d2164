//! What hosts are told: which messages go to which host, and what they say.
use crate::addr::{IpAddr, Ipv4Addr};
use crate::chain_setup::{OutcomeView, PendingView, ProgressView};
use crate::net::{HostMappingView, Net, NetMessageView};
use crate::orchestrator;
use crate::orchestrator::{DispatchView, OrchestratorView};
use crate::seqs;
use crate::services::clients::{ClientInfoView, ClientView};
use crate::services::connections;
use crate::services::edge::RegisteredEdgeView;
use crate::services::laws;
use crate::services::model;
use crate::services::model::{ServiceView, ServicesView};
use crate::services::world::World;
use crate::state_laws;
use crate::text;
use vstd::prelude::*;

verus! {

/// Address number `host` of network `net_id`: its two low bytes stand in the middle of the address.
pub open spec fn address(net_id: u32, host: u8) -> Ipv4Addr {
    Ipv4Addr { a: 10, b: ((net_id / 256) % 256) as u8, c: (net_id % 256) as u8, d: host }
}

/// A message that asks a host for one end of a network: the host has the local address, the host at the
/// other end the remote one, and the network has the identifier. On a VXLAN the end has addresses `ns`
/// and `br`, on a VLAN it has address `ns` and the other end has `br`.
pub open spec fn asks_for_end(
    message: NetMessageView,
    net: Net,
    msg: Seq<char>,
    net_id: u32,
    local: IpAddr,
    remote: IpAddr,
    ns: Ipv4Addr,
    br: Ipv4Addr,
    mapping: Option<HostMappingView>,
) -> bool {
    match message {
        NetMessageView::VlanSetup {
            msg_id,
            vlan_id,
            local_veth,
            remote_veth,
            local_ip,
            remote_ip,
            host_mapping,
        } => {
            &&& net == Net::Vlan
            &&& msg_id == msg
            &&& vlan_id == net_id
            &&& local_veth == ns.dotted()
            &&& remote_veth == br.dotted()
            &&& local_ip == local
            &&& remote_ip == remote
            &&& host_mapping == mapping
        },
        NetMessageView::VxlanSetup {
            msg_id,
            vxlan_id,
            ns_name,
            ns_net,
            br_name,
            br_net,
            local_ip,
            remote_ip,
            host_mapping,
        } => {
            &&& net == Net::Vxlan
            &&& msg_id == msg
            &&& vxlan_id == net_id
            &&& ns_name == "ns_"@ + text::decimal_text(net_id as nat)
            &&& br_name == "br_"@ + text::decimal_text(net_id as nat)
            &&& ns_net == ns.dotted() + "/"@ + text::decimal_text(24)
            &&& br_net == br.dotted() + "/"@ + text::decimal_text(24)
            &&& local_ip == local
            &&& remote_ip == remote
            &&& host_mapping == mapping
        },
        NetMessageView::VxlanTeardown { .. } => false,
    }
}

/// Opening an edge whose connection has to be set up takes the lowest free network identifier into use
/// and asks each of its two hosts that can be reached, the server's first, for its own end of that
/// network: each message goes to the container of its end and names the other host as remote, and the one
/// to the client's host maps the server's name. Both are awaited, and nothing else is sent.
pub proof fn law_setup_messages(
    w: World,
    edge: RegisteredEdgeView,
    server_msg: Seq<char>,
    client_msg: Seq<char>,
    now: nat,
)
    ensures
        ({
            let (after, progress) = w.open_edge(edge, server_msg, client_msg, now);
            let to_server = w.orch.clients.contains(edge.server.0);
            let to_client = w.orch.clients.contains(edge.client.0);
            let n = w.orch.outbox.len() as int;
            progress matches ProgressView::Pending(p) ==> {
                let (server_ns, server_br) = (address(p.net_id, 1), address(p.net_id, 2));
                let (client_ns, client_br) = match w.orch.net {
                    Net::Vlan => (address(p.net_id, 2), address(p.net_id, 1)),
                    Net::Vxlan => (address(p.net_id, 3), address(p.net_id, 4)),
                };
                &&& p.edge == edge
                &&& p.server_msg == server_msg
                &&& p.client_msg == client_msg
                &&& p.started == now
                &&& 1 <= p.net_id <= 65535
                &&& !w.orch.net_ids.contains(p.net_id)
                &&& forall|id: u32| 1 <= id < p.net_id ==> #[trigger] w.orch.net_ids.contains(id)
                &&& after.orch.net_ids == w.orch.net_ids.push(p.net_id)
                &&& after.orch.clients == w.orch.clients
                &&& after.orch.net == w.orch.net
                &&& p.server_addr == (if to_server {
                    Some(server_br)
                } else {
                    None
                })
                &&& p.client_addr == (if to_client {
                    Some(client_br)
                } else {
                    None
                })
                &&& after.orch.outbox.len() == n + (if to_server {
                    1int
                } else {
                    0
                }) + (if to_client {
                    1int
                } else {
                    0
                })
                &&& forall|k: int| 0 <= k < n ==> #[trigger] after.orch.outbox[k]
                    == w.orch.outbox[k]
                &&& to_server ==> {
                    let d = after.orch.outbox[n];
                    &&& d.dest == edge.server.0
                    &&& d.docker_container == edge.server_docker
                    &&& asks_for_end(
                        d.message,
                        w.orch.net,
                        server_msg,
                        p.net_id,
                        edge.server.0,
                        edge.client.0,
                        server_ns,
                        server_br,
                        None,
                    )
                    &&& after.orch.pending.contains(server_msg)
                }
                &&& to_client ==> {
                    let d = after.orch.outbox[after.orch.outbox.len() - 1];
                    &&& d.dest == edge.client.0
                    &&& d.docker_container == edge.client_docker
                    &&& asks_for_end(
                        d.message,
                        w.orch.net,
                        client_msg,
                        p.net_id,
                        edge.client.0,
                        edge.server.0,
                        client_ns,
                        client_br,
                        Some(HostMappingView { ip: client_br.dotted(), name: edge.server.1.name }),
                    )
                    &&& after.orch.pending.contains(client_msg)
                }
                &&& forall|id: Seq<char>| #[trigger]
                    after.orch.pending.contains(id) == (w.orch.pending.contains(id) || (to_server
                        && id == server_msg) || (to_client && id == client_msg))
            }
        }),
{
    let (after, progress) = w.open_edge(edge, server_msg, client_msg, now);
    if let ProgressView::Pending(p) = progress {
        assert(orchestrator::is_lowest_free(w.orch.net_ids, p.net_id));
        let one = if w.orch.clients.contains(edge.server.0) {
            seqs::with(w.orch.pending, server_msg)
        } else {
            w.orch.pending
        };
        state_laws::lemma_with(w.orch.pending, server_msg);
        state_laws::lemma_with(one, client_msg);
        assert(p.server_addr is Some == w.orch.clients.contains(edge.server.0));
    }
}

/// An edge is opened exactly where its server runs, the connection is not there and an identifier is left:
/// a proxy client is connected to no replica of the server, another client not to the edge's replica. The
/// connection is reserved then, without a network and without a chain. An edge whose connection is there
/// is finished, and one whose server does not run, or for which no identifier is left, fails and changes
/// nothing but that.
pub proof fn law_edge_opens(
    w: World,
    edge: RegisteredEdgeView,
    server_msg: Seq<char>,
    client_msg: Seq<char>,
    now: nat,
)
    requires
        connections::services_wf(w.services),
    ensures
        ({
            let (after, progress) = w.open_edge(edge, server_msg, client_msg, now);
            let name = edge.server.1.name;
            let c = edge.client.1;
            let runs = model::registered(w.services, name) is Some;
            let there = exists|ip: IpAddr, docker: Option<Seq<char>>|
                (#[trigger] connections::conn(w.services, name, ip, docker, c)) is Some && (
                c.proxy is Some || (ip == edge.server.0 && docker == edge.server_docker));
            let left = exists|id: u32| 1 <= id <= 65535 && !(#[trigger] w.orch.net_ids.contains(id));
            &&& progress is Pending == (runs && !there && left)
            &&& progress == ProgressView::Finished(OutcomeView::Failed) <==> !runs || (!there && !left)
            &&& progress is Pending ==> {
                let ci = connections::conn(
                    after.services,
                    name,
                    edge.server.0,
                    edge.server_docker,
                    c,
                );
                laws::port_at(w.services, name, edge.server.0, edge.server_docker) is Some ==> {
                    &&& ci is Some
                    &&& ci->0.client_ip == edge.client.0
                    &&& ci->0.net_id == 0
                    &&& ci->0.active_chains == 0
                    &&& ci->0.latest == now
                    &&& !ci->0.is_backend_entry
                }
            }
            &&& progress matches ProgressView::Finished(OutcomeView::Success(s)) ==> {
                &&& s.client == c
                &&& s.server_name == name
                &&& s.replica == (edge.server.0, edge.server_docker)
                &&& s.proxy_upstream is None
            }
            &&& progress is Finished ==> after.orch == w.orch
            &&& progress == ProgressView::Finished(OutcomeView::Failed) ==> after == w
        }),
{
    let (after, progress) = w.open_edge(edge, server_msg, client_msg, now);
    let name = edge.server.1.name;
    let c = edge.client.1;
    let (ip, docker) = (edge.server.0, edge.server_docker);
    if exists|id: u32| 1 <= id <= 65535 && !(#[trigger] w.orch.net_ids.contains(id)) {
        let id = choose|id: u32| 1 <= id <= 65535 && !(#[trigger] w.orch.net_ids.contains(id));
        lemma_some_lowest(w.orch.net_ids, id);
    }
    if let Some(id) = orchestrator::lowest_free(w.orch.net_ids) {
        assert(orchestrator::is_lowest_free(w.orch.net_ids, id));
    }
    if let Some(reg) = model::registered(w.services, name) {
        connections::lemma_wf_of(w.services, name);
        connections::lemma_holds(reg, c);
        connections::lemma_holds_at(reg, ip, docker, c);
        assert(connections::conn(w.services, name, ip, docker, c) == reg.info_at(ip, docker, c));
        if edge.is_set_up(reg) && c.proxy is Some {
            let r = reg.replicas[reg.holder(c)];
            assert(connections::conn(w.services, name, r.ip, r.docker_container, c) is Some);
        }
        if !edge.is_set_up(reg) {
            let ci = crate::services::clients::placeholder_info(edge.client.0, now);
            let next = reg.with_client(ip, docker, c, ci);
            connections::lemma_with_client(reg, ip, docker, c, ci);
            laws::lemma_put_registered(w.services, name, ServiceView::Registered(next), name);
            assert(reg.info_at(ip, docker, c) is None) by {
                if connections::replica_conn(reg, ip, docker, c) is Some {
                    assert(reg.holds(c));
                }
            }
            crate::setup_laws::lemma_release_undoes(w, edge, reg, ci);
            if progress is Pending && reg.has_replica(ip, docker) {
                assert(connections::replica_conn(next, ip, docker, c) == Some(ci));
            }
        }
    }
}

/// Where an identifier is free there is a lowest one.
proof fn lemma_some_lowest(net_ids: Seq<u32>, id: u32)
    requires
        1 <= id <= 65535,
        !net_ids.contains(id),
    ensures
        orchestrator::lowest_free(net_ids) is Some,
    decreases id,
{
    if exists|j: u32| 1 <= j < id && !(#[trigger] net_ids.contains(j)) {
        let j = choose|j: u32| 1 <= j < id && !(#[trigger] net_ids.contains(j));
        lemma_some_lowest(net_ids, j);
    } else {
        assert(orchestrator::is_lowest_free(net_ids, id));
    }
}

/// The message that tears down the end of a network on a host, for a container of the host.
pub open spec fn teardown_of(host: IpAddr, docker: Option<Seq<char>>, net_id: u32) -> DispatchView {
    DispatchView {
        dest: host,
        docker_container: docker,
        message: NetMessageView::VxlanTeardown {
            ns_name: "ns_"@ + text::decimal_text(net_id as nat),
            br_name: "br_"@ + text::decimal_text(net_id as nat),
        },
    }
}

/// The messages that tear down a network: on a VXLAN one to each of its two hosts that can be reached, the
/// server's first.
pub open spec fn teardowns(
    orch: OrchestratorView,
    server: IpAddr,
    server_docker: Option<Seq<char>>,
    client: IpAddr,
    client_docker: Option<Seq<char>>,
    net_id: u32,
) -> Seq<DispatchView> {
    let first = if orch.net == Net::Vxlan && orch.clients.contains(server) {
        seq![teardown_of(server, server_docker, net_id)]
    } else {
        Seq::empty()
    };
    let second = if orch.net == Net::Vxlan && orch.clients.contains(client) {
        seq![teardown_of(client, client_docker, net_id)]
    } else {
        Seq::empty()
    };
    first + second
}

/// An edge that is finished is recorded exactly where both its hosts were asked and acknowledged and the
/// server still runs. Its connection then has the hosts, addresses, network and container of the edge, one
/// chain, and is used now; nothing is sent. Else its network is free again, its two hosts are told to
/// tear it down, and the reservation is gone. Either way no other connection changes, and its messages are
/// awaited no more.
pub proof fn law_edge_recorded(
    w: World,
    pending: PendingView,
    server_ack: bool,
    client_ack: bool,
    now: nat,
)
    requires
        connections::services_wf(w.services),
        w.orch.net_ids.no_duplicates(),
        w.orch.pending.no_duplicates(),
        pending.edge.client.1.proxy is Some ==> forall|ip: IpAddr, docker: Option<Seq<char>>|
            #[trigger]
            connections::conn(
                w.services,
                pending.edge.server.1.name,
                ip,
                docker,
                pending.edge.client.1,
            ) is Some ==> ip == pending.edge.server.0 && docker == pending.edge.server_docker,
    ensures
        ({
            let (after, outcome) = w.finish_edge(pending, server_ack, client_ack, now);
            let edge = pending.edge;
            let name = edge.server.1.name;
            let (ip, docker) = (edge.server.0, edge.server_docker);
            let c = edge.client.1;
            let ok = server_ack && client_ack && pending.server_addr is Some
                && pending.client_addr is Some && model::registered(w.services, name) is Some;
            let conn = connections::conn(after.services, name, ip, docker, c);
            &&& outcome is Success == ok
            &&& forall|n: Seq<char>, x: IpAddr, y: Option<Seq<char>>, q: ClientView|
                !(n == name && x == ip && y == docker && q == c) ==> #[trigger] connections::conn(
                    after.services,
                    n,
                    x,
                    y,
                    q,
                ) == connections::conn(w.services, n, x, y, q)
            &&& forall|id: Seq<char>| #[trigger]
                after.orch.pending.contains(id) == (w.orch.pending.contains(id) && id
                    != pending.server_msg && id != pending.client_msg)
            &&& ok ==> {
                let s = outcome->Success_0;
                &&& s.client == c
                &&& s.server_name == name
                &&& s.replica == (ip, docker)
                &&& s.proxy_upstream == (if c.proxy is Some {
                    pending.server_addr
                } else {
                    None
                })
                &&& after.orch.outbox == w.orch.outbox
                &&& after.orch.net_ids == w.orch.net_ids
                &&& laws::port_at(w.services, name, ip, docker) is Some ==> {
                    let ci = conn->0;
                    &&& conn is Some
                    &&& ci.client_ip == edge.client.0
                    &&& ci.client_net == pending.client_addr->0
                    &&& ci.server_net == pending.server_addr->0
                    &&& ci.net_id == pending.net_id
                    &&& ci.docker_container == edge.client_docker
                    &&& ci.active_chains == 1
                    &&& ci.latest == now
                    &&& ci.is_backend_entry == edge.is_backend_entry
                    &&& now >= pending.started && now - pending.started < u128::MAX
                        ==> ci.time_ms * 1_000_000 <= now - pending.started < (ci.time_ms + 1)
                        * 1_000_000
                }
            }
            &&& !ok ==> {
                &&& conn is None
                &&& !after.orch.net_ids.contains(pending.net_id)
                &&& forall|id: u32|
                    id != pending.net_id ==> #[trigger] after.orch.net_ids.contains(id)
                        == w.orch.net_ids.contains(id)
                &&& after.orch.outbox == w.orch.outbox + teardowns(
                    w.orch,
                    ip,
                    docker,
                    edge.client.0,
                    edge.client_docker,
                    pending.net_id,
                )
            }
        }),
{
    let (after, outcome) = w.finish_edge(pending, server_ack, client_ack, now);
    let edge = pending.edge;
    let name = edge.server.1.name;
    let (ip, docker) = (edge.server.0, edge.server_docker);
    let c = edge.client.1;
    connections::lemma_wf_of(w.services, name);
    laws::lemma_without_contains(w.orch.pending, pending.server_msg);
    laws::lemma_without_contains(
        seqs::without(w.orch.pending, pending.server_msg),
        pending.client_msg,
    );
    laws::lemma_without_contains(w.orch.net_ids, pending.net_id);
    if outcome is Success {
        let reg = model::registered(w.services, name)->0;
        let ci = pending.info(pending.server_addr->0, pending.client_addr->0, now).with_chain(now);
        let next = reg.with_client(ip, docker, c, ci);
        connections::lemma_holds(reg, c);
        if reg.holds(c) && c.proxy is Some {
            let r = reg.replicas[reg.holder(c)];
            assert(connections::conn(w.services, name, r.ip, r.docker_container, c) is Some);
        }
        connections::lemma_with_client(reg, ip, docker, c, ci);
        lemma_other_conns(w, name, reg, next, ip, docker, c);
        laws::lemma_put_registered(w.services, name, ServiceView::Registered(next), name);
        assert(after.services == w.with_service(name, ServiceView::Registered(next)).services);
        if reg.has_replica(ip, docker) {
            assert(connections::replica_conn(next, ip, docker, c) == Some(ci));
        }
    } else {
        let settled = w.orch.settled(pending.server_msg).settled(pending.client_msg);
        lemma_teardowns(
            settled,
            ip,
            docker,
            edge.client.0,
            edge.client_docker,
            pending.net_id,
        );
        if let Some(reg) = model::registered(w.services, name) {
            let next = reg.without_client_at(ip, docker, c);
            connections::lemma_without_client_at(reg, ip, docker, c);
            lemma_other_conns(w, name, reg, next, ip, docker, c);
            laws::lemma_put_registered(w.services, name, ServiceView::Registered(next), name);
            assert(after.services == w.with_service(
                name,
                ServiceView::Registered(next),
            ).services);
            assert(connections::replica_conn(next, ip, docker, c) is None);
        }
    }
}

/// A service that changes in one connection leaves the others.
pub(crate) proof fn lemma_other_conns(
    w: World,
    name: Seq<char>,
    reg: model::RegisteredView,
    next: model::RegisteredView,
    ip: IpAddr,
    docker: Option<Seq<char>>,
    c: ClientView,
)
    requires
        model::registered(w.services, name) == Some(reg),
        forall|x: IpAddr, y: Option<Seq<char>>, q: ClientView|
            !(x == ip && y == docker && q == c) ==> #[trigger] connections::replica_conn(
                next,
                x,
                y,
                q,
            ) == connections::replica_conn(reg, x, y, q),
    ensures
        forall|n: Seq<char>, x: IpAddr, y: Option<Seq<char>>, q: ClientView|
            !(n == name && x == ip && y == docker && q == c) ==> #[trigger] connections::conn(
                w.with_service(name, ServiceView::Registered(next)).services,
                n,
                x,
                y,
                q,
            ) == connections::conn(w.services, n, x, y, q),
{
    let b = w.with_service(name, ServiceView::Registered(next)).services;
    assert forall|n: Seq<char>, x: IpAddr, y: Option<Seq<char>>, q: ClientView|
        !(n == name && x == ip && y == docker && q == c) implies #[trigger] connections::conn(
        b,
        n,
        x,
        y,
        q,
    ) == connections::conn(w.services, n, x, y, q) by {
        laws::lemma_put_registered(w.services, name, ServiceView::Registered(next), n);
        if n == name {
            assert(connections::replica_conn(next, x, y, q) == connections::replica_conn(
                reg,
                x,
                y,
                q,
            ));
        }
    }
}

/// The messages of a network that is torn down.
pub(crate) proof fn lemma_teardowns(
    orch: OrchestratorView,
    server: IpAddr,
    server_docker: Option<Seq<char>>,
    client: IpAddr,
    client_docker: Option<Seq<char>>,
    net_id: u32,
)
    ensures
        ({
            let after = orch.teardown(client, client_docker, server, server_docker, net_id);
            &&& after.outbox == orch.outbox + teardowns(
                orch,
                server,
                server_docker,
                client,
                client_docker,
                net_id,
            )
            &&& after.clients == orch.clients
            &&& after.net == orch.net
            &&& after.net_ids == seqs::without(orch.net_ids, net_id)
        }),
{
    let after = orch.teardown(client, client_docker, server, server_docker, net_id);
    assert(after.outbox =~= orch.outbox + teardowns(
        orch,
        server,
        server_docker,
        client,
        client_docker,
        net_id,
    ));
}

/// An edge whose connection is there is reused: one more chain runs over the connection, which is used
/// now, and nothing else of it changes, nor any other connection. That of a proxy client is reused where
/// it is, that of another client at the edge's replica.
pub proof fn law_edge_reused(
    w: World,
    edge: RegisteredEdgeView,
    server_msg: Seq<char>,
    client_msg: Seq<char>,
    now: nat,
)
    requires
        connections::services_wf(w.services),
        w.open_edge(edge, server_msg, client_msg, now).1 matches ProgressView::Finished(o)
            && o is Success,
    ensures
        exists|ip: IpAddr, docker: Option<Seq<char>>|
            (edge.client.1.proxy is None ==> ip == edge.server.0 && docker == edge.server_docker)
                && #[trigger] is_only_raised(
                w.services,
                w.open_edge(edge, server_msg, client_msg, now).0.services,
                edge.server.1.name,
                ip,
                docker,
                edge.client.1,
                now,
            ),
{
    let after = w.open_edge(edge, server_msg, client_msg, now).0;
    let name = edge.server.1.name;
    let c = edge.client.1;
    let reg = model::registered(w.services, name)->0;
    connections::lemma_wf_of(w.services, name);
    connections::lemma_holds(reg, c);
    connections::lemma_holds_at(reg, edge.server.0, edge.server_docker, c);
    let next = edge.counted(reg, now);
    laws::lemma_put_registered(w.services, name, ServiceView::Registered(next), name);
    let (ip, docker) = if c.proxy is Some {
        (reg.replicas[reg.holder(c)].ip, reg.replicas[reg.holder(c)].docker_container)
    } else {
        (edge.server.0, edge.server_docker)
    };
    if c.proxy is Some {
        connections::lemma_with_info(reg, c, reg.info(c)->0.with_chain(now));
    } else {
        connections::lemma_with_client(
            reg,
            ip,
            docker,
            c,
            reg.info_at(ip, docker, c)->0.with_chain(now),
        );
    }
    lemma_other_conns(w, name, reg, next, ip, docker, c);
    assert(connections::replica_conn(next, ip, docker, c) is Some);
    assert(is_only_raised(w.services, after.services, name, ip, docker, c, now));
}

/// One more chain runs over one connection, which was used; no other connection is different.
pub open spec fn is_only_raised(
    a: ServicesView,
    b: ServicesView,
    name: Seq<char>,
    ip: IpAddr,
    docker: Option<Seq<char>>,
    c: ClientView,
    now: nat,
) -> bool {
    &&& is_raised(
        connections::conn(a, name, ip, docker, c),
        connections::conn(b, name, ip, docker, c),
        now,
    )
    &&& forall|n: Seq<char>, x: IpAddr, y: Option<Seq<char>>, q: ClientView|
        !(n == name && x == ip && y == docker && q == c) ==> #[trigger] connections::conn(
            b,
            n,
            x,
            y,
            q,
        ) == connections::conn(a, n, x, y, q)
}

/// A connection after one more chain runs over it and it was used: nothing else of it is different.
pub open spec fn is_raised(
    before: Option<ClientInfoView>,
    after: Option<ClientInfoView>,
    now: nat,
) -> bool {
    &&& before is Some
    &&& after == Some(
        ClientInfoView {
            active_chains: before->0.active_chains + 1,
            latest: now,
            ..before->0
        },
    )
}

} // verus!
