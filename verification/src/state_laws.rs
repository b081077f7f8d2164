//! What holds in every state of the controller.
use crate::addr::IpAddr;
use crate::chain_setup::{OutcomeView, PendingView};
use crate::net::Net;
use crate::nullnet_grpc_impl;
use crate::nullnet_grpc_impl::{ProxyReplyView, RequestError, SharedNetworkView};
use crate::orchestrator;
use crate::orchestrator::OrchestratorView;
use crate::seqs;
use crate::services::changes;
use crate::services::changes::OfferView;
use crate::services::clients;
use crate::services::connections;
use crate::services::edge::RegisteredEdgeView;
use crate::services::input::ServiceTomlView;
use crate::services::input_laws;
use crate::services::laws;
use crate::services::model;
use crate::services::model::{RegisteredView, ServiceView, ServicesView};
use crate::services::update_laws;
use crate::services::world::{ChangeView, World};
use crate::setup_laws;
use vstd::prelude::*;

verus! {

/// The identifiers in use are in range and differ.
pub open spec fn ids_valid(net_ids: Seq<u32>) -> bool {
    &&& net_ids.no_duplicates()
    &&& forall|id: u32| #[trigger]
        net_ids.contains(id) ==> 1 <= id <= orchestrator::MAX_NET_ID
}

/// What holds in every state: the services are well-formed, and so are the identifiers in use; no host
/// is listed twice as connected, and no message as awaited.
pub open spec fn is_valid(w: World) -> bool {
    &&& connections::services_wf(w.services)
    &&& ids_valid(w.orch.net_ids)
    &&& w.orch.clients.no_duplicates()
    &&& w.orch.pending.no_duplicates()
}

/// The state that a controller starts in is valid.
pub proof fn law_start_valid(
    services: ServicesView,
    toml: Seq<ServiceTomlView>,
    default: u64,
    net: Net,
)
    requires
        input_laws::is_configured(services, toml, default),
    ensures
        is_valid(
            World {
                services,
                orch: OrchestratorView {
                    net,
                    clients: Seq::empty(),
                    pending: Seq::empty(),
                    net_ids: Seq::empty(),
                    outbox: Seq::empty(),
                },
            },
        ),
{
    input_laws::law_configured_idle(services, toml, default);
}

/// A reduction of a valid state is valid.
proof fn lemma_reduced_valid(a: OrchestratorView, b: OrchestratorView)
    requires
        ids_valid(a.net_ids),
        laws::orch_reduced(a, b),
    ensures
        ids_valid(b.net_ids),
{
    assert forall|id: u32| #[trigger] b.net_ids.contains(id) implies 1 <= id
        <= orchestrator::MAX_NET_ID by {
        assert(a.net_ids.contains(id));
    }
}

/// Bringing services in line with changes keeps a state valid.
pub proof fn law_changes_keep_valid(w: World, list: Seq<ChangeView>)
    requires
        is_valid(w),
    ensures
        is_valid(w.apply_all(list)),
{
    laws::law_changes_reduce(w, list);
    lemma_reduced_valid(w.orch, w.apply_all(list).orch);
}

/// Taking over a configuration keeps a state valid.
pub proof fn law_config_update_keeps_valid(w: World, loaded: ServicesView, now: nat)
    requires
        is_valid(w),
        connections::services_wf(loaded),
        update_laws::none_runs(loaded),
    ensures
        is_valid(w.apply_all(changes::config_changes(w.services, loaded, now)).merged(loaded)),
{
    update_laws::law_config_update(w, loaded, now);
    lemma_reduced_valid(
        w.orch,
        w.apply_all(changes::config_changes(w.services, loaded, now)).merged(loaded).orch,
    );
}

/// Taking over the list of services that a host offers keeps a state valid.
pub proof fn law_services_list_keeps_valid(w: World, sender_ip: IpAddr, list: Seq<OfferView>)
    requires
        is_valid(w),
    ensures
        is_valid(w.services_list(sender_ip, list)),
{
    update_laws::law_services_list(w, sender_ip, list);
    lemma_reduced_valid(w.orch, w.services_list(sender_ip, list).orch);
}

/// A host that opens its control channel is connected, as are those that were before and no other, and
/// keeps a state valid.
pub proof fn law_connect(w: World, ip: IpAddr)
    requires
        is_valid(w),
    ensures
        is_valid(World { orch: w.orch.connected(ip), ..w }),
        forall|host: IpAddr| #[trigger]
            w.orch.connected(ip).clients.contains(host) == (w.orch.clients.contains(host) || host
                == ip),
{
    lemma_with(w.orch.clients, ip);
}

/// A host that closes its control channel is connected no more; the others stay connected. A state stays
/// valid.
pub proof fn law_disconnect(w: World, ip: IpAddr)
    requires
        is_valid(w),
    ensures
        is_valid(World { orch: w.orch.disconnected(ip), ..w }),
        forall|host: IpAddr| #[trigger]
            w.orch.disconnected(ip).clients.contains(host) == (w.orch.clients.contains(host) && host
                != ip),
{
    laws::lemma_without_contains(w.orch.clients, ip);
}

/// A message that is acknowledged, or will not be, is awaited no more; the others stay awaited. A state
/// stays valid.
pub proof fn law_settle(w: World, id: Seq<char>)
    requires
        is_valid(w),
    ensures
        is_valid(World { orch: w.orch.settled(id), ..w }),
        forall|other: Seq<char>| #[trigger]
            w.orch.settled(id).pending.contains(other) == (w.orch.pending.contains(other) && other
                != id),
{
    laws::lemma_without_contains(w.orch.pending, id);
}

/// The loss of a host keeps a state valid. The host is connected no more, and the others stay connected.
pub proof fn law_disconnect_keeps_valid(w: World, ip: IpAddr)
    requires
        is_valid(w),
    ensures
        ({
            let after = (World { orch: w.orch.disconnected(ip), ..w }).apply_all(
                changes::disconnect_changes(w.services, ip),
            );
            &&& is_valid(after)
            &&& forall|host: IpAddr| #[trigger]
                after.orch.clients.contains(host) == (w.orch.clients.contains(host) && host != ip)
        }),
{
    let start = World { orch: w.orch.disconnected(ip), ..w };
    law_disconnect(w, ip);
    law_changes_keep_valid(start, changes::disconnect_changes(w.services, ip));
    laws::law_changes_reduce(start, changes::disconnect_changes(w.services, ip));
}

/// What is in a list after something was added that may be in it.
pub(crate) proof fn lemma_with<A>(s: Seq<A>, x: A)
    ensures
        s.no_duplicates() ==> seqs::with(s, x).no_duplicates(),
        forall|y: A| #[trigger] seqs::with(s, x).contains(y) == (s.contains(y) || y == x),
{
    let t = seqs::with(s, x);
    assert forall|y: A| #[trigger] t.contains(y) == (s.contains(y) || y == x) by {
        if !s.contains(x) {
            if s.contains(y) {
                let k = choose|k: int| 0 <= k < s.len() && s[k] == y;
                assert(t[k] == y);
            }
            if t.contains(y) {
                let k = choose|k: int| 0 <= k < t.len() && t[k] == y;
                if k < s.len() {
                    assert(s[k] == y);
                }
            }
            if y == x {
                assert(t[s.len() as int] == y);
            }
        }
    }
    if s.no_duplicates() && !s.contains(x) {
        assert forall|i: int, j: int| 0 <= i < t.len() && 0 <= j < t.len() && i != j implies t[i]
            != t[j] by {
            if i < s.len() {
                assert(s.contains(s[i]));
            }
            if j < s.len() {
                assert(s.contains(s[j]));
            }
        }
    }
}

/// Requests of proxies and triggers keep a state valid.
pub proof fn law_requests_keep_valid(
    w: World,
    name: Seq<char>,
    ip: IpAddr,
    client: Seq<char>,
    port: u16,
    now: nat,
)
    requires
        is_valid(w),
    ensures
        is_valid(w.proxy_request(name, ip, client, now).0),
        is_valid(w.backend_trigger(name, ip, port, now).0),
{
    setup_laws::law_proxy_request(w, name, ip, client, now);
    setup_laws::law_backend_trigger(w, name, ip, port, now);
}

/// A client that shares the network that its request was answered with keeps a state valid.
pub proof fn law_share_keeps_valid(
    w: World,
    name: Seq<char>,
    proxy_ip: IpAddr,
    client: Seq<char>,
    network: SharedNetworkView,
    asked: nat,
    now: nat,
)
    requires
        is_valid(w),
        w.proxy_request(name, proxy_ip, client, asked).1 == Ok::<_, RequestError>(
            ProxyReplyView::Share(network),
        ),
    ensures
        is_valid(w.share_network(name, proxy_ip, client, network, now)),
{
    setup_laws::law_share_proposal(w, name, proxy_ip, client, asked, network);
    setup_laws::law_share_network(w, name, proxy_ip, client, network, now);
}

/// Services after one of them was replaced by a well-formed one are well-formed.
proof fn lemma_replaced(w: World, name: Seq<char>, reg: RegisteredView)
    requires
        connections::services_wf(w.services),
        connections::registered_wf(reg),
    ensures
        connections::services_wf(w.with_service(name, ServiceView::Registered(reg)).services),
{
    connections::lemma_put_wf(w.services, name, ServiceView::Registered(reg));
}

/// Giving up a reservation keeps services well-formed.
proof fn lemma_released(w: World, edge: RegisteredEdgeView)
    requires
        connections::services_wf(w.services),
    ensures
        connections::services_wf(w.released(edge).services),
        w.released(edge).orch == w.orch,
{
    let name = edge.server_name();
    connections::lemma_wf_of(w.services, name);
    if let Some(reg) = model::registered(w.services, name) {
        let (ip, docker) = (edge.server.0, edge.server_docker);
        connections::lemma_without_client_at(reg, ip, docker, edge.client.1);
        lemma_replaced(w, name, reg.without_client_at(ip, docker, edge.client.1));
    }
}

/// One more chain over the connection of an edge keeps a service well-formed.
proof fn lemma_counted(edge: RegisteredEdgeView, reg: RegisteredView, now: nat)
    requires
        connections::registered_wf(reg),
    ensures
        connections::registered_wf(edge.counted(reg, now)),
{
    let c = edge.client.1;
    let (ip, docker) = (edge.server.0, edge.server_docker);
    if c.proxy is Some {
        connections::lemma_holds(reg, c);
        if let Some(ci) = reg.info(c) {
            connections::lemma_with_info(reg, c, ci.with_chain(now));
        }
    } else if let Some(ci) = reg.info_at(ip, docker, c) {
        connections::lemma_with_client(reg, ip, docker, c, ci.with_chain(now));
    }
}

/// Opening an edge keeps a state valid.
pub proof fn law_open_edge_keeps_valid(
    w: World,
    edge: RegisteredEdgeView,
    server_msg: Seq<char>,
    client_msg: Seq<char>,
    now: nat,
)
    requires
        is_valid(w),
    ensures
        is_valid(w.open_edge(edge, server_msg, client_msg, now).0),
{
    let name = edge.server_name();
    let c = edge.client.1;
    let after = w.open_edge(edge, server_msg, client_msg, now).0;
    lemma_with(w.orch.pending, server_msg);
    lemma_with(w.orch.pending, client_msg);
    lemma_with(seqs::with(w.orch.pending, server_msg), client_msg);
    connections::lemma_wf_of(w.services, name);
    if let Some(reg) = model::registered(w.services, name) {
        if edge.is_set_up(reg) {
            lemma_counted(edge, reg, now);
            lemma_replaced(w, name, edge.counted(reg, now));
        } else {
            let ci = clients::placeholder_info(edge.client.0, now);
            connections::lemma_with_client(reg, edge.server.0, edge.server_docker, c, ci);
            let next = reg.with_client(edge.server.0, edge.server_docker, c, ci);
            lemma_replaced(w, name, next);
            lemma_released(w.with_service(name, ServiceView::Registered(next)), edge);
            if let Some(id) = orchestrator::lowest_free(w.orch.net_ids) {
                assert(orchestrator::is_lowest_free(w.orch.net_ids, id));
                let ids = w.orch.net_ids.push(id);
                assert(after.orch.net_ids == ids);
                assert forall|x: u32| #[trigger] ids.contains(x) implies 1 <= x
                    <= orchestrator::MAX_NET_ID by {
                    let k = choose|k: int| 0 <= k < ids.len() && ids[k] == x;
                    if k < w.orch.net_ids.len() {
                        assert(w.orch.net_ids[k] == x);
                        assert(w.orch.net_ids.contains(x));
                    }
                }
            }
        }
    }
}

/// Finishing an edge keeps a state valid, where a proxy client is not connected to another replica of
/// the service meanwhile.
pub proof fn law_finish_edge_keeps_valid(
    w: World,
    pending: PendingView,
    server_ack: bool,
    client_ack: bool,
    now: nat,
)
    requires
        is_valid(w),
        pending.edge.client.1.proxy is Some ==> forall|ip: IpAddr, docker: Option<Seq<char>>|
            #[trigger]
            connections::conn(
                w.services,
                pending.edge.server_name(),
                ip,
                docker,
                pending.edge.client.1,
            ) is Some ==> ip == pending.edge.server.0 && docker == pending.edge.server_docker,
    ensures
        is_valid(w.finish_edge(pending, server_ack, client_ack, now).0),
{
    let edge = pending.edge;
    let name = edge.server_name();
    let c = edge.client.1;
    let settled = World {
        orch: w.orch.settled(pending.server_msg).settled(pending.client_msg),
        ..w
    };
    let torn = World { orch: edge.teardown(settled.orch, pending.net_id), ..settled };
    laws::lemma_without_contains(w.orch.pending, pending.server_msg);
    laws::lemma_without_contains(
        seqs::without(w.orch.pending, pending.server_msg),
        pending.client_msg,
    );
    laws::lemma_teardown_reduced(
        settled.orch,
        edge.client.0,
        edge.client_docker,
        edge.server.0,
        edge.server_docker,
        pending.net_id,
    );
    lemma_reduced_valid(settled.orch, torn.orch);
    lemma_released(torn, edge);
    connections::lemma_wf_of(w.services, name);
    if let Some(reg) = model::registered(w.services, name) {
        connections::lemma_holds(reg, c);
        if c.proxy is Some && reg.holds(c) {
            let r = reg.replicas[reg.holder(c)];
            assert(connections::conn(w.services, name, r.ip, r.docker_container, c) is Some);
        }
        if pending.server_addr is Some && pending.client_addr is Some {
            let ci = pending.info(
                pending.server_addr->0,
                pending.client_addr->0,
                now,
            ).with_chain(now);
            connections::lemma_with_client(reg, edge.server.0, edge.server_docker, c, ci);
            let next = reg.with_client(edge.server.0, edge.server_docker, c, ci);
            lemma_replaced(settled, name, next);
        }
    }
}

/// Finishing a chain keeps a state valid.
pub proof fn law_finish_chain_keeps_valid(w: World, outcomes: Seq<OutcomeView>)
    requires
        is_valid(w),
    ensures
        is_valid(w.finish_chain(outcomes).0),
{
    setup_laws::law_finish_chain(w, outcomes);
    lemma_reduced_valid(w.orch, w.finish_chain(outcomes).0.orch);
}

/// Finishing a chain that a trigger asked for keeps a state valid.
pub proof fn law_finish_backend_keeps_valid(
    w: World,
    outcomes: Seq<OutcomeView>,
    entry: RegisteredEdgeView,
)
    requires
        is_valid(w),
    ensures
        is_valid(w.finish_backend_chain(outcomes, entry).0),
{
    law_finish_chain_keeps_valid(w, outcomes);
    setup_laws::law_marked(
        w.finish_chain(outcomes).0,
        entry.client.1,
        nullnet_grpc_impl::edge_end(entry),
        true,
    );
}

} // verus!
