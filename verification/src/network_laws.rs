//! The networks of connections: which are in use, and that no two connections have the same.
use crate::addr::IpAddr;
use crate::chain_setup;
use crate::chain_setup::{OutcomeView, PendingView, ProgressView};
use crate::orchestrator;
use crate::orchestrator::OrchestratorView;
use crate::seqs;
use crate::services::clients;
use crate::services::clients::ClientView;
use crate::services::connections;
use crate::services::edge::RegisteredEdgeView;
use crate::services::laws;
use crate::services::model;
use crate::services::model::{EntryView, PlaceView, ServiceView, ServicesView};
use crate::services::world;
use crate::services::world::{ChainEdge, ChangeView, FilterView, NodeView, World};
use crate::setup_laws;
use crate::table;
use vstd::prelude::*;

verus! {

/// The network of the connection of client `c` at a location; none while it is being set up.
pub open spec fn net_at(
    services: ServicesView,
    name: Seq<char>,
    ip: IpAddr,
    docker: Option<Seq<char>>,
    c: ClientView,
) -> Option<u32> {
    match connections::conn(services, name, ip, docker, c) {
        Some(ci) => if ci.net_id == 0 {
            None
        } else {
            Some(ci.net_id)
        },
        None => None,
    }
}

/// The network of every connection is in use.
pub open spec fn nets_in_use(services: ServicesView, orch: OrchestratorView) -> bool {
    forall|n: Seq<char>, ip: IpAddr, docker: Option<Seq<char>>, c: ClientView|
        (#[trigger] net_at(services, n, ip, docker, c)) is Some ==> orch.net_ids.contains(
            net_at(services, n, ip, docker, c)->0,
        )
}

/// No two connections have the same network.
pub open spec fn nets_differ(services: ServicesView) -> bool {
    forall|
        n: Seq<char>,
        ip: IpAddr,
        docker: Option<Seq<char>>,
        c: ClientView,
        m: Seq<char>,
        at: IpAddr,
        container: Option<Seq<char>>,
        d: ClientView,
    |
        (#[trigger] net_at(services, n, ip, docker, c)) is Some && net_at(
            services,
            n,
            ip,
            docker,
            c,
        ) == (#[trigger] net_at(services, m, at, container, d)) ==> n == m && ip == at && docker
            == container && c == d
}

/// What holds of the networks as long as no client shares one: each connection has its own, which is
/// in use.
pub open spec fn nets_ok(w: World) -> bool {
    &&& connections::services_wf(w.services)
    &&& nets_in_use(w.services, w.orch)
    &&& nets_differ(w.services)
}

/// Fewer connections have networks that differ if more have.
proof fn lemma_fewer_differ(a: ServicesView, b: ServicesView)
    requires
        laws::services_reduced(a, b),
        nets_differ(a),
    ensures
        nets_differ(b),
        forall|n: Seq<char>, ip: IpAddr, docker: Option<Seq<char>>, c: ClientView|
            (#[trigger] net_at(b, n, ip, docker, c)) is Some ==> net_at(b, n, ip, docker, c)
                == net_at(a, n, ip, docker, c),
{
    assert forall|n: Seq<char>, ip: IpAddr, docker: Option<Seq<char>>, c: ClientView|
        (#[trigger] net_at(b, n, ip, docker, c)) is Some implies net_at(b, n, ip, docker, c)
        == net_at(a, n, ip, docker, c) by {
        assert(laws::conn_kept(
            connections::conn(a, n, ip, docker, c),
            connections::conn(b, n, ip, docker, c),
        ));
    }
    assert forall|
        n: Seq<char>,
        ip: IpAddr,
        docker: Option<Seq<char>>,
        c: ClientView,
        m: Seq<char>,
        at: IpAddr,
        container: Option<Seq<char>>,
        d: ClientView,
    |
        (#[trigger] net_at(b, n, ip, docker, c)) is Some && net_at(b, n, ip, docker, c) == (
        #[trigger] net_at(b, m, at, container, d)) implies n == m && ip == at && docker == container
        && c == d by {
        assert(net_at(a, n, ip, docker, c) == net_at(b, n, ip, docker, c));
        assert(net_at(a, m, at, container, d) == net_at(b, m, at, container, d));
    }
}

/// Fewer connections, and the same orchestrator, leave the networks in order.
proof fn lemma_fewer_ok(a: World, b: World)
    requires
        nets_ok(a),
        connections::services_wf(b.services),
        laws::services_reduced(a.services, b.services),
        b.orch == a.orch,
    ensures
        nets_ok(b),
{
    lemma_fewer_differ(a.services, b.services);
}

/// A network that is torn down is the only one that is not in use any more.
proof fn lemma_teardown_frees(
    orch: OrchestratorView,
    client_ip: IpAddr,
    client_docker: Option<Seq<char>>,
    server_ip: IpAddr,
    server_docker: Option<Seq<char>>,
    net_id: u32,
)
    ensures
        forall|id: u32|
            id != net_id && orch.net_ids.contains(id) ==> #[trigger] orch.teardown(
                client_ip,
                client_docker,
                server_ip,
                server_docker,
                net_id,
            ).net_ids.contains(id),
{
    laws::lemma_without_contains(orch.net_ids, net_id);
}

/// One chain fewer over a connection leaves the networks in order.
proof fn lemma_decrement_nets(w: World, c: ClientView, name: Seq<char>)
    requires
        nets_ok(w),
    ensures
        nets_ok(w.decrement(c, name)),
{
    laws::lemma_decrement_reduced(w, c, name);
    reveal(World::decrement);
    let after = w.decrement(c, name);
    lemma_fewer_differ(w.services, after.services);
    connections::lemma_wf_of(w.services, name);
    if let Some(reg) = model::registered(w.services, name) {
        connections::lemma_holds(reg, c);
        if let Some(ci) = reg.info(c) {
            let r = reg.replicas[reg.holder(c)];
            if ci.active_chains <= 1 {
                connections::lemma_without_client(reg, c);
                lemma_teardown_frees(
                    w.orch,
                    ci.client_ip,
                    ci.docker_container,
                    r.ip,
                    r.docker_container,
                    ci.net_id,
                );
                laws::lemma_put_registered(
                    w.services,
                    name,
                    ServiceView::Registered(reg.without_client(c)),
                    name,
                );
                assert forall|n: Seq<char>, ip: IpAddr, docker: Option<Seq<char>>, q: ClientView|
                    (#[trigger] net_at(
                        after.services,
                        n,
                        ip,
                        docker,
                        q,
                    )) is Some implies after.orch.net_ids.contains(
                    net_at(after.services, n, ip, docker, q)->0,
                ) by {
                    let id = net_at(after.services, n, ip, docker, q)->0;
                    assert(net_at(w.services, n, ip, docker, q) == Some(id));
                    if id == ci.net_id {
                        assert(net_at(w.services, name, r.ip, r.docker_container, c) == Some(id));
                        assert(n == name && ip == r.ip && docker == r.docker_container && q == c);
                        assert(connections::replica_conn(
                            reg.without_client(c),
                            r.ip,
                            r.docker_container,
                            c,
                        ) is None);
                    }
                }
            }
        }
    }
}

proof fn lemma_decrements_nets(w: World, edges: Seq<ChainEdge>)
    requires
        nets_ok(w),
    ensures
        nets_ok(seqs::fold(w, edges, world::decrement_edge())),
{
    let f = world::decrement_edge();
    let p = |v: World| nets_ok(v);
    assert forall|v: World, e: ChainEdge| p(v) && edges.contains(e) implies #[trigger] p(
        f(v, e),
    ) by {
        lemma_decrement_nets(v, e.0, e.1);
    }
    seqs::lemma_fold_keeps(w, edges, f, p);
}

/// One chain fewer over the connection to a replica leaves the networks in order.
proof fn lemma_decrement_at_nets(
    w: World,
    c: ClientView,
    name: Seq<char>,
    ip: IpAddr,
    docker: Option<Seq<char>>,
)
    requires
        nets_ok(w),
    ensures
        nets_ok(w.decrement_at(c, name, ip, docker)),
{
    laws::lemma_decrement_at_reduced(w, c, name, ip, docker);
    reveal(World::decrement_at);
    let after = w.decrement_at(c, name, ip, docker);
    lemma_fewer_differ(w.services, after.services);
    connections::lemma_wf_of(w.services, name);
    if let Some(reg) = model::registered(w.services, name) {
        if let Some(ci) = reg.info_at(ip, docker, c) {
            if ci.active_chains <= 1 {
                let next = reg.without_client_at(ip, docker, c);
                connections::lemma_without_client_at(reg, ip, docker, c);
                lemma_teardown_frees(
                    w.orch,
                    ci.client_ip,
                    ci.docker_container,
                    ip,
                    docker,
                    ci.net_id,
                );
                laws::lemma_put_registered(
                    w.services,
                    name,
                    ServiceView::Registered(next),
                    name,
                );
                assert forall|n: Seq<char>, x: IpAddr, y: Option<Seq<char>>, q: ClientView|
                    (#[trigger] net_at(
                        after.services,
                        n,
                        x,
                        y,
                        q,
                    )) is Some implies after.orch.net_ids.contains(
                    net_at(after.services, n, x, y, q)->0,
                ) by {
                    let id = net_at(after.services, n, x, y, q)->0;
                    assert(net_at(w.services, n, x, y, q) == Some(id));
                    if id == ci.net_id {
                        assert(net_at(w.services, name, ip, docker, c) == Some(id));
                        assert(n == name && x == ip && y == docker && q == c);
                        assert(connections::replica_conn(next, ip, docker, c) is None);
                    }
                }
            }
        }
    }
}

/// One chain fewer over a connection, and the loss of its mark, leave the networks in order.
proof fn lemma_nets_kept()
    ensures
        laws::is_kept(|v: World| nets_ok(v)),
{
    let p = |v: World| nets_ok(v);
    assert forall|v: World, c: ClientView, name: Seq<char>, ip: IpAddr, docker: Option<Seq<char>>|
        p(v) && c.proxy is None implies p(#[trigger] v.decrement_at(c, name, ip, docker)) by {
        lemma_decrement_at_nets(v, c, name, ip, docker);
    }
    assert forall|v: World, c: ClientView, at: NodeView| p(v) && c.proxy is None implies p(
        #[trigger] v.marked_at(c, at, false),
    ) by {
        laws::lemma_marked_reduced(v, c, at);
        lemma_fewer_ok(v, v.marked_at(c, at, false));
    }
}

proof fn lemma_dep_chains_nets(w: World, name: Seq<char>, entries: Seq<EntryView>)
    requires
        nets_ok(w),
    ensures
        nets_ok(seqs::fold(w, entries, world::take_down_deps(name))),
{
    let f = world::take_down_deps(name);
    let p = |v: World| nets_ok(v);
    assert forall|v: World, e: EntryView| p(v) && entries.contains(e) implies #[trigger] p(
        f(v, e),
    ) by {
        reveal(World::teardown_dep_chain);
        let node = NodeView { name, ip: e.ip, docker: e.docker_container };
        lemma_decrements_nets(v, world::dep_edges(v.services, node));
    }
    seqs::lemma_fold_keeps(w, entries, f, p);
}

/// The networks of connections that are torn down are the only ones that are not in use any more.
proof fn lemma_nets_frees(orch: OrchestratorView, entries: Seq<EntryView>, id: u32)
    requires
        orch.net_ids.contains(id),
        forall|e: EntryView| #[trigger] entries.contains(e) ==> e.info.net_id != id,
    ensures
        seqs::fold(orch, entries, world::take_down_net()).net_ids.contains(id),
{
    let f = world::take_down_net();
    let p = |o: OrchestratorView| o.net_ids.contains(id);
    assert forall|o: OrchestratorView, e: EntryView| p(o) && entries.contains(e) implies #[trigger] p(
        f(o, e),
    ) by {
        lemma_teardown_frees(
            o,
            e.info.client_ip,
            e.info.docker_container,
            e.ip,
            e.docker_container,
            e.info.net_id,
        );
        assert(e.info.net_id != id);
    }
    seqs::lemma_fold_keeps(orch, entries, f, p);
}

/// Chains that are taken down leave the networks in order.
proof fn lemma_teardown_chain_nets(w: World, name: Seq<char>, filter: FilterView)
    requires
        nets_ok(w),
    ensures
        nets_ok(w.teardown_chain(name, filter)),
{
    let after = w.teardown_chain(name, filter);
    laws::lemma_teardown_chain_reduced(w, name, filter);
    laws::law_teardown_chain(w, name, filter);
    lemma_fewer_differ(w.services, after.services);
    connections::lemma_wf_of(w.services, name);
    reveal(World::teardown_chain);
    if let Some(reg) = model::registered(w.services, name) {
        let entries = seqs::concat_map(reg.entries(), filter.selected());
        let w1 = seqs::fold(w, entries, world::take_down_deps(name));
        lemma_dep_chains_nets(w, name, entries);
        laws::lemma_dep_chains_reduced(w, name, entries);
        laws::lemma_dep_chains_proxies(w, name, entries);
        let w2 = World { orch: seqs::fold(w1.orch, entries, world::take_down_net()), ..w1 };
        assert(after.orch == w2.orch);
        connections::lemma_wf_of(w1.services, name);
        lemma_last_step(w1, name, entries);
        lemma_fewer_differ(w1.services, after.services);
        assert forall|n: Seq<char>, ip: IpAddr, docker: Option<Seq<char>>, c: ClientView|
            (#[trigger] net_at(
                after.services,
                n,
                ip,
                docker,
                c,
            )) is Some implies after.orch.net_ids.contains(
            net_at(after.services, n, ip, docker, c)->0,
        ) by {
            let id = net_at(after.services, n, ip, docker, c)->0;
            assert(net_at(w1.services, n, ip, docker, c) == Some(id));
            assert forall|e: EntryView| #[trigger]
                entries.contains(e) implies e.info.net_id != id by {
                laws::lemma_selected(reg, filter, e);
                connections::lemma_entries(reg, e);
                if e.info.net_id == id {
                    let at = e.docker_container;
                    assert(connections::conn(w.services, name, e.ip, at, e.client) == Some(
                        e.info,
                    ));
                    assert(connections::conn(w1.services, name, e.ip, at, e.client)
                        == connections::conn(w.services, name, e.ip, at, e.client));
                    assert(net_at(w1.services, name, e.ip, at, e.client) == Some(id));
                    assert(connections::conn(after.services, name, e.ip, at, e.client) is None);
                }
            }
            lemma_nets_frees(w1.orch, entries, id);
        }
    }
}

/// The last step of taking chains down only reduces.
proof fn lemma_last_step(w1: World, name: Seq<char>, entries: Seq<EntryView>)
    requires
        connections::services_wf(w1.services),
    ensures
        laws::services_reduced(
            w1.services,
            match model::registered(w1.services, name) {
                Some(reg) => w1.with_service(
                    name,
                    ServiceView::Registered(seqs::fold(reg, entries, world::disconnect())),
                ).services,
                None => w1.services,
            },
        ),
{
    laws::lemma_reduced_same(w1);
    connections::lemma_wf_of(w1.services, name);
    if let Some(reg) = model::registered(w1.services, name) {
        laws::lemma_disconnects_reduced(reg, entries);
        laws::lemma_put_reduced(
            w1,
            name,
            ServiceView::Registered(seqs::fold(reg, entries, world::disconnect())),
        );
    }
}

proof fn lemma_teardown_chains_nets(w: World, names: Seq<Seq<char>>, filter: FilterView)
    requires
        nets_ok(w),
    ensures
        nets_ok(seqs::fold(w, names, world::take_down(filter))),
{
    let f = world::take_down(filter);
    let p = |v: World| nets_ok(v);
    assert forall|v: World, name: Seq<char>| p(v) && names.contains(name) implies #[trigger] p(
        f(v, name),
    ) by {
        lemma_teardown_chain_nets(v, name, filter);
    }
    seqs::lemma_fold_keeps(w, names, f, p);
}

proof fn lemma_invalidated_nets(w: World, name: Seq<char>, is_failed: bool)
    requires
        nets_ok(w),
    ensures
        nets_ok(w.teardown_invalidated_service(name, is_failed)),
{
    reveal(World::teardown_invalidated_service);
    let names = seqs::concat_map(w.services, world::dependent_on(name));
    let w1 = seqs::fold(w, names, world::take_down(FilterView::All));
    lemma_teardown_chains_nets(w, names, FilterView::All);
    if is_failed && model::registered(w1.services, name) is Some {
        let si = ServiceView::Unregistered(model::registered(w1.services, name)->0.config);
        laws::lemma_put_reduced(w1, name, si);
        lemma_fewer_ok(w1, w1.with_service(name, si));
    }
}

proof fn lemma_partial_nets(w: World, name: Seq<char>, place: PlaceView)
    requires
        nets_ok(w),
    ensures
        nets_ok(w.teardown_partial_replicas(name, place).without_replicas(name, place)),
{
    reveal(World::teardown_partial_replicas);
    let w2 = w.teardown_partial_replicas(name, place);
    if let Some(reg) = model::registered(w.services, name) {
        let clients = reg.service_clients(place);
        let f = world::take_down_source();
        let p = |v: World| nets_ok(v);
        assert forall|v: World, c: ClientView| p(v) && clients.contains(c) implies #[trigger] p(
            f(v, c),
        ) by {
            if let Some((ip, docker)) = c.replica {
                lemma_teardown_chain_nets(
                    v,
                    c.name,
                    FilterView::On(PlaceView::Replica(ip, docker)),
                );
            }
        }
        seqs::lemma_fold_keeps(w, clients, f, p);
        let w1 = seqs::fold(w, clients, f);
        lemma_teardown_chain_nets(w1, name, FilterView::On(place));
    }
    laws::lemma_without_replicas_reduced(w2, name, place);
    lemma_fewer_ok(w2, w2.without_replicas(name, place));
}

proof fn lemma_apply_nets(w: World, change: ChangeView)
    requires
        nets_ok(w),
    ensures
        nets_ok(w.apply(change)),
{
    reveal(World::apply);
    match change {
        ChangeView::Removed { name } => {
            lemma_invalidated_nets(w, name, true);
            let w1 = w.teardown_invalidated_service(name, true);
            laws::lemma_del_reduced(w1, name);
            lemma_fewer_ok(w1, World { services: table::del(w1.services, name), ..w1 });
        },
        ChangeView::DepsChanged { name } => {
            lemma_invalidated_nets(w, name, false);
        },
        ChangeView::ReachabilityChanged { name } => {
            lemma_teardown_chain_nets(w, name, FilterView::All);
        },
        ChangeView::ReplicasRemoved { name, ip } => {
            lemma_invalidated_nets(w, name, true);
            lemma_partial_nets(w, name, PlaceView::Host(ip));
        },
        ChangeView::ReplicaRemoved { name, ip, docker_container } => {
            lemma_invalidated_nets(w, name, true);
            lemma_partial_nets(w, name, PlaceView::Replica(ip, docker_container));
        },
        ChangeView::ProxyDisconnected { ip } => {
            lemma_teardown_chains_nets(
                w,
                seqs::concat_map(w.services, world::served_through(ip)),
                FilterView::ByIp(ip),
            );
        },
        ChangeView::ProxyClientTimedOut { name, client } => {
            lemma_teardown_chain_nets(w, name, FilterView::ByClient(client));
        },
        ChangeView::BackendChainTimedOut {
            initiator_name,
            initiator_ip,
            initiator_docker,
            first_dependency,
        } => {
            let node = NodeView {
                name: initiator_name,
                ip: initiator_ip,
                docker: initiator_docker,
            };
            lemma_nets_kept();
            laws::lemma_backend_keeps(w, node, first_dependency, |v: World| nets_ok(v));
        },
    }
}

/// As long as no client shares a network, bringing services in line with changes leaves each
/// connection with a network of its own that is in use.
pub proof fn law_changes_keep_nets(w: World, changes: Seq<ChangeView>)
    requires
        nets_ok(w),
    ensures
        nets_ok(w.apply_all(changes)),
{
    let f = world::apply_change();
    let p = |v: World| nets_ok(v);
    assert forall|v: World, change: ChangeView| p(v) && changes.contains(change) implies #[trigger] p(
        f(v, change),
    ) by {
        lemma_apply_nets(v, change);
    }
    seqs::lemma_fold_keeps(w, changes, f, p);
}

/// An edge that is opened leaves each connection with a network of its own that is in use. The network
/// that it takes into use is that of no connection.
pub proof fn law_open_edge_keeps_nets(
    w: World,
    edge: RegisteredEdgeView,
    server_msg: Seq<char>,
    client_msg: Seq<char>,
    now: nat,
)
    requires
        nets_ok(w),
        laws::port_at(w.services, edge.server_name(), edge.server.0, edge.server_docker) is Some,
    ensures
        ({
            let (after, progress) = w.open_edge(edge, server_msg, client_msg, now);
            &&& nets_ok(after)
            &&& progress matches ProgressView::Pending(p) ==> {
                &&& after.orch.net_ids.contains(p.net_id)
                &&& forall|n: Seq<char>, ip: IpAddr, docker: Option<Seq<char>>, c: ClientView|
                    (#[trigger] net_at(after.services, n, ip, docker, c)) != Some(p.net_id)
            }
        }),
{
    let (after, progress) = w.open_edge(edge, server_msg, client_msg, now);
    setup_laws::law_open_edge(w, edge, server_msg, client_msg, now);
    if let ProgressView::Finished(outcome) = progress {
        if outcome is Success {
            assert forall|n: Seq<char>, x: IpAddr, y: Option<Seq<char>>, q: ClientView| #[trigger]
                net_at(after.services, n, x, y, q) == net_at(w.services, n, x, y, q) by {
                assert(connections::conn(after.services, n, x, y, q) is Some
                    || connections::conn(after.services, n, x, y, q) is None);
            }
        } else {
            let reg = model::registered(w.services, edge.server_name())->0;
            let c = edge.client.1;
            connections::lemma_wf_of(w.services, edge.server_name());
            connections::lemma_holds(reg, c);
            connections::lemma_holds_at(reg, edge.server.0, edge.server_docker, c);
            assert(connections::replica_conn(reg, edge.server.0, edge.server_docker, c) is None);
            setup_laws::lemma_release_undoes(
                w,
                edge,
                reg,
                clients::placeholder_info(edge.client.0, now),
            );
        }
    }
    if let ProgressView::Pending(p) = progress {
        let name = edge.server_name();
        let (ip, docker) = (edge.server.0, edge.server_docker);
        assert(after.orch.net_ids[w.orch.net_ids.len() as int] == p.net_id);
        assert forall|id: u32| w.orch.net_ids.contains(
            id,
        ) implies #[trigger] after.orch.net_ids.contains(id) by {
            let k = choose|k: int| 0 <= k < w.orch.net_ids.len() && w.orch.net_ids[k] == id;
            assert(after.orch.net_ids[k] == id);
        }
        assert forall|n: Seq<char>, x: IpAddr, y: Option<Seq<char>>, q: ClientView|
            #![trigger net_at(after.services, n, x, y, q)]
            net_at(after.services, n, x, y, q) == (if n == name && x == ip && y == docker && q
                == edge.client.1 {
                None
            } else {
                net_at(w.services, n, x, y, q)
            }) && net_at(after.services, n, x, y, q) != Some(p.net_id) by {
            assert(connections::conn(after.services, n, x, y, q) == (if n == name && x == ip && y
                == docker && q == edge.client.1 {
                Some(clients::placeholder_info(edge.client.0, now))
            } else {
                connections::conn(w.services, n, x, y, q)
            }));
            if net_at(w.services, n, x, y, q) is Some {
                assert(w.orch.net_ids.contains(net_at(w.services, n, x, y, q)->0));
            }
        }
    }
}

/// A connection that is recorded for an edge has a network of its own, where the network of the edge is
/// in use and that of no connection.
proof fn lemma_recorded_nets(w: World, pending: PendingView, now: nat)
    requires
        nets_ok(w),
        pending.server_addr is Some,
        pending.client_addr is Some,
        laws::port_at(
            w.services,
            pending.edge.server_name(),
            pending.edge.server.0,
            pending.edge.server_docker,
        ) is Some,
        pending.edge.client.1.proxy is Some ==> forall|ip: IpAddr, docker: Option<Seq<char>>|
            #[trigger]
            connections::conn(
                w.services,
                pending.edge.server_name(),
                ip,
                docker,
                pending.edge.client.1,
            ) is Some ==> ip == pending.edge.server.0 && docker == pending.edge.server_docker,
        w.orch.net_ids.contains(pending.net_id),
        forall|n: Seq<char>, ip: IpAddr, docker: Option<Seq<char>>, c: ClientView|
            (#[trigger] net_at(w.services, n, ip, docker, c)) != Some(pending.net_id),
    ensures
        nets_ok(w.finish_edge(pending, true, true, now).0),
{
    let (after, outcome) = w.finish_edge(pending, true, true, now);
    setup_laws::law_finish_edge(w, pending, now);
    let edge = pending.edge;
    let name = edge.server_name();
    let (ip, docker) = (edge.server.0, edge.server_docker);
    let c = edge.client.1;
    let ci = pending.info(pending.server_addr->0, pending.client_addr->0, now).with_chain(now);
    assert forall|n: Seq<char>, x: IpAddr, y: Option<Seq<char>>, q: ClientView|
        #![trigger net_at(after.services, n, x, y, q)]
        net_at(after.services, n, x, y, q) == (if n == name && x == ip && y == docker && q == c {
            if pending.net_id == 0 {
                None
            } else {
                Some(pending.net_id)
            }
        } else {
            net_at(w.services, n, x, y, q)
        }) by {
        assert(connections::conn(after.services, n, x, y, q) == (if n == name && x == ip && y
            == docker && q == c {
            Some(ci)
        } else {
            connections::conn(w.services, n, x, y, q)
        }));
    }
    assert forall|
        n: Seq<char>,
        x: IpAddr,
        y: Option<Seq<char>>,
        q: ClientView,
        m: Seq<char>,
        a: IpAddr,
        b: Option<Seq<char>>,
        d: ClientView,
    |
        (#[trigger] net_at(after.services, n, x, y, q)) is Some && net_at(
            after.services,
            n,
            x,
            y,
            q,
        ) == (#[trigger] net_at(after.services, m, a, b, d)) implies n == m && x == a && y == b
        && q == d by {
        assert(net_at(w.services, n, x, y, q) != Some(pending.net_id));
        assert(net_at(w.services, m, a, b, d) != Some(pending.net_id));
    }
}

/// An edge that is finished, whether its hosts acknowledged or not, leaves each connection with a network
/// of its own that is in use, where the network of the edge is in use and that of no connection. A proxy
/// client is not connected to another replica.
pub proof fn law_finish_edge_keeps_nets(
    w: World,
    pending: PendingView,
    server_ack: bool,
    client_ack: bool,
    now: nat,
)
    requires
        nets_ok(w),
        pending.edge.client.1.proxy is Some ==> forall|ip: IpAddr, docker: Option<Seq<char>>|
            #[trigger]
            connections::conn(
                w.services,
                pending.edge.server_name(),
                ip,
                docker,
                pending.edge.client.1,
            ) is Some ==> ip == pending.edge.server.0 && docker == pending.edge.server_docker,
        w.orch.net_ids.contains(pending.net_id),
        forall|n: Seq<char>, ip: IpAddr, docker: Option<Seq<char>>, c: ClientView|
            (#[trigger] net_at(w.services, n, ip, docker, c)) != Some(pending.net_id),
    ensures
        nets_ok(w.finish_edge(pending, server_ack, client_ack, now).0),
{
    let (after, outcome) = w.finish_edge(pending, server_ack, client_ack, now);
    let edge = pending.edge;
    let name = edge.server_name();
    let (ip, docker) = (edge.server.0, edge.server_docker);
    let c = edge.client.1;
    connections::lemma_wf_of(w.services, name);
    if outcome is Success {
        let reg = model::registered(w.services, name)->0;
        if reg.has_replica(ip, docker) {
            lemma_recorded_nets(w, pending, now);
        } else {
            world::lemma_same_service(w, name);
            assert(after.services == w.services);
        }
    } else {
        let settled = w.orch.settled(pending.server_msg).settled(pending.client_msg);
        lemma_teardown_frees(
            settled,
            edge.client.0,
            edge.client_docker,
            ip,
            docker,
            pending.net_id,
        );
        if let Some(reg) = model::registered(w.services, name) {
            let next = reg.without_client_at(ip, docker, c);
            connections::lemma_without_client_at(reg, ip, docker, c);
            connections::lemma_put_wf(w.services, name, ServiceView::Registered(next));
            assert forall|n: Seq<char>, x: IpAddr, y: Option<Seq<char>>, q: ClientView|
                #![trigger net_at(after.services, n, x, y, q)]
                net_at(after.services, n, x, y, q) is Some implies net_at(
                after.services,
                n,
                x,
                y,
                q,
            ) == net_at(w.services, n, x, y, q) by {
                laws::lemma_put_registered(w.services, name, ServiceView::Registered(next), n);
                if n == name {
                    assert(connections::replica_conn(next, x, y, q) is Some
                        ==> connections::replica_conn(next, x, y, q) == connections::replica_conn(
                        reg,
                        x,
                        y,
                        q,
                    ));
                }
            }
            lemma_some_ok(w, after, pending.net_id);
        } else {
            lemma_some_ok(w, after, pending.net_id);
        }
    }
}

/// Fewer connections, none of them on a network that is not in use any more, leave the networks in order.
proof fn lemma_some_ok(w: World, after: World, net_id: u32)
    requires
        nets_ok(w),
        connections::services_wf(after.services),
        forall|n: Seq<char>, x: IpAddr, y: Option<Seq<char>>, q: ClientView|
            #![trigger net_at(after.services, n, x, y, q)]
            net_at(after.services, n, x, y, q) is Some ==> net_at(after.services, n, x, y, q)
                == net_at(w.services, n, x, y, q),
        forall|n: Seq<char>, x: IpAddr, y: Option<Seq<char>>, q: ClientView|
            (#[trigger] net_at(w.services, n, x, y, q)) != Some(net_id),
        forall|id: u32|
            id != net_id && w.orch.net_ids.contains(id) ==> #[trigger] after.orch.net_ids.contains(
                id,
            ),
    ensures
        nets_ok(after),
{
    assert forall|n: Seq<char>, x: IpAddr, y: Option<Seq<char>>, q: ClientView|
        (#[trigger] net_at(
            after.services,
            n,
            x,
            y,
            q,
        )) is Some implies after.orch.net_ids.contains(net_at(after.services, n, x, y, q)->0) by {
        assert(net_at(w.services, n, x, y, q) == net_at(after.services, n, x, y, q));
    }
    assert forall|
        n: Seq<char>,
        x: IpAddr,
        y: Option<Seq<char>>,
        q: ClientView,
        m: Seq<char>,
        a: IpAddr,
        b: Option<Seq<char>>,
        d: ClientView,
    |
        (#[trigger] net_at(after.services, n, x, y, q)) is Some && net_at(
            after.services,
            n,
            x,
            y,
            q,
        ) == (#[trigger] net_at(after.services, m, a, b, d)) implies n == m && x == a && y == b
        && q == d by {
        assert(net_at(w.services, n, x, y, q) == net_at(after.services, n, x, y, q));
        assert(net_at(w.services, m, a, b, d) == net_at(after.services, m, a, b, d));
    }
}

/// A chain that is finished leaves each connection with a network of its own that is in use.
pub proof fn law_finish_chain_keeps_nets(w: World, outcomes: Seq<OutcomeView>)
    requires
        nets_ok(w),
    ensures
        nets_ok(w.finish_chain(outcomes).0),
{
    let f = chain_setup::undo_edge();
    let p = |v: World| nets_ok(v);
    assert forall|v: World, o: OutcomeView| p(v) && outcomes.contains(o) implies #[trigger] p(
        f(v, o),
    ) by {
        if let OutcomeView::Success(e) = o {
            lemma_decrement_nets(v, e.client, e.server_name);
            lemma_decrement_at_nets(v, e.client, e.server_name, e.replica.0, e.replica.1);
        }
    }
    seqs::lemma_fold_keeps(w, outcomes, f, p);
}

/// Marking the entry of a backend chain leaves each connection with a network of its own that is in use.
pub proof fn law_marked_keeps_nets(w: World, c: ClientView, at: NodeView, flag: bool)
    requires
        nets_ok(w),
    ensures
        nets_ok(w.marked_at(c, at, flag)),
{
    setup_laws::law_marked(w, c, at, flag);
    let after = w.marked_at(c, at, flag);
    assert forall|n: Seq<char>, x: IpAddr, y: Option<Seq<char>>, q: ClientView| #[trigger]
        net_at(after.services, n, x, y, q) == net_at(w.services, n, x, y, q) by {
        assert(connections::conn(after.services, n, x, y, q) is Some
            || connections::conn(after.services, n, x, y, q) is None);
    }
}

} // verus!
