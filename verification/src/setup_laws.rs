//! What the set-up of connections keeps and brings about.
use crate::addr::IpAddr;
use crate::chain_setup;
use crate::chain_setup::{OutcomeView, PendingView, ProgressView};
use crate::nullnet_grpc_impl;
use crate::nullnet_grpc_impl::{ProxyReplyView, RequestError, SharedNetworkView, TriggerReplyView};
use crate::orchestrator;
use crate::seqs;
use crate::services::clients;
use crate::services::clients::{ClientInfoView, ClientView};
use crate::services::connections;
use crate::services::edge::RegisteredEdgeView;
use crate::services::laws;
use crate::services::model;
use crate::services::model::{RegisteredView, ServiceView, ServicesView, UpstreamView};
use crate::services::world;
use crate::services::world::NodeView;
use crate::services::world::{ChainEdge, World};
use crate::table;
use vstd::prelude::*;

verus! {

/// The services `b` are `a` but for the connection of client `c` at a location, which is `info`.
pub open spec fn conn_set(
    a: ServicesView,
    b: ServicesView,
    name: Seq<char>,
    ip: IpAddr,
    docker: Option<Seq<char>>,
    c: ClientView,
    info: Option<ClientInfoView>,
) -> bool {
    &&& laws::same_shape(a, b)
    &&& forall|n: Seq<char>, x: IpAddr, y: Option<Seq<char>>, q: ClientView| #[trigger]
        connections::conn(b, n, x, y, q) == (if n == name && x == ip && y == docker && q == c {
            info
        } else {
            connections::conn(a, n, x, y, q)
        })
}

/// A running service with other clients on replica `i` has the ports that it had.
proof fn lemma_with_clients_ports(
    reg: RegisteredView,
    i: int,
    clients: Seq<(ClientView, ClientInfoView)>,
)
    requires
        connections::distinct_replicas(reg),
        0 <= i < reg.replicas.len(),
    ensures
        forall|ip: IpAddr, docker: Option<Seq<char>>| #[trigger]
            laws::replica_port(reg.with_clients(i, clients), ip, docker) == laws::replica_port(
                reg,
                ip,
                docker,
            ),
        reg.with_clients(i, clients).replicas.map_values(laws::site_of())
            == reg.replicas.map_values(laws::site_of()),
{
    let r = reg.replicas[i];
    connections::lemma_with_clients_index(reg, i, clients, r.ip, r.docker_container);
    laws::lemma_ports_kept(reg, reg.with_clients(i, clients));
}

/// A client that is connected to a replica that runs.
proof fn lemma_connect(
    w: World,
    name: Seq<char>,
    reg: RegisteredView,
    ip: IpAddr,
    docker: Option<Seq<char>>,
    c: ClientView,
    ci: ClientInfoView,
)
    requires
        connections::services_wf(w.services),
        model::registered(w.services, name) == Some(reg),
        reg.has_replica(ip, docker),
        c.proxy is Some && reg.holds(c) ==> reg.replicas[reg.holder(c)].matches(ip, docker),
    ensures
        ({
            let after = w.with_service(
                name,
                ServiceView::Registered(reg.with_client(ip, docker, c, ci)),
            ).services;
            &&& connections::services_wf(after)
            &&& conn_set(w.services, after, name, ip, docker, c, Some(ci))
        }),
{
    connections::lemma_wf_of(w.services, name);
    connections::lemma_with_client(reg, ip, docker, c, ci);
    let next = reg.with_client(ip, docker, c, ci);
    let si = ServiceView::Registered(next);
    connections::lemma_put_wf(w.services, name, si);
    let after = w.with_service(name, si).services;
    let i = reg.replica_index(ip, docker);
    assert(reg.is_replica(ip, docker, i));
    lemma_with_clients_ports(reg, i, table::put(reg.replicas[i].clients, c, ci));
    laws::lemma_put_shape(w, name, next);
    assert forall|n: Seq<char>, x: IpAddr, y: Option<Seq<char>>, q: ClientView| #[trigger]
        connections::conn(after, n, x, y, q) == (if n == name && x == ip && y == docker && q == c {
            Some(ci)
        } else {
            connections::conn(w.services, n, x, y, q)
        }) by {
        laws::lemma_put_registered(w.services, name, si, n);
        if n == name {
            assert(connections::replica_conn(next, x, y, q) == (if q == c && x == ip && y
                == docker {
                Some(ci)
            } else {
                connections::replica_conn(reg, x, y, q)
            }));
        }
    }
}

/// A connection of a client that changes.
pub(crate) proof fn lemma_change_info(
    w: World,
    name: Seq<char>,
    reg: RegisteredView,
    c: ClientView,
    ci: ClientInfoView,
)
    requires
        connections::services_wf(w.services),
        model::registered(w.services, name) == Some(reg),
        reg.holds(c),
    ensures
        ({
            let after = w.with_service(
                name,
                ServiceView::Registered(reg.with_info(c, ci)),
            ).services;
            let r = reg.replicas[reg.holder(c)];
            &&& connections::services_wf(after)
            &&& conn_set(w.services, after, name, r.ip, r.docker_container, c, Some(ci))
        }),
{
    connections::lemma_wf_of(w.services, name);
    connections::lemma_with_info(reg, c, ci);
    let next = reg.with_info(c, ci);
    let si = ServiceView::Registered(next);
    connections::lemma_put_wf(w.services, name, si);
    let after = w.with_service(name, si).services;
    let i = reg.holder(c);
    assert(reg.is_holder(c, i));
    let r = reg.replicas[i];
    lemma_with_clients_ports(reg, i, table::put(reg.replicas[i].clients, c, ci));
    laws::lemma_put_shape(w, name, next);
    assert forall|n: Seq<char>, x: IpAddr, y: Option<Seq<char>>, q: ClientView| #[trigger]
        connections::conn(after, n, x, y, q) == (if n == name && x == r.ip && y
            == r.docker_container && q == c {
            Some(ci)
        } else {
            connections::conn(w.services, n, x, y, q)
        }) by {
        laws::lemma_put_registered(w.services, name, si, n);
        if n == name {
            assert(connections::replica_conn(next, x, y, q) == (if q == c && r.matches(x, y) {
                Some(ci)
            } else {
                connections::replica_conn(reg, x, y, q)
            }));
        }
    }
}

/// A proxy request keeps the services well-formed. It changes nothing but the last use of a client
/// that is connected.
pub proof fn law_proxy_request(
    w: World,
    name: Seq<char>,
    proxy_ip: IpAddr,
    client: Seq<char>,
    now: nat,
)
    requires
        connections::services_wf(w.services),
    ensures
        ({
            let (after, reply) = w.proxy_request(name, proxy_ip, client, now);
            let c = nullnet_grpc_impl::proxy_client(client, proxy_ip);
            &&& connections::services_wf(after.services)
            &&& after.orch == w.orch
            &&& match reply {
                Ok(ProxyReplyView::Ready(_)) => exists|ip: IpAddr, docker: Option<Seq<char>>|
                    {
                        &&& (#[trigger] connections::conn(w.services, name, ip, docker, c)) is Some
                        &&& conn_set(
                            w.services,
                            after.services,
                            name,
                            ip,
                            docker,
                            c,
                            Some(connections::conn(w.services, name, ip, docker, c)->0.used(now)),
                        )
                    },
                _ => after == w,
            }
        }),
{
    let c = nullnet_grpc_impl::proxy_client(client, proxy_ip);
    let (after, reply) = w.proxy_request(name, proxy_ip, client, now);
    connections::lemma_wf_of(w.services, name);
    if let Ok(ProxyReplyView::Ready(_)) = reply {
        let reg = model::registered(w.services, name)->0;
        connections::lemma_holds(reg, c);
        let ci = reg.info(c)->0;
        let r = reg.replicas[reg.holder(c)];
        lemma_change_info(w, name, reg, c, ci.used(now));
        assert(connections::conn(w.services, name, r.ip, r.docker_container, c) == Some(ci));
    }
}

/// A client that is connected is answered with the address and port of its connection, as often as it
/// asks: it keeps to its replica.
pub proof fn law_sticky(
    w: World,
    name: Seq<char>,
    proxy_ip: IpAddr,
    client: Seq<char>,
    ip: IpAddr,
    docker: Option<Seq<char>>,
    now: nat,
    later: nat,
)
    requires
        connections::services_wf(w.services),
        laws::config_at(w.services, name) matches Some(config) && config.timeout is Some,
        connections::conn(
            w.services,
            name,
            ip,
            docker,
            nullnet_grpc_impl::proxy_client(client, proxy_ip),
        ) is Some,
    ensures
        ({
            let c = nullnet_grpc_impl::proxy_client(client, proxy_ip);
            let upstream = UpstreamView {
                ip: connections::conn(w.services, name, ip, docker, c)->0.server_net.dotted(),
                port: laws::port_at(w.services, name, ip, docker)->0 as u32,
            };
            let (after, reply) = w.proxy_request(name, proxy_ip, client, now);
            &&& reply == Ok::<_, RequestError>(ProxyReplyView::Ready(upstream))
            &&& after.proxy_request(name, proxy_ip, client, later).1 == reply
        }),
{
    let c = nullnet_grpc_impl::proxy_client(client, proxy_ip);
    let (after, reply) = w.proxy_request(name, proxy_ip, client, now);
    lemma_answered(w, name, proxy_ip, client, ip, docker, now);
    connections::lemma_wf_of(w.services, name);
    let reg = model::registered(w.services, name)->0;
    laws::lemma_one_place(reg, c, ip, docker);
    connections::lemma_holds(reg, c);
    let ci = reg.info(c)->0;
    lemma_change_info(w, name, reg, c, ci.used(now));
    assert(connections::conn(after.services, name, ip, docker, c) == Some(ci.used(now)));
    assert(laws::config_at(after.services, name) == laws::config_at(w.services, name));
    assert(laws::port_at(after.services, name, ip, docker) == laws::port_at(
        w.services,
        name,
        ip,
        docker,
    ));
    lemma_answered(after, name, proxy_ip, client, ip, docker, later);
}

/// A client that is connected is answered with the address and port of its connection.
pub(crate) proof fn lemma_answered(
    w: World,
    name: Seq<char>,
    proxy_ip: IpAddr,
    client: Seq<char>,
    ip: IpAddr,
    docker: Option<Seq<char>>,
    now: nat,
)
    requires
        connections::services_wf(w.services),
        laws::config_at(w.services, name) matches Some(config) && config.timeout is Some,
        connections::conn(
            w.services,
            name,
            ip,
            docker,
            nullnet_grpc_impl::proxy_client(client, proxy_ip),
        ) is Some,
    ensures
        ({
            let c = nullnet_grpc_impl::proxy_client(client, proxy_ip);
            w.proxy_request(name, proxy_ip, client, now).1 == Ok::<_, RequestError>(
                ProxyReplyView::Ready(
                    UpstreamView {
                        ip: connections::conn(
                            w.services,
                            name,
                            ip,
                            docker,
                            c,
                        )->0.server_net.dotted(),
                        port: laws::port_at(w.services, name, ip, docker)->0 as u32,
                    },
                ),
            )
        }),
{
    let c = nullnet_grpc_impl::proxy_client(client, proxy_ip);
    connections::lemma_wf_of(w.services, name);
    let reg = model::registered(w.services, name)->0;
    laws::lemma_one_place(reg, c, ip, docker);
    connections::lemma_holds(reg, c);
    let i = reg.holder(c);
    assert(reg.is_holder(c, i));
    connections::lemma_index(reg, i);
}

/// A backend trigger keeps the services well-formed. It changes nothing but the last use of a chain's
/// entry that is set up.
pub proof fn law_backend_trigger(
    w: World,
    name: Seq<char>,
    sender_ip: IpAddr,
    port: u16,
    now: nat,
)
    requires
        connections::services_wf(w.services),
    ensures
        ({
            let (after, reply) = w.backend_trigger(name, sender_ip, port, now);
            &&& connections::services_wf(after.services)
            &&& after.orch == w.orch
            &&& match reply {
                Ok(TriggerReplyView::Refreshed) => exists|
                    dep: Seq<char>,
                    ip: IpAddr,
                    docker: Option<Seq<char>>,
                    c: ClientView,
                |
                    {
                        &&& (#[trigger] connections::conn(w.services, dep, ip, docker, c)) is Some
                        &&& conn_set(
                            w.services,
                            after.services,
                            dep,
                            ip,
                            docker,
                            c,
                            Some(connections::conn(w.services, dep, ip, docker, c)->0.used(now)),
                        )
                    },
                _ => after == w,
            }
        }),
{
    let (after, reply) = w.backend_trigger(name, sender_ip, port, now);
    if let Ok(TriggerReplyView::Refreshed) = reply {
        let reg = model::registered(w.services, name)->0;
        let r = nullnet_grpc_impl::replica_on(reg, sender_ip)->0;
        let dep = nullnet_grpc_impl::chain_for(reg.config.triggers, port)[0];
        let c = clients::service_client(name, r.ip, r.docker_container);
        let dep_reg = model::registered(w.services, dep)->0;
        connections::lemma_wf_of(w.services, dep);
        lemma_entry(dep_reg, c);
        let s = dep_reg.replicas[dep_reg.entry_holder(c)];
        let ci = dep_reg.info_at(s.ip, s.docker_container, c)->0;
        lemma_connect(w, dep, dep_reg, s.ip, s.docker_container, c, ci.used(now));
        assert(connections::conn(w.services, dep, s.ip, s.docker_container, c) == Some(ci));
    }
}

/// A client that is connected is so to the replica that its backend chains lead to.
pub(crate) proof fn lemma_entry(reg: RegisteredView, c: ClientView)
    requires
        connections::registered_wf(reg),
        reg.holds(c),
    ensures
        ({
            let i = reg.entry_holder(c);
            let r = reg.replicas[i];
            &&& 0 <= i < reg.replicas.len()
            &&& reg.info_at(r.ip, r.docker_container, c) is Some
            &&& reg.info_at(r.ip, r.docker_container, c) == table::lookup(r.clients, c)
        }),
{
    let i = reg.entry_holder(c);
    connections::lemma_holds(reg, c);
    if exists|k: int| reg.is_entry_holder(c, k) {
        assert(reg.is_entry_holder(c, i));
    }
    connections::lemma_index(reg, i);
}

/// What an edge that is opened does, where its server runs a replica at the edge's end: a connection
/// that is there has one more chain; else the connection is reserved and the lowest free network
/// identifier taken into use.
pub proof fn law_open_edge(
    w: World,
    edge: RegisteredEdgeView,
    server_msg: Seq<char>,
    client_msg: Seq<char>,
    now: nat,
)
    requires
        connections::services_wf(w.services),
        laws::port_at(w.services, edge.server_name(), edge.server.0, edge.server_docker) is Some,
    ensures
        ({
            let (after, progress) = w.open_edge(edge, server_msg, client_msg, now);
            let name = edge.server_name();
            let c = edge.client.1;
            &&& connections::services_wf(after.services)
            &&& match progress {
                ProgressView::Pending(p) => {
                    &&& p.edge == edge
                    &&& orchestrator::is_lowest_free(w.orch.net_ids, p.net_id)
                    &&& after.orch.net_ids == w.orch.net_ids.push(p.net_id)
                    &&& conn_set(
                        w.services,
                        after.services,
                        name,
                        edge.server.0,
                        edge.server_docker,
                        c,
                        Some(clients::placeholder_info(edge.client.0, now)),
                    )
                },
                ProgressView::Finished(OutcomeView::Success(_)) => {
                    &&& after.orch == w.orch
                    &&& exists|ip: IpAddr, docker: Option<Seq<char>>|
                        {
                            &&& (#[trigger] connections::conn(
                                w.services,
                                name,
                                ip,
                                docker,
                                c,
                            )) is Some
                            &&& conn_set(
                                w.services,
                                after.services,
                                name,
                                ip,
                                docker,
                                c,
                                Some(
                                    connections::conn(
                                        w.services,
                                        name,
                                        ip,
                                        docker,
                                        c,
                                    )->0.with_chain(now),
                                ),
                            )
                            &&& c.proxy is None ==> ip == edge.server.0 && docker
                                == edge.server_docker
                        }
                },
                ProgressView::Finished(OutcomeView::Failed) => {
                    &&& after.orch == w.orch
                    &&& orchestrator::lowest_free(w.orch.net_ids) is None
                },
            }
        }),
{
    let (after, progress) = w.open_edge(edge, server_msg, client_msg, now);
    let name = edge.server_name();
    let c = edge.client.1;
    let (ip, docker) = (edge.server.0, edge.server_docker);
    let reg = model::registered(w.services, name)->0;
    connections::lemma_wf_of(w.services, name);
    if edge.is_set_up(reg) {
        if c.proxy is None {
            connections::lemma_holds_at(reg, ip, docker, c);
            let ci = reg.info_at(ip, docker, c)->0;
            lemma_connect(w, name, reg, ip, docker, c, ci.with_chain(now));
            assert(connections::conn(w.services, name, ip, docker, c) == Some(ci));
        } else {
            connections::lemma_holds(reg, c);
            let ci = reg.info(c)->0;
            let r = reg.replicas[reg.holder(c)];
            lemma_change_info(w, name, reg, c, ci.with_chain(now));
            assert(connections::conn(w.services, name, r.ip, r.docker_container, c) == Some(ci));
        }
    } else {
        let ci = clients::placeholder_info(edge.client.0, now);
        lemma_connect(w, name, reg, ip, docker, c, ci);
        let next = reg.with_client(ip, docker, c, ci);
        let reserved = w.with_service(name, ServiceView::Registered(next));
        connections::lemma_wf_of(reserved.services, name);
        laws::lemma_put_registered(w.services, name, ServiceView::Registered(next), name);
        match orchestrator::lowest_free(w.orch.net_ids) {
            Some(id) => {
                assert(orchestrator::is_lowest_free(w.orch.net_ids, id));
            },
            None => {
                connections::lemma_without_client_at(next, ip, docker, c);
                connections::lemma_put_wf(
                    reserved.services,
                    name,
                    ServiceView::Registered(next.without_client_at(ip, docker, c)),
                );
            },
        }
    }
}

/// An edge whose hosts do not both answer leaves nothing behind: the services are as they were before
/// it was opened, and so are the network identifiers in use and the messages awaited. Its message
/// identifiers are new.
pub proof fn law_failed_edge(
    w: World,
    edge: RegisteredEdgeView,
    server_msg: Seq<char>,
    client_msg: Seq<char>,
    server_ack: bool,
    client_ack: bool,
    now: nat,
    later: nat,
)
    requires
        connections::services_wf(w.services),
        !w.orch.pending.contains(server_msg),
        !w.orch.pending.contains(client_msg),
        server_msg != client_msg,
    ensures
        ({
            let (opened, progress) = w.open_edge(edge, server_msg, client_msg, now);
            match progress {
                ProgressView::Pending(p) => {
                    let (after, outcome) = opened.finish_edge(p, server_ack, client_ack, later);
                    outcome is Failed ==> {
                        &&& after.services == w.services
                        &&& after.orch.net_ids == w.orch.net_ids
                        &&& after.orch.pending == w.orch.pending
                        &&& after.orch.clients == w.orch.clients
                    }
                },
                ProgressView::Finished(outcome) => outcome is Failed ==> opened == w,
            }
        }),
{
    let name = edge.server_name();
    let c = edge.client.1;
    let (opened, progress) = w.open_edge(edge, server_msg, client_msg, now);
    if let Some(reg) = model::registered(w.services, name) {
        connections::lemma_wf_of(w.services, name);
        if !edge.is_set_up(reg) {
            connections::lemma_holds(reg, c);
            connections::lemma_holds_at(reg, edge.server.0, edge.server_docker, c);
            assert(connections::replica_conn(reg, edge.server.0, edge.server_docker, c) is None);
            let ci = clients::placeholder_info(edge.client.0, now);
            lemma_release_undoes(w, edge, reg, ci);
            let reserved = w.with_service(
                name,
                ServiceView::Registered(
                    reg.with_client(edge.server.0, edge.server_docker, c, ci),
                ),
            );
            laws::lemma_put_registered(
                w.services,
                name,
                ServiceView::Registered(
                    reg.with_client(edge.server.0, edge.server_docker, c, ci),
                ),
                name,
            );
            if let ProgressView::Pending(p) = progress {
                let id = p.net_id;
                assert(orchestrator::is_lowest_free(w.orch.net_ids, id));
                lemma_push_without(w.orch.net_ids, id);
                lemma_settled(w.orch.pending, server_msg, client_msg);
                let (after, outcome) = opened.finish_edge(p, server_ack, client_ack, later);
                if outcome is Failed {
                    assert(after.services == reserved.released(edge).services);
                }
            }
        }
    }
}

/// Giving up a reservation undoes it.
pub(crate) proof fn lemma_release_undoes(
    w: World,
    edge: RegisteredEdgeView,
    reg: RegisteredView,
    ci: ClientInfoView,
)
    requires
        connections::services_wf(w.services),
        model::registered(w.services, edge.server_name()) == Some(reg),
        reg.info_at(edge.server.0, edge.server_docker, edge.client.1) is None,
    ensures
        w.with_service(
            edge.server_name(),
            ServiceView::Registered(
                reg.with_client(edge.server.0, edge.server_docker, edge.client.1, ci),
            ),
        ).released(edge) == w,
{
    let name = edge.server_name();
    let c = edge.client.1;
    let (ip, docker) = (edge.server.0, edge.server_docker);
    connections::lemma_wf_of(w.services, name);
    let next = reg.with_client(ip, docker, c, ci);
    let reserved = w.with_service(name, ServiceView::Registered(next));
    laws::lemma_put_registered(w.services, name, ServiceView::Registered(next), name);
    if reg.has_replica(ip, docker) {
        let i = reg.replica_index(ip, docker);
        assert(reg.is_replica(ip, docker, i));
        let clients = reg.replicas[i].clients;
        let more = table::put(clients, c, ci);
        connections::lemma_with_clients_index(reg, i, more, ip, docker);
        assert(more == clients.push((c, ci)));
        table::lemma_absent(clients, c);
        assert(table::is_first(more, c, clients.len() as int));
        table::lemma_first(more, c, clients.len() as int);
        assert(table::del(more, c) =~= clients);
        assert(next.without_client_at(ip, docker, c) =~= reg) by {
            assert(next.without_client_at(ip, docker, c).replicas =~= reg.replicas);
        }
    }
    lemma_put_twice(w.services, name, ServiceView::Registered(next), ServiceView::Registered(reg));
    assert(reserved.released(edge).services == w.services);
}

/// Putting something else and then what was there leaves a list as it was.
proof fn lemma_put_twice<K, V>(s: Seq<(K, V)>, k: K, a: V, b: V)
    requires
        table::lookup(s, k) == Some(b),
    ensures
        table::put(table::put(s, k, a), k, b) == s,
{
    let i = table::position(s, k);
    assert(table::is_first(s, k, i));
    let t = table::put(s, k, a);
    assert(table::is_first(t, k, i));
    table::lemma_first(t, k, i);
    assert(table::put(t, k, b) =~= s);
}

/// Taking out what was appended leaves a list as it was.
proof fn lemma_push_without<A>(s: Seq<A>, x: A)
    requires
        !s.contains(x),
    ensures
        seqs::without(s.push(x), x) == s,
{
    let t = s.push(x);
    assert forall|j: int| 0 <= j < s.len() implies #[trigger] t[j] != x by {
        assert(s[j] == t[j]);
    }
    assert(seqs::is_first_at(t, x, s.len() as int));
    seqs::lemma_without(t, x, s.len() as int);
    assert(t.remove(s.len() as int) =~= s);
}

/// Messages that stop being awaited leave those that were awaited before.
proof fn lemma_settled(pending: Seq<Seq<char>>, a: Seq<char>, b: Seq<char>)
    requires
        !pending.contains(a),
        !pending.contains(b),
        a != b,
    ensures
        seqs::without(pending, a) == pending,
        seqs::without(pending, b) == pending,
        seqs::without(pending.push(a), a) == pending,
        seqs::without(pending.push(b), b) == pending,
        seqs::without(pending.push(b), a) == pending.push(b),
        seqs::without(pending.push(a), b) == pending.push(a),
        seqs::without(seqs::without(pending.push(a).push(b), a), b) == pending,
        !pending.push(a).contains(b),
{
    laws::lemma_without_contains(pending, a);
    laws::lemma_without_contains(pending, b);
    lemma_push_without(pending, a);
    lemma_push_without(pending, b);
    let pa = pending.push(a);
    let pb = pending.push(b);
    assert(!pb.contains(a)) by {
        if pb.contains(a) {
            let k = choose|k: int| 0 <= k < pb.len() && pb[k] == a;
            assert(pending[k] == a);
        }
    }
    assert(!pa.contains(b)) by {
        if pa.contains(b) {
            let k = choose|k: int| 0 <= k < pa.len() && pa[k] == b;
            assert(pending[k] == b);
        }
    }
    laws::lemma_without_contains(pb, a);
    laws::lemma_without_contains(pa, b);
    let both = pa.push(b);
    assert forall|j: int| 0 <= j < pending.len() implies #[trigger] both[j] != a by {
        assert(pending[j] == both[j]);
    }
    assert(seqs::is_first_at(both, a, pending.len() as int));
    seqs::lemma_without(both, a, pending.len() as int);
    assert(both.remove(pending.len() as int) =~= pb);
}

/// An edge whose hosts both acknowledged is a connection that one chain runs over, with the addresses
/// and the network of the edge; nothing else changes. Its server runs a replica at the edge's end, and
/// a proxy client is not connected to another one.
pub proof fn law_finish_edge(w: World, pending: PendingView, now: nat)
    requires
        connections::services_wf(w.services),
        pending.server_addr is Some,
        pending.client_addr is Some,
        laws::port_at(
            w.services,
            pending.edge.server_name(),
            pending.edge.server.0,
            pending.edge.server_docker,
        ) is Some,
        pending.edge.client.1.proxy is Some ==> forall|ip: IpAddr, docker: Option<Seq<char>>|
            #[trigger]
            connections::conn(
                w.services,
                pending.edge.server_name(),
                ip,
                docker,
                pending.edge.client.1,
            ) is Some ==> ip == pending.edge.server.0 && docker == pending.edge.server_docker,
    ensures
        ({
            let (after, outcome) = w.finish_edge(pending, true, true, now);
            let edge = pending.edge;
            &&& connections::services_wf(after.services)
            &&& outcome == edge.success(
                if edge.client.1.proxy is Some {
                    pending.server_addr
                } else {
                    None
                },
            )
            &&& after.orch.net_ids == w.orch.net_ids
            &&& conn_set(
                w.services,
                after.services,
                edge.server_name(),
                edge.server.0,
                edge.server_docker,
                edge.client.1,
                Some(
                    pending.info(pending.server_addr->0, pending.client_addr->0, now).with_chain(
                        now,
                    ),
                ),
            )
        }),
{
    let (after, outcome) = w.finish_edge(pending, true, true, now);
    let edge = pending.edge;
    let name = edge.server_name();
    let c = edge.client.1;
    let (ip, docker) = (edge.server.0, edge.server_docker);
    let ci = pending.info(pending.server_addr->0, pending.client_addr->0, now);
    connections::lemma_wf_of(w.services, name);
    let reg = model::registered(w.services, name)->0;
    connections::lemma_holds(reg, c);
    if reg.holds(c) {
        let r = reg.replicas[reg.holder(c)];
        assert(connections::conn(w.services, name, r.ip, r.docker_container, c) is Some);
    }
    lemma_connect(w, name, reg, ip, docker, c, ci.with_chain(now));
}

/// A client that is connected to no other replica is connected, and one chain runs over its
/// connection.
pub(crate) proof fn lemma_connect_counted(
    w: World,
    name: Seq<char>,
    reg: RegisteredView,
    ip: IpAddr,
    docker: Option<Seq<char>>,
    c: ClientView,
    ci: ClientInfoView,
    now: nat,
)
    requires
        connections::services_wf(w.services),
        model::registered(w.services, name) == Some(reg),
        reg.has_replica(ip, docker),
        forall|a: IpAddr, b: Option<Seq<char>>| #[trigger]
            connections::conn(w.services, name, a, b, c) is Some ==> a == ip && b == docker,
    ensures
        ({
            let after = w.with_service(
                name,
                ServiceView::Registered(reg.with_client(ip, docker, c, ci).with_chain(c, now)),
            ).services;
            &&& connections::services_wf(after)
            &&& conn_set(w.services, after, name, ip, docker, c, Some(ci.with_chain(now)))
        }),
{
    connections::lemma_wf_of(w.services, name);
    connections::lemma_holds(reg, c);
    if reg.holds(c) {
        let r = reg.replicas[reg.holder(c)];
        assert(connections::conn(w.services, name, r.ip, r.docker_container, c) is Some);
    }
    lemma_connect(w, name, reg, ip, docker, c, ci);
    let next = reg.with_client(ip, docker, c, ci);
    let si = ServiceView::Registered(next);
    let w1 = w.with_service(name, si);
    laws::lemma_put_registered(w.services, name, si, name);
    connections::lemma_wf_of(w1.services, name);
    connections::lemma_holds(next, c);
    assert(connections::conn(w1.services, name, ip, docker, c) == Some(ci));
    let r = next.replicas[next.holder(c)];
    assert(connections::conn(w1.services, name, r.ip, r.docker_container, c) is Some);
    assert(r.ip == ip && r.docker_container == docker);
    assert(next.info(c) == Some(ci));
    lemma_change_info(w1, name, next, c, ci.with_chain(now));
    let last = ServiceView::Registered(next.with_chain(c, now));
    lemma_put_again(w.services, name, si, last);
    let after = w.with_service(name, last).services;
    assert(after == w1.with_service(name, last).services);
    assert forall|n: Seq<char>, x: IpAddr, y: Option<Seq<char>>, q: ClientView| #[trigger]
        connections::conn(after, n, x, y, q) == (if n == name && x == ip && y == docker && q == c {
            Some(ci.with_chain(now))
        } else {
            connections::conn(w.services, n, x, y, q)
        }) by {
        assert(connections::conn(w1.services, n, x, y, q) == (if n == name && x == ip && y
            == docker && q == c {
            Some(ci)
        } else {
            connections::conn(w.services, n, x, y, q)
        }));
    }
    assert forall|n: Seq<char>| #[trigger] laws::config_at(after, n) == laws::config_at(
        w.services,
        n,
    ) by {
        assert(laws::config_at(w1.services, n) == laws::config_at(w.services, n));
    }
    assert forall|n: Seq<char>, x: IpAddr, y: Option<Seq<char>>| #[trigger]
        laws::port_at(after, n, x, y) == laws::port_at(w.services, n, x, y) by {
        assert(laws::port_at(w1.services, n, x, y) == laws::port_at(w.services, n, x, y));
    }
}

/// Putting something twice is putting the second.
proof fn lemma_put_again<K, V>(s: Seq<(K, V)>, k: K, a: V, b: V)
    ensures
        table::put(table::put(s, k, a), k, b) == table::put(s, k, b),
{
    let t = table::put(s, k, a);
    if table::has_key(s, k) {
        let i = table::position(s, k);
        assert(table::is_first(s, k, i));
        assert(table::is_first(t, k, i));
        table::lemma_first(t, k, i);
        assert(table::put(t, k, b) =~= table::put(s, k, b));
    } else {
        table::lemma_absent(s, k);
        assert(table::is_first(t, k, s.len() as int));
        table::lemma_first(t, k, s.len() as int);
        assert(table::put(t, k, b) =~= table::put(s, k, b));
    }
}

/// One more chain over the connection of a service keeps the services well-formed, leaves them where
/// they run and leaves proxy clients alone.
proof fn lemma_increment(w: World, c: ClientView, name: Seq<char>, now: nat)
    requires
        connections::services_wf(w.services),
        c.proxy is None,
    ensures
        connections::services_wf(w.increment(c, name, now).services),
        laws::same_shape(w.services, w.increment(c, name, now).services),
        laws::same_proxy_conns(w.services, w.increment(c, name, now).services),
        w.increment(c, name, now).orch == w.orch,
{
    connections::lemma_wf_of(w.services, name);
    if let Some(reg) = model::registered(w.services, name) {
        connections::lemma_holds(reg, c);
        if let Some(ci) = reg.info(c) {
            lemma_change_info(w, name, reg, c, ci.with_chain(now));
        } else {
            world::lemma_same_service(w, name);
        }
    }
}

/// A client that shares a network is connected with the addresses and the network of the one that it
/// shares with, and one chain runs over its connection. No network is set up: the orchestrator is as
/// it was. Every other proxy client keeps its connection as it is.
pub proof fn law_share_network(
    w: World,
    name: Seq<char>,
    proxy_ip: IpAddr,
    client: Seq<char>,
    network: SharedNetworkView,
    now: nat,
)
    requires
        connections::services_wf(w.services),
        laws::port_at(
            w.services,
            name,
            network.entry.ip,
            network.entry.docker_container,
        ) is Some,
        forall|ip: IpAddr, docker: Option<Seq<char>>| #[trigger]
            connections::conn(
                w.services,
                name,
                ip,
                docker,
                nullnet_grpc_impl::proxy_client(client, proxy_ip),
            ) is None,
        forall|e: ChainEdge| #[trigger] network.edges.contains(e) ==> e.0.proxy is None,
    ensures
        ({
            let after = w.share_network(name, proxy_ip, client, network, now);
            let c = nullnet_grpc_impl::proxy_client(client, proxy_ip);
            let e = network.entry;
            &&& connections::services_wf(after.services)
            &&& after.orch == w.orch
            &&& laws::same_shape(w.services, after.services)
            &&& forall|n: Seq<char>, ip: IpAddr, docker: Option<Seq<char>>, q: ClientView|
                q.proxy is Some ==> #[trigger] connections::conn(after.services, n, ip, docker, q)
                    == (if n == name && ip == e.ip && docker == e.docker_container && q == c {
                    Some(
                        clients::fresh_info(
                            proxy_ip,
                            e.info.client_net,
                            e.info.server_net,
                            e.info.net_id,
                            0,
                            None,
                            false,
                            now,
                        ).with_chain(now),
                    )
                } else {
                    connections::conn(w.services, n, ip, docker, q)
                })
        }),
{
    let c = nullnet_grpc_impl::proxy_client(client, proxy_ip);
    let e = network.entry;
    let ci = clients::fresh_info(
        proxy_ip,
        e.info.client_net,
        e.info.server_net,
        e.info.net_id,
        0,
        None,
        false,
        now,
    );
    let reg = model::registered(w.services, name)->0;
    lemma_connect_counted(w, name, reg, e.ip, e.docker_container, c, ci, now);
    let next = reg.with_client(e.ip, e.docker_container, c, ci).with_chain(c, now);
    let w1 = w.with_service(name, ServiceView::Registered(next));
    let f = nullnet_grpc_impl::increment_edge(now);
    let p = |v: World|
        {
            &&& connections::services_wf(v.services)
            &&& v.orch == w.orch
            &&& laws::same_shape(w1.services, v.services)
            &&& laws::same_proxy_conns(w1.services, v.services)
        };
    assert forall|v: World, x: ChainEdge| p(v) && network.edges.contains(x) implies #[trigger] p(
        f(v, x),
    ) by {
        lemma_increment(v, x.0, x.1, now);
    }
    seqs::lemma_fold_keeps(w1, network.edges, f, p);
    let after = w.share_network(name, proxy_ip, client, network, now);
    assert forall|n: Seq<char>, ip: IpAddr, docker: Option<Seq<char>>, q: ClientView|
        q.proxy is Some implies #[trigger] connections::conn(after.services, n, ip, docker, q) == (
    if n == name && ip == e.ip && docker == e.docker_container && q == c {
        Some(ci.with_chain(now))
    } else {
        connections::conn(w.services, n, ip, docker, q)
    }) by {
        assert(connections::conn(w1.services, n, ip, docker, q) == (if n == name && ip == e.ip
            && docker == e.docker_container && q == c {
            Some(ci.with_chain(now))
        } else {
            connections::conn(w.services, n, ip, docker, q)
        }));
    }
    assert forall|n: Seq<char>| #[trigger]
        laws::config_at(after.services, n) == laws::config_at(w.services, n) by {
        assert(laws::config_at(w1.services, n) == laws::config_at(w.services, n));
    }
    assert forall|n: Seq<char>, x: IpAddr, y: Option<Seq<char>>| #[trigger]
        laws::port_at(after.services, n, x, y) == laws::port_at(w.services, n, x, y) by {
        assert(laws::port_at(w1.services, n, x, y) == laws::port_at(w.services, n, x, y));
    }
}

/// The network that a proxy request proposes to share is there to be shared: its replica runs, its
/// client is not the one that asks, and the connections on the way are those of services.
pub proof fn law_share_proposal(
    w: World,
    name: Seq<char>,
    proxy_ip: IpAddr,
    client: Seq<char>,
    now: nat,
    network: SharedNetworkView,
)
    requires
        connections::services_wf(w.services),
        w.proxy_request(name, proxy_ip, client, now).1 == Ok::<_, RequestError>(
            ProxyReplyView::Share(network),
        ),
    ensures
        ({
            let e = network.entry;
            let c = nullnet_grpc_impl::proxy_client(client, proxy_ip);
            &&& laws::port_at(w.services, name, e.ip, e.docker_container) == Some(e.port)
            &&& connections::conn(w.services, name, e.ip, e.docker_container, e.client) == Some(
                e.info,
            )
            &&& e.client.proxy == Some(proxy_ip)
            &&& e.info.net_id != 0
            &&& forall|ip: IpAddr, docker: Option<Seq<char>>| #[trigger]
                connections::conn(w.services, name, ip, docker, c) is None
            &&& forall|x: ChainEdge| #[trigger] network.edges.contains(x) ==> x.0.proxy is None
        }),
{
    let e = network.entry;
    let c = nullnet_grpc_impl::proxy_client(client, proxy_ip);
    connections::lemma_wf_of(w.services, name);
    let reg = model::registered(w.services, name)->0;
    let i = choose|i: int| reg.is_least_used(proxy_ip, i);
    assert(reg.is_least_used(proxy_ip, i));
    assert(reg.is_reusable(proxy_ip, i));
    assert(reg.proxy_entries()[i] == e);
    assert(reg.proxy_entries().contains(e));
    let k = seqs::lemma_concat_map_from(reg.entries(), model::proxy_entry(), e);
    let t = model::proxy_entry()(reg.entries()[k]);
    let m = choose|m: int| 0 <= m < t.len() && t[m] == e;
    assert(t.len() == 1 && m == 0);
    assert(reg.entries().contains(e));
    connections::lemma_entries(reg, e);
    connections::lemma_holds(reg, c);
    assert forall|ip: IpAddr, docker: Option<Seq<char>>| #[trigger]
        connections::conn(w.services, name, ip, docker, c) is None by {
        if connections::conn(w.services, name, ip, docker, c) is Some {
            assert(connections::replica_conn(reg, ip, docker, c) is Some);
        }
    }
    let node = world::NodeView { name, ip: e.ip, docker: e.docker_container };
    assert forall|x: ChainEdge| #[trigger]
        network.edges.contains(x) implies x.0.proxy is None by {
        laws::lemma_linear_clients(w.services, node, world::dependencies(w.services, name), x);
    }
}

/// Finishing a chain of which an edge failed only reduces.
pub proof fn law_finish_chain(w: World, outcomes: Seq<OutcomeView>)
    requires
        connections::services_wf(w.services),
    ensures
        laws::reduced(w, w.finish_chain(outcomes).0),
        !outcomes.contains(OutcomeView::Failed) ==> w.finish_chain(outcomes).0 == w,
{
    let f = chain_setup::undo_edge();
    let p = |v: World| laws::reduced(w, v);
    laws::lemma_reduced_same(w);
    assert forall|v: World, o: OutcomeView| p(v) && outcomes.contains(o) implies #[trigger] p(
        f(v, o),
    ) by {
        if let OutcomeView::Success(e) = o {
            laws::lemma_decrement_reduced(v, e.client, e.server_name);
            laws::lemma_decrement_at_reduced(
                v,
                e.client,
                e.server_name,
                e.replica.0,
                e.replica.1,
            );
            laws::lemma_reduced_twice(w, v, f(v, o));
        }
    }
    seqs::lemma_fold_keeps(w, outcomes, f, p);
}

/// Marking a connection as the entry of a backend chain, or not, changes nothing but the mark of that
/// connection.
pub proof fn law_marked(w: World, c: ClientView, at: NodeView, flag: bool)
    requires
        connections::services_wf(w.services),
    ensures
        ({
            let after = w.marked_at(c, at, flag);
            &&& connections::services_wf(after.services)
            &&& after.orch == w.orch
            &&& conn_set(
                w.services,
                after.services,
                at.name,
                at.ip,
                at.docker,
                c,
                match connections::conn(w.services, at.name, at.ip, at.docker, c) {
                    Some(ci) => Some(ci.marked(flag)),
                    None => None,
                },
            )
        }),
{
    reveal(World::marked_at);
    connections::lemma_wf_of(w.services, at.name);
    if let Some(reg) = model::registered(w.services, at.name) {
        if let Some(ci) = reg.info_at(at.ip, at.docker, c) {
            if c.proxy is Some {
                let i = reg.replica_index(at.ip, at.docker);
                assert(reg.is_replica(at.ip, at.docker, i));
                connections::lemma_sticky_holder(reg, c, i);
            }
            lemma_connect(w, at.name, reg, at.ip, at.docker, c, ci.marked(flag));
        } else {
            world::lemma_same_service(w, at.name);
        }
    }
}

} // verus!
