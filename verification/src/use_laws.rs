//! What the use of a connection changes, and what a further chain over connections does.
use crate::addr::IpAddr;
use crate::message_laws;
use crate::nullnet_grpc_impl;
use crate::nullnet_grpc_impl::{ProxyReplyView, RequestError, SharedNetworkView, TriggerReplyView};
use crate::plan_laws;
use crate::seqs;
use crate::services::clients;
use crate::services::clients::{ClientInfoView, ClientView};
use crate::services::connections;
use crate::services::laws;
use crate::services::model;
use crate::services::model::{RegisteredView, ServiceView, ServicesView};
use crate::services::world;
use crate::services::world::{ChainEdge, NodeView, World};
use crate::setup_laws;
use vstd::prelude::*;

verus! {

/// One connection was used; nothing else of it is different, nor is any other connection.
pub open spec fn is_only_used(
    a: ServicesView,
    b: ServicesView,
    name: Seq<char>,
    ip: IpAddr,
    docker: Option<Seq<char>>,
    c: ClientView,
    now: nat,
) -> bool {
    &&& connections::conn(a, name, ip, docker, c) is Some
    &&& connections::conn(b, name, ip, docker, c) == Some(
        ClientInfoView { latest: now, ..connections::conn(a, name, ip, docker, c)->0 },
    )
    &&& forall|n: Seq<char>, x: IpAddr, y: Option<Seq<char>>, q: ClientView|
        !(n == name && x == ip && y == docker && q == c) ==> #[trigger] connections::conn(
            b,
            n,
            x,
            y,
            q,
        ) == connections::conn(a, n, x, y, q)
}

/// A proxy client that is connected is answered with the server's address on its network and the port of
/// its replica, and its connection is used now. Nothing else changes.
pub proof fn law_client_used(
    w: World,
    name: Seq<char>,
    proxy_ip: IpAddr,
    client: Seq<char>,
    now: nat,
)
    requires
        connections::services_wf(w.services),
    ensures
        w.proxy_request(name, proxy_ip, client, now).1 matches Ok(ProxyReplyView::Ready(u)) ==> {
            let after = w.proxy_request(name, proxy_ip, client, now).0;
            let c = ClientView { name: client, proxy: Some(proxy_ip), replica: None };
            &&& after.orch == w.orch
            &&& exists|ip: IpAddr, docker: Option<Seq<char>>|
                {
                    &&& #[trigger] is_only_used(
                        w.services,
                        after.services,
                        name,
                        ip,
                        docker,
                        ClientView { name: client, proxy: Some(proxy_ip), replica: None },
                        now,
                    )
                    &&& u.ip == connections::conn(
                        w.services,
                        name,
                        ip,
                        docker,
                        c,
                    )->0.server_net.dotted()
                    &&& laws::port_at(w.services, name, ip, docker) is Some
                    &&& u.port == laws::port_at(w.services, name, ip, docker)->0
                }
        },
        !(w.proxy_request(name, proxy_ip, client, now).1 matches Ok(ProxyReplyView::Ready(_)))
            ==> w.proxy_request(name, proxy_ip, client, now).0 == w,
{
    if let Ok(ProxyReplyView::Ready(u)) = w.proxy_request(name, proxy_ip, client, now).1 {
        let after = w.proxy_request(name, proxy_ip, client, now).0;
        let c = ClientView { name: client, proxy: Some(proxy_ip), replica: None };
        let reg = model::registered(w.services, name)->0;
        connections::lemma_wf_of(w.services, name);
        connections::lemma_holds(reg, c);
        let ci = reg.info(c)->0;
        let r = reg.replicas[reg.holder(c)];
        connections::lemma_index(reg, reg.holder(c));
        setup_laws::lemma_change_info(w, name, reg, c, ci.used(now));
        assert(connections::conn(w.services, name, r.ip, r.docker_container, c) == Some(ci));
        assert(is_only_used(
            w.services,
            after.services,
            name,
            r.ip,
            r.docker_container,
            c,
            now,
        ));
    }
}

/// The client that the place before the `k`-th one on a chain is.
pub open spec fn hop_client(
    name: Seq<char>,
    ip: IpAddr,
    docker: Option<Seq<char>>,
    chain: Seq<Seq<char>>,
    places: Seq<(IpAddr, Option<Seq<char>>)>,
    k: int,
) -> ClientView {
    if k == 0 {
        ClientView { name, proxy: None, replica: Some((ip, docker)) }
    } else {
        ClientView { name: chain[k - 1], proxy: None, replica: Some(places[k - 1]) }
    }
}

/// The replica before the `k`-th place on a chain is connected to the replica at that place.
pub open spec fn is_hop(
    services: ServicesView,
    name: Seq<char>,
    ip: IpAddr,
    docker: Option<Seq<char>>,
    chain: Seq<Seq<char>>,
    places: Seq<(IpAddr, Option<Seq<char>>)>,
    k: int,
) -> bool {
    connections::conn(
        services,
        chain[k],
        places[k].0,
        places[k].1,
        hop_client(name, ip, docker, chain, places, k),
    ) is Some
}

/// Places lead on from a replica of service `name` along a chain: at each service on it, the replica before
/// is connected to the replica at the place.
pub open spec fn is_way(
    services: ServicesView,
    name: Seq<char>,
    ip: IpAddr,
    docker: Option<Seq<char>>,
    chain: Seq<Seq<char>>,
    places: Seq<(IpAddr, Option<Seq<char>>)>,
) -> bool {
    &&& places.len() == chain.len()
    &&& forall|k: int|
        0 <= k < chain.len() ==> #[trigger] is_hop(services, name, ip, docker, chain, places, k)
}

/// What stands at a place on a chain, and before it, without the first of each.
proof fn lemma_shift(chain: Seq<Seq<char>>, places: Seq<(IpAddr, Option<Seq<char>>)>, k: int)
    requires
        0 < k < chain.len(),
        chain.len() == places.len(),
    ensures
        chain.drop_first()[k - 1] == chain[k],
        places.drop_first()[k - 1] == places[k],
        k > 1 ==> chain.drop_first()[k - 2] == chain[k - 1],
        k > 1 ==> places.drop_first()[k - 2] == places[k - 1],
{
}

/// A replica is connected along a chain exactly where places lead on along it.
proof fn lemma_way(services: ServicesView, node: NodeView, names: Seq<Seq<char>>)
    requires
        connections::services_wf(services),
    ensures
        world::reaches(services, node, names) == exists|places: Seq<(IpAddr, Option<Seq<char>>)>|
            #[trigger]
            is_way(services, node.name, node.ip, node.docker, names, places),
    decreases names.len(),
{
    if names.len() == 0 {
        assert(is_way(
            services,
            node.name,
            node.ip,
            node.docker,
            names,
            Seq::<(IpAddr, Option<Seq<char>>)>::empty(),
        ));
    } else {
        let rest = names.drop_first();
        connections::lemma_wf_of(services, names[0]);
        if world::reaches(services, node, names) {
            let reg = model::registered(services, names[0])->0;
            let i = choose|i: int| #[trigger]
                world::is_next(reg, node, i) && world::reaches(
                    services,
                    NodeView {
                        name: names[0],
                        ip: reg.replicas[i].ip,
                        docker: reg.replicas[i].docker_container,
                    },
                    rest,
                );
            let r = reg.replicas[i];
            let next = NodeView { name: names[0], ip: r.ip, docker: r.docker_container };
            lemma_way(services, next, rest);
            let tail = choose|places: Seq<(IpAddr, Option<Seq<char>>)>| #[trigger]
                is_way(services, next.name, next.ip, next.docker, rest, places);
            let places = seq![(r.ip, r.docker_container)] + tail;
            assert(places.drop_first() =~= tail);
            connections::lemma_index(reg, i);
            assert forall|k: int| 0 <= k < names.len() implies #[trigger] is_hop(
                services,
                node.name,
                node.ip,
                node.docker,
                names,
                places,
                k,
            ) by {
                if k > 0 {
                    assert(is_hop(services, next.name, next.ip, next.docker, rest, tail, k - 1));
                    lemma_shift(names, places, k);
                }
            }
            assert(is_way(services, node.name, node.ip, node.docker, names, places));
        }
        if exists|places: Seq<(IpAddr, Option<Seq<char>>)>| #[trigger]
            is_way(services, node.name, node.ip, node.docker, names, places) {
            let places = choose|places: Seq<(IpAddr, Option<Seq<char>>)>| #[trigger]
                is_way(services, node.name, node.ip, node.docker, names, places);
            let (x, y) = places[0];
            assert(is_hop(services, node.name, node.ip, node.docker, names, places, 0));
            assert(connections::conn(services, names[0], x, y, node.client()) is Some);
            let reg = model::registered(services, names[0])->0;
            let i = reg.replica_index(x, y);
            assert(reg.is_replica(x, y, i));
            let next = NodeView { name: names[0], ip: x, docker: y };
            let tail = places.drop_first();
            assert forall|k: int| 0 <= k < rest.len() implies #[trigger] is_hop(
                services,
                next.name,
                next.ip,
                next.docker,
                rest,
                tail,
                k,
            ) by {
                assert(is_hop(services, node.name, node.ip, node.docker, names, places, k + 1));
                lemma_shift(names, places, k + 1);
            }
            assert(is_way(services, next.name, next.ip, next.docker, rest, tail));
            lemma_way(services, next, rest);
            assert(world::is_next(reg, node, i));
        }
    }
}

/// A trigger whose chain has services is answered without a set-up exactly where the replica on the
/// sender's host is connected to the first of them and, where the dependencies of the service or the chain
/// of another trigger start with the same one but go on otherwise, is connected along the whole chain. Its
/// connection to the first service is used then: the one that is the entry of a backend chain, where there
/// is one. Nothing else changes.
pub proof fn law_trigger_used(
    w: World,
    name: Seq<char>,
    sender_ip: IpAddr,
    port: u16,
    now: nat,
    i: int,
    t: int,
)
    requires
        connections::services_wf(w.services),
        model::registered(w.services, name) is Some,
        ({
            let reg = model::registered(w.services, name)->0;
            &&& reg.config.timeout is Some
            &&& plan_laws::is_first_replica_on(reg, sender_ip, i)
            &&& plan_laws::is_trigger_for(reg.config.triggers, port, t)
            &&& reg.config.triggers[t].chain.len() > 0
        }),
    ensures
        ({
            let (after, reply) = w.backend_trigger(name, sender_ip, port, now);
            let reg = model::registered(w.services, name)->0;
            let (ip, docker) = (reg.replicas[i].ip, reg.replicas[i].docker_container);
            let chain = reg.config.triggers[t].chain;
            let c = ClientView { name, proxy: None, replica: Some((ip, docker)) };
            let connected = exists|x: IpAddr, y: Option<Seq<char>>| #[trigger]
                connections::conn(w.services, chain[0], x, y, c) is Some;
            let deps = reg.config.dependencies;
            let other = (deps.len() > 0 && deps[0] == chain[0] && deps != chain) || exists|j: int|
                0 <= j < reg.config.triggers.len() && (
                #[trigger] reg.config.triggers[j]).chain.len() > 0 && reg.config.triggers[j].chain[0]
                    == chain[0] && reg.config.triggers[j].chain != chain;
            let whole = exists|places: Seq<(IpAddr, Option<Seq<char>>)>| #[trigger]
                is_way(w.services, name, ip, docker, chain, places);
            &&& reply == Ok::<_, RequestError>(TriggerReplyView::Refreshed) <==> connected && (other
                ==> whole)
            &&& reply == Ok::<_, RequestError>(TriggerReplyView::Refreshed) ==> {
                &&& after.orch == w.orch
                &&& exists|x: IpAddr, y: Option<Seq<char>>|
                    {
                        &&& #[trigger] is_only_used(
                            w.services,
                            after.services,
                            reg.config.triggers[t].chain[0],
                            x,
                            y,
                            ClientView {
                                name,
                                proxy: None,
                                replica: Some(
                                    (reg.replicas[i].ip, reg.replicas[i].docker_container),
                                ),
                            },
                            now,
                        )
                        &&& forall|a: IpAddr, b: Option<Seq<char>>|
                            is_marked(#[trigger] connections::conn(w.services, chain[0], a, b, c))
                                ==> is_marked(connections::conn(w.services, chain[0], x, y, c))
                    }
            }
            &&& reply != Ok::<_, RequestError>(TriggerReplyView::Refreshed) ==> after == w
        }),
{
    let (after, reply) = w.backend_trigger(name, sender_ip, port, now);
    let reg = model::registered(w.services, name)->0;
    let r = reg.replicas[i];
    let chain = reg.config.triggers[t].chain;
    let node = NodeView { name, ip: r.ip, docker: r.docker_container };
    let c = node.client();
    lemma_first(reg, sender_ip, i);
    lemma_chain(reg.config.triggers, port, t);
    assert(nullnet_grpc_impl::replica_on(reg, sender_ip) == Some(r));
    assert(nullnet_grpc_impl::chain_for(reg.config.triggers, port) == chain);
    lemma_way(w.services, node, chain);
    lemma_connected(w.services, c, chain[0]);
    if reply == Ok::<_, RequestError>(TriggerReplyView::Refreshed) {
        let dep = model::registered(w.services, chain[0])->0;
        connections::lemma_wf_of(w.services, chain[0]);
        setup_laws::lemma_entry(dep, c);
        let s = dep.replicas[dep.entry_holder(c)];
        lemma_used_at(w, chain[0], dep, s.ip, s.docker_container, c, now);
        assert(is_only_used(
            w.services,
            after.services,
            chain[0],
            s.ip,
            s.docker_container,
            c,
            now,
        ));
        assert forall|a: IpAddr, b: Option<Seq<char>>|
            is_marked(#[trigger] connections::conn(w.services, chain[0], a, b, c)) implies is_marked(
            connections::conn(w.services, chain[0], s.ip, s.docker_container, c),
        ) by {
            let k = dep.replica_index(a, b);
            assert(dep.is_replica(a, b, k));
            assert(dep.has_entry(c, k));
            lemma_entry_holder(dep, c, k);
        }
    }
}

/// A connection is the entry of a backend chain.
pub open spec fn is_marked(info: Option<ClientInfoView>) -> bool {
    info matches Some(ci) && ci.is_backend_entry
}

/// A client with an entry has a first one.
pub(crate) proof fn lemma_entry_holder(reg: RegisteredView, c: ClientView, k: int)
    requires
        reg.has_entry(c, k),
    ensures
        reg.has_entry(c, reg.entry_holder(c)),
    decreases k,
{
    if exists|j: int| 0 <= j < k && #[trigger] reg.has_entry(c, j) {
        let j = choose|j: int| 0 <= j < k && #[trigger] reg.has_entry(c, j);
        lemma_entry_holder(reg, c, j);
    } else {
        assert(reg.is_entry_holder(c, k));
        let h = reg.entry_holder(c);
        assert(reg.is_entry_holder(c, h));
    }
}

proof fn lemma_first(reg: RegisteredView, ip: IpAddr, i: int)
    requires
        plan_laws::is_first_replica_on(reg, ip, i),
    ensures
        nullnet_grpc_impl::replica_on(reg, ip) == Some(reg.replicas[i]),
{
    assert(nullnet_grpc_impl::is_first_on(reg, ip, i));
    let k = choose|k: int| nullnet_grpc_impl::is_first_on(reg, ip, k);
    assert(nullnet_grpc_impl::is_first_on(reg, ip, k));
    assert(k == i);
}

proof fn lemma_chain(triggers: Seq<model::TriggerView>, port: u16, t: int)
    requires
        plan_laws::is_trigger_for(triggers, port, t),
    ensures
        nullnet_grpc_impl::chain_for(triggers, port) == triggers[t].chain,
{
    assert(nullnet_grpc_impl::is_first_for(triggers, port, t));
    let k = choose|k: int| nullnet_grpc_impl::is_first_for(triggers, port, k);
    assert(nullnet_grpc_impl::is_first_for(triggers, port, k));
    assert(k == t);
}

/// A client is connected to a service exactly where it has a connection to a replica.
pub(crate) proof fn lemma_connected(services: ServicesView, c: ClientView, name: Seq<char>)
    requires
        connections::services_wf(services),
    ensures
        world::connection(services, c, name) is Some == exists|x: IpAddr, y: Option<Seq<char>>|
            #[trigger]
            connections::conn(services, name, x, y, c) is Some,
        world::connection(services, c, name) matches Some(node) ==> node.name == name
            && connections::conn(services, name, node.ip, node.docker, c) is Some,
{
    connections::lemma_wf_of(services, name);
    if let Some(reg) = model::registered(services, name) {
        connections::lemma_holds(reg, c);
        if reg.holds(c) {
            let r = reg.replicas[reg.holder(c)];
            assert(connections::conn(services, name, r.ip, r.docker_container, c) is Some);
        }
        if exists|x: IpAddr, y: Option<Seq<char>>| #[trigger]
            connections::conn(services, name, x, y, c) is Some {
            let (x, y) = choose|x: IpAddr, y: Option<Seq<char>>| #[trigger]
                connections::conn(services, name, x, y, c) is Some;
            assert(connections::replica_conn(reg, x, y, c) is Some);
        }
    }
}

/// What the use of a connection to a replica changes.
proof fn lemma_used_at(
    w: World,
    name: Seq<char>,
    reg: RegisteredView,
    ip: IpAddr,
    docker: Option<Seq<char>>,
    c: ClientView,
    now: nat,
)
    requires
        connections::services_wf(w.services),
        model::registered(w.services, name) == Some(reg),
        reg.info_at(ip, docker, c) is Some,
        c.proxy is None,
    ensures
        is_only_used(
            w.services,
            w.with_service(
                name,
                ServiceView::Registered(reg.used_at(ip, docker, c, now)),
            ).services,
            name,
            ip,
            docker,
            c,
            now,
        ),
{
    let next = reg.used_at(ip, docker, c, now);
    connections::lemma_wf_of(w.services, name);
    connections::lemma_with_client(reg, ip, docker, c, reg.info_at(ip, docker, c)->0.used(now));
    laws::lemma_put_registered(w.services, name, ServiceView::Registered(next), name);
    message_laws::lemma_other_conns(w, name, reg, next, ip, docker, c);
    assert(connections::replica_conn(next, ip, docker, c) is Some);
}

/// The connections that a shared network's chain runs over lead from the replica along the service's
/// dependencies, as far as each is connected to the next.
pub open spec fn is_shared_way(
    services: ServicesView,
    name: Seq<char>,
    ip: IpAddr,
    docker: Option<Seq<char>>,
    deps: Seq<Seq<char>>,
    edges: Seq<ChainEdge>,
    places: Seq<(IpAddr, Option<Seq<char>>)>,
) -> bool {
    let n = edges.len() as int;
    &&& n <= deps.len()
    &&& is_way(services, name, ip, docker, deps.take(n), places)
    &&& forall|k: int|
        0 <= k < n ==> #[trigger] edges[k] == (
            hop_client(name, ip, docker, deps, places, k),
            deps[k],
        )
    &&& n < deps.len() ==> forall|x: IpAddr, y: Option<Seq<char>>| #[trigger]
        connections::conn(
            services,
            deps[n],
            x,
            y,
            hop_client(name, ip, docker, deps, places, n),
        ) is None
}

/// A way that a further connection leads to is the rest of a way.
pub(crate) proof fn lemma_prepend(
    services: ServicesView,
    node: NodeView,
    deps: Seq<Seq<char>>,
    next: NodeView,
    more: Seq<ChainEdge>,
    tail: Seq<(IpAddr, Option<Seq<char>>)>,
)
    requires
        deps.len() > 0,
        next.name == deps[0],
        connections::conn(services, deps[0], next.ip, next.docker, node.client()) is Some,
        is_shared_way(services, next.name, next.ip, next.docker, deps.drop_first(), more, tail),
    ensures
        is_shared_way(
            services,
            node.name,
            node.ip,
            node.docker,
            deps,
            seq![(node.client(), deps[0])] + more,
            seq![(next.ip, next.docker)] + tail,
        ),
{
    let rest = deps.drop_first();
    let edges = seq![(node.client(), deps[0])] + more;
    let places = seq![(next.ip, next.docker)] + tail;
    let n = edges.len() as int;
    let way = deps.take(n);
    assert(places.drop_first() =~= tail);
    assert(way.drop_first() =~= rest.take(n - 1));
    assert forall|k: int| 0 <= k < way.len() implies #[trigger] is_hop(
        services,
        node.name,
        node.ip,
        node.docker,
        way,
        places,
        k,
    ) by {
        if k > 0 {
            assert(is_hop(
                services,
                next.name,
                next.ip,
                next.docker,
                rest.take(n - 1),
                tail,
                k - 1,
            ));
            lemma_shift(way, places, k);
        }
    }
    assert forall|k: int| 0 <= k < n implies #[trigger] edges[k] == (
        hop_client(node.name, node.ip, node.docker, deps, places, k),
        deps[k],
    ) by {
        if k > 0 {
            assert(edges[k] == more[k - 1]);
            lemma_shift(way, places, k);
        }
    }
    if n < deps.len() {
        assert(rest[n - 1] == deps[n]);
        assert(hop_client(next.name, next.ip, next.docker, rest, tail, n - 1) == hop_client(
            node.name,
            node.ip,
            node.docker,
            deps,
            places,
            n,
        ));
    }
}

pub(crate) proof fn lemma_shared_way(
    services: ServicesView,
    node: NodeView,
    deps: Seq<Seq<char>>,
) -> (places: Seq<(IpAddr, Option<Seq<char>>)>)
    requires
        connections::services_wf(services),
    ensures
        is_shared_way(
            services,
            node.name,
            node.ip,
            node.docker,
            deps,
            world::linear_edges(services, node, deps),
            places,
        ),
        places.len() == world::path(services, node, deps).len(),
        forall|k: int|
            0 <= k < places.len() ==> {
                let hop = #[trigger] world::path(services, node, deps)[k];
                &&& hop.0 == world::linear_edges(services, node, deps)[k].0
                &&& hop.1 == NodeView { name: deps[k], ip: places[k].0, docker: places[k].1 }
            },
    decreases deps.len(),
{
    let none = Seq::<(IpAddr, Option<Seq<char>>)>::empty();
    if deps.len() == 0 {
        none
    } else {
        lemma_connected(services, node.client(), deps[0]);
        match world::connection(services, node.client(), deps[0]) {
            None => {
                assert(world::linear_edges(services, node, deps) =~= Seq::empty());
                none
            },
            Some(next) => {
                let rest = deps.drop_first();
                let tail = lemma_shared_way(services, next, rest);
                let more = world::linear_edges(services, next, rest);
                let places = seq![(next.ip, next.docker)] + tail;
                lemma_prepend(services, node, deps, next, more, tail);
                let path = world::path(services, node, deps);
                let on = world::path(services, next, rest);
                assert(path == seq![(node.client(), next)] + on);
                assert forall|k: int| 0 <= k < places.len() implies {
                    let hop = #[trigger] path[k];
                    &&& hop.0 == world::linear_edges(services, node, deps)[k].0
                    &&& hop.1 == NodeView { name: deps[k], ip: places[k].0, docker: places[k].1 }
                } by {
                    if k > 0 {
                        assert(path[k] == on[k - 1]);
                        assert(rest[k - 1] == deps[k]);
                    }
                }
                places
            },
        }
    }
}

/// The connections that go with a network to share lead from the replica that it leads to along the
/// dependencies of the service, in their order, as far as they are set up.
pub proof fn law_shared_way(
    w: World,
    name: Seq<char>,
    proxy_ip: IpAddr,
    client: Seq<char>,
    now: nat,
)
    requires
        connections::services_wf(w.services),
    ensures
        w.proxy_request(name, proxy_ip, client, now).1 matches Ok(ProxyReplyView::Share(network))
            ==> exists|places: Seq<(IpAddr, Option<Seq<char>>)>| #[trigger]
            is_shared_way(
                w.services,
                name,
                network.entry.ip,
                network.entry.docker_container,
                laws::config_at(w.services, name)->0.dependencies,
                network.edges,
                places,
            ),
{
    if let Ok(ProxyReplyView::Share(network)) = w.proxy_request(name, proxy_ip, client, now).1 {
        let node = NodeView {
            name,
            ip: network.entry.ip,
            docker: network.entry.docker_container,
        };
        let deps = laws::config_at(w.services, name)->0.dependencies;
        let places = lemma_shared_way(w.services, node, deps);
        assert(is_shared_way(w.services, name, node.ip, node.docker, deps, network.edges, places));
    }
}

/// A client of a service is connected to one replica of it at most.
pub open spec fn is_in_one_place(services: ServicesView, e: ChainEdge) -> bool {
    forall|x: IpAddr, y: Option<Seq<char>>, a: IpAddr, b: Option<Seq<char>>|
        (#[trigger] connections::conn(services, e.1, x, y, e.0)) is Some && (
        #[trigger] connections::conn(services, e.1, a, b, e.0)) is Some ==> x == a && y == b
}

/// A connection after a further chain may run over it.
pub open spec fn raised_if(info: Option<ClientInfoView>, more: bool, now: nat) -> Option<ClientInfoView> {
    match info {
        Some(ci) => if more {
            Some(ClientInfoView { active_chains: ci.active_chains + 1, latest: now, ..ci })
        } else {
            Some(ci)
        },
        None => None,
    }
}

proof fn lemma_increment(w: World, c: ClientView, name: Seq<char>, now: nat)
    requires
        connections::services_wf(w.services),
        c.proxy is None,
        is_in_one_place(w.services, (c, name)),
    ensures
        ({
            let after = w.increment(c, name, now);
            &&& connections::services_wf(after.services)
            &&& forall|n: Seq<char>, x: IpAddr, y: Option<Seq<char>>, q: ClientView| #[trigger]
                connections::conn(after.services, n, x, y, q) == raised_if(
                    connections::conn(w.services, n, x, y, q),
                    n == name && q == c,
                    now,
                )
        }),
{
    let after = w.increment(c, name, now);
    connections::lemma_wf_of(w.services, name);
    if let Some(reg) = model::registered(w.services, name) {
        connections::lemma_holds(reg, c);
        let next = reg.with_chain(c, now);
        if reg.holds(c) {
            connections::lemma_with_info(reg, c, reg.info(c)->0.with_chain(now));
            let r = reg.replicas[reg.holder(c)];
            assert(connections::conn(w.services, name, r.ip, r.docker_container, c) is Some);
        }
        connections::lemma_put_wf(w.services, name, ServiceView::Registered(next));
        assert forall|n: Seq<char>, x: IpAddr, y: Option<Seq<char>>, q: ClientView| #[trigger]
            connections::conn(after.services, n, x, y, q) == raised_if(
                connections::conn(w.services, n, x, y, q),
                n == name && q == c,
                now,
            ) by {
            laws::lemma_put_registered(w.services, name, ServiceView::Registered(next), n);
            if n == name {
                assert(connections::replica_conn(next, x, y, q) is Some
                    || connections::replica_conn(next, x, y, q) is None);
                assert(connections::conn(w.services, name, x, y, q) is Some
                    || connections::conn(w.services, name, x, y, q) is None);
            }
        }
    }
}

proof fn lemma_increments(w: World, edges: Seq<ChainEdge>, now: nat)
    requires
        connections::services_wf(w.services),
        edges.no_duplicates(),
        forall|k: int|
            0 <= k < edges.len() ==> (#[trigger] edges[k]).0.proxy is None && is_in_one_place(
                w.services,
                edges[k],
            ),
    ensures
        ({
            let after = seqs::fold(w, edges, nullnet_grpc_impl::increment_edge(now));
            &&& connections::services_wf(after.services)
            &&& forall|n: Seq<char>, x: IpAddr, y: Option<Seq<char>>, q: ClientView| #[trigger]
                connections::conn(after.services, n, x, y, q) == raised_if(
                    connections::conn(w.services, n, x, y, q),
                    edges.contains((q, n)),
                    now,
                )
        }),
    decreases edges.len(),
{
    let f = nullnet_grpc_impl::increment_edge(now);
    let after = seqs::fold(w, edges, f);
    if edges.len() == 0 {
        assert forall|n: Seq<char>, x: IpAddr, y: Option<Seq<char>>, q: ClientView| #[trigger]
            connections::conn(after.services, n, x, y, q) == raised_if(
                connections::conn(w.services, n, x, y, q),
                edges.contains((q, n)),
                now,
            ) by {
            assert(!edges.contains((q, n)));
        }
    } else {
        let front = edges.drop_last();
        let e = edges.last();
        assert forall|k: int| 0 <= k < front.len() implies (#[trigger] front[k]).0.proxy is None
            && is_in_one_place(w.services, front[k]) by {
            assert(front[k] == edges[k]);
        }
        lemma_increments(w, front, now);
        let v = seqs::fold(w, front, f);
        assert(edges[edges.len() - 1] == e);
        assert(is_in_one_place(w.services, e));
        assert(is_in_one_place(v.services, e)) by {
            assert forall|x: IpAddr, y: Option<Seq<char>>, a: IpAddr, b: Option<Seq<char>>|
                (#[trigger] connections::conn(v.services, e.1, x, y, e.0)) is Some && (
                #[trigger] connections::conn(v.services, e.1, a, b, e.0)) is Some implies x == a && y
                == b by {
                assert(connections::conn(w.services, e.1, x, y, e.0) is Some);
                assert(connections::conn(w.services, e.1, a, b, e.0) is Some);
            }
        }
        lemma_increment(v, e.0, e.1, now);
        assert(!front.contains(e)) by {
            if front.contains(e) {
                let k = choose|k: int| 0 <= k < front.len() && front[k] == e;
                assert(edges[k] == edges[edges.len() - 1]);
            }
        }
        assert forall|n: Seq<char>, x: IpAddr, y: Option<Seq<char>>, q: ClientView| #[trigger]
            connections::conn(after.services, n, x, y, q) == raised_if(
                connections::conn(w.services, n, x, y, q),
                edges.contains((q, n)),
                now,
            ) by {
            crate::chain_laws::lemma_push_contains(front, (q, n));
            assert(front.push(e) =~= edges);
            assert(connections::conn(v.services, n, x, y, q) == raised_if(
                connections::conn(w.services, n, x, y, q),
                front.contains((q, n)),
                now,
            ));
        }
    }
}

/// A client that shares a network is connected to the replica that the network leads to, with the
/// addresses and the network of the one that it shares with, through its own proxy, with one chain, used
/// now. One more chain runs over each connection on the way, and no other connection is different.
pub proof fn law_shared(
    w: World,
    name: Seq<char>,
    proxy_ip: IpAddr,
    client: Seq<char>,
    network: SharedNetworkView,
    now: nat,
)
    requires
        connections::services_wf(w.services),
        laws::port_at(
            w.services,
            name,
            network.entry.ip,
            network.entry.docker_container,
        ) is Some,
        forall|ip: IpAddr, docker: Option<Seq<char>>| #[trigger]
            connections::conn(
                w.services,
                name,
                ip,
                docker,
                ClientView { name: client, proxy: Some(proxy_ip), replica: None },
            ) is None,
        network.edges.no_duplicates(),
        forall|k: int|
            0 <= k < network.edges.len() ==> (#[trigger] network.edges[k]).0.proxy is None
                && is_in_one_place(w.services, network.edges[k]),
    ensures
        ({
            let after = w.share_network(name, proxy_ip, client, network, now);
            let e = network.entry;
            let me = ClientView { name: client, proxy: Some(proxy_ip), replica: None };
            &&& after.orch == w.orch
            &&& forall|n: Seq<char>, x: IpAddr, y: Option<Seq<char>>, q: ClientView|
                !(n == name && q == me) ==> #[trigger] connections::conn(
                    after.services,
                    n,
                    x,
                    y,
                    q,
                ) == raised_if(
                    connections::conn(w.services, n, x, y, q),
                    network.edges.contains((q, n)),
                    now,
                )
            &&& match connections::conn(after.services, name, e.ip, e.docker_container, me) {
                Some(ci) => {
                    &&& ci.client_ip == proxy_ip
                    &&& ci.client_net == e.info.client_net
                    &&& ci.server_net == e.info.server_net
                    &&& ci.net_id == e.info.net_id
                    &&& ci.docker_container is None
                    &&& ci.active_chains == 1
                    &&& ci.latest == now
                    &&& !ci.is_backend_entry
                },
                None => false,
            }
        }),
{
    let e = network.entry;
    let me = nullnet_grpc_impl::proxy_client(client, proxy_ip);
    let ci = clients::fresh_info(
        proxy_ip,
        e.info.client_net,
        e.info.server_net,
        e.info.net_id,
        0,
        None,
        false,
        now,
    );
    let reg = model::registered(w.services, name)->0;
    setup_laws::lemma_connect_counted(w, name, reg, e.ip, e.docker_container, me, ci, now);
    let next = reg.with_client(e.ip, e.docker_container, me, ci).with_chain(me, now);
    let v = w.with_service(name, ServiceView::Registered(next));
    assert forall|k: int| 0 <= k < network.edges.len() implies (
    #[trigger] network.edges[k]).0.proxy is None && is_in_one_place(v.services, network.edges[k]) by {
        let g = network.edges[k];
        assert(is_in_one_place(w.services, g));
        assert forall|x: IpAddr, y: Option<Seq<char>>, a: IpAddr, b: Option<Seq<char>>|
            (#[trigger] connections::conn(v.services, g.1, x, y, g.0)) is Some && (
            #[trigger] connections::conn(v.services, g.1, a, b, g.0)) is Some implies x == a && y
            == b by {
            assert(connections::conn(v.services, g.1, x, y, g.0) == connections::conn(
                w.services,
                g.1,
                x,
                y,
                g.0,
            ));
            assert(connections::conn(v.services, g.1, a, b, g.0) == connections::conn(
                w.services,
                g.1,
                a,
                b,
                g.0,
            ));
        }
    }
    lemma_increments(v, network.edges, now);
    let after = w.share_network(name, proxy_ip, client, network, now);
    assert(!network.edges.contains((me, name))) by {
        if network.edges.contains((me, name)) {
            let k = choose|k: int| 0 <= k < network.edges.len() && network.edges[k] == (me, name);
            assert(network.edges[k].0.proxy is None);
        }
    }
    assert forall|n: Seq<char>, x: IpAddr, y: Option<Seq<char>>, q: ClientView|
        !(n == name && q == me) implies #[trigger] connections::conn(after.services, n, x, y, q)
        == raised_if(
        connections::conn(w.services, n, x, y, q),
        network.edges.contains((q, n)),
        now,
    ) by {
        assert(connections::conn(v.services, n, x, y, q) == connections::conn(
            w.services,
            n,
            x,
            y,
            q,
        ));
    }
    assert(connections::conn(v.services, name, e.ip, e.docker_container, me) == Some(
        ci.with_chain(now),
    ));
    setup_laws::law_share_network(w, name, proxy_ip, client, network, now);
}

} // verus!
