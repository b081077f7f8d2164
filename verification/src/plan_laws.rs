//! How requests are answered: which chain is planned, over which replicas, and who shares a network.
use crate::addr::IpAddr;
use crate::nullnet_grpc_impl;
use crate::nullnet_grpc_impl::{ProxyReplyView, RequestError, TriggerReplyView};
use crate::seqs;
use crate::services::clients::{ClientInfoView, ClientView};
use crate::services::connections;
use crate::services::edge::RegisteredEdgeView;
use crate::services::laws;
use crate::services::model;
use crate::services::model::{EntryView, RegisteredView, ReplicaView, ServicesView};
use crate::services::world::World;
use vstd::prelude::*;

verus! {

/// Replica `i` of a service is at an address in a container, and no replica has fewer clients; of those
/// with as few it is the first.
pub open spec fn has_fewest(reg: RegisteredView, i: int, ip: IpAddr, docker: Option<Seq<char>>) -> bool {
    &&& 0 <= i < reg.replicas.len()
    &&& reg.replicas[i].ip == ip
    &&& reg.replicas[i].docker_container == docker
    &&& forall|j: int|
        0 <= j < reg.replicas.len() ==> reg.replicas[i].clients.len() <= (
        #[trigger] reg.replicas[j]).clients.len()
    &&& forall|j: int|
        0 <= j < i ==> reg.replicas[i].clients.len() != (#[trigger] reg.replicas[j]).clients.len()
}

/// A replica of a running service at an address in a container has the fewest clients.
pub open spec fn is_least_loaded(
    services: ServicesView,
    name: Seq<char>,
    ip: IpAddr,
    docker: Option<Seq<char>>,
) -> bool {
    match model::registered(services, name) {
        Some(reg) => exists|i: int| #[trigger] has_fewest(reg, i, ip, docker),
        None => false,
    }
}

/// Edge `k` of a chain leads on along `names`, from the node at (`name`, `ip`, `docker`) or where the edge
/// before it led to: to the replica of service `k` that has the fewest clients, and its client is the
/// replica that it leads from.
pub open spec fn leads_on(
    services: ServicesView,
    edges: Seq<RegisteredEdgeView>,
    names: Seq<Seq<char>>,
    k: int,
    name: Seq<char>,
    ip: IpAddr,
    docker: Option<Seq<char>>,
) -> bool {
    let e = edges[k];
    let (from, at, container) = if k == 0 {
        (name, ip, docker)
    } else {
        (names[k - 1], edges[k - 1].server.0, edges[k - 1].server_docker)
    };
    &&& e.client.0 == at
    &&& e.client_docker == container
    &&& e.client.1.name == from
    &&& e.client.1.proxy is None
    &&& e.client.1.replica == Some((at, container))
    &&& e.server.1.name == names[k]
    &&& e.server.1.proxy is None
    &&& e.server.1.replica is None
    &&& is_least_loaded(services, names[k], e.server.0, e.server_docker)
}

/// The replica that is picked has the fewest clients.
proof fn lemma_least(reg: RegisteredView)
    ensures
        reg.least() is Some == (reg.replicas.len() > 0),
        reg.least() matches Some(r) ==> exists|i: int| #[trigger]
            has_fewest(reg, i, r.ip, r.docker_container) && reg.replicas[i] == r,
{
    if reg.replicas.len() > 0 {
        let i = lemma_some_least(reg, reg.replicas.len() as int);
        assert(reg.is_least(i));
        let k = choose|k: int| reg.is_least(k);
        assert(reg.is_least(k));
        let r = reg.replicas[k];
        assert(has_fewest(reg, k, r.ip, r.docker_container));
    } else if reg.least() is Some {
        let k = choose|k: int| reg.is_least(k);
        assert(reg.is_least(k));
    }
}

/// Of the first replicas of a service one is the first with the fewest clients.
proof fn lemma_some_least(reg: RegisteredView, m: int) -> (i: int)
    requires
        0 < m <= reg.replicas.len(),
    ensures
        0 <= i < m,
        forall|j: int|
            0 <= j < m ==> reg.replicas[i].clients.len() <= (
            #[trigger] reg.replicas[j]).clients.len(),
        forall|j: int|
            0 <= j < i ==> reg.replicas[i].clients.len() < (#[trigger] reg.replicas[j]).clients.len(),
    decreases m,
{
    if m == 1 {
        0
    } else {
        let i = lemma_some_least(reg, m - 1);
        if reg.replicas[m - 1].clients.len() < reg.replicas[i].clients.len() {
            m - 1
        } else {
            i
        }
    }
}

/// A dependency runs exactly where a chain can pass it, and then at its least loaded replica.
proof fn lemma_hop(services: ServicesView, name: Seq<char>)
    requires
        connections::services_wf(services),
    ensures
        model::hop(services, name).0 == name,
        model::hop(services, name).1 is Some == (model::registered(services, name) is Some),
        model::hop(services, name).1 matches Some(ip) ==> is_least_loaded(
            services,
            name,
            ip,
            model::hop(services, name).2,
        ),
{
    connections::lemma_wf_of(services, name);
    if let Some(reg) = model::registered(services, name) {
        lemma_least(reg);
        let r = reg.least()->0;
        let i = choose|i: int| #[trigger]
            has_fewest(reg, i, r.ip, r.docker_container) && reg.replicas[i] == r;
        assert(has_fewest(reg, i, r.ip, r.docker_container));
    }
}

/// The edges along dependencies, where all of them run.
proof fn lemma_edges(
    services: ServicesView,
    name: Seq<char>,
    ip: IpAddr,
    docker: Option<Seq<char>>,
    names: Seq<Seq<char>>,
)
    requires
        connections::services_wf(services),
    ensures
        ({
            let all = nullnet_grpc_impl::all_registered(
                model::dependency_edges(name, ip, docker, names, services),
            );
            &&& all is Some == forall|k: int|
                0 <= k < names.len() ==> model::registered(services, #[trigger] names[k]) is Some
            &&& all matches Some(edges) ==> {
                &&& edges.len() == names.len()
                &&& forall|k: int|
                    0 <= k < names.len() ==> leads_on(services, edges, names, k, name, ip, docker)
                        && !(#[trigger] edges[k]).is_backend_entry
            }
        }),
{
    let plan = model::dependency_edges(name, ip, docker, names, services);
    let all = nullnet_grpc_impl::all_registered(plan);
    assert forall|k: int| 0 <= k < names.len() implies ((#[trigger] plan[k]).registered() is Some
        == (model::registered(services, names[k]) is Some && (k == 0 || model::registered(
        services,
        names[k - 1],
    ) is Some))) by {
        lemma_hop(services, names[k]);
        if k > 0 {
            lemma_hop(services, names[k - 1]);
        }
    }
    if forall|k: int|
        0 <= k < names.len() ==> model::registered(services, #[trigger] names[k]) is Some {
        assert forall|k: int| 0 <= k < plan.len() implies (#[trigger] plan[k]).registered() is Some by {
            assert(model::registered(services, names[k]) is Some);
            if k > 0 {
                assert(model::registered(services, names[k - 1]) is Some);
            }
        }
    }
    if let Some(edges) = all {
        assert forall|k: int| 0 <= k < names.len() implies model::registered(
            services,
            #[trigger] names[k],
        ) is Some by {
            assert(plan[k].registered() is Some);
        }
        assert forall|k: int| 0 <= k < names.len() implies leads_on(
            services,
            edges,
            names,
            k,
            name,
            ip,
            docker,
        ) && !(#[trigger] edges[k]).is_backend_entry by {
            assert(plan[k].registered() is Some);
            lemma_hop(services, names[k]);
            if k > 0 {
                assert(plan[k - 1].registered() is Some);
                lemma_hop(services, names[k - 1]);
            }
        }
    }
}

/// The chain that a proxy client is to be set up with leads from the replica of the service with the
/// fewest clients along the service's dependencies, in their order, at each over the replica with the
/// fewest clients; its last edge connects the client, through its proxy, to that replica of the service,
/// at the replica's port.
pub proof fn law_proxy_plan(
    w: World,
    name: Seq<char>,
    proxy_ip: IpAddr,
    client: Seq<char>,
    now: nat,
)
    requires
        connections::services_wf(w.services),
    ensures
        w.proxy_request(name, proxy_ip, client, now).1 matches Ok(ProxyReplyView::Setup(chain)) ==> {
            let deps = laws::config_at(w.services, name)->0.dependencies;
            let n = deps.len() as int;
            let last = chain.edges[n];
            &&& chain.edges.len() == n + 1
            &&& last.client.0 == proxy_ip
            &&& last.client.1.name == client
            &&& last.client.1.proxy == Some(proxy_ip)
            &&& last.client.1.replica is None
            &&& last.client_docker is None
            &&& last.server.1.name == name
            &&& last.server.1.proxy is None
            &&& last.server.1.replica is None
            &&& !last.is_backend_entry
            &&& is_least_loaded(w.services, name, last.server.0, last.server_docker)
            &&& laws::port_at(w.services, name, last.server.0, last.server_docker) == Some(
                chain.port,
            )
            &&& forall|k: int|
                0 <= k < n ==> leads_on(
                    w.services,
                    chain.edges,
                    deps,
                    k,
                    name,
                    last.server.0,
                    last.server_docker,
                ) && !(#[trigger] chain.edges[k]).is_backend_entry
        },
{
    if let Ok(ProxyReplyView::Setup(chain)) = w.proxy_request(name, proxy_ip, client, now).1 {
        connections::lemma_wf_of(w.services, name);
        let reg = model::registered(w.services, name)->0;
        lemma_least(reg);
        let r = reg.least()->0;
        let i = choose|i: int| #[trigger]
            has_fewest(reg, i, r.ip, r.docker_container) && reg.replicas[i] == r;
        assert(has_fewest(reg, i, r.ip, r.docker_container));
        connections::lemma_index(reg, i);
        let deps = reg.config.dependencies;
        lemma_edges(w.services, name, r.ip, r.docker_container, deps);
        let edges = nullnet_grpc_impl::all_registered(
            model::dependency_edges(name, r.ip, r.docker_container, deps, w.services),
        )->0;
        let n = deps.len() as int;
        assert forall|k: int| 0 <= k < n implies leads_on(
            w.services,
            chain.edges,
            deps,
            k,
            name,
            r.ip,
            r.docker_container,
        ) && !(#[trigger] chain.edges[k]).is_backend_entry by {
            assert(chain.edges[k] == edges[k]);
            assert(leads_on(w.services, edges, deps, k, name, r.ip, r.docker_container));
        }
    }
}

/// The chain for a client that is to be connected to a given replica leads from that replica along the
/// service's dependencies, in their order, at each over the replica with the fewest clients, and its last
/// edge connects the client to the replica. There is one exactly where the service and all its dependencies
/// run.
pub proof fn law_chain_at(
    services: ServicesView,
    name: Seq<char>,
    proxy_ip: IpAddr,
    client: Seq<char>,
    ip: IpAddr,
    docker: Option<Seq<char>>,
)
    requires
        connections::services_wf(services),
    ensures
        match nullnet_grpc_impl::proxy_chain_at(services, name, proxy_ip, client, ip, docker) {
            Err(e) => match laws::config_at(services, name) {
                None => e == RequestError::ServiceNotFound,
                Some(config) => if model::registered(services, name) is None {
                    e == RequestError::NotRegistered
                } else {
                    e == RequestError::DependencyNotRegistered && exists|k: int|
                        0 <= k < config.dependencies.len() && model::registered(
                            services,
                            #[trigger] config.dependencies[k],
                        ) is None
                },
            },
            Ok(edges) => {
                let deps = laws::config_at(services, name)->0.dependencies;
                let n = deps.len() as int;
                let last = edges[n];
                &&& model::registered(services, name) is Some
                &&& forall|k: int|
                    0 <= k < n ==> model::registered(services, #[trigger] deps[k]) is Some
                &&& edges.len() == n + 1
                &&& last.client.0 == proxy_ip
                &&& last.client.1.name == client
                &&& last.client.1.proxy == Some(proxy_ip)
                &&& last.client.1.replica is None
                &&& last.client_docker is None
                &&& last.server.0 == ip
                &&& last.server_docker == docker
                &&& last.server.1.name == name
                &&& last.server.1.proxy is None
                &&& last.server.1.replica is None
                &&& !last.is_backend_entry
                &&& forall|k: int|
                    0 <= k < n ==> leads_on(services, edges, deps, k, name, ip, docker) && !(
                    #[trigger] edges[k]).is_backend_entry
            },
        },
{
    if let Some(reg) = model::registered(services, name) {
        let deps = reg.config.dependencies;
        lemma_edges(services, name, ip, docker, deps);
        let all = nullnet_grpc_impl::all_registered(
            model::dependency_edges(name, ip, docker, deps, services),
        );
        if let Some(edges) = all {
            let more = nullnet_grpc_impl::proxy_chain_at(
                services,
                name,
                proxy_ip,
                client,
                ip,
                docker,
            )->Ok_0;
            assert forall|k: int| 0 <= k < deps.len() implies leads_on(
                services,
                more,
                deps,
                k,
                name,
                ip,
                docker,
            ) && !(#[trigger] more[k]).is_backend_entry by {
                assert(more[k] == edges[k]);
                assert(leads_on(services, edges, deps, k, name, ip, docker));
            }
        }
    }
}

/// A chain from a replica leads along the services that it names, in their order, at each over the replica
/// with the fewest clients, and its first edge is the entry of a backend chain. There is one exactly where
/// all of them run.
pub proof fn law_backend_plan(
    services: ServicesView,
    name: Seq<char>,
    ip: IpAddr,
    docker: Option<Seq<char>>,
    chain: Seq<Seq<char>>,
)
    requires
        connections::services_wf(services),
    ensures
        match nullnet_grpc_impl::backend_chain(services, name, ip, docker, chain) {
            Err(e) => e == RequestError::DependencyNotRegistered && exists|k: int|
                0 <= k < chain.len() && model::registered(services, #[trigger] chain[k]) is None,
            Ok(edges) => {
                &&& is_trigger_chain(services, edges, chain, name, ip, docker)
                &&& forall|k: int|
                    0 <= k < chain.len() ==> model::registered(services, #[trigger] chain[k]) is Some
            },
        },
{
    lemma_edges(services, name, ip, docker, chain);
    let all = nullnet_grpc_impl::all_registered(
        model::dependency_edges(name, ip, docker, chain, services),
    );
    if let Some(edges) = all {
        let marked = nullnet_grpc_impl::backend_chain(services, name, ip, docker, chain)->Ok_0;
        assert forall|k: int| 0 <= k < marked.len() implies leads_on(
            services,
            marked,
            chain,
            k,
            name,
            ip,
            docker,
        ) && (#[trigger] marked[k]).is_backend_entry == (k == 0) by {
            assert(leads_on(services, edges, chain, k, name, ip, docker) && !(
            edges[k]).is_backend_entry);
            if k > 0 {
                assert(marked[k] == edges[k]);
                assert(marked[k - 1].server == edges[k - 1].server);
                assert(marked[k - 1].server_docker == edges[k - 1].server_docker);
            }
        }
    }
}

/// Where a chain passes a service that runs, it passes the replica with the fewest clients; where the
/// service does not run, no host is given.
pub open spec fn is_passed(
    services: ServicesView,
    name: Seq<char>,
    ip: Option<IpAddr>,
    docker: Option<Seq<char>>,
) -> bool {
    match ip {
        Some(ip) => is_least_loaded(services, name, ip, docker),
        None => model::registered(services, name) is None && docker is None,
    }
}

/// The edges along dependencies lead from the replica over each dependency to the next, whether they run or
/// not.
pub proof fn law_dependency_edges(
    services: ServicesView,
    name: Seq<char>,
    ip: IpAddr,
    docker: Option<Seq<char>>,
    names: Seq<Seq<char>>,
    k: int,
)
    requires
        connections::services_wf(services),
        0 <= k < names.len(),
    ensures
        ({
            let edges = model::dependency_edges(name, ip, docker, names, services);
            let e = edges[k];
            &&& edges.len() == names.len()
            &&& e.server.1 == ClientView { name: names[k], proxy: None, replica: None }
            &&& is_passed(services, names[k], e.server.0, e.server_docker)
            &&& k == 0 ==> {
                &&& e.client.0 == Some(ip)
                &&& e.client_docker == docker
                &&& e.client.1.name == name
            }
            &&& k > 0 ==> {
                &&& e.client.0 == edges[k - 1].server.0
                &&& e.client_docker == edges[k - 1].server_docker
                &&& e.client.1.name == names[k - 1]
            }
            &&& e.client.1.proxy is None
            &&& e.client.1.replica == (match e.client.0 {
                Some(at) => Some((at, e.client_docker)),
                None => None,
            })
        }),
{
    lemma_hop(services, names[k]);
    connections::lemma_wf_of(services, names[k]);
    if k > 0 {
        lemma_hop(services, names[k - 1]);
    }
}

/// The number of clients that a test picks.
pub open spec fn count_clients(
    clients: Seq<(ClientView, ClientInfoView)>,
    test: spec_fn(ClientView, ClientInfoView) -> bool,
) -> nat
    decreases clients.len(),
{
    if clients.len() == 0 {
        0
    } else {
        count_clients(clients.drop_last(), test) + if test(clients.last().0, clients.last().1) {
            1nat
        } else {
            0
        }
    }
}

/// The number of clients of replicas that a test picks.
pub open spec fn count_all(
    replicas: Seq<ReplicaView>,
    test: spec_fn(ClientView, ClientInfoView) -> bool,
) -> nat
    decreases replicas.len(),
{
    if replicas.len() == 0 {
        0
    } else {
        count_all(replicas.drop_last(), test) + count_clients(replicas.last().clients, test)
    }
}

/// The number of proxy clients of a service.
pub open spec fn proxy_clients(reg: RegisteredView) -> nat {
    count_all(reg.replicas, |c: ClientView, ci: ClientInfoView| c.proxy is Some)
}

/// The number of proxy clients of a service that are on a network.
pub open spec fn clients_on(reg: RegisteredView, net_id: u32) -> nat {
    count_all(
        reg.replicas,
        |c: ClientView, ci: ClientInfoView| c.proxy is Some && ci.net_id == net_id,
    )
}

/// A function that keeps the entries that a test picks.
spec fn picked(test: spec_fn(ClientView, ClientInfoView) -> bool) -> spec_fn(EntryView) -> Seq<EntryView> {
    |e: EntryView|
        if test(e.client, e.info) {
            seq![e]
        } else {
            Seq::empty()
        }
}

pub(crate) proof fn lemma_concat_append<A, B>(s: Seq<A>, t: Seq<A>, f: spec_fn(A) -> Seq<B>)
    ensures
        seqs::concat_map(s + t, f) == seqs::concat_map(s, f) + seqs::concat_map(t, f),
    decreases t.len(),
{
    if t.len() == 0 {
        assert(s + t =~= s);
        assert(seqs::concat_map(s, f) + seqs::concat_map(t, f) =~= seqs::concat_map(s, f));
    } else {
        lemma_concat_append(s, t.drop_last(), f);
        assert((s + t).drop_last() =~= s + t.drop_last());
        assert((s + t).last() == t.last());
        assert(seqs::concat_map(s, f) + seqs::concat_map(t, f) =~= (seqs::concat_map(s, f)
            + seqs::concat_map(t.drop_last(), f)) + f(t.last()));
    }
}

proof fn lemma_count_entries(
    r: ReplicaView,
    m: int,
    test: spec_fn(ClientView, ClientInfoView) -> bool,
)
    requires
        0 <= m <= r.clients.len(),
    ensures
        seqs::concat_map(r.entries().take(m), picked(test)).len() == count_clients(
            r.clients.take(m),
            test,
        ),
    decreases m,
{
    if m > 0 {
        lemma_count_entries(r, m - 1, test);
        assert(r.entries().take(m).drop_last() =~= r.entries().take(m - 1));
        assert(r.clients.take(m).drop_last() =~= r.clients.take(m - 1));
        assert(r.entries().take(m).last() == r.entries()[m - 1]);
        assert(r.clients.take(m).last() == r.clients[m - 1]);
    }
}

proof fn lemma_count_all(
    reg: RegisteredView,
    m: int,
    test: spec_fn(ClientView, ClientInfoView) -> bool,
)
    requires
        0 <= m <= reg.replicas.len(),
    ensures
        seqs::concat_map(
            seqs::concat_map(reg.replicas.take(m), model::entries_of()),
            picked(test),
        ).len() == count_all(reg.replicas.take(m), test),
    decreases m,
{
    let f = model::entries_of();
    if m == 0 {
        assert(reg.replicas.take(0) =~= Seq::empty());
    } else {
        lemma_count_all(reg, m - 1, test);
        let r = reg.replicas[m - 1];
        assert(reg.replicas.take(m).drop_last() =~= reg.replicas.take(m - 1));
        assert(reg.replicas.take(m).last() == r);
        lemma_concat_append(
            seqs::concat_map(reg.replicas.take(m - 1), f),
            r.entries(),
            picked(test),
        );
        lemma_count_entries(r, r.clients.len() as int, test);
        assert(r.entries().take(r.clients.len() as int) =~= r.entries());
        assert(r.clients.take(r.clients.len() as int) =~= r.clients);
    }
}

/// The proxy clients that are listed are as many as there are, on each network too.
proof fn lemma_counts(reg: RegisteredView, net_id: u32)
    ensures
        reg.proxy_entries().len() == proxy_clients(reg),
        reg.net_users(net_id) == clients_on(reg, net_id),
{
    let one = |c: ClientView, ci: ClientInfoView| c.proxy is Some;
    let two = |c: ClientView, ci: ClientInfoView| c.proxy is Some && ci.net_id == net_id;
    let n = reg.replicas.len() as int;
    assert(reg.replicas.take(n) =~= reg.replicas);
    lemma_count_all(reg, n, one);
    lemma_count_all(reg, n, two);
    lemma_same_pick(reg.entries(), model::proxy_entry(), picked(one));
    lemma_pick_twice(reg.entries(), net_id);
}

proof fn lemma_same_pick(
    s: Seq<EntryView>,
    f: spec_fn(EntryView) -> Seq<EntryView>,
    g: spec_fn(EntryView) -> Seq<EntryView>,
)
    requires
        forall|e: EntryView| #[trigger] f(e) == g(e),
    ensures
        seqs::concat_map(s, f) == seqs::concat_map(s, g),
    decreases s.len(),
{
    if s.len() > 0 {
        lemma_same_pick(s.drop_last(), f, g);
        assert(f(s.last()) == g(s.last()));
    }
}

proof fn lemma_pick_twice(s: Seq<EntryView>, net_id: u32)
    ensures
        seqs::concat_map(
            seqs::concat_map(s, model::proxy_entry()),
            model::entry_on_net(net_id),
        ) == seqs::concat_map(
            s,
            picked(|c: ClientView, ci: ClientInfoView| c.proxy is Some && ci.net_id == net_id),
        ),
    decreases s.len(),
{
    let f = model::proxy_entry();
    let g = model::entry_on_net(net_id);
    let h = picked(|c: ClientView, ci: ClientInfoView| c.proxy is Some && ci.net_id == net_id);
    if s.len() > 0 {
        lemma_pick_twice(s.drop_last(), net_id);
        lemma_concat_append(seqs::concat_map(s.drop_last(), f), f(s.last()), g);
        let e = s.last();
        if e.client.proxy is Some {
            assert(f(e) == seq![e]);
            assert(seq![e].drop_last() =~= Seq::empty());
            assert(seqs::concat_map(seq![e], g) =~= g(e)) by {
                reveal_with_fuel(seqs::concat_map, 2);
            }
        } else {
            assert(f(e) =~= Seq::empty());
            assert(seqs::concat_map(f(e), g) =~= Seq::empty());
        }
        assert(seqs::concat_map(f(e), g) =~= h(e));
    }
}

/// A proxy client is connected to a replica of a service through a proxy, over a network that is set up.
pub open spec fn is_on_proxy(
    services: ServicesView,
    name: Seq<char>,
    ip: IpAddr,
    docker: Option<Seq<char>>,
    c: ClientView,
    proxy_ip: IpAddr,
) -> bool {
    &&& c.proxy == Some(proxy_ip)
    &&& connections::conn(services, name, ip, docker, c) matches Some(ci) && ci.net_id != 0
}

/// A further client behind a proxy shares a network exactly where it is not connected to the service, the
/// service's number of networks is limited, at least as many proxy clients are connected to it, and one of
/// them comes through the same proxy. It shares the network of such a one, and no such one's network has
/// fewer clients. In every other case a client that is not connected gets a chain of its own, where all
/// dependencies of the service run.
pub proof fn law_sharing(
    w: World,
    name: Seq<char>,
    proxy_ip: IpAddr,
    client: Seq<char>,
    now: nat,
)
    requires
        connections::services_wf(w.services),
        model::registered(w.services, name) is Some,
        model::registered(w.services, name)->0.config.timeout is Some,
        forall|ip: IpAddr, docker: Option<Seq<char>>| #[trigger]
            connections::conn(
                w.services,
                name,
                ip,
                docker,
                ClientView { name: client, proxy: Some(proxy_ip), replica: None },
            ) is None,
    ensures
        ({
            let reg = model::registered(w.services, name)->0;
            let reply = w.proxy_request(name, proxy_ip, client, now).1;
            let shares = (reg.config.max_networks matches Some(max) && proxy_clients(reg) >= max)
                && exists|ip: IpAddr, docker: Option<Seq<char>>, c: ClientView| #[trigger]
                is_on_proxy(w.services, name, ip, docker, c, proxy_ip);
            let runs = forall|k: int|
                0 <= k < reg.config.dependencies.len() ==> model::registered(
                    w.services,
                    #[trigger] reg.config.dependencies[k],
                ) is Some;
            &&& shares == (reply matches Ok(ProxyReplyView::Share(_)))
            &&& !shares ==> if runs {
                reply matches Ok(ProxyReplyView::Setup(_))
            } else {
                reply == Err::<ProxyReplyView, _>(RequestError::DependencyNotRegistered)
            }
            &&& reply matches Ok(ProxyReplyView::Share(network)) ==> {
                let e = network.entry;
                &&& is_on_proxy(w.services, name, e.ip, e.docker_container, e.client, proxy_ip)
                &&& connections::conn(w.services, name, e.ip, e.docker_container, e.client) == Some(
                    e.info,
                )
                &&& laws::port_at(w.services, name, e.ip, e.docker_container) == Some(e.port)
                &&& forall|ip: IpAddr, docker: Option<Seq<char>>, c: ClientView| #[trigger]
                    is_on_proxy(w.services, name, ip, docker, c, proxy_ip) ==> clients_on(
                        reg,
                        e.info.net_id,
                    ) <= clients_on(
                        reg,
                        connections::conn(w.services, name, ip, docker, c)->0.net_id,
                    )
            }
            &&& w.proxy_request(name, proxy_ip, client, now).0 == w
        }),
{
    let reg = model::registered(w.services, name)->0;
    let me = nullnet_grpc_impl::proxy_client(client, proxy_ip);
    connections::lemma_wf_of(w.services, name);
    connections::lemma_holds(reg, me);
    if reg.holds(me) {
        let r = reg.replicas[reg.holder(me)];
        assert(connections::conn(w.services, name, r.ip, r.docker_container, me) is Some);
    }
    assert(reg.upstream(me) is None);
    lemma_counts(reg, 0);
    lemma_least(reg);
    let r = reg.least()->0;
    lemma_edges(w.services, name, r.ip, r.docker_container, reg.config.dependencies);
    lemma_reusable(w.services, name, reg, proxy_ip);
}

/// What can be shared is a network of the proxy, one of those with the fewest clients.
proof fn lemma_reusable(services: ServicesView, name: Seq<char>, reg: RegisteredView, proxy_ip: IpAddr)
    requires
        connections::services_wf(services),
        model::registered(services, name) == Some(reg),
    ensures
        reg.reusable(proxy_ip) is Some == exists|
            ip: IpAddr,
            docker: Option<Seq<char>>,
            c: ClientView,
        | #[trigger]
            is_on_proxy(services, name, ip, docker, c, proxy_ip),
        reg.reusable(proxy_ip) matches Some(e) ==> {
            &&& is_on_proxy(services, name, e.ip, e.docker_container, e.client, proxy_ip)
            &&& connections::conn(services, name, e.ip, e.docker_container, e.client) == Some(e.info)
            &&& laws::port_at(services, name, e.ip, e.docker_container) == Some(e.port)
            &&& forall|ip: IpAddr, docker: Option<Seq<char>>, c: ClientView| #[trigger]
                is_on_proxy(services, name, ip, docker, c, proxy_ip) ==> clients_on(
                    reg,
                    e.info.net_id,
                ) <= clients_on(reg, connections::conn(services, name, ip, docker, c)->0.net_id)
        },
{
    if exists|ip: IpAddr, docker: Option<Seq<char>>, c: ClientView| #[trigger]
        is_on_proxy(services, name, ip, docker, c, proxy_ip) {
        let (ip, docker, c) = choose|ip: IpAddr, docker: Option<Seq<char>>, c: ClientView| #[trigger]
            is_on_proxy(services, name, ip, docker, c, proxy_ip);
        let j = lemma_is_listed(services, name, reg, proxy_ip, ip, docker, c);
        let i = lemma_some_least_used(reg, proxy_ip, reg.proxy_entries().len() as int, j);
        assert(reg.is_least_used(proxy_ip, i));
    }
    if let Some(e) = reg.reusable(proxy_ip) {
        let i = choose|i: int| reg.is_least_used(proxy_ip, i);
        assert(reg.is_least_used(proxy_ip, i));
        lemma_is_on_proxy(services, name, reg, proxy_ip, i);
        lemma_counts(reg, e.info.net_id);
        assert forall|ip: IpAddr, docker: Option<Seq<char>>, c: ClientView| #[trigger]
            is_on_proxy(services, name, ip, docker, c, proxy_ip) implies clients_on(
            reg,
            e.info.net_id,
        ) <= clients_on(reg, connections::conn(services, name, ip, docker, c)->0.net_id) by {
            let j = lemma_is_listed(services, name, reg, proxy_ip, ip, docker, c);
            lemma_counts(reg, connections::conn(services, name, ip, docker, c)->0.net_id);
        }
    }
}

/// A client on a proxy is listed among those whose network can be shared.
proof fn lemma_is_listed(
    services: ServicesView,
    name: Seq<char>,
    reg: RegisteredView,
    proxy_ip: IpAddr,
    ip: IpAddr,
    docker: Option<Seq<char>>,
    c: ClientView,
) -> (j: int)
    requires
        connections::services_wf(services),
        model::registered(services, name) == Some(reg),
        is_on_proxy(services, name, ip, docker, c, proxy_ip),
    ensures
        reg.is_reusable(proxy_ip, j),
        0 <= j < reg.proxy_entries().len(),
        Some(reg.proxy_entries()[j].info) == connections::conn(services, name, ip, docker, c),
{
    connections::lemma_wf_of(services, name);
    let all = reg.proxy_entries();
    let e = EntryView {
        client: c,
        info: connections::conn(services, name, ip, docker, c)->0,
        ip,
        docker_container: docker,
        port: reg.replicas[reg.replica_index(ip, docker)].port,
    };
    connections::lemma_entries(reg, e);
    let i = choose|i: int| 0 <= i < reg.entries().len() && reg.entries()[i] == e;
    assert(model::proxy_entry()(e)[0] == e);
    assert(model::proxy_entry()(reg.entries()[i]).contains(e));
    seqs::lemma_concat_map_has(reg.entries(), model::proxy_entry(), i, e);
    choose|j: int| 0 <= j < all.len() && all[j] == e
}

/// Who is listed among those whose network can be shared is on the proxy.
proof fn lemma_is_on_proxy(
    services: ServicesView,
    name: Seq<char>,
    reg: RegisteredView,
    proxy_ip: IpAddr,
    j: int,
)
    requires
        connections::services_wf(services),
        model::registered(services, name) == Some(reg),
        reg.is_reusable(proxy_ip, j),
    ensures
        ({
            let e = reg.proxy_entries()[j];
            &&& is_on_proxy(services, name, e.ip, e.docker_container, e.client, proxy_ip)
            &&& connections::conn(services, name, e.ip, e.docker_container, e.client) == Some(e.info)
            &&& laws::port_at(services, name, e.ip, e.docker_container) == Some(e.port)
        }),
{
    connections::lemma_wf_of(services, name);
    let all = reg.proxy_entries();
    let e = all[j];
    assert(all.contains(e));
    let i = seqs::lemma_concat_map_from(reg.entries(), model::proxy_entry(), e);
    let t = model::proxy_entry()(reg.entries()[i]);
    let m = choose|m: int| 0 <= m < t.len() && t[m] == e;
    assert(t.len() == 1 && m == 0);
    assert(reg.entries().contains(e));
    connections::lemma_entries(reg, e);
}

/// Of connections that can be shared one is the first on a least used network.
proof fn lemma_some_least_used(reg: RegisteredView, ip: IpAddr, m: int, j: int) -> (i: int)
    requires
        0 <= j < m <= reg.proxy_entries().len(),
        reg.is_reusable(ip, j),
    ensures
        0 <= i < m,
        reg.is_reusable(ip, i),
        forall|k: int|
            k < m && #[trigger] reg.is_reusable(ip, k) ==> reg.net_users(
                reg.proxy_entries()[i].info.net_id,
            ) <= reg.net_users(reg.proxy_entries()[k].info.net_id),
        forall|k: int|
            k < i && #[trigger] reg.is_reusable(ip, k) ==> reg.net_users(
                reg.proxy_entries()[i].info.net_id,
            ) < reg.net_users(reg.proxy_entries()[k].info.net_id),
    decreases m,
{
    let users = |k: int| reg.net_users(reg.proxy_entries()[k].info.net_id);
    if exists|k: int| 0 <= k < m - 1 && #[trigger] reg.is_reusable(ip, k) {
        let k = choose|k: int| 0 <= k < m - 1 && #[trigger] reg.is_reusable(ip, k);
        let i = lemma_some_least_used(reg, ip, m - 1, k);
        if reg.is_reusable(ip, m - 1) && users(m - 1) < users(i) {
            m - 1
        } else {
            i
        }
    } else {
        assert(j == m - 1);
        j
    }
}

/// A proxy request is refused exactly where the service is not configured, is no entry point or does not
/// run, each with its reason, in this order. A client that is connected is answered without a set-up.
pub proof fn law_proxy_refusals(
    w: World,
    name: Seq<char>,
    proxy_ip: IpAddr,
    client: Seq<char>,
    now: nat,
)
    requires
        connections::services_wf(w.services),
    ensures
        ({
            let reply = w.proxy_request(name, proxy_ip, client, now).1;
            let c = ClientView { name: client, proxy: Some(proxy_ip), replica: None };
            let connected = exists|ip: IpAddr, docker: Option<Seq<char>>| #[trigger]
                connections::conn(w.services, name, ip, docker, c) is Some;
            match laws::config_at(w.services, name) {
                None => reply == Err::<ProxyReplyView, _>(RequestError::ServiceNotFound),
                Some(config) => if config.timeout is None {
                    reply == Err::<ProxyReplyView, _>(RequestError::NotEntryPoint)
                } else if model::registered(w.services, name) is None {
                    reply == Err::<ProxyReplyView, _>(RequestError::NotRegistered)
                } else {
                    &&& connected == (reply matches Ok(ProxyReplyView::Ready(_)))
                    &&& reply matches Err(e) ==> e == RequestError::DependencyNotRegistered
                },
            }
        }),
{
    let c = nullnet_grpc_impl::proxy_client(client, proxy_ip);
    connections::lemma_wf_of(w.services, name);
    if let Some(reg) = model::registered(w.services, name) {
        connections::lemma_holds(reg, c);
        lemma_least(reg);
        if reg.holds(c) {
            let r = reg.replicas[reg.holder(c)];
            assert(connections::conn(w.services, name, r.ip, r.docker_container, c) is Some);
        } else {
            assert forall|ip: IpAddr, docker: Option<Seq<char>>| #[trigger]
                connections::conn(w.services, name, ip, docker, c) is None by {
                assert(connections::replica_conn(reg, ip, docker, c) is None);
            }
        }
    }
}

/// Trigger `i` of a service is the first for a port.
pub open spec fn is_trigger_for(triggers: Seq<model::TriggerView>, port: u16, i: int) -> bool {
    &&& 0 <= i < triggers.len()
    &&& triggers[i].port == port
    &&& forall|j: int| 0 <= j < i ==> (#[trigger] triggers[j]).port != port
}

/// A trigger is refused exactly where the service is not configured, is no entry point, does not run, has
/// no replica on the sender's host, or has no trigger for the port, or one without a chain; each with its
/// reason, in this order. Else it is answered by the chain of the first trigger for the port: where it has
/// to be set up, it leads from the service's first replica on the sender's host along the chain, in its
/// order, at each service over the replica with the fewest clients, and its first edge alone is marked as
/// the entry.
pub proof fn law_trigger_plan(
    w: World,
    name: Seq<char>,
    sender_ip: IpAddr,
    port: u16,
    now: nat,
)
    requires
        connections::services_wf(w.services),
    ensures
        ({
            let (after, reply) = w.backend_trigger(name, sender_ip, port, now);
            match laws::config_at(w.services, name) {
                None => reply == Err::<TriggerReplyView, _>(RequestError::InitiatorNotFound),
                Some(config) => if config.timeout is None {
                    reply == Err::<TriggerReplyView, _>(RequestError::InitiatorNotEntryPoint)
                } else {
                    match model::registered(w.services, name) {
                        None => reply == Err::<TriggerReplyView, _>(
                            RequestError::InitiatorNotRegistered,
                        ),
                        Some(reg) => if forall|i: int|
                            0 <= i < reg.replicas.len() ==> (#[trigger] reg.replicas[i]).ip
                                != sender_ip {
                            reply == Err::<TriggerReplyView, _>(RequestError::NoInitiatorReplica)
                        } else {
                            if forall|i: int|
                                #[trigger] is_trigger_for(config.triggers, port, i)
                                    ==> config.triggers[i].chain.len() == 0 {
                                reply == Err::<TriggerReplyView, _>(RequestError::NoDependencies)
                            } else {
                                match reply {
                                    Ok(TriggerReplyView::Refreshed) => true,
                                    Ok(TriggerReplyView::Setup(edges)) => exists|i: int, t: int|
                                        {
                                            &&& is_trigger_for(config.triggers, port, t)
                                            &&& #[trigger] is_first_replica_on(reg, sender_ip, i)
                                            &&& is_trigger_chain(
                                                w.services,
                                                edges,
                                                #[trigger] config.triggers[t].chain,
                                                name,
                                                reg.replicas[i].ip,
                                                reg.replicas[i].docker_container,
                                            )
                                        },
                                    Err(e) => e == RequestError::DependencyNotRegistered && exists|
                                        t: int,
                                        k: int,
                                    |
                                        is_trigger_for(config.triggers, port, t) && 0 <= k
                                            < config.triggers[t].chain.len() && model::registered(
                                            w.services,
                                            #[trigger] config.triggers[t].chain[k],
                                        ) is None,
                                }
                            }
                        },
                    }
                },
            }
        }),
{
    let (after, reply) = w.backend_trigger(name, sender_ip, port, now);
    if let Some(reg) = model::registered(w.services, name) {
        let triggers = reg.config.triggers;
        let chain = nullnet_grpc_impl::chain_for(triggers, port);
        let found = nullnet_grpc_impl::replica_on(reg, sender_ip);
        if exists|i: int| 0 <= i < reg.replicas.len() && (#[trigger] reg.replicas[i]).ip == sender_ip {
            let i = choose|i: int|
                0 <= i < reg.replicas.len() && (#[trigger] reg.replicas[i]).ip == sender_ip;
            lemma_some_first(reg, sender_ip, i);
        }
        if found is Some {
            let i = choose|i: int| nullnet_grpc_impl::is_first_on(reg, sender_ip, i);
            assert(nullnet_grpc_impl::is_first_on(reg, sender_ip, i));
            assert(is_first_replica_on(reg, sender_ip, i));
            assert(reg.replicas[i].ip == sender_ip);
            let r = reg.replicas[i];
            assert forall|t: int| #[trigger] is_trigger_for(triggers, port, t) implies chain
                == triggers[t].chain by {
                let k = choose|k: int| nullnet_grpc_impl::is_first_for(triggers, port, k);
                assert(nullnet_grpc_impl::is_first_for(triggers, port, t));
                assert(nullnet_grpc_impl::is_first_for(triggers, port, k));
                assert(k == t);
            }
            if chain.len() > 0 {
                let t = choose|t: int| nullnet_grpc_impl::is_first_for(triggers, port, t);
                assert(nullnet_grpc_impl::is_first_for(triggers, port, t));
                assert(is_trigger_for(triggers, port, t));
                lemma_edges(w.services, name, r.ip, r.docker_container, chain);
                let all = nullnet_grpc_impl::all_registered(
                    model::dependency_edges(name, r.ip, r.docker_container, chain, w.services),
                );
                match reply {
                    Ok(TriggerReplyView::Setup(edges)) => {
                        let plain = all->0;
                        assert forall|k: int| 0 <= k < edges.len() implies leads_on(
                            w.services,
                            edges,
                            chain,
                            k,
                            name,
                            r.ip,
                            r.docker_container,
                        ) && (#[trigger] edges[k]).is_backend_entry == (k == 0) by {
                            assert(leads_on(
                                w.services,
                                plain,
                                chain,
                                k,
                                name,
                                r.ip,
                                r.docker_container,
                            ) && !plain[k].is_backend_entry);
                        }
                        assert(triggers[t].chain == chain);
                        assert(is_trigger_chain(
                            w.services,
                            edges,
                            triggers[t].chain,
                            name,
                            r.ip,
                            r.docker_container,
                        ));
                    },
                    Err(e) => {
                        let k = choose|k: int|
                            0 <= k < chain.len() && model::registered(
                                w.services,
                                #[trigger] chain[k],
                            ) is None;
                        assert(triggers[t].chain[k] == chain[k]);
                    },
                    _ => {},
                }
            }
        }
    }
}

/// Replica `i` is the first of a service on a host.
pub open spec fn is_first_replica_on(reg: RegisteredView, ip: IpAddr, i: int) -> bool {
    &&& 0 <= i < reg.replicas.len()
    &&& reg.replicas[i].ip == ip
    &&& forall|j: int| 0 <= j < i ==> (#[trigger] reg.replicas[j]).ip != ip
}

/// Edges lead from a replica along a chain, and the first of them alone is marked as the entry.
pub open spec fn is_trigger_chain(
    services: ServicesView,
    edges: Seq<RegisteredEdgeView>,
    chain: Seq<Seq<char>>,
    name: Seq<char>,
    ip: IpAddr,
    docker: Option<Seq<char>>,
) -> bool {
    &&& edges.len() == chain.len()
    &&& forall|k: int|
        0 <= k < edges.len() ==> leads_on(services, edges, chain, k, name, ip, docker) && (
        #[trigger] edges[k]).is_backend_entry == (k == 0)
}

proof fn lemma_some_first(reg: RegisteredView, ip: IpAddr, i: int)
    requires
        0 <= i < reg.replicas.len(),
        reg.replicas[i].ip == ip,
    ensures
        nullnet_grpc_impl::replica_on(reg, ip) is Some,
    decreases i,
{
    if exists|j: int| 0 <= j < i && (#[trigger] reg.replicas[j]).ip == ip {
        let j = choose|j: int| 0 <= j < i && (#[trigger] reg.replicas[j]).ip == ip;
        lemma_some_first(reg, ip, j);
    } else {
        assert(nullnet_grpc_impl::is_first_on(reg, ip, i));
    }
}

} // verus!
