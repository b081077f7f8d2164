//! Requests are served, and what serves them is taken down again.
use crate::addr::{IpAddr, Ipv4Addr};
use crate::chain_laws;
use crate::chain_laws::Spot;
use crate::chain_setup;
use crate::chain_setup::{OutcomeView, ProgressView};
use crate::nullnet_grpc_impl;
use crate::nullnet_grpc_impl::{ProxyChainView, ProxyReplyView, RequestError, TriggerReplyView};
use crate::orchestrator;
use crate::seqs;
use crate::services::clients::ClientView;
use crate::services::connections;
use crate::services::edge::RegisteredEdgeView;
use crate::services::laws;
use crate::services::model;
use crate::services::model::{
    EntryView, RegisteredView, ReplicaView, ServiceView, ServicesView, UpstreamView,
};
use crate::services::world;
use crate::services::world::{ChainEdge, ChainHop, ChangeView, FilterView, NodeView, World};
use crate::setup_laws;
use vstd::prelude::*;

verus! {

/// Up to an identifier all are in use, or the lowest free one is found.
proof fn lemma_scan(net_ids: Seq<u32>, n: nat)
    requires
        n <= orchestrator::MAX_NET_ID,
    ensures
        (forall|j: u32| 1 <= j <= n ==> #[trigger] net_ids.contains(j)) || exists|id: u32|
            orchestrator::is_lowest_free(net_ids, id),
    decreases n,
{
    if n > 0 {
        lemma_scan(net_ids, (n - 1) as nat);
        let id = n as u32;
        if !net_ids.contains(id) && !exists|id: u32| orchestrator::is_lowest_free(net_ids, id) {
            assert(orchestrator::is_lowest_free(net_ids, id));
        }
    }
}

/// Where fewer identifiers are in use than there are, one is free.
proof fn lemma_one_free(net_ids: Seq<u32>)
    requires
        net_ids.len() < orchestrator::MAX_NET_ID,
    ensures
        orchestrator::lowest_free(net_ids) is Some,
{
    lemma_scan(net_ids, orchestrator::MAX_NET_ID as nat);
    if !exists|id: u32| orchestrator::is_lowest_free(net_ids, id) {
        let all = Seq::new(orchestrator::MAX_NET_ID as nat, |i: int| (i + 1) as u32);
        assert forall|k: int| 0 <= k < all.len() implies net_ids.contains(#[trigger] all[k]) by {
            assert(1 <= all[k] <= orchestrator::MAX_NET_ID);
        }
        assert(all.no_duplicates());
        seqs::lemma_no_more(all, net_ids);
    }
}

/// The server of an edge runs, and the hosts at both ends can be reached.
pub open spec fn is_reached(w: World, edge: RegisteredEdgeView) -> bool {
    &&& model::registered(w.services, edge.server_name()) is Some
    &&& w.orch.clients.contains(edge.server.0)
    &&& w.orch.clients.contains(edge.client.0)
}

/// An edge that was opened has not failed and has an address at each end.
spec fn is_under_way(progress: ProgressView) -> bool {
    match progress {
        ProgressView::Finished(outcome) => outcome is Success,
        ProgressView::Pending(p) => p.server_addr is Some && p.client_addr is Some,
    }
}

/// No edge of a chain fails to open whose hosts can be reached, where identifiers are left.
proof fn lemma_all_under_way(
    w: World,
    edges: Seq<RegisteredEdgeView>,
    msgs: Seq<(Seq<char>, Seq<char>)>,
    now: nat,
)
    requires
        connections::services_wf(w.services),
        w.orch.net_ids.no_duplicates(),
        chain_laws::is_linked(w.services, edges),
        forall|i: int| 0 <= i < edges.len() ==> is_reached(w, #[trigger] edges[i]),
        w.orch.net_ids.len() + edges.len() <= orchestrator::MAX_NET_ID,
    ensures
        ({
            let (v, progress) = chain_setup::open_all(w, edges, msgs, now);
            &&& progress.len() == edges.len()
            &&& v.orch.clients == w.orch.clients
            &&& v.orch.net_ids.len() <= w.orch.net_ids.len() + edges.len()
            &&& forall|i: int| 0 <= i < edges.len() ==> is_under_way(#[trigger] progress[i])
        }),
    decreases edges.len(),
{
    if edges.len() > 0 {
        let front = edges.drop_last();
        let last = edges.last();
        let n = front.len() as int;
        assert(edges[n] == last);
        assert forall|i: int| 0 <= i < front.len() implies chain_laws::is_ready(
            w.services,
            #[trigger] front[i],
        ) && is_reached(w, front[i]) by {
            assert(front[i] == edges[i]);
        }
        assert(chain_laws::is_linked(w.services, front));
        lemma_all_under_way(w, front, msgs, now);
        chain_laws::lemma_all_opened(w, front, msgs, now);
        let (v, progress) = chain_setup::open_all(w, front, msgs, now);
        let s = chain_laws::spot(last);
        assert(chain_laws::is_ready(w.services, last));
        assert(is_reached(w, last));
        assert(laws::port_at(v.services, s.name, s.ip, s.docker) == laws::port_at(
            w.services,
            s.name,
            s.ip,
            s.docker,
        ));
        lemma_one_free(v.orch.net_ids);
        let (x, all) = chain_setup::open_all(w, edges, msgs, now);
        assert(all == progress.push(all[n]));
        assert forall|i: int| 0 <= i < edges.len() implies is_under_way(#[trigger] all[i]) by {
            if i < n {
                assert(all[i] == progress[i]);
            }
        }
    }
}

/// No edge of a chain fails whose hosts acknowledge.
proof fn lemma_all_acknowledged(
    w: World,
    edges: Seq<RegisteredEdgeView>,
    v: World,
    progress: Seq<ProgressView>,
    acks: Seq<(bool, bool)>,
    opened: nat,
    finished: nat,
    m: int,
)
    requires
        chain_laws::is_linked(w.services, edges),
        chain_laws::all_opened(w, edges, opened, v, progress),
        0 <= m <= edges.len(),
        forall|i: int| 0 <= i < edges.len() ==> is_under_way(#[trigger] progress[i]),
        forall|i: int| 0 <= i < edges.len() ==> #[trigger] acks[i] == (true, true),
    ensures
        ({
            let (u, outcomes) = chain_setup::finish_all(v, progress.take(m), acks, finished);
            &&& outcomes.len() == m
            &&& forall|i: int| 0 <= i < m ==> (#[trigger] outcomes[i]) is Success
        }),
    decreases m,
{
    if m > 0 {
        let n = m - 1;
        lemma_all_acknowledged(w, edges, v, progress, acks, opened, finished, n);
        chain_laws::lemma_all_finished(w, edges, v, progress, acks, opened, finished, n);
        let (u, outcomes) = chain_setup::finish_all(v, progress.take(n), acks, finished);
        assert(progress.take(m).drop_last() =~= progress.take(n));
        assert(progress.take(m).last() == progress[n]);
        assert(is_under_way(progress[n]));
        assert(chain_laws::fits(chain_laws::at(w.services, chain_laws::spot(edges[n])), edges[n], progress[n]));
        assert(acks[n] == (true, true));
        let s = chain_laws::spot(edges[n]);
        assert(chain_laws::is_ready(w.services, edges[n]));
        assert(laws::port_at(u.services, s.name, s.ip, s.docker) == laws::port_at(
            w.services,
            s.name,
            s.ip,
            s.docker,
        ));
        let (x, all) = chain_setup::finish_all(v, progress.take(m), acks, finished);
        assert(all == outcomes.push(all[n]));
        assert forall|i: int| 0 <= i < m implies (#[trigger] all[i]) is Success by {
            if i < n {
                assert(all[i] == outcomes[i]);
            }
        }
    }
}

/// A chain is set up whose hosts can all be reached and acknowledge, as long as identifiers are left:
/// one more chain runs over each of its edges.
pub proof fn law_chain_set_up(
    w: World,
    edges: Seq<RegisteredEdgeView>,
    msgs: Seq<(Seq<char>, Seq<char>)>,
    acks: Seq<(bool, bool)>,
    opened: nat,
    finished: nat,
)
    requires
        connections::services_wf(w.services),
        w.orch.net_ids.no_duplicates(),
        chain_laws::is_linked(w.services, edges),
        forall|i: int| 0 <= i < edges.len() ==> is_reached(w, #[trigger] edges[i]),
        forall|i: int| 0 <= i < edges.len() ==> #[trigger] acks[i] == (true, true),
        w.orch.net_ids.len() + edges.len() <= orchestrator::MAX_NET_ID,
    ensures
        ({
            let (u, result) = w.set_up_chain(edges, msgs, acks, opened, finished);
            &&& result is Ok
            &&& chain_laws::is_counted(w, edges, Seq::new(edges.len(), |i: int| true), u)
        }),
{
    let (v, progress) = chain_setup::open_all(w, edges, msgs, opened);
    let (u, outcomes) = chain_setup::finish_all(v, progress, acks, finished);
    let n = edges.len() as int;
    lemma_all_under_way(w, edges, msgs, opened);
    chain_laws::lemma_all_opened(w, edges, msgs, opened);
    lemma_all_acknowledged(w, edges, v, progress, acks, opened, finished, n);
    assert(progress.take(n) =~= progress);
    chain_laws::law_edges_counted(w, edges, msgs, acks, opened, finished);
    assert(chain_laws::successes(outcomes) =~= Seq::new(edges.len(), |i: int| true));
    assert(!outcomes.contains(OutcomeView::Failed)) by {
        if outcomes.contains(OutcomeView::Failed) {
            let i = choose|i: int| 0 <= i < outcomes.len() && outcomes[i] == OutcomeView::Failed;
            assert(outcomes[i] is Success);
        }
    }
}

/// The first address of a new proxy client is that of an outcome.
proof fn lemma_first_upstream(outcomes: Seq<OutcomeView>, addr: Ipv4Addr) -> (i: int)
    requires
        chain_setup::first_upstream(outcomes) == Some(addr),
    ensures
        0 <= i < outcomes.len(),
        outcomes[i] is Success,
        outcomes[i]->Success_0.proxy_upstream == Some(addr),
    decreases outcomes.len(),
{
    if outcomes[0] is Success && outcomes[0]->Success_0.proxy_upstream is Some {
        0
    } else {
        let i = lemma_first_upstream(outcomes.drop_first(), addr);
        i + 1
    }
}

/// An outcome with the address of a new proxy client makes for a first such address.
proof fn lemma_some_upstream(outcomes: Seq<OutcomeView>, i: int)
    requires
        0 <= i < outcomes.len(),
        outcomes[i] is Success,
        outcomes[i]->Success_0.proxy_upstream is Some,
    ensures
        chain_setup::first_upstream(outcomes) is Some,
    decreases outcomes.len(),
{
    if !(outcomes[0] is Success && outcomes[0]->Success_0.proxy_upstream is Some) {
        assert(outcomes.drop_first()[i - 1] == outcomes[i]);
        lemma_some_upstream(outcomes.drop_first(), i - 1);
    }
}

/// Where a chain from a replica of service `name` passes after `k` dependencies.
pub open spec fn chain_node(
    services: ServicesView,
    name: Seq<char>,
    ip: IpAddr,
    docker: Option<Seq<char>>,
    deps: Seq<Seq<char>>,
    k: int,
) -> NodeView {
    if k == 0 {
        NodeView { name, ip, docker }
    } else {
        let hop = model::hop(services, deps[k - 1]);
        NodeView { name: deps[k - 1], ip: hop.1->0, docker: hop.2 }
    }
}

/// The edges of the chain for a proxy client: from node to node, and last the client's own.
proof fn lemma_proxy_chain(
    services: ServicesView,
    reg: RegisteredView,
    name: Seq<char>,
    proxy_ip: IpAddr,
    client: Seq<char>,
    chain: ProxyChainView,
)
    requires
        connections::services_wf(services),
        model::registered(services, name) == Some(reg),
        nullnet_grpc_impl::proxy_chain(services, reg, name, proxy_ip, client) == Ok::<
            _,
            RequestError,
        >(chain),
    ensures
        reg.least() is Some,
        ({
            let r = reg.least()->0;
            let deps = reg.config.dependencies;
            &&& laws::port_at(services, name, r.ip, r.docker_container) == Some(chain.port)
            &&& chain.edges.len() == deps.len() + 1
            &&& chain.edges[deps.len() as int] == nullnet_grpc_impl::proxy_edge(
                name,
                proxy_ip,
                client,
                r.ip,
                r.docker_container,
            )
            &&& forall|k: int|
                0 <= k < deps.len() ==> {
                    let to = chain_node(services, name, r.ip, r.docker_container, deps, k + 1);
                    &&& (#[trigger] chain.edges[k]).client.1 == chain_node(
                        services,
                        name,
                        r.ip,
                        r.docker_container,
                        deps,
                        k,
                    ).client()
                    &&& chain_laws::spot(chain.edges[k]) == Spot {
                        name: deps[k],
                        ip: to.ip,
                        docker: to.docker,
                        client: chain.edges[k].client.1,
                    }
                }
        }),
{
    connections::lemma_wf_of(services, name);
    let r = reg.least()->0;
    let i = choose|i: int| reg.is_least(i);
    assert(reg.is_least(i));
    connections::lemma_index(reg, i);
    let deps = reg.config.dependencies;
    let edges = model::dependency_edges(name, r.ip, r.docker_container, deps, services);
    assert forall|k: int| 0 <= k < deps.len() implies {
        let to = chain_node(services, name, r.ip, r.docker_container, deps, k + 1);
        &&& (#[trigger] chain.edges[k]).client.1 == chain_node(
            services,
            name,
            r.ip,
            r.docker_container,
            deps,
            k,
        ).client()
        &&& chain_laws::spot(chain.edges[k]) == Spot {
            name: deps[k],
            ip: to.ip,
            docker: to.docker,
            client: chain.edges[k].client.1,
        }
    } by {
        assert(edges[k].registered() is Some);
        assert(chain.edges[k] == edges[k].registered()->0);
    }
}

/// A request for a service that can be reached is served: where it takes a chain whose hosts can all
/// be reached and acknowledge, and identifiers are left, the chain is set up, and the same client is
/// answered with the address that the set-up gave from then on.
pub proof fn law_request_served(
    w: World,
    name: Seq<char>,
    proxy_ip: IpAddr,
    client: Seq<char>,
    now: nat,
    chain: ProxyChainView,
    msgs: Seq<(Seq<char>, Seq<char>)>,
    acks: Seq<(bool, bool)>,
    opened: nat,
    finished: nat,
    later: nat,
)
    requires
        connections::services_wf(w.services),
        w.orch.net_ids.no_duplicates(),
        w.proxy_request(name, proxy_ip, client, now).1 == Ok::<_, RequestError>(
            ProxyReplyView::Setup(chain),
        ),
        chain_laws::is_linked(w.services, chain.edges),
        forall|i: int| 0 <= i < chain.edges.len() ==> is_reached(w, #[trigger] chain.edges[i]),
        forall|i: int| 0 <= i < chain.edges.len() ==> #[trigger] acks[i] == (true, true),
        w.orch.net_ids.len() + chain.edges.len() <= orchestrator::MAX_NET_ID,
    ensures
        ({
            let (u, result) = w.set_up_chain(chain.edges, msgs, acks, opened, finished);
            match result {
                Ok(Some(addr)) => u.proxy_request(name, proxy_ip, client, later).1 == Ok::<
                    _,
                    RequestError,
                >(
                    ProxyReplyView::Ready(
                        UpstreamView { ip: addr.dotted(), port: chain.port as u32 },
                    ),
                ),
                _ => false,
            }
        }),
{
    let edges = chain.edges;
    let reg = model::registered(w.services, name)->0;
    let c = nullnet_grpc_impl::proxy_client(client, proxy_ip);
    lemma_proxy_chain(w.services, reg, name, proxy_ip, client, chain);
    let n = reg.config.dependencies.len() as int;
    let r = reg.least()->0;
    let s = chain_laws::spot(edges[n]);
    law_chain_set_up(w, edges, msgs, acks, opened, finished);
    let (v, progress) = chain_setup::open_all(w, edges, msgs, opened);
    let (u, outcomes) = chain_setup::finish_all(v, progress, acks, finished);
    lemma_all_under_way(w, edges, msgs, opened);
    chain_laws::lemma_all_opened(w, edges, msgs, opened);
    lemma_all_acknowledged(w, edges, v, progress, acks, opened, finished, n + 1);
    chain_laws::lemma_all_finished(w, edges, v, progress, acks, opened, finished, n + 1);
    assert(progress.take(n + 1) =~= progress);
    // the client was not connected, so that its edge is new
    connections::lemma_wf_of(w.services, name);
    assert(chain_laws::is_ready(w.services, edges[n]));
    chain_laws::lemma_found(w.services, s);
    assert(chain_laws::at(w.services, s) is None);
    assert(chain_laws::fits(chain_laws::at(w.services, s), edges[n], progress[n]));
    assert(is_under_way(progress[n]));
    assert(outcomes[n] is Success);
    assert(chain_laws::ends(edges[n], progress[n], outcomes[n]));
    let p = progress[n]->Pending_0;
    assert(outcomes[n]->Success_0.proxy_upstream == p.server_addr);
    lemma_some_upstream(outcomes, n);
    let addr = chain_setup::first_upstream(outcomes)->0;
    let k = lemma_first_upstream(outcomes, addr);
    if k < n {
        assert(edges[k].client.1.proxy is None);
        assert(chain_laws::fits(chain_laws::at(w.services, chain_laws::spot(edges[k])), edges[k], progress[k]));
        assert(chain_laws::ends(edges[k], progress[k], outcomes[k]));
    }
    assert(chain_laws::at(u.services, s) == chain_laws::finished_at(
        chain_laws::at(w.services, s),
        progress[n],
        outcomes[n],
        opened,
        finished,
    ));
    assert(laws::config_at(u.services, name) == laws::config_at(w.services, name));
    assert(laws::port_at(u.services, name, s.ip, s.docker) == laws::port_at(
        w.services,
        name,
        s.ip,
        s.docker,
    ));
    setup_laws::lemma_answered(u, name, proxy_ip, client, s.ip, s.docker, later);
}

/// The edges of a chain as it was planned: each leads from a node to the next.
spec fn is_planned(
    services: ServicesView,
    name: Seq<char>,
    ip: IpAddr,
    docker: Option<Seq<char>>,
    deps: Seq<Seq<char>>,
    edges: Seq<RegisteredEdgeView>,
) -> bool {
    forall|k: int|
        0 <= k < deps.len() ==> {
            let to = chain_node(services, name, ip, docker, deps, k + 1);
            &&& (#[trigger] edges[k]).client.1 == chain_node(
                services,
                name,
                ip,
                docker,
                deps,
                k,
            ).client()
            &&& chain_laws::spot(edges[k]) == Spot {
                name: deps[k],
                ip: to.ip,
                docker: to.docker,
                client: edges[k].client.1,
            }
        }
}

/// A chain that was set up is connected as it was planned.
proof fn lemma_connected_as_planned(
    w: World,
    start: ServicesView,
    name: Seq<char>,
    ip: IpAddr,
    docker: Option<Seq<char>>,
    deps: Seq<Seq<char>>,
    edges: Seq<RegisteredEdgeView>,
    oks: Seq<bool>,
    u: World,
)
    requires
        chain_laws::is_linked(w.services, edges),
        chain_laws::is_single(w.services, edges),
        deps.len() <= edges.len(),
        is_planned(start, name, ip, docker, deps, edges),
        chain_laws::is_counted(w, edges, oks, u),
        forall|i: int| 0 <= i < edges.len() ==> #[trigger] oks[i],
    ensures
        forall|k: int|
            0 <= k < deps.len() ==> world::connection(
                u.services,
                chain_node(start, name, ip, docker, deps, k).client(),
                #[trigger] deps[k],
            ) == Some(chain_node(start, name, ip, docker, deps, k + 1)),
{
    assert forall|k: int| 0 <= k < deps.len() implies world::connection(
        u.services,
        chain_node(start, name, ip, docker, deps, k).client(),
        #[trigger] deps[k],
    ) == Some(chain_node(start, name, ip, docker, deps, k + 1)) by {
        let s = chain_laws::spot(edges[k]);
        assert(oks[k]);
        assert(chain_laws::counted(chain_laws::at(w.services, s), chain_laws::at(u.services, s)));
        chain_laws::lemma_still_only(w, edges, u, k);
        chain_laws::lemma_found(u.services, s);
    }
}

/// A chain that was set up stands as it was planned.
proof fn lemma_stands(
    w: World,
    start: ServicesView,
    name: Seq<char>,
    ip: IpAddr,
    docker: Option<Seq<char>>,
    deps: Seq<Seq<char>>,
    edges: Seq<RegisteredEdgeView>,
    oks: Seq<bool>,
    u: World,
)
    requires
        chain_laws::is_linked(w.services, edges),
        chain_laws::is_single(w.services, edges),
        deps.len() <= edges.len(),
        is_planned(start, name, ip, docker, deps, edges),
        chain_laws::is_counted(w, edges, oks, u),
        forall|i: int| 0 <= i < edges.len() ==> #[trigger] oks[i],
    ensures
        ({
            let pairs = world::linear_edges(u.services, NodeView { name, ip, docker }, deps);
            &&& pairs =~= Seq::new(deps.len(), |k: int| chain_laws::pair(edges[k]))
            &&& pairs.no_duplicates()
            &&& forall|k: int|
                0 <= k < pairs.len() ==> chain_laws::is_own(edges, oks, #[trigger] pairs[k])
        }),
{
    lemma_connected_as_planned(w, start, name, ip, docker, deps, edges, oks, u);
    lemma_linear(u.services, start, name, ip, docker, deps, 0);
    assert(deps.skip(0) =~= deps);
    let pairs = world::linear_edges(u.services, NodeView { name, ip, docker }, deps);
    assert forall|k: int| 0 <= k < deps.len() implies (#[trigger] pairs[k]) == chain_laws::pair(
        edges[k],
    ) by {}
    assert forall|a: int, b: int| 0 <= a < b < pairs.len() implies pairs[a] != pairs[b] by {
        assert(chain_laws::pair(edges[a]) != chain_laws::pair(edges[b]));
    }
    assert forall|k: int| 0 <= k < pairs.len() implies chain_laws::is_own(
        edges,
        oks,
        #[trigger] pairs[k],
    ) by {
        assert(oks[k] && chain_laws::pair(edges[k]) == pairs[k]);
    }
}

/// The step of a chain from node `k` to the next.
spec fn step_at(
    start: ServicesView,
    name: Seq<char>,
    ip: IpAddr,
    docker: Option<Seq<char>>,
    deps: Seq<Seq<char>>,
    k: int,
) -> ChainEdge {
    (chain_node(start, name, ip, docker, deps, k).client(), deps[k])
}

/// The one connection of a proxy client is what its filter selects.
pub(crate) proof fn lemma_one_entry(
    reg: RegisteredView,
    c: ClientView,
    ip: IpAddr,
    docker: Option<Seq<char>>,
) -> (e: EntryView)
    requires
        connections::registered_wf(reg),
        c.proxy is Some,
        connections::replica_conn(reg, ip, docker, c) is Some,
    ensures
        seqs::concat_map(reg.entries(), FilterView::ByClient(c).selected()) == seq![e],
        e.client == c,
        e.ip == ip,
        e.docker_container == docker,
        Some(e.info) == connections::replica_conn(reg, ip, docker, c),
{
    let filter = FilterView::ByClient(c);
    let all = seqs::concat_map(reg.entries(), filter.selected());
    let e = EntryView {
        client: c,
        info: connections::replica_conn(reg, ip, docker, c)->0,
        ip,
        docker_container: docker,
        port: reg.replicas[reg.replica_index(ip, docker)].port,
    };
    connections::lemma_entries(reg, e);
    laws::lemma_selected(reg, filter, e);
    assert(all.contains(e));
    connections::lemma_entries_distinct(reg);
    assert forall|x: EntryView| #[trigger] filter.selected()(x) == seq![x] || filter.selected()(x)
        == Seq::<EntryView>::empty() by {}
    seqs::lemma_some_distinct(reg.entries(), filter.selected());
    laws::lemma_one_place(reg, c, ip, docker);
    assert forall|k: int| 0 <= k < all.len() implies #[trigger] all[k] == e by {
        let x = all[k];
        assert(all.contains(x));
        laws::lemma_selected(reg, filter, x);
        connections::lemma_entries(reg, x);
        laws::lemma_one_place(reg, c, x.ip, x.docker_container);
        assert(x =~= e);
    }
    if all.len() > 1 {
        assert(all[0] == all[1]);
    }
    assert(all =~= seq![e]);
    e
}

/// What is set up for a client is taken down when it times out: a chain that was set up for a proxy
/// client leaves nothing behind. Connections, chains over them and networks in use are as before the
/// set-up. No client on the way was connected to another replica of the service that it leads to.
pub proof fn law_chain_round_trip(
    w: World,
    name: Seq<char>,
    proxy_ip: IpAddr,
    client: Seq<char>,
    now: nat,
    chain: ProxyChainView,
    msgs: Seq<(Seq<char>, Seq<char>)>,
    acks: Seq<(bool, bool)>,
    opened: nat,
    finished: nat,
)
    requires
        connections::services_wf(w.services),
        w.orch.net_ids.no_duplicates(),
        w.proxy_request(name, proxy_ip, client, now).1 == Ok::<_, RequestError>(
            ProxyReplyView::Setup(chain),
        ),
        chain_laws::is_linked(w.services, chain.edges),
        chain_laws::is_single(w.services, chain.edges),
        w.set_up_chain(chain.edges, msgs, acks, opened, finished).1 is Ok,
    ensures
        chain_laws::is_restored(
            w,
            w.set_up_chain(chain.edges, msgs, acks, opened, finished).0.apply(
                ChangeView::ProxyClientTimedOut {
                    name,
                    client: nullnet_grpc_impl::proxy_client(client, proxy_ip),
                },
            ),
        ),
{
    let edges = chain.edges;
    let reg = model::registered(w.services, name)->0;
    let r = reg.least()->0;
    let deps = reg.config.dependencies;
    let n = deps.len() as int;
    let c = nullnet_grpc_impl::proxy_client(client, proxy_ip);
    lemma_proxy_chain(w.services, reg, name, proxy_ip, client, chain);
    chain_laws::law_edges_counted(w, edges, msgs, acks, opened, finished);
    let (v, progress) = chain_setup::open_all(w, edges, msgs, opened);
    let (u, outcomes) = chain_setup::finish_all(v, progress, acks, finished);
    assert(u == w.set_up_chain(edges, msgs, acks, opened, finished).0);
    let oks = chain_laws::successes(outcomes);
    assert forall|i: int| 0 <= i < edges.len() implies #[trigger] oks[i] by {
        if outcomes[i] is Failed {
            assert(outcomes.contains(OutcomeView::Failed));
        }
    }
    let node = NodeView { name, ip: r.ip, docker: r.docker_container };
    lemma_stands(w, w.services, name, r.ip, r.docker_container, deps, edges, oks, u);
    let pairs = world::linear_edges(u.services, node, deps);
    chain_laws::lemma_undone(w, edges, oks, u, pairs);
    let y = u.teardown_dep_chain(node);
    assert(laws::config_at(u.services, name) == laws::config_at(w.services, name));
    assert(y == seqs::fold(u, pairs, world::decrement_edge())) by {
        reveal(World::teardown_dep_chain);
    }
    // the client's own connection is not on the way
    if pairs.contains(chain_laws::pair(edges[n])) {
        laws::lemma_linear_clients(u.services, node, deps, chain_laws::pair(edges[n]));
    }
    assert forall|i: int| 0 <= i < deps.len() implies pairs.contains(
        chain_laws::pair(#[trigger] edges[i]),
    ) by {
        assert(pairs[i] == chain_laws::pair(edges[i]));
    }
    assert(chain_laws::is_ready(w.services, edges[n]));
    chain_laws::lemma_found(w.services, chain_laws::spot(edges[n]));
    lemma_last_taken_down(w, edges, oks, u, pairs, y, name, node, c);
}

/// The chain of a client after its dependencies were taken down: the client's own connection is left,
/// and goes last.
proof fn lemma_last_taken_down(
    w: World,
    edges: Seq<RegisteredEdgeView>,
    oks: Seq<bool>,
    u: World,
    pairs: Seq<ChainEdge>,
    y: World,
    name: Seq<char>,
    node: NodeView,
    c: ClientView,
)
    requires
        chain_laws::is_linked(w.services, edges),
        chain_laws::is_counted(w, edges, oks, u),
        forall|i: int| 0 <= i < edges.len() ==> #[trigger] oks[i],
        chain_laws::is_undone(w, edges, oks, u, chain_laws::among(edges, pairs), y),
        edges.len() > 0,
        c.proxy is Some,
        node.name == name,
        chain_laws::spot(edges[edges.len() - 1]) == (Spot {
            name,
            ip: node.ip,
            docker: node.docker,
            client: c,
        }),
        chain_laws::at(w.services, chain_laws::spot(edges[edges.len() - 1])) is None,
        !pairs.contains(chain_laws::pair(edges[edges.len() - 1])),
        forall|i: int|
            0 <= i < edges.len() - 1 ==> pairs.contains(chain_laws::pair(#[trigger] edges[i])),
        y == u.teardown_dep_chain(node),
    ensures
        chain_laws::is_restored(w, u.apply(ChangeView::ProxyClientTimedOut { name, client: c })),
{
    let n = edges.len() - 1;
    let s = chain_laws::spot(edges[n]);
    let x = u.apply(ChangeView::ProxyClientTimedOut { name, client: c });
    let filter = FilterView::ByClient(c);
    reveal(World::apply);
    assert(x == u.teardown_chain(name, filter));
    laws::lemma_teardown_chain_reduced(u, name, filter);
    laws::law_teardown_keeps_shape(u, name, filter);
    assert(oks[n]);
    assert(chain_laws::counted(chain_laws::at(w.services, s), chain_laws::at(u.services, s)));
    assert(chain_laws::at(y.services, s) == chain_laws::at(u.services, s));
    let reg = model::registered(u.services, name)->0;
    connections::lemma_wf_of(u.services, name);
    let e = lemma_one_entry(reg, c, s.ip, s.docker);
    let entries = seqs::concat_map(reg.entries(), filter.selected());
    assert(e.info == chain_laws::at(u.services, s)->0);
    lemma_fold_one(u, e, world::take_down_deps(name));
    assert(seqs::fold(u, entries, world::take_down_deps(name)) == y) by {
        assert(node =~= NodeView { name, ip: e.ip, docker: e.docker_container });
    }
    lemma_fold_one(y.orch, e, world::take_down_net());
    let orch = seqs::fold(y.orch, entries, world::take_down_net());
    assert(orch.net_ids == seqs::without(y.orch.net_ids, e.info.net_id));
    let reg1 = model::registered(y.services, name)->0;
    chain_laws::lemma_still_only(w, edges, y, n);
    chain_laws::lemma_found(y.services, s);
    connections::lemma_wf_of(y.services, name);
    lemma_fold_one(reg1, e, world::disconnect());
    connections::lemma_without_client(reg1, c);
    let next = reg1.without_client(c);
    reveal(World::teardown_chain);
    assert(x == World { orch, ..y }.with_service(name, ServiceView::Registered(next)));
    assert forall|q: Spot| #[trigger]
        chain_laws::at(x.services, q) == (if q == s {
            None
        } else {
            chain_laws::at(y.services, q)
        }) by {
        laws::lemma_put_registered(y.services, name, ServiceView::Registered(next), q.name);
        if q.name == s.name && q.ip == s.ip && q.docker == s.docker && q.client == s.client {
            assert(q =~= s);
        }
    }
    assert forall|q: Spot| chain_laws::is_same(chain_laws::at(w.services, q), #[trigger] chain_laws::at(x.services, q)) by {
        if q != s {
            assert(chain_laws::at(x.services, q) == chain_laws::at(y.services, q));
            if chain_laws::on_chain(edges, q) {
                let i = choose|i: int| 0 <= i < edges.len() && chain_laws::spot(#[trigger] edges[i]) == q;
                assert(i < n && oks[i] && pairs.contains(chain_laws::pair(edges[i])));
                assert(chain_laws::is_same(chain_laws::at(w.services, chain_laws::spot(edges[i])), chain_laws::at(y.services, chain_laws::spot(edges[i]))));
            }
        }
    }
    laws::lemma_without_contains(y.orch.net_ids, e.info.net_id);
    assert(chain_laws::is_new(w, edges, oks, u, n, e.info.net_id));
    let done = chain_laws::among(edges, pairs);
    assert forall|id: u32| #[trigger]
        x.orch.net_ids.contains(id) == w.orch.net_ids.contains(id) by {
        assert(y.orch.net_ids.contains(id) == (w.orch.net_ids.contains(id) || chain_laws::is_left(
            w,
            edges,
            oks,
            u,
            done,
            id,
        )));
        if chain_laws::is_left(w, edges, oks, u, done, id) {
            let i = choose|i: int| #[trigger]
                chain_laws::is_new(w, edges, oks, u, i, id) && !done(i);
            assert(i == n);
        }
    }
    assert forall|q: Seq<char>| #[trigger]
        laws::config_at(x.services, q) == laws::config_at(w.services, q) by {
        assert(laws::config_at(u.services, q) == laws::config_at(w.services, q));
    }
    assert forall|q: Seq<char>, ip: IpAddr, docker: Option<Seq<char>>| #[trigger]
        laws::port_at(x.services, q, ip, docker) == laws::port_at(w.services, q, ip, docker) by {
        assert(laws::port_at(u.services, q, ip, docker) == laws::port_at(
            w.services,
            q,
            ip,
            docker,
        ));
    }
}

/// Folding over one element is one application.
pub(crate) proof fn lemma_fold_one<W, A>(w: W, a: A, f: spec_fn(W, A) -> W)
    ensures
        seqs::fold(w, seq![a], f) == f(w, a),
{
    reveal_with_fuel(seqs::fold, 2);
    assert(seq![a].drop_last() =~= Seq::empty());
}

/// The connections along a linear chain, each node of which is connected to the next.
proof fn lemma_linear(
    services: ServicesView,
    start: ServicesView,
    name: Seq<char>,
    ip: IpAddr,
    docker: Option<Seq<char>>,
    deps: Seq<Seq<char>>,
    j: int,
)
    requires
        0 <= j <= deps.len(),
        forall|k: int|
            0 <= k < deps.len() ==> world::connection(
                services,
                chain_node(start, name, ip, docker, deps, k).client(),
                #[trigger] deps[k],
            ) == Some(chain_node(start, name, ip, docker, deps, k + 1)),
    ensures
        world::linear_edges(
            services,
            chain_node(start, name, ip, docker, deps, j),
            deps.skip(j),
        ) == Seq::new(
            (deps.len() - j) as nat,
            |k: int| step_at(start, name, ip, docker, deps, j + k),
        ),
    decreases deps.len() - j,
{
    let all = Seq::new(
        (deps.len() - j) as nat,
        |k: int| step_at(start, name, ip, docker, deps, j + k),
    );
    let names = deps.skip(j);
    let node = chain_node(start, name, ip, docker, deps, j);
    if j < deps.len() {
        lemma_linear(services, start, name, ip, docker, deps, j + 1);
        assert(names[0] == deps[j]);
        assert(names.drop_first() =~= deps.skip(j + 1));
        let rest = Seq::new(
            (deps.len() - (j + 1)) as nat,
            |k: int| step_at(start, name, ip, docker, deps, (j + 1) + k),
        );
        assert(all =~= seq![(node.client(), deps[j])] + rest);
    } else {
        assert(all =~= Seq::empty());
    }
}

/// The way of a linear chain, each node of which is connected to the next.
proof fn lemma_path(
    services: ServicesView,
    start: ServicesView,
    name: Seq<char>,
    ip: IpAddr,
    docker: Option<Seq<char>>,
    deps: Seq<Seq<char>>,
    j: int,
)
    requires
        0 <= j <= deps.len(),
        forall|k: int|
            0 <= k < deps.len() ==> world::connection(
                services,
                chain_node(start, name, ip, docker, deps, k).client(),
                #[trigger] deps[k],
            ) == Some(chain_node(start, name, ip, docker, deps, k + 1)),
    ensures
        world::path(services, chain_node(start, name, ip, docker, deps, j), deps.skip(j))
            == Seq::new(
            (deps.len() - j) as nat,
            |k: int| hop_at(start, name, ip, docker, deps, j + k),
        ),
    decreases deps.len() - j,
{
    let all = Seq::new(
        (deps.len() - j) as nat,
        |k: int| hop_at(start, name, ip, docker, deps, j + k),
    );
    let names = deps.skip(j);
    let node = chain_node(start, name, ip, docker, deps, j);
    if j < deps.len() {
        lemma_path(services, start, name, ip, docker, deps, j + 1);
        assert(names[0] == deps[j]);
        assert(names.drop_first() =~= deps.skip(j + 1));
        let rest = Seq::new(
            (deps.len() - (j + 1)) as nat,
            |k: int| hop_at(start, name, ip, docker, deps, (j + 1) + k),
        );
        let next = chain_node(start, name, ip, docker, deps, j + 1);
        assert(all =~= seq![(node.client(), next)] + rest);
    } else {
        assert(all =~= Seq::empty());
    }
}

/// The hop of a chain from node `k` to the next.
spec fn hop_at(
    start: ServicesView,
    name: Seq<char>,
    ip: IpAddr,
    docker: Option<Seq<char>>,
    deps: Seq<Seq<char>>,
    k: int,
) -> ChainHop {
    (
        chain_node(start, name, ip, docker, deps, k).client(),
        chain_node(start, name, ip, docker, deps, k + 1),
    )
}

/// A state with a mark on the first edge of a chain, before and after the chain was set up, is counted
/// as without.
proof fn lemma_marked_counted(
    w: World,
    edges: Seq<RegisteredEdgeView>,
    oks: Seq<bool>,
    u: World,
)
    requires
        edges.len() > 0,
        connections::services_wf(w.services),
        chain_laws::is_linked(w.services, edges),
        chain_laws::is_single(w.services, edges),
        chain_laws::is_counted(w, edges, oks, u),
        forall|i: int| 0 <= i < edges.len() ==> #[trigger] oks[i],
    ensures
        ({
            let s = chain_laws::spot(edges[0]);
            let a = w.marked_at(s.client, chain_laws::end_of(s), true);
            let b = u.marked_at(s.client, chain_laws::end_of(s), true);
            &&& connections::services_wf(a.services)
            &&& chain_laws::is_linked(a.services, edges)
            &&& chain_laws::is_single(a.services, edges)
            &&& chain_laws::is_counted(a, edges, oks, b)
        }),
{
    let s = chain_laws::spot(edges[0]);
    let a = w.marked_at(s.client, chain_laws::end_of(s), true);
    let b = u.marked_at(s.client, chain_laws::end_of(s), true);
    chain_laws::lemma_remarked(w, s, true);
    chain_laws::lemma_remarked(u, s, true);
    assert forall|i: int| 0 <= i < edges.len() implies chain_laws::is_ready(
        a.services,
        #[trigger] edges[i],
    ) && chain_laws::only_at(a.services, chain_laws::spot(edges[i])) by {
        let q = chain_laws::spot(edges[i]);
        assert(chain_laws::is_ready(w.services, edges[i]));
        assert(chain_laws::only_at(w.services, q));
        chain_laws::lemma_runs(w.services, a.services, q.name);
        assert(laws::port_at(a.services, q.name, q.ip, q.docker) == laws::port_at(
            w.services,
            q.name,
            q.ip,
            q.docker,
        ));
        assert forall|z: Spot|
            z.name == q.name && z.client == q.client && (#[trigger] chain_laws::at(
                a.services,
                z,
            )) is Some implies z == q by {
            assert(chain_laws::at(w.services, z) is Some);
        }
        assert(chain_laws::at(a.services, q) is Some ==> chain_laws::at(w.services, q) is Some);
    }
    assert forall|i: int| 0 <= i < edges.len() && oks[i] implies chain_laws::counted(
        chain_laws::at(a.services, chain_laws::spot(edges[i])),
        #[trigger] chain_laws::at(b.services, chain_laws::spot(edges[i])),
    ) by {
        let q = chain_laws::spot(edges[i]);
        assert(chain_laws::counted(chain_laws::at(w.services, q), chain_laws::at(u.services, q)));
        assert(chain_laws::at(a.services, q) is None || chain_laws::at(a.services, q) is Some);
    }
    assert forall|q: Spot| !chain_laws::on_chain(edges, q) implies #[trigger] chain_laws::at(
        b.services,
        q,
    ) == chain_laws::at(a.services, q) by {
        assert(chain_laws::at(u.services, q) == chain_laws::at(w.services, q));
        if q == s {
            assert(chain_laws::spot(edges[0]) == q);
        }
        assert(chain_laws::at(a.services, q) == chain_laws::at(w.services, q));
    }
    assert forall|i: int, id: u32| #[trigger]
        chain_laws::is_new(a, edges, oks, b, i, id) == chain_laws::is_new(
            w,
            edges,
            oks,
            u,
            i,
            id,
        ) by {
        if 0 <= i < edges.len() {
            let q = chain_laws::spot(edges[i]);
            assert(chain_laws::at(a.services, q) is None == chain_laws::at(w.services, q) is None);
            assert(chain_laws::at(b.services, q) is None == chain_laws::at(u.services, q) is None);
        }
    }
    assert forall|id: u32| #[trigger]
        b.orch.net_ids.contains(id) == (a.orch.net_ids.contains(id) || exists|i: int| #[trigger]
            chain_laws::is_new(a, edges, oks, b, i, id)) by {
        if exists|i: int| #[trigger] chain_laws::is_new(w, edges, oks, u, i, id) {
            let i = choose|i: int| #[trigger] chain_laws::is_new(w, edges, oks, u, i, id);
            assert(chain_laws::is_new(a, edges, oks, b, i, id));
        }
        if exists|i: int| #[trigger] chain_laws::is_new(a, edges, oks, b, i, id) {
            let i = choose|i: int| #[trigger] chain_laws::is_new(a, edges, oks, b, i, id);
            assert(chain_laws::is_new(w, edges, oks, u, i, id));
        }
    }
    assert forall|n: Seq<char>| #[trigger]
        laws::config_at(b.services, n) == laws::config_at(a.services, n) by {
        assert(laws::config_at(u.services, n) == laws::config_at(w.services, n));
    }
    assert forall|n: Seq<char>, ip: IpAddr, docker: Option<Seq<char>>| #[trigger]
        laws::port_at(b.services, n, ip, docker) == laws::port_at(a.services, n, ip, docker) by {
        assert(laws::port_at(u.services, n, ip, docker) == laws::port_at(
            w.services,
            n,
            ip,
            docker,
        ));
    }
}

/// What a trigger sets up is taken down when it times out: a chain that was set up for a replica
/// leaves nothing behind. No other chain that starts alike is set up from the replica, and no client on
/// the way was connected to another replica of the service that it leads to.
pub proof fn law_backend_round_trip(
    w: World,
    name: Seq<char>,
    sender_ip: IpAddr,
    port: u16,
    now: nat,
    reg: RegisteredView,
    r: ReplicaView,
    edges: Seq<RegisteredEdgeView>,
    msgs: Seq<(Seq<char>, Seq<char>)>,
    acks: Seq<(bool, bool)>,
    opened: nat,
    finished: nat,
)
    requires
        connections::services_wf(w.services),
        w.orch.net_ids.no_duplicates(),
        w.backend_trigger(name, sender_ip, port, now).1 == Ok::<_, RequestError>(
            TriggerReplyView::Setup(edges),
        ),
        model::registered(w.services, name) == Some(reg),
        nullnet_grpc_impl::replica_on(reg, sender_ip) == Some(r),
        chain_laws::is_linked(w.services, edges),
        chain_laws::is_single(w.services, edges),
        chain_laws::at(w.services, chain_laws::spot(edges[0])) matches Some(ci)
            ==> !ci.is_backend_entry,
        w.set_up_backend_chain(edges, msgs, acks, opened, finished).1 is Ok,
        ({
            let t = w.set_up_backend_chain(edges, msgs, acks, opened, finished).0.services;
            let chain = nullnet_grpc_impl::chain_for(reg.config.triggers, port);
            let node = NodeView { name, ip: r.ip, docker: r.docker_container };
            world::backend_hops(t, node, chain[0]) == world::backend_path(t, node, chain)
        }),
    ensures
        chain_laws::is_restored(
            w,
            w.set_up_backend_chain(edges, msgs, acks, opened, finished).0.apply(
                ChangeView::BackendChainTimedOut {
                    initiator_name: name,
                    initiator_ip: r.ip,
                    initiator_docker: r.docker_container,
                    first_dependency: nullnet_grpc_impl::chain_for(reg.config.triggers, port)[0],
                },
            ),
        ),
{
    let deps = nullnet_grpc_impl::chain_for(reg.config.triggers, port);
    let n = deps.len() as int;
    let (ip, docker) = (r.ip, r.docker_container);
    let start = w.services;
    chain_laws::law_edges_counted(w, edges, msgs, acks, opened, finished);
    let (v, progress) = chain_setup::open_all(w, edges, msgs, opened);
    let (u, outcomes) = chain_setup::finish_all(v, progress, acks, finished);
    let oks = chain_laws::successes(outcomes);
    assert forall|i: int| 0 <= i < edges.len() implies #[trigger] oks[i] by {
        if outcomes[i] is Failed {
            assert(outcomes.contains(OutcomeView::Failed));
        }
    }
    let plan = model::dependency_edges(name, ip, docker, deps, w.services);
    assert(edges.len() == deps.len());
    assert(is_planned(start, name, ip, docker, deps, edges)) by {
        assert forall|k: int| 0 <= k < deps.len() implies {
            let to = chain_node(start, name, ip, docker, deps, k + 1);
            &&& (#[trigger] edges[k]).client.1 == chain_node(
                start,
                name,
                ip,
                docker,
                deps,
                k,
            ).client()
            &&& chain_laws::spot(edges[k]) == Spot {
                name: deps[k],
                ip: to.ip,
                docker: to.docker,
                client: edges[k].client.1,
            }
        } by {
            assert(plan[k].registered() is Some);
        }
    }
    let s = chain_laws::spot(edges[0]);
    let end = chain_laws::end_of(s);
    let a = w.marked_at(s.client, end, true);
    let t = u.marked_at(s.client, end, true);
    assert(end == nullnet_grpc_impl::edge_end(edges[0]));
    assert(t == w.set_up_backend_chain(edges, msgs, acks, opened, finished).0);
    lemma_marked_counted(w, edges, oks, u);
    let node = NodeView { name, ip, docker };
    lemma_backend_way(a, start, name, ip, docker, deps, edges, oks, t);
    let hops = world::backend_path(t.services, node, deps);
    chain_laws::lemma_hops_undone(a, edges, oks, t, hops, n);
    assert(hops.take(n) =~= hops);
    let y = seqs::fold(t, hops, world::decrement_hop());
    chain_laws::lemma_all_undone(a, edges, oks, t, |i: int| i < n, y);
    let x = y.marked_at(s.client, end, false);
    assert(x == t.apply(
        ChangeView::BackendChainTimedOut {
            initiator_name: name,
            initiator_ip: ip,
            initiator_docker: docker,
            first_dependency: deps[0],
        },
    )) by {
        reveal(World::apply);
        reveal(World::teardown_backend_chain);
    }
    lemma_mark_gone(w, s, a, y);
}

/// The way of a triggered chain that was set up is that of its edges.
proof fn lemma_backend_way(
    a: World,
    start: ServicesView,
    name: Seq<char>,
    ip: IpAddr,
    docker: Option<Seq<char>>,
    deps: Seq<Seq<char>>,
    edges: Seq<RegisteredEdgeView>,
    oks: Seq<bool>,
    t: World,
)
    requires
        chain_laws::is_linked(a.services, edges),
        chain_laws::is_single(a.services, edges),
        edges.len() == deps.len(),
        edges.len() > 0,
        is_planned(start, name, ip, docker, deps, edges),
        chain_laws::is_counted(a, edges, oks, t),
        forall|i: int| 0 <= i < edges.len() ==> #[trigger] oks[i],
    ensures
        ({
            let hops = world::backend_path(t.services, NodeView { name, ip, docker }, deps);
            &&& hops.len() == edges.len()
            &&& forall|i: int|
                0 <= i < edges.len() ==> #[trigger] hops[i] == (
                    edges[i].client.1,
                    chain_laws::end_of(chain_laws::spot(edges[i])),
                )
        }),
        world::entry_connection(t.services, edges[0].client.1, deps[0]) == Some(
            chain_laws::end_of(chain_laws::spot(edges[0])),
        ),
{
    let s = chain_laws::spot(edges[0]);
    let end = chain_laws::end_of(s);
    let node = NodeView { name, ip, docker };
    lemma_connected_as_planned(a, start, name, ip, docker, deps, edges, oks, t);
    assert(oks[0]);
    assert(chain_laws::counted(chain_laws::at(a.services, s), chain_laws::at(t.services, s)));
    chain_laws::lemma_still_only(a, edges, t, 0);
    chain_laws::lemma_entry_found(t.services, s);
    lemma_path(t.services, start, name, ip, docker, deps, 1);
    assert(deps.drop_first() =~= deps.skip(1));
    assert(end == chain_node(start, name, ip, docker, deps, 1));
    let hops = world::backend_path(t.services, node, deps);
    assert(hops =~= Seq::new(
        deps.len(),
        |k: int| hop_at(start, name, ip, docker, deps, k),
    ));
    assert forall|i: int| 0 <= i < edges.len() implies #[trigger] hops[i] == (
        edges[i].client.1,
        chain_laws::end_of(chain_laws::spot(edges[i])),
    ) by {
        assert(edges[i].client.1 == chain_node(start, name, ip, docker, deps, i).client());
    }
}

/// A state that is restored but for a mark on a connection that had none is restored without the mark.
proof fn lemma_mark_gone(w: World, s: Spot, a: World, y: World)
    requires
        connections::services_wf(w.services),
        chain_laws::at(w.services, s) matches Some(ci) ==> !ci.is_backend_entry,
        a == w.marked_at(s.client, chain_laws::end_of(s), true),
        chain_laws::is_restored(a, y),
    ensures
        chain_laws::is_restored(w, y.marked_at(s.client, chain_laws::end_of(s), false)),
{
    let x = y.marked_at(s.client, chain_laws::end_of(s), false);
    chain_laws::lemma_remarked(w, s, true);
    chain_laws::lemma_remarked(y, s, false);
    assert forall|q: Spot| chain_laws::is_same(
        chain_laws::at(w.services, q),
        #[trigger] chain_laws::at(x.services, q),
    ) by {
        assert(chain_laws::is_same(chain_laws::at(a.services, q), chain_laws::at(y.services, q)));
        assert(chain_laws::at(a.services, q) is Some || chain_laws::at(a.services, q) is None);
    }
    assert forall|m: Seq<char>| #[trigger]
        laws::config_at(x.services, m) == laws::config_at(w.services, m) by {
        assert(laws::config_at(y.services, m) == laws::config_at(a.services, m));
        assert(laws::config_at(a.services, m) == laws::config_at(w.services, m));
    }
    assert forall|m: Seq<char>, i: IpAddr, d: Option<Seq<char>>| #[trigger]
        laws::port_at(x.services, m, i, d) == laws::port_at(w.services, m, i, d) by {
        assert(laws::port_at(y.services, m, i, d) == laws::port_at(a.services, m, i, d));
        assert(laws::port_at(a.services, m, i, d) == laws::port_at(w.services, m, i, d));
    }
}

} // verus!
