//! How many chains run over the connections between services once chains end.
use crate::addr::IpAddr;
use crate::request_laws;
use crate::seqs;
use crate::services::clients::{ClientInfoView, ClientView};
use crate::services::connections;
use crate::services::laws;
use crate::services::model;
use crate::services::model::{EntryView, ServiceView, ServicesView, TriggerView};
use crate::services::world;
use crate::services::world::{ChainEdge, ChainHop, ChangeView, FilterView, NodeView, World};
use crate::setup_laws;
use crate::use_laws;
use vstd::prelude::*;

verus! {

/// A connection after some chains over it ended: it goes with the last of them.
pub open spec fn lowered(info: Option<ClientInfoView>, k: nat) -> Option<ClientInfoView> {
    match info {
        Some(ci) => if k == 0 {
            Some(ci)
        } else if ci.active_chains > k {
            Some(ClientInfoView { active_chains: (ci.active_chains - k) as nat, ..ci })
        } else {
            None
        },
        None => None,
    }
}

/// How often a connection is on a way.
pub open spec fn times<A>(edges: Seq<A>, e: A) -> nat
    decreases edges.len(),
{
    if edges.len() == 0 {
        0
    } else {
        times(edges.drop_last(), e) + if edges.last() == e {
            1nat
        } else {
            0
        }
    }
}

/// The client of each connection on a way is connected to one replica only.
spec fn are_in_one_place(services: ServicesView, edges: Seq<ChainEdge>) -> bool {
    forall|k: int|
        0 <= k < edges.len() ==> (#[trigger] edges[k]).0.proxy is None && use_laws::is_in_one_place(
            services,
            edges[k],
        )
}

proof fn lemma_decrement(w: World, c: ClientView, name: Seq<char>)
    requires
        connections::services_wf(w.services),
        use_laws::is_in_one_place(w.services, (c, name)),
    ensures
        ({
            let after = w.decrement(c, name);
            &&& connections::services_wf(after.services)
            &&& forall|n: Seq<char>, x: IpAddr, y: Option<Seq<char>>, q: ClientView| #[trigger]
                connections::conn(after.services, n, x, y, q) == lowered(
                    connections::conn(w.services, n, x, y, q),
                    if n == name && q == c {
                        1
                    } else {
                        0
                    },
                )
        }),
{
    let after = w.decrement(c, name);
    laws::lemma_decrement_reduced(w, c, name);
    connections::lemma_wf_of(w.services, name);
    reveal(World::decrement);
    if let Some(reg) = model::registered(w.services, name) {
        connections::lemma_holds(reg, c);
        let (next, orch) = reg.decremented(c, w.orch);
        if let Some(ci) = reg.info(c) {
            if ci.active_chains <= 1 {
                connections::lemma_without_client(reg, c);
            } else {
                connections::lemma_with_info(reg, c, ci.without_chains(1));
            }
            let r = reg.replicas[reg.holder(c)];
            connections::lemma_index(reg, reg.holder(c));
            assert(connections::conn(w.services, name, r.ip, r.docker_container, c) == Some(ci));
        }
        assert forall|n: Seq<char>, x: IpAddr, y: Option<Seq<char>>, q: ClientView| #[trigger]
            connections::conn(after.services, n, x, y, q) == lowered(
                connections::conn(w.services, n, x, y, q),
                if n == name && q == c {
                    1
                } else {
                    0
                },
            ) by {
            laws::lemma_put_registered(w.services, name, ServiceView::Registered(next), n);
            let before = connections::conn(w.services, n, x, y, q);
            if n == name {
                assert(connections::replica_conn(reg, x, y, q) == before);
                assert(connections::replica_conn(next, x, y, q) == connections::conn(
                    after.services,
                    n,
                    x,
                    y,
                    q,
                ));
            }
        }
    }
}

/// A client that is in one place stays so while connections end.
proof fn lemma_still_in_one_place(a: ServicesView, b: ServicesView, e: ChainEdge)
    requires
        use_laws::is_in_one_place(a, e),
        forall|x: IpAddr, y: Option<Seq<char>>|
            (#[trigger] connections::conn(b, e.1, x, y, e.0)) is Some ==> connections::conn(
                a,
                e.1,
                x,
                y,
                e.0,
            ) is Some,
    ensures
        use_laws::is_in_one_place(b, e),
{
    assert forall|x: IpAddr, y: Option<Seq<char>>, u: IpAddr, v: Option<Seq<char>>|
        (#[trigger] connections::conn(b, e.1, x, y, e.0)) is Some && (
        #[trigger] connections::conn(b, e.1, u, v, e.0)) is Some implies x == u && y == v by {
        assert(connections::conn(a, e.1, x, y, e.0) is Some);
        assert(connections::conn(a, e.1, u, v, e.0) is Some);
    }
}

proof fn lemma_decrements(w: World, edges: Seq<ChainEdge>)
    requires
        connections::services_wf(w.services),
        are_in_one_place(w.services, edges),
    ensures
        ({
            let after = seqs::fold(w, edges, world::decrement_edge());
            &&& connections::services_wf(after.services)
            &&& forall|n: Seq<char>, x: IpAddr, y: Option<Seq<char>>, q: ClientView| #[trigger]
                connections::conn(after.services, n, x, y, q) == lowered(
                    connections::conn(w.services, n, x, y, q),
                    times(edges, (q, n)),
                )
        }),
    decreases edges.len(),
{
    if edges.len() > 0 {
        let front = edges.drop_last();
        let e = edges.last();
        assert forall|k: int| 0 <= k < front.len() implies (#[trigger] front[k]).0.proxy is None
            && use_laws::is_in_one_place(w.services, front[k]) by {
            assert(front[k] == edges[k]);
        }
        lemma_decrements(w, front);
        let v = seqs::fold(w, front, world::decrement_edge());
        assert(edges[edges.len() - 1] == e);
        lemma_still_in_one_place(w.services, v.services, e);
        lemma_decrement(v, e.0, e.1);
        let after = seqs::fold(w, edges, world::decrement_edge());
        assert(after == v.decrement(e.0, e.1));
        assert forall|n: Seq<char>, x: IpAddr, y: Option<Seq<char>>, q: ClientView| #[trigger]
            connections::conn(after.services, n, x, y, q) == lowered(
                connections::conn(w.services, n, x, y, q),
                times(edges, (q, n)),
            ) by {
            assert(connections::conn(v.services, n, x, y, q) == lowered(
                connections::conn(w.services, n, x, y, q),
                times(front, (q, n)),
            ));
        }
    }
}

/// The clients that leave are none of those that services are.
proof fn lemma_services_stay(w: World, name: Seq<char>, filter: FilterView)
    requires
        connections::services_wf(w.services),
    ensures
        model::registered(w.services, name) matches Some(reg) ==> {
            let entries = seqs::concat_map(reg.entries(), filter.selected());
            let w1 = seqs::fold(w, entries, world::take_down_deps(name));
            forall|n: Seq<char>, x: IpAddr, y: Option<Seq<char>>, q: ClientView|
                q.proxy is None ==> #[trigger] connections::conn(
                    w.teardown_chain(name, filter).services,
                    n,
                    x,
                    y,
                    q,
                ) == connections::conn(w1.services, n, x, y, q)
        },
{
    if let Some(reg) = model::registered(w.services, name) {
        let entries = seqs::concat_map(reg.entries(), filter.selected());
        let w1 = seqs::fold(w, entries, world::take_down_deps(name));
        laws::lemma_dep_chains_reduced(w, name, entries);
        connections::lemma_wf_of(w1.services, name);
        reveal(World::teardown_chain);
        assert forall|n: Seq<char>, x: IpAddr, y: Option<Seq<char>>, q: ClientView|
            q.proxy is None implies #[trigger] connections::conn(
            w.teardown_chain(name, filter).services,
            n,
            x,
            y,
            q,
        ) == connections::conn(w1.services, n, x, y, q) by {
            if let Some(reg1) = model::registered(w1.services, name) {
                assert forall|e: EntryView| #[trigger] entries.contains(e) implies e.client != q by {
                    laws::lemma_selected(reg, filter, e);
                }
                laws::lemma_not_leaving(reg1, entries, x, y, q);
                let next = seqs::fold(reg1, entries, world::disconnect());
                laws::lemma_put_registered(w1.services, name, ServiceView::Registered(next), n);
            }
        }
    }
}

/// Where the chain of a client that timed out led over connections between services, one chain fewer runs
/// over each of them, and those over which no other chain runs are gone. They are those from the replica of
/// the client along the dependencies of the service, as far as each leads on. Every other connection
/// between services is as it was. No client on the way is connected to two replicas of a service.
pub proof fn law_client_off(
    w: World,
    name: Seq<char>,
    ip: IpAddr,
    docker: Option<Seq<char>>,
    client: ClientView,
)
    requires
        connections::services_wf(w.services),
        client.proxy is Some,
        connections::conn(w.services, name, ip, docker, client) is Some,
    ensures
        exists|edges: Seq<ChainEdge>, places: Seq<(IpAddr, Option<Seq<char>>)>|
            {
                &&& #[trigger] use_laws::is_shared_way(
                    w.services,
                    name,
                    ip,
                    docker,
                    laws::config_at(w.services, name)->0.dependencies,
                    edges,
                    places,
                )
                &&& (forall|k: int|
                    0 <= k < edges.len() ==> use_laws::is_in_one_place(
                        w.services,
                        #[trigger] edges[k],
                    )) ==> forall|n: Seq<char>, x: IpAddr, y: Option<Seq<char>>, q: ClientView|
                    q.proxy is None ==> #[trigger] connections::conn(
                        w.apply(ChangeView::ProxyClientTimedOut { name, client }).services,
                        n,
                        x,
                        y,
                        q,
                    ) == lowered(
                        connections::conn(w.services, n, x, y, q),
                        times(edges, (q, n)),
                    )
            },
{
    let after = w.apply(ChangeView::ProxyClientTimedOut { name, client });
    let node = NodeView { name, ip, docker };
    let deps = laws::config_at(w.services, name)->0.dependencies;
    let edges = world::linear_edges(w.services, node, deps);
    let places = use_laws::lemma_shared_way(w.services, node, deps);
    let filter = FilterView::ByClient(client);
    assert(use_laws::is_shared_way(w.services, name, ip, docker, deps, edges, places));
    if forall|k: int|
        0 <= k < edges.len() ==> use_laws::is_in_one_place(w.services, #[trigger] edges[k]) {
        assert forall|k: int| 0 <= k < edges.len() implies (#[trigger] edges[k]).0.proxy is None by {
            assert(edges.contains(edges[k]));
            laws::lemma_linear_clients(w.services, node, deps, edges[k]);
        }
        lemma_decrements(w, edges);
        let reg = model::registered(w.services, name)->0;
        connections::lemma_wf_of(w.services, name);
        let e = request_laws::lemma_one_entry(reg, client, ip, docker);
        request_laws::lemma_fold_one(w, e, world::take_down_deps(name));
        lemma_services_stay(w, name, filter);
        let w1 = seqs::fold(w, seq![e], world::take_down_deps(name));
        assert(w1 == w.teardown_dep_chain(node));
        assert(w1 == seqs::fold(w, edges, world::decrement_edge())) by {
            reveal(World::teardown_dep_chain);
        }
        assert(after == w.teardown_chain(name, filter)) by {
            reveal(World::apply);
        }
    }
}

/// A function that gives the client of a connection in one place.
spec fn client_there(ip: IpAddr, docker: Option<Seq<char>>) -> spec_fn(EntryView) -> Seq<ClientView> {
    |e: EntryView|
        if e.ip == ip && e.docker_container == docker {
            seq![e.client]
        } else {
            Seq::empty()
        }
}

/// What the end of one dependency chain of a service takes off the connection of a replica to the first
/// dependency.
proof fn lemma_first_off(
    w: World,
    name: Seq<char>,
    ip: IpAddr,
    docker: Option<Seq<char>>,
    e: EntryView,
)
    requires
        connections::services_wf(w.services),
        laws::config_at(w.services, name) is Some,
        laws::config_at(w.services, name)->0.dependencies.len() > 0,
        !laws::config_at(w.services, name)->0.dependencies.contains(name),
        ({
            let c = ClientView { name, proxy: None, replica: Some((ip, docker)) };
            let first = laws::config_at(w.services, name)->0.dependencies[0];
            use_laws::is_in_one_place(w.services, (c, first))
        }),
    ensures
        ({
            let c = ClientView { name, proxy: None, replica: Some((ip, docker)) };
            let first = laws::config_at(w.services, name)->0.dependencies[0];
            let after = world::take_down_deps(name)(w, e);
            &&& connections::services_wf(after.services)
            &&& laws::config_at(after.services, name) == laws::config_at(w.services, name)
            &&& forall|x: IpAddr, y: Option<Seq<char>>| #[trigger]
                connections::conn(after.services, first, x, y, c) == lowered(
                    connections::conn(w.services, first, x, y, c),
                    client_there(ip, docker)(e).len(),
                )
        }),
{
    let c = ClientView { name, proxy: None, replica: Some((ip, docker)) };
    let deps = laws::config_at(w.services, name)->0.dependencies;
    let node = NodeView { name, ip: e.ip, docker: e.docker_container };
    let edges = world::linear_edges(w.services, node, deps);
    let after = world::take_down_deps(name)(w, e);
    laws::lemma_dep_chain_reduced(w, node);
    reveal(World::teardown_dep_chain);
    laws::lemma_decrements_shape(w, edges);
    let f = world::decrement_edge();
    assert(after == seqs::fold(w, edges, f));
    use_laws::lemma_connected(w.services, node.client(), deps[0]);
    match world::connection(w.services, node.client(), deps[0]) {
        None => {
            assert(edges =~= Seq::empty());
            if e.ip == ip && e.docker_container == docker {
                assert forall|x: IpAddr, y: Option<Seq<char>>| (
                #[trigger] connections::conn(after.services, deps[0], x, y, c)) is None by {
                    assert(connections::conn(w.services, deps[0], x, y, c) is None);
                }
            }
        },
        Some(next) => {
            let rest = world::linear_edges(w.services, next, deps.drop_first());
            assert(edges == seq![(node.client(), deps[0])] + rest);
            let w1 = w.decrement(node.client(), deps[0]);
            lemma_fold_head(w, (node.client(), deps[0]), rest, f);
            assert(after == seqs::fold(w1, rest, f));
            laws::lemma_decrement_reduced(w, node.client(), deps[0]);
            // the first connection
            if e.ip == ip && e.docker_container == docker {
                lemma_decrement(w, c, deps[0]);
            } else {
                lemma_other_clients(w, node.client(), deps[0], c);
            }
            // the further ones
            let p = |v: World|
                connections::services_wf(v.services) && forall|x: IpAddr, y: Option<Seq<char>>|
                    #[trigger]
                    connections::conn(v.services, deps[0], x, y, c) == connections::conn(
                        w1.services,
                        deps[0],
                        x,
                        y,
                        c,
                    );
            assert forall|v: World, d: ChainEdge| p(v) && rest.contains(d) implies #[trigger] p(
                f(v, d),
            ) by {
                lemma_rest_clients(w.services, next, deps.drop_first(), d);
                assert(d.0 != c) by {
                    if d.0 == c {
                        if d.0.name == next.name {
                            assert(deps.contains(deps[0]));
                        } else {
                            let k = choose|k: int|
                                0 <= k < deps.drop_first().len() && deps.drop_first()[k] == d.0.name;
                            assert(deps[k + 1] == name);
                        }
                    }
                }
                laws::lemma_decrement_reduced(v, d.0, d.1);
                lemma_other_clients(v, d.0, d.1, c);
            }
            seqs::lemma_fold_keeps(w1, rest, f, p);
        },
    }
}

/// Clients on a way come from the services on it.
proof fn lemma_rest_clients(
    services: ServicesView,
    node: NodeView,
    names: Seq<Seq<char>>,
    e: ChainEdge,
)
    requires
        world::linear_edges(services, node, names).contains(e),
    ensures
        e.0.name == node.name || names.contains(e.0.name),
    decreases names.len(),
{
    if names.len() > 0 {
        if let Some(next) = world::connection(services, node.client(), names[0]) {
            let first = seq![(node.client(), names[0])];
            let rest = world::linear_edges(services, next, names.drop_first());
            let all = first + rest;
            let k = choose|k: int| 0 <= k < all.len() && all[k] == e;
            if k > 0 {
                assert(rest[k - 1] == e);
                assert(rest.contains(e));
                lemma_rest_clients(services, next, names.drop_first(), e);
                if e.0.name == next.name {
                    assert(names[0] == e.0.name);
                } else {
                    let j = choose|j: int|
                        0 <= j < names.drop_first().len() && names.drop_first()[j] == e.0.name;
                    assert(names[j + 1] == e.0.name);
                }
            }
        }
    }
}

/// A chain fewer over the connection of one client leaves the connections of another as they are.
proof fn lemma_other_clients(w: World, d: ClientView, name: Seq<char>, c: ClientView)
    requires
        connections::services_wf(w.services),
        d != c,
    ensures
        forall|n: Seq<char>, x: IpAddr, y: Option<Seq<char>>| #[trigger]
            connections::conn(w.decrement(d, name).services, n, x, y, c) == connections::conn(
                w.services,
                n,
                x,
                y,
                c,
            ),
{
    reveal(World::decrement);
    connections::lemma_wf_of(w.services, name);
    if let Some(reg) = model::registered(w.services, name) {
        let (next, orch) = reg.decremented(d, w.orch);
        connections::lemma_holds(reg, d);
        if let Some(ci) = reg.info(d) {
            if ci.active_chains <= 1 {
                connections::lemma_without_client(reg, d);
            } else {
                connections::lemma_with_info(reg, d, ci.without_chains(1));
            }
        }
        assert forall|n: Seq<char>, x: IpAddr, y: Option<Seq<char>>| #[trigger]
            connections::conn(w.decrement(d, name).services, n, x, y, c) == connections::conn(
                w.services,
                n,
                x,
                y,
                c,
            ) by {
            laws::lemma_put_registered(w.services, name, ServiceView::Registered(next), n);
            if n == name {
                assert(connections::replica_conn(next, x, y, c) == connections::replica_conn(
                    reg,
                    x,
                    y,
                    c,
                ));
            }
        }
    }
}

/// Folding over a sequence starts with its head.
proof fn lemma_fold_head<W, A>(w: W, a: A, rest: Seq<A>, f: spec_fn(W, A) -> W)
    ensures
        seqs::fold(w, seq![a] + rest, f) == seqs::fold(f(w, a), rest, f),
    decreases rest.len(),
{
    let all = seq![a] + rest;
    if rest.len() == 0 {
        assert(all =~= seq![a]);
        request_laws::lemma_fold_one(w, a, f);
    } else {
        lemma_fold_head(w, a, rest.drop_last(), f);
        assert(all.drop_last() =~= seq![a] + rest.drop_last());
    }
}

proof fn lemma_firsts_off(
    w: World,
    name: Seq<char>,
    ip: IpAddr,
    docker: Option<Seq<char>>,
    entries: Seq<EntryView>,
)
    requires
        connections::services_wf(w.services),
        laws::config_at(w.services, name) is Some,
        laws::config_at(w.services, name)->0.dependencies.len() > 0,
        !laws::config_at(w.services, name)->0.dependencies.contains(name),
        ({
            let c = ClientView { name, proxy: None, replica: Some((ip, docker)) };
            let first = laws::config_at(w.services, name)->0.dependencies[0];
            use_laws::is_in_one_place(w.services, (c, first))
        }),
    ensures
        ({
            let c = ClientView { name, proxy: None, replica: Some((ip, docker)) };
            let first = laws::config_at(w.services, name)->0.dependencies[0];
            let after = seqs::fold(w, entries, world::take_down_deps(name));
            &&& connections::services_wf(after.services)
            &&& laws::config_at(after.services, name) == laws::config_at(w.services, name)
            &&& forall|x: IpAddr, y: Option<Seq<char>>| #[trigger]
                connections::conn(after.services, first, x, y, c) == lowered(
                    connections::conn(w.services, first, x, y, c),
                    seqs::concat_map(entries, client_there(ip, docker)).len(),
                )
        }),
    decreases entries.len(),
{
    if entries.len() > 0 {
        let c = ClientView { name, proxy: None, replica: Some((ip, docker)) };
        let first = laws::config_at(w.services, name)->0.dependencies[0];
        let front = entries.drop_last();
        let e = entries.last();
        lemma_firsts_off(w, name, ip, docker, front);
        let v = seqs::fold(w, front, world::take_down_deps(name));
        let k = seqs::concat_map(front, client_there(ip, docker)).len();
        lemma_still_in_one_place(w.services, v.services, (c, first));
        lemma_first_off(v, name, ip, docker, e);
        let after = seqs::fold(w, entries, world::take_down_deps(name));
        assert(after == world::take_down_deps(name)(v, e));
        let m = client_there(ip, docker)(e).len();
        assert(m <= 1);
        assert(seqs::concat_map(entries, client_there(ip, docker)).len() == k + m);
        assert forall|x: IpAddr, y: Option<Seq<char>>| #[trigger]
            connections::conn(after.services, first, x, y, c) == lowered(
                connections::conn(w.services, first, x, y, c),
                k + m,
            ) by {
            assert(connections::conn(v.services, first, x, y, c) == lowered(
                connections::conn(w.services, first, x, y, c),
                k,
            ));
        }
    }
}

/// Where chains of a service are taken down, one chain fewer for each client that loses its connection to a
/// replica runs over the connection of that replica to the first dependency, which is gone where no other
/// chain runs over it. The service does not depend on itself, and the replica is connected to one replica
/// of the dependency.
pub proof fn law_clients_off(
    w: World,
    name: Seq<char>,
    filter: FilterView,
    ip: IpAddr,
    docker: Option<Seq<char>>,
    lost: Seq<ClientView>,
)
    requires
        connections::services_wf(w.services),
        laws::port_at(w.services, name, ip, docker) is Some,
        laws::config_at(w.services, name)->0.dependencies.len() > 0,
        !laws::config_at(w.services, name)->0.dependencies.contains(name),
        use_laws::is_in_one_place(
            w.services,
            (
                ClientView { name, proxy: None, replica: Some((ip, docker)) },
                laws::config_at(w.services, name)->0.dependencies[0],
            ),
        ),
        lost.no_duplicates(),
        forall|c: ClientView| #[trigger]
            lost.contains(c) <==> {
                &&& c.proxy is Some
                &&& connections::conn(w.services, name, ip, docker, c) is Some
                &&& connections::conn(
                    w.teardown_chain(name, filter).services,
                    name,
                    ip,
                    docker,
                    c,
                ) is None
            },
    ensures
        ({
            let c = ClientView { name, proxy: None, replica: Some((ip, docker)) };
            let first = laws::config_at(w.services, name)->0.dependencies[0];
            forall|x: IpAddr, y: Option<Seq<char>>| #[trigger]
                connections::conn(w.teardown_chain(name, filter).services, first, x, y, c)
                    == lowered(connections::conn(w.services, first, x, y, c), lost.len())
        }),
{
    let c = ClientView { name, proxy: None, replica: Some((ip, docker)) };
    let first = laws::config_at(w.services, name)->0.dependencies[0];
    let reg = model::registered(w.services, name)->0;
    let f = filter.selected();
    let g = client_there(ip, docker);
    let entries = seqs::concat_map(reg.entries(), f);
    let there = seqs::concat_map(entries, g);
    connections::lemma_wf_of(w.services, name);
    lemma_firsts_off(w, name, ip, docker, entries);
    lemma_services_stay(w, name, filter);
    laws::law_teardown_chain(w, name, filter);
    // the connections of one replica are told apart by their clients
    assert forall|q: ClientView| #[trigger] there.contains(q) == lost.contains(q) by {
        if there.contains(q) {
            let i = seqs::lemma_concat_map_from(entries, g, q);
            let e = entries[i];
            assert(g(e).contains(q));
            assert(g(e)[0] == e.client);
            assert(entries.contains(e));
            laws::lemma_selected(reg, filter, e);
            connections::lemma_entries(reg, e);
        }
        if lost.contains(q) {
            let e = EntryView {
                client: q,
                info: connections::replica_conn(reg, ip, docker, q)->0,
                ip,
                docker_container: docker,
                port: reg.replicas[reg.replica_index(ip, docker)].port,
            };
            connections::lemma_entries(reg, e);
            laws::lemma_selected(reg, filter, e);
            let i = choose|i: int| 0 <= i < entries.len() && entries[i] == e;
            assert(g(entries[i])[0] == q);
            assert(g(entries[i]).contains(q));
            seqs::lemma_concat_map_has(entries, g, i, q);
        }
    }
    connections::lemma_entries_distinct(reg);
    assert forall|x: EntryView| #[trigger] f(x) == seq![x] || f(x) == Seq::<EntryView>::empty() by {}
    seqs::lemma_some_distinct(reg.entries(), f);
    assert forall|i: int, j: int|
        0 <= i < j < entries.len() && entries[i].ip == entries[j].ip && entries[i].docker_container
            == entries[j].docker_container implies (#[trigger] entries[i]).client != (
    #[trigger] entries[j]).client by {
        assert(entries.contains(entries[i]) && entries.contains(entries[j]));
        laws::lemma_selected(reg, filter, entries[i]);
        laws::lemma_selected(reg, filter, entries[j]);
        connections::lemma_entries(reg, entries[i]);
        connections::lemma_entries(reg, entries[j]);
        if entries[i].client == entries[j].client {
            assert(entries[i] =~= entries[j]);
        }
    }
    lemma_there_distinct(entries, ip, docker);
    assert(there.to_set() =~= lost.to_set()) by {
        assert forall|q: ClientView| there.to_set().contains(q) == lost.to_set().contains(q) by {
            assert(there.contains(q) == lost.contains(q));
        }
    }
    there.unique_seq_to_set();
    lost.unique_seq_to_set();
}

/// Connections in one place with different clients give different clients.
proof fn lemma_there_distinct(entries: Seq<EntryView>, ip: IpAddr, docker: Option<Seq<char>>)
    requires
        forall|i: int, j: int|
            0 <= i < j < entries.len() && entries[i].ip == entries[j].ip
                && entries[i].docker_container == entries[j].docker_container ==> (
            #[trigger] entries[i]).client != (#[trigger] entries[j]).client,
    ensures
        seqs::concat_map(entries, client_there(ip, docker)).no_duplicates(),
    decreases entries.len(),
{
    let g = client_there(ip, docker);
    if entries.len() > 0 {
        let front = entries.drop_last();
        let e = entries.last();
        lemma_there_distinct(front, ip, docker);
        let before = seqs::concat_map(front, g);
        if e.ip == ip && e.docker_container == docker {
            assert(!before.contains(e.client)) by {
                if before.contains(e.client) {
                    let i = seqs::lemma_concat_map_from(front, g, e.client);
                    assert(g(front[i]).contains(e.client));
                    assert(g(front[i])[0] == front[i].client);
                    assert(front[i] == entries[i]);
                    assert(entries[i].client != entries[entries.len() - 1].client);
                }
            }
            assert(seqs::concat_map(entries, g) == before + seq![e.client]);
        } else {
            assert(seqs::concat_map(entries, g) =~= before);
        }
    }
}

/// Connections lead from a replica along a chain as far as each leads on. The first is the one to the entry
/// of a backend chain, where there is one.
pub open spec fn is_trigger_way(
    services: ServicesView,
    name: Seq<char>,
    ip: IpAddr,
    docker: Option<Seq<char>>,
    chain: Seq<Seq<char>>,
    hops: Seq<ChainHop>,
) -> bool {
    let c = ClientView { name, proxy: None, replica: Some((ip, docker)) };
    let places = places_of(hops);
    &&& use_laws::is_shared_way(services, name, ip, docker, chain, edges_of(hops), places)
    &&& hops.len() > 0 ==> forall|x: IpAddr, y: Option<Seq<char>>|
        use_laws::is_marked(#[trigger] connections::conn(services, chain[0], x, y, c))
            ==> use_laws::is_marked(
            connections::conn(services, chain[0], places[0].0, places[0].1, c),
        )
}

/// Where connections lead.
pub open spec fn places_of(hops: Seq<ChainHop>) -> Seq<(IpAddr, Option<Seq<char>>)> {
    Seq::new(hops.len(), |k: int| (hops[k].1.ip, hops[k].1.docker))
}

/// The clients of connections, and the services that they lead to.
pub open spec fn edges_of(hops: Seq<ChainHop>) -> Seq<ChainEdge> {
    Seq::new(hops.len(), |k: int| (hops[k].0, hops[k].1.name))
}

/// A chain of a trigger starts with a service.
pub open spec fn is_from(t: TriggerView, first: Seq<char>) -> bool {
    t.chain.len() > 0 && t.chain[0] == first
}

/// The connections of several ways, one way after the other.
pub open spec fn chained(ways: Seq<Seq<ChainHop>>) -> Seq<ChainHop>
    decreases ways.len(),
{
    if ways.len() == 0 {
        Seq::empty()
    } else {
        chained(ways.drop_last()) + ways.last()
    }
}

/// What chains of triggers count over: the ways of the triggers whose chain starts with a service, where
/// all of the way is there.
pub open spec fn are_whole_ways(
    services: ServicesView,
    name: Seq<char>,
    ip: IpAddr,
    docker: Option<Seq<char>>,
    first: Seq<char>,
    triggers: Seq<TriggerView>,
    ways: Seq<Seq<ChainHop>>,
) -> bool {
    &&& ways.len() == triggers.len()
    &&& forall|t: int|
        0 <= t < ways.len() ==> if !is_from(triggers[t], first) {
            (#[trigger] ways[t]).len() == 0
        } else if ways[t].len() == 0 {
            exists|part: Seq<ChainHop>| #[trigger]
                is_trigger_way(services, name, ip, docker, triggers[t].chain, part) && part.len()
                    < triggers[t].chain.len()
        } else {
            ways[t].len() == triggers[t].chain.len() && is_trigger_way(
                services,
                name,
                ip,
                docker,
                triggers[t].chain,
                ways[t],
            )
        }
}

/// The connections that the chains which a replica triggered, and which start with a service, run over:
/// those of all that are there as a whole; where none is, what is there of the first one; where the service
/// has none any more, the connection to the service that they start with.
pub open spec fn are_triggered(
    services: ServicesView,
    name: Seq<char>,
    ip: IpAddr,
    docker: Option<Seq<char>>,
    first: Seq<char>,
    triggers: Seq<TriggerView>,
    hops: Seq<ChainHop>,
) -> bool {
    exists|ways: Seq<Seq<ChainHop>>|
        {
            &&& #[trigger] are_whole_ways(services, name, ip, docker, first, triggers, ways)
            &&& if chained(ways).len() > 0 {
                hops == chained(ways)
            } else if exists|t: int|
                0 <= t < triggers.len() && is_from(#[trigger] triggers[t], first) {
                exists|t: int|
                    {
                        &&& 0 <= t < triggers.len()
                        &&& is_from(#[trigger] triggers[t], first)
                        &&& forall|j: int| 0 <= j < t ==> !is_from(#[trigger] triggers[j], first)
                        &&& is_trigger_way(services, name, ip, docker, triggers[t].chain, hops)
                    }
            } else {
                is_trigger_way(services, name, ip, docker, seq![first], hops)
            }
        }
}

/// A connection that is the entry of no backend chain.
pub open spec fn unmarked(info: Option<ClientInfoView>) -> Option<ClientInfoView> {
    match info {
        Some(ci) => Some(ClientInfoView { is_backend_entry: false, ..ci }),
        None => None,
    }
}

proof fn lemma_backend_path(services: ServicesView, node: NodeView, chain: Seq<Seq<char>>)
    requires
        connections::services_wf(services),
        chain.len() > 0,
    ensures
        is_trigger_way(
            services,
            node.name,
            node.ip,
            node.docker,
            chain,
            world::backend_path(services, node, chain),
        ),
        world::entry_connection(services, node.client(), chain[0]) matches Some(entry) ==> ({
            let hops = world::backend_path(services, node, chain);
            hops.len() > 0 && hops[0] == (node.client(), entry)
        }),
        world::entry_connection(services, node.client(), chain[0]) is None
            ==> world::backend_path(services, node, chain).len() == 0,
{
    let c = node.client();
    let hops = world::backend_path(services, node, chain);
    connections::lemma_wf_of(services, chain[0]);
    use_laws::lemma_connected(services, c, chain[0]);
    match world::entry_connection(services, c, chain[0]) {
        None => {
            assert(hops =~= Seq::empty());
            assert(chain.take(0) =~= Seq::empty());
            assert(places_of(hops) =~= Seq::empty());
            assert(edges_of(hops) =~= Seq::empty());
        },
        Some(entry) => {
            let reg = model::registered(services, chain[0])->0;
            setup_laws::lemma_entry(reg, c);
            let rest = chain.drop_first();
            let tail = use_laws::lemma_shared_way(services, entry, rest);
            let more = world::linear_edges(services, entry, rest);
            use_laws::lemma_prepend(services, node, chain, entry, more, tail);
            let on = world::path(services, entry, rest);
            assert(hops == seq![(c, entry)] + on);
            assert(places_of(hops) =~= seq![(entry.ip, entry.docker)] + tail);
            assert forall|k: int| 0 <= k < hops.len() implies #[trigger] edges_of(hops)[k] == (seq![
                (c, chain[0]),
            ] + more)[k] by {
                if k > 0 {
                    assert(hops[k] == on[k - 1]);
                    assert(more[k - 1].1 == rest[k - 1]);
                }
            }
            assert(edges_of(hops) =~= seq![(c, chain[0])] + more);
            assert forall|x: IpAddr, y: Option<Seq<char>>|
                use_laws::is_marked(
                    #[trigger] connections::conn(services, chain[0], x, y, c),
                ) implies use_laws::is_marked(
                connections::conn(services, chain[0], entry.ip, entry.docker, c),
            ) by {
                let k = reg.replica_index(x, y);
                assert(reg.is_replica(x, y, k));
                assert(reg.has_entry(c, k));
                use_laws::lemma_entry_holder(reg, c, k);
            }
        },
    }
}

/// The ways that are there as a whole, trigger by trigger.
proof fn lemma_whole_ways(
    services: ServicesView,
    node: NodeView,
    first: Seq<char>,
    triggers: Seq<TriggerView>,
) -> (ways: Seq<Seq<ChainHop>>)
    requires
        connections::services_wf(services),
    ensures
        are_whole_ways(services, node.name, node.ip, node.docker, first, triggers, ways),
        chained(ways) == seqs::concat_map(
            seqs::concat_map(triggers, world::chain_starting(first)),
            world::whole_path(services, node),
        ),
    decreases triggers.len(),
{
    let f = world::chain_starting(first);
    let g = world::whole_path(services, node);
    if triggers.len() == 0 {
        Seq::empty()
    } else {
        let front = triggers.drop_last();
        let t = triggers.last();
        let before = lemma_whole_ways(services, node, first, front);
        let way = if is_from(t, first) {
            g(t.chain)
        } else {
            Seq::empty()
        };
        let ways = before.push(way);
        assert(ways.drop_last() =~= before);
        let chains = seqs::concat_map(front, f);
        assert(seqs::concat_map(triggers, f) == chains + f(t));
        if is_from(t, first) {
            lemma_backend_path(services, node, t.chain);
            assert((chains + f(t)).drop_last() =~= chains);
            assert((chains + f(t)).last() == t.chain);
        } else {
            assert(chains + f(t) =~= chains);
            assert(chained(ways) =~= chained(before));
        }
        assert forall|i: int| 0 <= i < ways.len() implies if !is_from(triggers[i], first) {
            (#[trigger] ways[i]).len() == 0
        } else if ways[i].len() == 0 {
            exists|part: Seq<ChainHop>| #[trigger]
                is_trigger_way(
                    services,
                    node.name,
                    node.ip,
                    node.docker,
                    triggers[i].chain,
                    part,
                ) && part.len() < triggers[i].chain.len()
        } else {
            ways[i].len() == triggers[i].chain.len() && is_trigger_way(
                services,
                node.name,
                node.ip,
                node.docker,
                triggers[i].chain,
                ways[i],
            )
        } by {
            if i < front.len() {
                assert(ways[i] == before[i]);
                assert(triggers[i] == front[i]);
            } else {
                assert(ways[i] == way);
                assert(triggers[i] == t);
            }
        }
        ways
    }
}

/// The clients of the connections on a way are services.
proof fn lemma_way_clients(
    services: ServicesView,
    node: NodeView,
    chain: Seq<Seq<char>>,
    hops: Seq<ChainHop>,
)
    requires
        is_trigger_way(services, node.name, node.ip, node.docker, chain, hops),
    ensures
        forall|k: int| 0 <= k < hops.len() ==> (#[trigger] hops[k]).0.proxy is None,
{
    assert forall|k: int| 0 <= k < hops.len() implies (#[trigger] hops[k]).0.proxy is None by {
        assert(edges_of(hops)[k].0 == hops[k].0);
    }
}

/// The ways that are there as a whole start with the same connection.
proof fn lemma_all_hops(
    services: ServicesView,
    node: NodeView,
    first: Seq<char>,
    chains: Seq<Seq<Seq<char>>>,
)
    requires
        connections::services_wf(services),
        forall|i: int|
            0 <= i < chains.len() ==> (#[trigger] chains[i]).len() > 0 && chains[i][0] == first,
    ensures
        ({
            let all = seqs::concat_map(chains, world::whole_path(services, node));
            &&& forall|k: int| 0 <= k < all.len() ==> (#[trigger] all[k]).0.proxy is None
            &&& all.len() > 0 ==> match world::entry_connection(services, node.client(), first) {
                Some(entry) => all[0] == (node.client(), entry),
                None => false,
            }
        }),
    decreases chains.len(),
{
    if chains.len() > 0 {
        let g = world::whole_path(services, node);
        let front = chains.drop_last();
        let chain = chains.last();
        assert(chains[chains.len() - 1] == chain);
        assert forall|i: int| 0 <= i < front.len() implies (#[trigger] front[i]).len() > 0
            && front[i][0] == first by {
            assert(front[i] == chains[i]);
        }
        lemma_all_hops(services, node, first, front);
        lemma_backend_path(services, node, chain);
        lemma_way_clients(services, node, chain, world::backend_path(services, node, chain));
        let before = seqs::concat_map(front, g);
        let all = seqs::concat_map(chains, g);
        assert(all == before + g(chain));
        assert forall|k: int| 0 <= k < all.len() implies (#[trigger] all[k]).0.proxy is None by {
            if k < before.len() {
                assert(all[k] == before[k]);
            } else {
                assert(all[k] == g(chain)[k - before.len()]);
            }
        }
    }
}

/// The first chain that starts with a service is that of the first trigger of which it does.
proof fn lemma_first_chain(triggers: Seq<TriggerView>, first: Seq<char>)
    ensures
        ({
            let chains = seqs::concat_map(triggers, world::chain_starting(first));
            if chains.len() > 0 {
                exists|t: int|
                    {
                        &&& 0 <= t < triggers.len()
                        &&& is_from(#[trigger] triggers[t], first)
                        &&& forall|j: int| 0 <= j < t ==> !is_from(#[trigger] triggers[j], first)
                        &&& chains[0] == triggers[t].chain
                    }
            } else {
                forall|t: int| 0 <= t < triggers.len() ==> !is_from(#[trigger] triggers[t], first)
            }
        }),
    decreases triggers.len(),
{
    let f = world::chain_starting(first);
    if triggers.len() > 0 {
        let front = triggers.drop_last();
        let last = triggers.last();
        lemma_first_chain(front, first);
        let chains = seqs::concat_map(front, f);
        let all = seqs::concat_map(triggers, f);
        assert(all == chains + f(last));
        if chains.len() > 0 {
            let t = choose|t: int|
                {
                    &&& 0 <= t < front.len()
                    &&& is_from(#[trigger] front[t], first)
                    &&& forall|j: int| 0 <= j < t ==> !is_from(#[trigger] front[j], first)
                    &&& chains[0] == front[t].chain
                };
            assert(triggers[t] == front[t]);
            assert forall|j: int| 0 <= j < t implies !is_from(#[trigger] triggers[j], first) by {
                assert(triggers[j] == front[j]);
            }
            assert(all[0] == chains[0]);
        } else {
            assert forall|j: int| 0 <= j < front.len() implies !is_from(
                #[trigger] triggers[j],
                first,
            ) by {
                assert(triggers[j] == front[j]);
            }
            let t = triggers.len() - 1;
            assert(triggers[t] == last);
            if is_from(last, first) {
                assert(all[0] == last.chain);
                assert(is_from(triggers[t], first));
            }
        }
    }
}

proof fn lemma_decrement_at(w: World, c: ClientView, at: NodeView)
    requires
        connections::services_wf(w.services),
        c.proxy is None,
    ensures
        ({
            let after = w.decrement_at(c, at.name, at.ip, at.docker);
            &&& connections::services_wf(after.services)
            &&& forall|n: Seq<char>, x: IpAddr, y: Option<Seq<char>>, q: ClientView| #[trigger]
                connections::conn(after.services, n, x, y, q) == lowered(
                    connections::conn(w.services, n, x, y, q),
                    if (c, at) == (q, NodeView { name: n, ip: x, docker: y }) {
                        1
                    } else {
                        0
                    },
                )
        }),
{
    let after = w.decrement_at(c, at.name, at.ip, at.docker);
    laws::lemma_decrement_at_reduced(w, c, at.name, at.ip, at.docker);
    connections::lemma_wf_of(w.services, at.name);
    reveal(World::decrement_at);
    if let Some(reg) = model::registered(w.services, at.name) {
        let (next, orch) = reg.decremented_at(at.ip, at.docker, c, w.orch);
        if let Some(ci) = reg.info_at(at.ip, at.docker, c) {
            if ci.active_chains <= 1 {
                connections::lemma_without_client_at(reg, at.ip, at.docker, c);
            } else {
                connections::lemma_with_client(reg, at.ip, at.docker, c, ci.without_chains(1));
            }
        }
        assert forall|n: Seq<char>, x: IpAddr, y: Option<Seq<char>>, q: ClientView| #[trigger]
            connections::conn(after.services, n, x, y, q) == lowered(
                connections::conn(w.services, n, x, y, q),
                if (c, at) == (q, NodeView { name: n, ip: x, docker: y }) {
                    1
                } else {
                    0
                },
            ) by {
            laws::lemma_put_registered(w.services, at.name, ServiceView::Registered(next), n);
            if n == at.name {
                assert(connections::replica_conn(next, x, y, q) == connections::conn(
                    after.services,
                    n,
                    x,
                    y,
                    q,
                ));
                assert(connections::replica_conn(reg, x, y, q) == connections::conn(
                    w.services,
                    n,
                    x,
                    y,
                    q,
                ));
            }
        }
    }
}

proof fn lemma_hops(w: World, hops: Seq<ChainHop>)
    requires
        connections::services_wf(w.services),
        forall|k: int| 0 <= k < hops.len() ==> (#[trigger] hops[k]).0.proxy is None,
    ensures
        ({
            let after = seqs::fold(w, hops, world::decrement_hop());
            &&& connections::services_wf(after.services)
            &&& forall|n: Seq<char>, x: IpAddr, y: Option<Seq<char>>, q: ClientView| #[trigger]
                connections::conn(after.services, n, x, y, q) == lowered(
                    connections::conn(w.services, n, x, y, q),
                    times(hops, (q, NodeView { name: n, ip: x, docker: y })),
                )
        }),
    decreases hops.len(),
{
    if hops.len() > 0 {
        let front = hops.drop_last();
        let h = hops.last();
        assert forall|k: int| 0 <= k < front.len() implies (#[trigger] front[k]).0.proxy is None by {
            assert(front[k] == hops[k]);
        }
        lemma_hops(w, front);
        let v = seqs::fold(w, front, world::decrement_hop());
        assert(hops[hops.len() - 1] == h);
        lemma_decrement_at(v, h.0, h.1);
        let after = seqs::fold(w, hops, world::decrement_hop());
        assert(after == v.decrement_at(h.0, h.1.name, h.1.ip, h.1.docker));
        assert forall|n: Seq<char>, x: IpAddr, y: Option<Seq<char>>, q: ClientView| #[trigger]
            connections::conn(after.services, n, x, y, q) == lowered(
                connections::conn(w.services, n, x, y, q),
                times(hops, (q, NodeView { name: n, ip: x, docker: y })),
            ) by {
            assert(connections::conn(v.services, n, x, y, q) == lowered(
                connections::conn(w.services, n, x, y, q),
                times(front, (q, NodeView { name: n, ip: x, docker: y })),
            ));
        }
    }
}

/// When the chains that a replica triggered over a service time out, one chain fewer runs over each of
/// their connections for each time that they pass it, those over which no other chain runs are gone, and
/// the connection that the chains start with is the entry of a backend chain no more. Every other connection
/// is as it was.
pub proof fn law_trigger_off(
    w: World,
    name: Seq<char>,
    ip: IpAddr,
    docker: Option<Seq<char>>,
    first: Seq<char>,
)
    requires
        connections::services_wf(w.services),
        laws::config_at(w.services, name) is Some,
    ensures
        exists|hops: Seq<ChainHop>|
            {
                &&& #[trigger] are_triggered(
                    w.services,
                    name,
                    ip,
                    docker,
                    first,
                    laws::config_at(w.services, name)->0.triggers,
                    hops,
                )
                &&& forall|n: Seq<char>, x: IpAddr, y: Option<Seq<char>>, q: ClientView|
                    {
                        let left = lowered(
                            connections::conn(w.services, n, x, y, q),
                            times(hops, (q, NodeView { name: n, ip: x, docker: y })),
                        );
                        #[trigger] connections::conn(
                            w.apply(
                                ChangeView::BackendChainTimedOut {
                                    initiator_name: name,
                                    initiator_ip: ip,
                                    initiator_docker: docker,
                                    first_dependency: first,
                                },
                            ).services,
                            n,
                            x,
                            y,
                            q,
                        ) == if hops.len() > 0 && hops[0] == (
                            q,
                            NodeView { name: n, ip: x, docker: y },
                        ) {
                            unmarked(left)
                        } else {
                            left
                        }
                    }
            },
{
    let change = ChangeView::BackendChainTimedOut {
        initiator_name: name,
        initiator_ip: ip,
        initiator_docker: docker,
        first_dependency: first,
    };
    let node = NodeView { name, ip, docker };
    let c = node.client();
    let triggers = laws::config_at(w.services, name)->0.triggers;
    let chains = seqs::concat_map(triggers, world::chain_starting(first));
    let all = seqs::concat_map(chains, world::whole_path(w.services, node));
    let hops = world::backend_hops(w.services, node, first);
    assert(world::chains_from(w.services, name, first) == chains);
    let ways = lemma_whole_ways(w.services, node, first, triggers);
    lemma_first_chain(triggers, first);
    let entry = world::entry_connection(w.services, c, first);
    lemma_backend_path(w.services, node, seq![first]);
    assert forall|i: int| 0 <= i < chains.len() implies (#[trigger] chains[i]).len() > 0
        && chains[i][0] == first by {
        let f = world::chain_starting(first);
        assert(chains.contains(chains[i]));
        let t = seqs::lemma_concat_map_from(triggers, f, chains[i]);
        assert(f(triggers[t]).contains(chains[i]));
        assert(f(triggers[t])[0] == chains[i]);
    }
    if all.len() > 0 {
        lemma_all_hops(w.services, node, first, chains);
    } else if chains.len() > 0 {
        lemma_backend_path(w.services, node, chains[0]);
        lemma_way_clients(w.services, node, chains[0], hops);
    } else {
        lemma_way_clients(w.services, node, seq![first], hops);
    }
    assert(are_triggered(w.services, name, ip, docker, first, triggers, hops));
    lemma_hops(w, hops);
    let v = seqs::fold(w, hops, world::decrement_hop());
    let after = w.apply(change);
    assert(after == w.teardown_backend_chain(node, first)) by {
        reveal(World::apply);
    }
    reveal(World::teardown_backend_chain);
    if let Some(at) = entry {
        setup_laws::law_marked(v, c, at, false);
    }
    assert forall|n: Seq<char>, x: IpAddr, y: Option<Seq<char>>, q: ClientView|
        {
            let left = lowered(
                connections::conn(w.services, n, x, y, q),
                times(hops, (q, NodeView { name: n, ip: x, docker: y })),
            );
            #[trigger] connections::conn(after.services, n, x, y, q) == if hops.len() > 0 && hops[0]
                == (q, NodeView { name: n, ip: x, docker: y }) {
                unmarked(left)
            } else {
                left
            }
        } by {
        assert(connections::conn(v.services, n, x, y, q) == lowered(
            connections::conn(w.services, n, x, y, q),
            times(hops, (q, NodeView { name: n, ip: x, docker: y })),
        ));
    }
}

} // verus!
