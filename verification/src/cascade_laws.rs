//! Whose proxy clients are disconnected by a change, and whose stay.
use crate::addr::IpAddr;
use crate::seqs;
use crate::services::clients::ClientView;
use crate::services::connections;
use crate::services::laws;
use crate::services::model;
use crate::services::model::{EntryView, PlaceView, RegisteredView, ServiceView, ServicesView};
use crate::services::world;
use crate::services::world::{ChangeView, FilterView, World};
use crate::table;
use crate::teardown_laws;
use vstd::prelude::*;

verus! {

/// A service is the one named, or is configured with it as a dependency, at any position.
pub open spec fn is_affected(services: ServicesView, n: Seq<char>, name: Seq<char>) -> bool {
    n == name || match laws::config_at(services, n) {
        Some(config) => exists|k: int|
            0 <= k < config.dependencies.len() && #[trigger] config.dependencies[k] == name,
        None => false,
    }
}

/// A running service has all its replicas on one host.
pub open spec fn runs_there_alone(services: ServicesView, name: Seq<char>, ip: IpAddr) -> bool {
    &&& exists|x: IpAddr, y: Option<Seq<char>>| #[trigger]
        laws::port_at(services, name, x, y) is Some
    &&& forall|x: IpAddr, y: Option<Seq<char>>| #[trigger]
        laws::port_at(services, name, x, y) is Some ==> x == ip
}

/// A running service has one replica, in one place.
pub open spec fn runs_in_one_place(
    services: ServicesView,
    name: Seq<char>,
    ip: IpAddr,
    docker: Option<Seq<char>>,
) -> bool {
    forall|x: IpAddr, y: Option<Seq<char>>| #[trigger]
        laws::port_at(services, name, x, y) is Some <==> x == ip && y == docker
}

/// A change ends a service, or its chains: it is not configured any more, it has other dependencies, or it
/// loses its last replicas.
pub open spec fn ends_service(services: ServicesView, change: ChangeView, name: Seq<char>) -> bool {
    match change {
        ChangeView::Removed { name: n } => n == name,
        ChangeView::DepsChanged { name: n } => n == name,
        ChangeView::ReplicasRemoved { name: n, ip } => n == name && runs_there_alone(
            services,
            name,
            ip,
        ),
        ChangeView::ReplicaRemoved { name: n, ip, docker_container } => n == name
            && runs_in_one_place(services, name, ip, docker_container),
        _ => false,
    }
}

/// A service that runs has a replica somewhere.
proof fn lemma_somewhere(services: ServicesView, name: Seq<char>, i: int)
    requires
        connections::services_wf(services),
        model::registered(services, name) matches Some(reg) && 0 <= i < reg.replicas.len(),
    ensures
        ({
            let r = model::registered(services, name)->0.replicas[i];
            laws::port_at(services, name, r.ip, r.docker_container) == Some(r.port)
        }),
{
    connections::lemma_wf_of(services, name);
    connections::lemma_index(model::registered(services, name)->0, i);
}

proof fn lemma_alone(services: ServicesView, name: Seq<char>, ip: IpAddr)
    requires
        connections::services_wf(services),
    ensures
        world::runs_only_on(services, name, ip) == runs_there_alone(services, name, ip),
{
    connections::lemma_wf_of(services, name);
    if let Some(reg) = model::registered(services, name) {
        lemma_somewhere(services, name, 0);
        if world::runs_only_on(services, name, ip) {
            assert forall|x: IpAddr, y: Option<Seq<char>>| #[trigger]
                laws::port_at(services, name, x, y) is Some implies x == ip by {
                let k = reg.replica_index(x, y);
                assert(reg.is_replica(x, y, k));
                assert(reg.replicas[k].ip == ip);
            }
        }
        if runs_there_alone(services, name, ip) {
            assert forall|i: int| 0 <= i < reg.replicas.len() implies (
            #[trigger] reg.replicas[i]).ip == ip by {
                lemma_somewhere(services, name, i);
            }
        }
    }
}

proof fn lemma_one_place(
    services: ServicesView,
    name: Seq<char>,
    ip: IpAddr,
    docker: Option<Seq<char>>,
)
    requires
        connections::services_wf(services),
        laws::port_at(services, name, ip, docker) is Some,
    ensures
        world::runs_once(services, name) == runs_in_one_place(services, name, ip, docker),
{
    connections::lemma_wf_of(services, name);
    let reg = model::registered(services, name)->0;
    let k = reg.replica_index(ip, docker);
    assert(reg.is_replica(ip, docker, k));
    if world::runs_once(services, name) {
        assert forall|x: IpAddr, y: Option<Seq<char>>| #[trigger]
            laws::port_at(services, name, x, y) is Some implies x == ip && y == docker by {
            assert(reg.is_replica(x, y, reg.replica_index(x, y)));
        }
    }
    if runs_in_one_place(services, name, ip, docker) && reg.replicas.len() > 1 {
        lemma_somewhere(services, name, 0);
        lemma_somewhere(services, name, 1);
        let (a, b) = (reg.replicas[0], reg.replicas[1]);
        assert(laws::port_at(services, name, a.ip, a.docker_container) is Some);
        assert(laws::port_at(services, name, b.ip, b.docker_container) is Some);
    }
}

/// Taking down what depends on a service disconnects exactly the proxy clients of the service and of those
/// that depend on it.
proof fn lemma_invalidated(w: World, name: Seq<char>, is_failed: bool)
    requires
        connections::services_wf(w.services),
    ensures
        ({
            let after = w.teardown_invalidated_service(name, is_failed);
            forall|n: Seq<char>, ip: IpAddr, docker: Option<Seq<char>>, c: ClientView|
                c.proxy is Some ==> #[trigger] connections::conn(after.services, n, ip, docker, c)
                    == (if is_affected(w.services, n, name) {
                    None
                } else {
                    connections::conn(w.services, n, ip, docker, c)
                })
        }),
{
    let after = w.teardown_invalidated_service(name, is_failed);
    laws::lemma_invalidated_reduced(w, name, is_failed);
    reveal(World::teardown_invalidated_service);
    let names = seqs::concat_map(w.services, world::dependent_on(name));
    let f = world::take_down(FilterView::All);
    let v = seqs::fold(w, names, f);
    assert forall|n: Seq<char>, ip: IpAddr, docker: Option<Seq<char>>, c: ClientView|
        c.proxy is Some implies #[trigger] connections::conn(after.services, n, ip, docker, c) == (
    if is_affected(w.services, n, name) {
        None
    } else {
        connections::conn(w.services, n, ip, docker, c)
    }) by {
        teardown_laws::lemma_dependents(w, name, n);
        if is_affected(w.services, n, name) {
            if connections::conn(after.services, n, ip, docker, c) is Some {
                assert(laws::conn_kept(
                    connections::conn(w.services, n, ip, docker, c),
                    connections::conn(after.services, n, ip, docker, c),
                ));
                teardown_laws::lemma_none_left(w, names, n, ip, docker, c);
                if let Some(reg) = model::registered(v.services, name) {
                    laws::lemma_put_registered(
                        v.services,
                        name,
                        ServiceView::Unregistered(reg.config),
                        n,
                    );
                }
            }
        } else {
            crate::services::update_laws::lemma_invalidated_spares(
                w,
                name,
                is_failed,
                n,
                ip,
                docker,
                c,
            );
        }
    }
}

/// A change that ends a service, or its chains, disconnects exactly the proxy clients of the service and
/// of every service that is configured with it as a dependency, at whatever position; those of all others
/// keep their connections as they are. Unless its dependencies changed, the service does not run any more;
/// every other service runs where it ran.
pub proof fn law_service_ends(w: World, change: ChangeView, name: Seq<char>)
    requires
        connections::services_wf(w.services),
        ends_service(w.services, change, name),
    ensures
        ({
            let after = w.apply(change);
            &&& forall|n: Seq<char>, ip: IpAddr, docker: Option<Seq<char>>, c: ClientView|
                c.proxy is Some ==> #[trigger] connections::conn(after.services, n, ip, docker, c)
                    == (if is_affected(w.services, n, name) {
                    None
                } else {
                    connections::conn(w.services, n, ip, docker, c)
                })
            &&& forall|n: Seq<char>, ip: IpAddr, docker: Option<Seq<char>>| #[trigger]
                laws::port_at(after.services, n, ip, docker) == (if n == name && !(
                change is DepsChanged) {
                    None
                } else {
                    laws::port_at(w.services, n, ip, docker)
                })
            &&& forall|n: Seq<char>| #[trigger]
                laws::config_at(after.services, n) == (if n == name && change is Removed {
                    None
                } else {
                    laws::config_at(w.services, n)
                })
        }),
{
    reveal(World::apply);
    let after = w.apply(change);
    let is_failed = !(change is DepsChanged);
    lemma_invalidated(w, name, is_failed);
    laws::lemma_invalidated_shape(w, name, is_failed);
    match change {
        ChangeView::Removed { .. } => {
            let v = w.teardown_invalidated_service(name, true);
            laws::lemma_failed(w, name);
            laws::lemma_invalidated_reduced(w, name, true);
            assert forall|n: Seq<char>|
                #![trigger model::registered(after.services, n)]
                #![trigger laws::config_at(after.services, n)]
                model::registered(after.services, n) == model::registered(v.services, n)
                    && laws::config_at(after.services, n) == (if n == name {
                    None
                } else {
                    laws::config_at(v.services, n)
                }) by {
                table::lemma_del(v.services, name, n);
            }
            assert forall|n: Seq<char>, ip: IpAddr, docker: Option<Seq<char>>| #[trigger]
                laws::port_at(after.services, n, ip, docker) == laws::port_at(
                    v.services,
                    n,
                    ip,
                    docker,
                ) by {
                assert(model::registered(after.services, n) == model::registered(v.services, n));
            }
            assert forall|n: Seq<char>, ip: IpAddr, docker: Option<Seq<char>>, c: ClientView|
                #[trigger] connections::conn(after.services, n, ip, docker, c)
                    == connections::conn(v.services, n, ip, docker, c) by {
                assert(model::registered(after.services, n) == model::registered(v.services, n));
            }
        },
        ChangeView::ReplicasRemoved { ip, .. } => {
            lemma_alone(w.services, name, ip);
        },
        ChangeView::ReplicaRemoved { ip, docker_container, .. } => {
            assert(laws::port_at(w.services, name, ip, docker_container) is Some);
            lemma_one_place(w.services, name, ip, docker_container);
        },
        _ => {},
    }
}

/// A place is a host, or a container of a host.
pub open spec fn is_there(
    ip: IpAddr,
    docker: Option<Option<Seq<char>>>,
    x: IpAddr,
    y: Option<Seq<char>>,
) -> bool {
    x == ip && (docker matches Some(d) ==> y == d)
}

/// A replica of service `n` is connected to a replica of service `name` in a place.
pub open spec fn leads_there(
    services: ServicesView,
    name: Seq<char>,
    ip: IpAddr,
    docker: Option<Option<Seq<char>>>,
    n: Seq<char>,
    x: IpAddr,
    y: Option<Seq<char>>,
) -> bool {
    exists|a: IpAddr, b: Option<Seq<char>>, d: ClientView|
        (#[trigger] connections::conn(services, name, a, b, d)) is Some && is_there(
            ip,
            docker,
            a,
            b,
        ) && d.proxy is None && d.name == n && d.replica == Some((x, y))
}

/// The place that a change stops replicas in.
spec fn place_of(ip: IpAddr, docker: Option<Option<Seq<char>>>) -> PlaceView {
    match docker {
        Some(d) => PlaceView::Replica(ip, d),
        None => PlaceView::Host(ip),
    }
}

/// A service is among those connected to a place exactly where it has a connection there.
pub(crate) proof fn lemma_service_clients(reg: RegisteredView, place: PlaceView, d: ClientView)
    requires
        connections::registered_wf(reg),
    ensures
        reg.service_clients(place).contains(d) == (d.proxy is None && exists|
            a: IpAddr,
            b: Option<Seq<char>>,
        |
            (#[trigger] connections::replica_conn(reg, a, b, d)) is Some && place.covers(a, b)),
{
    let f = place.service_clients();
    let all = seqs::concat_map(reg.entries(), f);
    lemma_unique(all, d);
    if all.contains(d) {
        let i = seqs::lemma_concat_map_from(reg.entries(), f, d);
        let e = reg.entries()[i];
        let t = f(e);
        let j = choose|j: int| 0 <= j < t.len() && t[j] == d;
        assert(t.len() == 1 && j == 0);
        assert(reg.entries().contains(e));
        connections::lemma_entries(reg, e);
        assert(connections::replica_conn(reg, e.ip, e.docker_container, d) is Some);
    }
    if d.proxy is None && exists|a: IpAddr, b: Option<Seq<char>>|
        (#[trigger] connections::replica_conn(reg, a, b, d)) is Some && place.covers(a, b) {
        let (a, b) = choose|a: IpAddr, b: Option<Seq<char>>|
            (#[trigger] connections::replica_conn(reg, a, b, d)) is Some && place.covers(a, b);
        let e = EntryView {
            client: d,
            info: connections::replica_conn(reg, a, b, d)->0,
            ip: a,
            docker_container: b,
            port: reg.replicas[reg.replica_index(a, b)].port,
        };
        connections::lemma_entries(reg, e);
        let i = choose|i: int| 0 <= i < reg.entries().len() && reg.entries()[i] == e;
        assert(f(e)[0] == d);
        assert(f(reg.entries()[i]).contains(d));
        seqs::lemma_concat_map_has(reg.entries(), f, i, d);
    }
}

/// The distinct elements of a list are those of the list.
proof fn lemma_unique<A>(s: Seq<A>, x: A)
    ensures
        seqs::unique(s).contains(x) == s.contains(x),
    decreases s.len(),
{
    if s.len() > 0 {
        let front = s.drop_last();
        lemma_unique(front, x);
        crate::state_laws::lemma_with(seqs::unique(front), s.last());
        crate::chain_laws::lemma_push_contains(front, x);
        assert(front.push(s.last()) =~= s);
        assert(seqs::unique(s) == seqs::with(seqs::unique(front), s.last()));
        assert(s.contains(x) == (front.contains(x) || x == s.last()));
    }
}

/// Taking down what leads through replicas in a place disconnects exactly the proxy clients of those
/// replicas and of the replicas of services that are connected to one of them.
proof fn lemma_partial(
    w: World,
    name: Seq<char>,
    ip: IpAddr,
    docker: Option<Option<Seq<char>>>,
    n: Seq<char>,
    x: IpAddr,
    y: Option<Seq<char>>,
    c: ClientView,
)
    requires
        connections::services_wf(w.services),
        model::registered(w.services, name) is Some,
        c.proxy is Some,
    ensures
        connections::conn(
            w.teardown_partial_replicas(name, place_of(ip, docker)).services,
            n,
            x,
            y,
            c,
        ) == (if (n == name && is_there(ip, docker, x, y)) || leads_there(
            w.services,
            name,
            ip,
            docker,
            n,
            x,
            y,
        ) {
            None
        } else {
            connections::conn(w.services, n, x, y, c)
        }),
{
    reveal(World::teardown_partial_replicas);
    let place = place_of(ip, docker);
    let reg = model::registered(w.services, name)->0;
    connections::lemma_wf_of(w.services, name);
    let clients = reg.service_clients(place);
    let f = world::take_down_source();
    let v = seqs::fold(w, clients, f);
    let inv = |u: World| connections::services_wf(u.services);
    assert forall|u: World, d: ClientView| inv(u) && clients.contains(d) implies #[trigger] inv(
        f(u, d),
    ) by {
        if let Some((a, b)) = d.replica {
            laws::lemma_teardown_chain_reduced(
                u,
                d.name,
                FilterView::On(PlaceView::Replica(a, b)),
            );
        }
    }
    seqs::lemma_fold_keeps(w, clients, f, inv);
    laws::law_teardown_chain(v, name, FilterView::On(place));
    if leads_there(w.services, name, ip, docker, n, x, y) {
        let (a, b, d) = choose|a: IpAddr, b: Option<Seq<char>>, d: ClientView|
            (#[trigger] connections::conn(w.services, name, a, b, d)) is Some && is_there(
                ip,
                docker,
                a,
                b,
            ) && d.proxy is None && d.name == n && d.replica == Some((x, y));
        assert(connections::replica_conn(reg, a, b, d) is Some && place.covers(a, b));
        lemma_service_clients(reg, place, d);
        let k = choose|k: int| 0 <= k < clients.len() && clients[k] == d;
        let goal = |u: World| connections::conn(u.services, n, x, y, c) is None;
        let filter = FilterView::On(PlaceView::Replica(x, y));
        assert forall|u: World| inv(u) implies #[trigger] goal(f(u, clients[k])) by {
            laws::law_teardown_chain(u, n, filter);
        }
        assert forall|u: World, q: ClientView|
            inv(u) && goal(u) && clients.contains(q) implies goal(#[trigger] f(u, q)) by {
            if let Some((s, t)) = q.replica {
                laws::law_teardown_chain(u, q.name, FilterView::On(PlaceView::Replica(s, t)));
            }
        }
        seqs::lemma_fold_reaches(w, clients, f, inv, k, goal);
    } else {
        let before = connections::conn(w.services, n, x, y, c);
        let p = |u: World|
            connections::services_wf(u.services) && connections::conn(u.services, n, x, y, c)
                == before;
        assert forall|u: World, q: ClientView| p(u) && clients.contains(q) implies #[trigger] p(
            f(u, q),
        ) by {
            if let Some((s, t)) = q.replica {
                laws::lemma_teardown_chain_reduced(
                    u,
                    q.name,
                    FilterView::On(PlaceView::Replica(s, t)),
                );
                laws::law_teardown_chain(u, q.name, FilterView::On(PlaceView::Replica(s, t)));
                if q.name == n && s == x && t == y {
                    lemma_service_clients(reg, place, q);
                    let (a, b) = choose|a: IpAddr, b: Option<Seq<char>>|
                        (#[trigger] connections::replica_conn(reg, a, b, q)) is Some
                            && place.covers(a, b);
                    assert(connections::conn(w.services, name, a, b, q) is Some);
                    assert(leads_there(w.services, name, ip, docker, n, x, y));
                }
            }
        }
        seqs::lemma_fold_keeps(w, clients, f, p);
    }
}

/// A change that stops some replicas of a service but not all: those on a host, or the one in a container.
pub open spec fn stops_some(
    services: ServicesView,
    change: ChangeView,
    name: Seq<char>,
    ip: IpAddr,
    docker: Option<Option<Seq<char>>>,
) -> bool {
    match change {
        ChangeView::ReplicasRemoved { name: n, ip: host } => n == name && host == ip && docker is None
            && model::registered(services, name) is Some && !runs_there_alone(services, name, ip),
        ChangeView::ReplicaRemoved { name: n, ip: host, docker_container } => {
            &&& n == name && host == ip && docker == Some(docker_container)
            &&& laws::port_at(services, name, ip, docker_container) is Some
            &&& !runs_in_one_place(services, name, ip, docker_container)
        },
        _ => false,
    }
}

/// A change that stops some replicas of a service, but not all, stops exactly those. It disconnects exactly
/// the proxy clients of those replicas and of the replicas of services that are connected to one of them.
/// All other proxy clients keep their connections as they are, and everything else runs where it ran.
pub proof fn law_replicas_end(
    w: World,
    change: ChangeView,
    name: Seq<char>,
    ip: IpAddr,
    docker: Option<Option<Seq<char>>>,
)
    requires
        connections::services_wf(w.services),
        stops_some(w.services, change, name, ip, docker),
    ensures
        ({
            let after = w.apply(change);
            &&& forall|n: Seq<char>, x: IpAddr, y: Option<Seq<char>>, c: ClientView|
                c.proxy is Some ==> #[trigger] connections::conn(after.services, n, x, y, c) == (
                if (n == name && is_there(ip, docker, x, y)) || leads_there(
                    w.services,
                    name,
                    ip,
                    docker,
                    n,
                    x,
                    y,
                ) {
                    None
                } else {
                    connections::conn(w.services, n, x, y, c)
                })
            &&& forall|n: Seq<char>, x: IpAddr, y: Option<Seq<char>>| #[trigger]
                laws::port_at(after.services, n, x, y) == (if n == name && is_there(
                    ip,
                    docker,
                    x,
                    y,
                ) {
                    None
                } else {
                    laws::port_at(w.services, n, x, y)
                })
            &&& forall|n: Seq<char>| #[trigger]
                laws::config_at(after.services, n) == laws::config_at(w.services, n)
        }),
{
    reveal(World::apply);
    let after = w.apply(change);
    let place = place_of(ip, docker);
    lemma_alone(w.services, name, ip);
    if let Some(d) = docker {
        lemma_one_place(w.services, name, ip, d);
    }
    let v = w.teardown_partial_replicas(name, place);
    assert(after == v.without_replicas(name, place));
    laws::lemma_partial_reduced(w, name, place);
    laws::lemma_partial_shape(w, name, place);
    laws::lemma_without_replicas_shape(v, name, place);
    assert forall|n: Seq<char>, x: IpAddr, y: Option<Seq<char>>| #[trigger]
        laws::port_at(after.services, n, x, y) == (if n == name && is_there(ip, docker, x, y) {
            None
        } else {
            laws::port_at(w.services, n, x, y)
        }) by {
        assert(laws::port_at(v.services, n, x, y) == laws::port_at(w.services, n, x, y));
    }
    assert forall|n: Seq<char>| #[trigger]
        laws::config_at(after.services, n) == laws::config_at(w.services, n) by {
        assert(laws::config_at(v.services, n) == laws::config_at(w.services, n));
    }
    assert forall|n: Seq<char>, x: IpAddr, y: Option<Seq<char>>, c: ClientView|
        c.proxy is Some implies #[trigger] connections::conn(after.services, n, x, y, c) == (if (n
        == name && is_there(ip, docker, x, y)) || leads_there(
        w.services,
        name,
        ip,
        docker,
        n,
        x,
        y,
    ) {
        None
    } else {
        connections::conn(w.services, n, x, y, c)
    }) by {
        lemma_partial(w, name, ip, docker, n, x, y, c);
        lemma_rest(v, name, place, n, x, y, c);
    }
}

/// Replicas that stop take their connections along and no others.
proof fn lemma_rest(
    v: World,
    name: Seq<char>,
    place: PlaceView,
    n: Seq<char>,
    x: IpAddr,
    y: Option<Seq<char>>,
    c: ClientView,
)
    requires
        connections::services_wf(v.services),
    ensures
        connections::conn(v.without_replicas(name, place).services, n, x, y, c) == (if n == name
            && place.covers(x, y) {
            None
        } else {
            connections::conn(v.services, n, x, y, c)
        }),
{
    connections::lemma_wf_of(v.services, name);
    if let Some(si) = table::lookup(v.services, name) {
        let next = si.without_replicas(place);
        laws::lemma_put_registered(v.services, name, next, n);
        if let ServiceView::Registered(reg) = si {
            connections::lemma_without_replicas(reg, place);
            let rest = reg.without_replicas(place);
            assert(connections::replica_conn(rest, x, y, c) == (if place.covers(x, y) {
                None
            } else {
                connections::replica_conn(reg, x, y, c)
            }));
            if rest.replicas.len() == 0 && rest.has_replica(x, y) {
                assert(rest.is_replica(x, y, rest.replica_index(x, y)));
            }
        }
    }
}

/// The proxy clients that a change disconnects, where it leaves services and replicas alone: those of a
/// service that is an entry point no more or just became one, those behind a proxy that is gone, or one
/// that timed out.
pub open spec fn is_disconnected(change: ChangeView, n: Seq<char>, c: ClientView) -> bool {
    match change {
        ChangeView::ReachabilityChanged { name } => n == name,
        ChangeView::ProxyDisconnected { ip } => c.proxy == Some(ip),
        ChangeView::ProxyClientTimedOut { name, client } => n == name && c == client,
        _ => false,
    }
}

/// A change of what is reachable, the loss of a proxy, the timeout of a client and the timeout of a
/// triggered chain disconnect exactly the proxy clients that they name. Everything runs where it ran.
pub proof fn law_clients_end(w: World, change: ChangeView)
    requires
        connections::services_wf(w.services),
        change is ReachabilityChanged || change is ProxyDisconnected || change is ProxyClientTimedOut
            || change is BackendChainTimedOut,
    ensures
        ({
            let after = w.apply(change);
            &&& forall|n: Seq<char>, x: IpAddr, y: Option<Seq<char>>, c: ClientView|
                c.proxy is Some ==> #[trigger] connections::conn(after.services, n, x, y, c) == (
                if is_disconnected(change, n, c) {
                    None
                } else {
                    connections::conn(w.services, n, x, y, c)
                })
            &&& forall|n: Seq<char>, x: IpAddr, y: Option<Seq<char>>| #[trigger]
                laws::port_at(after.services, n, x, y) == laws::port_at(w.services, n, x, y)
            &&& forall|n: Seq<char>| #[trigger]
                laws::config_at(after.services, n) == laws::config_at(w.services, n)
        }),
{
    reveal(World::apply);
    let after = w.apply(change);
    match change {
        ChangeView::ReachabilityChanged { name } => {
            laws::law_teardown_chain(w, name, FilterView::All);
            laws::law_teardown_keeps_shape(w, name, FilterView::All);
        },
        ChangeView::ProxyClientTimedOut { name, client } => {
            laws::law_teardown_chain(w, name, FilterView::ByClient(client));
            laws::law_teardown_keeps_shape(w, name, FilterView::ByClient(client));
        },
        ChangeView::ProxyDisconnected { ip } => {
            let names = seqs::concat_map(w.services, world::served_through(ip));
            laws::lemma_teardown_chains_shape(w, names, FilterView::ByIp(ip));
            assert forall|n: Seq<char>, x: IpAddr, y: Option<Seq<char>>, c: ClientView|
                c.proxy is Some implies #[trigger] connections::conn(after.services, n, x, y, c)
                == (if is_disconnected(change, n, c) {
                None
            } else {
                connections::conn(w.services, n, x, y, c)
            }) by {
                if c.proxy == Some(ip) {
                    laws::law_proxy_disconnected(w, ip, n, x, y, c);
                } else {
                    lemma_other_proxies(w, names, ip, n, x, y, c);
                }
            }
        },
        ChangeView::BackendChainTimedOut {
            initiator_name,
            initiator_ip,
            initiator_docker,
            first_dependency,
        } => {
            let node = world::NodeView {
                name: initiator_name,
                ip: initiator_ip,
                docker: initiator_docker,
            };
            laws::lemma_proxies_kept(w);
            laws::lemma_backend_keeps(
                w,
                node,
                first_dependency,
                |u: World|
                    connections::services_wf(u.services) && laws::same_proxy_conns(
                        w.services,
                        u.services,
                    ),
            );
            laws::lemma_reduced_same(w);
            laws::lemma_reduced_kept(w);
            laws::lemma_backend_keeps(
                w,
                node,
                first_dependency,
                |u: World| laws::reduced(w, u) && laws::same_shape(w.services, u.services),
            );
        },
        _ => {},
    }
}

proof fn lemma_other_proxies(
    w: World,
    names: Seq<Seq<char>>,
    ip: IpAddr,
    n: Seq<char>,
    x: IpAddr,
    y: Option<Seq<char>>,
    c: ClientView,
)
    requires
        connections::services_wf(w.services),
        c.proxy is Some,
        c.proxy != Some(ip),
    ensures
        connections::conn(
            seqs::fold(w, names, world::take_down(FilterView::ByIp(ip))).services,
            n,
            x,
            y,
            c,
        ) == connections::conn(w.services, n, x, y, c),
{
    let f = world::take_down(FilterView::ByIp(ip));
    let p = |u: World|
        connections::services_wf(u.services) && connections::conn(u.services, n, x, y, c)
            == connections::conn(w.services, n, x, y, c);
    assert forall|u: World, name: Seq<char>| p(u) && names.contains(name) implies #[trigger] p(
        f(u, name),
    ) by {
        laws::lemma_teardown_chain_reduced(u, name, FilterView::ByIp(ip));
        laws::law_teardown_chain(u, name, FilterView::ByIp(ip));
    }
    seqs::lemma_fold_keeps(w, names, f, p);
}

/// A service that ran before and does not any more has no dependent with a proxy client.
pub open spec fn no_orphans(w: World, v: World) -> bool {
    forall|m: Seq<char>, n: Seq<char>, ip: IpAddr, docker: Option<Seq<char>>, c: ClientView|
        c.proxy is Some && is_affected(w.services, n, m) && model::registered(w.services, m) is Some
            && (#[trigger] model::registered(v.services, m)) is None ==> (
        #[trigger] connections::conn(v.services, n, ip, docker, c)) is None
}

/// A service stops running only by a change that ends it.
proof fn lemma_stops(w: World, change: ChangeView, m: Seq<char>)
    requires
        connections::services_wf(w.services),
        model::registered(w.services, m) is Some,
        model::registered(w.apply(change).services, m) is None,
    ensures
        ends_service(w.services, change, m) || (change matches ChangeView::ReplicaRemoved {
            name,
            ip,
            docker_container,
        } && name == m && world::runs_once(w.services, m)),
{
    reveal(World::apply);
    laws::lemma_apply_reduced(w, change);
    let after = w.apply(change);
    lemma_somewhere_at(w, m);
    let r = model::registered(w.services, m)->0.replicas[0];
    match change {
        ChangeView::Removed { name } => {
            law_service_ends(w, change, name);
        },
        ChangeView::DepsChanged { name } => {
            law_service_ends(w, change, name);
        },
        ChangeView::ReplicasRemoved { name, ip } => {
            lemma_alone(w.services, name, ip);
            if world::runs_only_on(w.services, name, ip) {
                law_service_ends(w, change, name);
            } else {
                lemma_rest_runs(w, name, PlaceView::Host(ip), m);
            }
        },
        ChangeView::ReplicaRemoved { name, ip, docker_container } => {
            if world::runs_once(w.services, name) {
                laws::lemma_invalidated_shape(w, name, true);
            } else {
                lemma_rest_runs(w, name, PlaceView::Replica(ip, docker_container), m);
            }
        },
        _ => {
            law_clients_end(w, change);
        },
    }
    assert(laws::port_at(after.services, m, r.ip, r.docker_container) is None);
}

proof fn lemma_somewhere_at(w: World, m: Seq<char>)
    requires
        connections::services_wf(w.services),
        model::registered(w.services, m) is Some,
    ensures
        ({
            let reg = model::registered(w.services, m)->0;
            reg.replicas.len() > 0 && laws::port_at(
                w.services,
                m,
                reg.replicas[0].ip,
                reg.replicas[0].docker_container,
            ) is Some
        }),
{
    connections::lemma_wf_of(w.services, m);
    lemma_somewhere(w.services, m, 0);
}

/// A service that loses some of its replicas still runs.
proof fn lemma_rest_runs(w: World, name: Seq<char>, place: PlaceView, m: Seq<char>)
    requires
        connections::services_wf(w.services),
        model::registered(w.services, m) is Some,
        match place {
            PlaceView::Host(ip) => !world::runs_only_on(w.services, name, ip),
            PlaceView::Replica(_, _) => !world::runs_once(w.services, name),
        },
    ensures
        model::registered(
            w.teardown_partial_replicas(name, place).without_replicas(name, place).services,
            m,
        ) is Some,
{
    let v = w.teardown_partial_replicas(name, place);
    laws::lemma_partial_reduced(w, name, place);
    laws::lemma_partial_shape(w, name, place);
    laws::lemma_without_replicas_shape(v, name, place);
    let reg = model::registered(w.services, m)->0;
    connections::lemma_wf_of(w.services, m);
    let i: int = if m == name {
        match place {
            PlaceView::Host(ip) => choose|i: int|
                0 <= i < reg.replicas.len() && (#[trigger] reg.replicas[i]).ip != ip,
            PlaceView::Replica(ip, docker) => if reg.replicas[0].matches(ip, docker) {
                1
            } else {
                0
            },
        }
    } else {
        0
    };
    assert(0 <= i < reg.replicas.len());
    let r = reg.replicas[i];
    if m == name {
        if let PlaceView::Replica(ip, docker) = place {
            let a = reg.replicas[0];
            assert(!(reg.replicas[0].ip == reg.replicas[1].ip && reg.replicas[0].docker_container
                == reg.replicas[1].docker_container));
        }
        assert(!place.covers(r.ip, r.docker_container));
    }
    lemma_somewhere(w.services, m, i);
    assert(laws::port_at(v.services, m, r.ip, r.docker_container) is Some);
    let after = v.without_replicas(name, place);
    assert(laws::port_at(after.services, m, r.ip, r.docker_container) is Some);
}

/// Whatever the changes that services are brought in line with: no service is left with a proxy client
/// whose chain leads over a service that does not run any more. Of every service that ran before and does
/// not after, neither it nor a service that is configured with it as a dependency, at whatever position,
/// has a proxy client.
pub proof fn law_no_orphans(w: World, list: Seq<ChangeView>)
    requires
        connections::services_wf(w.services),
    ensures
        no_orphans(w, w.apply_all(list)),
{
    let f = world::apply_change();
    let p = |v: World| laws::reduced(w, v) && no_orphans(w, v);
    laws::lemma_reduced_same(w);
    assert forall|v: World, x: ChangeView| p(v) && list.contains(x) implies #[trigger] p(
        f(v, x),
    ) by {
        laws::lemma_apply_reduced(v, x);
        let u = f(v, x);
        laws::lemma_reduced_twice(w, v, u);
        assert forall|
            m: Seq<char>,
            n: Seq<char>,
            ip: IpAddr,
            docker: Option<Seq<char>>,
            c: ClientView,
        |
            c.proxy is Some && is_affected(w.services, n, m) && model::registered(
                w.services,
                m,
            ) is Some && (#[trigger] model::registered(u.services, m)) is None implies (
        #[trigger] connections::conn(u.services, n, ip, docker, c)) is None by {
            if connections::conn(u.services, n, ip, docker, c) is Some {
                assert(laws::conn_kept(
                    connections::conn(v.services, n, ip, docker, c),
                    connections::conn(u.services, n, ip, docker, c),
                ));
                assert(connections::conn(v.services, n, ip, docker, c) is Some);
                assert(model::registered(v.services, m) is Some);
                // the service still has the configuration that it had
                assert(laws::config_at(v.services, n) is Some);
                assert(laws::config_at(v.services, n) == laws::config_at(w.services, n));
                assert(is_affected(v.services, n, m));
                lemma_stops(v, x, m);
                if ends_service(v.services, x, m) {
                    law_service_ends(v, x, m);
                } else {
                    reveal(World::apply);
                    lemma_invalidated(v, m, true);
                }
            }
        }
    }
    seqs::lemma_fold_keeps(w, list, f, p);
}

} // verus!
