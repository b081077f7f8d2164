//! What the changes to services keep and bring about.
use crate::addr::IpAddr;
use crate::orchestrator::{DispatchView, OrchestratorView};
use crate::seqs;
use crate::services::changes;
use crate::services::clients::{ClientInfoView, ClientView};
use crate::services::connections;
use crate::services::model;
use crate::services::model::{
    ConfigView, EntryView, PlaceView, RegisteredView, ReplicaView, ServiceView, ServicesView,
};
use crate::services::world;
use crate::services::world::{ChainEdge, ChainHop, ChangeView, FilterView, NodeView, World};
use crate::table;
use vstd::prelude::*;

verus! {

/// The configuration of service `name`.
pub open spec fn config_at(services: ServicesView, name: Seq<char>) -> Option<ConfigView> {
    match table::lookup(services, name) {
        Some(si) => Some(si.config()),
        None => None,
    }
}

/// The port of the replica of service `name` at `ip` in container `docker`, where one runs.
pub open spec fn port_at(
    services: ServicesView,
    name: Seq<char>,
    ip: IpAddr,
    docker: Option<Seq<char>>,
) -> Option<u16> {
    match model::registered(services, name) {
        Some(reg) => replica_port(reg, ip, docker),
        None => None,
    }
}

/// The port of the replica at `ip` in container `docker`, where one runs.
pub open spec fn replica_port(
    reg: RegisteredView,
    ip: IpAddr,
    docker: Option<Seq<char>>,
) -> Option<u16> {
    if reg.has_replica(ip, docker) {
        Some(reg.replicas[reg.replica_index(ip, docker)].port)
    } else {
        None
    }
}

/// Where a replica runs: its host, its container and its port.
pub type Site = (IpAddr, Option<Seq<char>>, u16);

/// Where a replica runs, as a function.
pub open spec fn site_of() -> spec_fn(ReplicaView) -> Site {
    |r: ReplicaView| (r.ip, r.docker_container, r.port)
}

/// Where the replicas of service `name` run, in their order.
pub open spec fn sites_at(services: ServicesView, name: Seq<char>) -> Seq<Site> {
    match table::lookup(services, name) {
        Some(si) => si.replicas().map_values(site_of()),
        None => Seq::empty(),
    }
}

/// A connection that is there after a reduction was there before, with no fewer chains, and was the
/// entry of a backend chain if it is one. Else it is the same.
pub open spec fn conn_kept(before: Option<ClientInfoView>, after: Option<ClientInfoView>) -> bool {
    after matches Some(ci) ==> {
        &&& before is Some
        &&& ci.active_chains <= before->0.active_chains
        &&& ci.is_backend_entry ==> before->0.is_backend_entry
        &&& ci == ClientInfoView {
            active_chains: ci.active_chains,
            is_backend_entry: ci.is_backend_entry,
            ..before->0
        }
    }
}

/// Service `b` is `a` after a reduction: the same configuration, and no replica or connection that
/// was not there before.
pub open spec fn service_reduced(a: ServiceView, b: ServiceView) -> bool {
    &&& b.config() == a.config()
    &&& match b {
        ServiceView::Unregistered(_) => true,
        ServiceView::Registered(after) => match a {
            ServiceView::Unregistered(_) => false,
            ServiceView::Registered(before) => {
                &&& forall|ip: IpAddr, docker: Option<Seq<char>>| #[trigger]
                    replica_port(after, ip, docker) is Some ==> replica_port(after, ip, docker)
                        == replica_port(before, ip, docker)
                &&& forall|ip: IpAddr, docker: Option<Seq<char>>, c: ClientView|
                    conn_kept(
                        connections::replica_conn(before, ip, docker, c),
                        #[trigger] connections::replica_conn(after, ip, docker, c),
                    )
            },
        },
    }
}

/// The services `b` are `a` after a reduction: no service, replica or connection that was not there
/// before, and the same configurations.
pub open spec fn services_reduced(a: ServicesView, b: ServicesView) -> bool {
    &&& forall|name: Seq<char>| #[trigger]
        config_at(b, name) is Some ==> config_at(b, name) == config_at(a, name)
    &&& forall|name: Seq<char>, ip: IpAddr, docker: Option<Seq<char>>| #[trigger]
        port_at(b, name, ip, docker) is Some ==> port_at(b, name, ip, docker) == port_at(
            a,
            name,
            ip,
            docker,
        )
    &&& forall|name: Seq<char>, ip: IpAddr, docker: Option<Seq<char>>, c: ClientView|
        conn_kept(
            connections::conn(a, name, ip, docker, c),
            #[trigger] connections::conn(b, name, ip, docker, c),
        )
}

/// A message that tears a network down.
pub open spec fn is_teardown(d: DispatchView) -> bool {
    d.message is VxlanTeardown
}

/// The orchestrator `b` is `a` after a reduction: no network identifier in use that was not before,
/// and no message but of networks that are torn down.
pub open spec fn orch_reduced(a: OrchestratorView, b: OrchestratorView) -> bool {
    &&& b.net == a.net
    &&& b.clients == a.clients
    &&& b.pending == a.pending
    &&& b.net_ids.len() <= a.net_ids.len()
    &&& forall|id: u32| #[trigger] b.net_ids.contains(id) ==> a.net_ids.contains(id)
    &&& a.net_ids.no_duplicates() ==> b.net_ids.no_duplicates()
    &&& a.outbox.len() <= b.outbox.len()
    &&& forall|k: int| 0 <= k < a.outbox.len() ==> #[trigger] b.outbox[k] == a.outbox[k]
    &&& forall|k: int| a.outbox.len() <= k < b.outbox.len() ==> is_teardown(#[trigger] b.outbox[k])
}

/// The state `b` is `a` after a reduction.
pub open spec fn reduced(a: World, b: World) -> bool {
    &&& connections::services_wf(b.services)
    &&& services_reduced(a.services, b.services)
    &&& orch_reduced(a.orch, b.orch)
}

pub(crate) proof fn lemma_reduced_same(w: World)
    requires
        connections::services_wf(w.services),
    ensures
        reduced(w, w),
{
}

/// Reductions one after the other are a reduction.
pub(crate) proof fn lemma_reduced_twice(a: World, b: World, c: World)
    requires
        reduced(a, b),
        reduced(b, c),
    ensures
        reduced(a, c),
{
    assert forall|name: Seq<char>, ip: IpAddr, docker: Option<Seq<char>>, q: ClientView|
        conn_kept(
            connections::conn(a.services, name, ip, docker, q),
            #[trigger] connections::conn(c.services, name, ip, docker, q),
        ) by {
        assert(conn_kept(
            connections::conn(b.services, name, ip, docker, q),
            connections::conn(c.services, name, ip, docker, q),
        ));
        assert(conn_kept(
            connections::conn(a.services, name, ip, docker, q),
            connections::conn(b.services, name, ip, docker, q),
        ));
    }
    assert forall|name: Seq<char>| #[trigger] config_at(c.services, name) is Some implies config_at(
        c.services,
        name,
    ) == config_at(a.services, name) by {
        assert(config_at(b.services, name) is Some);
    }
    assert forall|name: Seq<char>, ip: IpAddr, docker: Option<Seq<char>>| #[trigger]
        port_at(c.services, name, ip, docker) is Some implies port_at(c.services, name, ip, docker)
        == port_at(a.services, name, ip, docker) by {
        assert(port_at(b.services, name, ip, docker) is Some);
    }
    assert forall|k: int| a.orch.outbox.len() <= k < c.orch.outbox.len() implies is_teardown(
        #[trigger] c.orch.outbox[k],
    ) by {
        if k < b.orch.outbox.len() {
            assert(c.orch.outbox[k] == b.orch.outbox[k]);
        }
    }
    assert forall|k: int| 0 <= k < a.orch.outbox.len() implies #[trigger] c.orch.outbox[k]
        == a.orch.outbox[k] by {
        assert(c.orch.outbox[k] == b.orch.outbox[k]);
    }
}

/// The running service under a name after one was replaced.
pub proof fn lemma_put_registered(
    services: ServicesView,
    name: Seq<char>,
    si: ServiceView,
    q: Seq<char>,
)
    ensures
        model::registered(table::put(services, name, si), q) == (if q == name {
            match si {
                ServiceView::Registered(reg) => Some(reg),
                ServiceView::Unregistered(_) => None,
            }
        } else {
            model::registered(services, q)
        }),
{
    table::lemma_put(services, name, si, q);
}

/// A service that is reduced reduces the services.
pub(crate) proof fn lemma_put_reduced(w: World, name: Seq<char>, si: ServiceView)
    requires
        connections::services_wf(w.services),
        connections::service_wf(si),
        table::lookup(w.services, name) is Some,
        service_reduced(table::lookup(w.services, name)->0, si),
    ensures
        reduced(w, w.with_service(name, si)),
{
    let a = w.services;
    let b = table::put(a, name, si);
    let old_si = table::lookup(a, name)->0;
    connections::lemma_put_wf(a, name, si);
    assert forall|q: Seq<char>| #[trigger] config_at(b, q) is Some implies config_at(b, q)
        == config_at(a, q) by {
        table::lemma_put(a, name, si, q);
    }
    assert forall|q: Seq<char>, ip: IpAddr, docker: Option<Seq<char>>| #[trigger]
        port_at(b, q, ip, docker) is Some implies port_at(b, q, ip, docker) == port_at(
        a,
        q,
        ip,
        docker,
    ) by {
        lemma_put_registered(a, name, si, q);
        if q == name {
            let after = si->Registered_0;
            assert(replica_port(after, ip, docker) is Some);
        }
    }
    assert forall|q: Seq<char>, ip: IpAddr, docker: Option<Seq<char>>, c: ClientView|
        conn_kept(
            connections::conn(a, q, ip, docker, c),
            #[trigger] connections::conn(b, q, ip, docker, c),
        ) by {
        lemma_put_registered(a, name, si, q);
        if q == name && si is Registered {
            let after = si->Registered_0;
            assert(conn_kept(
                connections::replica_conn(old_si->Registered_0, ip, docker, c),
                connections::replica_conn(after, ip, docker, c),
            ));
        }
    }
}

/// A running service with other connections on its replicas has the ports that it had.
pub(crate) proof fn lemma_ports_kept(before: RegisteredView, after: RegisteredView)
    requires
        connections::distinct_replicas(before),
        connections::distinct_replicas(after),
        after.replicas.len() == before.replicas.len(),
        forall|k: int|
            0 <= k < before.replicas.len() ==> (#[trigger] after.replicas[k])
                == before.replicas[k].with_clients(after.replicas[k].clients),
    ensures
        forall|ip: IpAddr, docker: Option<Seq<char>>| #[trigger]
            replica_port(after, ip, docker) == replica_port(before, ip, docker),
        after.replicas.map_values(site_of()) == before.replicas.map_values(site_of()),
{
    assert(after.replicas.map_values(site_of()) =~= before.replicas.map_values(site_of()));
    assert forall|ip: IpAddr, docker: Option<Seq<char>>| #[trigger]
        replica_port(after, ip, docker) == replica_port(before, ip, docker) by {
        if after.has_replica(ip, docker) {
            let k = after.replica_index(ip, docker);
            assert(after.is_replica(ip, docker, k));
            assert(before.replicas[k].matches(ip, docker));
            connections::lemma_index(before, k);
        }
        if before.has_replica(ip, docker) {
            let k = before.replica_index(ip, docker);
            assert(before.is_replica(ip, docker, k));
            assert(after.replicas[k].matches(ip, docker));
            connections::lemma_index(after, k);
        }
    }
}

/// A client that leaves reduces the service.
pub(crate) proof fn lemma_without_client_reduced(reg: RegisteredView, c: ClientView)
    requires
        connections::registered_wf(reg),
    ensures
        connections::registered_wf(reg.without_client(c)),
        service_reduced(
            ServiceView::Registered(reg),
            ServiceView::Registered(reg.without_client(c)),
        ),
{
    connections::lemma_without_client(reg, c);
    let after = reg.without_client(c);
    if reg.holds(c) {
        assert(reg.is_holder(c, reg.holder(c)));
    }
    lemma_ports_kept(reg, after);
}

/// One chain fewer reduces the service, and frees a network or none.
pub(crate) proof fn lemma_decremented_reduced(reg: RegisteredView, c: ClientView, orch: OrchestratorView)
    requires
        connections::registered_wf(reg),
    ensures
        connections::registered_wf(reg.decremented(c, orch).0),
        service_reduced(
            ServiceView::Registered(reg),
            ServiceView::Registered(reg.decremented(c, orch).0),
        ),
        orch_reduced(orch, reg.decremented(c, orch).1),
{
    connections::lemma_holds(reg, c);
    if let Some(ci) = reg.info(c) {
        let i = reg.holder(c);
        assert(reg.is_holder(c, i));
        let r = reg.replicas[i];
        if ci.active_chains <= 1 {
            lemma_without_client_reduced(reg, c);
            lemma_teardown_reduced(
                orch,
                ci.client_ip,
                ci.docker_container,
                r.ip,
                r.docker_container,
                ci.net_id,
            );
        } else {
            let fewer = ci.without_chains(1);
            connections::lemma_with_info(reg, c, fewer);
            let after = reg.with_info(c, fewer);
            lemma_ports_kept(reg, after);
            assert forall|ip: IpAddr, docker: Option<Seq<char>>, q: ClientView|
                conn_kept(
                    connections::replica_conn(reg, ip, docker, q),
                    #[trigger] connections::replica_conn(after, ip, docker, q),
                ) by {
                if q == c && r.matches(ip, docker) {
                    connections::lemma_index(reg, i);
                }
            }
        }
    }
}

/// One chain fewer over the connection to a replica reduces the service, and frees a network or none.
pub(crate) proof fn lemma_decremented_at_reduced(
    reg: RegisteredView,
    ip: IpAddr,
    docker: Option<Seq<char>>,
    c: ClientView,
    orch: OrchestratorView,
)
    requires
        connections::registered_wf(reg),
    ensures
        connections::registered_wf(reg.decremented_at(ip, docker, c, orch).0),
        service_reduced(
            ServiceView::Registered(reg),
            ServiceView::Registered(reg.decremented_at(ip, docker, c, orch).0),
        ),
        orch_reduced(orch, reg.decremented_at(ip, docker, c, orch).1),
        forall|a: IpAddr, b: Option<Seq<char>>| #[trigger]
            replica_port(reg.decremented_at(ip, docker, c, orch).0, a, b) == replica_port(reg, a, b),
        reg.decremented_at(ip, docker, c, orch).0.replicas.map_values(site_of())
            == reg.replicas.map_values(site_of()),
        forall|x: IpAddr, y: Option<Seq<char>>, q: ClientView|
            !(x == ip && y == docker && q == c) ==> #[trigger] connections::replica_conn(
                reg.decremented_at(ip, docker, c, orch).0,
                x,
                y,
                q,
            ) == connections::replica_conn(reg, x, y, q),
{
    if let Some(ci) = reg.info_at(ip, docker, c) {
        let (after, _) = reg.decremented_at(ip, docker, c, orch);
        let i = reg.replica_index(ip, docker);
        assert(reg.is_replica(ip, docker, i));
        if ci.active_chains <= 1 {
            connections::lemma_without_client_at(reg, ip, docker, c);
            lemma_teardown_reduced(
                orch,
                ci.client_ip,
                ci.docker_container,
                ip,
                docker,
                ci.net_id,
            );
        } else {
            if c.proxy is Some {
                connections::lemma_sticky_holder(reg, c, i);
            }
            connections::lemma_with_client(reg, ip, docker, c, ci.without_chains(1));
        }
        lemma_ports_kept(reg, after);
        assert forall|a: IpAddr, b: Option<Seq<char>>, q: ClientView|
            conn_kept(
                connections::replica_conn(reg, a, b, q),
                #[trigger] connections::replica_conn(after, a, b, q),
            ) by {
            if q == c && a == ip && b == docker {
                assert(connections::replica_conn(reg, a, b, q) == Some(ci));
            }
        }
    }
}

/// Taking out an element leaves the others.
pub proof fn lemma_without_contains<A>(s: Seq<A>, x: A)
    ensures
        seqs::without(s, x).len() <= s.len(),
        forall|y: A| #[trigger] seqs::without(s, x).contains(y) ==> s.contains(y),
        forall|y: A| y != x && #[trigger] s.contains(y) ==> seqs::without(s, x).contains(y),
        s.no_duplicates() ==> seqs::without(s, x).no_duplicates() && !seqs::without(s, x).contains(
            x,
        ),
        s.contains(x) ==> seqs::without(s, x).len() == s.len() - 1,
        !s.contains(x) ==> seqs::without(s, x) == s,
{
    let t = seqs::without(s, x);
    if s.contains(x) {
        let w = choose|w: int| 0 <= w < s.len() && s[w] == x;
        lemma_first_at(s, x, w);
    }
    if exists|i: int| seqs::is_first_at(s, x, i) {
        let i = choose|i: int| seqs::is_first_at(s, x, i);
        assert(seqs::is_first_at(s, x, i));
        assert(t == s.remove(i));
        assert forall|y: A| #[trigger] t.contains(y) implies s.contains(y) by {
            let k = choose|k: int| 0 <= k < t.len() && t[k] == y;
            assert(s[if k < i { k } else { k + 1 }] == y);
        }
        assert forall|y: A| y != x && #[trigger] s.contains(y) implies t.contains(y) by {
            let k = choose|k: int| 0 <= k < s.len() && s[k] == y;
            assert(t[if k < i { k } else { k - 1 }] == y);
        }
        if s.no_duplicates() {
            assert forall|a: int, b: int| 0 <= a < t.len() && 0 <= b < t.len() && a != b implies t[a]
                != t[b] by {
                assert(t[a] == s[if a < i { a } else { a + 1 }]);
                assert(t[b] == s[if b < i { b } else { b + 1 }]);
            }
            assert(!t.contains(x)) by {
                if t.contains(x) {
                    let k = choose|k: int| 0 <= k < t.len() && t[k] == x;
                    assert(s[if k < i { k } else { k + 1 }] == x);
                }
            }
        }
    }
}

/// An element that occurs occurs a first time.
pub proof fn lemma_first_at<A>(s: Seq<A>, x: A, w: int)
    requires
        0 <= w < s.len(),
        s[w] == x,
    ensures
        exists|i: int| seqs::is_first_at(s, x, i),
    decreases w,
{
    if exists|j: int| 0 <= j < w && #[trigger] s[j] == x {
        let j = choose|j: int| 0 <= j < w && #[trigger] s[j] == x;
        lemma_first_at(s, x, j);
    } else {
        assert(seqs::is_first_at(s, x, w));
    }
}

/// A network that is torn down reduces the orchestrator.
pub(crate) proof fn lemma_teardown_reduced(
    orch: OrchestratorView,
    client_ip: IpAddr,
    client_docker: Option<Seq<char>>,
    server_ip: IpAddr,
    server_docker: Option<Seq<char>>,
    net_id: u32,
)
    ensures
        orch_reduced(
            orch,
            orch.teardown(client_ip, client_docker, server_ip, server_docker, net_id),
        ),
{
    lemma_without_contains(orch.net_ids, net_id);
}

/// One chain fewer over a connection is a reduction.
pub(crate) proof fn lemma_decrement_reduced(w: World, c: ClientView, name: Seq<char>)
    requires
        connections::services_wf(w.services),
    ensures
        reduced(w, w.decrement(c, name)),
{
    reveal(World::decrement);
    connections::lemma_wf_of(w.services, name);
    if let Some(reg) = model::registered(w.services, name) {
        lemma_decremented_reduced(reg, c, w.orch);
        lemma_put_reduced(w, name, ServiceView::Registered(reg.decremented(c, w.orch).0));
    }
}

/// One chain fewer over the connection to a replica is a reduction.
pub(crate) proof fn lemma_decrement_at_reduced(
    w: World,
    c: ClientView,
    name: Seq<char>,
    ip: IpAddr,
    docker: Option<Seq<char>>,
)
    requires
        connections::services_wf(w.services),
    ensures
        reduced(w, w.decrement_at(c, name, ip, docker)),
        same_shape(w.services, w.decrement_at(c, name, ip, docker).services),
        same_elsewhere(w.services, w.decrement_at(c, name, ip, docker).services, name, ip, docker, c),
{
    reveal(World::decrement_at);
    connections::lemma_wf_of(w.services, name);
    if let Some(reg) = model::registered(w.services, name) {
        let (after, _) = reg.decremented_at(ip, docker, c, w.orch);
        lemma_decremented_at_reduced(reg, ip, docker, c, w.orch);
        lemma_put_reduced(w, name, ServiceView::Registered(after));
        lemma_put_shape(w, name, after);
        lemma_put_elsewhere(w, name, reg, after, ip, docker, c);
    }
}

/// Two states of the services have the same connections but for one.
pub open spec fn same_elsewhere(
    a: ServicesView,
    b: ServicesView,
    name: Seq<char>,
    ip: IpAddr,
    docker: Option<Seq<char>>,
    c: ClientView,
) -> bool {
    forall|n: Seq<char>, x: IpAddr, y: Option<Seq<char>>, q: ClientView|
        !(n == name && x == ip && y == docker && q == c) ==> #[trigger] connections::conn(
            b,
            n,
            x,
            y,
            q,
        ) == connections::conn(a, n, x, y, q)
}

/// A service with one other connection leaves the other connections of the services.
proof fn lemma_put_elsewhere(
    w: World,
    name: Seq<char>,
    reg: RegisteredView,
    after: RegisteredView,
    ip: IpAddr,
    docker: Option<Seq<char>>,
    c: ClientView,
)
    requires
        model::registered(w.services, name) == Some(reg),
        forall|x: IpAddr, y: Option<Seq<char>>, q: ClientView|
            !(x == ip && y == docker && q == c) ==> #[trigger] connections::replica_conn(
                after,
                x,
                y,
                q,
            ) == connections::replica_conn(reg, x, y, q),
    ensures
        same_elsewhere(
            w.services,
            w.with_service(name, ServiceView::Registered(after)).services,
            name,
            ip,
            docker,
            c,
        ),
{
    let b = w.with_service(name, ServiceView::Registered(after)).services;
    assert forall|n: Seq<char>, x: IpAddr, y: Option<Seq<char>>, q: ClientView|
        !(n == name && x == ip && y == docker && q == c) implies #[trigger] connections::conn(
        b,
        n,
        x,
        y,
        q,
    ) == connections::conn(w.services, n, x, y, q) by {
        lemma_put_registered(w.services, name, ServiceView::Registered(after), n);
        if n == name {
            assert(connections::replica_conn(after, x, y, q) == connections::replica_conn(
                reg,
                x,
                y,
                q,
            ));
        }
    }
}

/// Chains that end over connections are a reduction.
pub(crate) proof fn lemma_decrements_reduced(w: World, edges: Seq<ChainEdge>)
    requires
        connections::services_wf(w.services),
    ensures
        reduced(w, seqs::fold(w, edges, world::decrement_edge())),
{
    let f = world::decrement_edge();
    let p = |v: World| reduced(w, v);
    lemma_reduced_same(w);
    assert forall|v: World, e: ChainEdge| p(v) && edges.contains(e) implies #[trigger] p(
        f(v, e),
    ) by {
        lemma_decrement_reduced(v, e.0, e.1);
        lemma_reduced_twice(w, v, f(v, e));
    }
    seqs::lemma_fold_keeps(w, edges, f, p);
}

/// A connection that is the entry of a backend chain no more is a reduction.
pub(crate) proof fn lemma_marked_reduced(w: World, c: ClientView, at: NodeView)
    requires
        connections::services_wf(w.services),
    ensures
        reduced(w, w.marked_at(c, at, false)),
        same_shape(w.services, w.marked_at(c, at, false).services),
        same_elsewhere(
            w.services,
            w.marked_at(c, at, false).services,
            at.name,
            at.ip,
            at.docker,
            c,
        ),
        w.marked_at(c, at, false).orch == w.orch,
{
    reveal(World::marked_at);
    lemma_reduced_same(w);
    connections::lemma_wf_of(w.services, at.name);
    if let Some(reg) = model::registered(w.services, at.name) {
        let after = reg.marked_at(at.ip, at.docker, c, false);
        if let Some(ci) = reg.info_at(at.ip, at.docker, c) {
            let i = reg.replica_index(at.ip, at.docker);
            assert(reg.is_replica(at.ip, at.docker, i));
            if c.proxy is Some {
                connections::lemma_sticky_holder(reg, c, i);
            }
            connections::lemma_with_client(reg, at.ip, at.docker, c, ci.marked(false));
            assert forall|ip: IpAddr, docker: Option<Seq<char>>, q: ClientView|
                conn_kept(
                    connections::replica_conn(reg, ip, docker, q),
                    #[trigger] connections::replica_conn(after, ip, docker, q),
                ) by {
                if q == c && ip == at.ip && docker == at.docker {
                    assert(connections::replica_conn(reg, ip, docker, q) == Some(ci));
                }
            }
        }
        lemma_ports_kept(reg, after);
        lemma_put_reduced(w, at.name, ServiceView::Registered(after));
        lemma_put_shape(w, at.name, after);
        lemma_put_elsewhere(w, at.name, reg, after, at.ip, at.docker, c);
    }
}

/// What one chain fewer over a connection of a service keeps, and what the loss of its mark keeps.
pub(crate) open spec fn is_kept(p: spec_fn(World) -> bool) -> bool {
    &&& forall|v: World, c: ClientView, name: Seq<char>, ip: IpAddr, docker: Option<Seq<char>>|
        p(v) && c.proxy is None ==> p(#[trigger] v.decrement_at(c, name, ip, docker))
    &&& forall|v: World, c: ClientView, at: NodeView|
        p(v) && c.proxy is None ==> p(#[trigger] v.marked_at(c, at, false))
}

/// Chains that end over connections of services keep what one chain fewer keeps.
proof fn lemma_hops_keep(w: World, hops: Seq<ChainHop>, p: spec_fn(World) -> bool)
    requires
        p(w),
        is_kept(p),
        forall|h: ChainHop| #[trigger] hops.contains(h) ==> h.0.proxy is None,
    ensures
        p(seqs::fold(w, hops, world::decrement_hop())),
{
    let f = world::decrement_hop();
    assert forall|v: World, h: ChainHop| p(v) && hops.contains(h) implies #[trigger] p(
        f(v, h),
    ) by {
        assert(f(v, h) == v.decrement_at(h.0, h.1.name, h.1.ip, h.1.docker));
    }
    seqs::lemma_fold_keeps(w, hops, f, p);
}

/// The clients on the way of a chain are those of services.
proof fn lemma_path_clients(
    services: ServicesView,
    node: NodeView,
    names: Seq<Seq<char>>,
    h: ChainHop,
)
    requires
        world::path(services, node, names).contains(h),
    ensures
        h.0.proxy is None,
    decreases names.len(),
{
    let all = world::path(services, node, names);
    let next = world::connection(services, node.client(), names[0])->0;
    let k = choose|k: int| 0 <= k < all.len() && all[k] == h;
    if k > 0 {
        let rest = world::path(services, next, names.drop_first());
        assert(rest[k - 1] == h);
        lemma_path_clients(services, next, names.drop_first(), h);
    }
}

/// The clients on the way of a chain that a replica triggers are those of services.
proof fn lemma_backend_clients(
    services: ServicesView,
    node: NodeView,
    chain: Seq<Seq<char>>,
    h: ChainHop,
)
    requires
        world::backend_path(services, node, chain).contains(h),
    ensures
        h.0.proxy is None,
{
    let all = world::backend_path(services, node, chain);
    let entry = world::entry_connection(services, node.client(), chain[0])->0;
    let k = choose|k: int| 0 <= k < all.len() && all[k] == h;
    if k > 0 {
        let rest = world::path(services, entry, chain.drop_first());
        assert(rest[k - 1] == h);
        lemma_path_clients(services, entry, chain.drop_first(), h);
    }
}

/// The end of chains that a trigger set up keeps what one chain fewer and the loss of a mark keep.
pub(crate) proof fn lemma_backend_keeps(
    w: World,
    node: NodeView,
    first: Seq<char>,
    p: spec_fn(World) -> bool,
)
    requires
        p(w),
        is_kept(p),
    ensures
        p(w.teardown_backend_chain(node, first)),
{
    reveal(World::teardown_backend_chain);
    let hops = world::backend_hops(w.services, node, first);
    let chains = world::chains_from(w.services, node.name, first);
    let f = world::whole_path(w.services, node);
    assert forall|h: ChainHop| #[trigger] hops.contains(h) implies h.0.proxy is None by {
        if seqs::concat_map(chains, f).len() > 0 {
            let i = seqs::lemma_concat_map_from(chains, f, h);
            assert(f(chains[i]).contains(h));
            lemma_backend_clients(w.services, node, chains[i], h);
        } else if chains.len() > 0 {
            lemma_backend_clients(w.services, node, chains[0], h);
        } else {
            lemma_backend_clients(w.services, node, seq![first], h);
        }
    }
    lemma_hops_keep(w, hops, p);
    let v = seqs::fold(w, hops, world::decrement_hop());
    if let Some(entry) = world::entry_connection(w.services, node.client(), first) {
        assert(p(v.marked_at(node.client(), entry, false)));
    }
}

/// One chain fewer and the loss of a mark are reductions, which leave the shape as it is.
pub(crate) proof fn lemma_reduced_kept(w: World)
    requires
        connections::services_wf(w.services),
    ensures
        is_kept(|v: World| reduced(w, v) && same_shape(w.services, v.services)),
{
    let p = |v: World| reduced(w, v) && same_shape(w.services, v.services);
    assert forall|v: World, c: ClientView, name: Seq<char>, ip: IpAddr, docker: Option<Seq<char>>|
        p(v) && c.proxy is None implies p(#[trigger] v.decrement_at(c, name, ip, docker)) by {
        lemma_decrement_at_reduced(v, c, name, ip, docker);
        lemma_reduced_twice(w, v, v.decrement_at(c, name, ip, docker));
    }
    assert forall|v: World, c: ClientView, at: NodeView| p(v) && c.proxy is None implies p(
        #[trigger] v.marked_at(c, at, false),
    ) by {
        lemma_marked_reduced(v, c, at);
        lemma_reduced_twice(w, v, v.marked_at(c, at, false));
    }
}

/// One chain fewer over the connection of a service, and the loss of its mark, leave proxy clients
/// alone.
pub(crate) proof fn lemma_proxies_kept(w: World)
    requires
        connections::services_wf(w.services),
    ensures
        is_kept(
            |v: World|
                connections::services_wf(v.services) && same_proxy_conns(w.services, v.services),
        ),
{
    let p = |v: World|
        connections::services_wf(v.services) && same_proxy_conns(w.services, v.services);
    assert forall|v: World, c: ClientView, name: Seq<char>, ip: IpAddr, docker: Option<Seq<char>>|
        p(v) && c.proxy is None implies p(#[trigger] v.decrement_at(c, name, ip, docker)) by {
        lemma_decrement_at_reduced(v, c, name, ip, docker);
    }
    assert forall|v: World, c: ClientView, at: NodeView| p(v) && c.proxy is None implies p(
        #[trigger] v.marked_at(c, at, false),
    ) by {
        lemma_marked_reduced(v, c, at);
    }
}

/// The end of a dependency chain is a reduction.
pub(crate) proof fn lemma_dep_chain_reduced(w: World, node: NodeView)
    requires
        connections::services_wf(w.services),
    ensures
        reduced(w, w.teardown_dep_chain(node)),
{
    reveal(World::teardown_dep_chain);
    lemma_decrements_reduced(w, world::dep_edges(w.services, node));
}

/// The end of the dependency chains of connections is a reduction.
pub(crate) proof fn lemma_dep_chains_reduced(w: World, name: Seq<char>, entries: Seq<EntryView>)
    requires
        connections::services_wf(w.services),
    ensures
        reduced(w, seqs::fold(w, entries, world::take_down_deps(name))),
{
    let f = world::take_down_deps(name);
    let p = |v: World| reduced(w, v);
    lemma_reduced_same(w);
    assert forall|v: World, e: EntryView| p(v) && entries.contains(e) implies #[trigger] p(
        f(v, e),
    ) by {
        lemma_dep_chain_reduced(v, NodeView { name, ip: e.ip, docker: e.docker_container });
        lemma_reduced_twice(w, v, f(v, e));
    }
    seqs::lemma_fold_keeps(w, entries, f, p);
}

pub(crate) proof fn lemma_orch_reduced_twice(a: OrchestratorView, b: OrchestratorView, c: OrchestratorView)
    requires
        orch_reduced(a, b),
        orch_reduced(b, c),
    ensures
        orch_reduced(a, c),
{
    assert forall|k: int| a.outbox.len() <= k < c.outbox.len() implies is_teardown(
        #[trigger] c.outbox[k],
    ) by {
        if k < b.outbox.len() {
            assert(c.outbox[k] == b.outbox[k]);
        }
    }
    assert forall|k: int| 0 <= k < a.outbox.len() implies #[trigger] c.outbox[k]
        == a.outbox[k] by {
        assert(c.outbox[k] == b.outbox[k]);
    }
}

/// The end of the networks of connections reduces the orchestrator.
pub(crate) proof fn lemma_nets_reduced(orch: OrchestratorView, entries: Seq<EntryView>)
    ensures
        orch_reduced(orch, seqs::fold(orch, entries, world::take_down_net())),
{
    let f = world::take_down_net();
    let p = |o: OrchestratorView| orch_reduced(orch, o);
    assert forall|o: OrchestratorView, e: EntryView| p(o) && entries.contains(e) implies #[trigger] p(
        f(o, e),
    ) by {
        lemma_teardown_reduced(
            o,
            e.info.client_ip,
            e.info.docker_container,
            e.ip,
            e.docker_container,
            e.info.net_id,
        );
        lemma_orch_reduced_twice(orch, o, f(o, e));
    }
    seqs::lemma_fold_keeps(orch, entries, f, p);
}

pub(crate) proof fn lemma_service_reduced_twice(a: RegisteredView, b: RegisteredView, c: RegisteredView)
    requires
        service_reduced(ServiceView::Registered(a), ServiceView::Registered(b)),
        service_reduced(ServiceView::Registered(b), ServiceView::Registered(c)),
    ensures
        service_reduced(ServiceView::Registered(a), ServiceView::Registered(c)),
{
    assert forall|ip: IpAddr, docker: Option<Seq<char>>| #[trigger]
        replica_port(c, ip, docker) is Some implies replica_port(c, ip, docker) == replica_port(
        a,
        ip,
        docker,
    ) by {
        assert(replica_port(b, ip, docker) is Some);
    }
    assert forall|ip: IpAddr, docker: Option<Seq<char>>, q: ClientView|
        conn_kept(
            connections::replica_conn(a, ip, docker, q),
            #[trigger] connections::replica_conn(c, ip, docker, q),
        ) by {
        assert(conn_kept(
            connections::replica_conn(b, ip, docker, q),
            connections::replica_conn(c, ip, docker, q),
        ));
        assert(conn_kept(
            connections::replica_conn(a, ip, docker, q),
            connections::replica_conn(b, ip, docker, q),
        ));
    }
}

/// Clients that leave reduce the service.
pub(crate) proof fn lemma_disconnects_reduced(reg: RegisteredView, entries: Seq<EntryView>)
    requires
        connections::registered_wf(reg),
    ensures
        connections::registered_wf(seqs::fold(reg, entries, world::disconnect())),
        service_reduced(
            ServiceView::Registered(reg),
            ServiceView::Registered(seqs::fold(reg, entries, world::disconnect())),
        ),
{
    let f = world::disconnect();
    let p = |r: RegisteredView|
        connections::registered_wf(r) && service_reduced(
            ServiceView::Registered(reg),
            ServiceView::Registered(r),
        );
    assert forall|r: RegisteredView, e: EntryView| p(r) && entries.contains(e) implies #[trigger] p(
        f(r, e),
    ) by {
        lemma_without_client_reduced(r, e.client);
        lemma_service_reduced_twice(reg, r, f(r, e));
    }
    seqs::lemma_fold_keeps(reg, entries, f, p);
}

/// Chains that are taken down are a reduction.
pub(crate) proof fn lemma_teardown_chain_reduced(w: World, name: Seq<char>, filter: FilterView)
    requires
        connections::services_wf(w.services),
    ensures
        reduced(w, w.teardown_chain(name, filter)),
{
    reveal(World::teardown_chain);
    lemma_reduced_same(w);
    if let Some(reg) = model::registered(w.services, name) {
        let entries = seqs::concat_map(reg.entries(), filter.selected());
        let w1 = seqs::fold(w, entries, world::take_down_deps(name));
        lemma_dep_chains_reduced(w, name, entries);
        let w2 = World { orch: seqs::fold(w1.orch, entries, world::take_down_net()), ..w1 };
        lemma_nets_reduced(w1.orch, entries);
        lemma_reduced_same(w1);
        lemma_reduced_twice(w, w1, w2);
        connections::lemma_wf_of(w2.services, name);
        if let Some(reg) = model::registered(w2.services, name) {
            lemma_disconnects_reduced(reg, entries);
            let si = ServiceView::Registered(seqs::fold(reg, entries, world::disconnect()));
            lemma_put_reduced(w2, name, si);
            lemma_reduced_twice(w, w2, w2.with_service(name, si));
        }
    }
}

/// Chains of several services that are taken down are a reduction.
pub(crate) proof fn lemma_teardown_chains_reduced(w: World, names: Seq<Seq<char>>, filter: FilterView)
    requires
        connections::services_wf(w.services),
    ensures
        reduced(w, seqs::fold(w, names, world::take_down(filter))),
{
    let f = world::take_down(filter);
    let p = |v: World| reduced(w, v);
    lemma_reduced_same(w);
    assert forall|v: World, name: Seq<char>| p(v) && names.contains(name) implies #[trigger] p(
        f(v, name),
    ) by {
        lemma_teardown_chain_reduced(v, name, filter);
        lemma_reduced_twice(w, v, f(v, name));
    }
    seqs::lemma_fold_keeps(w, names, f, p);
}

/// A service that is invalidated is a reduction.
pub(crate) proof fn lemma_invalidated_reduced(w: World, name: Seq<char>, is_failed: bool)
    requires
        connections::services_wf(w.services),
    ensures
        reduced(w, w.teardown_invalidated_service(name, is_failed)),
{
    reveal(World::teardown_invalidated_service);
    let names = seqs::concat_map(w.services, world::dependent_on(name));
    let w1 = seqs::fold(w, names, world::take_down(FilterView::All));
    lemma_teardown_chains_reduced(w, names, FilterView::All);
    if is_failed && model::registered(w1.services, name) is Some {
        let si = ServiceView::Unregistered(model::registered(w1.services, name)->0.config);
        lemma_put_reduced(w1, name, si);
        lemma_reduced_twice(w, w1, w1.with_service(name, si));
    }
}

/// Chains through replicas in a place that are taken down are a reduction.
pub(crate) proof fn lemma_partial_reduced(w: World, name: Seq<char>, place: PlaceView)
    requires
        connections::services_wf(w.services),
    ensures
        reduced(w, w.teardown_partial_replicas(name, place)),
{
    reveal(World::teardown_partial_replicas);
    lemma_reduced_same(w);
    if let Some(reg) = model::registered(w.services, name) {
        let clients = reg.service_clients(place);
        let f = world::take_down_source();
        let p = |v: World| reduced(w, v);
        assert forall|v: World, c: ClientView| p(v) && clients.contains(c) implies #[trigger] p(
            f(v, c),
        ) by {
            if let Some((ip, docker)) = c.replica {
                lemma_teardown_chain_reduced(
                    v,
                    c.name,
                    FilterView::On(PlaceView::Replica(ip, docker)),
                );
                lemma_reduced_twice(w, v, f(v, c));
            }
        }
        seqs::lemma_fold_keeps(w, clients, f, p);
        let w1 = seqs::fold(w, clients, f);
        let w2 = w1.teardown_chain(name, FilterView::On(place));
        lemma_teardown_chain_reduced(w1, name, FilterView::On(place));
        lemma_reduced_twice(w, w1, w2);
    }
}

/// Replicas that stop are a reduction.
pub(crate) proof fn lemma_without_replicas_reduced(w: World, name: Seq<char>, place: PlaceView)
    requires
        connections::services_wf(w.services),
    ensures
        reduced(w, w.without_replicas(name, place)),
{
    connections::lemma_wf_of(w.services, name);
    lemma_reduced_same(w);
    if let Some(si) = table::lookup(w.services, name) {
        if let ServiceView::Registered(reg) = si {
            connections::lemma_without_replicas(reg, place);
            let after = reg.without_replicas(place);
            lemma_ports_elsewhere(reg, place);
            assert(service_reduced(si, si.without_replicas(place)));
        }
        lemma_put_reduced(w, name, si.without_replicas(place));
    }
}

/// The replicas that run elsewhere have the ports that they had.
pub(crate) proof fn lemma_ports_elsewhere(reg: RegisteredView, place: PlaceView)
    requires
        connections::registered_wf(reg),
    ensures
        forall|ip: IpAddr, docker: Option<Seq<char>>| #[trigger]
            replica_port(reg.without_replicas(place), ip, docker) == (if place.covers(ip, docker) {
                None
            } else {
                replica_port(reg, ip, docker)
            }),
{
    let after = reg.without_replicas(place);
    connections::lemma_without_replicas(reg, place);
    assert forall|ip: IpAddr, docker: Option<Seq<char>>| #[trigger]
        replica_port(after, ip, docker) == (if place.covers(ip, docker) {
            None
        } else {
            replica_port(reg, ip, docker)
        }) by {
        assert(after.has_replica(ip, docker) == (reg.has_replica(ip, docker) && !place.covers(
            ip,
            docker,
        )));
        if after.has_replica(ip, docker) {
            let k = after.replica_index(ip, docker);
            assert(after.is_replica(ip, docker, k));
            assert(after.replicas.contains(after.replicas[k]));
            let i = seqs::lemma_concat_map_from(
                reg.replicas,
                place.elsewhere(),
                after.replicas[k],
            );
            connections::lemma_index(reg, i);
        }
    }
}

/// Every change is a reduction.
pub(crate) proof fn lemma_apply_reduced(w: World, change: ChangeView)
    requires
        connections::services_wf(w.services),
    ensures
        reduced(w, w.apply(change)),
{
    reveal(World::apply);
    match change {
        ChangeView::Removed { name } => {
            lemma_invalidated_reduced(w, name, true);
            let w1 = w.teardown_invalidated_service(name, true);
            lemma_del_reduced(w1, name);
            lemma_reduced_twice(
                w,
                w1,
                World { services: table::del(w1.services, name), ..w1 },
            );
        },
        ChangeView::DepsChanged { name } => {
            lemma_invalidated_reduced(w, name, false);
        },
        ChangeView::ReachabilityChanged { name } => {
            lemma_teardown_chain_reduced(w, name, FilterView::All);
        },
        ChangeView::ReplicasRemoved { name, ip } => {
            lemma_invalidated_reduced(w, name, true);
            let w1 = w.teardown_partial_replicas(name, PlaceView::Host(ip));
            lemma_partial_reduced(w, name, PlaceView::Host(ip));
            lemma_without_replicas_reduced(w1, name, PlaceView::Host(ip));
            lemma_reduced_twice(w, w1, w1.without_replicas(name, PlaceView::Host(ip)));
        },
        ChangeView::ReplicaRemoved { name, ip, docker_container } => {
            lemma_invalidated_reduced(w, name, true);
            let place = PlaceView::Replica(ip, docker_container);
            let w1 = w.teardown_partial_replicas(name, place);
            lemma_partial_reduced(w, name, place);
            lemma_without_replicas_reduced(w1, name, place);
            lemma_reduced_twice(w, w1, w1.without_replicas(name, place));
        },
        ChangeView::ProxyDisconnected { ip } => {
            lemma_teardown_chains_reduced(
                w,
                seqs::concat_map(w.services, world::served_through(ip)),
                FilterView::ByIp(ip),
            );
        },
        ChangeView::ProxyClientTimedOut { name, client } => {
            lemma_teardown_chain_reduced(w, name, FilterView::ByClient(client));
        },
        ChangeView::BackendChainTimedOut {
            initiator_name,
            initiator_ip,
            initiator_docker,
            first_dependency,
        } => {
            let node = NodeView {
                name: initiator_name,
                ip: initiator_ip,
                docker: initiator_docker,
            };
            lemma_reduced_same(w);
            lemma_reduced_kept(w);
            lemma_backend_keeps(
                w,
                node,
                first_dependency,
                |v: World| reduced(w, v) && same_shape(w.services, v.services),
            );
        },
    }
}

/// A service that is taken out is a reduction.
pub(crate) proof fn lemma_del_reduced(w: World, name: Seq<char>)
    requires
        connections::services_wf(w.services),
    ensures
        reduced(w, World { services: table::del(w.services, name), ..w }),
{
    let a = w.services;
    let b = table::del(a, name);
    connections::lemma_del_wf(a, name);
    assert forall|q: Seq<char>| #[trigger] config_at(b, q) is Some implies config_at(b, q)
        == config_at(a, q) by {
        table::lemma_del(a, name, q);
    }
    assert forall|q: Seq<char>, ip: IpAddr, docker: Option<Seq<char>>| #[trigger]
        port_at(b, q, ip, docker) is Some implies port_at(b, q, ip, docker) == port_at(
        a,
        q,
        ip,
        docker,
    ) by {
        table::lemma_del(a, name, q);
    }
    assert forall|q: Seq<char>, ip: IpAddr, docker: Option<Seq<char>>, c: ClientView|
        conn_kept(
            connections::conn(a, q, ip, docker, c),
            #[trigger] connections::conn(b, q, ip, docker, c),
        ) by {
        table::lemma_del(a, name, q);
    }
}

/// Bringing services in line with changes keeps them well-formed and only ever reduces: it brings up
/// no service, replica or connection, takes no network identifier into use, and asks hosts for
/// nothing but to tear networks down. What it leaves of a connection are its addresses, its network
/// and its last use.
pub proof fn law_changes_reduce(w: World, changes: Seq<ChangeView>)
    requires
        connections::services_wf(w.services),
    ensures
        reduced(w, w.apply_all(changes)),
{
    let f = world::apply_change();
    let p = |v: World| reduced(w, v);
    lemma_reduced_same(w);
    assert forall|v: World, change: ChangeView| p(v) && changes.contains(change) implies #[trigger] p(
        f(v, change),
    ) by {
        lemma_apply_reduced(v, change);
        lemma_reduced_twice(w, v, f(v, change));
    }
    seqs::lemma_fold_keeps(w, changes, f, p);
}

/// The connections of proxy clients are the same.
pub open spec fn same_proxy_conns(a: ServicesView, b: ServicesView) -> bool {
    forall|name: Seq<char>, ip: IpAddr, docker: Option<Seq<char>>, c: ClientView|
        c.proxy is Some ==> #[trigger] connections::conn(b, name, ip, docker, c)
            == connections::conn(a, name, ip, docker, c)
}

/// One chain fewer over the connection of a service leaves proxy clients alone.
pub(crate) proof fn lemma_decrement_proxies(w: World, c: ClientView, name: Seq<char>)
    requires
        connections::services_wf(w.services),
        c.proxy is None,
    ensures
        same_proxy_conns(w.services, w.decrement(c, name).services),
{
    reveal(World::decrement);
    let after = w.decrement(c, name).services;
    connections::lemma_wf_of(w.services, name);
    if let Some(reg) = model::registered(w.services, name) {
        let (next, orch) = reg.decremented(c, w.orch);
        connections::lemma_holds(reg, c);
        if let Some(ci) = reg.info(c) {
            if ci.active_chains <= 1 {
                connections::lemma_without_client(reg, c);
            } else {
                connections::lemma_with_info(reg, c, ci.without_chains(1));
            }
        }
        assert forall|q: Seq<char>, ip: IpAddr, docker: Option<Seq<char>>, d: ClientView|
            d.proxy is Some implies #[trigger] connections::conn(after, q, ip, docker, d)
            == connections::conn(w.services, q, ip, docker, d) by {
            lemma_put_registered(w.services, name, ServiceView::Registered(next), q);
            if q == name {
                assert(connections::replica_conn(next, ip, docker, d) == connections::replica_conn(
                    reg,
                    ip,
                    docker,
                    d,
                ));
            }
        }
    }
}

/// The connections of a linear chain are those of services.
pub(crate) proof fn lemma_linear_clients(
    services: ServicesView,
    node: NodeView,
    names: Seq<Seq<char>>,
    e: ChainEdge,
)
    requires
        world::linear_edges(services, node, names).contains(e),
    ensures
        e.0.proxy is None,
        e.0.replica is Some,
    decreases names.len(),
{
    if names.len() > 0 {
        if let Some(next) = world::connection(services, node.client(), names[0]) {
            let first = seq![(node.client(), names[0])];
            let rest = world::linear_edges(services, next, names.drop_first());
            let all = first + rest;
            let k = choose|k: int| 0 <= k < all.len() && all[k] == e;
            if k > 0 {
                assert(rest[k - 1] == e);
                assert(rest.contains(e));
                lemma_linear_clients(services, next, names.drop_first(), e);
            } else {
                assert(first[0] == e);
            }
        }
    }
}

/// Chains that end over connections of services leave proxy clients alone.
pub(crate) proof fn lemma_decrements_proxies(w: World, edges: Seq<ChainEdge>)
    requires
        connections::services_wf(w.services),
        forall|e: ChainEdge| #[trigger] edges.contains(e) ==> e.0.proxy is None,
    ensures
        same_proxy_conns(w.services, seqs::fold(w, edges, world::decrement_edge()).services),
{
    let f = world::decrement_edge();
    let p = |v: World|
        connections::services_wf(v.services) && same_proxy_conns(w.services, v.services);
    assert forall|v: World, e: ChainEdge| p(v) && edges.contains(e) implies #[trigger] p(
        f(v, e),
    ) by {
        lemma_decrement_reduced(v, e.0, e.1);
        lemma_decrement_proxies(v, e.0, e.1);
    }
    seqs::lemma_fold_keeps(w, edges, f, p);
}

/// The end of dependency chains leaves proxy clients alone.
pub(crate) proof fn lemma_dep_chains_proxies(w: World, name: Seq<char>, entries: Seq<EntryView>)
    requires
        connections::services_wf(w.services),
    ensures
        same_proxy_conns(
            w.services,
            seqs::fold(w, entries, world::take_down_deps(name)).services,
        ),
{
    let f = world::take_down_deps(name);
    let p = |v: World|
        connections::services_wf(v.services) && same_proxy_conns(w.services, v.services);
    assert forall|v: World, e: EntryView| p(v) && entries.contains(e) implies #[trigger] p(
        f(v, e),
    ) by {
        let node = NodeView { name, ip: e.ip, docker: e.docker_container };
        reveal(World::teardown_dep_chain);
        lemma_dep_chain_reduced(v, node);
        let edges = world::dep_edges(v.services, node);
        assert forall|x: ChainEdge| #[trigger] edges.contains(x) implies x.0.proxy is None by {
            lemma_linear_clients(
                v.services,
                node,
                world::dependencies(v.services, node.name),
                x,
            );
        }
        lemma_decrements_proxies(v, edges);
    }
    seqs::lemma_fold_keeps(w, entries, f, p);
}

/// A proxy client is connected to one replica at most.
pub(crate) proof fn lemma_one_place(
    reg: RegisteredView,
    c: ClientView,
    ip: IpAddr,
    docker: Option<Seq<char>>,
)
    requires
        connections::registered_wf(reg),
        c.proxy is Some,
        connections::replica_conn(reg, ip, docker, c) is Some,
    ensures
        reg.holds(c),
        reg.replicas[reg.holder(c)].matches(ip, docker),
{
    let i = reg.replica_index(ip, docker);
    assert(reg.is_replica(ip, docker, i));
    connections::lemma_sticky_holder(reg, c, i);
}

/// A proxy client that leaves is not connected any more.
pub(crate) proof fn lemma_left(reg: RegisteredView, c: ClientView)
    requires
        connections::registered_wf(reg),
        c.proxy is Some,
    ensures
        !reg.without_client(c).holds(c),
{
    let after = reg.without_client(c);
    connections::lemma_without_client(reg, c);
    connections::lemma_holds(after, c);
    if after.holds(c) {
        let r = after.replicas[after.holder(c)];
        assert(connections::replica_conn(after, r.ip, r.docker_container, c) is Some);
        assert(connections::replica_conn(reg, r.ip, r.docker_container, c) is Some);
        lemma_one_place(reg, c, r.ip, r.docker_container);
    }
}

/// A client that is not connected is not connected either after another left.
pub(crate) proof fn lemma_stays_left(reg: RegisteredView, c: ClientView, q: ClientView)
    requires
        connections::registered_wf(reg),
        !reg.holds(c),
    ensures
        !reg.without_client(q).holds(c),
{
    let after = reg.without_client(q);
    connections::lemma_without_client(reg, q);
    connections::lemma_holds(after, c);
    connections::lemma_holds(reg, c);
    if after.holds(c) {
        let r = after.replicas[after.holder(c)];
        assert(connections::replica_conn(after, r.ip, r.docker_container, c) is Some);
        assert(connections::replica_conn(reg, r.ip, r.docker_container, c) is Some);
    }
}

/// Each of the proxy clients that leave is not connected any more.
pub(crate) proof fn lemma_all_left(reg: RegisteredView, entries: Seq<EntryView>, k: int)
    requires
        connections::registered_wf(reg),
        0 <= k < entries.len(),
        entries[k].client.proxy is Some,
    ensures
        !seqs::fold(reg, entries, world::disconnect()).holds(entries[k].client),
{
    let f = world::disconnect();
    let c = entries[k].client;
    let inv = |r: RegisteredView| connections::registered_wf(r);
    let goal = |r: RegisteredView| !r.holds(c);
    assert forall|r: RegisteredView, e: EntryView| inv(r) && entries.contains(e) implies #[trigger] inv(
        f(r, e),
    ) by {
        connections::lemma_without_client(r, e.client);
    }
    assert forall|r: RegisteredView| inv(r) implies #[trigger] goal(f(r, entries[k])) by {
        lemma_left(r, c);
    }
    assert forall|r: RegisteredView, e: EntryView|
        inv(r) && goal(r) && entries.contains(e) implies goal(#[trigger] f(r, e)) by {
        lemma_stays_left(r, c, e.client);
    }
    seqs::lemma_fold_reaches(reg, entries, f, inv, k, goal);
}

/// A client that is not among those that leave keeps its connections.
pub(crate) proof fn lemma_not_leaving(
    reg: RegisteredView,
    entries: Seq<EntryView>,
    ip: IpAddr,
    docker: Option<Seq<char>>,
    c: ClientView,
)
    requires
        connections::registered_wf(reg),
        forall|e: EntryView| #[trigger] entries.contains(e) ==> e.client != c,
    ensures
        connections::replica_conn(
            seqs::fold(reg, entries, world::disconnect()),
            ip,
            docker,
            c,
        ) == connections::replica_conn(reg, ip, docker, c),
{
    let f = world::disconnect();
    let p = |r: RegisteredView|
        connections::registered_wf(r) && connections::replica_conn(r, ip, docker, c)
            == connections::replica_conn(reg, ip, docker, c);
    assert forall|r: RegisteredView, e: EntryView| p(r) && entries.contains(e) implies #[trigger] p(
        f(r, e),
    ) by {
        connections::lemma_without_client(r, e.client);
        assert(e.client != c);
        assert(connections::replica_conn(r.without_client(e.client), ip, docker, c)
            == connections::replica_conn(r, ip, docker, c));
    }
    seqs::lemma_fold_keeps(reg, entries, f, p);
}

/// A filter selects a connection exactly where it is among those selected.
pub(crate) proof fn lemma_selected(reg: RegisteredView, filter: FilterView, e: EntryView)
    ensures
        seqs::concat_map(reg.entries(), filter.selected()).contains(e) == (reg.entries().contains(e)
            && filter.selects(e)),
{
    let f = filter.selected();
    let all = seqs::concat_map(reg.entries(), f);
    if all.contains(e) {
        let i = seqs::lemma_concat_map_from(reg.entries(), f, e);
        assert(f(reg.entries()[i]).contains(e));
        assert(f(reg.entries()[i])[0] == reg.entries()[i]);
        assert(reg.entries()[i] == e);
    }
    if reg.entries().contains(e) && filter.selects(e) {
        let i = choose|i: int| 0 <= i < reg.entries().len() && reg.entries()[i] == e;
        assert(f(e)[0] == e);
        assert(f(reg.entries()[i]).contains(e));
        seqs::lemma_concat_map_has(reg.entries(), f, i, e);
    }
}

/// Taking chains down disconnects exactly the proxy clients that are selected: none of them is
/// connected to the service any more, and every other proxy client of any service keeps its
/// connection as it is.
pub proof fn law_teardown_chain(w: World, name: Seq<char>, filter: FilterView)
    requires
        connections::services_wf(w.services),
    ensures
        forall|n: Seq<char>, ip: IpAddr, docker: Option<Seq<char>>, c: ClientView|
            c.proxy is Some ==> #[trigger] connections::conn(
                w.teardown_chain(name, filter).services,
                n,
                ip,
                docker,
                c,
            ) == (if n == name && filter.selects_at(c, ip, docker) {
                None
            } else {
                connections::conn(w.services, n, ip, docker, c)
            }),
{
    reveal(World::teardown_chain);
    connections::lemma_wf_of(w.services, name);
    let after = w.teardown_chain(name, filter);
    if let Some(reg) = model::registered(w.services, name) {
        let entries = seqs::concat_map(reg.entries(), filter.selected());
        let w1 = seqs::fold(w, entries, world::take_down_deps(name));
        lemma_dep_chains_reduced(w, name, entries);
        lemma_dep_chains_proxies(w, name, entries);
        connections::lemma_wf_of(w1.services, name);
        assert forall|n: Seq<char>, ip: IpAddr, docker: Option<Seq<char>>, c: ClientView|
            c.proxy is Some implies #[trigger] connections::conn(
            after.services,
            n,
            ip,
            docker,
            c,
        ) == (if n == name && filter.selects_at(c, ip, docker) {
            None
        } else {
            connections::conn(w.services, n, ip, docker, c)
        }) by {
            assert(connections::conn(w1.services, n, ip, docker, c) == connections::conn(
                w.services,
                n,
                ip,
                docker,
                c,
            ));
            if let Some(reg1) = model::registered(w1.services, name) {
                let reg2 = seqs::fold(reg1, entries, world::disconnect());
                lemma_disconnects_reduced(reg1, entries);
                lemma_put_registered(w1.services, name, ServiceView::Registered(reg2), n);
                if n == name {
                    lemma_teardown_at(reg, reg1, filter, ip, docker, c);
                }
            }
        }
    }
}

/// What becomes of the connection of a proxy client when those selected leave.
pub(crate) proof fn lemma_teardown_at(
    reg: RegisteredView,
    reg1: RegisteredView,
    filter: FilterView,
    ip: IpAddr,
    docker: Option<Seq<char>>,
    c: ClientView,
)
    requires
        connections::registered_wf(reg),
        connections::registered_wf(reg1),
        c.proxy is Some,
        connections::replica_conn(reg1, ip, docker, c) == connections::replica_conn(
            reg,
            ip,
            docker,
            c,
        ),
    ensures
        connections::replica_conn(
            seqs::fold(
                reg1,
                seqs::concat_map(reg.entries(), filter.selected()),
                world::disconnect(),
            ),
            ip,
            docker,
            c,
        ) == (if filter.selects_at(c, ip, docker) {
            None
        } else {
            connections::replica_conn(reg, ip, docker, c)
        }),
{
    let entries = seqs::concat_map(reg.entries(), filter.selected());
    let reg2 = seqs::fold(reg1, entries, world::disconnect());
    lemma_disconnects_reduced(reg1, entries);
    assert(conn_kept(
        connections::replica_conn(reg1, ip, docker, c),
        connections::replica_conn(reg2, ip, docker, c),
    ));
    if connections::replica_conn(reg, ip, docker, c) is Some {
        let info = connections::replica_conn(reg, ip, docker, c)->0;
        let port = reg.replicas[reg.replica_index(ip, docker)].port;
        let e = EntryView { client: c, info, ip, docker_container: docker, port };
        connections::lemma_entries(reg, e);
        if filter.selects_at(c, ip, docker) {
            lemma_selected(reg, filter, e);
            let k = choose|k: int| 0 <= k < entries.len() && entries[k] == e;
            lemma_all_left(reg1, entries, k);
            connections::lemma_holds(reg2, c);
        } else {
            assert forall|x: EntryView| #[trigger] entries.contains(x) implies x.client != c by {
                lemma_selected(reg, filter, x);
                connections::lemma_entries(reg, x);
                if x.client == c {
                    lemma_one_place(reg, c, ip, docker);
                    lemma_one_place(reg, c, x.ip, x.docker_container);
                }
            }
            lemma_not_leaving(reg1, entries, ip, docker, c);
        }
    }
}

/// The connections of a linear chain lead to the services that it passes.
pub(crate) proof fn lemma_linear_servers(
    services: ServicesView,
    node: NodeView,
    names: Seq<Seq<char>>,
    e: ChainEdge,
)
    requires
        world::linear_edges(services, node, names).contains(e),
    ensures
        names.contains(e.1),
    decreases names.len(),
{
    if names.len() > 0 {
        if let Some(next) = world::connection(services, node.client(), names[0]) {
            let first = seq![(node.client(), names[0])];
            let rest = world::linear_edges(services, next, names.drop_first());
            let all = first + rest;
            let k = choose|k: int| 0 <= k < all.len() && all[k] == e;
            if k > 0 {
                assert(rest[k - 1] == e);
                assert(rest.contains(e));
                lemma_linear_servers(services, next, names.drop_first(), e);
                let j = choose|j: int|
                    0 <= j < names.drop_first().len() && names.drop_first()[j] == e.1;
                assert(names[j + 1] == e.1);
            } else {
                assert(first[0] == e);
                assert(names[0] == e.1);
            }
        }
    }
}

/// The end of dependency chains leaves a service alone that does not depend on itself.
proof fn lemma_dep_chains_own(w: World, name: Seq<char>, entries: Seq<EntryView>)
    requires
        model::registered(w.services, name) matches Some(reg)
            && !reg.config.dependencies.contains(name),
    ensures
        model::registered(
            seqs::fold(w, entries, world::take_down_deps(name)).services,
            name,
        ) == model::registered(w.services, name),
{
    let f = world::take_down_deps(name);
    let g = world::decrement_edge();
    let before = model::registered(w.services, name);
    let p = |v: World| model::registered(v.services, name) == before;
    assert forall|v: World, e: EntryView| p(v) && entries.contains(e) implies #[trigger] p(
        f(v, e),
    ) by {
        let node = NodeView { name, ip: e.ip, docker: e.docker_container };
        let edges = world::dep_edges(v.services, node);
        reveal(World::teardown_dep_chain);
        assert forall|x: World, edge: ChainEdge|
            p(x) && edges.contains(edge) implies #[trigger] p(g(x, edge)) by {
            lemma_linear_servers(
                v.services,
                node,
                world::dependencies(v.services, name),
                edge,
            );
            reveal(World::decrement);
            if let Some(reg) = model::registered(x.services, edge.1) {
                lemma_put_registered(
                    x.services,
                    edge.1,
                    ServiceView::Registered(reg.decremented(edge.0, x.orch).0),
                    name,
                );
            }
        }
        seqs::lemma_fold_keeps(v, edges, g, p);
    }
    seqs::lemma_fold_keeps(w, entries, f, p);
}

/// Taking down the chains of a service that does not depend on itself leaves it with exactly those
/// clients that are not selected, each with its connection as it is: other services that are connected
/// to it stay so.
pub proof fn law_teardown_own_clients(
    w: World,
    name: Seq<char>,
    filter: FilterView,
    ip: IpAddr,
    docker: Option<Seq<char>>,
    c: ClientView,
)
    requires
        connections::services_wf(w.services),
        !world::dependencies(w.services, name).contains(name),
    ensures
        connections::conn(w.teardown_chain(name, filter).services, name, ip, docker, c) == (
        if filter.selects_at(c, ip, docker) {
            None
        } else {
            connections::conn(w.services, name, ip, docker, c)
        }),
{
    law_teardown_chain(w, name, filter);
    reveal(World::teardown_chain);
    if c.proxy is None {
        if let Some(reg) = model::registered(w.services, name) {
            let entries = seqs::concat_map(reg.entries(), filter.selected());
            let w1 = seqs::fold(w, entries, world::take_down_deps(name));
            connections::lemma_wf_of(w.services, name);
            lemma_dep_chains_own(w, name, entries);
            assert forall|e: EntryView| #[trigger] entries.contains(e) implies e.client != c by {
                lemma_selected(reg, filter, e);
            }
            lemma_not_leaving(reg, entries, ip, docker, c);
            let next = seqs::fold(reg, entries, world::disconnect());
            lemma_put_registered(w1.services, name, ServiceView::Registered(next), name);
        }
    }
}

/// A service that is no longer configured is gone.
pub proof fn law_removed(w: World, name: Seq<char>)
    requires
        connections::services_wf(w.services),
    ensures
        config_at(w.apply(ChangeView::Removed { name }).services, name) is None,
{
    reveal(World::apply);
    lemma_invalidated_reduced(w, name, true);
    table::lemma_del(w.teardown_invalidated_service(name, true).services, name, name);
}

/// A service that failed does not run.
pub(crate) proof fn lemma_failed(w: World, name: Seq<char>)
    requires
        connections::services_wf(w.services),
    ensures
        model::registered(w.teardown_invalidated_service(name, true).services, name) is None,
{
    reveal(World::teardown_invalidated_service);
    let names = seqs::concat_map(w.services, world::dependent_on(name));
    let w1 = seqs::fold(w, names, world::take_down(FilterView::All));
    if let Some(reg) = model::registered(w1.services, name) {
        lemma_put_registered(w1.services, name, ServiceView::Unregistered(reg.config), name);
    }
}

/// Of a service that lost its replicas in a place none runs there.
pub(crate) proof fn lemma_stopped(
    w: World,
    name: Seq<char>,
    place: PlaceView,
    ip: IpAddr,
    docker: Option<Seq<char>>,
)
    requires
        connections::services_wf(w.services),
        place.covers(ip, docker),
    ensures
        port_at(w.without_replicas(name, place).services, name, ip, docker) is None,
{
    connections::lemma_wf_of(w.services, name);
    if let Some(si) = table::lookup(w.services, name) {
        let after = si.without_replicas(place);
        lemma_put_registered(w.services, name, after, name);
        if let ServiceView::Registered(reg) = si {
            lemma_ports_elsewhere(reg, place);
        }
    }
}

/// After a service lost its replicas on a host none runs there.
pub proof fn law_replicas_removed(
    w: World,
    name: Seq<char>,
    ip: IpAddr,
    docker: Option<Seq<char>>,
)
    requires
        connections::services_wf(w.services),
    ensures
        port_at(
            w.apply(ChangeView::ReplicasRemoved { name, ip }).services,
            name,
            ip,
            docker,
        ) is None,
{
    reveal(World::apply);
    let place = PlaceView::Host(ip);
    lemma_failed(w, name);
    lemma_partial_reduced(w, name, place);
    lemma_stopped(w.teardown_partial_replicas(name, place), name, place, ip, docker);
}

/// After a replica of a service stopped it does not run.
pub proof fn law_replica_removed(
    w: World,
    name: Seq<char>,
    ip: IpAddr,
    docker_container: Option<Seq<char>>,
)
    requires
        connections::services_wf(w.services),
    ensures
        port_at(
            w.apply(ChangeView::ReplicaRemoved { name, ip, docker_container }).services,
            name,
            ip,
            docker_container,
        ) is None,
{
    reveal(World::apply);
    let place = PlaceView::Replica(ip, docker_container);
    lemma_failed(w, name);
    lemma_partial_reduced(w, name, place);
    lemma_stopped(
        w.teardown_partial_replicas(name, place),
        name,
        place,
        ip,
        docker_container,
    );
}

/// A service is listed under its name, at the index returned.
pub(crate) proof fn lemma_listed(services: ServicesView, name: Seq<char>) -> (i: int)
    requires
        table::has_key(services, name),
    ensures
        0 <= i < services.len(),
        services[i].0 == name,
        table::lookup(services, name) == Some(services[i].1),
{
    let i = table::position(services, name);
    assert(table::is_first(services, name, i));
    i
}

/// A service that a client is connected to through a proxy is among those served through it.
pub(crate) proof fn lemma_served_through(
    services: ServicesView,
    name: Seq<char>,
    at: IpAddr,
    docker: Option<Seq<char>>,
    c: ClientView,
    ip: IpAddr,
)
    requires
        connections::services_wf(services),
        c.proxy == Some(ip),
        connections::conn(services, name, at, docker, c) is Some,
    ensures
        seqs::concat_map(services, world::served_through(ip)).contains(name),
{
    connections::lemma_wf_of(services, name);
    let reg = model::registered(services, name)->0;
    let info = connections::replica_conn(reg, at, docker, c)->0;
    let port = reg.replicas[reg.replica_index(at, docker)].port;
    let e = EntryView { client: c, info, ip: at, docker_container: docker, port };
    connections::lemma_entries(reg, e);
    let k = choose|k: int| 0 <= k < reg.entries().len() && reg.entries()[k] == e;
    assert(reg.entries()[k].client.proxy == Some(ip));
    assert(reg.has_proxy_clients_of(ip));
    let i = lemma_listed(services, name);
    let f = world::served_through(ip);
    assert(f(services[i])[0] == name);
    assert(f(services[i]).contains(name));
    seqs::lemma_concat_map_has(services, f, i, name);
}

/// After a proxy is gone no client is connected through it.
pub proof fn law_proxy_disconnected(
    w: World,
    ip: IpAddr,
    name: Seq<char>,
    at: IpAddr,
    docker: Option<Seq<char>>,
    c: ClientView,
)
    requires
        connections::services_wf(w.services),
        c.proxy == Some(ip),
    ensures
        connections::conn(
            w.apply(ChangeView::ProxyDisconnected { ip }).services,
            name,
            at,
            docker,
            c,
        ) is None,
{
    reveal(World::apply);
    let names = seqs::concat_map(w.services, world::served_through(ip));
    let f = world::take_down(FilterView::ByIp(ip));
    let after = seqs::fold(w, names, f);
    lemma_teardown_chains_reduced(w, names, FilterView::ByIp(ip));
    assert(conn_kept(
        connections::conn(w.services, name, at, docker, c),
        connections::conn(after.services, name, at, docker, c),
    ));
    if connections::conn(w.services, name, at, docker, c) is Some {
        lemma_served_through(w.services, name, at, docker, c, ip);
        let k = choose|k: int| 0 <= k < names.len() && names[k] == name;
        let inv = |v: World| connections::services_wf(v.services);
        let goal = |v: World| connections::conn(v.services, name, at, docker, c) is None;
        assert forall|v: World, n: Seq<char>| inv(v) && names.contains(n) implies #[trigger] inv(
            f(v, n),
        ) by {
            lemma_teardown_chain_reduced(v, n, FilterView::ByIp(ip));
        }
        assert forall|v: World| inv(v) implies #[trigger] goal(f(v, names[k])) by {
            law_teardown_chain(v, name, FilterView::ByIp(ip));
        }
        assert forall|v: World, n: Seq<char>|
            inv(v) && goal(v) && names.contains(n) implies goal(#[trigger] f(v, n)) by {
            lemma_teardown_chain_reduced(v, n, FilterView::ByIp(ip));
            assert(conn_kept(
                connections::conn(v.services, name, at, docker, c),
                connections::conn(f(v, n).services, name, at, docker, c),
            ));
        }
        seqs::lemma_fold_reaches(w, names, f, inv, k, goal);
    }
}

/// What one of several changes brings about, and every reduction keeps, they bring about together.
pub(crate) proof fn lemma_change_reaches(
    w: World,
    list: Seq<ChangeView>,
    change: ChangeView,
    goal: spec_fn(World) -> bool,
)
    requires
        connections::services_wf(w.services),
        list.contains(change),
        forall|v: World| connections::services_wf(v.services) ==> #[trigger] goal(v.apply(change)),
        forall|a: World, b: World| goal(a) && #[trigger] reduced(a, b) ==> goal(b),
    ensures
        goal(w.apply_all(list)),
{
    let f = world::apply_change();
    let k = choose|k: int| 0 <= k < list.len() && list[k] == change;
    let inv = |v: World| connections::services_wf(v.services);
    assert forall|v: World, x: ChangeView| inv(v) && list.contains(x) implies #[trigger] inv(
        f(v, x),
    ) by {
        lemma_apply_reduced(v, x);
    }
    assert forall|v: World| inv(v) implies #[trigger] goal(f(v, list[k])) by {
        assert(goal(v.apply(change)));
    }
    assert forall|v: World, x: ChangeView|
        inv(v) && goal(v) && list.contains(x) implies goal(#[trigger] f(v, x)) by {
        lemma_apply_reduced(v, x);
        assert(reduced(v, f(v, x)));
    }
    seqs::lemma_fold_reaches(w, list, f, inv, k, goal);
}

/// After a host is lost no replica runs on it and no client is connected through it; nothing else
/// but what the changes take down is different.
pub proof fn law_node_disconnect(w: World, ip: IpAddr)
    requires
        connections::services_wf(w.services),
    ensures
        ({
            let start = World { orch: w.orch.disconnected(ip), ..w };
            let after = start.apply_all(changes::disconnect_changes(w.services, ip));
            &&& reduced(start, after)
            &&& forall|name: Seq<char>, docker: Option<Seq<char>>| #[trigger]
                port_at(after.services, name, ip, docker) is None
            &&& forall|name: Seq<char>, at: IpAddr, docker: Option<Seq<char>>, c: ClientView|
                c.proxy == Some(ip) ==> #[trigger] connections::conn(
                    after.services,
                    name,
                    at,
                    docker,
                    c,
                ) is None
        }),
{
    let start = World { orch: w.orch.disconnected(ip), ..w };
    let list = changes::disconnect_changes(w.services, ip);
    let after = start.apply_all(list);
    law_changes_reduce(start, list);
    let lost = seqs::concat_map(w.services, changes::lost_replicas(ip));
    let through = seqs::concat_map(w.services, world::served_through(ip));
    assert forall|name: Seq<char>, docker: Option<Seq<char>>| #[trigger]
        port_at(after.services, name, ip, docker) is None by {
        if port_at(after.services, name, ip, docker) is Some {
            assert(port_at(w.services, name, ip, docker) is Some);
            let change = ChangeView::ReplicasRemoved { name, ip };
            lemma_lost(w.services, name, ip, docker);
            let k = choose|k: int| 0 <= k < lost.len() && lost[k] == change;
            assert(list[k] == change);
            let goal = |v: World| port_at(v.services, name, ip, docker) is None;
            assert forall|v: World| connections::services_wf(v.services) implies #[trigger] goal(
                v.apply(change),
            ) by {
                law_replicas_removed(v, name, ip, docker);
            }
            lemma_change_reaches(start, list, change, goal);
        }
    }
    assert forall|name: Seq<char>, at: IpAddr, docker: Option<Seq<char>>, c: ClientView|
        c.proxy == Some(ip) implies #[trigger] connections::conn(
        after.services,
        name,
        at,
        docker,
        c,
    ) is None by {
        assert(conn_kept(
            connections::conn(w.services, name, at, docker, c),
            connections::conn(after.services, name, at, docker, c),
        ));
        if connections::conn(w.services, name, at, docker, c) is Some {
            let change = ChangeView::ProxyDisconnected { ip };
            lemma_served_through(w.services, name, at, docker, c, ip);
            assert(through.len() > 0);
            assert(list[lost.len() as int] == change);
            let goal = |v: World| connections::conn(v.services, name, at, docker, c) is None;
            assert forall|v: World| connections::services_wf(v.services) implies #[trigger] goal(
                v.apply(change),
            ) by {
                law_proxy_disconnected(v, ip, name, at, docker, c);
            }
            assert forall|a: World, b: World| goal(a) && #[trigger] reduced(a, b) implies goal(
                b,
            ) by {
                assert(conn_kept(
                    connections::conn(a.services, name, at, docker, c),
                    connections::conn(b.services, name, at, docker, c),
                ));
            }
            lemma_change_reaches(start, list, change, goal);
        }
    }
}

/// A service with a replica on a host is reported with its loss.
pub(crate) proof fn lemma_lost(
    services: ServicesView,
    name: Seq<char>,
    ip: IpAddr,
    docker: Option<Seq<char>>,
)
    requires
        port_at(services, name, ip, docker) is Some,
    ensures
        seqs::concat_map(services, changes::lost_replicas(ip)).contains(
            ChangeView::ReplicasRemoved { name, ip },
        ),
{
    let f = changes::lost_replicas(ip);
    let reg = model::registered(services, name)->0;
    let k = reg.replica_index(ip, docker);
    assert(reg.is_replica(ip, docker, k));
    assert(reg.replicas[k].ip == ip);
    assert(reg.runs_on(ip));
    let i = lemma_listed(services, name);
    let change = ChangeView::ReplicasRemoved { name, ip };
    assert(f(services[i])[0] == change);
    assert(f(services[i]).contains(change));
    seqs::lemma_concat_map_has(services, f, i, change);
}

/// The same services are configured in the same way and run in the same places, in the same order.
pub open spec fn same_shape(a: ServicesView, b: ServicesView) -> bool {
    &&& forall|name: Seq<char>| #[trigger] sites_at(b, name) == sites_at(a, name)
    &&& forall|name: Seq<char>| #[trigger] config_at(b, name) == config_at(a, name)
    &&& forall|name: Seq<char>, ip: IpAddr, docker: Option<Seq<char>>| #[trigger]
        port_at(b, name, ip, docker) == port_at(a, name, ip, docker)
}

/// A running service with other connections leaves the shape as it is.
pub(crate) proof fn lemma_put_shape(w: World, name: Seq<char>, after: RegisteredView)
    requires
        model::registered(w.services, name) matches Some(reg) && after.config == reg.config
            && after.replicas.map_values(site_of()) == reg.replicas.map_values(site_of())
            && forall|ip: IpAddr, docker: Option<Seq<char>>| #[trigger]
            replica_port(after, ip, docker) == replica_port(reg, ip, docker),
    ensures
        same_shape(w.services, w.with_service(name, ServiceView::Registered(after)).services),
{
    let reg = model::registered(w.services, name)->0;
    let si = ServiceView::Registered(after);
    let b = w.with_service(name, si).services;
    assert forall|q: Seq<char>| #[trigger] config_at(b, q) == config_at(w.services, q) by {
        table::lemma_put(w.services, name, si, q);
    }
    assert forall|q: Seq<char>| #[trigger] sites_at(b, q) == sites_at(w.services, q) by {
        table::lemma_put(w.services, name, si, q);
    }
    assert forall|q: Seq<char>, ip: IpAddr, docker: Option<Seq<char>>| #[trigger]
        port_at(b, q, ip, docker) == port_at(w.services, q, ip, docker) by {
        lemma_put_registered(w.services, name, si, q);
        if q == name {
            assert(replica_port(after, ip, docker) == replica_port(reg, ip, docker));
        }
    }
}

pub(crate) proof fn lemma_decrement_shape(w: World, c: ClientView, name: Seq<char>)
    requires
        connections::services_wf(w.services),
    ensures
        same_shape(w.services, w.decrement(c, name).services),
{
    reveal(World::decrement);
    connections::lemma_wf_of(w.services, name);
    if let Some(reg) = model::registered(w.services, name) {
        let (after, orch) = reg.decremented(c, w.orch);
        connections::lemma_holds(reg, c);
        lemma_decremented_reduced(reg, c, w.orch);
        if reg.info(c) is Some {
            assert(reg.is_holder(c, reg.holder(c)));
        }
        lemma_ports_kept(reg, after);
        lemma_put_shape(w, name, after);
    }
}

pub(crate) proof fn lemma_decrements_shape(w: World, edges: Seq<ChainEdge>)
    requires
        connections::services_wf(w.services),
    ensures
        same_shape(w.services, seqs::fold(w, edges, world::decrement_edge()).services),
{
    let f = world::decrement_edge();
    let p = |v: World| connections::services_wf(v.services) && same_shape(w.services, v.services);
    assert forall|v: World, e: ChainEdge| p(v) && edges.contains(e) implies #[trigger] p(
        f(v, e),
    ) by {
        lemma_decrement_reduced(v, e.0, e.1);
        lemma_decrement_shape(v, e.0, e.1);
    }
    seqs::lemma_fold_keeps(w, edges, f, p);
}

pub(crate) proof fn lemma_dep_chains_shape(w: World, name: Seq<char>, entries: Seq<EntryView>)
    requires
        connections::services_wf(w.services),
    ensures
        same_shape(w.services, seqs::fold(w, entries, world::take_down_deps(name)).services),
{
    let f = world::take_down_deps(name);
    let p = |v: World| connections::services_wf(v.services) && same_shape(w.services, v.services);
    assert forall|v: World, e: EntryView| p(v) && entries.contains(e) implies #[trigger] p(
        f(v, e),
    ) by {
        let node = NodeView { name, ip: e.ip, docker: e.docker_container };
        reveal(World::teardown_dep_chain);
        lemma_dep_chain_reduced(v, node);
        lemma_decrements_shape(v, world::dep_edges(v.services, node));
    }
    seqs::lemma_fold_keeps(w, entries, f, p);
}

/// Clients that leave change neither the configuration nor the ports of a service.
pub(crate) proof fn lemma_disconnects_ports(reg: RegisteredView, entries: Seq<EntryView>)
    requires
        connections::registered_wf(reg),
    ensures
        ({
            let after = seqs::fold(reg, entries, world::disconnect());
            &&& after.config == reg.config
            &&& after.replicas.map_values(site_of()) == reg.replicas.map_values(site_of())
            &&& forall|ip: IpAddr, docker: Option<Seq<char>>| #[trigger]
                replica_port(after, ip, docker) == replica_port(reg, ip, docker)
        }),
{
    let f = world::disconnect();
    let p = |r: RegisteredView|
        connections::registered_wf(r) && r.config == reg.config && r.replicas.map_values(site_of())
            == reg.replicas.map_values(site_of()) && forall|
            ip: IpAddr,
            docker: Option<Seq<char>>,
        | #[trigger]
            replica_port(r, ip, docker) == replica_port(reg, ip, docker);
    assert forall|r: RegisteredView, e: EntryView| p(r) && entries.contains(e) implies #[trigger] p(
        f(r, e),
    ) by {
        connections::lemma_without_client(r, e.client);
        if r.holds(e.client) {
            assert(r.is_holder(e.client, r.holder(e.client)));
        }
        lemma_ports_kept(r, r.without_client(e.client));
    }
    seqs::lemma_fold_keeps(reg, entries, f, p);
}

/// Taking chains down leaves every service configured as it is and running where it runs.
pub proof fn law_teardown_keeps_shape(w: World, name: Seq<char>, filter: FilterView)
    requires
        connections::services_wf(w.services),
    ensures
        same_shape(w.services, w.teardown_chain(name, filter).services),
{
    reveal(World::teardown_chain);
    if let Some(reg) = model::registered(w.services, name) {
        let entries = seqs::concat_map(reg.entries(), filter.selected());
        let w1 = seqs::fold(w, entries, world::take_down_deps(name));
        lemma_dep_chains_reduced(w, name, entries);
        lemma_dep_chains_shape(w, name, entries);
        connections::lemma_wf_of(w1.services, name);
        if let Some(reg) = model::registered(w1.services, name) {
            lemma_disconnects_ports(reg, entries);
            let after = seqs::fold(reg, entries, world::disconnect());
            lemma_put_shape(w1, name, after);
        }
    }
}

pub(crate) proof fn lemma_teardown_chains_shape(
    w: World,
    names: Seq<Seq<char>>,
    filter: FilterView,
)
    requires
        connections::services_wf(w.services),
    ensures
        same_shape(w.services, seqs::fold(w, names, world::take_down(filter)).services),
{
    let f = world::take_down(filter);
    let p = |v: World| connections::services_wf(v.services) && same_shape(w.services, v.services);
    assert forall|v: World, name: Seq<char>| p(v) && names.contains(name) implies #[trigger] p(
        f(v, name),
    ) by {
        lemma_teardown_chain_reduced(v, name, filter);
        law_teardown_keeps_shape(v, name, filter);
    }
    seqs::lemma_fold_keeps(w, names, f, p);
}

pub(crate) proof fn lemma_partial_shape(w: World, name: Seq<char>, place: PlaceView)
    requires
        connections::services_wf(w.services),
    ensures
        same_shape(w.services, w.teardown_partial_replicas(name, place).services),
{
    reveal(World::teardown_partial_replicas);
    if let Some(reg) = model::registered(w.services, name) {
        let clients = reg.service_clients(place);
        let f = world::take_down_source();
        let p = |v: World|
            connections::services_wf(v.services) && same_shape(w.services, v.services);
        assert forall|v: World, c: ClientView| p(v) && clients.contains(c) implies #[trigger] p(
            f(v, c),
        ) by {
            if let Some((ip, docker)) = c.replica {
                let filter = FilterView::On(PlaceView::Replica(ip, docker));
                lemma_teardown_chain_reduced(v, c.name, filter);
                law_teardown_keeps_shape(v, c.name, filter);
            }
        }
        seqs::lemma_fold_keeps(w, clients, f, p);
        let w1 = seqs::fold(w, clients, f);
        law_teardown_keeps_shape(w1, name, FilterView::On(place));
    }
}

/// A service that is invalidated leaves every service configured as it is and running where it runs;
/// only one that failed does not run any more.
pub(crate) proof fn lemma_invalidated_shape(w: World, name: Seq<char>, is_failed: bool)
    requires
        connections::services_wf(w.services),
    ensures
        ({
            let after = w.teardown_invalidated_service(name, is_failed).services;
            &&& forall|q: Seq<char>| #[trigger]
                sites_at(after, q) == (if is_failed && q == name {
                    Seq::empty()
                } else {
                    sites_at(w.services, q)
                })
            &&& forall|q: Seq<char>| #[trigger] config_at(after, q) == config_at(w.services, q)
            &&& forall|q: Seq<char>, ip: IpAddr, docker: Option<Seq<char>>| #[trigger]
                port_at(after, q, ip, docker) == (if is_failed && q == name {
                    None
                } else {
                    port_at(w.services, q, ip, docker)
                })
        }),
{
    reveal(World::teardown_invalidated_service);
    let names = seqs::concat_map(w.services, world::dependent_on(name));
    let w1 = seqs::fold(w, names, world::take_down(FilterView::All));
    lemma_teardown_chains_shape(w, names, FilterView::All);
    let after = w.teardown_invalidated_service(name, is_failed).services;
    if is_failed {
        if let Some(reg) = model::registered(w1.services, name) {
            let si = ServiceView::Unregistered(reg.config);
            assert forall|q: Seq<char>| #[trigger]
                sites_at(after, q) == (if q == name {
                    Seq::empty()
                } else {
                    sites_at(w.services, q)
                }) by {
                table::lemma_put(w1.services, name, si, q);
                assert(sites_at(w1.services, q) == sites_at(w.services, q));
                if q == name {
                    assert(sites_at(after, q) =~= Seq::empty());
                }
            }
            assert forall|q: Seq<char>| #[trigger] config_at(after, q) == config_at(
                w.services,
                q,
            ) by {
                table::lemma_put(w1.services, name, si, q);
                assert(config_at(w1.services, q) == config_at(w.services, q));
            }
            assert forall|q: Seq<char>, ip: IpAddr, docker: Option<Seq<char>>| #[trigger]
                port_at(after, q, ip, docker) == (if q == name {
                    None
                } else {
                    port_at(w.services, q, ip, docker)
                }) by {
                lemma_put_registered(w1.services, name, si, q);
                assert(port_at(w1.services, q, ip, docker) == port_at(
                    w.services,
                    q,
                    ip,
                    docker,
                ));
            }
        } else {
            assert forall|ip: IpAddr, docker: Option<Seq<char>>| #[trigger]
                port_at(after, name, ip, docker) is None by {}
            assert(sites_at(after, name) =~= Seq::empty());
        }
    }
}

/// Replicas that stop leave every service configured as it is and the other replicas running.
pub(crate) proof fn lemma_without_replicas_shape(w: World, name: Seq<char>, place: PlaceView)
    requires
        connections::services_wf(w.services),
    ensures
        ({
            let after = w.without_replicas(name, place).services;
            &&& forall|q: Seq<char>| #[trigger] config_at(after, q) == config_at(w.services, q)
            &&& forall|q: Seq<char>, ip: IpAddr, docker: Option<Seq<char>>| #[trigger]
                port_at(after, q, ip, docker) == (if q == name && place.covers(ip, docker) {
                    None
                } else {
                    port_at(w.services, q, ip, docker)
                })
        }),
{
    connections::lemma_wf_of(w.services, name);
    let after = w.without_replicas(name, place).services;
    if let Some(si) = table::lookup(w.services, name) {
        let next = si.without_replicas(place);
        assert forall|q: Seq<char>| #[trigger] config_at(after, q) == config_at(w.services, q) by {
            table::lemma_put(w.services, name, next, q);
        }
        if let ServiceView::Registered(reg) = si {
            lemma_ports_elsewhere(reg, place);
            connections::lemma_without_replicas(reg, place);
        }
        assert forall|q: Seq<char>, ip: IpAddr, docker: Option<Seq<char>>| #[trigger]
            port_at(after, q, ip, docker) == (if q == name && place.covers(ip, docker) {
                None
            } else {
                port_at(w.services, q, ip, docker)
            }) by {
            lemma_put_registered(w.services, name, next, q);
            if q == name {
                if let ServiceView::Registered(reg) = si {
                    let rest = reg.without_replicas(place);
                    assert(replica_port(rest, ip, docker) == (if place.covers(ip, docker) {
                        None
                    } else {
                        replica_port(reg, ip, docker)
                    }));
                    if rest.replicas.len() == 0 {
                        assert(replica_port(rest, ip, docker) is None) by {
                            if rest.has_replica(ip, docker) {
                                assert(rest.is_replica(
                                    ip,
                                    docker,
                                    rest.replica_index(ip, docker),
                                ));
                            }
                        }
                    }
                }
            }
        }
    }
}

} // verus!
