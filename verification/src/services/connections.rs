//! Well-formed services, and their connections by location.
use crate::addr::IpAddr;
use crate::seqs;
use crate::services::clients::{ClientInfoView, ClientView};
use crate::services::model;
use crate::services::model::{
    EntryView, PlaceView, RegisteredView, ReplicaView, ServiceView, ServicesView,
};
use crate::table;
use vstd::prelude::*;

verus! {

/// No two replicas run at the same address in the same container.
pub open spec fn distinct_replicas(reg: RegisteredView) -> bool {
    forall|i: int, j: int|
        0 <= i < j < reg.replicas.len() ==> !((#[trigger] reg.replicas[i]).ip == (
        #[trigger] reg.replicas[j]).ip && reg.replicas[i].docker_container
            == reg.replicas[j].docker_container)
}

/// No client is listed twice on a replica.
pub open spec fn distinct_clients(reg: RegisteredView) -> bool {
    forall|i: int|
        0 <= i < reg.replicas.len() ==> table::distinct((#[trigger] reg.replicas[i]).clients)
}

/// No proxy client is connected to two replicas.
pub open spec fn sticky(reg: RegisteredView) -> bool {
    forall|i: int, j: int, c: ClientView|
        0 <= i < j < reg.replicas.len() && c.proxy is Some && #[trigger] table::has_key(
            reg.replicas[i].clients,
            c,
        ) ==> !#[trigger] table::has_key(reg.replicas[j].clients, c)
}

/// What holds of every running service.
pub open spec fn registered_wf(reg: RegisteredView) -> bool {
    &&& reg.replicas.len() > 0
    &&& distinct_replicas(reg)
    &&& distinct_clients(reg)
    &&& sticky(reg)
}

/// What holds of every service: one that runs has replicas, which differ, and whose clients differ;
/// a proxy client is connected to one of them.
pub open spec fn service_wf(si: ServiceView) -> bool {
    match si {
        ServiceView::Registered(reg) => registered_wf(reg),
        ServiceView::Unregistered(_) => true,
    }
}

/// What holds of the services: their names differ, and each is well-formed.
pub open spec fn services_wf(services: ServicesView) -> bool {
    &&& table::distinct(services)
    &&& forall|i: int| 0 <= i < services.len() ==> service_wf((#[trigger] services[i]).1)
}

/// The connection of client `c` to the replica at `ip` in container `docker`.
pub open spec fn replica_conn(
    reg: RegisteredView,
    ip: IpAddr,
    docker: Option<Seq<char>>,
    c: ClientView,
) -> Option<ClientInfoView> {
    reg.info_at(ip, docker, c)
}

/// The connection of client `c` to the replica of service `name` at `ip` in container `docker`.
pub open spec fn conn(
    services: ServicesView,
    name: Seq<char>,
    ip: IpAddr,
    docker: Option<Seq<char>>,
    c: ClientView,
) -> Option<ClientInfoView> {
    match model::registered(services, name) {
        Some(reg) => replica_conn(reg, ip, docker, c),
        None => None,
    }
}

/// The service under a name is well-formed.
pub proof fn lemma_wf_of(services: ServicesView, name: Seq<char>)
    requires
        services_wf(services),
    ensures
        table::lookup(services, name) matches Some(si) ==> service_wf(si),
        model::registered(services, name) matches Some(reg) ==> registered_wf(reg),
{
    if table::has_key(services, name) {
        let i = table::position(services, name);
        assert(table::is_first(services, name, i));
        assert(service_wf(services[i].1));
    }
}

/// A well-formed service in place of another leaves the services well-formed.
pub proof fn lemma_put_wf(services: ServicesView, name: Seq<char>, si: ServiceView)
    requires
        services_wf(services),
        service_wf(si),
    ensures
        services_wf(table::put(services, name, si)),
{
    let t = table::put(services, name, si);
    table::lemma_put(services, name, si, name);
    if table::has_key(services, name) {
        assert(table::is_first(services, name, table::position(services, name)));
    }
    assert forall|i: int| 0 <= i < t.len() implies service_wf((#[trigger] t[i]).1) by {
        if i < services.len() && t[i] == services[i] {
            assert(service_wf(services[i].1));
        }
    }
}

/// A service that is taken out leaves the services well-formed.
pub proof fn lemma_del_wf(services: ServicesView, name: Seq<char>)
    requires
        services_wf(services),
    ensures
        services_wf(table::del(services, name)),
{
    let t = table::del(services, name);
    table::lemma_del(services, name, name);
    if table::has_key(services, name) {
        let p = table::position(services, name);
        assert(table::is_first(services, name, p));
        assert forall|i: int| 0 <= i < t.len() implies service_wf((#[trigger] t[i]).1) by {
            let j = if i < p { i } else { i + 1 };
            assert(t[i] == services[j]);
            assert(service_wf(services[j].1));
        }
    }
}

/// The replica at index `i` is the one at its address and container.
pub proof fn lemma_index(reg: RegisteredView, i: int)
    requires
        distinct_replicas(reg),
        0 <= i < reg.replicas.len(),
    ensures
        reg.is_replica(reg.replicas[i].ip, reg.replicas[i].docker_container, i),
        reg.has_replica(reg.replicas[i].ip, reg.replicas[i].docker_container),
        reg.replica_index(reg.replicas[i].ip, reg.replicas[i].docker_container) == i,
{
    let ip = reg.replicas[i].ip;
    let docker = reg.replicas[i].docker_container;
    assert forall|j: int| 0 <= j < i implies !(#[trigger] reg.replicas[j]).matches(ip, docker) by {
        assert(reg.replicas[i].ip == ip);
    }
    assert(reg.is_replica(ip, docker, i));
    let k = reg.replica_index(ip, docker);
    assert(reg.is_replica(ip, docker, k));
    if k < i {
        assert(!reg.replicas[k].matches(ip, docker));
    } else if i < k {
        assert(!reg.replicas[i].matches(ip, docker));
    }
}

/// With other clients on replica `i`, the replicas are where they were.
pub proof fn lemma_with_clients_index(
    reg: RegisteredView,
    i: int,
    clients: Seq<(ClientView, ClientInfoView)>,
    ip: IpAddr,
    docker: Option<Seq<char>>,
)
    requires
        distinct_replicas(reg),
        0 <= i < reg.replicas.len(),
    ensures
        distinct_replicas(reg.with_clients(i, clients)),
        reg.with_clients(i, clients).has_replica(ip, docker) == reg.has_replica(ip, docker),
        reg.has_replica(ip, docker) ==> reg.with_clients(i, clients).replica_index(ip, docker)
            == reg.replica_index(ip, docker),
{
    let after = reg.with_clients(i, clients);
    assert forall|a: int, b: int| 0 <= a < b < after.replicas.len() implies !((
    #[trigger] after.replicas[a]).ip == (#[trigger] after.replicas[b]).ip
        && after.replicas[a].docker_container == after.replicas[b].docker_container) by {
        assert(reg.replicas[a].ip == after.replicas[a].ip);
        assert(reg.replicas[b].ip == after.replicas[b].ip);
    }
    if reg.has_replica(ip, docker) {
        let k = reg.replica_index(ip, docker);
        assert(reg.is_replica(ip, docker, k));
        assert(after.replicas[k].matches(ip, docker));
        lemma_index(after, k);
    }
    if after.has_replica(ip, docker) {
        let k = after.replica_index(ip, docker);
        assert(after.is_replica(ip, docker, k));
        assert(reg.replicas[k].matches(ip, docker));
        lemma_index(reg, k);
    }
}

/// With other clients on replica `i`, the connections of the other replicas are as they were.
pub proof fn lemma_with_clients_conn(
    reg: RegisteredView,
    i: int,
    clients: Seq<(ClientView, ClientInfoView)>,
    ip: IpAddr,
    docker: Option<Seq<char>>,
    c: ClientView,
)
    requires
        distinct_replicas(reg),
        0 <= i < reg.replicas.len(),
    ensures
        replica_conn(reg.with_clients(i, clients), ip, docker, c) == (if reg.replicas[i].matches(
            ip,
            docker,
        ) {
            table::lookup(clients, c)
        } else {
            replica_conn(reg, ip, docker, c)
        }),
{
    lemma_with_clients_index(reg, i, clients, ip, docker);
    lemma_index(reg, i);
    if reg.has_replica(ip, docker) {
        assert(reg.is_replica(ip, docker, reg.replica_index(ip, docker)));
    }
}

/// A client is connected to some replica exactly where it has a connection at some location.
pub proof fn lemma_holds(reg: RegisteredView, c: ClientView)
    requires
        distinct_replicas(reg),
    ensures
        reg.holds(c) ==> {
            let r = reg.replicas[reg.holder(c)];
            &&& reg.is_holder(c, reg.holder(c))
            &&& reg.info(c) is Some
            &&& replica_conn(reg, r.ip, r.docker_container, c) == reg.info(c)
        },
        forall|ip: IpAddr, docker: Option<Seq<char>>| #[trigger]
            replica_conn(reg, ip, docker, c) is Some ==> reg.holds(c),
{
    if reg.holds(c) {
        let i = reg.holder(c);
        assert(reg.is_holder(c, i));
        lemma_index(reg, i);
    }
    assert forall|ip: IpAddr, docker: Option<Seq<char>>| #[trigger]
        replica_conn(reg, ip, docker, c) is Some implies reg.holds(c) by {
        let k = reg.replica_index(ip, docker);
        assert(reg.is_replica(ip, docker, k));
        lemma_held_at(reg, c, k);
    }
}

/// A client that is connected to replica `k` is connected.
pub proof fn lemma_held_at(reg: RegisteredView, c: ClientView, k: int)
    requires
        0 <= k < reg.replicas.len(),
        table::has_key(reg.replicas[k].clients, c),
    ensures
        reg.holds(c),
        reg.is_holder(c, reg.holder(c)),
        reg.holder(c) <= k,
    decreases k,
{
    if exists|j: int| 0 <= j < k && table::has_key((#[trigger] reg.replicas[j]).clients, c) {
        let j = choose|j: int|
            0 <= j < k && table::has_key((#[trigger] reg.replicas[j]).clients, c);
        lemma_held_at(reg, c, j);
    } else {
        assert(reg.is_holder(c, k));
        let h = reg.holder(c);
        assert(reg.is_holder(c, h));
        if k < h {
            assert(!table::has_key(reg.replicas[k].clients, c));
        }
    }
}

/// A proxy client that is connected to replica `k` is connected to no other.
pub proof fn lemma_sticky_holder(reg: RegisteredView, c: ClientView, k: int)
    requires
        sticky(reg),
        c.proxy is Some,
        0 <= k < reg.replicas.len(),
        table::has_key(reg.replicas[k].clients, c),
    ensures
        reg.holds(c),
        reg.holder(c) == k,
{
    lemma_held_at(reg, c, k);
    let h = reg.holder(c);
    assert(reg.is_holder(c, h));
    if h < k {
        assert(table::has_key(reg.replicas[h].clients, c));
    }
}

/// Other clients on replica `i`, none of them twice and no proxy client of another replica among
/// them, leave a running service well-formed.
pub proof fn lemma_with_clients_wf(
    reg: RegisteredView,
    i: int,
    clients: Seq<(ClientView, ClientInfoView)>,
)
    requires
        registered_wf(reg),
        0 <= i < reg.replicas.len(),
        table::distinct(clients),
        forall|c: ClientView, j: int|
            c.proxy is Some && 0 <= j < reg.replicas.len() && j != i && #[trigger] table::has_key(
                reg.replicas[j].clients,
                c,
            ) ==> !table::has_key(clients, c),
    ensures
        registered_wf(reg.with_clients(i, clients)),
{
    let after = reg.with_clients(i, clients);
    let ip = reg.replicas[i].ip;
    let docker = reg.replicas[i].docker_container;
    lemma_with_clients_index(reg, i, clients, ip, docker);
    assert forall|k: int| 0 <= k < after.replicas.len() implies table::distinct(
        (#[trigger] after.replicas[k]).clients,
    ) by {
        assert(table::distinct(reg.replicas[k].clients));
    }
    assert forall|a: int, b: int, c: ClientView|
        0 <= a < b < after.replicas.len() && c.proxy is Some && #[trigger] table::has_key(
            after.replicas[a].clients,
            c,
        ) implies !#[trigger] table::has_key(after.replicas[b].clients, c) by {
        if a != i && b != i {
            assert(table::has_key(reg.replicas[a].clients, c));
        } else if a == i {
            assert(after.replicas[b].clients == reg.replicas[b].clients);
            if table::has_key(reg.replicas[b].clients, c) {
                assert(!table::has_key(clients, c));
            }
        } else {
            assert(table::has_key(reg.replicas[a].clients, c));
        }
    }
}

/// What becomes of the connections when a client leaves: one is gone, the others are as they were.
pub proof fn lemma_without_client(reg: RegisteredView, c: ClientView)
    requires
        registered_wf(reg),
    ensures
        registered_wf(reg.without_client(c)),
        forall|ip: IpAddr, docker: Option<Seq<char>>, q: ClientView| #[trigger]
            replica_conn(reg.without_client(c), ip, docker, q) == (if q == c && reg.holds(c)
                && reg.replicas[reg.holder(c)].matches(ip, docker) {
                None
            } else {
                replica_conn(reg, ip, docker, q)
            }),
{
    if reg.holds(c) {
        let i = reg.holder(c);
        assert(reg.is_holder(c, i));
        let clients = reg.replicas[i].clients;
        let fewer = table::del(clients, c);
        assert(table::distinct(clients));
        table::lemma_del(clients, c, c);
        assert forall|q: ClientView, j: int|
            q.proxy is Some && 0 <= j < reg.replicas.len() && j != i && #[trigger] table::has_key(
                reg.replicas[j].clients,
                q,
            ) implies !table::has_key(fewer, q) by {
            table::lemma_del(clients, c, q);
            if table::has_key(clients, q) {
                assert(reg.replicas[i].clients == clients);
                if i < j {
                    assert(!table::has_key(reg.replicas[j].clients, q));
                }
            }
        }
        lemma_with_clients_wf(reg, i, fewer);
        assert forall|ip: IpAddr, docker: Option<Seq<char>>, q: ClientView| #[trigger]
            replica_conn(reg.without_client(c), ip, docker, q) == (if q == c
                && reg.replicas[i].matches(ip, docker) {
                None
            } else {
                replica_conn(reg, ip, docker, q)
            }) by {
            lemma_with_clients_conn(reg, i, fewer, ip, docker, q);
            table::lemma_del(clients, c, q);
            lemma_index(reg, i);
        }
    }
}

/// What becomes of the connections when a client leaves a replica: one is gone, the others are as they
/// were.
pub proof fn lemma_without_client_at(
    reg: RegisteredView,
    ip: IpAddr,
    docker: Option<Seq<char>>,
    c: ClientView,
)
    requires
        registered_wf(reg),
    ensures
        registered_wf(reg.without_client_at(ip, docker, c)),
        forall|a: IpAddr, b: Option<Seq<char>>, q: ClientView| #[trigger]
            replica_conn(reg.without_client_at(ip, docker, c), a, b, q) == (if q == c && a == ip
                && b == docker {
                None
            } else {
                replica_conn(reg, a, b, q)
            }),
{
    if reg.has_replica(ip, docker) {
        let i = reg.replica_index(ip, docker);
        assert(reg.is_replica(ip, docker, i));
        let clients = reg.replicas[i].clients;
        let fewer = table::del(clients, c);
        assert(table::distinct(clients));
        table::lemma_del(clients, c, c);
        assert forall|q: ClientView, j: int|
            q.proxy is Some && 0 <= j < reg.replicas.len() && j != i && #[trigger] table::has_key(
                reg.replicas[j].clients,
                q,
            ) implies !table::has_key(fewer, q) by {
            table::lemma_del(clients, c, q);
            if table::has_key(clients, q) {
                assert(reg.replicas[i].clients == clients);
                if i < j {
                    assert(!table::has_key(reg.replicas[j].clients, q));
                }
            }
        }
        lemma_with_clients_wf(reg, i, fewer);
        assert forall|a: IpAddr, b: Option<Seq<char>>, q: ClientView| #[trigger]
            replica_conn(reg.without_client_at(ip, docker, c), a, b, q) == (if q == c && a == ip
                && b == docker {
                None
            } else {
                replica_conn(reg, a, b, q)
            }) by {
            lemma_with_clients_conn(reg, i, fewer, a, b, q);
            table::lemma_del(clients, c, q);
            lemma_index(reg, i);
        }
    }
}

/// A client is connected to a replica exactly where it has a connection at its location.
pub proof fn lemma_holds_at(
    reg: RegisteredView,
    ip: IpAddr,
    docker: Option<Seq<char>>,
    c: ClientView,
)
    requires
        distinct_replicas(reg),
    ensures
        reg.holds_at(c, ip, docker) == (reg.info_at(ip, docker, c) is Some),
{
    if reg.holds_at(c, ip, docker) {
        let k = choose|k: int|
            0 <= k < reg.replicas.len() && (#[trigger] reg.replicas[k]).matches(ip, docker)
                && table::has_key(reg.replicas[k].clients, c);
        lemma_index(reg, k);
    }
    if reg.info_at(ip, docker, c) is Some {
        let k = reg.replica_index(ip, docker);
        assert(reg.is_replica(ip, docker, k));
        assert(reg.replicas[k].matches(ip, docker));
    }
}

/// What becomes of the connections when one changes: the others are as they were.
pub proof fn lemma_with_info(reg: RegisteredView, c: ClientView, ci: ClientInfoView)
    requires
        registered_wf(reg),
        reg.holds(c),
    ensures
        registered_wf(reg.with_info(c, ci)),
        forall|ip: IpAddr, docker: Option<Seq<char>>, q: ClientView| #[trigger]
            replica_conn(reg.with_info(c, ci), ip, docker, q) == (if q == c
                && reg.replicas[reg.holder(c)].matches(ip, docker) {
                Some(ci)
            } else {
                replica_conn(reg, ip, docker, q)
            }),
{
    let i = reg.holder(c);
    assert(reg.is_holder(c, i));
    let clients = reg.replicas[i].clients;
    let more = table::put(clients, c, ci);
    assert(table::distinct(clients));
    table::lemma_put(clients, c, ci, c);
    assert forall|q: ClientView, j: int|
        q.proxy is Some && 0 <= j < reg.replicas.len() && j != i && #[trigger] table::has_key(
            reg.replicas[j].clients,
            q,
        ) implies !table::has_key(more, q) by {
        table::lemma_put_keys(clients, c, ci, q);
        if table::has_key(clients, q) {
            assert(table::has_key(reg.replicas[i].clients, q));
        }
    }
    lemma_with_clients_wf(reg, i, more);
    assert forall|ip: IpAddr, docker: Option<Seq<char>>, q: ClientView| #[trigger]
        replica_conn(reg.with_info(c, ci), ip, docker, q) == (if q == c
            && reg.replicas[i].matches(ip, docker) {
            Some(ci)
        } else {
            replica_conn(reg, ip, docker, q)
        }) by {
        lemma_with_clients_conn(reg, i, more, ip, docker, q);
        table::lemma_put(clients, c, ci, q);
        lemma_index(reg, i);
    }
}

/// What becomes of the connections when a client is connected: there is one more, the others are as
/// they were.
pub proof fn lemma_with_client(
    reg: RegisteredView,
    ip: IpAddr,
    docker: Option<Seq<char>>,
    c: ClientView,
    ci: ClientInfoView,
)
    requires
        registered_wf(reg),
        c.proxy is Some && reg.holds(c) ==> reg.replicas[reg.holder(c)].matches(ip, docker),
    ensures
        registered_wf(reg.with_client(ip, docker, c, ci)),
        forall|a: IpAddr, b: Option<Seq<char>>, q: ClientView| #[trigger]
            replica_conn(reg.with_client(ip, docker, c, ci), a, b, q) == (if q == c && a == ip && b
                == docker && reg.has_replica(ip, docker) {
                Some(ci)
            } else {
                replica_conn(reg, a, b, q)
            }),
{
    if reg.has_replica(ip, docker) {
        let i = reg.replica_index(ip, docker);
        assert(reg.is_replica(ip, docker, i));
        let clients = reg.replicas[i].clients;
        let more = table::put(clients, c, ci);
        assert(table::distinct(clients));
        table::lemma_put(clients, c, ci, c);
        assert forall|q: ClientView, j: int|
            q.proxy is Some && 0 <= j < reg.replicas.len() && j != i && #[trigger] table::has_key(
                reg.replicas[j].clients,
                q,
            ) implies !table::has_key(more, q) by {
            table::lemma_put_keys(clients, c, ci, q);
            if q == c {
                lemma_sticky_holder(reg, c, j);
                assert(reg.replicas[j].matches(ip, docker));
                lemma_index(reg, j);
                lemma_index(reg, i);
            } else if table::has_key(clients, q) {
                assert(table::has_key(reg.replicas[i].clients, q));
            }
        }
        lemma_with_clients_wf(reg, i, more);
        assert forall|a: IpAddr, b: Option<Seq<char>>, q: ClientView| #[trigger]
            replica_conn(reg.with_client(ip, docker, c, ci), a, b, q) == (if q == c && a == ip && b
                == docker {
                Some(ci)
            } else {
                replica_conn(reg, a, b, q)
            }) by {
            lemma_with_clients_conn(reg, i, more, a, b, q);
            table::lemma_put(clients, c, ci, q);
            lemma_index(reg, i);
        }
    }
}

/// Where the replicas that run elsewhere come from: their indices before, in order.
proof fn lemma_elsewhere(replicas: Seq<ReplicaView>, place: PlaceView) -> (idx: Seq<int>)
    ensures
        idx.len() == seqs::concat_map(replicas, place.elsewhere()).len(),
        forall|k: int|
            0 <= k < idx.len() ==> {
                &&& 0 <= #[trigger] idx[k] < replicas.len()
                &&& seqs::concat_map(replicas, place.elsewhere())[k] == replicas[idx[k]]
                &&& !place.covers(replicas[idx[k]].ip, replicas[idx[k]].docker_container)
            },
        forall|a: int, b: int| 0 <= a < b < idx.len() ==> #[trigger] idx[a] < #[trigger] idx[b],
        forall|i: int|
            0 <= i < replicas.len() && !place.covers(
                (#[trigger] replicas[i]).ip,
                replicas[i].docker_container,
            ) ==> idx.contains(i),
    decreases replicas.len(),
{
    let f = place.elsewhere();
    if replicas.len() == 0 {
        Seq::empty()
    } else {
        let front = replicas.drop_last();
        let last = replicas.last();
        let before = lemma_elsewhere(front, place);
        let kept = seqs::concat_map(front, f);
        let all = seqs::concat_map(replicas, f);
        if place.covers(last.ip, last.docker_container) {
            assert(all =~= kept);
            assert forall|i: int|
                0 <= i < replicas.len() && !place.covers(
                    (#[trigger] replicas[i]).ip,
                    replicas[i].docker_container,
                ) implies before.contains(i) by {
                assert(front[i] == replicas[i]);
            }
            before
        } else {
            let idx = before.push(replicas.len() - 1);
            assert(all =~= kept.push(last));
            assert forall|i: int|
                0 <= i < replicas.len() && !place.covers(
                    (#[trigger] replicas[i]).ip,
                    replicas[i].docker_container,
                ) implies idx.contains(i) by {
                if i < front.len() {
                    assert(front[i] == replicas[i]);
                    assert(before.contains(i));
                    let k = choose|k: int| 0 <= k < before.len() && before[k] == i;
                    assert(idx[k] == i);
                } else {
                    assert(idx[before.len() as int] == i);
                }
            }
            idx
        }
    }
}

/// What becomes of the connections when the replicas in a place stop: theirs are gone, the others
/// are as they were.
pub proof fn lemma_without_replicas(reg: RegisteredView, place: PlaceView)
    requires
        registered_wf(reg),
    ensures
        service_wf(ServiceView::Registered(reg).without_replicas(place)),
        reg.without_replicas(place).replicas.len() > 0 ==> registered_wf(
            reg.without_replicas(place),
        ),
        distinct_replicas(reg.without_replicas(place)),
        forall|ip: IpAddr, docker: Option<Seq<char>>| #[trigger]
            reg.without_replicas(place).has_replica(ip, docker) == (reg.has_replica(ip, docker)
                && !place.covers(ip, docker)),
        forall|ip: IpAddr, docker: Option<Seq<char>>, c: ClientView| #[trigger]
            replica_conn(reg.without_replicas(place), ip, docker, c) == (if place.covers(
                ip,
                docker,
            ) {
                None
            } else {
                replica_conn(reg, ip, docker, c)
            }),
{
    let after = reg.without_replicas(place);
    let idx = lemma_elsewhere(reg.replicas, place);
    assert forall|a: int, b: int| 0 <= a < b < after.replicas.len() implies !((
    #[trigger] after.replicas[a]).ip == (#[trigger] after.replicas[b]).ip
        && after.replicas[a].docker_container == after.replicas[b].docker_container) by {
        assert(idx[a] < idx[b]);
        assert(after.replicas[a] == reg.replicas[idx[a]]);
        assert(after.replicas[b] == reg.replicas[idx[b]]);
    }
    assert forall|k: int| 0 <= k < after.replicas.len() implies table::distinct(
        (#[trigger] after.replicas[k]).clients,
    ) by {
        assert(after.replicas[k] == reg.replicas[idx[k]]);
    }
    assert forall|a: int, b: int, c: ClientView|
        0 <= a < b < after.replicas.len() && c.proxy is Some && #[trigger] table::has_key(
            after.replicas[a].clients,
            c,
        ) implies !#[trigger] table::has_key(after.replicas[b].clients, c) by {
        assert(idx[a] < idx[b]);
        assert(table::has_key(reg.replicas[idx[a]].clients, c));
        assert(after.replicas[b] == reg.replicas[idx[b]]);
    }
    assert forall|ip: IpAddr, docker: Option<Seq<char>>|
        #![trigger after.has_replica(ip, docker)]
        after.has_replica(ip, docker) == (reg.has_replica(ip, docker) && !place.covers(ip, docker))
            && (after.has_replica(ip, docker) ==> after.replicas[after.replica_index(ip, docker)]
            == reg.replicas[reg.replica_index(ip, docker)]) by {
        if after.has_replica(ip, docker) {
            let k = after.replica_index(ip, docker);
            assert(after.is_replica(ip, docker, k));
            assert(after.replicas[k] == reg.replicas[idx[k]]);
            lemma_index(reg, idx[k]);
        } else if reg.has_replica(ip, docker) && !place.covers(ip, docker) {
            let i = reg.replica_index(ip, docker);
            assert(reg.is_replica(ip, docker, i));
            assert(idx.contains(i));
            let k = choose|k: int| 0 <= k < idx.len() && idx[k] == i;
            assert(after.replicas[k] == reg.replicas[i]);
            lemma_index(after, k);
        }
    }
    assert forall|ip: IpAddr, docker: Option<Seq<char>>, c: ClientView| #[trigger]
        replica_conn(after, ip, docker, c) == (if place.covers(ip, docker) {
            None
        } else {
            replica_conn(reg, ip, docker, c)
        }) by {
        assert(after.has_replica(ip, docker) == (reg.has_replica(ip, docker) && !place.covers(
            ip,
            docker,
        )));
    }
}

/// A service that is found to run somewhere is well-formed, its other replicas are as they were and
/// so are its connections.
pub proof fn lemma_with_replica(
    si: ServiceView,
    ip: IpAddr,
    port: u16,
    docker: Option<Seq<char>>,
)
    requires
        service_wf(si),
    ensures
        service_wf(si.with_replica(ip, port, docker)),
        si.with_replica(ip, port, docker) is Registered,
        ({
            let after = si.with_replica(ip, port, docker)->Registered_0;
            &&& after.has_replica(ip, docker)
            &&& after.replicas[after.replica_index(ip, docker)].port == port
            &&& forall|a: IpAddr, b: Option<Seq<char>>| #[trigger]
                after.has_replica(a, b) == ((a == ip && b == docker) || (
                si matches ServiceView::Registered(reg) && reg.has_replica(a, b)))
            &&& forall|a: IpAddr, b: Option<Seq<char>>, c: ClientView| #[trigger]
                replica_conn(after, a, b, c) == (match si {
                    ServiceView::Registered(reg) => replica_conn(reg, a, b, c),
                    ServiceView::Unregistered(_) => None,
                })
        }),
{
    let after = si.with_replica(ip, port, docker)->Registered_0;
    let replica = ReplicaView { ip, port, docker_container: docker, clients: Seq::empty() };
    let none = Seq::<(ClientView, ClientInfoView)>::empty();
    assert forall|c: ClientView| !#[trigger] table::has_key(none, c) by {}
    match si {
        ServiceView::Unregistered(_) => {
            lemma_index(after, 0);
            assert forall|a: IpAddr, b: Option<Seq<char>>|
                #![trigger after.has_replica(a, b)]
                after.has_replica(a, b) == (a == ip && b == docker) by {
                if after.has_replica(a, b) {
                    let k = after.replica_index(a, b);
                    assert(after.is_replica(a, b, k));
                    assert(after.replicas[k] == replica);
                }
            }
            assert forall|a: IpAddr, b: Option<Seq<char>>, c: ClientView| #[trigger]
                replica_conn(after, a, b, c) is None by {
                if after.has_replica(a, b) {
                    assert(after.is_replica(a, b, after.replica_index(a, b)));
                    assert(after.replicas[after.replica_index(a, b)] == replica);
                }
            }
        },
        ServiceView::Registered(reg) => {
            if reg.has_replica(ip, docker) {
                let i = reg.replica_index(ip, docker);
                assert(reg.is_replica(ip, docker, i));
                lemma_same_places(reg, after, i);
                lemma_index(after, i);
            } else {
                assert forall|j: int| 0 <= j < reg.replicas.len() implies !(
                #[trigger] reg.replicas[j]).matches(ip, docker) by {
                    if reg.replicas[j].matches(ip, docker) {
                        lemma_index(reg, j);
                    }
                }
                lemma_one_more(reg, after, replica);
                lemma_index(after, reg.replicas.len() as int);
            }
        },
    }
}

/// A running service whose replica `i` changed its port.
proof fn lemma_same_places(reg: RegisteredView, after: RegisteredView, i: int)
    requires
        registered_wf(reg),
        0 <= i < reg.replicas.len(),
        after.replicas == reg.replicas.update(i, after.replicas[i]),
        after.replicas[i] == (ReplicaView { port: after.replicas[i].port, ..reg.replicas[i] }),
    ensures
        registered_wf(after),
        forall|a: IpAddr, b: Option<Seq<char>>| #[trigger]
            after.has_replica(a, b) == reg.has_replica(a, b),
        forall|a: IpAddr, b: Option<Seq<char>>, c: ClientView| #[trigger]
            replica_conn(after, a, b, c) == replica_conn(reg, a, b, c),
{
    assert(after.replicas.len() == reg.replicas.len());
    assert forall|k: int| 0 <= k < reg.replicas.len() implies (#[trigger] after.replicas[k]).ip
        == reg.replicas[k].ip && after.replicas[k].docker_container
        == reg.replicas[k].docker_container && after.replicas[k].clients
        == reg.replicas[k].clients by {}
    assert forall|x: int, y: int| 0 <= x < y < after.replicas.len() implies !((
    #[trigger] after.replicas[x]).ip == (#[trigger] after.replicas[y]).ip
        && after.replicas[x].docker_container == after.replicas[y].docker_container) by {
        assert(reg.replicas[x].ip == after.replicas[x].ip);
        assert(reg.replicas[y].ip == after.replicas[y].ip);
    }
    assert forall|k: int| 0 <= k < after.replicas.len() implies table::distinct(
        (#[trigger] after.replicas[k]).clients,
    ) by {
        assert(table::distinct(reg.replicas[k].clients));
    }
    assert forall|x: int, y: int, c: ClientView|
        0 <= x < y < after.replicas.len() && c.proxy is Some && #[trigger] table::has_key(
            after.replicas[x].clients,
            c,
        ) implies !#[trigger] table::has_key(after.replicas[y].clients, c) by {
        assert(table::has_key(reg.replicas[x].clients, c));
        assert(after.replicas[y].clients == reg.replicas[y].clients);
    }
    assert forall|a: IpAddr, b: Option<Seq<char>>|
        #![trigger after.has_replica(a, b)]
        after.has_replica(a, b) == reg.has_replica(a, b) && (after.has_replica(a, b)
            ==> after.replica_index(a, b) == reg.replica_index(a, b)) by {
        if after.has_replica(a, b) {
            let k = after.replica_index(a, b);
            assert(after.is_replica(a, b, k));
            assert(reg.replicas[k].matches(a, b));
            lemma_index(reg, k);
        }
        if reg.has_replica(a, b) {
            let k = reg.replica_index(a, b);
            assert(reg.is_replica(a, b, k));
            assert(after.replicas[k].matches(a, b));
            lemma_index(after, k);
        }
    }
    assert forall|a: IpAddr, b: Option<Seq<char>>, c: ClientView| #[trigger]
        replica_conn(after, a, b, c) == replica_conn(reg, a, b, c) by {
        assert(after.has_replica(a, b) == reg.has_replica(a, b));
        if reg.has_replica(a, b) {
            assert(reg.is_replica(a, b, reg.replica_index(a, b)));
        }
    }
}

/// A running service with one more replica, without clients.
proof fn lemma_one_more(reg: RegisteredView, after: RegisteredView, replica: ReplicaView)
    requires
        registered_wf(reg),
        after.replicas == reg.replicas.push(replica),
        replica.clients == Seq::<(ClientView, ClientInfoView)>::empty(),
        forall|j: int|
            0 <= j < reg.replicas.len() ==> !(#[trigger] reg.replicas[j]).matches(
                replica.ip,
                replica.docker_container,
            ),
    ensures
        registered_wf(after),
        forall|a: IpAddr, b: Option<Seq<char>>| #[trigger]
            after.has_replica(a, b) == (replica.matches(a, b) || reg.has_replica(a, b)),
        forall|a: IpAddr, b: Option<Seq<char>>, c: ClientView| #[trigger]
            replica_conn(after, a, b, c) == replica_conn(reg, a, b, c),
{
    let n = reg.replicas.len() as int;
    assert forall|c: ClientView| !#[trigger] table::has_key(replica.clients, c) by {}
    assert forall|x: int, y: int| 0 <= x < y < after.replicas.len() implies !((
    #[trigger] after.replicas[x]).ip == (#[trigger] after.replicas[y]).ip
        && after.replicas[x].docker_container == after.replicas[y].docker_container) by {
        assert(reg.replicas[x] == after.replicas[x]);
        if y < n {
            assert(reg.replicas[y] == after.replicas[y]);
        } else {
            assert(!reg.replicas[x].matches(replica.ip, replica.docker_container));
        }
    }
    assert forall|k: int| 0 <= k < after.replicas.len() implies table::distinct(
        (#[trigger] after.replicas[k]).clients,
    ) by {
        if k < n {
            assert(table::distinct(reg.replicas[k].clients));
        }
    }
    assert forall|x: int, y: int, c: ClientView|
        0 <= x < y < after.replicas.len() && c.proxy is Some && #[trigger] table::has_key(
            after.replicas[x].clients,
            c,
        ) implies !#[trigger] table::has_key(after.replicas[y].clients, c) by {
        if y < n {
            assert(table::has_key(reg.replicas[x].clients, c));
            assert(after.replicas[y] == reg.replicas[y]);
        } else {
            assert(after.replicas[y] == replica);
        }
    }
    assert forall|a: IpAddr, b: Option<Seq<char>>|
        #![trigger after.has_replica(a, b)]
        after.has_replica(a, b) == (replica.matches(a, b) || reg.has_replica(a, b)) && (
        reg.has_replica(a, b) ==> after.replica_index(a, b) == reg.replica_index(a, b)) && (
        after.has_replica(a, b) && !reg.has_replica(a, b) ==> after.replica_index(a, b) == n) by {
        if reg.has_replica(a, b) {
            let k = reg.replica_index(a, b);
            assert(reg.is_replica(a, b, k));
            assert(after.replicas[k] == reg.replicas[k]);
            lemma_index(after, k);
        } else if replica.matches(a, b) {
            lemma_index(after, n);
        }
        if after.has_replica(a, b) {
            let k = after.replica_index(a, b);
            assert(after.is_replica(a, b, k));
            if k < n {
                assert(after.replicas[k] == reg.replicas[k]);
                lemma_index(reg, k);
            }
        }
    }
    assert forall|a: IpAddr, b: Option<Seq<char>>, c: ClientView| #[trigger]
        replica_conn(after, a, b, c) == replica_conn(reg, a, b, c) by {
        assert(after.has_replica(a, b) == (replica.matches(a, b) || reg.has_replica(a, b)));
        if reg.has_replica(a, b) {
            assert(reg.is_replica(a, b, reg.replica_index(a, b)));
        } else if after.has_replica(a, b) {
            assert(after.replicas[n] == replica);
        }
    }
}

/// A connection is listed exactly where it is at its location.
pub proof fn lemma_entries(reg: RegisteredView, e: EntryView)
    requires
        registered_wf(reg),
    ensures
        reg.entries().contains(e) == (replica_conn(reg, e.ip, e.docker_container, e.client) == Some(
            e.info,
        ) && reg.replicas[reg.replica_index(e.ip, e.docker_container)].port == e.port),
{
    let f = model::entries_of();
    if reg.entries().contains(e) {
        let i = seqs::lemma_concat_map_from(reg.replicas, f, e);
        let r = reg.replicas[i];
        let k = choose|k: int| 0 <= k < r.entries().len() && r.entries()[k] == e;
        lemma_index(reg, i);
        assert(table::distinct(r.clients));
        table::lemma_occurs(r.clients, e.client, k);
    }
    if replica_conn(reg, e.ip, e.docker_container, e.client) == Some(e.info)
        && reg.replicas[reg.replica_index(e.ip, e.docker_container)].port == e.port {
        let i = reg.replica_index(e.ip, e.docker_container);
        assert(reg.is_replica(e.ip, e.docker_container, i));
        let r = reg.replicas[i];
        let k = table::position(r.clients, e.client);
        assert(table::is_first(r.clients, e.client, k));
        assert(r.entries()[k] == e);
        assert(r.entries().contains(e));
        seqs::lemma_concat_map_has(reg.replicas, f, i, e);
    }
}

/// No connection is listed twice.
pub proof fn lemma_entries_distinct(reg: RegisteredView)
    requires
        registered_wf(reg),
    ensures
        reg.entries().no_duplicates(),
{
    lemma_entries_distinct_up_to(reg, reg.replicas.len() as int);
    assert(reg.replicas.take(reg.replicas.len() as int) =~= reg.replicas);
}

proof fn lemma_entries_distinct_up_to(reg: RegisteredView, m: int)
    requires
        registered_wf(reg),
        0 <= m <= reg.replicas.len(),
    ensures
        seqs::concat_map(reg.replicas.take(m), model::entries_of()).no_duplicates(),
    decreases m,
{
    let f = model::entries_of();
    let all = seqs::concat_map(reg.replicas.take(m), f);
    if m == 0 {
        assert(reg.replicas.take(0) =~= Seq::empty());
    } else {
        let n = m - 1;
        lemma_entries_distinct_up_to(reg, n);
        seqs::lemma_concat_map_step(reg.replicas, f, n);
        let front = seqs::concat_map(reg.replicas.take(n), f);
        let r = reg.replicas[n];
        assert(table::distinct(r.clients));
        assert forall|a: int, b: int| 0 <= a < b < all.len() implies all[a] != all[b] by {
            if b < front.len() {
                assert(front[a] != front[b]);
            } else if a >= front.len() {
                let (x, y) = (a - front.len(), b - front.len());
                assert(r.clients[x].0 != r.clients[y].0);
            } else {
                assert(front.contains(front[a]));
                let i = seqs::lemma_concat_map_from(reg.replicas.take(n), f, front[a]);
                assert(reg.replicas.take(n)[i] == reg.replicas[i]);
                assert(!(reg.replicas[i].ip == reg.replicas[n].ip
                    && reg.replicas[i].docker_container == reg.replicas[n].docker_container));
            }
        }
    }
}

} // verus!
