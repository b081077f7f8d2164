//! The room that the chain counters of connections have below the machine limit.
use crate::addr::IpAddr;
use crate::services::clients::{Client, ClientInfo, ClientInfoView, ClientView};
use crate::services::model::{RegisteredView, ServiceView, ServicesView};
use crate::services::service_info::{RegisteredServiceInfo, ServiceInfo, Services};
use crate::table;
use crate::table::Table;
use vstd::prelude::*;

verus! {

/// Every counter of these connections can be raised `n` times.
pub open spec fn clients_room(clients: Seq<(ClientView, ClientInfoView)>, n: nat) -> bool {
    forall|k: int|
        0 <= k < clients.len() ==> (#[trigger] clients[k]).1.active_chains + n <= usize::MAX
}

/// Every counter of the service's connections can be raised `n` times.
pub open spec fn service_room(si: ServiceView, n: nat) -> bool {
    forall|j: int|
        0 <= j < si.replicas().len() ==> clients_room((#[trigger] si.replicas()[j]).clients, n)
}

/// Every counter can be raised `n` times.
pub open spec fn has_room(services: ServicesView, n: nat) -> bool {
    forall|i: int| 0 <= i < services.len() ==> service_room((#[trigger] services[i]).1, n)
}

/// Room for a number is room for a smaller one.
pub proof fn lemma_less_room(services: ServicesView, n: nat, m: nat)
    requires
        has_room(services, n),
        m <= n,
    ensures
        has_room(services, m),
{
    assert forall|i: int| 0 <= i < services.len() implies service_room(
        (#[trigger] services[i]).1,
        m,
    ) by {
        assert(service_room(services[i].1, n));
        assert forall|j: int| 0 <= j < services[i].1.replicas().len() implies clients_room(
            (#[trigger] services[i].1.replicas()[j]).clients,
            m,
        ) by {
            assert(clients_room(services[i].1.replicas()[j].clients, n));
        }
    }
}

/// A service with room in place of another leaves room.
pub proof fn lemma_put_room(services: ServicesView, name: Seq<char>, si: ServiceView, n: nat)
    requires
        has_room(services, n),
        service_room(si, n),
    ensures
        has_room(table::put(services, name, si), n),
{
    let t = table::put(services, name, si);
    if table::has_key(services, name) {
        assert(table::is_first(services, name, table::position(services, name)));
    }
    assert forall|i: int| 0 <= i < t.len() implies service_room((#[trigger] t[i]).1, n) by {
        if i < services.len() && t[i] == services[i] {
            assert(service_room(services[i].1, n));
        }
    }
}

/// The service under a name has the room that all have.
pub proof fn lemma_room_of(services: ServicesView, name: Seq<char>, n: nat)
    requires
        has_room(services, n),
    ensures
        table::lookup(services, name) matches Some(si) ==> service_room(si, n),
{
    if table::has_key(services, name) {
        let i = table::position(services, name);
        assert(table::is_first(services, name, i));
        assert(service_room(services[i].1, n));
    }
}

/// Connections with room, with one more of them in place of another, leave room.
proof fn lemma_put_clients_room(
    clients: Seq<(ClientView, ClientInfoView)>,
    c: ClientView,
    ci: ClientInfoView,
    n: nat,
)
    requires
        clients_room(clients, n),
        ci.active_chains + n <= usize::MAX,
    ensures
        clients_room(table::put(clients, c, ci), n),
{
    let t = table::put(clients, c, ci);
    if table::has_key(clients, c) {
        assert(table::is_first(clients, c, table::position(clients, c)));
    }
    assert forall|k: int| 0 <= k < t.len() implies (#[trigger] t[k]).1.active_chains + n
        <= usize::MAX by {
        if k < clients.len() && t[k] == clients[k] {
            assert(clients[k].1.active_chains + n <= usize::MAX);
        }
    }
}

/// Replica `i` with other connections that have room leaves room.
proof fn lemma_with_clients_room(
    reg: RegisteredView,
    i: int,
    clients: Seq<(ClientView, ClientInfoView)>,
    n: nat,
)
    requires
        service_room(ServiceView::Registered(reg), n),
        0 <= i < reg.replicas.len(),
        clients_room(clients, n),
    ensures
        service_room(ServiceView::Registered(reg.with_clients(i, clients)), n),
{
    let old_si = ServiceView::Registered(reg);
    let si = ServiceView::Registered(reg.with_clients(i, clients));
    assert forall|j: int| 0 <= j < si.replicas().len() implies clients_room(
        (#[trigger] si.replicas()[j]).clients,
        n,
    ) by {
        assert(clients_room(old_si.replicas()[j].clients, n));
    }
}

/// The connection of a client has the room that all have.
pub proof fn lemma_info_room(reg: RegisteredView, c: ClientView, n: nat)
    requires
        service_room(ServiceView::Registered(reg), n),
    ensures
        reg.info(c) matches Some(ci) ==> ci.active_chains + n <= usize::MAX,
{
    if reg.holds(c) {
        let i = reg.holder(c);
        assert(reg.is_holder(c, i));
        let clients = reg.replicas[i].clients;
        assert(clients_room(ServiceView::Registered(reg).replicas()[i].clients, n));
        let k = table::position(clients, c);
        assert(table::is_first(clients, c, k));
        assert(clients[k].1.active_chains + n <= usize::MAX);
    }
}

/// One more chain takes room for one.
pub proof fn lemma_with_chain_room(reg: RegisteredView, c: ClientView, now: nat, n: nat)
    requires
        service_room(ServiceView::Registered(reg), n + 1),
    ensures
        service_room(ServiceView::Registered(reg.with_chain(c, now)), n),
{
    let si = ServiceView::Registered(reg);
    assert(service_room(si, n)) by {
        assert forall|j: int| 0 <= j < si.replicas().len() implies clients_room(
            (#[trigger] si.replicas()[j]).clients,
            n,
        ) by {
            assert(clients_room(si.replicas()[j].clients, n + 1));
        }
    }
    lemma_info_room(reg, c, n + 1);
    if reg.holds(c) {
        let i = reg.holder(c);
        assert(reg.is_holder(c, i));
        let ci = reg.info(c)->0;
        assert(clients_room(si.replicas()[i].clients, n));
        lemma_put_clients_room(reg.replicas[i].clients, c, ci.with_chain(now), n);
        lemma_with_clients_room(
            reg,
            i,
            table::put(reg.replicas[i].clients, c, ci.with_chain(now)),
            n,
        );
    }
}

/// The connection of a client to a replica has the room that all have.
pub proof fn lemma_info_at_room(
    reg: RegisteredView,
    ip: IpAddr,
    docker: Option<Seq<char>>,
    c: ClientView,
    n: nat,
)
    requires
        service_room(ServiceView::Registered(reg), n),
    ensures
        reg.info_at(ip, docker, c) matches Some(ci) ==> ci.active_chains + n <= usize::MAX,
{
    if reg.info_at(ip, docker, c) is Some {
        let i = reg.replica_index(ip, docker);
        assert(reg.is_replica(ip, docker, i));
        let clients = reg.replicas[i].clients;
        assert(clients_room(ServiceView::Registered(reg).replicas()[i].clients, n));
        let k = table::position(clients, c);
        assert(table::is_first(clients, c, k));
        assert(clients[k].1.active_chains + n <= usize::MAX);
    }
}

/// One more chain over the connection to a replica takes room for one.
pub proof fn lemma_with_chain_at_room(
    reg: RegisteredView,
    ip: IpAddr,
    docker: Option<Seq<char>>,
    c: ClientView,
    now: nat,
    n: nat,
)
    requires
        service_room(ServiceView::Registered(reg), n + 1),
    ensures
        service_room(ServiceView::Registered(reg.with_chain_at(ip, docker, c, now)), n),
{
    let si = ServiceView::Registered(reg);
    assert forall|j: int| 0 <= j < si.replicas().len() implies clients_room(
        (#[trigger] si.replicas()[j]).clients,
        n,
    ) by {
        assert(clients_room(si.replicas()[j].clients, n + 1));
    }
    lemma_info_at_room(reg, ip, docker, c, n + 1);
    if let Some(ci) = reg.info_at(ip, docker, c) {
        lemma_with_client_room(reg, ip, docker, c, ci.with_chain(now), n);
    }
}

/// A connection whose counter has room leaves room.
pub proof fn lemma_with_client_room(
    reg: RegisteredView,
    ip: IpAddr,
    docker: Option<Seq<char>>,
    c: ClientView,
    ci: ClientInfoView,
    n: nat,
)
    requires
        service_room(ServiceView::Registered(reg), n),
        ci.active_chains + n <= usize::MAX,
    ensures
        service_room(ServiceView::Registered(reg.with_client(ip, docker, c, ci)), n),
{
    let si = ServiceView::Registered(reg);
    if reg.has_replica(ip, docker) {
        let i = reg.replica_index(ip, docker);
        assert(reg.is_replica(ip, docker, i));
        assert(clients_room(si.replicas()[i].clients, n));
        lemma_put_clients_room(reg.replicas[i].clients, c, ci, n);
        lemma_with_clients_room(reg, i, table::put(reg.replicas[i].clients, c, ci), n);
    }
}

/// A client that leaves a replica takes no room.
pub proof fn lemma_without_client_at_room(
    reg: RegisteredView,
    ip: IpAddr,
    docker: Option<Seq<char>>,
    c: ClientView,
    n: nat,
)
    requires
        service_room(ServiceView::Registered(reg), n),
    ensures
        service_room(ServiceView::Registered(reg.without_client_at(ip, docker, c)), n),
{
    let si = ServiceView::Registered(reg);
    if reg.has_replica(ip, docker) {
        let i = reg.replica_index(ip, docker);
        assert(reg.is_replica(ip, docker, i));
        let clients = reg.replicas[i].clients;
        assert(clients_room(si.replicas()[i].clients, n));
        let t = table::del(clients, c);
        assert forall|k: int| 0 <= k < t.len() implies (#[trigger] t[k]).1.active_chains + n
            <= usize::MAX by {
            if table::has_key(clients, c) {
                let p = table::position(clients, c);
                assert(table::is_first(clients, c, p));
                let m = if k < p { k } else { k + 1 };
                assert(t[k] == clients[m]);
            } else {
                assert(t[k] == clients[k]);
            }
        }
        lemma_with_clients_room(reg, i, t, n);
    }
}

/// Whether every counter can be raised `n` times.
pub fn counters_have_room(services: &Services, n: usize) -> (r: bool)
    ensures
        r == has_room(services@, n as nat),
{
    let mut i: usize = 0;
    while i < services.len()
        invariant
            i <= services@.len(),
            forall|j: int| 0 <= j < i ==> service_room((#[trigger] services@[j]).1, n as nat),
        decreases services@.len() - i,
    {
        let si = services.value_at(i);
        if let ServiceInfo::Registered(reg) = si {
            if !replicas_have_room(reg, n) {
                assert(!service_room(services@[i as int].1, n as nat));
                return false;
            }
        }
        i = i + 1;
    }
    true
}

fn replicas_have_room(reg: &RegisteredServiceInfo, n: usize) -> (r: bool)
    ensures
        r == service_room(ServiceView::Registered(reg@), n as nat),
{
    let ghost si = ServiceView::Registered(reg@);
    let replicas = reg.replicas();
    let mut i: usize = 0;
    while i < replicas.len()
        invariant
            i <= replicas.len(),
            si == ServiceView::Registered(reg@),
            si.replicas() == replicas.deep_view(),
            forall|j: int|
                0 <= j < i ==> clients_room((#[trigger] si.replicas()[j]).clients, n as nat),
        decreases replicas.len() - i,
    {
        assert(si.replicas()[i as int] == replicas[i as int]@);
        if !connections_have_room(replicas[i].clients(), n) {
            return false;
        }
        i = i + 1;
    }
    true
}

fn connections_have_room(clients: &Table<Client, ClientInfo>, n: usize) -> (r: bool)
    ensures
        r == clients_room(clients@, n as nat),
{
    let mut i: usize = 0;
    while i < clients.len()
        invariant
            i <= clients@.len(),
            forall|j: int|
                0 <= j < i ==> (#[trigger] clients@[j]).1.active_chains + n <= usize::MAX,
        decreases clients@.len() - i,
    {
        if clients.value_at(i).active_chains() > usize::MAX - n {
            assert(clients@[i as int].1.active_chains + n > usize::MAX);
            return false;
        }
        i = i + 1;
    }
    true
}

} // verus!
