//! What operations on one service do to its replicas and clients.
use crate::addr::IpAddr;
use crate::cascade_laws;
use crate::seqs;
use crate::services::clients::{ClientInfoView, ClientView};
use crate::services::connections;
use crate::services::laws;
use crate::services::model;
use crate::services::model::{
    EntryView, PlaceView, RegisteredView, ReplicaView, ServiceView, ServicesView,
};
use crate::services::room;
use crate::state_laws;
use crate::table;
use vstd::prelude::*;

verus! {

/// A service that is found to run in a place runs there at the port that was found: as it ran there, where
/// it did, else as its last replica, without a client. Its other replicas, all connections and its
/// configuration stay as they are.
pub proof fn law_replica_found(si: ServiceView, ip: IpAddr, port: u16, docker: Option<Seq<char>>)
    requires
        connections::service_wf(si),
    ensures
        match si.with_replica(ip, port, docker) {
            ServiceView::Unregistered(_) => false,
            ServiceView::Registered(after) => {
                let before = si.replicas();
                let ran = exists|i: int|
                    0 <= i < before.len() && (#[trigger] before[i]).ip == ip
                        && before[i].docker_container == docker;
                &&& after.config == si.config()
                &&& after.replicas.len() == before.len() + (if ran {
                    0int
                } else {
                    1
                })
                &&& forall|i: int|
                    0 <= i < before.len() ==> {
                        &&& (#[trigger] after.replicas[i]).ip == before[i].ip
                        &&& after.replicas[i].docker_container == before[i].docker_container
                        &&& after.replicas[i].clients == before[i].clients
                        &&& after.replicas[i].port == (if before[i].ip == ip
                            && before[i].docker_container == docker {
                            port
                        } else {
                            before[i].port
                        })
                    }
                &&& !ran ==> {
                    let r = after.replicas.last();
                    &&& r.ip == ip
                    &&& r.docker_container == docker
                    &&& r.port == port
                    &&& r.clients.len() == 0
                }
            },
        },
{
    if let ServiceView::Registered(reg) = si {
        if reg.has_replica(ip, docker) {
            let i = reg.replica_index(ip, docker);
            assert(reg.is_replica(ip, docker, i));
            assert(reg.replicas[i].ip == ip && reg.replicas[i].docker_container == docker);
        } else if exists|i: int|
            0 <= i < reg.replicas.len() && (#[trigger] reg.replicas[i]).ip == ip
                && reg.replicas[i].docker_container == docker {
            let i = choose|i: int|
                0 <= i < reg.replicas.len() && (#[trigger] reg.replicas[i]).ip == ip
                    && reg.replicas[i].docker_container == docker;
            connections::lemma_index(reg, i);
        }
    }
}

/// Where some replicas of a service stop, the others run as they ran, at their ports and with all their
/// clients. A service without replicas does not run. Its configuration stays as it is.
pub proof fn law_replicas_stopped(
    reg: RegisteredView,
    ip: IpAddr,
    docker: Option<Option<Seq<char>>>,
)
    requires
        connections::registered_wf(reg),
    ensures
        ({
            let place = match docker {
                Some(d) => PlaceView::Replica(ip, d),
                None => PlaceView::Host(ip),
            };
            let left = exists|i: int|
                0 <= i < reg.replicas.len() && !cascade_laws::is_there(
                    ip,
                    docker,
                    (#[trigger] reg.replicas[i]).ip,
                    reg.replicas[i].docker_container,
                );
            match ServiceView::Registered(reg).without_replicas(place) {
                ServiceView::Unregistered(config) => !left && config == reg.config,
                ServiceView::Registered(after) => {
                    &&& left
                    &&& after.config == reg.config
                    &&& forall|x: IpAddr, y: Option<Seq<char>>| #[trigger]
                        laws::replica_port(after, x, y) == (if cascade_laws::is_there(
                            ip,
                            docker,
                            x,
                            y,
                        ) {
                            None
                        } else {
                            laws::replica_port(reg, x, y)
                        })
                    &&& forall|x: IpAddr, y: Option<Seq<char>>, c: ClientView| #[trigger]
                        connections::replica_conn(after, x, y, c) == (if cascade_laws::is_there(
                            ip,
                            docker,
                            x,
                            y,
                        ) {
                            None
                        } else {
                            connections::replica_conn(reg, x, y, c)
                        })
                },
            }
        }),
{
    let place = match docker {
        Some(d) => PlaceView::Replica(ip, d),
        None => PlaceView::Host(ip),
    };
    let after = reg.without_replicas(place);
    connections::lemma_without_replicas(reg, place);
    laws::lemma_ports_elsewhere(reg, place);
    if after.replicas.len() > 0 {
        connections::lemma_index(after, 0);
        let r = after.replicas[0];
        assert(after.has_replica(r.ip, r.docker_container));
        assert(reg.has_replica(r.ip, r.docker_container) && !place.covers(r.ip, r.docker_container));
        let i = reg.replica_index(r.ip, r.docker_container);
        assert(reg.is_replica(r.ip, r.docker_container, i));
        assert(!cascade_laws::is_there(
            ip,
            docker,
            reg.replicas[i].ip,
            reg.replicas[i].docker_container,
        ));
    }
    if exists|i: int|
        0 <= i < reg.replicas.len() && !cascade_laws::is_there(
            ip,
            docker,
            (#[trigger] reg.replicas[i]).ip,
            reg.replicas[i].docker_container,
        ) {
        let i = choose|i: int|
            0 <= i < reg.replicas.len() && !cascade_laws::is_there(
                ip,
                docker,
                (#[trigger] reg.replicas[i]).ip,
                reg.replicas[i].docker_container,
            );
        let r = reg.replicas[i];
        connections::lemma_index(reg, i);
        assert(after.has_replica(r.ip, r.docker_container));
        let k = after.replica_index(r.ip, r.docker_container);
        assert(after.is_replica(r.ip, r.docker_container, k));
    }
}

/// The services that are found to be connected to replicas in a place are those that are, each once.
pub proof fn law_services_connected(
    reg: RegisteredView,
    ip: IpAddr,
    docker: Option<Option<Seq<char>>>,
)
    requires
        connections::registered_wf(reg),
    ensures
        ({
            let place = match docker {
                Some(d) => PlaceView::Replica(ip, d),
                None => PlaceView::Host(ip),
            };
            &&& reg.service_clients(place).no_duplicates()
            &&& forall|c: ClientView| #[trigger]
                reg.service_clients(place).contains(c) == (c.proxy is None && exists|
                    x: IpAddr,
                    y: Option<Seq<char>>,
                |
                    (#[trigger] connections::replica_conn(reg, x, y, c)) is Some
                        && cascade_laws::is_there(ip, docker, x, y))
        }),
{
    let place = match docker {
        Some(d) => PlaceView::Replica(ip, d),
        None => PlaceView::Host(ip),
    };
    lemma_unique_once(seqs::concat_map(reg.entries(), place.service_clients()));
    assert forall|c: ClientView| #[trigger]
        reg.service_clients(place).contains(c) == (c.proxy is None && exists|
            x: IpAddr,
            y: Option<Seq<char>>,
        |
            (#[trigger] connections::replica_conn(reg, x, y, c)) is Some && cascade_laws::is_there(
                ip,
                docker,
                x,
                y,
            )) by {
        cascade_laws::lemma_service_clients(reg, place, c);
        assert forall|x: IpAddr, y: Option<Seq<char>>| #[trigger]
            connections::replica_conn(reg, x, y, c) is Some implies place.covers(x, y)
            == cascade_laws::is_there(ip, docker, x, y) by {}
    }
}

proof fn lemma_unique_once<A>(s: Seq<A>)
    ensures
        seqs::unique(s).no_duplicates(),
    decreases s.len(),
{
    if s.len() > 0 {
        lemma_unique_once(s.drop_last());
        state_laws::lemma_with(seqs::unique(s.drop_last()), s.last());
    }
}

/// How many clients replicas have.
pub open spec fn clients_of(replicas: Seq<ReplicaView>) -> nat
    decreases replicas.len(),
{
    if replicas.len() == 0 {
        0
    } else {
        clients_of(replicas.drop_last()) + replicas.last().clients.len()
    }
}

/// The connections of a service are those of all its replicas, each once: as many as its replicas have
/// clients, each with its client, what is known of it, and the place and the port of its replica.
pub proof fn law_connections(reg: RegisteredView)
    requires
        connections::registered_wf(reg),
    ensures
        reg.entries().len() == clients_of(reg.replicas),
        reg.entries().no_duplicates(),
        forall|e: EntryView| #[trigger]
            reg.entries().contains(e) == (connections::replica_conn(
                reg,
                e.ip,
                e.docker_container,
                e.client,
            ) == Some(e.info) && laws::replica_port(reg, e.ip, e.docker_container) == Some(e.port)),
{
    lemma_clients_of(reg.replicas);
    connections::lemma_entries_distinct(reg);
    assert forall|e: EntryView| #[trigger]
        reg.entries().contains(e) == (connections::replica_conn(
            reg,
            e.ip,
            e.docker_container,
            e.client,
        ) == Some(e.info) && laws::replica_port(reg, e.ip, e.docker_container) == Some(e.port)) by {
        connections::lemma_entries(reg, e);
    }
}

proof fn lemma_clients_of(replicas: Seq<ReplicaView>)
    ensures
        seqs::concat_map(replicas, model::entries_of()).len() == clients_of(replicas),
    decreases replicas.len(),
{
    if replicas.len() > 0 {
        lemma_clients_of(replicas.drop_last());
    }
}

/// The entries of backend chains that a service has are the connections that are marked as such, with their
/// last use.
pub proof fn law_backend_entries(reg: RegisteredView, c: ClientView, latest: nat)
    requires
        connections::registered_wf(reg),
    ensures
        reg.backend_entries().contains((c, latest)) == exists|x: IpAddr, y: Option<Seq<char>>|
            (#[trigger] connections::replica_conn(reg, x, y, c)) matches Some(ci)
                && ci.is_backend_entry && ci.latest == latest,
{
    let f = model::backend_entry();
    let all = seqs::concat_map(reg.entries(), f);
    if all.contains((c, latest)) {
        let i = seqs::lemma_concat_map_from(reg.entries(), f, (c, latest));
        let e = reg.entries()[i];
        let t = f(e);
        let j = choose|j: int| 0 <= j < t.len() && t[j] == (c, latest);
        assert(t[0] == (c, latest));
        assert(reg.entries().contains(e));
        connections::lemma_entries(reg, e);
        assert(connections::replica_conn(reg, e.ip, e.docker_container, c) == Some(e.info));
    }
    if exists|x: IpAddr, y: Option<Seq<char>>|
        (#[trigger] connections::replica_conn(reg, x, y, c)) matches Some(ci) && ci.is_backend_entry
            && ci.latest == latest {
        let (x, y) = choose|x: IpAddr, y: Option<Seq<char>>|
            (#[trigger] connections::replica_conn(reg, x, y, c)) matches Some(ci)
                && ci.is_backend_entry && ci.latest == latest;
        let e = EntryView {
            client: c,
            info: connections::replica_conn(reg, x, y, c)->0,
            ip: x,
            docker_container: y,
            port: reg.replicas[reg.replica_index(x, y)].port,
        };
        connections::lemma_entries(reg, e);
        let i = choose|i: int| 0 <= i < reg.entries().len() && reg.entries()[i] == e;
        assert(f(e)[0] == (c, latest));
        assert(f(reg.entries()[i]).contains((c, latest)));
        seqs::lemma_concat_map_has(reg.entries(), f, i, (c, latest));
    }
}

/// There is room for chains exactly where the number of chains over every connection can grow by as many.
pub proof fn law_room(services: ServicesView, n: nat)
    requires
        connections::services_wf(services),
    ensures
        room::has_room(services, n) == forall|
            name: Seq<char>,
            x: IpAddr,
            y: Option<Seq<char>>,
            c: ClientView,
        |
            (#[trigger] connections::conn(services, name, x, y, c)) matches Some(ci)
                ==> ci.active_chains + n <= usize::MAX,
{
    let fits = forall|name: Seq<char>, x: IpAddr, y: Option<Seq<char>>, c: ClientView|
        (#[trigger] connections::conn(services, name, x, y, c)) matches Some(ci)
            ==> ci.active_chains + n <= usize::MAX;
    if room::has_room(services, n) {
        assert forall|name: Seq<char>, x: IpAddr, y: Option<Seq<char>>, c: ClientView|
            (#[trigger] connections::conn(services, name, x, y, c)) matches Some(ci)
                ==> ci.active_chains + n <= usize::MAX by {
            if let Some(reg) = model::registered(services, name) {
                room::lemma_room_of(services, name, n);
                room::lemma_info_at_room(reg, x, y, c, n);
            }
        }
    }
    if fits {
        assert forall|i: int| 0 <= i < services.len() implies room::service_room(
            (#[trigger] services[i]).1,
            n,
        ) by {
            let (name, si) = services[i];
            table::lemma_occurs(services, name, i);
            assert forall|j: int| 0 <= j < si.replicas().len() implies room::clients_room(
                (#[trigger] si.replicas()[j]).clients,
                n,
            ) by {
                let reg = si->Registered_0;
                let r = reg.replicas[j];
                assert(connections::service_wf(services[i].1));
                connections::lemma_index(reg, j);
                assert(table::distinct(reg.replicas[j].clients));
                assert forall|k: int| 0 <= k < r.clients.len() implies (
                #[trigger] r.clients[k]).1.active_chains + n <= usize::MAX by {
                    let c = r.clients[k].0;
                    table::lemma_occurs(r.clients, c, k);
                    assert(connections::conn(services, name, r.ip, r.docker_container, c) == Some(
                        r.clients[k].1,
                    ));
                }
            }
        }
    }
}

/// What is counted and noted of a connection, each by itself: chains that end leave none where there were no
/// more, the time since the last use, and what is left of a timeout then. Everything else stays.
pub proof fn law_connection_noted(ci: ClientInfoView, n: nat, timeout: nat, now: nat)
    ensures
        ci.without_chains(n) == (ClientInfoView {
            active_chains: if n <= ci.active_chains {
                (ci.active_chains - n) as nat
            } else {
                0
            },
            ..ci
        }),
        ci.with_chain(now) == (ClientInfoView {
            active_chains: ci.active_chains + 1,
            latest: now,
            ..ci
        }),
        ci.used(now) == (ClientInfoView { latest: now, ..ci }),
        ci.latest <= now ==> ci.latest + ci.idle(now) == now,
        ci.latest > now ==> ci.idle(now) == 0,
        ci.idle(now) <= timeout ==> ci.idle(now) + ci.remaining(timeout, now) == timeout,
        ci.idle(now) > timeout ==> ci.remaining(timeout, now) == 0,
{
}

} // verus!
