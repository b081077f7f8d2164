//! What is found to have changed: exactly what did.
use crate::addr::IpAddr;
use crate::seqs;
use crate::services::changes;
use crate::services::changes::OfferView;
use crate::services::clients::{ClientInfoView, ClientView};
use crate::services::connections;
use crate::services::laws;
use crate::services::model;
use crate::services::model::{EntryView, RegisteredView, ServiceView, ServicesView};
use crate::services::world;
use crate::services::world::ChangeView;
use crate::table;
use crate::timeout;
use vstd::prelude::*;

verus! {

/// A connection has not been used for a number of seconds, or longer.
pub open spec fn is_overdue(ci: ClientInfoView, secs: u64, now: nat) -> bool {
    now >= ci.latest + secs * 1_000_000_000
}

/// A proxy client is connected to a service and has not used its connection for a number of seconds.
pub open spec fn is_idle(
    services: ServicesView,
    name: Seq<char>,
    client: ClientView,
    secs: u64,
    now: nat,
) -> bool {
    client.proxy is Some && exists|ip: IpAddr, docker: Option<Seq<char>>|
        (#[trigger] connections::conn(services, name, ip, docker, client)) is Some && is_overdue(
            connections::conn(services, name, ip, docker, client)->0,
            secs,
            now,
        )
}

/// A client is among those that timed out exactly where it is idle.
proof fn lemma_idle(
    services: ServicesView,
    name: Seq<char>,
    reg: RegisteredView,
    secs: u64,
    now: nat,
    c: ClientView,
)
    requires
        connections::services_wf(services),
        model::registered(services, name) == Some(reg),
        secs > 0,
    ensures
        reg.expired(changes::nanos(secs), now).contains(c) == is_idle(services, name, c, secs, now),
{
    connections::lemma_wf_of(services, name);
    let f = model::expired_client(changes::nanos(secs), now);
    let all = reg.expired(changes::nanos(secs), now);
    if all.contains(c) {
        let k = seqs::lemma_concat_map_from(reg.entries(), f, c);
        let e = reg.entries()[k];
        assert(reg.entries().contains(e));
        connections::lemma_entries(reg, e);
        let t = f(e);
        let m = choose|m: int| 0 <= m < t.len() && t[m] == c;
        assert(t.len() == 1 && m == 0);
        assert(connections::conn(services, name, e.ip, e.docker_container, c) == Some(e.info));
    }
    if is_idle(services, name, c, secs, now) {
        let (ip, docker) = choose|ip: IpAddr, docker: Option<Seq<char>>|
            (#[trigger] connections::conn(services, name, ip, docker, c)) is Some && is_overdue(
                connections::conn(services, name, ip, docker, c)->0,
                secs,
                now,
            );
        let e = EntryView {
            client: c,
            info: connections::conn(services, name, ip, docker, c)->0,
            ip,
            docker_container: docker,
            port: reg.replicas[reg.replica_index(ip, docker)].port,
        };
        connections::lemma_entries(reg, e);
        let k = choose|k: int| 0 <= k < reg.entries().len() && reg.entries()[k] == e;
        assert(f(e)[0] == c);
        assert(f(reg.entries()[k]).contains(c));
        seqs::lemma_concat_map_has(reg.entries(), f, k, c);
    }
}

/// The service that is listed at an index is the one under its name.
proof fn lemma_at(services: ServicesView, i: int)
    requires
        connections::services_wf(services),
        0 <= i < services.len(),
    ensures
        table::lookup(services, services[i].0) == Some(services[i].1),
{
    table::lemma_occurs(services, services[i].0, i);
}

/// What a loaded configuration is found to change of a service.
pub open spec fn is_config_change(
    current: ServicesView,
    loaded: ServicesView,
    now: nat,
    change: ChangeView,
) -> bool {
    match change {
        ChangeView::Removed { name } => laws::config_at(current, name) is Some && laws::config_at(
            loaded,
            name,
        ) is None,
        ChangeView::DepsChanged { name } => match (
            laws::config_at(current, name),
            laws::config_at(loaded, name),
        ) {
            (Some(a), Some(b)) => a.dependencies != b.dependencies,
            _ => false,
        },
        ChangeView::ReachabilityChanged { name } => match (
            laws::config_at(current, name),
            laws::config_at(loaded, name),
        ) {
            (Some(a), Some(b)) => a.dependencies == b.dependencies && a.timeout is Some
                != b.timeout is Some,
            _ => false,
        },
        ChangeView::ProxyClientTimedOut { name, client } => match (
            laws::config_at(current, name),
            laws::config_at(loaded, name),
        ) {
            (Some(a), Some(b)) => match (a.timeout, b.timeout) {
                (Some(old), Some(new)) => {
                    &&& a.dependencies == b.dependencies
                    &&& new > 0
                    &&& old == 0 || new < old
                    &&& is_idle(current, name, client, new, now)
                },
                _ => false,
            },
            _ => false,
        },
        _ => false,
    }
}

/// A loaded configuration is found to change exactly this: services that it lacks, services with other
/// dependencies, services that are an entry point before or after but not both, and the proxy clients of a
/// service whose timeout is introduced or shorter that are past the new one. A service is reported for the
/// first of these that holds.
pub proof fn law_config_changes(
    current: ServicesView,
    loaded: ServicesView,
    now: nat,
    change: ChangeView,
)
    requires
        connections::services_wf(current),
        connections::services_wf(loaded),
    ensures
        changes::config_changes(current, loaded, now).contains(change) == is_config_change(
            current,
            loaded,
            now,
            change,
        ),
{
    let f = changes::removed_service(loaded);
    let g = changes::changed_service(current, now);
    let first = seqs::concat_map(current, f);
    let second = seqs::concat_map(loaded, g);
    let all = changes::config_changes(current, loaded, now);
    assert(all == first + second);
    if all.contains(change) {
        let k = choose|k: int| 0 <= k < all.len() && all[k] == change;
        if k < first.len() {
            assert(first[k] == change);
            assert(first.contains(change));
            let i = seqs::lemma_concat_map_from(current, f, change);
            lemma_at(current, i);
            let t = f(current[i]);
            let m = choose|m: int| 0 <= m < t.len() && t[m] == change;
            assert(t.len() == 1 && m == 0);
        } else {
            assert(second[k - first.len()] == change);
            assert(second.contains(change));
            let i = seqs::lemma_concat_map_from(loaded, g, change);
            lemma_at(loaded, i);
            lemma_config_change(current, loaded, now, loaded[i].0, change);
        }
    }
    if is_config_change(current, loaded, now, change) {
        if let ChangeView::Removed { name } = change {
            let i = table::position(current, name);
            assert(table::is_first(current, name, i));
            assert(f(current[i])[0] == change);
            assert(f(current[i]).contains(change));
            seqs::lemma_concat_map_has(current, f, i, change);
            let k = choose|k: int| 0 <= k < first.len() && first[k] == change;
            assert(all[k] == change);
        } else {
            let name = match change {
                ChangeView::DepsChanged { name } => name,
                ChangeView::ReachabilityChanged { name } => name,
                ChangeView::ProxyClientTimedOut { name, client } => name,
                _ => Seq::empty(),
            };
            let i = table::position(loaded, name);
            assert(table::is_first(loaded, name, i));
            lemma_config_change(current, loaded, now, name, change);
            assert(g(loaded[i]).contains(change));
            seqs::lemma_concat_map_has(loaded, g, i, change);
            let k = choose|k: int| 0 <= k < second.len() && second[k] == change;
            assert(all[first.len() + k] == change);
        }
    }
}

/// What is reported of a service that is configured after.
proof fn lemma_config_change(
    current: ServicesView,
    loaded: ServicesView,
    now: nat,
    name: Seq<char>,
    change: ChangeView,
)
    requires
        connections::services_wf(current),
        connections::services_wf(loaded),
        table::lookup(loaded, name) is Some,
    ensures
        changes::changed_service(current, now)((name, table::lookup(loaded, name)->0)).contains(
            change,
        ) == (is_config_change(current, loaded, now, change) && match change {
            ChangeView::DepsChanged { name: n } => n == name,
            ChangeView::ReachabilityChanged { name: n } => n == name,
            ChangeView::ProxyClientTimedOut { name: n, client } => n == name,
            _ => false,
        }),
{
    let si = table::lookup(loaded, name)->0;
    let t = changes::changed_service(current, now)((name, si));
    if let Some(old) = table::lookup(current, name) {
        let (a, b) = (old.config(), si.config());
        if b.dependencies != a.dependencies {
            assert(t[0] == ChangeView::DepsChanged { name });
            assert(t.contains(change) == (change == ChangeView::DepsChanged { name }));
        } else if a.timeout is Some != b.timeout is Some {
            assert(t[0] == ChangeView::ReachabilityChanged { name });
            assert(t.contains(change) == (change == ChangeView::ReachabilityChanged { name }));
        } else if let (Some(new), Some(previous), ServiceView::Registered(reg)) = (
            b.timeout,
            a.timeout,
            old,
        ) {
            if changes::is_tighter(new, previous) {
                let who = reg.expired(changes::nanos(new), now);
                assert(t == who.map_values(changes::timed_out(name)));
                if let ChangeView::ProxyClientTimedOut { name: n, client } = change {
                    lemma_idle(current, name, reg, new, now, client);
                    if n == name && who.contains(client) {
                        let k = choose|k: int| 0 <= k < who.len() && who[k] == client;
                        assert(t[k] == change);
                    }
                }
                if t.contains(change) {
                    let k = choose|k: int| 0 <= k < t.len() && t[k] == change;
                    assert(change == changes::timed_out(name)(who[k]));
                    assert(who.contains(who[k]));
                    lemma_idle(current, name, reg, new, now, who[k]);
                }
            }
        } else if let ChangeView::ProxyClientTimedOut { name: n, client } = change {
            if n == name && is_config_change(current, loaded, now, change) {
                let (ip, docker) = choose|ip: IpAddr, docker: Option<Seq<char>>|
                    (#[trigger] connections::conn(current, name, ip, docker, client)) is Some;
                assert(model::registered(current, name) is Some);
            }
        }
    }
}

/// The list of services that a host offers is found to change exactly this: the replicas on that host that
/// are not on the list.
pub proof fn law_list_changes(
    current: ServicesView,
    sender_ip: IpAddr,
    list: Seq<OfferView>,
    change: ChangeView,
)
    requires
        connections::services_wf(current),
    ensures
        changes::list_changes(current, sender_ip, list).contains(change) == (match change {
            ChangeView::ReplicaRemoved { name, ip, docker_container } => {
                &&& ip == sender_ip
                &&& laws::port_at(current, name, ip, docker_container) is Some
                &&& forall|i: int|
                    0 <= i < list.len() && (#[trigger] list[i]).0 == name ==> list[i].2
                        != docker_container
            },
            _ => false,
        }),
{
    let f = changes::withdrawn_service(sender_ip, list);
    let all = changes::list_changes(current, sender_ip, list);
    if all.contains(change) {
        let i = seqs::lemma_concat_map_from(current, f, change);
        let (name, si) = current[i];
        lemma_at(current, i);
        connections::lemma_wf_of(current, name);
        let g = changes::withdrawn_replica(name, sender_ip, list);
        let j = seqs::lemma_concat_map_from(si.replicas(), g, change);
        let r = si.replicas()[j];
        let t = g(r);
        let m = choose|m: int| 0 <= m < t.len() && t[m] == change;
        assert(t.len() == 1 && m == 0);
        let reg = si->Registered_0;
        assert(si is Registered);
        connections::lemma_index(reg, j);
    }
    if let ChangeView::ReplicaRemoved { name, ip, docker_container } = change {
        if ip == sender_ip && laws::port_at(current, name, ip, docker_container) is Some && (forall|
            i: int,
        |
            0 <= i < list.len() && (#[trigger] list[i]).0 == name ==> list[i].2
                != docker_container) {
            let i = table::position(current, name);
            assert(table::is_first(current, name, i));
            let si = current[i].1;
            let reg = model::registered(current, name)->0;
            let j = reg.replica_index(ip, docker_container);
            assert(reg.is_replica(ip, docker_container, j));
            let g = changes::withdrawn_replica(name, sender_ip, list);
            assert(g(reg.replicas[j])[0] == change);
            assert(g(si.replicas()[j]).contains(change));
            seqs::lemma_concat_map_has(si.replicas(), g, j, change);
            assert(f(current[i]).contains(change));
            seqs::lemma_concat_map_has(current, f, i, change);
        }
    }
}

/// The loss of a host is found to change exactly this: the services with a replica on it, and the clients
/// that are connected through it, where there are any.
pub proof fn law_disconnect_changes(current: ServicesView, ip: IpAddr, change: ChangeView)
    requires
        connections::services_wf(current),
    ensures
        changes::disconnect_changes(current, ip).contains(change) == (match change {
            ChangeView::ReplicasRemoved { name, ip: host } => host == ip && exists|
                docker: Option<Seq<char>>,
            | #[trigger]
                laws::port_at(current, name, ip, docker) is Some,
            ChangeView::ProxyDisconnected { ip: host } => host == ip && exists|
                name: Seq<char>,
                x: IpAddr,
                y: Option<Seq<char>>,
                c: ClientView,
            |
                (#[trigger] connections::conn(current, name, x, y, c)) is Some && c.proxy == Some(
                    ip,
                ),
            _ => false,
        }),
{
    let f = changes::lost_replicas(ip);
    let g = world::served_through(ip);
    let first = seqs::concat_map(current, f);
    let served = seqs::concat_map(current, g);
    let last = ChangeView::ProxyDisconnected { ip };
    let all = changes::disconnect_changes(current, ip);
    if all.contains(change) {
        let k = choose|k: int| 0 <= k < all.len() && all[k] == change;
        if k < first.len() {
            assert(first[k] == change);
            assert(first.contains(change));
            let i = seqs::lemma_concat_map_from(current, f, change);
            let (name, si) = current[i];
            lemma_at(current, i);
            connections::lemma_wf_of(current, name);
            let t = f(current[i]);
            let m = choose|m: int| 0 <= m < t.len() && t[m] == change;
            assert(t.len() == 1 && m == 0);
            let reg = si->Registered_0;
            let j = choose|j: int| 0 <= j < reg.replicas.len() && (#[trigger] reg.replicas[j]).ip == ip;
            connections::lemma_index(reg, j);
            assert(laws::port_at(current, name, ip, reg.replicas[j].docker_container) is Some);
        } else {
            assert(change == last);
            assert(served.contains(served[0]));
            let i = seqs::lemma_concat_map_from(current, g, served[0]);
            let (name, si) = current[i];
            lemma_at(current, i);
            connections::lemma_wf_of(current, name);
            let t = g(current[i]);
            assert(t.len() > 0);
            let reg = si->Registered_0;
            let j = choose|j: int|
                0 <= j < reg.entries().len() && (#[trigger] reg.entries()[j]).client.proxy == Some(ip);
            let e = reg.entries()[j];
            assert(reg.entries().contains(e));
            connections::lemma_entries(reg, e);
            assert(connections::conn(current, name, e.ip, e.docker_container, e.client) is Some);
        }
    }
    match change {
        ChangeView::ReplicasRemoved { name, ip: host } => {
            if host == ip && exists|docker: Option<Seq<char>>| #[trigger]
                laws::port_at(current, name, ip, docker) is Some {
                let docker = choose|docker: Option<Seq<char>>| #[trigger]
                    laws::port_at(current, name, ip, docker) is Some;
                let reg = model::registered(current, name)->0;
                let j = reg.replica_index(ip, docker);
                assert(reg.is_replica(ip, docker, j));
                assert(reg.replicas[j].ip == ip);
                let i = table::position(current, name);
                assert(table::is_first(current, name, i));
                assert(f(current[i])[0] == change);
                assert(f(current[i]).contains(change));
                seqs::lemma_concat_map_has(current, f, i, change);
                let k = choose|k: int| 0 <= k < first.len() && first[k] == change;
                assert(all[k] == change);
            }
        },
        ChangeView::ProxyDisconnected { ip: host } => {
            if host == ip && exists|
                name: Seq<char>,
                x: IpAddr,
                y: Option<Seq<char>>,
                c: ClientView,
            |
                (#[trigger] connections::conn(current, name, x, y, c)) is Some && c.proxy == Some(
                    ip,
                ) {
                let (name, x, y, c) = choose|
                    name: Seq<char>,
                    x: IpAddr,
                    y: Option<Seq<char>>,
                    c: ClientView,
                |
                    (#[trigger] connections::conn(current, name, x, y, c)) is Some && c.proxy
                        == Some(ip);
                let reg = model::registered(current, name)->0;
                connections::lemma_wf_of(current, name);
                let e = EntryView {
                    client: c,
                    info: connections::conn(current, name, x, y, c)->0,
                    ip: x,
                    docker_container: y,
                    port: reg.replicas[reg.replica_index(x, y)].port,
                };
                connections::lemma_entries(reg, e);
                let j = choose|j: int| 0 <= j < reg.entries().len() && reg.entries()[j] == e;
                assert(reg.entries()[j].client.proxy == Some(ip));
                let i = table::position(current, name);
                assert(table::is_first(current, name, i));
                assert(g(current[i])[0] == name);
                assert(g(current[i]).contains(name));
                seqs::lemma_concat_map_has(current, g, i, name);
                assert(served.len() > 0);
                assert(all[first.len() as int] == last);
            }
        },
        _ => {},
    }
}

/// The entry of a backend chain from a replica to a service has not been used for a number of seconds.
pub open spec fn is_entry_idle(
    services: ServicesView,
    first: Seq<char>,
    c: ClientView,
    secs: u64,
    now: nat,
) -> bool {
    exists|x: IpAddr, y: Option<Seq<char>>|
        (#[trigger] connections::conn(services, first, x, y, c)) is Some && connections::conn(
            services,
            first,
            x,
            y,
            c,
        )->0.is_backend_entry && is_overdue(
            connections::conn(services, first, x, y, c)->0,
            secs,
            now,
        )
}

/// A replica of a service with a timeout triggered a chain over a service that has not been used for that
/// long.
pub open spec fn is_chain_idle(
    services: ServicesView,
    name: Seq<char>,
    ip: IpAddr,
    docker: Option<Seq<char>>,
    first: Seq<char>,
    now: nat,
) -> bool {
    match laws::config_at(services, name) {
        Some(config) => match config.timeout {
            Some(secs) => secs > 0 && exists|c: ClientView|
                c.name == name && c.replica == Some((ip, docker)) && #[trigger] is_entry_idle(
                    services,
                    first,
                    c,
                    secs,
                    now,
                ),
            None => false,
        },
        None => false,
    }
}

/// What is found to have timed out is exactly this, where a timeout of zero stands for none: the proxy
/// clients that have not used their connection for the timeout of the service, and the triggered chains
/// whose entry has not been used for the timeout of the service that triggered them.
pub proof fn law_timed_out(services: ServicesView, now: nat, change: ChangeView)
    requires
        connections::services_wf(services),
    ensures
        timeout::timed_out(services, now).contains(change) == (match change {
            ChangeView::ProxyClientTimedOut { name, client } => match laws::config_at(
                services,
                name,
            ) {
                Some(config) => match config.timeout {
                    Some(secs) => secs > 0 && is_idle(services, name, client, secs, now),
                    None => false,
                },
                None => false,
            },
            ChangeView::BackendChainTimedOut {
                initiator_name,
                initiator_ip,
                initiator_docker,
                first_dependency,
            } => is_chain_idle(
                services,
                initiator_name,
                initiator_ip,
                initiator_docker,
                first_dependency,
                now,
            ),
            _ => false,
        }),
{
    let f = timeout::expired_on(now);
    let g = timeout::expired_entries_on(services, now);
    let first = seqs::concat_map(services, f);
    let second = seqs::concat_map(services, g);
    let all = timeout::timed_out(services, now);
    assert(all == first + second);
    if all.contains(change) {
        let k = choose|k: int| 0 <= k < all.len() && all[k] == change;
        if k < first.len() {
            assert(first[k] == change);
            assert(first.contains(change));
            let i = seqs::lemma_concat_map_from(services, f, change);
            lemma_at(services, i);
            let (name, si) = services[i];
            let reg = si->Registered_0;
            let secs = si.config().timeout->0;
            let who = reg.expired(changes::nanos(secs), now);
            let t = f(services[i]);
            let m = choose|m: int| 0 <= m < t.len() && t[m] == change;
            assert(t == who.map_values(changes::timed_out(name)));
            assert(change == changes::timed_out(name)(who[m]));
            assert(who.contains(who[m]));
            lemma_idle(services, name, reg, secs, now, who[m]);
        } else {
            assert(second[k - first.len()] == change);
            assert(second.contains(change));
            let i = seqs::lemma_concat_map_from(services, g, change);
            lemma_at(services, i);
            lemma_entry_due(services, now, i, change);
        }
    }
    match change {
        ChangeView::ProxyClientTimedOut { name, client } => {
            if let Some(config) = laws::config_at(services, name) {
                if let Some(secs) = config.timeout {
                    if secs > 0 && is_idle(services, name, client, secs, now) {
                        let reg = model::registered(services, name)->0;
                        lemma_idle(services, name, reg, secs, now, client);
                        let i = table::position(services, name);
                        assert(table::is_first(services, name, i));
                        let who = reg.expired(changes::nanos(secs), now);
                        let m = choose|m: int| 0 <= m < who.len() && who[m] == client;
                        assert(f(services[i]) == who.map_values(changes::timed_out(name)));
                        assert(f(services[i])[m] == change);
                        assert(f(services[i]).contains(change));
                        seqs::lemma_concat_map_has(services, f, i, change);
                        let k = choose|k: int| 0 <= k < first.len() && first[k] == change;
                        assert(all[k] == change);
                    }
                }
            }
        },
        ChangeView::BackendChainTimedOut {
            initiator_name,
            initiator_ip,
            initiator_docker,
            first_dependency,
        } => {
            if is_chain_idle(
                services,
                initiator_name,
                initiator_ip,
                initiator_docker,
                first_dependency,
                now,
            ) {
                let secs = laws::config_at(services, initiator_name)->0.timeout->0;
                let c = choose|c: ClientView|
                    c.name == initiator_name && c.replica == Some((initiator_ip, initiator_docker))
                        && #[trigger] is_entry_idle(services, first_dependency, c, secs, now);
                lemma_entry_reported(services, now, first_dependency, c, secs, change);
                let i = table::position(services, first_dependency);
                assert(table::is_first(services, first_dependency, i));
                seqs::lemma_concat_map_has(services, g, i, change);
                let k = choose|k: int| 0 <= k < second.len() && second[k] == change;
                assert(all[first.len() + k] == change);
            }
        },
        _ => {},
    }
}

/// A change that is reported for the entries of backend chains to a service is due.
proof fn lemma_entry_due(services: ServicesView, now: nat, i: int, change: ChangeView)
    requires
        connections::services_wf(services),
        0 <= i < services.len(),
        timeout::expired_entries_on(services, now)(services[i]).contains(change),
    ensures
        match change {
            ChangeView::BackendChainTimedOut {
                initiator_name,
                initiator_ip,
                initiator_docker,
                first_dependency,
            } => is_chain_idle(
                services,
                initiator_name,
                initiator_ip,
                initiator_docker,
                first_dependency,
                now,
            ),
            _ => false,
        },
{
    let (first, si) = services[i];
    lemma_at(services, i);
    connections::lemma_wf_of(services, first);
    let reg = si->Registered_0;
    let h = timeout::expired_entry(services, first, now);
    let j = seqs::lemma_concat_map_from(reg.backend_entries(), h, change);
    let (c, latest) = reg.backend_entries()[j];
    let t = h((c, latest));
    let m = choose|m: int| 0 <= m < t.len() && t[m] == change;
    assert(t.len() == 1 && m == 0);
    let all = reg.backend_entries();
    assert(all.contains((c, latest)));
    let k = seqs::lemma_concat_map_from(reg.entries(), model::backend_entry(), (c, latest));
    let e = reg.entries()[k];
    let s = model::backend_entry()(e);
    let n = choose|n: int| 0 <= n < s.len() && s[n] == (c, latest);
    assert(s.len() == 1 && n == 0);
    assert(reg.entries().contains(e));
    connections::lemma_entries(reg, e);
    assert(connections::conn(services, first, e.ip, e.docker_container, c) == Some(e.info));
    let secs = laws::config_at(services, c.name)->0.timeout->0;
    let (ip, docker) = c.replica->0;
    assert(is_entry_idle(services, first, c, secs, now));
    assert(is_chain_idle(services, c.name, ip, docker, first, now));
    assert(t[0] == ChangeView::BackendChainTimedOut {
        initiator_name: c.name,
        initiator_ip: ip,
        initiator_docker: docker,
        first_dependency: first,
    });
}

/// The entry of a backend chain that is due is reported.
proof fn lemma_entry_reported(
    services: ServicesView,
    now: nat,
    first: Seq<char>,
    c: ClientView,
    secs: u64,
    change: ChangeView,
)
    requires
        connections::services_wf(services),
        is_entry_idle(services, first, c, secs, now),
        secs > 0,
        laws::config_at(services, c.name) is Some,
        laws::config_at(services, c.name)->0.timeout == Some(secs),
        c.replica matches Some((ip, docker)) && change == (ChangeView::BackendChainTimedOut {
            initiator_name: c.name,
            initiator_ip: ip,
            initiator_docker: docker,
            first_dependency: first,
        }),
    ensures
        table::has_key(services, first),
        timeout::expired_entries_on(services, now)(
            services[table::position(services, first)],
        ).contains(change),
{
    let (x, y) = choose|x: IpAddr, y: Option<Seq<char>>|
        (#[trigger] connections::conn(services, first, x, y, c)) is Some && connections::conn(
            services,
            first,
            x,
            y,
            c,
        )->0.is_backend_entry && is_overdue(
            connections::conn(services, first, x, y, c)->0,
            secs,
            now,
        );
    let reg = model::registered(services, first)->0;
    connections::lemma_wf_of(services, first);
    let i = table::position(services, first);
    assert(table::is_first(services, first, i));
    let e = EntryView {
        client: c,
        info: connections::conn(services, first, x, y, c)->0,
        ip: x,
        docker_container: y,
        port: reg.replicas[reg.replica_index(x, y)].port,
    };
    connections::lemma_entries(reg, e);
    let j = choose|j: int| 0 <= j < reg.entries().len() && reg.entries()[j] == e;
    let pair = (c, e.info.latest);
    assert(model::backend_entry()(e)[0] == pair);
    assert(model::backend_entry()(reg.entries()[j]).contains(pair));
    seqs::lemma_concat_map_has(reg.entries(), model::backend_entry(), j, pair);
    let all = reg.backend_entries();
    let k = choose|k: int| 0 <= k < all.len() && all[k] == pair;
    let h = timeout::expired_entry(services, first, now);
    assert(h(pair)[0] == change);
    assert(h(all[k]).contains(change));
    seqs::lemma_concat_map_has(all, h, k, change);
}

/// The time that is left of a number of seconds since a connection was last used; none where they are
/// over.
pub open spec fn time_left(ci: ClientInfoView, secs: u64, now: nat) -> int {
    if is_overdue(ci, secs, now) {
        0
    } else if now < ci.latest {
        secs * 1_000_000_000
    } else {
        ci.latest + secs * 1_000_000_000 - now
    }
}

/// Time `d` is one to look again: the timeout of a service, or what is left of it for a proxy client, or
/// for a chain that the service triggered.
pub open spec fn is_due(services: ServicesView, now: nat, d: nat) -> bool {
    exists|name: Seq<char>, secs: u64| #[trigger] is_due_for(services, now, d, name, secs)
}

/// Time `d` is one to look again because of a service with a timeout.
pub open spec fn is_due_for(
    services: ServicesView,
    now: nat,
    d: nat,
    name: Seq<char>,
    secs: u64,
) -> bool {
    &&& laws::config_at(services, name) matches Some(config) && config.timeout == Some(secs)
    &&& secs > 0
    &&& {
        ||| d == secs * 1_000_000_000
        ||| exists|n: Seq<char>, x: IpAddr, y: Option<Seq<char>>, c: ClientView|
            (#[trigger] connections::conn(services, n, x, y, c)) is Some && d == time_left(
                connections::conn(services, n, x, y, c)->0,
                secs,
                now,
            ) && ((n == name && c.proxy is Some) || (c.name == name && connections::conn(
                services,
                n,
                x,
                y,
                c,
            )->0.is_backend_entry))
    }
}

/// The time until the next look is the least of these: the default, the timeouts of services that have one
/// and what is left of them, for proxy clients and for triggered chains.
pub proof fn law_next_look(services: ServicesView, now: nat, default: u64, d: nat)
    requires
        connections::services_wf(services),
    ensures
        timeout::is_deadline(services, now, changes::nanos(default), d) == (d == default
            * 1_000_000_000 || is_due(services, now, d)),
{
    let n = services.len() as int;
    if timeout::is_deadline(services, now, changes::nanos(default), d) && d != default
        * 1_000_000_000 {
        if exists|i: int| 0 <= i < n && #[trigger] timeout::is_entry_deadline(services, now, i, d) {
            let i = choose|i: int|
                0 <= i < n && #[trigger] timeout::is_entry_deadline(services, now, i, d);
            lemma_entry_deadline(services, now, i, d);
        } else {
            let i = choose|i: int|
                0 <= i < n && #[trigger] timeout::is_backend_deadline(services, now, i, d);
            lemma_backend_deadline(services, now, i, d);
        }
    }
    if is_due(services, now, d) {
        let (name, secs) = choose|name: Seq<char>, secs: u64| #[trigger]
            is_due_for(services, now, d, name, secs);
        lemma_due_deadline(services, now, d, name, secs, changes::nanos(default));
    }
}

proof fn lemma_entry_deadline(services: ServicesView, now: nat, i: int, d: nat)
    requires
        connections::services_wf(services),
        0 <= i < services.len(),
        timeout::is_entry_deadline(services, now, i, d),
    ensures
        is_due(services, now, d),
{
    let (name, si) = services[i];
    lemma_at(services, i);
    connections::lemma_wf_of(services, name);
    let secs = si.config().timeout->0;
    if d != secs * 1_000_000_000 {
        let reg = si->Registered_0;
        let j = choose|j: int|
            0 <= j < reg.entries().len() && (#[trigger] reg.entries()[j]).client.proxy is Some && d
                == reg.entries()[j].info.remaining(changes::nanos(secs), now);
        let e = reg.entries()[j];
        assert(reg.entries().contains(e));
        connections::lemma_entries(reg, e);
        assert(connections::conn(services, name, e.ip, e.docker_container, e.client) == Some(
            e.info,
        ));
        assert(d == time_left(e.info, secs, now));
    }
    assert(is_due_for(services, now, d, name, secs));
}

proof fn lemma_backend_deadline(services: ServicesView, now: nat, i: int, d: nat)
    requires
        connections::services_wf(services),
        0 <= i < services.len(),
        timeout::is_backend_deadline(services, now, i, d),
    ensures
        is_due(services, now, d),
{
    let (first, si) = services[i];
    lemma_at(services, i);
    connections::lemma_wf_of(services, first);
    let reg = si->Registered_0;
    let all = reg.backend_entries();
    let j = choose|j: int|
        0 <= j < all.len() && timeout::is_chain_deadline(services, #[trigger] all[j], now, d);
    let (c, latest) = all[j];
    assert(all.contains(all[j]));
    let k = seqs::lemma_concat_map_from(reg.entries(), model::backend_entry(), all[j]);
    let e = reg.entries()[k];
    let s = model::backend_entry()(e);
    let m = choose|m: int| 0 <= m < s.len() && s[m] == all[j];
    assert(s.len() == 1 && m == 0);
    assert(reg.entries().contains(e));
    connections::lemma_entries(reg, e);
    assert(connections::conn(services, first, e.ip, e.docker_container, c) == Some(e.info));
    let secs = laws::config_at(services, c.name)->0.timeout->0;
    assert(d == time_left(e.info, secs, now));
    assert(is_due_for(services, now, d, c.name, secs));
}

proof fn lemma_due_deadline(
    services: ServicesView,
    now: nat,
    d: nat,
    name: Seq<char>,
    secs: u64,
    default: nat,
)
    requires
        connections::services_wf(services),
        is_due_for(services, now, d, name, secs),
    ensures
        timeout::is_deadline(services, now, default, d),
{
    let i = table::position(services, name);
    assert(table::is_first(services, name, i));
    if d == secs * 1_000_000_000 {
        assert(timeout::is_entry_deadline(services, now, i, d));
    } else {
        let (n, x, y, c) = choose|n: Seq<char>, x: IpAddr, y: Option<Seq<char>>, c: ClientView|
            (#[trigger] connections::conn(services, n, x, y, c)) is Some && d == time_left(
                connections::conn(services, n, x, y, c)->0,
                secs,
                now,
            ) && ((n == name && c.proxy is Some) || (c.name == name && connections::conn(
                services,
                n,
                x,
                y,
                c,
            )->0.is_backend_entry));
        let reg = model::registered(services, n)->0;
        connections::lemma_wf_of(services, n);
        let e = EntryView {
            client: c,
            info: connections::conn(services, n, x, y, c)->0,
            ip: x,
            docker_container: y,
            port: reg.replicas[reg.replica_index(x, y)].port,
        };
        connections::lemma_entries(reg, e);
        let j = choose|j: int| 0 <= j < reg.entries().len() && reg.entries()[j] == e;
        if n == name && c.proxy is Some {
            assert(reg.entries()[j].client.proxy is Some && d == reg.entries()[j].info.remaining(
                changes::nanos(secs),
                now,
            ));
            assert(timeout::is_entry_deadline(services, now, i, d));
        } else {
            let pair = (c, e.info.latest);
            assert(model::backend_entry()(e)[0] == pair);
            assert(model::backend_entry()(reg.entries()[j]).contains(pair));
            seqs::lemma_concat_map_has(reg.entries(), model::backend_entry(), j, pair);
            let all = reg.backend_entries();
            let k = choose|k: int| 0 <= k < all.len() && all[k] == pair;
            assert(timeout::is_chain_deadline(services, all[k], now, d));
            let m = table::position(services, n);
            assert(table::is_first(services, n, m));
            assert(timeout::is_backend_deadline(services, now, m, d));
        }
    }
}

} // verus!
