//! What a new configuration and the list of a host bring about.
use crate::addr::IpAddr;
use crate::nullnet_grpc_impl;
use crate::seqs;
use crate::services::changes;
use crate::services::changes::OfferView;
use crate::services::clients::ClientView;
use crate::services::connections;
use crate::services::laws;
use crate::services::model;
use crate::services::model::{
    ConfigView, PlaceView, RegisteredView, ReplicaView, ServiceView, ServicesView,
};
use crate::services::world;
use crate::services::world::{ChangeView, FilterView, World};
use crate::table;
use vstd::prelude::*;

verus! {

/// None of the services runs.
pub open spec fn none_runs(services: ServicesView) -> bool {
    forall|name: Seq<char>| model::registered(services, name) is None
}

/// A service after a loaded configuration was taken over.
pub open spec fn merged_service(
    present: Option<ServiceView>,
    loaded: Option<ServiceView>,
) -> Option<ServiceView> {
    match (present, loaded) {
        (Some(si), Some(l)) => Some(si.with_config(l.config())),
        (None, Some(l)) => Some(l),
        (_, None) => present,
    }
}

/// A loaded configuration is taken over service by service.
proof fn lemma_merged(services: ServicesView, loaded: ServicesView, name: Seq<char>)
    requires
        table::distinct(loaded),
    ensures
        table::lookup(seqs::fold(services, loaded, world::merge_service()), name) == merged_service(
            table::lookup(services, name),
            table::lookup(loaded, name),
        ),
    decreases loaded.len(),
{
    let f = world::merge_service();
    if loaded.len() == 0 {
    } else {
        let front = loaded.drop_last();
        let e = loaded.last();
        let before = seqs::fold(services, front, f);
        lemma_merged(services, front, name);
        lemma_merged(services, front, e.0);
        assert(loaded =~= front.push(e));
        table::lemma_lookup_push(front, e, name);
        table::lemma_lookup_push(front, e, e.0);
        if table::has_key(front, e.0) {
            let i = table::position(front, e.0);
            assert(table::is_first(front, e.0, i));
            assert(loaded[i].0 == loaded[loaded.len() - 1].0);
        }
        match table::lookup(before, e.0) {
            Some(present) => {
                table::lemma_put(before, e.0, present.with_config(e.1.config()), name);
            },
            None => {
                table::lemma_put(before, e.0, e.1, name);
            },
        }
    }
}

/// A service with another configuration is as well-formed as it was.
proof fn lemma_with_config(si: ServiceView, config: ConfigView)
    requires
        connections::service_wf(si),
    ensures
        connections::service_wf(si.with_config(config)),
        match (si, si.with_config(config)) {
            (ServiceView::Registered(a), ServiceView::Registered(b)) => {
                &&& forall|ip: IpAddr, docker: Option<Seq<char>>| #[trigger]
                    laws::replica_port(b, ip, docker) == laws::replica_port(a, ip, docker)
                &&& forall|ip: IpAddr, docker: Option<Seq<char>>, c: ClientView| #[trigger]
                    connections::replica_conn(b, ip, docker, c) == connections::replica_conn(
                        a,
                        ip,
                        docker,
                        c,
                    )
            },
            (ServiceView::Unregistered(_), ServiceView::Unregistered(_)) => true,
            _ => false,
        },
{
    if let ServiceView::Registered(a) = si {
        let b = RegisteredView { config, ..a };
        assert forall|ip: IpAddr, docker: Option<Seq<char>>|
            #![trigger b.has_replica(ip, docker)]
            #![trigger laws::replica_port(b, ip, docker)]
            b.has_replica(ip, docker) == a.has_replica(ip, docker) && (b.has_replica(ip, docker)
                ==> b.replica_index(ip, docker) == a.replica_index(ip, docker)) by {
            if b.has_replica(ip, docker) {
                let k = b.replica_index(ip, docker);
                assert(b.is_replica(ip, docker, k));
                connections::lemma_index(a, k);
            }
            if a.has_replica(ip, docker) {
                let k = a.replica_index(ip, docker);
                assert(a.is_replica(ip, docker, k));
                connections::lemma_index(b, k);
            }
        }
        assert forall|ip: IpAddr, docker: Option<Seq<char>>, c: ClientView| #[trigger]
            connections::replica_conn(b, ip, docker, c) == connections::replica_conn(
                a,
                ip,
                docker,
                c,
            ) by {
            assert(b.has_replica(ip, docker) == a.has_replica(ip, docker));
        }
    }
}

/// Services that take over a loaded configuration stay well-formed.
proof fn lemma_merged_wf(services: ServicesView, loaded: ServicesView)
    requires
        connections::services_wf(services),
        connections::services_wf(loaded),
    ensures
        connections::services_wf(seqs::fold(services, loaded, world::merge_service())),
{
    let f = world::merge_service();
    let p = |s: ServicesView| connections::services_wf(s);
    assert forall|s: ServicesView, e: (Seq<char>, ServiceView)|
        p(s) && loaded.contains(e) implies #[trigger] p(f(s, e)) by {
        let i = choose|i: int| 0 <= i < loaded.len() && loaded[i] == e;
        assert(connections::service_wf(loaded[i].1));
        connections::lemma_wf_of(s, e.0);
        match table::lookup(s, e.0) {
            Some(present) => {
                lemma_with_config(present, e.1.config());
                connections::lemma_put_wf(s, e.0, present.with_config(e.1.config()));
            },
            None => {
                connections::lemma_put_wf(s, e.0, e.1);
            },
        }
    }
    seqs::lemma_fold_keeps(services, loaded, f, p);
}

/// A service that a loaded configuration lacks is reported.
proof fn lemma_lacking(
    current: ServicesView,
    loaded: ServicesView,
    now: nat,
    name: Seq<char>,
)
    requires
        table::has_key(current, name),
        !table::has_key(loaded, name),
    ensures
        changes::config_changes(current, loaded, now).contains(ChangeView::Removed { name }),
{
    let f = changes::removed_service(loaded);
    let change = ChangeView::Removed { name };
    let i = laws::lemma_listed(current, name);
    assert(f(current[i])[0] == change);
    assert(f(current[i]).contains(change));
    seqs::lemma_concat_map_has(current, f, i, change);
    let first = seqs::concat_map(current, f);
    let k = choose|k: int| 0 <= k < first.len() && first[k] == change;
    assert(changes::config_changes(current, loaded, now)[k] == change);
}

/// Whether a change is one that a loaded configuration may bring about.
pub open spec fn is_config_change(
    current: ServicesView,
    loaded: ServicesView,
    change: ChangeView,
) -> bool {
    match change {
        ChangeView::Removed { name } => !table::has_key(loaded, name),
        ChangeView::DepsChanged { name } => deps_changed(current, loaded, name),
        ChangeView::ReachabilityChanged { name } => timeout_changed(current, loaded, name),
        ChangeView::ProxyClientTimedOut { name, client: _ } => timeout_changed(
            current,
            loaded,
            name,
        ),
        _ => false,
    }
}

/// Whether a service is configured with other dependencies than before.
pub open spec fn deps_changed(
    current: ServicesView,
    loaded: ServicesView,
    name: Seq<char>,
) -> bool {
    match (laws::config_at(current, name), laws::config_at(loaded, name)) {
        (Some(a), Some(b)) => a.dependencies != b.dependencies,
        _ => false,
    }
}

/// Whether a service is configured with another timeout than before.
pub open spec fn timeout_changed(
    current: ServicesView,
    loaded: ServicesView,
    name: Seq<char>,
) -> bool {
    match (laws::config_at(current, name), laws::config_at(loaded, name)) {
        (Some(a), Some(b)) => a.timeout != b.timeout,
        _ => false,
    }
}

/// Every change that is reported for a loaded configuration is one that it may bring about.
proof fn lemma_config_change(
    current: ServicesView,
    loaded: ServicesView,
    now: nat,
    change: ChangeView,
)
    requires
        table::distinct(loaded),
        changes::config_changes(current, loaded, now).contains(change),
    ensures
        is_config_change(current, loaded, change),
{
    let f = changes::removed_service(loaded);
    let g = changes::changed_service(current, now);
    let first = seqs::concat_map(current, f);
    let second = seqs::concat_map(loaded, g);
    let k = choose|k: int| 0 <= k < (first + second).len() && (first + second)[k] == change;
    if k < first.len() {
        assert(first[k] == change);
        assert(first.contains(change));
        let i = seqs::lemma_concat_map_from(current, f, change);
        let m = f(current[i]);
        let j = choose|j: int| 0 <= j < m.len() && m[j] == change;
        assert(m.len() == 1 && j == 0);
    } else {
        assert(second[k - first.len()] == change);
        assert(second.contains(change));
        let i = seqs::lemma_concat_map_from(loaded, g, change);
        let s = loaded[i];
        table::lemma_occurs(loaded, s.0, i);
        let m = g(s);
        let j = choose|j: int| 0 <= j < m.len() && m[j] == change;
        assert(m.len() > 0);
        let old_si = table::lookup(current, s.0)->0;
        assert(m == changes::config_change(s.0, old_si, s.1, now));
        if let ServiceView::Registered(reg) = old_si {
            if let Some(new) = s.1.config().timeout {
                let all = reg.expired(changes::nanos(new), now);
                if m == all.map_values(changes::timed_out(s.0)) {
                    assert(m[j] == changes::timed_out(s.0)(all[j]));
                }
            }
        }
    }
}

/// What changes for a loaded configuration leave of the services that it holds: they run where they
/// ran.
proof fn lemma_config_changes_ports(
    w: World,
    loaded: ServicesView,
    now: nat,
    name: Seq<char>,
    ip: IpAddr,
    docker: Option<Seq<char>>,
)
    requires
        connections::services_wf(w.services),
        table::distinct(loaded),
        table::has_key(loaded, name),
    ensures
        ({
            let after = w.apply_all(changes::config_changes(w.services, loaded, now)).services;
            &&& laws::port_at(after, name, ip, docker) == laws::port_at(
                w.services,
                name,
                ip,
                docker,
            )
            &&& laws::config_at(after, name) == laws::config_at(w.services, name)
        }),
{
    let list = changes::config_changes(w.services, loaded, now);
    let f = world::apply_change();
    let p = |v: World|
        {
            &&& connections::services_wf(v.services)
            &&& laws::port_at(v.services, name, ip, docker) == laws::port_at(
                w.services,
                name,
                ip,
                docker,
            )
            &&& laws::config_at(v.services, name) == laws::config_at(w.services, name)
        };
    assert forall|v: World, x: ChangeView| p(v) && list.contains(x) implies #[trigger] p(
        f(v, x),
    ) by {
        reveal(World::apply);
        lemma_config_change(w.services, loaded, now, x);
        laws::lemma_apply_reduced(v, x);
        match x {
            ChangeView::Removed { name: m } => {
                laws::lemma_invalidated_shape(v, m, true);
                laws::lemma_invalidated_reduced(v, m, true);
                let v1 = v.teardown_invalidated_service(m, true);
                table::lemma_del(v1.services, m, name);
                assert(laws::port_at(v1.services, name, ip, docker) == laws::port_at(
                    v.services,
                    name,
                    ip,
                    docker,
                ));
                assert(laws::config_at(v1.services, name) == laws::config_at(v.services, name));
            },
            ChangeView::DepsChanged { name: m } => {
                laws::lemma_invalidated_shape(v, m, false);
            },
            ChangeView::ReachabilityChanged { name: m } => {
                laws::law_teardown_keeps_shape(v, m, FilterView::All);
            },
            ChangeView::ProxyClientTimedOut { name: m, client } => {
                laws::law_teardown_keeps_shape(v, m, FilterView::ByClient(client));
            },
            _ => {},
        }
    }
    seqs::lemma_fold_keeps(w, list, f, p);
}

/// After a configuration was taken over exactly its services are configured, each as it says. Those
/// that were there before run where they ran, and no connection is there that was not before.
pub proof fn law_config_update(w: World, loaded: ServicesView, now: nat)
    requires
        connections::services_wf(w.services),
        connections::services_wf(loaded),
        none_runs(loaded),
    ensures
        ({
            let after = w.apply_all(changes::config_changes(w.services, loaded, now)).merged(
                loaded,
            );
            &&& connections::services_wf(after.services)
            &&& forall|name: Seq<char>| #[trigger]
                laws::config_at(after.services, name) == laws::config_at(loaded, name)
            &&& forall|name: Seq<char>, ip: IpAddr, docker: Option<Seq<char>>| #[trigger]
                laws::port_at(after.services, name, ip, docker) == (if table::has_key(
                    loaded,
                    name,
                ) {
                    laws::port_at(w.services, name, ip, docker)
                } else {
                    None
                })
            &&& forall|name: Seq<char>, ip: IpAddr, docker: Option<Seq<char>>, c: ClientView|
                laws::conn_kept(
                    connections::conn(w.services, name, ip, docker, c),
                    #[trigger] connections::conn(after.services, name, ip, docker, c),
                )
            &&& laws::orch_reduced(w.orch, after.orch)
        }),
{
    let list = changes::config_changes(w.services, loaded, now);
    let w1 = w.apply_all(list);
    let after = w1.merged(loaded);
    laws::law_changes_reduce(w, list);
    lemma_merged_wf(w1.services, loaded);
    assert forall|name: Seq<char>| #[trigger]
        laws::config_at(after.services, name) == laws::config_at(loaded, name) by {
        lemma_merged(w1.services, loaded, name);
        lemma_gone(w, loaded, now, name);
    }
    assert forall|name: Seq<char>, ip: IpAddr, docker: Option<Seq<char>>| #[trigger]
        laws::port_at(after.services, name, ip, docker) == (if table::has_key(loaded, name) {
            laws::port_at(w.services, name, ip, docker)
        } else {
            None
        }) by {
        lemma_merged(w1.services, loaded, name);
        lemma_gone(w, loaded, now, name);
        connections::lemma_wf_of(w1.services, name);
        if table::has_key(loaded, name) {
            lemma_config_changes_ports(w, loaded, now, name, ip, docker);
            let l = table::lookup(loaded, name)->0;
            assert(model::registered(loaded, name) is None);
            if let Some(si) = table::lookup(w1.services, name) {
                lemma_with_config(si, l.config());
            }
        }
    }
    assert forall|name: Seq<char>, ip: IpAddr, docker: Option<Seq<char>>, c: ClientView|
        laws::conn_kept(
            connections::conn(w.services, name, ip, docker, c),
            #[trigger] connections::conn(after.services, name, ip, docker, c),
        ) by {
        lemma_merged_conn(w1.services, loaded, name, ip, docker, c);
        assert(laws::conn_kept(
            connections::conn(w.services, name, ip, docker, c),
            connections::conn(w1.services, name, ip, docker, c),
        ));
    }
}

/// The connections are as they were before a loaded configuration was taken over.
pub(crate) proof fn lemma_merged_conn(
    services: ServicesView,
    loaded: ServicesView,
    name: Seq<char>,
    ip: IpAddr,
    docker: Option<Seq<char>>,
    c: ClientView,
)
    requires
        connections::services_wf(services),
        connections::services_wf(loaded),
        none_runs(loaded),
    ensures
        connections::conn(
            seqs::fold(services, loaded, world::merge_service()),
            name,
            ip,
            docker,
            c,
        ) == connections::conn(services, name, ip, docker, c),
{
    lemma_merged(services, loaded, name);
    connections::lemma_wf_of(services, name);
    if let Some(l) = table::lookup(loaded, name) {
        assert(model::registered(loaded, name) is None);
        if let Some(si) = table::lookup(services, name) {
            lemma_with_config(si, l.config());
        }
    }
}

/// A service that a loaded configuration lacks is gone once the changes are applied.
proof fn lemma_gone(w: World, loaded: ServicesView, now: nat, name: Seq<char>)
    requires
        connections::services_wf(w.services),
    ensures
        !table::has_key(loaded, name) ==> laws::config_at(
            w.apply_all(changes::config_changes(w.services, loaded, now)).services,
            name,
        ) is None,
{
    let list = changes::config_changes(w.services, loaded, now);
    let after = w.apply_all(list);
    if !table::has_key(loaded, name) {
        laws::law_changes_reduce(w, list);
        if laws::config_at(after.services, name) is Some {
            assert(laws::config_at(w.services, name) is Some);
            lemma_lacking(w.services, loaded, now, name);
            let change = ChangeView::Removed { name };
            let goal = |v: World| laws::config_at(v.services, name) is None;
            assert forall|v: World| connections::services_wf(v.services) implies #[trigger] goal(
                v.apply(change),
            ) by {
                laws::law_removed(v, name);
            }
            laws::lemma_change_reaches(w, list, change, goal);
        }
    }
}

/// A service stays as it is in a loaded configuration: its dependencies and its timeout are the same,
/// and so are the dependencies of each of its dependencies.
pub open spec fn is_spared(current: ServicesView, loaded: ServicesView, name: Seq<char>) -> bool {
    match (laws::config_at(current, name), laws::config_at(loaded, name)) {
        (Some(a), Some(b)) => {
            &&& a.dependencies == b.dependencies
            &&& a.timeout == b.timeout
            &&& forall|d: Seq<char>| #[trigger]
                a.dependencies.contains(d) ==> table::has_key(loaded, d) && !deps_changed(
                    current,
                    loaded,
                    d,
                )
        },
        _ => false,
    }
}

/// A service whose own name and dependencies are other than the invalidated one keeps its proxy
/// clients.
pub(crate) proof fn lemma_invalidated_spares(
    w: World,
    m: Seq<char>,
    is_failed: bool,
    name: Seq<char>,
    ip: IpAddr,
    docker: Option<Seq<char>>,
    c: ClientView,
)
    requires
        connections::services_wf(w.services),
        c.proxy is Some,
        m != name,
        laws::config_at(w.services, name) matches Some(config) ==> !config.dependencies.contains(m),
    ensures
        connections::conn(
            w.teardown_invalidated_service(m, is_failed).services,
            name,
            ip,
            docker,
            c,
        ) == connections::conn(w.services, name, ip, docker, c),
{
    reveal(World::teardown_invalidated_service);
    let g = world::dependent_on(m);
    let names = seqs::concat_map(w.services, g);
    let f = world::take_down(FilterView::All);
    let w1 = seqs::fold(w, names, f);
    if names.contains(name) {
        let i = seqs::lemma_concat_map_from(w.services, g, name);
        let t = g(w.services[i]);
        let j = choose|j: int| 0 <= j < t.len() && t[j] == name;
        assert(t.len() == 1 && j == 0);
        assert(w.services[i].0 == name);
        table::lemma_occurs(w.services, name, i);
        assert(false);
    }
    let p = |v: World|
        connections::services_wf(v.services) && connections::conn(v.services, name, ip, docker, c)
            == connections::conn(w.services, name, ip, docker, c);
    assert forall|v: World, n: Seq<char>| p(v) && names.contains(n) implies #[trigger] p(
        f(v, n),
    ) by {
        laws::lemma_teardown_chain_reduced(v, n, FilterView::All);
        laws::law_teardown_chain(v, n, FilterView::All);
    }
    seqs::lemma_fold_keeps(w, names, f, p);
    if is_failed {
        if let Some(reg) = model::registered(w1.services, m) {
            laws::lemma_put_registered(
                w1.services,
                m,
                ServiceView::Unregistered(reg.config),
                name,
            );
        }
    }
}

/// A service that stays as it is in a loaded configuration keeps all its proxy clients, with their
/// connections as they are.
pub proof fn law_config_update_spares(
    w: World,
    loaded: ServicesView,
    now: nat,
    name: Seq<char>,
    ip: IpAddr,
    docker: Option<Seq<char>>,
    c: ClientView,
)
    requires
        connections::services_wf(w.services),
        connections::services_wf(loaded),
        none_runs(loaded),
        is_spared(w.services, loaded, name),
        c.proxy is Some,
    ensures
        connections::conn(
            w.apply_all(changes::config_changes(w.services, loaded, now)).merged(loaded).services,
            name,
            ip,
            docker,
            c,
        ) == connections::conn(w.services, name, ip, docker, c),
{
    let list = changes::config_changes(w.services, loaded, now);
    let f = world::apply_change();
    let before = connections::conn(w.services, name, ip, docker, c);
    let config = laws::config_at(w.services, name);
    let p = |v: World|
        {
            &&& connections::services_wf(v.services)
            &&& laws::config_at(v.services, name) is Some ==> laws::config_at(v.services, name)
                == config
            &&& connections::conn(v.services, name, ip, docker, c) == before
        };
    assert forall|v: World, x: ChangeView| p(v) && list.contains(x) implies #[trigger] p(
        f(v, x),
    ) by {
        reveal(World::apply);
        lemma_config_change(w.services, loaded, now, x);
        laws::lemma_apply_reduced(v, x);
        assert(laws::config_at(f(v, x).services, name) is Some ==> laws::config_at(
            f(v, x).services,
            name,
        ) == laws::config_at(v.services, name));
        match x {
            ChangeView::Removed { name: m } => {
                lemma_invalidated_spares(v, m, true, name, ip, docker, c);
                laws::lemma_invalidated_reduced(v, m, true);
                table::lemma_del(v.teardown_invalidated_service(m, true).services, m, name);
            },
            ChangeView::DepsChanged { name: m } => {
                lemma_invalidated_spares(v, m, false, name, ip, docker, c);
            },
            ChangeView::ReachabilityChanged { name: m } => {
                laws::law_teardown_chain(v, m, FilterView::All);
            },
            ChangeView::ProxyClientTimedOut { name: m, client } => {
                laws::law_teardown_chain(v, m, FilterView::ByClient(client));
            },
            _ => {},
        }
    }
    seqs::lemma_fold_keeps(w, list, f, p);
    lemma_merged_conn(w.apply_all(list).services, loaded, name, ip, docker, c);
}

/// The services that the list of a host leaves: where they run once its changes are applied.
pub open spec fn port_after_list(
    services: ServicesView,
    sender_ip: IpAddr,
    list: Seq<OfferView>,
    name: Seq<char>,
    ip: IpAddr,
    docker: Option<Seq<char>>,
) -> Option<u16> {
    if ip == sender_ip && !changes::offers(list, name, docker) {
        None
    } else {
        laws::port_at(services, name, ip, docker)
    }
}

/// A change that is reported for the list of a host is the end of a replica there that is not on it.
pub(crate) proof fn lemma_list_change(
    services: ServicesView,
    sender_ip: IpAddr,
    list: Seq<OfferView>,
    change: ChangeView,
)
    requires
        connections::services_wf(services),
        changes::list_changes(services, sender_ip, list).contains(change),
    ensures
        match change {
            ChangeView::ReplicaRemoved { name, ip, docker_container } => {
                &&& ip == sender_ip
                &&& !changes::offers(list, name, docker_container)
                &&& laws::port_at(services, name, ip, docker_container) is Some
            },
            _ => false,
        },
{
    let f = changes::withdrawn_service(sender_ip, list);
    let i = seqs::lemma_concat_map_from(services, f, change);
    let s = services[i];
    let g = changes::withdrawn_replica(s.0, sender_ip, list);
    let j = seqs::lemma_concat_map_from(s.1.replicas(), g, change);
    let r = s.1.replicas()[j];
    let t = g(r);
    let x = choose|x: int| 0 <= x < t.len() && t[x] == change;
    assert(t.len() == 1 && x == 0);
    table::lemma_occurs(services, s.0, i);
    connections::lemma_wf_of(services, s.0);
    let reg = s.1->Registered_0;
    connections::lemma_index(reg, j);
}

/// A replica that is not on the list of its host is reported.
proof fn lemma_withdrawn(
    services: ServicesView,
    sender_ip: IpAddr,
    list: Seq<OfferView>,
    name: Seq<char>,
    docker: Option<Seq<char>>,
)
    requires
        laws::port_at(services, name, sender_ip, docker) is Some,
        !changes::offers(list, name, docker),
    ensures
        changes::list_changes(services, sender_ip, list).contains(
            ChangeView::ReplicaRemoved { name, ip: sender_ip, docker_container: docker },
        ),
{
    let change = ChangeView::ReplicaRemoved { name, ip: sender_ip, docker_container: docker };
    let f = changes::withdrawn_service(sender_ip, list);
    let i = laws::lemma_listed(services, name);
    let reg = model::registered(services, name)->0;
    let k = reg.replica_index(sender_ip, docker);
    assert(reg.is_replica(sender_ip, docker, k));
    let g = changes::withdrawn_replica(name, sender_ip, list);
    assert(g(reg.replicas[k])[0] == change);
    assert(g(reg.replicas[k]).contains(change));
    assert(services[i].1.replicas() == reg.replicas);
    seqs::lemma_concat_map_has(reg.replicas, g, k, change);
    seqs::lemma_concat_map_has(services, f, i, change);
}

/// The end of a replica leaves every other one running.
proof fn lemma_replica_removed_ports(
    w: World,
    name: Seq<char>,
    ip: IpAddr,
    docker: Option<Seq<char>>,
)
    requires
        connections::services_wf(w.services),
        laws::port_at(w.services, name, ip, docker) is Some,
    ensures
        ({
            let after = w.apply(
                ChangeView::ReplicaRemoved { name, ip, docker_container: docker },
            ).services;
            &&& forall|q: Seq<char>| #[trigger]
                laws::config_at(after, q) == laws::config_at(w.services, q)
            &&& forall|q: Seq<char>, a: IpAddr, b: Option<Seq<char>>| #[trigger]
                laws::port_at(after, q, a, b) == (if q == name && a == ip && b == docker {
                    None
                } else {
                    laws::port_at(w.services, q, a, b)
                })
        }),
{
    reveal(World::apply);
    let place = PlaceView::Replica(ip, docker);
    connections::lemma_wf_of(w.services, name);
    let reg = model::registered(w.services, name)->0;
    let after = w.apply(ChangeView::ReplicaRemoved { name, ip, docker_container: docker }).services;
    if world::runs_once(w.services, name) {
        laws::lemma_invalidated_shape(w, name, true);
        assert forall|q: Seq<char>, a: IpAddr, b: Option<Seq<char>>| #[trigger]
            laws::port_at(after, q, a, b) == (if q == name && a == ip && b == docker {
                None
            } else {
                laws::port_at(w.services, q, a, b)
            }) by {
            if q == name && laws::port_at(w.services, name, a, b) is Some {
                assert(reg.is_replica(ip, docker, reg.replica_index(ip, docker)));
                assert(reg.is_replica(a, b, reg.replica_index(a, b)));
            }
        }
    } else {
        let w1 = w.teardown_partial_replicas(name, place);
        laws::lemma_partial_reduced(w, name, place);
        laws::lemma_partial_shape(w, name, place);
        laws::lemma_without_replicas_shape(w1, name, place);
        assert forall|q: Seq<char>| #[trigger]
            laws::config_at(after, q) == laws::config_at(w.services, q) by {
            assert(laws::config_at(w1.services, q) == laws::config_at(w.services, q));
        }
        assert forall|q: Seq<char>, a: IpAddr, b: Option<Seq<char>>| #[trigger]
            laws::port_at(after, q, a, b) == (if q == name && a == ip && b == docker {
                None
            } else {
                laws::port_at(w.services, q, a, b)
            }) by {
            assert(laws::port_at(w1.services, q, a, b) == laws::port_at(w.services, q, a, b));
        }
    }
}

/// What the changes for the list of a host leave: exactly its replicas that are not on the list stop.
proof fn lemma_list_changes_ports(
    w: World,
    sender_ip: IpAddr,
    list: Seq<OfferView>,
    name: Seq<char>,
    ip: IpAddr,
    docker: Option<Seq<char>>,
)
    requires
        connections::services_wf(w.services),
    ensures
        ({
            let after = w.apply_all(changes::list_changes(w.services, sender_ip, list)).services;
            &&& laws::port_at(after, name, ip, docker) == port_after_list(
                w.services,
                sender_ip,
                list,
                name,
                ip,
                docker,
            )
            &&& laws::config_at(after, name) == laws::config_at(w.services, name)
        }),
{
    let all = changes::list_changes(w.services, sender_ip, list);
    let change = ChangeView::ReplicaRemoved { name, ip, docker_container: docker };
    lemma_list_changes_differ(w.services, sender_ip, list);
    lemma_apply_distinct(w, sender_ip, list, all);
    if all.contains(change) {
        lemma_list_change(w.services, sender_ip, list, change);
    } else if laws::port_at(w.services, name, ip, docker) is Some && ip == sender_ip
        && !changes::offers(list, name, docker) {
        lemma_withdrawn(w.services, sender_ip, list, name, docker);
    }
}

/// No replica is reported twice.
pub(crate) proof fn lemma_list_changes_differ(
    services: ServicesView,
    sender_ip: IpAddr,
    list: Seq<OfferView>,
)
    requires
        connections::services_wf(services),
    ensures
        changes::list_changes(services, sender_ip, list).no_duplicates(),
    decreases services.len(),
{
    let f = changes::withdrawn_service(sender_ip, list);
    if services.len() > 0 {
        let front = services.drop_last();
        let s = services.last();
        assert(connections::services_wf(front)) by {
            assert forall|i: int| 0 <= i < front.len() implies connections::service_wf(
                (#[trigger] front[i]).1,
            ) by {
                assert(connections::service_wf(services[i].1));
            }
            assert forall|i: int, j: int| 0 <= i < j < front.len() implies (
            #[trigger] front[i]).0 != (#[trigger] front[j]).0 by {
                assert(services[i].0 != services[j].0);
            }
        }
        lemma_list_changes_differ(front, sender_ip, list);
        let a = changes::list_changes(front, sender_ip, list);
        let b = f(s);
        assert(connections::service_wf(services[services.len() - 1].1));
        if let ServiceView::Registered(reg) = s.1 {
            lemma_withdrawn_differ(reg.replicas, s.0, sender_ip, list);
        }
        assert forall|x: int, y: int|
            0 <= x < (a + b).len() && 0 <= y < (a + b).len() && x != y implies (a + b)[x] != (a
            + b)[y] by {
            if x < a.len() && y >= a.len() {
                lemma_other_service(services, sender_ip, list, a[x], b[y - a.len()]);
            } else if y < a.len() && x >= a.len() {
                lemma_other_service(services, sender_ip, list, a[y], b[x - a.len()]);
            }
        }
    }
}

/// Changes for the last service differ from those for the others.
proof fn lemma_other_service(
    services: ServicesView,
    sender_ip: IpAddr,
    list: Seq<OfferView>,
    x: ChangeView,
    y: ChangeView,
)
    requires
        services.len() > 0,
        table::distinct(services),
        changes::list_changes(services.drop_last(), sender_ip, list).contains(x),
        changes::withdrawn_service(sender_ip, list)(services.last()).contains(y),
    ensures
        x != y,
{
    let f = changes::withdrawn_service(sender_ip, list);
    let front = services.drop_last();
    let i = seqs::lemma_concat_map_from(front, f, x);
    lemma_withdrawn_name(front[i], sender_ip, list, x);
    lemma_withdrawn_name(services.last(), sender_ip, list, y);
    assert(services[i].0 != services[services.len() - 1].0);
}

/// A change that is reported for a service names it.
proof fn lemma_withdrawn_name(
    s: (Seq<char>, ServiceView),
    sender_ip: IpAddr,
    list: Seq<OfferView>,
    x: ChangeView,
)
    requires
        changes::withdrawn_service(sender_ip, list)(s).contains(x),
    ensures
        x is ReplicaRemoved,
        x->ReplicaRemoved_name == s.0,
{
    let g = changes::withdrawn_replica(s.0, sender_ip, list);
    let j = seqs::lemma_concat_map_from(s.1.replicas(), g, x);
    let t = g(s.1.replicas()[j]);
    let k = choose|k: int| 0 <= k < t.len() && t[k] == x;
    assert(t.len() == 1 && k == 0);
}

/// No replica of a service is reported twice.
proof fn lemma_withdrawn_differ(
    replicas: Seq<ReplicaView>,
    name: Seq<char>,
    sender_ip: IpAddr,
    list: Seq<OfferView>,
)
    requires
        forall|i: int, j: int|
            0 <= i < j < replicas.len() ==> !((#[trigger] replicas[i]).ip == (
            #[trigger] replicas[j]).ip && replicas[i].docker_container
                == replicas[j].docker_container),
    ensures
        seqs::concat_map(
            replicas,
            changes::withdrawn_replica(name, sender_ip, list),
        ).no_duplicates(),
    decreases replicas.len(),
{
    let g = changes::withdrawn_replica(name, sender_ip, list);
    if replicas.len() > 0 {
        let front = replicas.drop_last();
        let r = replicas.last();
        assert forall|i: int, j: int| 0 <= i < j < front.len() implies !((#[trigger] front[i]).ip
            == (#[trigger] front[j]).ip && front[i].docker_container
            == front[j].docker_container) by {
            assert(replicas[i] == front[i] && replicas[j] == front[j]);
        }
        lemma_withdrawn_differ(front, name, sender_ip, list);
        let a = seqs::concat_map(front, g);
        let b = g(r);
        assert forall|x: int, y: int|
            0 <= x < (a + b).len() && 0 <= y < (a + b).len() && x != y implies (a + b)[x] != (a
            + b)[y] by {
            if x < a.len() && y >= a.len() {
                assert(a.contains(a[x]));
                lemma_other_replica(replicas, name, sender_ip, list, a[x]);
            } else if y < a.len() && x >= a.len() {
                assert(a.contains(a[y]));
                lemma_other_replica(replicas, name, sender_ip, list, a[y]);
            }
        }
    }
}

/// A change for another replica than the last differs from that for the last.
proof fn lemma_other_replica(
    replicas: Seq<ReplicaView>,
    name: Seq<char>,
    sender_ip: IpAddr,
    list: Seq<OfferView>,
    x: ChangeView,
)
    requires
        replicas.len() > 0,
        forall|i: int, j: int|
            0 <= i < j < replicas.len() ==> !((#[trigger] replicas[i]).ip == (
            #[trigger] replicas[j]).ip && replicas[i].docker_container
                == replicas[j].docker_container),
        seqs::concat_map(
            replicas.drop_last(),
            changes::withdrawn_replica(name, sender_ip, list),
        ).contains(x),
    ensures
        !changes::withdrawn_replica(name, sender_ip, list)(replicas.last()).contains(x),
{
    let g = changes::withdrawn_replica(name, sender_ip, list);
    let i = seqs::lemma_concat_map_from(replicas.drop_last(), g, x);
    let t = g(replicas[i]);
    let k = choose|k: int| 0 <= k < t.len() && t[k] == x;
    assert(t.len() == 1 && k == 0);
    assert(replicas[replicas.len() - 1] == replicas.last());
    let u = g(replicas.last());
    if u.contains(x) {
        let m = choose|m: int| 0 <= m < u.len() && u[m] == x;
        assert(u.len() == 1 && m == 0);
    }
}

/// Applying changes that report different replicas of a host: exactly those stop.
pub(crate) proof fn lemma_apply_distinct(
    w: World,
    sender_ip: IpAddr,
    list: Seq<OfferView>,
    done: Seq<ChangeView>,
)
    requires
        connections::services_wf(w.services),
        done.no_duplicates(),
        forall|x: ChangeView| #[trigger]
            done.contains(x) ==> changes::list_changes(w.services, sender_ip, list).contains(x),
    ensures
        connections::services_wf(w.apply_all(done).services),
        forall|q: Seq<char>| #[trigger]
            laws::config_at(w.apply_all(done).services, q) == laws::config_at(w.services, q),
        forall|q: Seq<char>, a: IpAddr, b: Option<Seq<char>>| #[trigger]
            laws::port_at(w.apply_all(done).services, q, a, b) == (if done.contains(
                ChangeView::ReplicaRemoved { name: q, ip: a, docker_container: b },
            ) {
                None
            } else {
                laws::port_at(w.services, q, a, b)
            }),
    decreases done.len(),
{
    laws::law_changes_reduce(w, done);
    if done.len() > 0 {
        let front = done.drop_last();
        let x = done.last();
        let v = w.apply_all(front);
        assert(w.apply_all(done) == v.apply(x));
        assert forall|y: ChangeView| #[trigger] front.contains(y) implies changes::list_changes(
            w.services,
            sender_ip,
            list,
        ).contains(y) by {
            let k = choose|k: int| 0 <= k < front.len() && front[k] == y;
            assert(done[k] == y);
            assert(done.contains(y));
        }
        assert(done[done.len() - 1] == x);
        assert(done.contains(x));
        lemma_apply_distinct(w, sender_ip, list, front);
        lemma_list_change(w.services, sender_ip, list, x);
        if let ChangeView::ReplicaRemoved { name, ip, docker_container } = x {
            assert(!front.contains(x)) by {
                if front.contains(x) {
                    let k = choose|k: int| 0 <= k < front.len() && front[k] == x;
                    assert(done[k] == done[done.len() - 1]);
                }
            }
            assert(laws::port_at(v.services, name, ip, docker_container) is Some);
            lemma_replica_removed_ports(v, name, ip, docker_container);
            assert forall|q: Seq<char>| #[trigger]
                laws::config_at(w.apply_all(done).services, q) == laws::config_at(
                    w.services,
                    q,
                ) by {
                assert(laws::config_at(v.services, q) == laws::config_at(w.services, q));
            }
            assert forall|q: Seq<char>, a: IpAddr, b: Option<Seq<char>>| #[trigger]
                laws::port_at(w.apply_all(done).services, q, a, b) == (if done.contains(
                    ChangeView::ReplicaRemoved { name: q, ip: a, docker_container: b },
                ) {
                    None
                } else {
                    laws::port_at(w.services, q, a, b)
                }) by {
                let y = ChangeView::ReplicaRemoved { name: q, ip: a, docker_container: b };
                assert(laws::port_at(v.services, q, a, b) == (if front.contains(y) {
                    None
                } else {
                    laws::port_at(w.services, q, a, b)
                }));
                if front.contains(y) {
                    let k = choose|k: int| 0 <= k < front.len() && front[k] == y;
                    assert(done[k] == y);
                } else if y != x && done.contains(y) {
                    let k = choose|k: int| 0 <= k < done.len() && done[k] == y;
                    assert(front[k] == y);
                }
            }
        }
    } else {
        assert forall|y: ChangeView| !#[trigger] done.contains(y) by {}
    }
}

/// The port at which a host offers a service in a container, the last one where there are several.
pub open spec fn offered_port(
    list: Seq<OfferView>,
    name: Seq<char>,
    docker: Option<Seq<char>>,
) -> Option<u16>
    decreases list.len(),
{
    if list.len() == 0 {
        None
    } else if list.last().0 == name && list.last().2 == docker {
        Some(list.last().1)
    } else {
        offered_port(list.drop_last(), name, docker)
    }
}

/// A service is offered exactly where it is offered at a port.
pub(crate) proof fn lemma_offered_port(list: Seq<OfferView>, name: Seq<char>, docker: Option<Seq<char>>)
    ensures
        changes::offers(list, name, docker) == (offered_port(list, name, docker) is Some),
    decreases list.len(),
{
    if list.len() > 0 {
        let front = list.drop_last();
        lemma_offered_port(front, name, docker);
        if changes::offers(list, name, docker) {
            let i = choose|i: int|
                0 <= i < list.len() && (#[trigger] list[i]).0 == name && list[i].2 == docker;
            if i < front.len() {
                assert(front[i].0 == name);
            }
        }
        if changes::offers(front, name, docker) {
            let i = choose|i: int|
                0 <= i < front.len() && (#[trigger] front[i]).0 == name && front[i].2 == docker;
            assert(list[i].0 == name);
        }
        if list.last().0 == name && list.last().2 == docker {
            assert(list[list.len() - 1].0 == name);
        }
    }
}

/// What the services that a host offers add: replicas of those that are configured.
pub(crate) proof fn lemma_offers(services: ServicesView, sender_ip: IpAddr, list: Seq<OfferView>)
    requires
        connections::services_wf(services),
    ensures
        ({
            let after = seqs::fold(services, list, nullnet_grpc_impl::offer(sender_ip));
            &&& connections::services_wf(after)
            &&& forall|q: Seq<char>| #[trigger]
                laws::config_at(after, q) == laws::config_at(services, q)
            &&& forall|q: Seq<char>, a: IpAddr, b: Option<Seq<char>>| #[trigger]
                laws::port_at(after, q, a, b) == (if a == sender_ip && offered_port(
                    list,
                    q,
                    b,
                ) is Some && laws::config_at(services, q) is Some {
                    offered_port(list, q, b)
                } else {
                    laws::port_at(services, q, a, b)
                })
            &&& forall|q: Seq<char>, a: IpAddr, b: Option<Seq<char>>, c: ClientView| #[trigger]
                connections::conn(after, q, a, b, c) == connections::conn(services, q, a, b, c)
        }),
    decreases list.len(),
{
    let f = nullnet_grpc_impl::offer(sender_ip);
    if list.len() > 0 {
        let front = list.drop_last();
        let o = list.last();
        let before = seqs::fold(services, front, f);
        lemma_offers(services, sender_ip, front);
        let after = seqs::fold(services, list, f);
        assert(after == f(before, o));
        connections::lemma_wf_of(before, o.0);
        match table::lookup(before, o.0) {
            None => {
                assert(laws::config_at(before, o.0) == laws::config_at(services, o.0));
            },
            Some(si) => {
                let next = si.with_replica(sender_ip, o.1, o.2);
                connections::lemma_with_replica(si, sender_ip, o.1, o.2);
                connections::lemma_put_wf(before, o.0, next);
                assert forall|q: Seq<char>| #[trigger]
                    laws::config_at(after, q) == laws::config_at(services, q) by {
                    table::lemma_put(before, o.0, next, q);
                    assert(laws::config_at(before, q) == laws::config_at(services, q));
                }
                assert forall|q: Seq<char>, a: IpAddr, b: Option<Seq<char>>| #[trigger]
                    laws::port_at(after, q, a, b) == (if a == sender_ip && offered_port(
                        list,
                        q,
                        b,
                    ) is Some && laws::config_at(services, q) is Some {
                        offered_port(list, q, b)
                    } else {
                        laws::port_at(services, q, a, b)
                    }) by {
                    laws::lemma_put_registered(before, o.0, next, q);
                    assert(laws::config_at(before, q) == laws::config_at(services, q));
                    assert(laws::port_at(before, q, a, b) == (if a == sender_ip && offered_port(
                        front,
                        q,
                        b,
                    ) is Some && laws::config_at(services, q) is Some {
                        offered_port(front, q, b)
                    } else {
                        laws::port_at(services, q, a, b)
                    }));
                    if q == o.0 {
                        lemma_with_replica_port(si, sender_ip, o.1, o.2, a, b);
                    }
                }
                assert forall|q: Seq<char>, a: IpAddr, b: Option<Seq<char>>, c: ClientView| #[trigger]
                    connections::conn(after, q, a, b, c) == connections::conn(
                        services,
                        q,
                        a,
                        b,
                        c,
                    ) by {
                    laws::lemma_put_registered(before, o.0, next, q);
                    assert(connections::conn(before, q, a, b, c) == connections::conn(
                        services,
                        q,
                        a,
                        b,
                        c,
                    ));
                    if q == o.0 {
                        let reg = next->Registered_0;
                        assert(connections::replica_conn(reg, a, b, c) == (match si {
                            ServiceView::Registered(r) => connections::replica_conn(r, a, b, c),
                            ServiceView::Unregistered(_) => None,
                        }));
                    }
                }
            },
        }
    }
}

/// The ports of a service that is found to run somewhere.
proof fn lemma_with_replica_port(
    si: ServiceView,
    ip: IpAddr,
    port: u16,
    docker: Option<Seq<char>>,
    a: IpAddr,
    b: Option<Seq<char>>,
)
    requires
        connections::service_wf(si),
    ensures
        si.with_replica(ip, port, docker) is Registered,
        laws::replica_port(si.with_replica(ip, port, docker)->Registered_0, a, b) == (if a == ip
            && b == docker {
            Some(port)
        } else {
            match si {
                ServiceView::Registered(reg) => laws::replica_port(reg, a, b),
                ServiceView::Unregistered(_) => None,
            }
        }),
{
    connections::lemma_with_replica(si, ip, port, docker);
    let after = si.with_replica(ip, port, docker)->Registered_0;
    assert(after.has_replica(a, b) == ((a == ip && b == docker) || (
    si matches ServiceView::Registered(reg) && reg.has_replica(a, b))));
    if let ServiceView::Registered(reg) = si {
        if reg.has_replica(a, b) && !(a == ip && b == docker) {
            let k = reg.replica_index(a, b);
            assert(reg.is_replica(a, b, k));
            if reg.has_replica(ip, docker) {
                let i = reg.replica_index(ip, docker);
                assert(reg.is_replica(ip, docker, i));
                assert(i != k);
            }
            assert(after.replicas[k] == reg.replicas[k]);
            connections::lemma_index(after, k);
        }
    }
}

/// After a host sent the list of the services that it offers, exactly those on it that are configured
/// run there, each at the port given last. Replicas on other hosts run as before, every service is
/// configured as before, and no connection is there that was not before.
pub proof fn law_services_list(w: World, sender_ip: IpAddr, list: Seq<OfferView>)
    requires
        connections::services_wf(w.services),
    ensures
        ({
            let after = w.services_list(sender_ip, list);
            &&& connections::services_wf(after.services)
            &&& forall|name: Seq<char>| #[trigger]
                laws::config_at(after.services, name) == laws::config_at(w.services, name)
            &&& forall|name: Seq<char>, ip: IpAddr, docker: Option<Seq<char>>| #[trigger]
                laws::port_at(after.services, name, ip, docker) == (if ip == sender_ip {
                    if laws::config_at(w.services, name) is Some {
                        offered_port(list, name, docker)
                    } else {
                        None
                    }
                } else {
                    laws::port_at(w.services, name, ip, docker)
                })
            &&& forall|name: Seq<char>, ip: IpAddr, docker: Option<Seq<char>>, c: ClientView|
                laws::conn_kept(
                    connections::conn(w.services, name, ip, docker, c),
                    #[trigger] connections::conn(after.services, name, ip, docker, c),
                )
            &&& laws::orch_reduced(w.orch, after.orch)
        }),
{
    let all = changes::list_changes(w.services, sender_ip, list);
    let w1 = w.apply_all(all);
    let after = w.services_list(sender_ip, list);
    laws::law_changes_reduce(w, all);
    lemma_offers(w1.services, sender_ip, list);
    assert forall|name: Seq<char>| #[trigger]
        laws::config_at(after.services, name) == laws::config_at(w.services, name) by {
        lemma_list_changes_ports(w, sender_ip, list, name, sender_ip, None);
        assert(laws::config_at(after.services, name) == laws::config_at(w1.services, name));
    }
    assert forall|name: Seq<char>, ip: IpAddr, docker: Option<Seq<char>>| #[trigger]
        laws::port_at(after.services, name, ip, docker) == (if ip == sender_ip {
            if laws::config_at(w.services, name) is Some {
                offered_port(list, name, docker)
            } else {
                None
            }
        } else {
            laws::port_at(w.services, name, ip, docker)
        }) by {
        lemma_list_changes_ports(w, sender_ip, list, name, ip, docker);
        lemma_offered_port(list, name, docker);
        assert(laws::port_at(after.services, name, ip, docker) == (if ip == sender_ip
            && offered_port(list, name, docker) is Some && laws::config_at(
            w1.services,
            name,
        ) is Some {
            offered_port(list, name, docker)
        } else {
            laws::port_at(w1.services, name, ip, docker)
        }));
    }
    assert forall|name: Seq<char>, ip: IpAddr, docker: Option<Seq<char>>, c: ClientView|
        laws::conn_kept(
            connections::conn(w.services, name, ip, docker, c),
            #[trigger] connections::conn(after.services, name, ip, docker, c),
        ) by {
        assert(connections::conn(after.services, name, ip, docker, c) == connections::conn(
            w1.services,
            name,
            ip,
            docker,
            c,
        ));
        assert(laws::conn_kept(
            connections::conn(w.services, name, ip, docker, c),
            connections::conn(w1.services, name, ip, docker, c),
        ));
    }
}

/// A list of services that was taken over changes nothing when it comes again.
pub proof fn law_services_list_settles(w: World, sender_ip: IpAddr, list: Seq<OfferView>)
    requires
        connections::services_wf(w.services),
    ensures
        changes::list_changes(w.services_list(sender_ip, list).services, sender_ip, list) == Seq::<
            ChangeView,
        >::empty(),
{
    law_services_list(w, sender_ip, list);
    let after = w.services_list(sender_ip, list).services;
    let again = changes::list_changes(after, sender_ip, list);
    if again.len() > 0 {
        let change = again[0];
        assert(again.contains(change));
        lemma_list_change(after, sender_ip, list, change);
        if let ChangeView::ReplicaRemoved { name, ip, docker_container } = change {
            lemma_offered_port(list, name, docker_container);
            assert(laws::port_at(after, name, ip, docker_container) is Some);
        }
    }
    assert(again =~= Seq::empty());
}

/// A configuration that was taken over changes nothing when it is read again.
pub proof fn law_config_update_settles(w: World, loaded: ServicesView, now: nat, later: nat)
    requires
        connections::services_wf(w.services),
        connections::services_wf(loaded),
        none_runs(loaded),
    ensures
        changes::config_changes(
            w.apply_all(changes::config_changes(w.services, loaded, now)).merged(loaded).services,
            loaded,
            later,
        ) == Seq::<ChangeView>::empty(),
{
    law_config_update(w, loaded, now);
    let after = w.apply_all(changes::config_changes(w.services, loaded, now)).merged(
        loaded,
    ).services;
    let removed = seqs::concat_map(after, changes::removed_service(loaded));
    if removed.len() > 0 {
        let change = removed[0];
        assert(removed.contains(change));
        let i = seqs::lemma_concat_map_from(after, changes::removed_service(loaded), change);
        let name = after[i].0;
        table::lemma_occurs(after, name, i);
        assert(laws::config_at(after, name) is Some);
        assert(laws::config_at(after, name) == laws::config_at(loaded, name));
    }
    assert(removed =~= Seq::empty());
    let f = changes::changed_service(after, later);
    let changed = seqs::concat_map(loaded, f);
    if changed.len() > 0 {
        let change = changed[0];
        assert(changed.contains(change));
        let i = seqs::lemma_concat_map_from(loaded, f, change);
        let name = loaded[i].0;
        table::lemma_occurs(loaded, name, i);
        assert(laws::config_at(after, name) == laws::config_at(loaded, name));
        assert(f(loaded[i]) =~= Seq::empty());
    }
    assert(changed =~= Seq::empty());
}

} // verus!
