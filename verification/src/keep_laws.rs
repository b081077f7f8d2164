//! What configurations, lists of services, marks and clean-ups leave as it is.
use crate::addr::IpAddr;
use crate::cascade_laws;
use crate::chain_setup::OutcomeView;
use crate::detect_laws;
use crate::nullnet_grpc_impl::RequestError;
use crate::orchestrator::OrchestratorView;
use crate::seqs;
use crate::services::changes;
use crate::services::changes::OfferView;
use crate::services::clients::{ClientInfoView, ClientView};
use crate::services::connections;
use crate::services::edge::RegisteredEdgeView;
use crate::services::laws;
use crate::services::model;
use crate::services::model::{ServiceView, ServicesView};
use crate::services::update_laws;
use crate::services::world;
use crate::services::world::{ChangeView, FilterView, World};
use crate::setup_laws;
use crate::table;
use crate::teardown_laws;
use crate::vlan;
use vstd::prelude::*;

verus! {

/// The same connections are there, as they were.
pub open spec fn same_conns(a: ServicesView, b: ServicesView) -> bool {
    forall|n: Seq<char>, x: IpAddr, y: Option<Seq<char>>, c: ClientView| #[trigger]
        connections::conn(b, n, x, y, c) == connections::conn(a, n, x, y, c)
}

/// A list of services ends connections only with the replicas that are not on it any more: what the list
/// adds leaves all connections as they are. A list that names every service that runs on the host changes no
/// connection at all, and nothing is sent.
pub proof fn law_list_keeps(w: World, sender_ip: IpAddr, list: Seq<OfferView>)
    requires
        connections::services_wf(w.services),
    ensures
        ({
            let after = w.services_list(sender_ip, list);
            let stopped = w.apply_all(changes::list_changes(w.services, sender_ip, list));
            &&& same_conns(stopped.services, after.services)
            &&& after.orch == stopped.orch
            &&& (forall|name: Seq<char>, docker: Option<Seq<char>>|
                (#[trigger] laws::port_at(w.services, name, sender_ip, docker)) is Some ==> exists|
                    i: int,
                |
                    0 <= i < list.len() && (#[trigger] list[i]).0 == name && list[i].2 == docker)
                ==> same_conns(w.services, after.services) && after.orch == w.orch
        }),
{
    let all = changes::list_changes(w.services, sender_ip, list);
    let stopped = w.apply_all(all);
    laws::law_changes_reduce(w, all);
    update_laws::lemma_offers(stopped.services, sender_ip, list);
    if forall|name: Seq<char>, docker: Option<Seq<char>>|
        (#[trigger] laws::port_at(w.services, name, sender_ip, docker)) is Some ==> exists|i: int|
            0 <= i < list.len() && (#[trigger] list[i]).0 == name && list[i].2 == docker {
        if all.len() > 0 {
            let change = all[0];
            assert(all.contains(change));
            detect_laws::law_list_changes(w.services, sender_ip, list, change);
            if let ChangeView::ReplicaRemoved { name, ip, docker_container } = change {
                assert(laws::port_at(w.services, name, sender_ip, docker_container) is Some);
            }
        }
        assert(all.len() == 0);
        assert(stopped == w);
    }
}

/// A loaded configuration ends connections only with what it is found to change: what it brings leaves all
/// connections as they are, and nothing is sent on its account.
pub proof fn law_config_keeps(w: World, loaded: ServicesView, now: nat)
    requires
        connections::services_wf(w.services),
        connections::services_wf(loaded),
        update_laws::none_runs(loaded),
    ensures
        ({
            let changed = w.apply_all(changes::config_changes(w.services, loaded, now));
            let after = changed.merged(loaded);
            &&& same_conns(changed.services, after.services)
            &&& after.orch == changed.orch
        }),
{
    let all = changes::config_changes(w.services, loaded, now);
    let changed = w.apply_all(all);
    laws::law_changes_reduce(w, all);
    assert forall|n: Seq<char>, x: IpAddr, y: Option<Seq<char>>, c: ClientView| #[trigger]
        connections::conn(changed.merged(loaded).services, n, x, y, c) == connections::conn(
            changed.services,
            n,
            x,
            y,
            c,
        ) by {
        update_laws::lemma_merged_conn(changed.services, loaded, n, x, y, c);
    }
}

/// A configuration that says of every service what is configured already changes no connection, and nothing
/// is sent.
pub proof fn law_same_config(w: World, loaded: ServicesView, now: nat)
    requires
        connections::services_wf(w.services),
        connections::services_wf(loaded),
        update_laws::none_runs(loaded),
        forall|name: Seq<char>| #[trigger]
            laws::config_at(loaded, name) == laws::config_at(w.services, name),
    ensures
        ({
            let after = w.apply_all(changes::config_changes(w.services, loaded, now)).merged(
                loaded,
            );
            same_conns(w.services, after.services) && after.orch == w.orch
        }),
{
    let all = changes::config_changes(w.services, loaded, now);
    law_config_keeps(w, loaded, now);
    if all.len() > 0 {
        let change = all[0];
        assert(all.contains(change));
        detect_laws::law_config_changes(w.services, loaded, now, change);
        match change {
            ChangeView::Removed { name } => {
                assert(laws::config_at(loaded, name) == laws::config_at(w.services, name));
            },
            ChangeView::DepsChanged { name } => {
                assert(laws::config_at(loaded, name) == laws::config_at(w.services, name));
            },
            ChangeView::ReachabilityChanged { name } => {
                assert(laws::config_at(loaded, name) == laws::config_at(w.services, name));
            },
            ChangeView::ProxyClientTimedOut { name, client } => {
                assert(laws::config_at(loaded, name) == laws::config_at(w.services, name));
            },
            _ => {},
        }
    }
    assert(all.len() == 0);
}

/// A connection with or without the mark of the entry of a backend chain.
pub open spec fn with_mark(info: Option<ClientInfoView>, is_backend_entry: bool) -> Option<
    ClientInfoView,
> {
    match info {
        Some(ci) => Some(ClientInfoView { is_backend_entry, ..ci }),
        None => None,
    }
}

/// A triggered chain stands exactly where none of its edges failed. The connection of the client of its
/// first edge to the replica of that edge is then the entry of a backend chain, and nothing else changes. A
/// chain that failed is undone like any other.
pub proof fn law_backend_finished(w: World, outcomes: Seq<OutcomeView>, entry: RegisteredEdgeView)
    requires
        connections::services_wf(w.services),
    ensures
        ({
            let (after, result) = w.finish_backend_chain(outcomes, entry);
            let failed = exists|i: int| 0 <= i < outcomes.len() && (#[trigger] outcomes[i]) is Failed;
            &&& failed ==> result == Err::<(), _>(RequestError::SetupFailed) && after
                == w.finish_chain(outcomes).0
            &&& !failed ==> {
                &&& result is Ok
                &&& after.orch == w.orch
                &&& forall|n: Seq<char>, x: IpAddr, y: Option<Seq<char>>, c: ClientView|
                    #[trigger]
                    connections::conn(after.services, n, x, y, c) == if n == entry.server.1.name
                        && x == entry.server.0 && y == entry.server_docker && c == entry.client.1 {
                        with_mark(connections::conn(w.services, n, x, y, c), true)
                    } else {
                        connections::conn(w.services, n, x, y, c)
                    }
            }
        }),
{
    teardown_laws::law_chain_concluded(w, outcomes);
    setup_laws::law_marked(
        w,
        entry.client.1,
        crate::nullnet_grpc_impl::edge_end(entry),
        true,
    );
}

/// A host that opens or closes its control channel, and a message that is answered, change nothing else of
/// what is kept: the networks in use, what there is to send, and what is awaited or connected otherwise.
pub proof fn law_channels_keep(orch: OrchestratorView, ip: IpAddr, id: Seq<char>)
    ensures
        ({
            let up = orch.connected(ip);
            &&& up.net == orch.net
            &&& up.net_ids == orch.net_ids
            &&& up.outbox == orch.outbox
            &&& up.pending == orch.pending
        }),
        ({
            let down = orch.disconnected(ip);
            &&& down.net == orch.net
            &&& down.net_ids == orch.net_ids
            &&& down.outbox == orch.outbox
            &&& down.pending == orch.pending
        }),
        ({
            let done = orch.settled(id);
            &&& done.net == orch.net
            &&& done.net_ids == orch.net_ids
            &&& done.outbox == orch.outbox
            &&& done.clients == orch.clients
        }),
{
}

/// A service that is found to run in one place alone runs there, at that port and in no container, and
/// nowhere else. The clients of its first replica, where it had one, are connected to it as they were, and
/// no others.
pub proof fn law_moved(si: ServiceView, ip: IpAddr, port: u16)
    ensures
        match si.moved_to(ip, port) {
            ServiceView::Registered(reg) => {
                &&& reg.config == si.config()
                &&& reg.replicas.len() == 1
                &&& reg.replicas[0].ip == ip
                &&& reg.replicas[0].port == port
                &&& reg.replicas[0].docker_container is None
                &&& match si {
                    ServiceView::Registered(before) => if before.replicas.len() > 0 {
                        reg.replicas[0].clients == before.replicas[0].clients
                    } else {
                        reg.replicas[0].clients.len() == 0
                    },
                    ServiceView::Unregistered(_) => reg.replicas[0].clients.len() == 0,
                }
            },
            ServiceView::Unregistered(_) => false,
        },
{
}

/// A service runs.
pub open spec fn runs(services: ServicesView, name: Seq<char>) -> bool {
    laws::sites_at(services, name).len() > 0
}

/// Every service that a service is configured with as a dependency runs.
pub open spec fn has_all(services: ServicesView, name: Seq<char>) -> bool {
    match laws::config_at(services, name) {
        Some(config) => forall|k: int|
            0 <= k < config.dependencies.len() ==> runs(
                services,
                #[trigger] config.dependencies[k],
            ),
        None => true,
    }
}

proof fn lemma_runs(services: ServicesView, name: Seq<char>)
    requires
        connections::services_wf(services),
    ensures
        runs(services, name) == (model::registered(services, name) is Some),
{
    connections::lemma_wf_of(services, name);
}

proof fn lemma_has_all(services: ServicesView, name: Seq<char>)
    requires
        connections::services_wf(services),
    ensures
        model::registered(services, name) matches Some(reg) ==> vlan::all_run(
            services,
            reg.config.dependencies,
        ) == has_all(services, name),
{
    if let Some(reg) = model::registered(services, name) {
        let deps = reg.config.dependencies;
        assert forall|k: int| 0 <= k < deps.len() implies runs(services, #[trigger] deps[k]) == (
        model::registered(services, deps[k]) is Some) by {
            lemma_runs(services, deps[k]);
        }
    }
}

/// Taking the chains of a service off VLANs disconnects exactly the proxy clients of the service, and
/// everything runs where it ran. It is refused, and nothing changes, exactly where the service runs but one
/// of its dependencies does not.
pub proof fn law_vlan_chain(services: ServicesView, name: Seq<char>)
    requires
        connections::services_wf(services),
    ensures
        ({
            let (after, done) = vlan::without_chains(services, name);
            &&& connections::services_wf(after)
            &&& done == (runs(services, name) ==> has_all(services, name))
            &&& !done ==> after == services
            &&& laws::same_shape(services, after)
            &&& done ==> forall|n: Seq<char>, x: IpAddr, y: Option<Seq<char>>, c: ClientView|
                c.proxy is Some ==> #[trigger] connections::conn(after, n, x, y, c) == (if n
                    == name {
                    None
                } else {
                    connections::conn(services, n, x, y, c)
                })
        }),
{
    let w = World { services, orch: vlan::no_hosts() };
    lemma_runs(services, name);
    lemma_has_all(services, name);
    laws::lemma_teardown_chain_reduced(w, name, FilterView::All);
    laws::law_teardown_keeps_shape(w, name, FilterView::All);
    laws::law_teardown_chain(w, name, FilterView::All);
}

proof fn lemma_same_runs(a: ServicesView, b: ServicesView, name: Seq<char>)
    requires
        laws::same_shape(a, b),
    ensures
        runs(b, name) == runs(a, name),
        has_all(b, name) == has_all(a, name),
{
    assert(laws::sites_at(b, name) == laws::sites_at(a, name));
    assert(laws::config_at(b, name) == laws::config_at(a, name));
    if let Some(config) = laws::config_at(a, name) {
        let deps = config.dependencies;
        assert forall|k: int| 0 <= k < deps.len() implies runs(b, #[trigger] deps[k]) == runs(
            a,
            deps[k],
        ) by {
            assert(laws::sites_at(b, deps[k]) == laws::sites_at(a, deps[k]));
        }
    }
}

proof fn lemma_vlan_chains(services: ServicesView, names: Seq<Seq<char>>)
    requires
        connections::services_wf(services),
    ensures
        ({
            let (after, done) = vlan::without_all_chains(services, names);
            &&& connections::services_wf(after)
            &&& laws::same_shape(services, after)
            &&& done == forall|i: int|
                0 <= i < names.len() && runs(services, #[trigger] names[i]) ==> has_all(
                    services,
                    names[i],
                )
            &&& done ==> forall|n: Seq<char>, x: IpAddr, y: Option<Seq<char>>, c: ClientView|
                c.proxy is Some ==> #[trigger] connections::conn(after, n, x, y, c) == (
                if names.contains(n) {
                    None
                } else {
                    connections::conn(services, n, x, y, c)
                })
        }),
    decreases names.len(),
{
    if names.len() == 0 {
    } else {
        let front = names.drop_last();
        let last = names.last();
        lemma_vlan_chains(services, front);
        let (before, done) = vlan::without_all_chains(services, front);
        law_vlan_chain(before, last);
        lemma_same_runs(services, before, last);
        let (after, all) = vlan::without_all_chains(services, names);
        assert(laws::same_shape(services, after)) by {
            let b = if done {
                vlan::without_chains(before, last).0
            } else {
                before
            };
            assert forall|q: Seq<char>| #[trigger]
                laws::sites_at(b, q) == laws::sites_at(services, q) by {
                assert(laws::sites_at(before, q) == laws::sites_at(services, q));
            }
            assert forall|q: Seq<char>| #[trigger]
                laws::config_at(b, q) == laws::config_at(services, q) by {
                assert(laws::config_at(before, q) == laws::config_at(services, q));
            }
            assert forall|q: Seq<char>, x: IpAddr, y: Option<Seq<char>>| #[trigger]
                laws::port_at(b, q, x, y) == laws::port_at(services, q, x, y) by {
                assert(laws::port_at(before, q, x, y) == laws::port_at(services, q, x, y));
            }
        }
        let n = names.len() - 1;
        assert(names[n] == last);
        assert(forall|i: int| 0 <= i < n ==> #[trigger] names[i] == front[i]);
        if all {
            assert forall|i: int|
                0 <= i < names.len() && runs(services, #[trigger] names[i]) implies has_all(
                services,
                names[i],
            ) by {
                if i < n {
                    assert(names[i] == front[i]);
                }
            }
            assert forall|q: Seq<char>, x: IpAddr, y: Option<Seq<char>>, c: ClientView|
                c.proxy is Some implies #[trigger] connections::conn(after, q, x, y, c) == (
            if names.contains(q) {
                None
            } else {
                connections::conn(services, q, x, y, c)
            }) by {
                assert(connections::conn(before, q, x, y, c) == (if front.contains(q) {
                    None
                } else {
                    connections::conn(services, q, x, y, c)
                }));
                if names.contains(q) && q != last {
                    let i = choose|i: int| 0 <= i < names.len() && names[i] == q;
                    assert(front[i] == q);
                }
                if front.contains(q) {
                    let i = choose|i: int| 0 <= i < front.len() && front[i] == q;
                    assert(names[i] == q);
                }
            }
        } else if done {
            assert(runs(services, names[n]) && !has_all(services, names[n]));
        } else {
            let i = choose|i: int|
                0 <= i < front.len() && runs(services, #[trigger] front[i]) && !has_all(
                    services,
                    front[i],
                );
            assert(names[i] == front[i]);
        }
    }
}

/// A failure on VLANs disconnects exactly the proxy clients of the service that failed and of every service
/// that is configured with it as a dependency, at whatever position. The service does not run any more,
/// everything else runs where it ran, and all stays configured as it is. It is refused, and the service
/// that failed is left as it runs, exactly where one of those services runs but one of its dependencies
/// does not.
pub proof fn law_vlan_failed(services: ServicesView, name: Seq<char>)
    requires
        connections::services_wf(services),
    ensures
        ({
            let (after, done) = vlan::without_failed(services, name);
            &&& done == forall|n: Seq<char>|
                cascade_laws::is_affected(services, n, name) && #[trigger] runs(services, n)
                    ==> has_all(services, n)
            &&& forall|n: Seq<char>| #[trigger]
                laws::config_at(after, n) == laws::config_at(services, n)
            &&& forall|n: Seq<char>, x: IpAddr, y: Option<Seq<char>>| #[trigger]
                laws::port_at(after, n, x, y) == (if done && n == name {
                    None
                } else {
                    laws::port_at(services, n, x, y)
                })
            &&& done ==> forall|n: Seq<char>, x: IpAddr, y: Option<Seq<char>>, c: ClientView|
                c.proxy is Some ==> #[trigger] connections::conn(after, n, x, y, c) == (
                if cascade_laws::is_affected(services, n, name) {
                    None
                } else {
                    connections::conn(services, n, x, y, c)
                })
        }),
{
    let w = World { services, orch: vlan::no_hosts() };
    let names = seqs::concat_map(services, world::dependent_on(name));
    let (mid, all) = vlan::without_all_chains(services, names);
    let (after, done) = vlan::without_failed(services, name);
    lemma_vlan_chains(services, names);
    assert forall|n: Seq<char>| #[trigger]
        names.contains(n) == (cascade_laws::is_affected(services, n, name) && runs(services, n)) by {
        teardown_laws::lemma_dependents(w, name, n);
        lemma_runs(services, n);
    }
    assert(done == all);
    assert(done == forall|n: Seq<char>|
        cascade_laws::is_affected(services, n, name) && #[trigger] runs(services, n) ==> has_all(
            services,
            n,
        )) by {
        if done {
            assert forall|n: Seq<char>|
                cascade_laws::is_affected(services, n, name) && #[trigger] runs(
                    services,
                    n,
                ) implies has_all(services, n) by {
                assert(names.contains(n));
                let i = choose|i: int| 0 <= i < names.len() && names[i] == n;
                assert(names[i] == n);
            }
        } else {
            let i = choose|i: int|
                0 <= i < names.len() && runs(services, #[trigger] names[i]) && !has_all(
                    services,
                    names[i],
                );
            assert(names.contains(names[i]));
        }
    }
    if done {
        if let Some(si) = table::lookup(mid, name) {
            assert forall|n: Seq<char>| #[trigger]
                laws::config_at(after, n) == laws::config_at(services, n) by {
                table::lemma_put(mid, name, ServiceView::Unregistered(si.config()), n);
                assert(laws::config_at(mid, n) == laws::config_at(services, n));
            }
            assert forall|n: Seq<char>, x: IpAddr, y: Option<Seq<char>>| #[trigger]
                laws::port_at(after, n, x, y) == (if n == name {
                    None
                } else {
                    laws::port_at(services, n, x, y)
                }) by {
                table::lemma_put(mid, name, ServiceView::Unregistered(si.config()), n);
                assert(laws::port_at(mid, n, x, y) == laws::port_at(services, n, x, y));
            }
            assert forall|n: Seq<char>, x: IpAddr, y: Option<Seq<char>>, c: ClientView|
                c.proxy is Some implies #[trigger] connections::conn(after, n, x, y, c) == (
            if cascade_laws::is_affected(services, n, name) {
                None
            } else {
                connections::conn(services, n, x, y, c)
            }) by {
                table::lemma_put(mid, name, ServiceView::Unregistered(si.config()), n);
                assert(connections::conn(mid, n, x, y, c) == (if names.contains(n) {
                    None
                } else {
                    connections::conn(services, n, x, y, c)
                }));
                lemma_runs(services, n);
                assert(names.contains(n) == (cascade_laws::is_affected(services, n, name) && runs(
                    services,
                    n,
                )));
            }
        } else {
            assert(laws::config_at(mid, name) == laws::config_at(services, name));
            assert forall|n: Seq<char>, x: IpAddr, y: Option<Seq<char>>| #[trigger]
                laws::port_at(after, n, x, y) == (if n == name {
                    None
                } else {
                    laws::port_at(services, n, x, y)
                }) by {
                assert(laws::port_at(mid, n, x, y) == laws::port_at(services, n, x, y));
            }
            assert forall|n: Seq<char>, x: IpAddr, y: Option<Seq<char>>, c: ClientView|
                c.proxy is Some implies #[trigger] connections::conn(after, n, x, y, c) == (
            if cascade_laws::is_affected(services, n, name) {
                None
            } else {
                connections::conn(services, n, x, y, c)
            }) by {
                lemma_runs(services, n);
                assert(names.contains(n) == (cascade_laws::is_affected(services, n, name) && runs(
                    services,
                    n,
                )));
            }
        }
    }
}

} // verus!
