//! Finding out what changed, and bringing the services and networks in line with it.
use crate::addr::IpAddr;
use crate::orchestrator::{Orchestrator, OrchestratorView};
use crate::seqs;
use crate::services::clients::{Client, ClientView};
use crate::services::model;
use crate::services::model::{EntryView, ReplicaView, ServiceView, ServicesView};
use crate::services::service_info::{
    Entry, Place, RegisteredServiceInfo, ServiceInfo, Services, Trigger,
};
use crate::services::world;
use crate::services::world::{ChainHop, ChangeView, FilterView, NodeView, World};
use crate::table;
use crate::table::Key;
use crate::text;
use vstd::prelude::*;

verus! {

/// A change that services have to be brought in line with.
#[derive(Debug)]
pub enum ServiceChange {
    /// The service is no longer configured.
    Removed { name: String },
    /// The service is configured with other dependencies or triggers.
    DepsChanged { name: String },
    /// The service is configured to be reachable through proxies, or no longer.
    ReachabilityChanged { name: String },
    /// All replicas on a host stopped.
    ReplicasRemoved { name: String, ip: IpAddr },
    /// A single replica stopped.
    ReplicaRemoved { name: String, ip: IpAddr, docker_container: Option<String> },
    /// A proxy is gone.
    ProxyDisconnected { ip: IpAddr },
    /// A proxy client has not used its connection for too long.
    ProxyClientTimedOut { name: String, client: Client },
    /// A chain that a replica triggered has not been used for too long.
    BackendChainTimedOut {
        initiator_name: String,
        initiator_ip: IpAddr,
        initiator_docker: Option<String>,
        first_dependency: String,
    },
}

impl View for ServiceChange {
    type V = ChangeView;

    open spec fn view(&self) -> ChangeView {
        match *self {
            ServiceChange::Removed { name } => ChangeView::Removed { name: name@ },
            ServiceChange::DepsChanged { name } => ChangeView::DepsChanged { name: name@ },
            ServiceChange::ReachabilityChanged { name } => ChangeView::ReachabilityChanged {
                name: name@,
            },
            ServiceChange::ReplicasRemoved { name, ip } => ChangeView::ReplicasRemoved {
                name: name@,
                ip,
            },
            ServiceChange::ReplicaRemoved { name, ip, docker_container } =>
            ChangeView::ReplicaRemoved {
                name: name@,
                ip,
                docker_container: docker_container.deep_view(),
            },
            ServiceChange::ProxyDisconnected { ip } => ChangeView::ProxyDisconnected { ip },
            ServiceChange::ProxyClientTimedOut { name, client } =>
            ChangeView::ProxyClientTimedOut { name: name@, client: client@ },
            ServiceChange::BackendChainTimedOut {
                initiator_name,
                initiator_ip,
                initiator_docker,
                first_dependency,
            } => ChangeView::BackendChainTimedOut {
                initiator_name: initiator_name@,
                initiator_ip,
                initiator_docker: initiator_docker.deep_view(),
                first_dependency: first_dependency@,
            },
        }
    }
}

impl DeepView for ServiceChange {
    type V = ChangeView;

    open spec fn deep_view(&self) -> ChangeView {
        self@
    }
}

/// Which proxy clients of a service to disconnect.
#[derive(Debug)]
pub enum ProxyFilter {
    /// All of them.
    All,
    /// Those that come through a proxy.
    ByIp(IpAddr),
    /// A single one.
    ByClient(Client),
    /// Those on replicas in a place.
    On(Place),
}

impl View for ProxyFilter {
    type V = FilterView;

    open spec fn view(&self) -> FilterView {
        match *self {
            ProxyFilter::All => FilterView::All,
            ProxyFilter::ByIp(ip) => FilterView::ByIp(ip),
            ProxyFilter::ByClient(client) => FilterView::ByClient(client@),
            ProxyFilter::On(place) => FilterView::On(place@),
        }
    }
}

impl ProxyFilter {
    /// Whether a connection is one of a proxy client that the filter selects.
    pub fn matches(&self, entry: &Entry) -> (r: bool)
        ensures
            r == self@.selects(entry@),
    {
        match entry.client.is_proxy() {
            None => false,
            Some(proxy) => match self {
                ProxyFilter::All => true,
                ProxyFilter::ByIp(ip) => proxy == *ip,
                ProxyFilter::ByClient(client) => entry.client.same(client),
                ProxyFilter::On(place) => place.covers(entry.ip, &entry.docker_container),
            },
        }
    }
}

/// The number of replicas of all services.
fn count_replicas(services: &Services) -> (n: u128)
    ensures
        n == world::replica_count(services@),
        n < u128::MAX,
{
    let mut n: u128 = 0;
    let mut i: usize = 0;
    assert(services@.take(0) =~= Seq::empty());
    while i < services.len()
        invariant
            i <= services@.len(),
            n == world::replica_count(services@.take(i as int)),
            n <= i * 0xffff_ffff_ffff_ffff,
        decreases services@.len() - i,
    {
        assert(services@.take(i + 1).drop_last() =~= services@.take(i as int));
        if let ServiceInfo::Registered(reg) = services.value_at(i) {
            let replicas = reg.replicas();
            assert(replicas.deep_view().len() == replicas.len());
            n = n + replicas.len() as u128;
        }
        i = i + 1;
    }
    assert(services@.take(i as int) =~= services@);
    n
}

/// The edges that lead on from a replica of a service: at each replica on the way, one to each of its
/// service's own dependencies, whether it is connected to it or not. The way goes on to the last of them
/// that it is connected to.
pub fn collect_dep_chain_edges(
    service_name: &String,
    replica_ip: IpAddr,
    replica_docker: &Option<String>,
    services: &Services,
) -> (edges: Vec<(Client, String)>)
    ensures
        edges.deep_view() == world::chain_edges(
            services@,
            NodeView { name: service_name@, ip: replica_ip, docker: replica_docker.deep_view() },
        ),
{
    let ghost start = NodeView {
        name: service_name@,
        ip: replica_ip,
        docker: replica_docker.deep_view(),
    };
    let ghost limit = world::replica_count(services@) + 1;
    let mut edges: Vec<(Client, String)> = Vec::new();
    let mut current_name = service_name.clone();
    let mut current_ip = replica_ip;
    let mut current_docker = text::copy_option(replica_docker);
    let mut steps: u128 = count_replicas(services) + 1;
    assert(edges.deep_view() + start.walk(services@, steps as nat) =~= start.walk(
        services@,
        steps as nat,
    ));
    while steps > 0
        invariant
            limit == world::replica_count(services@) + 1,
            start == (NodeView {
                name: service_name@,
                ip: replica_ip,
                docker: replica_docker.deep_view(),
            }),
            edges.deep_view() + (NodeView {
                name: current_name@,
                ip: current_ip,
                docker: current_docker.deep_view(),
            }).walk(services@, steps as nat) == start.walk(services@, limit),
        decreases steps,
    {
        let ghost node = NodeView {
            name: current_name@,
            ip: current_ip,
            docker: current_docker.deep_view(),
        };
        let ghost before = edges.deep_view();
        let deps = match services.get(&current_name) {
            Some(si) => si.dependencies(),
            None => Vec::new(),
        };
        assert(deps.deep_view() =~= world::dependencies(services@, node.name));
        let client = Client::new_service(
            current_name.clone(),
            current_ip,
            text::copy_option(&current_docker),
        );
        let mut next: Option<(String, IpAddr, Option<String>)> = None;
        let mut i: usize = 0;
        while i < deps.len()
            invariant
                i <= deps.len(),
                client@ == node.client(),
                deps.deep_view() == world::dependencies(services@, node.name),
                edges.deep_view() =~= before + node.edges(services@).take(i as int),
                next.deep_view() == (match world::last_connection(
                    services@,
                    client@,
                    deps.deep_view().take(i as int),
                ) {
                    Some(n) => Some((n.name, n.ip, n.docker)),
                    None => None,
                }),
            decreases deps.len() - i,
        {
            let ghost so_far = edges.deep_view();
            let dep_name = &deps[i];
            assert(deps.deep_view()[i as int] == dep_name@);
            assert(deps.deep_view().take(i + 1).drop_last() =~= deps.deep_view().take(i as int));
            let hop = match services.get(dep_name) {
                Some(ServiceInfo::Registered(dep_reg)) => dep_reg.client_replica(&client),
                _ => None,
            };
            edges.push((client.clone(), dep_name.clone()));
            assert(edges.deep_view() =~= so_far.push(node.edges(services@)[i as int]));
            if let Some((ip, docker)) = hop {
                next = Some((dep_name.clone(), ip, docker));
            }
            i = i + 1;
        }
        assert(deps.deep_view().take(i as int) =~= deps.deep_view());
        assert(edges.deep_view() =~= before + node.edges(services@));
        match next {
            Some((name, ip, docker)) => {
                assert(edges.deep_view() + (NodeView {
                    name: name@,
                    ip,
                    docker: docker.deep_view(),
                }).walk(services@, (steps - 1) as nat) =~= before + node.walk(
                    services@,
                    steps as nat,
                ));
                current_name = name;
                current_ip = ip;
                current_docker = docker;
            },
            None => {
                assert(edges.deep_view() =~= before + node.walk(services@, steps as nat));
                return edges;
            },
        }
        steps = steps - 1;
    }
    assert(edges.deep_view() + Seq::empty() =~= edges.deep_view());
    edges
}

/// Counts one chain fewer over each of the connections.
pub(crate) fn decrement_edges(
    edges: &Vec<(Client, String)>,
    services: &mut Services,
    orchestrator: &mut Orchestrator,
)
    ensures
        (World { services: final(services)@, orch: final(orchestrator)@ }) == seqs::fold(
            World { services: old(services)@, orch: old(orchestrator)@ },
            edges.deep_view(),
            world::decrement_edge(),
        ),
{
    let ghost w = World { services: services@, orch: orchestrator@ };
    let ghost f = world::decrement_edge();
    let mut i: usize = 0;
    assert(edges.deep_view().take(0) =~= Seq::empty());
    while i < edges.len()
        invariant
            i <= edges.len(),
            f == world::decrement_edge(),
            (World { services: services@, orch: orchestrator@ }) == seqs::fold(
                w,
                edges.deep_view().take(i as int),
                f,
            ),
        decreases edges.len() - i,
    {
        let ghost before = World { services: services@, orch: orchestrator@ };
        proof {
            seqs::lemma_fold_step(w, edges.deep_view(), f, i as int);
            assert(edges.deep_view()[i as int] == (edges[i as int].0@, edges[i as int].1@));
        }
        if let Some(ServiceInfo::Registered(reg)) = services.get_mut(&edges[i].1) {
            reg.decrement_chain(&edges[i].0, orchestrator);
        }
        proof {
            reveal(World::decrement);
            world::lemma_same_service(before, edges[i as int].1@);
        }
        i = i + 1;
    }
    assert(edges.deep_view().take(i as int) =~= edges.deep_view());
}

/// The connections of the chain from a replica of a service along the service's dependencies, as far
/// as they are set up.
pub(crate) fn collect_dep_edges(
    service_name: &String,
    replica_ip: IpAddr,
    replica_docker: &Option<String>,
    services: &Services,
) -> (edges: Vec<(Client, String)>)
    ensures
        edges.deep_view() == world::dep_edges(
            services@,
            NodeView { name: service_name@, ip: replica_ip, docker: replica_docker.deep_view() },
        ),
{
    let deps = match services.get(service_name) {
        Some(si) => si.dependencies(),
        None => Vec::new(),
    };
    assert(deps.deep_view() =~= world::dependencies(services@, service_name@));
    collect_linear_edges(service_name, replica_ip, replica_docker, &deps, services)
}

/// Counts one chain fewer over each connection of the chain from a replica of a service along its
/// dependencies.
pub fn teardown_dep_chain(
    service_name: &String,
    replica_ip: IpAddr,
    replica_docker: &Option<String>,
    services: &mut Services,
    orchestrator: &mut Orchestrator,
)
    ensures
        (World { services: final(services)@, orch: final(orchestrator)@ }) == (World {
            services: old(services)@,
            orch: old(orchestrator)@,
        }).teardown_dep_chain(
            NodeView { name: service_name@, ip: replica_ip, docker: replica_docker.deep_view() },
        ),
{
    proof {
        reveal(World::teardown_dep_chain);
    }
    let edges = collect_dep_edges(service_name, replica_ip, replica_docker, services);
    decrement_edges(&edges, services, orchestrator);
}

/// The connections that a filter selects.
fn select_entries(entries: Vec<Entry>, filter: &ProxyFilter) -> (r: Vec<Entry>)
    ensures
        r.deep_view() == seqs::concat_map(entries.deep_view(), filter@.selected()),
{
    let ghost all = entries.deep_view();
    let ghost f = filter@.selected();
    let mut r = entries;
    let mut i: usize = 0;
    let ghost mut k: int = 0;
    assert(all.take(0) =~= Seq::empty());
    assert(r.deep_view().take(0) =~= Seq::empty());
    while i < r.len()
        invariant
            i <= r.len(),
            0 <= k <= all.len(),
            all.len() - k == r.len() - i,
            f == filter@.selected(),
            r.deep_view().take(i as int) == seqs::concat_map(all.take(k), f),
            forall|j: int| i <= j < r.len() ==> #[trigger] r.deep_view()[j] == all[j - i + k],
        decreases r.len() - i,
    {
        let ghost before = r.deep_view();
        proof {
            seqs::lemma_concat_map_step(all, f, k);
            assert(before[i as int] == all[k]);
        }
        if filter.matches(&r[i]) {
            i = i + 1;
            assert(before.take(i as int) =~= before.take(i - 1) + seq![all[k]]);
        } else {
            r.remove(i);
            assert(r.deep_view() =~= before.remove(i as int));
            assert(r.deep_view().take(i as int) =~= before.take(i as int) + Seq::<
                EntryView,
            >::empty());
        }
        proof {
            k = k + 1;
        }
    }
    assert(all.take(k) =~= all);
    assert(r.deep_view().take(i as int) =~= r.deep_view());
    r
}

/// Takes down the dependency chain of each connection to service `name`.
fn teardown_dep_chains(
    name: &String,
    entries: &Vec<Entry>,
    services: &mut Services,
    orchestrator: &mut Orchestrator,
)
    ensures
        (World { services: final(services)@, orch: final(orchestrator)@ }) == seqs::fold(
            World { services: old(services)@, orch: old(orchestrator)@ },
            entries.deep_view(),
            world::take_down_deps(name@),
        ),
{
    let ghost w = World { services: services@, orch: orchestrator@ };
    let ghost f = world::take_down_deps(name@);
    let mut i: usize = 0;
    assert(entries.deep_view().take(0) =~= Seq::empty());
    while i < entries.len()
        invariant
            i <= entries.len(),
            f == world::take_down_deps(name@),
            (World { services: services@, orch: orchestrator@ }) == seqs::fold(
                w,
                entries.deep_view().take(i as int),
                f,
            ),
        decreases entries.len() - i,
    {
        proof {
            seqs::lemma_fold_step(w, entries.deep_view(), f, i as int);
            assert(entries.deep_view()[i as int] == entries[i as int]@);
        }
        teardown_dep_chain(
            name,
            entries[i].ip,
            &entries[i].docker_container,
            services,
            orchestrator,
        );
        i = i + 1;
    }
    assert(entries.deep_view().take(i as int) =~= entries.deep_view());
}

/// Frees the network of each connection.
fn teardown_nets(entries: &Vec<Entry>, orchestrator: &mut Orchestrator)
    ensures
        final(orchestrator)@ == seqs::fold(
            old(orchestrator)@,
            entries.deep_view(),
            world::take_down_net(),
        ),
{
    let ghost o = orchestrator@;
    let ghost f = world::take_down_net();
    let mut i: usize = 0;
    assert(entries.deep_view().take(0) =~= Seq::empty());
    while i < entries.len()
        invariant
            i <= entries.len(),
            f == world::take_down_net(),
            orchestrator@ == seqs::fold(o, entries.deep_view().take(i as int), f),
        decreases entries.len() - i,
    {
        proof {
            seqs::lemma_fold_step(o, entries.deep_view(), f, i as int);
            assert(entries.deep_view()[i as int] == entries[i as int]@);
        }
        let e = &entries[i];
        orchestrator.send_net_teardown(
            e.info.client_ip(),
            text::copy_option(e.info.docker_container()),
            e.ip,
            text::copy_option(&e.docker_container),
            e.info.net_id(),
        );
        i = i + 1;
    }
    assert(entries.deep_view().take(i as int) =~= entries.deep_view());
}

/// Disconnects the clients of the connections from a running service.
fn remove_clients(entries: &Vec<Entry>, reg: &mut RegisteredServiceInfo)
    ensures
        final(reg)@ == seqs::fold(old(reg)@, entries.deep_view(), world::disconnect()),
{
    let ghost r = reg@;
    let ghost f = world::disconnect();
    let mut i: usize = 0;
    assert(entries.deep_view().take(0) =~= Seq::empty());
    while i < entries.len()
        invariant
            i <= entries.len(),
            f == world::disconnect(),
            reg@ == seqs::fold(r, entries.deep_view().take(i as int), f),
        decreases entries.len() - i,
    {
        proof {
            seqs::lemma_fold_step(r, entries.deep_view(), f, i as int);
            assert(entries.deep_view()[i as int] == entries[i as int]@);
        }
        reg.remove_client(&entries[i].client);
        i = i + 1;
    }
    assert(entries.deep_view().take(i as int) =~= entries.deep_view());
}

/// Takes down the proxy chains of a service that a filter selects: their dependency chains, then
/// the networks of the proxy clients, then the clients themselves.
pub fn teardown_chain(
    name: &String,
    services: &mut Services,
    orchestrator: &mut Orchestrator,
    proxy_filter: &ProxyFilter,
)
    ensures
        (World { services: final(services)@, orch: final(orchestrator)@ }) == (World {
            services: old(services)@,
            orch: old(orchestrator)@,
        }).teardown_chain(name@, proxy_filter@),
{
    proof {
        reveal(World::teardown_chain);
    }
    let entries = match services.get(name) {
        Some(ServiceInfo::Registered(reg)) => select_entries(
            reg.all_clients_owned(),
            proxy_filter,
        ),
        _ => return,
    };
    teardown_dep_chains(name, &entries, services, orchestrator);
    teardown_nets(&entries, orchestrator);
    let ghost before = World { services: services@, orch: orchestrator@ };
    if let Some(ServiceInfo::Registered(reg)) = services.get_mut(name) {
        remove_clients(&entries, reg);
    }
    proof {
        world::lemma_same_service(before, name@);
    }
}

/// Takes down the selected proxy chains of each of the services.
fn teardown_chains(
    names: &Vec<String>,
    services: &mut Services,
    orchestrator: &mut Orchestrator,
    proxy_filter: &ProxyFilter,
)
    ensures
        (World { services: final(services)@, orch: final(orchestrator)@ }) == seqs::fold(
            World { services: old(services)@, orch: old(orchestrator)@ },
            names.deep_view(),
            world::take_down(proxy_filter@),
        ),
{
    let ghost w = World { services: services@, orch: orchestrator@ };
    let ghost f = world::take_down(proxy_filter@);
    let mut i: usize = 0;
    assert(names.deep_view().take(0) =~= Seq::empty());
    while i < names.len()
        invariant
            i <= names.len(),
            f == world::take_down(proxy_filter@),
            (World { services: services@, orch: orchestrator@ }) == seqs::fold(
                w,
                names.deep_view().take(i as int),
                f,
            ),
        decreases names.len() - i,
    {
        proof {
            seqs::lemma_fold_step(w, names.deep_view(), f, i as int);
            assert(names.deep_view()[i as int] == names[i as int]@);
        }
        teardown_chain(&names[i], services, orchestrator, proxy_filter);
        i = i + 1;
    }
    assert(names.deep_view().take(i as int) =~= names.deep_view());
}

/// The running services that are, or depend on, service `name`.
pub(crate) fn dependents(name: &String, services: &Services) -> (r: Vec<String>)
    ensures
        r.deep_view() == seqs::concat_map(services@, world::dependent_on(name@)),
{
    let ghost f = world::dependent_on(name@);
    let mut r: Vec<String> = Vec::new();
    let mut i: usize = 0;
    assert(r.deep_view() =~= Seq::empty());
    assert(services@.take(0) =~= Seq::empty());
    while i < services.len()
        invariant
            i <= services@.len(),
            f == world::dependent_on(name@),
            r.deep_view() == seqs::concat_map(services@.take(i as int), f),
        decreases services@.len() - i,
    {
        let ghost before = r.deep_view();
        proof {
            seqs::lemma_concat_map_step(services@, f, i as int);
        }
        let service_name = services.key_at(i);
        let selected = match services.value_at(i) {
            ServiceInfo::Registered(reg) => *service_name == *name || text::list_contains(
                reg.dependencies(),
                name,
            ),
            ServiceInfo::Unregistered(_) => false,
        };
        if selected {
            r.push(service_name.clone());
            assert(r.deep_view() =~= before + seq![service_name@]);
        } else {
            assert(before + Seq::<Seq<char>>::empty() =~= before);
        }
        i = i + 1;
    }
    assert(services@.take(i as int) =~= services@);
    r
}

/// Takes down the proxy chains of a service and of those that depend on it. A service that failed does
/// not run any more.
pub fn teardown_invalidated_service(
    invalidated_service: &String,
    is_failed: bool,
    services: &mut Services,
    orchestrator: &mut Orchestrator,
)
    ensures
        (World { services: final(services)@, orch: final(orchestrator)@ }) == (World {
            services: old(services)@,
            orch: old(orchestrator)@,
        }).teardown_invalidated_service(invalidated_service@, is_failed),
{
    proof {
        reveal(World::teardown_invalidated_service);
    }
    let services_to_cleanup = dependents(invalidated_service, services);
    teardown_chains(&services_to_cleanup, services, orchestrator, &ProxyFilter::All);
    if is_failed {
        let unregistered = match services.get(invalidated_service) {
            Some(si) => match si {
                ServiceInfo::Registered(_) => Some(si.unregistered()),
                ServiceInfo::Unregistered(_) => None,
            },
            None => None,
        };
        if let Some(si) = unregistered {
            services.insert(invalidated_service.clone(), si);
        }
    }
}

/// Takes down the proxy chains through the replicas that the clients stand for.
fn teardown_sources(
    affected: &Vec<Client>,
    services: &mut Services,
    orchestrator: &mut Orchestrator,
)
    ensures
        (World { services: final(services)@, orch: final(orchestrator)@ }) == seqs::fold(
            World { services: old(services)@, orch: old(orchestrator)@ },
            affected.deep_view(),
            world::take_down_source(),
        ),
{
    let ghost w = World { services: services@, orch: orchestrator@ };
    let ghost f = world::take_down_source();
    let mut i: usize = 0;
    assert(affected.deep_view().take(0) =~= Seq::empty());
    while i < affected.len()
        invariant
            i <= affected.len(),
            f == world::take_down_source(),
            (World { services: services@, orch: orchestrator@ }) == seqs::fold(
                w,
                affected.deep_view().take(i as int),
                f,
            ),
        decreases affected.len() - i,
    {
        proof {
            seqs::lemma_fold_step(w, affected.deep_view(), f, i as int);
            assert(affected.deep_view()[i as int] == affected[i as int]@);
        }
        if let Some((src_ip, src_docker)) = affected[i].replica_identity() {
            teardown_chain(
                affected[i].name(),
                services,
                orchestrator,
                &ProxyFilter::On(Place::Replica(src_ip, src_docker)),
            );
        }
        i = i + 1;
    }
    assert(affected.deep_view().take(i as int) =~= affected.deep_view());
}

/// Takes down the proxy chains through the replicas of a service in a place, and removes the replicas.
/// First go the chains of services that are connected to such a replica, then those of the service
/// itself.
pub fn teardown_partial_replicas(
    name: &String,
    place: Place,
    services: &mut Services,
    orchestrator: &mut Orchestrator,
)
    ensures
        (World { services: final(services)@, orch: final(orchestrator)@ }) == (World {
            services: old(services)@,
            orch: old(orchestrator)@,
        }).teardown_partial_replicas(name@, place@).without_replicas(name@, place@),
{
    let ghost w = World { services: services@, orch: orchestrator@ };
    proof {
        reveal(World::teardown_partial_replicas);
        world::lemma_same_service(w, name@);
    }
    let affected = match services.get(name) {
        Some(ServiceInfo::Registered(reg)) => match &place {
            Place::Host(ip) => reg.service_clients_on_ip(*ip),
            Place::Replica(ip, docker) => reg.service_clients_on_replica(*ip, docker),
        },
        _ => return,
    };
    teardown_sources(&affected, services, orchestrator);
    teardown_chain(name, services, orchestrator, &ProxyFilter::On(place.clone()));
    if let Some(si) = services.get_mut(name) {
        match &place {
            Place::Host(ip) => si.remove_replicas_on_ip(*ip),
            Place::Replica(ip, docker) => si.remove_replica(*ip, docker),
        }
    }
}

/// The services that a client is connected to through proxy `ip`.
fn services_through(ip: IpAddr, services: &Services) -> (r: Vec<String>)
    ensures
        r.deep_view() == seqs::concat_map(services@, world::served_through(ip)),
{
    let ghost f = world::served_through(ip);
    let mut r: Vec<String> = Vec::new();
    let mut i: usize = 0;
    assert(r.deep_view() =~= Seq::empty());
    assert(services@.take(0) =~= Seq::empty());
    while i < services.len()
        invariant
            i <= services@.len(),
            f == world::served_through(ip),
            r.deep_view() == seqs::concat_map(services@.take(i as int), f),
        decreases services@.len() - i,
    {
        let ghost before = r.deep_view();
        proof {
            seqs::lemma_concat_map_step(services@, f, i as int);
        }
        let selected = match services.value_at(i) {
            ServiceInfo::Registered(reg) => reg.has_proxy_clients_of(ip),
            ServiceInfo::Unregistered(_) => false,
        };
        if selected {
            r.push(services.key_at(i).clone());
            assert(r.deep_view() =~= before + seq![services@[i as int].0]);
        } else {
            assert(before + Seq::<Seq<char>>::empty() =~= before);
        }
        i = i + 1;
    }
    assert(services@.take(i as int) =~= services@);
    r
}

/// The chains of those triggers that start with a dependency.
fn select_chains(triggers: &Vec<Trigger>, first: &String) -> (r: Vec<Vec<String>>)
    ensures
        r.deep_view() == seqs::concat_map(triggers.deep_view(), world::chain_starting(first@)),
{
    let ghost all = triggers.deep_view();
    let ghost f = world::chain_starting(first@);
    let mut r: Vec<Vec<String>> = Vec::new();
    let mut i: usize = 0;
    assert(r.deep_view() =~= Seq::empty());
    assert(all.take(0) =~= Seq::empty());
    while i < triggers.len()
        invariant
            i <= triggers.len(),
            all == triggers.deep_view(),
            f == world::chain_starting(first@),
            r.deep_view() == seqs::concat_map(all.take(i as int), f),
        decreases triggers.len() - i,
    {
        let ghost before = r.deep_view();
        proof {
            seqs::lemma_concat_map_step(all, f, i as int);
            assert(all[i as int] == triggers[i as int]@);
        }
        let chain = &triggers[i].chain;
        assert(chain.deep_view().len() == chain.len());
        if chain.len() > 0 && chain[0] == *first {
            r.push(text::copy_list(chain));
            assert(r.deep_view() =~= before + seq![chain.deep_view()]);
        } else {
            assert(before + Seq::<Seq<Seq<char>>>::empty() =~= before);
        }
        i = i + 1;
    }
    assert(all.take(i as int) =~= all);
    r
}

/// A replica of a service, as a node of a chain.
#[derive(Debug)]
pub struct Node {
    pub name: String,
    pub ip: IpAddr,
    pub docker: Option<String>,
}

impl View for Node {
    type V = NodeView;

    open spec fn view(&self) -> NodeView {
        NodeView { name: self.name@, ip: self.ip, docker: self.docker.deep_view() }
    }
}

impl DeepView for Node {
    type V = NodeView;

    open spec fn deep_view(&self) -> NodeView {
        self@
    }
}

/// The connections of a linear chain from a replica along `names`, as far as they are set up.
fn collect_linear_edges(
    initiator_name: &String,
    initiator_ip: IpAddr,
    initiator_docker: &Option<String>,
    names: &Vec<String>,
    services: &Services,
) -> (edges: Vec<(Client, String)>)
    ensures
        edges.deep_view() == world::linear_edges(
            services@,
            NodeView {
                name: initiator_name@,
                ip: initiator_ip,
                docker: initiator_docker.deep_view(),
            },
            names.deep_view(),
        ),
{
    let ghost all = world::linear_edges(
        services@,
        NodeView {
            name: initiator_name@,
            ip: initiator_ip,
            docker: initiator_docker.deep_view(),
        },
        names.deep_view(),
    );
    let mut edges: Vec<(Client, String)> = Vec::new();
    let mut client = Client::new_service(
        initiator_name.clone(),
        initiator_ip,
        text::copy_option(initiator_docker),
    );
    let ghost mut node = NodeView {
        name: initiator_name@,
        ip: initiator_ip,
        docker: initiator_docker.deep_view(),
    };
    let mut i: usize = 0;
    assert(names.deep_view().skip(0) =~= names.deep_view());
    assert(edges.deep_view() + all =~= all);
    while i < names.len()
        invariant
            i <= names.len(),
            all == world::linear_edges(
                services@,
                NodeView {
                    name: initiator_name@,
                    ip: initiator_ip,
                    docker: initiator_docker.deep_view(),
                },
                names.deep_view(),
            ),
            client@ == node.client(),
            edges.deep_view() + world::linear_edges(
                services@,
                node,
                names.deep_view().skip(i as int),
            ) == all,
        decreases names.len() - i,
    {
        let ghost before = edges.deep_view();
        let ghost rest = names.deep_view().skip(i as int);
        assert(rest[0] == names[i as int]@);
        assert(rest.drop_first() =~= names.deep_view().skip(i + 1));
        let hop = match services.get(&names[i]) {
            Some(ServiceInfo::Registered(reg)) => reg.client_replica(&client),
            _ => None,
        };
        match hop {
            Some((ip, docker)) => {
                edges.push((client.clone(), names[i].clone()));
                let ghost next = NodeView { name: rest[0], ip, docker: docker.deep_view() };
                assert(edges.deep_view() =~= before + seq![(node.client(), rest[0])]);
                assert(edges.deep_view() + world::linear_edges(
                    services@,
                    next,
                    rest.drop_first(),
                ) =~= before + world::linear_edges(services@, node, rest));
                client = Client::new_service(names[i].clone(), ip, docker);
                proof {
                    node = next;
                }
            },
            None => {
                assert(before + Seq::empty() =~= before);
                return edges;
            },
        }
        i = i + 1;
    }
    assert(edges.deep_view() + Seq::empty() =~= edges.deep_view());
    edges
}

/// Whether the rest of a chain from a node, along `names` without the first `done`, is connected.
pub(crate) fn chain_reaches(
    node: &Node,
    names: &Vec<String>,
    done: usize,
    services: &Services,
) -> (r: bool)
    requires
        done <= names.len(),
    ensures
        r == world::reaches(services@, node@, names.deep_view().skip(done as int)),
    decreases names.len() - done,
{
    let ghost rest = names.deep_view().skip(done as int);
    assert(names.deep_view().len() == names.len());
    if done == names.len() {
        return true;
    }
    assert(rest[0] == names[done as int]@);
    assert(rest.drop_first() =~= names.deep_view().skip(done + 1));
    let reg = match services.get(&names[done]) {
        Some(ServiceInfo::Registered(reg)) => reg,
        _ => return false,
    };
    let client = Client::new_service(
        node.name.clone(),
        node.ip,
        text::copy_option(&node.docker),
    );
    let replicas = reg.replicas();
    let mut i: usize = 0;
    assert(replicas.deep_view().len() == replicas.len());
    while i < replicas.len()
        invariant
            i <= replicas.len(),
            done < names.len(),
            rest == names.deep_view().skip(done as int),
            rest.len() > 0,
            rest[0] == names[done as int]@,
            rest.drop_first() == names.deep_view().skip(done + 1),
            client@ == node@.client(),
            replicas.deep_view() == reg@.replicas,
            replicas.len() == reg@.replicas.len(),
            model::registered(services@, rest[0]) == Some(reg@),
            forall|j: int|
                0 <= j < i ==> !(#[trigger] world::is_next(reg@, node@, j) && world::reaches(
                    services@,
                    NodeView {
                        name: rest[0],
                        ip: reg@.replicas[j].ip,
                        docker: reg@.replicas[j].docker_container,
                    },
                    rest.drop_first(),
                )),
        decreases replicas.len() - i,
    {
        assert(reg@.replicas[i as int] == replicas[i as int]@);
        if replicas[i].clients().contains_key(&client) {
            let next = Node {
                name: names[done].clone(),
                ip: replicas[i].ip(),
                docker: text::copy_option(replicas[i].docker_container()),
            };
            assert(world::is_next(reg@, node@, i as int));
            assert(next@ =~= NodeView {
                name: rest[0],
                ip: reg@.replicas[i as int].ip,
                docker: reg@.replicas[i as int].docker_container,
            });
            if chain_reaches(&next, names, done + 1, services) {
                return true;
            }
        }
        i = i + 1;
    }
    false
}

/// The trigger chains of a service that start with a dependency.
fn find_chains_from(services: &Services, name: &String, first: &String) -> (r: Vec<Vec<String>>)
    ensures
        r.deep_view() == world::chains_from(services@, name@, first@),
{
    match services.get(name) {
        Some(si) => select_chains(si.triggers(), first),
        None => {
            let r: Vec<Vec<String>> = Vec::new();
            assert(r.deep_view() =~= Seq::empty());
            r
        },
    }
}

/// Marks the connection of a client to a replica or not as the entry of a backend chain.
pub(crate) fn mark_entry(
    client: &Client,
    at: &Node,
    is_backend_entry: bool,
    services: &mut Services,
)
    ensures
        forall|orch: OrchestratorView|
            (World { services: final(services)@, orch }) == #[trigger] (World {
                services: old(services)@,
                orch,
            }).marked_at(client@, at@, is_backend_entry),
{
    let ghost before = services@;
    if let Some(ServiceInfo::Registered(reg)) = services.get_mut(&at.name) {
        reg.mark_entry(client, at.ip, &at.docker, is_backend_entry);
    }
    proof {
        reveal(World::marked_at);
        assert forall|orch: OrchestratorView|
            (World { services: services@, orch }) == #[trigger] (World {
                services: before,
                orch,
            }).marked_at(client@, at@, is_backend_entry) by {
            world::lemma_same_service(World { services: before, orch }, at@.name);
        }
    }
}

/// The replica of a service that the backend chains of a client lead to.
pub(crate) fn find_entry(client: &Client, name: &String, services: &Services) -> (r: Option<Node>)
    ensures
        r.deep_view() == world::entry_connection(services@, client@, name@),
{
    match services.get(name) {
        Some(ServiceInfo::Registered(reg)) => match reg.entry_replica(client) {
            Some((ip, docker)) => Some(Node { name: name.clone(), ip, docker }),
            None => None,
        },
        _ => None,
    }
}

/// The way of a chain that a replica of a service triggers, as far as it is set up.
fn collect_backend_path(
    initiator: &Node,
    chain: &Vec<String>,
    services: &Services,
) -> (hops: Vec<(Client, Node)>)
    ensures
        hops.deep_view() == world::backend_path(services@, initiator@, chain.deep_view()),
{
    let ghost names = chain.deep_view();
    let ghost all = world::backend_path(services@, initiator@, names);
    let mut hops: Vec<(Client, Node)> = Vec::new();
    assert(hops.deep_view() =~= Seq::empty());
    assert(names.len() == chain.len());
    if chain.len() == 0 {
        return hops;
    }
    assert(names[0] == chain[0]@);
    let mut client = Client::new_service(
        initiator.name.clone(),
        initiator.ip,
        text::copy_option(&initiator.docker),
    );
    let mut next = find_entry(&client, &chain[0], services);
    let mut i: usize = 0;
    let ghost mut rest = all;
    assert(hops.deep_view() + all =~= all);
    while i < chain.len()
        invariant
            i <= chain.len(),
            names == chain.deep_view(),
            names.len() == chain.len(),
            all == world::backend_path(services@, initiator@, names),
            hops.deep_view() + rest == all,
            i < chain.len() ==> rest == (match next.deep_view() {
                Some(node) => seq![(client@, node)] + world::path(services@, node, names.skip(i + 1)),
                None => Seq::empty(),
            }),
            i == chain.len() ==> rest == Seq::<ChainHop>::empty(),
        decreases chain.len() - i,
    {
        let ghost before = hops.deep_view();
        let node = match next {
            Some(node) => node,
            None => {
                assert(before + Seq::<ChainHop>::empty() =~= before);
                return hops;
            },
        };
        let ghost at = node@;
        let ghost from = client@;
        let ghost tail = names.skip(i + 1);
        let ghost left = world::path(services@, at, tail);
        let onward = Client::new_service(
            node.name.clone(),
            node.ip,
            text::copy_option(&node.docker),
        );
        hops.push((client, node));
        assert(hops.deep_view() =~= before.push((from, at)));
        assert(before + (seq![(from, at)] + left) =~= hops.deep_view() + left);
        i = i + 1;
        next = None;
        if i < chain.len() {
            assert(tail[0] == chain[i as int]@);
            assert(tail.drop_first() =~= names.skip(i + 1));
            next = match services.get(&chain[i]) {
                Some(ServiceInfo::Registered(reg)) => match reg.client_replica(&onward) {
                    Some((ip, docker)) => Some(Node { name: chain[i].clone(), ip, docker }),
                    None => None,
                },
                _ => None,
            };
            assert(next.deep_view() == world::connection(services@, at.client(), tail[0]));
        }
        client = onward;
        proof {
            rest = left;
        }
    }
    assert(hops.deep_view() + Seq::<ChainHop>::empty() =~= hops.deep_view());
    hops
}

/// The ways of the chains that a node triggers and that are set up as a whole.
fn collect_whole_paths(node: &Node, chains: &Vec<Vec<String>>, services: &Services) -> (hops: Vec<
    (Client, Node),
>)
    ensures
        hops.deep_view() == seqs::concat_map(
            chains.deep_view(),
            world::whole_path(services@, node@),
        ),
{
    let ghost all = chains.deep_view();
    let ghost f = world::whole_path(services@, node@);
    let mut hops: Vec<(Client, Node)> = Vec::new();
    let mut i: usize = 0;
    assert(hops.deep_view() =~= Seq::empty());
    assert(all.take(0) =~= Seq::empty());
    while i < chains.len()
        invariant
            i <= chains.len(),
            all == chains.deep_view(),
            f == world::whole_path(services@, node@),
            hops.deep_view() == seqs::concat_map(all.take(i as int), f),
        decreases chains.len() - i,
    {
        let ghost before = hops.deep_view();
        proof {
            seqs::lemma_concat_map_step(all, f, i as int);
            assert(all[i as int] == chains[i as int].deep_view());
        }
        let mut found = collect_backend_path(node, &chains[i], services);
        assert(found.deep_view().len() == found.len());
        assert(all[i as int].len() == chains[i as int].len());
        if found.len() == chains[i].len() {
            let ghost more = found.deep_view();
            hops.append(&mut found);
            assert(hops.deep_view() =~= before + more);
        } else {
            assert(before + Seq::<ChainHop>::empty() =~= before);
        }
        i = i + 1;
    }
    assert(all.take(i as int) =~= all);
    hops
}

/// Counts one chain fewer over each of the connections to replicas.
fn decrement_hops(
    hops: &Vec<(Client, Node)>,
    services: &mut Services,
    orchestrator: &mut Orchestrator,
)
    ensures
        (World { services: final(services)@, orch: final(orchestrator)@ }) == seqs::fold(
            World { services: old(services)@, orch: old(orchestrator)@ },
            hops.deep_view(),
            world::decrement_hop(),
        ),
{
    let ghost w = World { services: services@, orch: orchestrator@ };
    let ghost f = world::decrement_hop();
    let mut i: usize = 0;
    assert(hops.deep_view().take(0) =~= Seq::empty());
    while i < hops.len()
        invariant
            i <= hops.len(),
            f == world::decrement_hop(),
            (World { services: services@, orch: orchestrator@ }) == seqs::fold(
                w,
                hops.deep_view().take(i as int),
                f,
            ),
        decreases hops.len() - i,
    {
        let (client, at) = &hops[i];
        let ghost before = World { services: services@, orch: orchestrator@ };
        proof {
            seqs::lemma_fold_step(w, hops.deep_view(), f, i as int);
            assert(hops.deep_view()[i as int] == (client@, at@));
            world::lemma_same_service(before, at@.name);
            reveal(World::decrement_at);
        }
        if let Some(ServiceInfo::Registered(reg)) = services.get_mut(&at.name) {
            reg.decrement_chain_on_replica(client, at.ip, &at.docker, orchestrator);
        }
        i = i + 1;
    }
    assert(hops.deep_view().take(i as int) =~= hops.deep_view());
}

/// Counts one chain fewer over each connection of the chains that a replica triggered and that start
/// with a dependency. The connection to it is their entry no more.
pub fn teardown_backend_chain(
    initiator: &Node,
    first_dependency: &String,
    services: &mut Services,
    orchestrator: &mut Orchestrator,
)
    ensures
        (World { services: final(services)@, orch: final(orchestrator)@ }) == (World {
            services: old(services)@,
            orch: old(orchestrator)@,
        }).teardown_backend_chain(initiator@, first_dependency@),
{
    proof {
        reveal(World::teardown_backend_chain);
    }
    let client = Client::new_service(
        initiator.name.clone(),
        initiator.ip,
        text::copy_option(&initiator.docker),
    );
    let entry = find_entry(&client, first_dependency, services);
    let chains = find_chains_from(services, &initiator.name, first_dependency);
    let mut hops = collect_whole_paths(initiator, &chains, services);
    assert(hops.deep_view().len() == hops.len());
    assert(chains.deep_view().len() == chains.len());
    if hops.len() == 0 {
        if chains.len() > 0 {
            assert(chains.deep_view()[0] == chains[0].deep_view());
            hops = collect_backend_path(initiator, &chains[0], services);
        } else {
            let mut names: Vec<String> = Vec::new();
            names.push(first_dependency.clone());
            assert(names.deep_view() =~= seq![first_dependency@]);
            hops = collect_backend_path(initiator, &names, services);
        }
    }
    decrement_hops(&hops, services, orchestrator);
    if let Some(at) = &entry {
        mark_entry(&client, at, false, services);
    }
}

/// Brings the services and networks in line with one change.
fn apply_change(change: ServiceChange, services: &mut Services, orchestrator: &mut Orchestrator)
    ensures
        (World { services: final(services)@, orch: final(orchestrator)@ }) == (World {
            services: old(services)@,
            orch: old(orchestrator)@,
        }).apply(change@),
{
    let ghost w = World { services: services@, orch: orchestrator@ };
    proof {
        reveal(World::apply);
    }
    match change {
        ServiceChange::Removed { name } => {
            teardown_invalidated_service(&name, true, services, orchestrator);
            services.remove(&name);
        },
        ServiceChange::DepsChanged { name } => {
            teardown_invalidated_service(&name, false, services, orchestrator);
        },
        ServiceChange::ReachabilityChanged { name } => {
            teardown_chain(&name, services, orchestrator, &ProxyFilter::All);
        },
        ServiceChange::ReplicasRemoved { name, ip } => {
            let is_last = match services.get(&name) {
                Some(ServiceInfo::Registered(reg)) => reg.runs_only_on(ip),
                _ => false,
            };
            if is_last {
                // the last replicas are gone: dependents are affected as well
                teardown_invalidated_service(&name, true, services, orchestrator);
            } else {
                teardown_partial_replicas(&name, Place::Host(ip), services, orchestrator);
            }
        },
        ServiceChange::ReplicaRemoved { name, ip, docker_container } => {
            let is_last = match services.get(&name) {
                Some(ServiceInfo::Registered(reg)) => {
                    let replicas = reg.replicas();
                    assert(replicas.deep_view().len() == replicas.len());
                    replicas.len() == 1
                },
                _ => false,
            };
            if is_last {
                teardown_invalidated_service(&name, true, services, orchestrator);
            } else {
                teardown_partial_replicas(
                    &name,
                    Place::Replica(ip, docker_container),
                    services,
                    orchestrator,
                );
            }
        },
        ServiceChange::ProxyDisconnected { ip } => {
            let proxy_services = services_through(ip, services);
            teardown_chains(&proxy_services, services, orchestrator, &ProxyFilter::ByIp(ip));
        },
        ServiceChange::ProxyClientTimedOut { name, client } => {
            teardown_chain(&name, services, orchestrator, &ProxyFilter::ByClient(client));
        },
        ServiceChange::BackendChainTimedOut {
            initiator_name,
            initiator_ip,
            initiator_docker,
            first_dependency,
        } => {
            let initiator = Node {
                name: initiator_name,
                ip: initiator_ip,
                docker: initiator_docker,
            };
            teardown_backend_chain(&initiator, &first_dependency, services, orchestrator);
        },
    }
}

/// Takes a loaded configuration over: services that are present keep their replicas, new ones are
/// added.
fn merge_loaded(services: &mut Services, loaded: &Services)
    ensures
        final(services)@ == seqs::fold(old(services)@, loaded@, world::merge_service()),
{
    let ghost s = services@;
    let ghost f = world::merge_service();
    let mut i: usize = 0;
    assert(loaded@.take(0) =~= Seq::empty());
    while i < loaded.len()
        invariant
            i <= loaded@.len(),
            f == world::merge_service(),
            services@ == seqs::fold(s, loaded@.take(i as int), f),
        decreases loaded@.len() - i,
    {
        proof {
            seqs::lemma_fold_step(s, loaded@, f, i as int);
        }
        let name = loaded.key_at(i);
        let loaded_info = loaded.value_at(i);
        if services.contains_key(name) {
            if let Some(existing) = services.get_mut(name) {
                existing.update_from_file(loaded_info);
            }
        } else {
            services.insert(name.clone(), loaded_info.clone());
        }
        i = i + 1;
    }
    assert(loaded@.take(i as int) =~= loaded@);
}

/// Brings the services and networks in line with changes, one after the other, and then takes over
/// a loaded configuration where one is given.
pub fn apply_changes(
    changes: Vec<ServiceChange>,
    services: &mut Services,
    loaded_services: Option<&Services>,
    orchestrator: &mut Orchestrator,
)
    ensures
        (World { services: final(services)@, orch: final(orchestrator)@ }) == ({
            let w = (World { services: old(services)@, orch: old(orchestrator)@ }).apply_all(
                changes.deep_view(),
            );
            match loaded_services {
                Some(loaded) => w.merged(loaded@),
                None => w,
            }
        }),
{
    let ghost w = World { services: services@, orch: orchestrator@ };
    let ghost all = changes.deep_view();
    let ghost f = world::apply_change();
    let mut changes = changes;
    let ghost mut k: int = 0;
    assert(all.take(0) =~= Seq::empty());
    while changes.len() > 0
        invariant
            0 <= k <= all.len(),
            changes.deep_view() =~= all.skip(k),
            f == world::apply_change(),
            (World { services: services@, orch: orchestrator@ }) == seqs::fold(w, all.take(k), f),
        decreases changes.len(),
    {
        proof {
            assert(changes.deep_view().len() == changes.len());
            assert(changes.deep_view()[0] == all[k]);
            seqs::lemma_fold_step(w, all, f, k);
        }
        let ghost before = changes.deep_view();
        let change = changes.remove(0);
        assert(change@ == before[0]);
        assert(changes.deep_view() =~= before.remove(0));
        assert(before.remove(0) =~= all.skip(k + 1));
        apply_change(change, services, orchestrator);
        proof {
            k = k + 1;
        }
    }
    proof {
        assert(changes.deep_view().len() == changes.len());
        assert(all.take(k) =~= all);
    }
    if let Some(loaded) = loaded_services {
        merge_loaded(services, loaded);
    }
}

/// A function that reports a service that is no longer configured.
pub open spec fn removed_service(loaded: ServicesView) -> spec_fn((Seq<char>, ServiceView)) -> Seq<
    ChangeView,
> {
    |s: (Seq<char>, ServiceView)|
        if table::has_key(loaded, s.0) {
            Seq::empty()
        } else {
            seq![ChangeView::Removed { name: s.0 }]
        }
}

/// Whether timeout `new` ends connections that timeout `old` lets live. Zero stands for no timeout.
pub open spec fn is_tighter(new: u64, old: u64) -> bool {
    new > 0 && (old == 0 || new < old)
}

/// The nanoseconds of a number of seconds.
pub open spec fn nanos(secs: u64) -> nat {
    (secs * 1_000_000_000) as nat
}

/// A function that reports that a proxy client of service `name` timed out.
pub open spec fn timed_out(name: Seq<char>) -> spec_fn(ClientView) -> ChangeView {
    |client: ClientView| ChangeView::ProxyClientTimedOut { name, client }
}

/// What changed for a service that is configured before and after.
pub open spec fn config_change(
    name: Seq<char>,
    old: ServiceView,
    loaded: ServiceView,
    now: nat,
) -> Seq<ChangeView> {
    if loaded.config().dependencies != old.config().dependencies {
        seq![ChangeView::DepsChanged { name }]
    } else {
        match (loaded.config().timeout, old.config().timeout, old) {
            (Some(new), Some(previous), ServiceView::Registered(reg)) => if is_tighter(
                new,
                previous,
            ) {
                reg.expired(nanos(new), now).map_values(timed_out(name))
            } else {
                Seq::empty()
            },
            (Some(_), Some(_), _) => Seq::empty(),
            (None, None, _) => Seq::empty(),
            _ => seq![ChangeView::ReachabilityChanged { name }],
        }
    }
}

/// A function that reports what changed for a loaded service.
pub open spec fn changed_service(
    current: ServicesView,
    now: nat,
) -> spec_fn((Seq<char>, ServiceView)) -> Seq<ChangeView> {
    |s: (Seq<char>, ServiceView)|
        match table::lookup(current, s.0) {
            Some(old) => config_change(s.0, old, s.1, now),
            None => Seq::empty(),
        }
}

/// What a loaded configuration changes: the services that it lacks, then for each service that it
/// holds what is different.
pub open spec fn config_changes(
    current: ServicesView,
    loaded: ServicesView,
    now: nat,
) -> Seq<ChangeView> {
    seqs::concat_map(current, removed_service(loaded)) + seqs::concat_map(
        loaded,
        changed_service(current, now),
    )
}

/// The nanoseconds of a number of seconds.
pub fn secs_to_nanos(secs: u64) -> (r: u128)
    ensures
        r == nanos(secs),
{
    secs as u128 * 1_000_000_000
}

/// Reports each client as timed out.
pub(crate) fn push_timed_out(name: &String, clients: Vec<Client>, changes: &mut Vec<ServiceChange>)
    ensures
        final(changes).deep_view() == old(changes).deep_view() + clients.deep_view().map_values(
            timed_out(name@),
        ),
{
    let ghost all = clients.deep_view().map_values(timed_out(name@));
    let mut i: usize = 0;
    assert(all.take(0) =~= Seq::empty());
    while i < clients.len()
        invariant
            i <= clients.len(),
            all == clients.deep_view().map_values(timed_out(name@)),
            changes.deep_view() =~= old(changes).deep_view() + all.take(i as int),
        decreases clients.len() - i,
    {
        let ghost before = changes.deep_view();
        changes.push(
            ServiceChange::ProxyClientTimedOut { name: name.clone(), client: clients[i].clone() },
        );
        assert(changes.deep_view() =~= before.push(all[i as int]));
        i = i + 1;
    }
    assert(all.take(i as int) =~= all);
}

/// Reports what changed for a service that is configured before and after.
fn push_config_change(
    name: &String,
    old_info: &ServiceInfo,
    loaded_info: &ServiceInfo,
    now: u128,
    changes: &mut Vec<ServiceChange>,
)
    ensures
        final(changes).deep_view() == old(changes).deep_view() + config_change(
            name@,
            old_info@,
            loaded_info@,
            now as nat,
        ),
{
    let ghost before = changes.deep_view();
    assert(before + Seq::<ChangeView>::empty() =~= before);
    if !text::same_list(&loaded_info.dependencies(), &old_info.dependencies()) {
        changes.push(ServiceChange::DepsChanged { name: name.clone() });
        assert(changes.deep_view() =~= before + seq![ChangeView::DepsChanged { name: name@ }]);
    } else {
        match (loaded_info.is_proxy_reachable(), old_info.is_proxy_reachable()) {
            (Some(new_timeout), Some(old_timeout)) => {
                if new_timeout > 0 && (old_timeout == 0 || new_timeout < old_timeout) {
                    // tightened or introduced: clients may already be past the new limit
                    if let ServiceInfo::Registered(reg) = old_info {
                        let expired = reg.expired_proxy_clients(secs_to_nanos(new_timeout), now);
                        push_timed_out(name, expired, changes);
                    }
                }
            },
            (None, None) => {},
            _ => {
                changes.push(ServiceChange::ReachabilityChanged { name: name.clone() });
                assert(changes.deep_view() =~= before + seq![
                    ChangeView::ReachabilityChanged { name: name@ },
                ]);
            },
        }
    }
}

/// Finds out what a loaded configuration changes.
pub fn detect_config_changes(current: &Services, loaded: &Services, now: u128) -> (changes: Vec<
    ServiceChange,
>)
    ensures
        changes.deep_view() == config_changes(current@, loaded@, now as nat),
{
    let mut changes: Vec<ServiceChange> = Vec::new();

    // services that are no longer configured
    let ghost f = removed_service(loaded@);
    let mut i: usize = 0;
    assert(changes.deep_view() =~= Seq::empty());
    assert(current@.take(0) =~= Seq::empty());
    while i < current.len()
        invariant
            i <= current@.len(),
            f == removed_service(loaded@),
            changes.deep_view() == seqs::concat_map(current@.take(i as int), f),
        decreases current@.len() - i,
    {
        let ghost before = changes.deep_view();
        proof {
            seqs::lemma_concat_map_step(current@, f, i as int);
        }
        let name = current.key_at(i);
        if !loaded.contains_key(name) {
            changes.push(ServiceChange::Removed { name: name.clone() });
            assert(changes.deep_view() =~= before + seq![ChangeView::Removed { name: name@ }]);
        } else {
            assert(before + Seq::<ChangeView>::empty() =~= before);
        }
        i = i + 1;
    }
    assert(current@.take(i as int) =~= current@);

    // services with other dependencies, reachability or timeout
    let ghost removed = changes.deep_view();
    let ghost g = changed_service(current@, now as nat);
    let mut i: usize = 0;
    assert(loaded@.take(0) =~= Seq::empty());
    assert(changes.deep_view() =~= removed + Seq::<ChangeView>::empty());
    while i < loaded.len()
        invariant
            i <= loaded@.len(),
            g == changed_service(current@, now as nat),
            changes.deep_view() == removed + seqs::concat_map(loaded@.take(i as int), g),
        decreases loaded@.len() - i,
    {
        let ghost so_far = seqs::concat_map(loaded@.take(i as int), g);
        let ghost step = g(loaded@[i as int]);
        proof {
            seqs::lemma_concat_map_step(loaded@, g, i as int);
            assert((removed + so_far) + step =~= removed + (so_far + step));
        }
        let name = loaded.key_at(i);
        if let Some(old_info) = current.get(name) {
            push_config_change(name, old_info, loaded.value_at(i), now, &mut changes);
        } else {
            assert((removed + so_far) + step =~= removed + so_far);
        }
        i = i + 1;
    }
    assert(loaded@.take(i as int) =~= loaded@);
    changes
}

/// A service that a host offers: its name, its port and its container.
pub type OfferView = (Seq<char>, u16, Option<Seq<char>>);

/// Whether a host offers service `name` in container `docker`.
pub open spec fn offers(list: Seq<OfferView>, name: Seq<char>, docker: Option<Seq<char>>) -> bool {
    exists|i: int| 0 <= i < list.len() && (#[trigger] list[i]).0 == name && list[i].2 == docker
}

/// A function that reports a replica of service `name` at `sender_ip` that is not offered.
pub open spec fn withdrawn_replica(
    name: Seq<char>,
    sender_ip: IpAddr,
    list: Seq<OfferView>,
) -> spec_fn(ReplicaView) -> Seq<ChangeView> {
    |r: ReplicaView|
        if r.ip == sender_ip && !offers(list, name, r.docker_container) {
            seq![
                ChangeView::ReplicaRemoved {
                    name,
                    ip: sender_ip,
                    docker_container: r.docker_container,
                },
            ]
        } else {
            Seq::empty()
        }
}

/// A function that reports the replicas of a service at `sender_ip` that are not offered.
pub open spec fn withdrawn_service(
    sender_ip: IpAddr,
    list: Seq<OfferView>,
) -> spec_fn((Seq<char>, ServiceView)) -> Seq<ChangeView> {
    |s: (Seq<char>, ServiceView)|
        seqs::concat_map(s.1.replicas(), withdrawn_replica(s.0, sender_ip, list))
}

/// What the list of services that a host offers changes: its replicas that are not on it.
pub open spec fn list_changes(
    current: ServicesView,
    sender_ip: IpAddr,
    list: Seq<OfferView>,
) -> Seq<ChangeView> {
    seqs::concat_map(current, withdrawn_service(sender_ip, list))
}

/// Whether a host offers service `name` in container `docker`.
fn is_offered(
    list: &Vec<(String, u16, Option<String>)>,
    name: &String,
    docker: &Option<String>,
) -> (r: bool)
    ensures
        r == offers(list.deep_view(), name@, docker.deep_view()),
{
    let mut i: usize = 0;
    while i < list.len()
        invariant
            i <= list.len(),
            forall|j: int|
                0 <= j < i ==> !((#[trigger] list.deep_view()[j]).0 == name@
                    && list.deep_view()[j].2 == docker.deep_view()),
        decreases list.len() - i,
    {
        assert(list.deep_view()[i as int] == list[i as int].deep_view());
        if list[i].0 == *name && text::same_option(&list[i].2, docker) {
            return true;
        }
        i = i + 1;
    }
    false
}

/// Reports the replicas of a service at `sender_ip` that are not offered.
fn push_withdrawn(
    name: &String,
    reg: &RegisteredServiceInfo,
    sender_ip: IpAddr,
    service_list: &Vec<(String, u16, Option<String>)>,
    changes: &mut Vec<ServiceChange>,
)
    ensures
        final(changes).deep_view() == old(changes).deep_view() + seqs::concat_map(
            reg@.replicas,
            withdrawn_replica(name@, sender_ip, service_list.deep_view()),
        ),
{
    let ghost f = withdrawn_replica(name@, sender_ip, service_list.deep_view());
    let ghost start = changes.deep_view();
    let replicas = reg.replicas();
    let ghost rs = reg@.replicas;
    let mut i: usize = 0;
    assert(rs.take(0) =~= Seq::empty());
    assert(start =~= start + Seq::<ChangeView>::empty());
    while i < replicas.len()
        invariant
            i <= replicas.len(),
            rs == replicas.deep_view(),
            f == withdrawn_replica(name@, sender_ip, service_list.deep_view()),
            changes.deep_view() == start + seqs::concat_map(rs.take(i as int), f),
        decreases replicas.len() - i,
    {
        let ghost before = changes.deep_view();
        let ghost so_far = seqs::concat_map(rs.take(i as int), f);
        let ghost step = f(rs[i as int]);
        proof {
            seqs::lemma_concat_map_step(rs, f, i as int);
            assert((start + so_far) + step =~= start + (so_far + step));
            assert(rs[i as int] == replicas[i as int]@);
        }
        let replica = &replicas[i];
        if replica.ip() == sender_ip && !is_offered(
            service_list,
            name,
            replica.docker_container(),
        ) {
            changes.push(
                ServiceChange::ReplicaRemoved {
                    name: name.clone(),
                    ip: sender_ip,
                    docker_container: text::copy_option(replica.docker_container()),
                },
            );
            assert(changes.deep_view() =~= before + step);
        } else {
            assert(before + step =~= before);
        }
        i = i + 1;
    }
    assert(rs.take(i as int) =~= rs);
}

/// Finds out which replicas on a host are not on the list of services that it offers.
pub fn detect_services_list_changes(
    current: &Services,
    sender_ip: IpAddr,
    service_list: &Vec<(String, u16, Option<String>)>,
) -> (changes: Vec<ServiceChange>)
    ensures
        changes.deep_view() == list_changes(current@, sender_ip, service_list.deep_view()),
{
    let ghost f = withdrawn_service(sender_ip, service_list.deep_view());
    let mut changes: Vec<ServiceChange> = Vec::new();
    let mut i: usize = 0;
    assert(changes.deep_view() =~= Seq::empty());
    assert(current@.take(0) =~= Seq::empty());
    while i < current.len()
        invariant
            i <= current@.len(),
            f == withdrawn_service(sender_ip, service_list.deep_view()),
            changes.deep_view() == seqs::concat_map(current@.take(i as int), f),
        decreases current@.len() - i,
    {
        let ghost before = changes.deep_view();
        proof {
            seqs::lemma_concat_map_step(current@, f, i as int);
        }
        if let ServiceInfo::Registered(reg) = current.value_at(i) {
            push_withdrawn(current.key_at(i), reg, sender_ip, service_list, &mut changes);
        } else {
            assert(f(current@[i as int]) =~= Seq::empty());
            assert(before + Seq::<ChangeView>::empty() =~= before);
        }
        i = i + 1;
    }
    assert(current@.take(i as int) =~= current@);
    changes
}

/// A function that reports a service with replicas on a host.
pub open spec fn lost_replicas(ip: IpAddr) -> spec_fn((Seq<char>, ServiceView)) -> Seq<ChangeView> {
    |s: (Seq<char>, ServiceView)|
        match s.1 {
            ServiceView::Registered(reg) => if reg.runs_on(ip) {
                seq![ChangeView::ReplicasRemoved { name: s.0, ip }]
            } else {
                Seq::empty()
            },
            ServiceView::Unregistered(_) => Seq::empty(),
        }
}

/// What the loss of a host changes: the services that run on it lose replicas, and the clients that
/// are connected through it lose their proxy.
pub open spec fn disconnect_changes(current: ServicesView, ip: IpAddr) -> Seq<ChangeView> {
    seqs::concat_map(current, lost_replicas(ip)) + if seqs::concat_map(
        current,
        world::served_through(ip),
    ).len() > 0 {
        seq![ChangeView::ProxyDisconnected { ip }]
    } else {
        Seq::empty()
    }
}

/// Finds out what the loss of a host changes.
pub fn detect_node_disconnect_changes(current: &Services, disconnected_ip: IpAddr) -> (changes: Vec<
    ServiceChange,
>)
    ensures
        changes.deep_view() == disconnect_changes(current@, disconnected_ip),
{
    let ghost f = lost_replicas(disconnected_ip);
    let mut changes: Vec<ServiceChange> = Vec::new();
    let mut i: usize = 0;
    assert(changes.deep_view() =~= Seq::empty());
    assert(current@.take(0) =~= Seq::empty());
    while i < current.len()
        invariant
            i <= current@.len(),
            f == lost_replicas(disconnected_ip),
            changes.deep_view() == seqs::concat_map(current@.take(i as int), f),
        decreases current@.len() - i,
    {
        let ghost before = changes.deep_view();
        proof {
            seqs::lemma_concat_map_step(current@, f, i as int);
        }
        let hit = match current.value_at(i) {
            ServiceInfo::Registered(reg) => reg.has_replica_on_ip(disconnected_ip),
            ServiceInfo::Unregistered(_) => false,
        };
        if hit {
            changes.push(
                ServiceChange::ReplicasRemoved {
                    name: current.key_at(i).clone(),
                    ip: disconnected_ip,
                },
            );
            assert(changes.deep_view() =~= before + f(current@[i as int]));
        } else {
            assert(before + Seq::<ChangeView>::empty() =~= before);
        }
        i = i + 1;
    }
    assert(current@.take(i as int) =~= current@);
    let ghost lost = changes.deep_view();
    let through = services_through(disconnected_ip, current);
    assert(through.deep_view().len() == through.len());
    if through.len() > 0 {
        changes.push(ServiceChange::ProxyDisconnected { ip: disconnected_ip });
        assert(changes.deep_view() =~= lost + seq![
            ChangeView::ProxyDisconnected { ip: disconnected_ip },
        ]);
    } else {
        assert(lost + Seq::<ChangeView>::empty() =~= lost);
    }
    changes
}

} // verus!
