//! The requests of proxies and hosts.
use crate::addr::IpAddr;
use crate::chain_setup;
use crate::chain_setup::{EdgeOutcome, OutcomeView};
use crate::net::Net;
use crate::orchestrator::{Orchestrator, OrchestratorView};
use crate::seqs;
use crate::services::changes;
use crate::services::changes::{
    apply_changes, chain_reaches, collect_dep_edges, detect_services_list_changes, find_entry,
    mark_entry, Node, OfferView,
};
use crate::services::clients;
use crate::services::clients::{Client, ClientInfo, ClientView};
use crate::services::edge::{EdgeView, RegisteredEdge, RegisteredEdgeView};
use crate::services::model;
use crate::services::model::{
    ConfigView, EntryView, RegisteredView, ReplicaView, ServiceView, ServicesView, TriggerView,
    UpstreamView,
};
use crate::services::room;
use crate::services::service_info::{
    Entry, RegisteredServiceInfo, ServiceInfo, Services, Trigger, Upstream,
};
use crate::services::world;
use crate::services::world::{ChainEdge, NodeView, World};
use crate::table;
use crate::text;
use vstd::prelude::*;

verus! {

/// Why a request is refused.
#[derive(Clone, Copy, PartialEq, Eq, Structural, Debug)]
pub enum RequestError {
    ServiceNotFound,
    NotEntryPoint,
    NotRegistered,
    NoReplicas,
    DependencyNotRegistered,
    SetupFailed,
    NoUpstream,
    InitiatorNotFound,
    InitiatorNotEntryPoint,
    InitiatorNotRegistered,
    NoInitiatorReplica,
    NoDependencies,
    InvalidPort,
}

impl RequestError {
    /// The reason in words.
    pub open spec fn reason(self) -> Seq<char> {
        match self {
            RequestError::ServiceNotFound => "Service not found"@,
            RequestError::NotEntryPoint => "Service is not a configured entry point"@,
            RequestError::NotRegistered => "Service is not registered"@,
            RequestError::NoReplicas => "Service has no replicas"@,
            RequestError::DependencyNotRegistered => "Dependency not registered"@,
            RequestError::SetupFailed => "NET chain setup failed"@,
            RequestError::NoUpstream => "No valid upstream IP found after NET chain setup"@,
            RequestError::InitiatorNotFound => "Initiator service not found"@,
            RequestError::InitiatorNotEntryPoint =>
            "Initiator service is not a configured entry point"@,
            RequestError::InitiatorNotRegistered => "Initiator service is not registered"@,
            RequestError::NoInitiatorReplica => "No initiator replica found on sender host"@,
            RequestError::NoDependencies => "Initiator service has no dependencies"@,
            RequestError::InvalidPort => "Port is out of range"@,
        }
    }

    /// The reason in words.
    pub fn message(&self) -> (r: &'static str)
        ensures
            r@ == self.reason(),
    {
        match self {
            RequestError::ServiceNotFound => "Service not found",
            RequestError::NotEntryPoint => "Service is not a configured entry point",
            RequestError::NotRegistered => "Service is not registered",
            RequestError::NoReplicas => "Service has no replicas",
            RequestError::DependencyNotRegistered => "Dependency not registered",
            RequestError::SetupFailed => "NET chain setup failed",
            RequestError::NoUpstream => "No valid upstream IP found after NET chain setup",
            RequestError::InitiatorNotFound => "Initiator service not found",
            RequestError::InitiatorNotEntryPoint =>
            "Initiator service is not a configured entry point",
            RequestError::InitiatorNotRegistered => "Initiator service is not registered",
            RequestError::NoInitiatorReplica => "No initiator replica found on sender host",
            RequestError::NoDependencies => "Initiator service has no dependencies",
            RequestError::InvalidPort => "Port is out of range",
        }
    }
}

/// The controller: the services, and the orchestrator of the networks between them.
#[derive(Debug)]
pub struct NullnetGrpcImpl {
    pub services: Services,
    pub orchestrator: Orchestrator,
}

impl View for NullnetGrpcImpl {
    type V = World;

    open spec fn view(&self) -> World {
        World { services: self.services@, orch: self.orchestrator@ }
    }
}

/// A chain to set up for a proxy client.
#[derive(Debug)]
pub struct ProxyChain {
    /// The edges of the chain; the last one connects the proxy client.
    pub edges: Vec<RegisteredEdge>,
    /// The port of the replica that the client is connected to.
    pub port: u16,
}

#[verifier::ext_equal]
pub struct ProxyChainView {
    pub edges: Seq<RegisteredEdgeView>,
    pub port: u16,
}

impl View for ProxyChain {
    type V = ProxyChainView;

    open spec fn view(&self) -> ProxyChainView {
        ProxyChainView { edges: self.edges.deep_view(), port: self.port }
    }
}

impl DeepView for ProxyChain {
    type V = ProxyChainView;

    open spec fn deep_view(&self) -> ProxyChainView {
        self@
    }
}

/// A network to share with another proxy client, and the connections that its chain runs over.
#[derive(Debug)]
pub struct SharedNetwork {
    pub entry: Entry,
    pub edges: Vec<(Client, String)>,
}

#[verifier::ext_equal]
pub struct SharedNetworkView {
    pub entry: EntryView,
    pub edges: Seq<ChainEdge>,
}

impl View for SharedNetwork {
    type V = SharedNetworkView;

    open spec fn view(&self) -> SharedNetworkView {
        SharedNetworkView { entry: self.entry@, edges: self.edges.deep_view() }
    }
}

/// The answer to a proxy request.
#[derive(Debug)]
pub enum ProxyReply {
    /// The client is connected.
    Ready(Upstream),
    /// The client is to share a network.
    Share(SharedNetwork),
    /// A chain is to be set up for the client.
    Setup(ProxyChain),
}

#[verifier::ext_equal]
pub enum ProxyReplyView {
    Ready(UpstreamView),
    Share(SharedNetworkView),
    Setup(ProxyChainView),
}

impl View for ProxyReply {
    type V = ProxyReplyView;

    open spec fn view(&self) -> ProxyReplyView {
        match *self {
            ProxyReply::Ready(upstream) => ProxyReplyView::Ready(upstream@),
            ProxyReply::Share(network) => ProxyReplyView::Share(network@),
            ProxyReply::Setup(chain) => ProxyReplyView::Setup(chain@),
        }
    }
}

impl DeepView for ProxyReply {
    type V = ProxyReplyView;

    open spec fn deep_view(&self) -> ProxyReplyView {
        self@
    }
}

/// The answer to a backend trigger.
#[derive(Debug)]
pub enum TriggerReply {
    /// The chain is set up; its entry is marked as used.
    Refreshed,
    /// A chain is to be set up.
    Setup(Vec<RegisteredEdge>),
}

#[verifier::ext_equal]
pub enum TriggerReplyView {
    Refreshed,
    Setup(Seq<RegisteredEdgeView>),
}

impl View for TriggerReply {
    type V = TriggerReplyView;

    open spec fn view(&self) -> TriggerReplyView {
        match *self {
            TriggerReply::Refreshed => TriggerReplyView::Refreshed,
            TriggerReply::Setup(edges) => TriggerReplyView::Setup(edges.deep_view()),
        }
    }
}

impl DeepView for TriggerReply {
    type V = TriggerReplyView;

    open spec fn deep_view(&self) -> TriggerReplyView {
        self@
    }
}

/// An answer as the specifications see it.
pub open spec fn answer<T: DeepView>(r: Result<T, RequestError>) -> Result<T::V, RequestError> {
    match r {
        Ok(v) => Ok(v.deep_view()),
        Err(e) => Err(e),
    }
}

/// The edges between hosts, where both ends of each run on one.
pub open spec fn all_registered(edges: Seq<EdgeView>) -> Option<Seq<RegisteredEdgeView>> {
    if forall|i: int| 0 <= i < edges.len() ==> (#[trigger] edges[i]).registered() is Some {
        Some(Seq::new(edges.len(), |i: int| edges[i].registered()->0))
    } else {
        None
    }
}

/// The client behind proxy `proxy_ip`.
pub open spec fn proxy_client(client: Seq<char>, proxy_ip: IpAddr) -> ClientView {
    ClientView { name: client, proxy: Some(proxy_ip), replica: None }
}

/// The edge that connects the client behind a proxy to a replica.
pub open spec fn proxy_edge(
    name: Seq<char>,
    proxy_ip: IpAddr,
    client: Seq<char>,
    ip: IpAddr,
    docker: Option<Seq<char>>,
) -> RegisteredEdgeView {
    RegisteredEdgeView {
        client: (proxy_ip, proxy_client(client, proxy_ip)),
        server: (ip, ClientView { name, proxy: None, replica: None }),
        client_docker: None,
        server_docker: docker,
        is_backend_entry: false,
    }
}

/// The chain for a proxy client of a running service: from the replica with the fewest clients along
/// the dependencies, and then the edge that connects the client.
pub open spec fn proxy_chain(
    services: ServicesView,
    reg: RegisteredView,
    name: Seq<char>,
    proxy_ip: IpAddr,
    client: Seq<char>,
) -> Result<ProxyChainView, RequestError> {
    match reg.least() {
        None => Err(RequestError::NoReplicas),
        Some(r) => match all_registered(
            model::dependency_edges(
                name,
                r.ip,
                r.docker_container,
                reg.config.dependencies,
                services,
            ),
        ) {
            None => Err(RequestError::DependencyNotRegistered),
            Some(edges) => Ok(
                ProxyChainView {
                    edges: edges.push(
                        proxy_edge(name, proxy_ip, client, r.ip, r.docker_container),
                    ),
                    port: r.port,
                },
            ),
        },
    }
}

/// The network that a further proxy client of a service shares: one of its proxy, where as many
/// proxy clients are connected as the service may have networks.
pub open spec fn shared_network(reg: RegisteredView, proxy_ip: IpAddr) -> Option<EntryView> {
    match reg.config.max_networks {
        Some(max) => if reg.proxy_entries().len() >= max {
            reg.reusable(proxy_ip)
        } else {
            None
        },
        None => None,
    }
}

impl World {
    /// After a proxy request, and the answer to it: a client that is connected keeps to its
    /// replica.
    pub open spec fn proxy_request(
        self,
        name: Seq<char>,
        proxy_ip: IpAddr,
        client: Seq<char>,
        now: nat,
    ) -> (World, Result<ProxyReplyView, RequestError>) {
        let c = proxy_client(client, proxy_ip);
        match table::lookup(self.services, name) {
            None => (self, Err(RequestError::ServiceNotFound)),
            Some(si) => if si.config().timeout is None {
                (self, Err(RequestError::NotEntryPoint))
            } else {
                match si {
                    ServiceView::Unregistered(_) => (self, Err(RequestError::NotRegistered)),
                    ServiceView::Registered(reg) => match reg.upstream(c) {
                        Some(upstream) => (
                            self.with_service(name, ServiceView::Registered(reg.used(c, now))),
                            Ok(ProxyReplyView::Ready(upstream)),
                        ),
                        None => match shared_network(reg, proxy_ip) {
                            Some(entry) => (
                                self,
                                Ok(
                                    ProxyReplyView::Share(
                                        SharedNetworkView {
                                            entry,
                                            edges: world::dep_edges(
                                                self.services,
                                                NodeView {
                                                    name,
                                                    ip: entry.ip,
                                                    docker: entry.docker_container,
                                                },
                                            ),
                                        },
                                    ),
                                ),
                            ),
                            None => (
                                self,
                                match proxy_chain(self.services, reg, name, proxy_ip, client) {
                                    Ok(chain) => Ok(ProxyReplyView::Setup(chain)),
                                    Err(e) => Err(e),
                                },
                            ),
                        },
                    },
                }
            },
        }
    }

    /// After a client was connected over a network that it shares: one more chain runs over its own
    /// connection and over each on the way.
    pub open spec fn share_network(
        self,
        name: Seq<char>,
        proxy_ip: IpAddr,
        client: Seq<char>,
        network: SharedNetworkView,
        now: nat,
    ) -> World {
        let c = proxy_client(client, proxy_ip);
        let e = network.entry;
        let w = match model::registered(self.services, name) {
            Some(reg) => self.with_service(
                name,
                ServiceView::Registered(
                    reg.with_client(
                        e.ip,
                        e.docker_container,
                        c,
                        clients::fresh_info(
                            proxy_ip,
                            e.info.client_net,
                            e.info.server_net,
                            e.info.net_id,
                            0,
                            None,
                            false,
                            now,
                        ),
                    ).with_chain(c, now),
                ),
            ),
            None => self,
        };
        seqs::fold(w, network.edges, increment_edge(now))
    }

    /// After one more chain runs over the connection of client `c` to service `name`.
    pub open spec fn increment(self, c: ClientView, name: Seq<char>, now: nat) -> World {
        match model::registered(self.services, name) {
            Some(reg) => self.with_service(name, ServiceView::Registered(reg.with_chain(c, now))),
            None => self,
        }
    }
}

/// A function that counts one more chain over a connection.
pub open spec fn increment_edge(now: nat) -> spec_fn(World, ChainEdge) -> World {
    |w: World, e: ChainEdge| w.increment(e.0, e.1, now)
}

impl NullnetGrpcImpl {
    /// A controller of configured services, without hosts.
    pub fn new(services: Services, net: Net) -> (r: Self)
        ensures
            r@ == (World {
                services: services@,
                orch: OrchestratorView {
                    net,
                    clients: Seq::empty(),
                    pending: Seq::empty(),
                    net_ids: Seq::empty(),
                    outbox: Seq::empty(),
                },
            }),
    {
        NullnetGrpcImpl { services, orchestrator: Orchestrator::new(net) }
    }

    pub fn orchestrator(&self) -> (r: &Orchestrator)
        ensures
            r@ == self@.orch,
    {
        &self.orchestrator
    }

    pub fn services(&self) -> (r: &Services)
        ensures
            r@ == self@.services,
    {
        &self.services
    }

    /// The edges along `dependencies` from a replica of a service, between hosts.
    fn build_dep_chain(
        &self,
        service_name: &String,
        service_ip: IpAddr,
        service_docker: &Option<String>,
        dependencies: &Vec<String>,
    ) -> (r: Result<Vec<RegisteredEdge>, RequestError>)
        ensures
            answer(r) == (match all_registered(
                model::dependency_edges(
                    service_name@,
                    service_ip,
                    service_docker.deep_view(),
                    dependencies.deep_view(),
                    self@.services,
                ),
            ) {
                Some(edges) => Ok(edges),
                None => Err(RequestError::DependencyNotRegistered),
            }),
    {
        let mut dep_chain = RegisteredServiceInfo::dependency_chain(
            service_name.clone(),
            service_ip,
            text::copy_option(service_docker),
            dependencies,
            &self.services,
        );
        let ghost all = dep_chain.deep_view();
        let mut edges: Vec<RegisteredEdge> = Vec::new();
        let ghost mut k: int = 0;
        while dep_chain.len() > 0
            invariant
                0 <= k <= all.len(),
                dep_chain.deep_view() =~= all.skip(k),
                forall|i: int| 0 <= i < k ==> (#[trigger] all[i]).registered() is Some,
                edges.deep_view() =~= Seq::new(k as nat, |i: int| all[i].registered()->0),
                all == model::dependency_edges(
                    service_name@,
                    service_ip,
                    service_docker.deep_view(),
                    dependencies.deep_view(),
                    self@.services,
                ),
            decreases dep_chain.len(),
        {
            let ghost before = dep_chain.deep_view();
            let ghost so_far = edges.deep_view();
            assert(before.len() == dep_chain.len());
            let edge = dep_chain.remove(0);
            proof {
                assert(edge@ == before[0]);
                assert(before[0] == all[k]);
                assert(dep_chain.deep_view() =~= before.remove(0));
                assert(before.remove(0) =~= all.skip(k + 1));
            }
            match edge.into_registered() {
                Some(registered) => {
                    edges.push(registered);
                    assert(edges.deep_view() =~= so_far.push(all[k].registered()->0));
                },
                None => return Err(RequestError::DependencyNotRegistered),
            }
            proof {
                k = k + 1;
            }
        }
        assert(dep_chain.deep_view().len() == dep_chain.len());
        Ok(edges)
    }

    /// The chain for a client behind a proxy that is to be connected to a replica of a service.
    pub fn setup_proxy_chain(
        &self,
        service_name: &str,
        proxy_ip: IpAddr,
        client_ip: &str,
        service_ip: IpAddr,
        service_docker: &Option<String>,
    ) -> (r: Result<Vec<RegisteredEdge>, RequestError>)
        ensures
            answer(r) == proxy_chain_at(
                self@.services,
                service_name@,
                proxy_ip,
                client_ip@,
                service_ip,
                service_docker.deep_view(),
            ),
    {
        let name = service_name.to_owned();
        let reg = match self.services.get(&name) {
            None => return Err(RequestError::ServiceNotFound),
            Some(ServiceInfo::Unregistered(_)) => return Err(RequestError::NotRegistered),
            Some(ServiceInfo::Registered(reg)) => reg,
        };
        let mut edges = match self.build_dep_chain(
            &name,
            service_ip,
            service_docker,
            reg.dependencies(),
        ) {
            Ok(edges) => edges,
            Err(e) => return Err(e),
        };
        let ghost before = edges.deep_view();
        edges.push(
            RegisteredEdge::new(
                proxy_ip,
                Client::new(client_ip.to_owned(), Some(proxy_ip)),
                None,
                service_ip,
                Client::new(name, None),
                text::copy_option(service_docker),
            ),
        );
        assert(edges.deep_view() =~= before.push(
            proxy_edge(
                service_name@,
                proxy_ip,
                client_ip@,
                service_ip,
                service_docker.deep_view(),
            ),
        ));
        Ok(edges)
    }

    /// The chain for a client behind a proxy, from the replica of a service with the fewest clients.
    pub fn new_proxy_chain(
        &self,
        service_name: &str,
        proxy_ip: IpAddr,
        client_ip: &str,
    ) -> (r: Result<ProxyChain, RequestError>)
        ensures
            answer(r) == (match model::registered(self@.services, service_name@) {
                Some(reg) => proxy_chain(
                    self@.services,
                    reg,
                    service_name@,
                    proxy_ip,
                    client_ip@,
                ),
                None => Err(RequestError::NotRegistered),
            }),
    {
        let reg = match self.services.get(&service_name.to_owned()) {
            Some(ServiceInfo::Registered(reg)) => reg,
            _ => return Err(RequestError::NotRegistered),
        };
        let replica = match reg.pick_replica_least_clients() {
            Some(replica) => replica,
            None => return Err(RequestError::NoReplicas),
        };
        match self.setup_proxy_chain(
            service_name,
            proxy_ip,
            client_ip,
            replica.ip(),
            replica.docker_container(),
        ) {
            Ok(edges) => Ok(ProxyChain { edges, port: replica.port() }),
            Err(e) => Err(e),
        }
    }
}

/// The chain for a client behind a proxy that is to be connected to a replica at `ip`.
pub open spec fn proxy_chain_at(
    services: ServicesView,
    name: Seq<char>,
    proxy_ip: IpAddr,
    client: Seq<char>,
    ip: IpAddr,
    docker: Option<Seq<char>>,
) -> Result<Seq<RegisteredEdgeView>, RequestError> {
    match table::lookup(services, name) {
        None => Err(RequestError::ServiceNotFound),
        Some(ServiceView::Unregistered(_)) => Err(RequestError::NotRegistered),
        Some(ServiceView::Registered(reg)) => match all_registered(
            model::dependency_edges(name, ip, docker, reg.config.dependencies, services),
        ) {
            None => Err(RequestError::DependencyNotRegistered),
            Some(edges) => Ok(edges.push(proxy_edge(name, proxy_ip, client, ip, docker))),
        },
    }
}

impl NullnetGrpcImpl {
    /// Answers the request of proxy `proxy_ip` for a service on behalf of a client.
    pub fn handle_proxy_request(
        &mut self,
        service_name: &str,
        proxy_ip: IpAddr,
        client_ip: &str,
        now: u128,
    ) -> (r: Result<ProxyReply, RequestError>)
        ensures
            (final(self)@, answer(r)) == old(self)@.proxy_request(
                service_name@,
                proxy_ip,
                client_ip@,
                now as nat,
            ),
    {
        let name = service_name.to_owned();
        let si = match self.services.get(&name) {
            Some(si) => si,
            None => return Err(RequestError::ServiceNotFound),
        };
        if si.timeout().is_none() {
            return Err(RequestError::NotEntryPoint);
        }
        let registered = match si {
            ServiceInfo::Registered(reg) => reg,
            ServiceInfo::Unregistered(_) => return Err(RequestError::NotRegistered),
        };
        let proxy_client = Client::new(client_ip.to_owned(), Some(proxy_ip));

        // a client that is connected keeps to its replica
        if let Some(upstream) = registered.is_client_setup(&proxy_client) {
            if let Some(ServiceInfo::Registered(reg)) = self.services.get_mut(&name) {
                reg.set_latest_now(&proxy_client, now);
            }
            return Ok(ProxyReply::Ready(upstream));
        }

        // at the limit, the least used network of the same proxy is shared
        if let Some(entry) = find_shared_network(registered, proxy_ip) {
            let edges = collect_dep_edges(
                &name,
                entry.ip,
                &entry.docker_container,
                &self.services,
            );
            return Ok(ProxyReply::Share(SharedNetwork { entry, edges }));
        }

        match self.new_proxy_chain(service_name, proxy_ip, client_ip) {
            Ok(chain) => Ok(ProxyReply::Setup(chain)),
            Err(e) => Err(e),
        }
    }

    /// Connects a client over a network that it shares.
    pub fn share_network(
        &mut self,
        service_name: &str,
        proxy_ip: IpAddr,
        client_ip: &str,
        network: SharedNetwork,
        now: u128,
    ) -> (r: Upstream)
        requires
            network@.edges.len() < usize::MAX,
            room::has_room(old(self)@.services, 1 + network@.edges.len()),
        ensures
            final(self)@ == old(self)@.share_network(
                service_name@,
                proxy_ip,
                client_ip@,
                network@,
                now as nat,
            ),
            r@ == (UpstreamView {
                ip: network@.entry.info.server_net.dotted(),
                port: network@.entry.port as u32,
            }),
    {
        let name = service_name.to_owned();
        let proxy_client = Client::new(client_ip.to_owned(), Some(proxy_ip));
        let SharedNetwork { entry, edges } = network;
        let ghost n = edges.deep_view().len();
        let ghost w = self@;
        let info = ClientInfo::new(
            proxy_ip,
            entry.info.client_net(),
            entry.info.server_net(),
            entry.info.net_id(),
            0,
            None,
            now,
        );
        let ghost iv = info@;
        proof {
            room::lemma_room_of(w.services, name@, 1 + n);
            room::lemma_less_room(w.services, 1 + n, n);
            world::lemma_same_service(w, name@);
        }
        if let Some(ServiceInfo::Registered(reg)) = self.services.get_mut(&name) {
            let ghost before = reg@;
            proof {
                assert(edges.deep_view().len() == edges.len());
                room::lemma_with_client_room(
                    reg@,
                    entry.ip,
                    entry@.docker_container,
                    proxy_client@,
                    iv,
                    1 + n,
                );
            }
            reg.add_client_to_replica(
                entry.ip,
                &entry.docker_container,
                proxy_client.clone(),
                info,
            );
            proof {
                room::lemma_info_room(reg@, proxy_client@, 1 + n);
                room::lemma_with_chain_room(reg@, proxy_client@, now as nat, n);
            }
            reg.add_chain(&proxy_client, now);
            proof {
                room::lemma_put_room(w.services, name@, ServiceView::Registered(reg@), n);
            }
        }
        self.increment_edges(&edges, now);
        Upstream { ip: entry.info.server_net().to_text(), port: entry.port as u32 }
    }

    /// Counts one more chain over each of the connections.
    fn increment_edges(&mut self, edges: &Vec<(Client, String)>, now: u128)
        requires
            room::has_room(old(self)@.services, edges.deep_view().len()),
        ensures
            final(self)@ == seqs::fold(
                old(self)@,
                edges.deep_view(),
                increment_edge(now as nat),
            ),
    {
        let ghost w = self@;
        let ghost all = edges.deep_view();
        let ghost f = increment_edge(now as nat);
        let mut i: usize = 0;
        assert(all.take(0) =~= Seq::empty());
        while i < edges.len()
            invariant
                i <= edges.len(),
                all == edges.deep_view(),
                f == increment_edge(now as nat),
                room::has_room(self@.services, (all.len() - i) as nat),
                self@ == seqs::fold(w, all.take(i as int), f),
            decreases edges.len() - i,
        {
            let ghost before = self@;
            let ghost n = (all.len() - i - 1) as nat;
            let (client, name) = &edges[i];
            proof {
                seqs::lemma_fold_step(w, all, f, i as int);
                assert(all[i as int] == (client@, name@));
                room::lemma_room_of(before.services, name@, n + 1);
                room::lemma_less_room(before.services, n + 1, n);
                world::lemma_same_service(before, name@);
            }
            if let Some(ServiceInfo::Registered(reg)) = self.services.get_mut(name) {
                proof {
                    room::lemma_info_room(reg@, client@, n + 1);
                    room::lemma_with_chain_room(reg@, client@, now as nat, n);
                }
                reg.add_chain(client, now);
                proof {
                    room::lemma_put_room(
                        before.services,
                        name@,
                        ServiceView::Registered(reg@),
                        n,
                    );
                }
            }
            i = i + 1;
        }
        assert(all.take(i as int) =~= all);
    }
}

/// The network that a further proxy client of a service shares.
fn find_shared_network(reg: &RegisteredServiceInfo, proxy_ip: IpAddr) -> (r: Option<Entry>)
    ensures
        r.deep_view() == shared_network(reg@, proxy_ip),
{
    match reg.max_networks() {
        Some(max) => if reg.proxy_clients_count() as u128 >= max as u128 {
            reg.find_reusable_network_on_proxy(proxy_ip)
        } else {
            None
        },
        None => None,
    }
}

/// Replica `i` is the first at `ip`.
pub open spec fn is_first_on(reg: RegisteredView, ip: IpAddr, i: int) -> bool {
    &&& 0 <= i < reg.replicas.len()
    &&& reg.replicas[i].ip == ip
    &&& forall|j: int| 0 <= j < i ==> (#[trigger] reg.replicas[j]).ip != ip
}

/// The first replica at `ip`.
pub open spec fn replica_on(reg: RegisteredView, ip: IpAddr) -> Option<ReplicaView> {
    if exists|i: int| is_first_on(reg, ip, i) {
        Some(reg.replicas[choose|i: int| is_first_on(reg, ip, i)])
    } else {
        None
    }
}

/// Trigger `i` is the first for a port.
pub open spec fn is_first_for(triggers: Seq<TriggerView>, port: u16, i: int) -> bool {
    &&& 0 <= i < triggers.len()
    &&& triggers[i].port == port
    &&& forall|j: int| 0 <= j < i ==> (#[trigger] triggers[j]).port != port
}

/// The chain that goes with a port; empty where there is none.
pub open spec fn chain_for(triggers: Seq<TriggerView>, port: u16) -> Seq<Seq<char>> {
    if exists|i: int| is_first_for(triggers, port, i) {
        triggers[choose|i: int| is_first_for(triggers, port, i)].chain
    } else {
        Seq::empty()
    }
}

/// The chain that a replica of a service triggers; its first edge is marked as the entry.
pub open spec fn backend_chain(
    services: ServicesView,
    name: Seq<char>,
    ip: IpAddr,
    docker: Option<Seq<char>>,
    chain: Seq<Seq<char>>,
) -> Result<Seq<RegisteredEdgeView>, RequestError> {
    match all_registered(model::dependency_edges(name, ip, docker, chain, services)) {
        None => Err(RequestError::DependencyNotRegistered),
        Some(edges) => if edges.len() == 0 {
            Ok(edges)
        } else {
            Ok(edges.update(0, RegisteredEdgeView { is_backend_entry: true, ..edges[0] }))
        },
    }
}

/// The replica that an edge leads to.
pub open spec fn edge_end(edge: RegisteredEdgeView) -> NodeView {
    NodeView { name: edge.server_name(), ip: edge.server.0, docker: edge.server_docker }
}

/// Two chains start with the same service.
pub open spec fn start_alike(a: Seq<Seq<char>>, b: Seq<Seq<char>>) -> bool {
    a.len() > 0 && b.len() > 0 && a[0] == b[0]
}

/// A service has no other chain that starts as `chain` does: neither its dependencies nor that of a
/// trigger. A replica that is connected to the first service of the chain then counts as having set it up.
pub open spec fn starts_alone(config: ConfigView, chain: Seq<Seq<char>>) -> bool {
    &&& start_alike(config.dependencies, chain) ==> config.dependencies == chain
    &&& forall|i: int|
        0 <= i < config.triggers.len() && start_alike((#[trigger] config.triggers[i]).chain, chain)
            ==> config.triggers[i].chain == chain
}

/// Whether a chain that a replica of a service triggers counts as set up: the replica is connected to its
/// first service, and where another chain starts alike, every edge of it is connected.
pub open spec fn is_chain_set_up(
    services: ServicesView,
    config: ConfigView,
    node: NodeView,
    chain: Seq<Seq<char>>,
) -> bool {
    &&& world::connection(services, node.client(), chain[0]) is Some
    &&& starts_alone(config, chain) || world::reaches(services, node, chain)
}

impl World {
    /// After a backend trigger, and the answer to it: where the port's chain from the replica on the
    /// sender's host is set up, its first edge is marked as used; else the chain is to be set up.
    pub open spec fn backend_trigger(
        self,
        name: Seq<char>,
        sender_ip: IpAddr,
        port: u16,
        now: nat,
    ) -> (World, Result<TriggerReplyView, RequestError>) {
        match table::lookup(self.services, name) {
            None => (self, Err(RequestError::InitiatorNotFound)),
            Some(si) => if si.config().timeout is None {
                (self, Err(RequestError::InitiatorNotEntryPoint))
            } else {
                match si {
                    ServiceView::Unregistered(_) => (
                        self,
                        Err(RequestError::InitiatorNotRegistered),
                    ),
                    ServiceView::Registered(reg) => match replica_on(reg, sender_ip) {
                        None => (self, Err(RequestError::NoInitiatorReplica)),
                        Some(r) => {
                            let chain = chain_for(reg.config.triggers, port);
                            let node = NodeView { name, ip: r.ip, docker: r.docker_container };
                            if chain.len() == 0 {
                                (self, Err(RequestError::NoDependencies))
                            } else if is_chain_set_up(self.services, reg.config, node, chain) {
                                (
                                    self.refreshed(node.client(), chain[0], now),
                                    Ok(TriggerReplyView::Refreshed),
                                )
                            } else {
                                (
                                    self,
                                    match backend_chain(
                                        self.services,
                                        name,
                                        r.ip,
                                        r.docker_container,
                                        chain,
                                    ) {
                                        Ok(edges) => Ok(TriggerReplyView::Setup(edges)),
                                        Err(e) => Err(e),
                                    },
                                )
                            }
                        },
                    },
                }
            },
        }
    }

    /// After client `c` used its connection to service `name`.
    pub open spec fn used(self, c: ClientView, name: Seq<char>, now: nat) -> World {
        match model::registered(self.services, name) {
            Some(reg) => self.with_service(name, ServiceView::Registered(reg.used(c, now))),
            None => self,
        }
    }

    /// After client `c` used its connection to service `name` that its backend chains lead over.
    pub open spec fn refreshed(self, c: ClientView, name: Seq<char>, now: nat) -> World {
        match world::entry_connection(self.services, c, name) {
            Some(at) => self.with_service(
                name,
                ServiceView::Registered(
                    model::registered(self.services, name)->0.used_at(at.ip, at.docker, c, now),
                ),
            ),
            None => self,
        }
    }

    /// After the set-up of a triggered chain was finished, and whether it stands: its first edge is
    /// then the entry of a backend chain.
    pub open spec fn finish_backend_chain(
        self,
        outcomes: Seq<OutcomeView>,
        entry: RegisteredEdgeView,
    ) -> (World, Result<(), RequestError>) {
        match self.finish_chain(outcomes) {
            (w, Ok(_)) => (w.marked_at(entry.client.1, edge_end(entry), true), Ok(())),
            (w, Err(e)) => (w, Err(e)),
        }
    }

    /// After the set-up of a triggered chain whose hosts answer as given, and whether it stands.
    pub open spec fn set_up_backend_chain(
        self,
        edges: Seq<RegisteredEdgeView>,
        msgs: Seq<(Seq<char>, Seq<char>)>,
        acks: Seq<(bool, bool)>,
        opened: nat,
        finished: nat,
    ) -> (World, Result<(), RequestError>) {
        let (w, progress) = chain_setup::open_all(self, edges, msgs, opened);
        let (w, outcomes) = chain_setup::finish_all(w, progress, acks, finished);
        w.finish_backend_chain(outcomes, edges[0])
    }
}

/// The first replica at `ip`.
fn find_replica_on(reg: &RegisteredServiceInfo, ip: IpAddr) -> (r: Option<(IpAddr, Option<String>)>)
    ensures
        r.deep_view() == (match replica_on(reg@, ip) {
            Some(r) => Some((r.ip, r.docker_container)),
            None => None,
        }),
{
    let replicas = reg.replicas();
    let mut i: usize = 0;
    while i < replicas.len()
        invariant
            i <= replicas.len(),
            replicas.deep_view() == reg@.replicas,
            forall|j: int| 0 <= j < i ==> (#[trigger] reg@.replicas[j]).ip != ip,
        decreases replicas.len() - i,
    {
        assert(reg@.replicas[i as int] == replicas[i as int]@);
        if replicas[i].ip() == ip {
            proof {
                let k = choose|k: int| is_first_on(reg@, ip, k);
                assert(is_first_on(reg@, ip, i as int));
                assert(is_first_on(reg@, ip, k));
                assert(k == i);
            }
            return Some((replicas[i].ip(), text::copy_option(replicas[i].docker_container())));
        }
        i = i + 1;
    }
    None
}

/// The chain that goes with a port; empty where there is none.
fn find_chain_for(triggers: &Vec<Trigger>, port: u16) -> (r: Vec<String>)
    ensures
        r.deep_view() == chain_for(triggers.deep_view(), port),
{
    let ghost all = triggers.deep_view();
    let mut i: usize = 0;
    while i < triggers.len()
        invariant
            i <= triggers.len(),
            all == triggers.deep_view(),
            forall|j: int| 0 <= j < i ==> (#[trigger] all[j]).port != port,
        decreases triggers.len() - i,
    {
        assert(all[i as int] == triggers[i as int]@);
        if triggers[i].port == port {
            proof {
                let k = choose|k: int| is_first_for(all, port, k);
                assert(is_first_for(all, port, i as int));
                assert(is_first_for(all, port, k));
                assert(k == i);
            }
            return text::copy_list(&triggers[i].chain);
        }
        i = i + 1;
    }
    let r: Vec<String> = Vec::new();
    assert(r.deep_view() =~= Seq::empty());
    r
}

/// Whether a service has no other chain that starts as `chain` does.
fn chain_starts_alone(reg: &RegisteredServiceInfo, chain: &Vec<String>) -> (r: bool)
    ensures
        r == starts_alone(reg@.config, chain.deep_view()),
{
    let triggers = reg.triggers();
    if chains_start_alike(reg.dependencies(), chain) && !text::same_list(
        reg.dependencies(),
        chain,
    ) {
        return false;
    }
    let ghost all = triggers.deep_view();
    let mut i: usize = 0;
    assert(all.len() == triggers.len());
    while i < triggers.len()
        invariant
            i <= triggers.len(),
            all.len() == triggers.len(),
            all == triggers.deep_view(),
            all == reg@.config.triggers,
            forall|j: int|
                0 <= j < i && start_alike((#[trigger] all[j]).chain, chain.deep_view())
                    ==> all[j].chain == chain.deep_view(),
        decreases triggers.len() - i,
    {
        assert(all[i as int] == triggers[i as int]@);
        if chains_start_alike(&triggers[i].chain, chain) && !text::same_list(
            &triggers[i].chain,
            chain,
        ) {
            return false;
        }
        i = i + 1;
    }
    true
}

/// Whether two chains start with the same service.
fn chains_start_alike(a: &Vec<String>, b: &Vec<String>) -> (r: bool)
    ensures
        r == start_alike(a.deep_view(), b.deep_view()),
{
    assert(a.deep_view().len() == a.len());
    assert(b.deep_view().len() == b.len());
    if a.len() == 0 || b.len() == 0 {
        return false;
    }
    assert(a.deep_view()[0] == a[0]@);
    assert(b.deep_view()[0] == b[0]@);
    a[0] == b[0]
}

impl NullnetGrpcImpl {
    /// The chain that a replica of a service triggers; its first edge is marked as the entry.
    pub fn setup_backend_chain(
        &self,
        initiator_name: &str,
        initiator_ip: IpAddr,
        initiator_docker: &Option<String>,
        chain: &Vec<String>,
    ) -> (r: Result<Vec<RegisteredEdge>, RequestError>)
        ensures
            answer(r) == backend_chain(
                self@.services,
                initiator_name@,
                initiator_ip,
                initiator_docker.deep_view(),
                chain.deep_view(),
            ),
    {
        let mut edges = match self.build_dep_chain(
            &initiator_name.to_owned(),
            initiator_ip,
            initiator_docker,
            chain,
        ) {
            Ok(edges) => edges,
            Err(e) => return Err(e),
        };
        let ghost before = edges.deep_view();
        assert(before.len() == edges.len());
        if edges.len() > 0 {
            edges[0].is_backend_entry = true;
            assert(edges.deep_view() =~= before.update(
                0,
                RegisteredEdgeView { is_backend_entry: true, ..before[0] },
            ));
        }
        Ok(edges)
    }

    /// Answers a backend trigger: the host at `sender_ip` saw the service use a port.
    pub fn handle_backend_trigger(
        &mut self,
        initiator_name: &str,
        sender_ip: IpAddr,
        port: u16,
        now: u128,
    ) -> (r: Result<TriggerReply, RequestError>)
        ensures
            (final(self)@, answer(r)) == old(self)@.backend_trigger(
                initiator_name@,
                sender_ip,
                port,
                now as nat,
            ),
    {
        let name = initiator_name.to_owned();
        let si = match self.services.get(&name) {
            Some(si) => si,
            None => return Err(RequestError::InitiatorNotFound),
        };
        if si.timeout().is_none() {
            return Err(RequestError::InitiatorNotEntryPoint);
        }
        let reg = match si {
            ServiceInfo::Registered(reg) => reg,
            ServiceInfo::Unregistered(_) => return Err(RequestError::InitiatorNotRegistered),
        };
        let (initiator_ip, initiator_docker) = match find_replica_on(reg, sender_ip) {
            Some(replica) => replica,
            None => return Err(RequestError::NoInitiatorReplica),
        };
        let chain = find_chain_for(reg.triggers(), port);
        assert(chain.deep_view().len() == chain.len());
        if chain.len() == 0 {
            return Err(RequestError::NoDependencies);
        }
        let initiator = Node {
            name,
            ip: initiator_ip,
            docker: text::copy_option(&initiator_docker),
        };
        let client = Client::new_service(
            initiator.name.clone(),
            initiator_ip,
            text::copy_option(&initiator_docker),
        );
        assert(chain.deep_view()[0] == chain[0]@);
        assert(chain.deep_view().skip(0) =~= chain.deep_view());

        // a chain that is set up only has its entry marked as used
        let entry = find_entry(&client, &chain[0], &self.services);
        if let Some(at) = entry {
            if chain_starts_alone(reg, &chain) || chain_reaches(
                &initiator,
                &chain,
                0,
                &self.services,
            ) {
                self.refresh(&at, &client, now);
                return Ok(TriggerReply::Refreshed);
            }
        }
        match self.setup_backend_chain(initiator_name, initiator_ip, &initiator_docker, &chain) {
            Ok(edges) => Ok(TriggerReply::Setup(edges)),
            Err(e) => Err(e),
        }
    }

    /// Marks the connection of a client to the replica that its backend chains lead to as used.
    fn refresh(&mut self, at: &Node, client: &Client, now: u128)
        requires
            world::entry_connection(old(self)@.services, client@, at@.name) == Some(at@),
        ensures
            final(self)@ == old(self)@.refreshed(client@, at@.name, now as nat),
    {
        if let Some(ServiceInfo::Registered(reg)) = self.services.get_mut(&at.name) {
            reg.set_latest_on_replica(client, at.ip, &at.docker, now);
        }
    }

    /// Concludes the set-up of a chain that a trigger asked for. Where it stands, its first edge
    /// `entry` is marked as the entry of a backend chain.
    pub fn finish_backend_chain(
        &mut self,
        outcomes: Vec<EdgeOutcome>,
        entry: &RegisteredEdge,
    ) -> (r: Result<(), RequestError>)
        ensures
            (final(self)@, r) == old(self)@.finish_backend_chain(outcomes.deep_view(), entry@),
    {
        match self.finish_chain(outcomes) {
            Ok(_) => {
                let end = Node {
                    name: entry.server.1.name().clone(),
                    ip: entry.server.0,
                    docker: text::copy_option(&entry.server_docker),
                };
                mark_entry(&entry.client.1, &end, true, &mut self.services);
                Ok(())
            },
            Err(e) => Err(e),
        }
    }

    /// Concludes the set-up of a chain for a proxy client: where it reaches the service.
    pub fn finish_proxy_chain(&mut self, outcomes: Vec<EdgeOutcome>, port: u16) -> (r: Result<
        Upstream,
        RequestError,
    >)
        ensures
            final(self)@ == old(self)@.finish_chain(outcomes.deep_view()).0,
            answer(r) == (match old(self)@.finish_chain(outcomes.deep_view()).1 {
                Ok(Some(ip)) => Ok(UpstreamView { ip: ip.dotted(), port: port as u32 }),
                Ok(None) => Err(RequestError::NoUpstream),
                Err(e) => Err(e),
            }),
    {
        match self.finish_chain(outcomes) {
            Ok(Some(ip)) => Ok(Upstream { ip: ip.to_text(), port: port as u32 }),
            Ok(None) => Err(RequestError::NoUpstream),
            Err(e) => Err(e),
        }
    }
}

/// A function that records a service that a host offers, where it is configured.
pub open spec fn offer(sender_ip: IpAddr) -> spec_fn(ServicesView, OfferView) -> ServicesView {
    |services: ServicesView, o: OfferView|
        match table::lookup(services, o.0) {
            Some(si) => table::put(services, o.0, si.with_replica(sender_ip, o.1, o.2)),
            None => services,
        }
}

impl World {
    /// After a host sent the list of the services that it offers: replicas that are not on it
    /// stopped, those on it run.
    pub open spec fn services_list(self, sender_ip: IpAddr, list: Seq<OfferView>) -> World {
        let w = self.apply_all(changes::list_changes(self.services, sender_ip, list));
        World { services: seqs::fold(w.services, list, offer(sender_ip)), ..w }
    }
}

/// The service that a host offers, with a port that is in range.
pub open spec fn valid_offer(o: (Seq<char>, u32, Option<Seq<char>>)) -> OfferView {
    (o.0, o.1 as u16, o.2)
}

/// The services that a host offers, with their ports as they are sent, with ports in range.
pub fn parse_services_list(services: &Vec<(String, u32, Option<String>)>) -> (r: Result<
    Vec<(String, u16, Option<String>)>,
    RequestError,
>)
    ensures
        answer(r) == (if forall|i: int|
            0 <= i < services.deep_view().len() ==> (#[trigger] services.deep_view()[i]).1 <= u16::MAX {
            Ok(
                Seq::new(
                    services.deep_view().len(),
                    |i: int| valid_offer(services.deep_view()[i]),
                ),
            )
        } else {
            Err(RequestError::InvalidPort)
        }),
{
    let ghost all = services.deep_view();
    let mut r: Vec<(String, u16, Option<String>)> = Vec::new();
    let mut i: usize = 0;
    while i < services.len()
        invariant
            i <= services.len(),
            all == services.deep_view(),
            forall|j: int| 0 <= j < i ==> (#[trigger] all[j]).1 <= u16::MAX,
            r.deep_view() =~= Seq::new(i as nat, |j: int| valid_offer(all[j])),
        decreases services.len() - i,
    {
        let ghost before = r.deep_view();
        let (name, port, docker) = &services[i];
        assert(all[i as int] == (name@, *port, docker.deep_view()));
        if *port > u16::MAX as u32 {
            return Err(RequestError::InvalidPort);
        }
        r.push((name.clone(), *port as u16, text::copy_option(docker)));
        assert(r.deep_view() =~= before.push(valid_offer(all[i as int])));
        i = i + 1;
    }
    Ok(r)
}

impl NullnetGrpcImpl {
    /// Brings the services in line with the list of those that a host offers.
    pub fn apply_services_list(
        &mut self,
        sender_ip: IpAddr,
        service_list: &Vec<(String, u16, Option<String>)>,
    )
        ensures
            final(self)@ == old(self)@.services_list(sender_ip, service_list.deep_view()),
    {
        let changes = detect_services_list_changes(&self.services, sender_ip, service_list);
        apply_changes(changes, &mut self.services, None, &mut self.orchestrator);

        // add or update the replicas of services that are present
        let ghost all = service_list.deep_view();
        let ghost f = offer(sender_ip);
        let ghost w = self@;
        let mut i: usize = 0;
        assert(all.take(0) =~= Seq::empty());
        while i < service_list.len()
            invariant
                i <= service_list.len(),
                all == service_list.deep_view(),
                f == offer(sender_ip),
                self@ == (World { services: seqs::fold(w.services, all.take(i as int), f), ..w }),
            decreases service_list.len() - i,
        {
            let (name, port, docker_container) = &service_list[i];
            proof {
                seqs::lemma_fold_step(w.services, all, f, i as int);
                assert(all[i as int] == (name@, *port, docker_container.deep_view()));
            }
            if let Some(si) = self.services.get_mut(name) {
                si.add_replica(sender_ip, *port, text::copy_option(docker_container));
            }
            i = i + 1;
        }
        assert(all.take(i as int) =~= all);
    }

    /// Brings the services and networks in line with the loss of a host.
    pub fn handle_node_disconnect(&mut self, client_ip: IpAddr)
        ensures
            final(self)@ == (World {
                services: old(self)@.services,
                orch: old(self)@.orch.disconnected(client_ip),
            }).apply_all(changes::disconnect_changes(old(self)@.services, client_ip)),
            old(self)@.orch.clients.no_duplicates() ==> !final(self)@.orch.clients.contains(
                client_ip,
            ),
    {
        self.orchestrator.handle_node_disconnect(client_ip, &mut self.services);
    }
}

} // verus!
