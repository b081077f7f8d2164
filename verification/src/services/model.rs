//! The services as the specifications see them.
use crate::addr::IpAddr;
use crate::orchestrator::OrchestratorView;
use crate::seqs;
use crate::services::clients;
use crate::services::clients::{ClientInfoView, ClientView};
use crate::services::edge::EdgeView;
use crate::table;
use vstd::prelude::*;

verus! {

/// The services by name, as the specifications see them.
pub type ServicesView = Seq<(Seq<char>, ServiceView)>;

/// A port on the initiator's host and the chain that is set up when it is used.
#[verifier::ext_equal]
pub struct TriggerView {
    pub port: u16,
    pub chain: Seq<Seq<char>>,
}

/// The configuration of a service.
#[verifier::ext_equal]
pub struct ConfigView {
    /// The chain that is walked when the service is reached through a proxy.
    pub dependencies: Seq<Seq<char>>,
    /// The chains that are walked when the service triggers one itself.
    pub triggers: Seq<TriggerView>,
    /// The timeout in seconds, zero for none; absent where the service is no entry point.
    pub timeout: Option<u64>,
    /// The number of networks from which on proxy clients share one.
    pub max_networks: Option<u32>,
}

/// A replica: where it runs and who is connected to it.
#[verifier::ext_equal]
pub struct ReplicaView {
    pub ip: IpAddr,
    pub port: u16,
    pub docker_container: Option<Seq<char>>,
    pub clients: Seq<(ClientView, ClientInfoView)>,
}

/// A connection of a service, with the replica that it leads to.
#[verifier::ext_equal]
pub struct EntryView {
    pub client: ClientView,
    pub info: ClientInfoView,
    pub ip: IpAddr,
    pub docker_container: Option<Seq<char>>,
    pub port: u16,
}

/// A service that runs.
#[verifier::ext_equal]
pub struct RegisteredView {
    pub config: ConfigView,
    pub replicas: Seq<ReplicaView>,
}

/// A service: configured alone, or running too.
#[verifier::ext_equal]
pub enum ServiceView {
    Unregistered(ConfigView),
    Registered(RegisteredView),
}

impl ReplicaView {
    /// A replica is identified by its address and its container.
    pub open spec fn matches(self, ip: IpAddr, docker_container: Option<Seq<char>>) -> bool {
        self.ip == ip && self.docker_container == docker_container
    }

    /// The connections of the replica.
    pub open spec fn entries(self) -> Seq<EntryView> {
        Seq::new(
            self.clients.len(),
            |k: int|
                EntryView {
                    client: self.clients[k].0,
                    info: self.clients[k].1,
                    ip: self.ip,
                    docker_container: self.docker_container,
                    port: self.port,
                },
        )
    }

    pub open spec fn with_clients(
        self,
        clients: Seq<(ClientView, ClientInfoView)>,
    ) -> ReplicaView {
        ReplicaView { clients, ..self }
    }
}

/// The connections of a replica, as a function.
pub open spec fn entries_of() -> spec_fn(ReplicaView) -> Seq<EntryView> {
    |r: ReplicaView| r.entries()
}

/// A function that gives the client of a connection that it has not used for `timeout` or longer.
pub open spec fn expired_client(timeout: nat, now: nat) -> spec_fn(EntryView) -> Seq<ClientView> {
    |e: EntryView|
        if e.client.proxy is Some && e.info.idle(now) >= timeout {
            seq![e.client]
        } else {
            Seq::empty()
        }
}

/// A function that keeps the connections of proxy clients.
pub open spec fn proxy_entry() -> spec_fn(EntryView) -> Seq<EntryView> {
    |e: EntryView|
        if e.client.proxy is Some {
            seq![e]
        } else {
            Seq::empty()
        }
}

/// A function that keeps the connections on a network.
pub open spec fn entry_on_net(net_id: u32) -> spec_fn(EntryView) -> Seq<EntryView> {
    |e: EntryView|
        if e.info.net_id == net_id {
            seq![e]
        } else {
            Seq::empty()
        }
}

/// A function that gives the client and the last use of the entry of a backend chain.
pub open spec fn backend_entry() -> spec_fn(EntryView) -> Seq<(ClientView, nat)> {
    |e: EntryView|
        if e.info.is_backend_entry {
            seq![(e.client, e.info.latest)]
        } else {
            Seq::empty()
        }
}

/// Where a client reaches a service.
#[verifier::ext_equal]
pub struct UpstreamView {
    pub ip: Seq<char>,
    pub port: u32,
}

/// Where replicas run: on a host, or in one container of a host.
#[verifier::ext_equal]
pub enum PlaceView {
    Host(IpAddr),
    Replica(IpAddr, Option<Seq<char>>),
}

impl PlaceView {
    /// Whether a replica at `ip` in container `docker` runs in the place.
    pub open spec fn covers(self, ip: IpAddr, docker: Option<Seq<char>>) -> bool {
        match self {
            PlaceView::Host(host) => ip == host,
            PlaceView::Replica(host, container) => ip == host && docker == container,
        }
    }

    /// A function that keeps the replicas that run elsewhere.
    pub open spec fn elsewhere(self) -> spec_fn(ReplicaView) -> Seq<ReplicaView> {
        |r: ReplicaView|
            if self.covers(r.ip, r.docker_container) {
                Seq::empty()
            } else {
                seq![r]
            }
    }

    /// A function that gives the client of a connection that leads from a service to the place.
    pub open spec fn service_clients(self) -> spec_fn(EntryView) -> Seq<ClientView> {
        |e: EntryView|
            if self.covers(e.ip, e.docker_container) && e.client.proxy is None {
                seq![e.client]
            } else {
                Seq::empty()
            }
    }
}

impl RegisteredView {
    /// Replica `i` is the first that client `c` is connected to.
    pub open spec fn is_holder(self, c: ClientView, i: int) -> bool {
        &&& 0 <= i < self.replicas.len()
        &&& table::has_key(self.replicas[i].clients, c)
        &&& forall|j: int|
            0 <= j < i ==> !table::has_key((#[trigger] self.replicas[j]).clients, c)
    }

    /// Whether client `c` is connected to some replica.
    pub open spec fn holds(self, c: ClientView) -> bool {
        exists|i: int| self.is_holder(c, i)
    }

    /// The first replica that client `c` is connected to.
    pub open spec fn holder(self, c: ClientView) -> int {
        choose|i: int| self.is_holder(c, i)
    }

    /// The connection of client `c` to the first replica that it is connected to.
    pub open spec fn info(self, c: ClientView) -> Option<ClientInfoView> {
        if self.holds(c) {
            table::lookup(self.replicas[self.holder(c)].clients, c)
        } else {
            None
        }
    }

    /// With other clients on replica `i`.
    pub open spec fn with_clients(
        self,
        i: int,
        clients: Seq<(ClientView, ClientInfoView)>,
    ) -> RegisteredView {
        RegisteredView {
            replicas: self.replicas.update(i, self.replicas[i].with_clients(clients)),
            ..self
        }
    }

    /// With `ci` as the connection of a client that is connected.
    pub open spec fn with_info(self, c: ClientView, ci: ClientInfoView) -> RegisteredView {
        let i = self.holder(c);
        self.with_clients(i, table::put(self.replicas[i].clients, c, ci))
    }

    /// Without client `c` on the first replica that it is connected to.
    pub open spec fn without_client(self, c: ClientView) -> RegisteredView {
        if self.holds(c) {
            let i = self.holder(c);
            self.with_clients(i, table::del(self.replicas[i].clients, c))
        } else {
            self
        }
    }

    /// After one more chain runs over the connection of client `c`.
    pub open spec fn with_chain(self, c: ClientView, now: nat) -> RegisteredView {
        match self.info(c) {
            Some(ci) => self.with_info(c, ci.with_chain(now)),
            None => self,
        }
    }

    /// After client `c` used its connection.
    pub open spec fn used(self, c: ClientView, now: nat) -> RegisteredView {
        match self.info(c) {
            Some(ci) => self.with_info(c, ci.used(now)),
            None => self,
        }
    }

    /// Client `c` is connected to replica `i` over the entry of a backend chain.
    pub open spec fn has_entry(self, c: ClientView, i: int) -> bool {
        0 <= i < self.replicas.len() && match table::lookup(self.replicas[i].clients, c) {
            Some(ci) => ci.is_backend_entry,
            None => false,
        }
    }

    /// Replica `i` is the first that client `c` is connected to over the entry of a backend chain.
    pub open spec fn is_entry_holder(self, c: ClientView, i: int) -> bool {
        self.has_entry(c, i) && forall|j: int| 0 <= j < i ==> !#[trigger] self.has_entry(c, j)
    }

    /// The replica that the backend chains of client `c` lead to: the first that it is connected to over
    /// the entry of one; where there is none, the first that it is connected to.
    pub open spec fn entry_holder(self, c: ClientView) -> int {
        if exists|i: int| self.is_entry_holder(c, i) {
            choose|i: int| self.is_entry_holder(c, i)
        } else {
            self.holder(c)
        }
    }

    /// After one chain fewer runs over the connection of client `c`, which is torn down with its
    /// last chain.
    pub open spec fn decremented(
        self,
        c: ClientView,
        orch: OrchestratorView,
    ) -> (RegisteredView, OrchestratorView) {
        match self.info(c) {
            Some(ci) => {
                let r = self.replicas[self.holder(c)];
                if ci.active_chains <= 1 {
                    (
                        self.without_client(c),
                        orch.teardown(
                            ci.client_ip,
                            ci.docker_container,
                            r.ip,
                            r.docker_container,
                            ci.net_id,
                        ),
                    )
                } else {
                    (self.with_info(c, ci.without_chains(1)), orch)
                }
            },
            None => (self, orch),
        }
    }

    /// Replica `i` is the first at `ip` in container `docker`.
    pub open spec fn is_replica(self, ip: IpAddr, docker: Option<Seq<char>>, i: int) -> bool {
        &&& 0 <= i < self.replicas.len()
        &&& self.replicas[i].matches(ip, docker)
        &&& forall|j: int| 0 <= j < i ==> !(#[trigger] self.replicas[j]).matches(ip, docker)
    }

    /// Whether a replica runs at `ip` in container `docker`.
    pub open spec fn has_replica(self, ip: IpAddr, docker: Option<Seq<char>>) -> bool {
        exists|i: int| self.is_replica(ip, docker, i)
    }

    /// Which replica runs at `ip` in container `docker`.
    pub open spec fn replica_index(self, ip: IpAddr, docker: Option<Seq<char>>) -> int {
        choose|i: int| self.is_replica(ip, docker, i)
    }

    /// After client `c` was connected to the replica at `ip` in container `docker`.
    pub open spec fn with_client(
        self,
        ip: IpAddr,
        docker: Option<Seq<char>>,
        c: ClientView,
        ci: ClientInfoView,
    ) -> RegisteredView {
        if self.has_replica(ip, docker) {
            let i = self.replica_index(ip, docker);
            self.with_clients(i, table::put(self.replicas[i].clients, c, ci))
        } else {
            self
        }
    }

    /// The connection of client `c` to the replica at `ip` in container `docker`.
    pub open spec fn info_at(
        self,
        ip: IpAddr,
        docker: Option<Seq<char>>,
        c: ClientView,
    ) -> Option<ClientInfoView> {
        if self.has_replica(ip, docker) {
            table::lookup(self.replicas[self.replica_index(ip, docker)].clients, c)
        } else {
            None
        }
    }

    /// Without client `c` on the replica at `ip` in container `docker`.
    pub open spec fn without_client_at(
        self,
        ip: IpAddr,
        docker: Option<Seq<char>>,
        c: ClientView,
    ) -> RegisteredView {
        if self.has_replica(ip, docker) {
            let i = self.replica_index(ip, docker);
            self.with_clients(i, table::del(self.replicas[i].clients, c))
        } else {
            self
        }
    }

    /// After one more chain runs over the connection of client `c` to the replica at `ip` in container
    /// `docker`.
    pub open spec fn with_chain_at(
        self,
        ip: IpAddr,
        docker: Option<Seq<char>>,
        c: ClientView,
        now: nat,
    ) -> RegisteredView {
        match self.info_at(ip, docker, c) {
            Some(ci) => self.with_client(ip, docker, c, ci.with_chain(now)),
            None => self,
        }
    }

    /// After client `c` used its connection to the replica at `ip` in container `docker`.
    pub open spec fn used_at(
        self,
        ip: IpAddr,
        docker: Option<Seq<char>>,
        c: ClientView,
        now: nat,
    ) -> RegisteredView {
        match self.info_at(ip, docker, c) {
            Some(ci) => self.with_client(ip, docker, c, ci.used(now)),
            None => self,
        }
    }

    /// After the connection of client `c` to the replica at `ip` in container `docker` was marked or not
    /// as the entry of a backend chain.
    pub open spec fn marked_at(
        self,
        ip: IpAddr,
        docker: Option<Seq<char>>,
        c: ClientView,
        is_backend_entry: bool,
    ) -> RegisteredView {
        match self.info_at(ip, docker, c) {
            Some(ci) => self.with_client(ip, docker, c, ci.marked(is_backend_entry)),
            None => self,
        }
    }

    /// After one chain fewer runs over the connection of client `c` to the replica at `ip` in container
    /// `docker`, which is torn down with its last chain.
    pub open spec fn decremented_at(
        self,
        ip: IpAddr,
        docker: Option<Seq<char>>,
        c: ClientView,
        orch: OrchestratorView,
    ) -> (RegisteredView, OrchestratorView) {
        match self.info_at(ip, docker, c) {
            Some(ci) => if ci.active_chains <= 1 {
                (
                    self.without_client_at(ip, docker, c),
                    orch.teardown(ci.client_ip, ci.docker_container, ip, docker, ci.net_id),
                )
            } else {
                (self.with_client(ip, docker, c, ci.without_chains(1)), orch)
            },
            None => (self, orch),
        }
    }

    /// Whether client `c` is connected to a replica at `ip` in container `docker`.
    pub open spec fn holds_at(
        self,
        c: ClientView,
        ip: IpAddr,
        docker: Option<Seq<char>>,
    ) -> bool {
        exists|i: int|
            0 <= i < self.replicas.len() && (#[trigger] self.replicas[i]).matches(ip, docker)
                && table::has_key(self.replicas[i].clients, c)
    }

    /// Replica `i` is the first of those with the fewest clients.
    pub open spec fn is_least(self, i: int) -> bool {
        &&& 0 <= i < self.replicas.len()
        &&& forall|j: int|
            0 <= j < self.replicas.len() ==> self.replicas[i].clients.len()
                <= (#[trigger] self.replicas[j]).clients.len()
        &&& forall|j: int|
            0 <= j < i ==> self.replicas[i].clients.len() < (#[trigger] self.replicas[j]).clients.len()
    }

    /// The first replica of those with the fewest clients.
    pub open spec fn least(self) -> Option<ReplicaView> {
        if exists|i: int| self.is_least(i) {
            Some(self.replicas[choose|i: int| self.is_least(i)])
        } else {
            None
        }
    }

    /// Every connection of the service, replica by replica.
    pub open spec fn entries(self) -> Seq<EntryView> {
        seqs::concat_map(self.replicas, entries_of())
    }

    /// Where client `c` reaches the service.
    pub open spec fn upstream(self, c: ClientView) -> Option<UpstreamView> {
        match self.info(c) {
            Some(ci) => Some(
                UpstreamView {
                    ip: ci.server_net.dotted(),
                    port: self.replicas[self.holder(c)].port as u32,
                },
            ),
            None => None,
        }
    }

    /// The proxy clients that have not used their connection for `timeout` or longer.
    pub open spec fn expired(self, timeout: nat, now: nat) -> Seq<ClientView> {
        seqs::concat_map(self.entries(), expired_client(timeout, now))
    }

    /// The services connected to replicas in a place, each once.
    pub open spec fn service_clients(self, place: PlaceView) -> Seq<ClientView> {
        seqs::unique(seqs::concat_map(self.entries(), place.service_clients()))
    }

    /// Whether a replica runs at `ip`.
    pub open spec fn runs_on(self, ip: IpAddr) -> bool {
        exists|i: int| 0 <= i < self.replicas.len() && (#[trigger] self.replicas[i]).ip == ip
    }

    /// Whether a client is connected through the proxy at `ip`.
    pub open spec fn has_proxy_clients_of(self, ip: IpAddr) -> bool {
        exists|i: int|
            0 <= i < self.entries().len() && (#[trigger] self.entries()[i]).client.proxy == Some(ip)
    }

    /// The connections of proxy clients.
    pub open spec fn proxy_entries(self) -> Seq<EntryView> {
        seqs::concat_map(self.entries(), proxy_entry())
    }

    /// The connections that backend triggers set up.
    pub open spec fn backend_entries(self) -> Seq<(ClientView, nat)> {
        seqs::concat_map(self.entries(), backend_entry())
    }

    /// The number of proxy clients on network `net_id`.
    pub open spec fn net_users(self, net_id: u32) -> nat {
        seqs::concat_map(self.proxy_entries(), entry_on_net(net_id)).len()
    }

    /// Whether connection `i` of the proxy clients is set up and led through proxy `ip`.
    pub open spec fn is_reusable(self, ip: IpAddr, i: int) -> bool {
        &&& 0 <= i < self.proxy_entries().len()
        &&& self.proxy_entries()[i].client.proxy == Some(ip)
        &&& self.proxy_entries()[i].info.net_id != 0
    }

    /// Connection `i` of the proxy clients is the first on a least used network of proxy `ip`.
    pub open spec fn is_least_used(self, ip: IpAddr, i: int) -> bool {
        let users = |j: int| self.net_users(self.proxy_entries()[j].info.net_id);
        &&& self.is_reusable(ip, i)
        &&& forall|j: int| #[trigger] self.is_reusable(ip, j) ==> users(i) <= users(j)
        &&& forall|j: int| #[trigger] self.is_reusable(ip, j) && j < i ==> users(i) < users(j)
    }

    /// The network of proxy `ip` that a further client shares.
    pub open spec fn reusable(self, ip: IpAddr) -> Option<EntryView> {
        if exists|i: int| self.is_least_used(ip, i) {
            Some(self.proxy_entries()[choose|i: int| self.is_least_used(ip, i)])
        } else {
            None
        }
    }

    /// Without the replicas that run in a place.
    pub open spec fn without_replicas(self, place: PlaceView) -> RegisteredView {
        RegisteredView { replicas: seqs::concat_map(self.replicas, place.elsewhere()), ..self }
    }
}

impl ServiceView {
    pub open spec fn config(self) -> ConfigView {
        match self {
            ServiceView::Unregistered(config) => config,
            ServiceView::Registered(reg) => reg.config,
        }
    }

    pub open spec fn with_config(self, config: ConfigView) -> ServiceView {
        match self {
            ServiceView::Unregistered(_) => ServiceView::Unregistered(config),
            ServiceView::Registered(reg) => ServiceView::Registered(
                RegisteredView { config, ..reg },
            ),
        }
    }

    /// The replicas; none where the service does not run.
    pub open spec fn replicas(self) -> Seq<ReplicaView> {
        match self {
            ServiceView::Unregistered(_) => Seq::empty(),
            ServiceView::Registered(reg) => reg.replicas,
        }
    }

    /// After the service was found to run at `ip`, in container `docker`, on `port`.
    pub open spec fn with_replica(
        self,
        ip: IpAddr,
        port: u16,
        docker_container: Option<Seq<char>>,
    ) -> ServiceView {
        let replica = ReplicaView { ip, port, docker_container, clients: Seq::empty() };
        match self {
            ServiceView::Unregistered(config) => ServiceView::Registered(
                RegisteredView { config, replicas: seq![replica] },
            ),
            ServiceView::Registered(reg) => if reg.has_replica(ip, docker_container) {
                let i = reg.replica_index(ip, docker_container);
                ServiceView::Registered(
                    RegisteredView {
                        replicas: reg.replicas.update(
                            i,
                            ReplicaView { port, ..reg.replicas[i] },
                        ),
                        ..reg
                    },
                )
            } else {
                ServiceView::Registered(
                    RegisteredView { replicas: reg.replicas.push(replica), ..reg },
                )
            },
        }
    }

    /// After the service was found to run at `ip` on `port` alone. One that ran elsewhere moves there
    /// with the clients of its first replica.
    pub open spec fn moved_to(self, ip: IpAddr, port: u16) -> ServiceView {
        let clients = if self.replicas().len() > 0 {
            self.replicas()[0].clients
        } else {
            Seq::empty()
        };
        ServiceView::Registered(
            RegisteredView {
                config: self.config(),
                replicas: seq![ReplicaView { ip, port, docker_container: None, clients }],
            },
        )
    }

    /// After the replicas in a place stopped; a service without replicas does not run.
    pub open spec fn without_replicas(self, place: PlaceView) -> ServiceView {
        match self {
            ServiceView::Unregistered(_) => self,
            ServiceView::Registered(reg) => if reg.without_replicas(place).replicas.len() == 0 {
                ServiceView::Unregistered(reg.config)
            } else {
                ServiceView::Registered(reg.without_replicas(place))
            },
        }
    }
}

/// Where a chain passes: a service, and the replica that serves it, if it runs.
pub type HopView = (Seq<char>, Option<IpAddr>, Option<Seq<char>>);

/// Where a chain passes at dependency `name`: its replica with the fewest clients.
pub open spec fn hop(services: ServicesView, name: Seq<char>) -> HopView {
    match registered(services, name) {
        Some(reg) => match reg.least() {
            Some(r) => (name, Some(r.ip), r.docker_container),
            None => (name, None, None),
        },
        None => (name, None, None),
    }
}

/// The edge of a chain from one hop to the next.
pub open spec fn edge_between(from: HopView, to: HopView) -> EdgeView {
    let client = match from.1 {
        Some(ip) => clients::service_client(from.0, ip, from.2),
        None => ClientView { name: from.0, proxy: None, replica: None },
    };
    EdgeView {
        client: (from.1, client),
        server: (to.1, ClientView { name: to.0, proxy: None, replica: None }),
        client_docker: from.2,
        server_docker: to.2,
    }
}

/// The edges that lead from a replica of service `name` along `dependencies`.
pub open spec fn dependency_edges(
    name: Seq<char>,
    ip: IpAddr,
    docker: Option<Seq<char>>,
    dependencies: Seq<Seq<char>>,
    services: ServicesView,
) -> Seq<EdgeView> {
    let start = (name, Some(ip), docker);
    Seq::new(
        dependencies.len(),
        |k: int|
            edge_between(
                if k == 0 {
                    start
                } else {
                    hop(services, dependencies[k - 1])
                },
                hop(services, dependencies[k]),
            ),
    )
}

/// The running service `name`.
pub open spec fn registered(services: ServicesView, name: Seq<char>) -> Option<RegisteredView> {
    match table::lookup(services, name) {
        Some(ServiceView::Registered(reg)) => Some(reg),
        _ => None,
    }
}

} // verus!
