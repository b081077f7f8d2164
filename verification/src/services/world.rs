//! The state that changes to services act on, and what each change does to it.
use crate::addr::IpAddr;
use crate::orchestrator::OrchestratorView;
use crate::seqs;
use crate::services::clients;
use crate::services::clients::ClientView;
use crate::services::model;
use crate::services::model::{
    EntryView, PlaceView, RegisteredView, ServiceView, ServicesView, TriggerView,
};
use crate::table;
use vstd::prelude::*;

verus! {

/// The services and the orchestrator.
#[verifier::ext_equal]
pub struct World {
    pub services: ServicesView,
    pub orch: OrchestratorView,
}

/// A change that services have to be brought in line with.
#[verifier::ext_equal]
pub enum ChangeView {
    Removed { name: Seq<char> },
    DepsChanged { name: Seq<char> },
    ReachabilityChanged { name: Seq<char> },
    ReplicasRemoved { name: Seq<char>, ip: IpAddr },
    ReplicaRemoved { name: Seq<char>, ip: IpAddr, docker_container: Option<Seq<char>> },
    ProxyDisconnected { ip: IpAddr },
    ProxyClientTimedOut { name: Seq<char>, client: ClientView },
    BackendChainTimedOut {
        initiator_name: Seq<char>,
        initiator_ip: IpAddr,
        initiator_docker: Option<Seq<char>>,
        first_dependency: Seq<char>,
    },
}

/// Which proxy clients of a service to disconnect.
#[verifier::ext_equal]
pub enum FilterView {
    All,
    ByIp(IpAddr),
    ByClient(ClientView),
    On(PlaceView),
}

impl FilterView {
    /// Whether the filter selects a client of the replica at `ip` in container `docker`: a proxy
    /// client that is as asked for.
    pub open spec fn selects_at(
        self,
        client: ClientView,
        ip: IpAddr,
        docker: Option<Seq<char>>,
    ) -> bool {
        client.proxy is Some && match self {
            FilterView::All => true,
            FilterView::ByIp(proxy) => client.proxy == Some(proxy),
            FilterView::ByClient(c) => client == c,
            FilterView::On(place) => place.covers(ip, docker),
        }
    }

    /// Whether the filter selects a connection.
    pub open spec fn selects(self, e: EntryView) -> bool {
        self.selects_at(e.client, e.ip, e.docker_container)
    }

    /// A function that keeps the connections that the filter selects.
    pub open spec fn selected(self) -> spec_fn(EntryView) -> Seq<EntryView> {
        |e: EntryView|
            if self.selects(e) {
                seq![e]
            } else {
                Seq::empty()
            }
    }
}

/// A replica of a service, as a node of a chain.
#[verifier::ext_equal]
pub struct NodeView {
    pub name: Seq<char>,
    pub ip: IpAddr,
    pub docker: Option<Seq<char>>,
}

/// A connection that a chain may run over: a client, and the service that it is connected to.
pub type ChainEdge = (ClientView, Seq<char>);

/// A connection on the way of a chain: a client, and the replica that it is connected to.
pub type ChainHop = (ClientView, NodeView);

/// The configured dependencies of a service.
pub open spec fn dependencies(services: ServicesView, name: Seq<char>) -> Seq<Seq<char>> {
    match table::lookup(services, name) {
        Some(si) => si.config().dependencies,
        None => Seq::empty(),
    }
}

/// The replica of service `name` that client `c` is connected to.
pub open spec fn connection(
    services: ServicesView,
    c: ClientView,
    name: Seq<char>,
) -> Option<NodeView> {
    match model::registered(services, name) {
        Some(reg) => if reg.holds(c) {
            let r = reg.replicas[reg.holder(c)];
            Some(NodeView { name, ip: r.ip, docker: r.docker_container })
        } else {
            None
        },
        None => None,
    }
}

/// The replica of service `name` that the backend chains of client `c` lead to.
pub open spec fn entry_connection(
    services: ServicesView,
    c: ClientView,
    name: Seq<char>,
) -> Option<NodeView> {
    match model::registered(services, name) {
        Some(reg) => if reg.holds(c) {
            let r = reg.replicas[reg.entry_holder(c)];
            Some(NodeView { name, ip: r.ip, docker: r.docker_container })
        } else {
            None
        },
        None => None,
    }
}

/// The last of the replicas that client `c` is connected to, by service.
pub open spec fn last_connection(
    services: ServicesView,
    c: ClientView,
    names: Seq<Seq<char>>,
) -> Option<NodeView>
    decreases names.len(),
{
    if names.len() == 0 {
        None
    } else {
        match connection(services, c, names.last()) {
            Some(node) => Some(node),
            None => last_connection(services, c, names.drop_last()),
        }
    }
}

impl NodeView {
    /// The node as a client of other services.
    pub open spec fn client(self) -> ClientView {
        clients::service_client(self.name, self.ip, self.docker)
    }

    /// The connections that lead from the node to its dependencies.
    pub open spec fn edges(self, services: ServicesView) -> Seq<ChainEdge> {
        let deps = dependencies(services, self.name);
        Seq::new(deps.len(), |k: int| (self.client(), deps[k]))
    }

    /// The node that a chain goes on to.
    pub open spec fn next(self, services: ServicesView) -> Option<NodeView> {
        last_connection(services, self.client(), dependencies(services, self.name))
    }

    /// The connections on the way from the node, over at most `steps` nodes.
    pub open spec fn walk(self, services: ServicesView, steps: nat) -> Seq<ChainEdge>
        decreases steps,
    {
        if steps == 0 {
            Seq::empty()
        } else {
            self.edges(services) + match self.next(services) {
                Some(node) => node.walk(services, (steps - 1) as nat),
                None => Seq::empty(),
            }
        }
    }
}

/// The number of replicas of all services.
pub open spec fn replica_count(services: ServicesView) -> nat
    decreases services.len(),
{
    if services.len() == 0 {
        0
    } else {
        replica_count(services.drop_last()) + services.last().1.replicas().len()
    }
}

/// The connections that lie on the way from a node, where each node on it is followed along its own
/// dependencies. A way that comes to an end passes each replica at most once.
pub open spec fn chain_edges(services: ServicesView, node: NodeView) -> Seq<ChainEdge> {
    node.walk(services, replica_count(services) + 1)
}

/// A function that counts one chain fewer over a connection.
pub open spec fn decrement_edge() -> spec_fn(World, ChainEdge) -> World {
    |w: World, e: ChainEdge| w.decrement(e.0, e.1)
}

/// A function that counts one chain fewer over a connection to a replica.
pub open spec fn decrement_hop() -> spec_fn(World, ChainHop) -> World {
    |w: World, h: ChainHop| w.decrement_at(h.0, h.1.name, h.1.ip, h.1.docker)
}

/// A function that takes down the dependency chain of a connection to service `name`.
pub open spec fn take_down_deps(name: Seq<char>) -> spec_fn(World, EntryView) -> World {
    |w: World, e: EntryView|
        w.teardown_dep_chain(NodeView { name, ip: e.ip, docker: e.docker_container })
}

/// A function that frees the network of a connection.
pub open spec fn take_down_net() -> spec_fn(OrchestratorView, EntryView) -> OrchestratorView {
    |o: OrchestratorView, e: EntryView|
        o.teardown(
            e.info.client_ip,
            e.info.docker_container,
            e.ip,
            e.docker_container,
            e.info.net_id,
        )
}

/// A function that disconnects the client of a connection.
pub open spec fn disconnect() -> spec_fn(RegisteredView, EntryView) -> RegisteredView {
    |reg: RegisteredView, e: EntryView| reg.without_client(e.client)
}

/// A function that takes down the selected proxy chains of a service.
pub open spec fn take_down(filter: FilterView) -> spec_fn(World, Seq<char>) -> World {
    |w: World, name: Seq<char>| w.teardown_chain(name, filter)
}

/// A function that takes down the proxy chains through the replica that a client stands for.
pub open spec fn take_down_source() -> spec_fn(World, ClientView) -> World {
    |w: World, c: ClientView|
        match c.replica {
            Some((ip, docker)) => w.teardown_chain(
                c.name,
                FilterView::On(PlaceView::Replica(ip, docker)),
            ),
            None => w,
        }
}

/// A function that gives the name of a running service that is, or depends on, service `name`.
pub open spec fn dependent_on(name: Seq<char>) -> spec_fn((Seq<char>, ServiceView)) -> Seq<
    Seq<char>,
> {
    |s: (Seq<char>, ServiceView)|
        if s.1 is Registered && (s.0 == name || s.1.config().dependencies.contains(name)) {
            seq![s.0]
        } else {
            Seq::empty()
        }
}

/// A function that gives the name of a service that a client is connected to through proxy `ip`.
pub open spec fn served_through(ip: IpAddr) -> spec_fn((Seq<char>, ServiceView)) -> Seq<
    Seq<char>,
> {
    |s: (Seq<char>, ServiceView)|
        match s.1 {
            ServiceView::Registered(reg) => if reg.has_proxy_clients_of(ip) {
                seq![s.0]
            } else {
                Seq::empty()
            },
            ServiceView::Unregistered(_) => Seq::empty(),
        }
}

/// Whether every replica of a running service is at `ip`.
pub open spec fn runs_only_on(services: ServicesView, name: Seq<char>, ip: IpAddr) -> bool {
    match model::registered(services, name) {
        Some(reg) => forall|i: int|
            0 <= i < reg.replicas.len() ==> (#[trigger] reg.replicas[i]).ip == ip,
        None => false,
    }
}

/// Whether a running service has one replica.
pub open spec fn runs_once(services: ServicesView, name: Seq<char>) -> bool {
    match model::registered(services, name) {
        Some(reg) => reg.replicas.len() == 1,
        None => false,
    }
}

/// A function that gives the chain of a trigger that starts with a dependency.
pub open spec fn chain_starting(first: Seq<char>) -> spec_fn(TriggerView) -> Seq<Seq<Seq<char>>> {
    |t: TriggerView|
        if t.chain.len() > 0 && t.chain[0] == first {
            seq![t.chain]
        } else {
            Seq::empty()
        }
}

/// The trigger chains of a service that start with a dependency.
pub open spec fn chains_from(
    services: ServicesView,
    name: Seq<char>,
    first: Seq<char>,
) -> Seq<Seq<Seq<char>>> {
    match table::lookup(services, name) {
        Some(si) => seqs::concat_map(si.config().triggers, chain_starting(first)),
        None => Seq::empty(),
    }
}

/// The way of a linear chain from a node along `names`, as far as it is set up.
pub open spec fn path(
    services: ServicesView,
    node: NodeView,
    names: Seq<Seq<char>>,
) -> Seq<ChainHop>
    decreases names.len(),
{
    if names.len() == 0 {
        Seq::empty()
    } else {
        match connection(services, node.client(), names[0]) {
            Some(next) => seq![(node.client(), next)] + path(services, next, names.drop_first()),
            None => Seq::empty(),
        }
    }
}

/// The way of a chain that a node triggers, as far as it is set up.
pub open spec fn backend_path(
    services: ServicesView,
    node: NodeView,
    chain: Seq<Seq<char>>,
) -> Seq<ChainHop> {
    if chain.len() == 0 {
        Seq::empty()
    } else {
        match entry_connection(services, node.client(), chain[0]) {
            Some(entry) => seq![(node.client(), entry)] + path(services, entry, chain.drop_first()),
            None => Seq::empty(),
        }
    }
}

/// A function that gives the way of a chain that a node triggers, where all of it is set up.
pub open spec fn whole_path(services: ServicesView, node: NodeView) -> spec_fn(
    Seq<Seq<char>>,
) -> Seq<ChainHop> {
    |chain: Seq<Seq<char>>|
        if backend_path(services, node, chain).len() == chain.len() {
            backend_path(services, node, chain)
        } else {
            Seq::empty()
        }
}

/// The ways of the chains that a node triggered and that start with a dependency. Where none of them is
/// set up as a whole, what is set up of the first one; where none is configured any more, the connection
/// to the dependency.
pub open spec fn backend_hops(
    services: ServicesView,
    node: NodeView,
    first: Seq<char>,
) -> Seq<ChainHop> {
    let chains = chains_from(services, node.name, first);
    let all = seqs::concat_map(chains, whole_path(services, node));
    if all.len() > 0 {
        all
    } else if chains.len() > 0 {
        backend_path(services, node, chains[0])
    } else {
        backend_path(services, node, seq![first])
    }
}

/// Whether a chain from a node along `names` is connected: from each replica on the way to one of the
/// next service.
pub open spec fn reaches(services: ServicesView, node: NodeView, names: Seq<Seq<char>>) -> bool
    decreases names.len(),
{
    names.len() == 0 || match model::registered(services, names[0]) {
        Some(reg) => exists|i: int| #[trigger]
            is_next(reg, node, i) && reaches(
                services,
                NodeView {
                    name: names[0],
                    ip: reg.replicas[i].ip,
                    docker: reg.replicas[i].docker_container,
                },
                names.drop_first(),
            ),
        None => false,
    }
}

/// A node is connected to replica `i` of a service.
pub open spec fn is_next(reg: RegisteredView, node: NodeView, i: int) -> bool {
    0 <= i < reg.replicas.len() && table::has_key(reg.replicas[i].clients, node.client())
}

/// The connections of a linear chain from a node along `names`, as far as they are set up.
pub open spec fn linear_edges(
    services: ServicesView,
    node: NodeView,
    names: Seq<Seq<char>>,
) -> Seq<ChainEdge>
    decreases names.len(),
{
    if names.len() == 0 {
        Seq::empty()
    } else {
        match connection(services, node.client(), names[0]) {
            Some(next) => seq![(node.client(), names[0])] + linear_edges(
                services,
                next,
                names.drop_first(),
            ),
            None => Seq::empty(),
        }
    }
}

/// The connections of the chain along a node's dependencies, as far as they are set up.
pub open spec fn dep_edges(services: ServicesView, node: NodeView) -> Seq<ChainEdge> {
    linear_edges(services, node, dependencies(services, node.name))
}

impl World {
    /// After service `name` was replaced.
    pub open spec fn with_service(self, name: Seq<char>, si: ServiceView) -> World {
        World { services: table::put(self.services, name, si), ..self }
    }

    /// After one chain fewer runs over the connection of client `c` to service `name`.
    #[verifier::opaque]
    pub open spec fn decrement(self, c: ClientView, name: Seq<char>) -> World {
        match model::registered(self.services, name) {
            Some(reg) => {
                let (reg, orch) = reg.decremented(c, self.orch);
                World { orch, ..self.with_service(name, ServiceView::Registered(reg)) }
            },
            None => self,
        }
    }

    /// After one chain fewer runs over the connection of client `c` to the replica of service `name` at
    /// `ip` in container `docker`.
    #[verifier::opaque]
    pub open spec fn decrement_at(
        self,
        c: ClientView,
        name: Seq<char>,
        ip: IpAddr,
        docker: Option<Seq<char>>,
    ) -> World {
        match model::registered(self.services, name) {
            Some(reg) => {
                let (reg, orch) = reg.decremented_at(ip, docker, c, self.orch);
                World { orch, ..self.with_service(name, ServiceView::Registered(reg)) }
            },
            None => self,
        }
    }

    /// After one chain fewer runs over each connection of the chain along a node's dependencies.
    #[verifier::opaque]
    pub open spec fn teardown_dep_chain(self, node: NodeView) -> World {
        seqs::fold(self, dep_edges(self.services, node), decrement_edge())
    }

    /// After the proxy chains that a filter selects were taken down: first their dependency
    /// chains, then the networks of the proxy clients, then the clients themselves.
    #[verifier::opaque]
    pub open spec fn teardown_chain(self, name: Seq<char>, filter: FilterView) -> World {
        match model::registered(self.services, name) {
            Some(reg) => {
                let entries = seqs::concat_map(reg.entries(), filter.selected());
                let w = seqs::fold(self, entries, take_down_deps(name));
                let orch = seqs::fold(w.orch, entries, take_down_net());
                let w = World { orch, ..w };
                match model::registered(w.services, name) {
                    Some(reg) => w.with_service(
                        name,
                        ServiceView::Registered(seqs::fold(reg, entries, disconnect())),
                    ),
                    None => w,
                }
            },
            None => self,
        }
    }

    /// After the proxy chains of a service and of those that depend on it were taken down. A service that
    /// failed does not run any more.
    #[verifier::opaque]
    pub open spec fn teardown_invalidated_service(self, name: Seq<char>, is_failed: bool) -> World {
        let names = seqs::concat_map(self.services, dependent_on(name));
        let w = seqs::fold(self, names, take_down(FilterView::All));
        if is_failed && model::registered(w.services, name) is Some {
            w.with_service(
                name,
                ServiceView::Unregistered(model::registered(w.services, name)->0.config),
            )
        } else {
            w
        }
    }

    /// After the proxy chains through the replicas in a place were taken down: those of services that are
    /// connected to such a replica, then those of the service itself.
    #[verifier::opaque]
    pub open spec fn teardown_partial_replicas(self, name: Seq<char>, place: PlaceView) -> World {
        match model::registered(self.services, name) {
            Some(reg) => seqs::fold(
                self,
                reg.service_clients(place),
                take_down_source(),
            ).teardown_chain(name, FilterView::On(place)),
            None => self,
        }
    }

    /// After replicas in a place stopped.
    pub open spec fn without_replicas(self, name: Seq<char>, place: PlaceView) -> World {
        match table::lookup(self.services, name) {
            Some(si) => self.with_service(name, si.without_replicas(place)),
            None => self,
        }
    }

    /// After the connection of client `c` to a replica was marked or not as the entry of a backend chain.
    #[verifier::opaque]
    pub open spec fn marked_at(self, c: ClientView, at: NodeView, is_backend_entry: bool) -> World {
        match model::registered(self.services, at.name) {
            Some(reg) => self.with_service(
                at.name,
                ServiceView::Registered(reg.marked_at(at.ip, at.docker, c, is_backend_entry)),
            ),
            None => self,
        }
    }

    /// After one chain fewer runs over each connection of the chains that triggers set up over a
    /// node's connection to a dependency, which is their entry no more.
    #[verifier::opaque]
    pub open spec fn teardown_backend_chain(
        self,
        initiator: NodeView,
        first_dependency: Seq<char>,
    ) -> World {
        let c = initiator.client();
        let w = seqs::fold(
            self,
            backend_hops(self.services, initiator, first_dependency),
            decrement_hop(),
        );
        match entry_connection(self.services, c, first_dependency) {
            Some(entry) => w.marked_at(c, entry, false),
            None => w,
        }
    }

    /// After the services were brought in line with a change.
    #[verifier::opaque]
    pub open spec fn apply(self, change: ChangeView) -> World {
        match change {
            ChangeView::Removed { name } => {
                let w = self.teardown_invalidated_service(name, true);
                World { services: table::del(w.services, name), ..w }
            },
            ChangeView::DepsChanged { name } => self.teardown_invalidated_service(name, false),
            ChangeView::ReachabilityChanged { name } => self.teardown_chain(name, FilterView::All),
            ChangeView::ReplicasRemoved { name, ip } => if runs_only_on(self.services, name, ip) {
                self.teardown_invalidated_service(name, true)
            } else {
                self.teardown_partial_replicas(name, PlaceView::Host(ip)).without_replicas(
                    name,
                    PlaceView::Host(ip),
                )
            },
            ChangeView::ReplicaRemoved { name, ip, docker_container } => if runs_once(
                self.services,
                name,
            ) {
                self.teardown_invalidated_service(name, true)
            } else {
                let place = PlaceView::Replica(ip, docker_container);
                self.teardown_partial_replicas(name, place).without_replicas(name, place)
            },
            ChangeView::ProxyDisconnected { ip } => seqs::fold(
                self,
                seqs::concat_map(self.services, served_through(ip)),
                take_down(FilterView::ByIp(ip)),
            ),
            ChangeView::ProxyClientTimedOut { name, client } => self.teardown_chain(
                name,
                FilterView::ByClient(client),
            ),
            ChangeView::BackendChainTimedOut {
                initiator_name,
                initiator_ip,
                initiator_docker,
                first_dependency,
            } => self.teardown_backend_chain(
                NodeView { name: initiator_name, ip: initiator_ip, docker: initiator_docker },
                first_dependency,
            ),
        }
    }

    /// After the services were brought in line with changes, one after the other.
    pub open spec fn apply_all(self, changes: Seq<ChangeView>) -> World {
        seqs::fold(self, changes, apply_change())
    }

    /// After the services took over a loaded configuration: those present keep their replicas,
    /// new ones are added.
    pub open spec fn merged(self, loaded: ServicesView) -> World {
        World { services: seqs::fold(self.services, loaded, merge_service()), ..self }
    }
}

/// A function that brings the services in line with a change.
pub open spec fn apply_change() -> spec_fn(World, ChangeView) -> World {
    |w: World, change: ChangeView| w.apply(change)
}

/// A function that merges a loaded service into the services.
pub open spec fn merge_service() -> spec_fn(ServicesView, (Seq<char>, ServiceView)) -> ServicesView {
    |services: ServicesView, s: (Seq<char>, ServiceView)|
        match table::lookup(services, s.0) {
            Some(present) => table::put(services, s.0, present.with_config(s.1.config())),
            None => table::put(services, s.0, s.1),
        }
}

/// A service that is put back as it is leaves the services as they are.
pub proof fn lemma_same_service(w: World, name: Seq<char>)
    ensures
        table::lookup(w.services, name) matches Some(si) ==> w.with_service(name, si) == w,
{
    if table::has_key(w.services, name) {
        table::lemma_put_same(w.services, name);
    }
}

} // verus!
