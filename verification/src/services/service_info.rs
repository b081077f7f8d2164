//! What is known of a service: its configuration and, where it runs, its replicas.
use crate::addr::IpAddr;
use crate::orchestrator::Orchestrator;
use crate::seqs;
use crate::services::clients::{Client, ClientInfo, ClientView, Clients};
use crate::services::edge::Edge;
use crate::services::connections;
use crate::services::model;
use crate::services::model::{
    ConfigView, EntryView, PlaceView, RegisteredView, ReplicaView, ServiceView, TriggerView,
    UpstreamView,
};
use crate::table;
use crate::table::{Key, Table};
use crate::text;
use vstd::prelude::*;

verus! {

/// The services by name.
pub type Services = Table<String, ServiceInfo>;

/// A port on the initiator's host and the chain that is set up when it is used.
#[derive(Debug)]
pub struct Trigger {
    pub port: u16,
    pub chain: Vec<String>,
}

impl View for Trigger {
    type V = TriggerView;

    open spec fn view(&self) -> TriggerView {
        TriggerView { port: self.port, chain: self.chain.deep_view() }
    }
}

impl DeepView for Trigger {
    type V = TriggerView;

    open spec fn deep_view(&self) -> TriggerView {
        self@
    }
}

impl Clone for Trigger {
    fn clone(&self) -> (r: Self)
        ensures
            r@ == self@,
    {
        Trigger { port: self.port, chain: text::copy_list(&self.chain) }
    }
}

/// A copy of a list of triggers.
pub fn copy_triggers(list: &Vec<Trigger>) -> (r: Vec<Trigger>)
    ensures
        r.deep_view() == list.deep_view(),
{
    let mut r: Vec<Trigger> = Vec::new();
    let mut i: usize = 0;
    while i < list.len()
        invariant
            i <= list.len(),
            r.deep_view() =~= list.deep_view().take(i as int),
        decreases list.len() - i,
    {
        let ghost before = r.deep_view();
        r.push(list[i].clone());
        assert(r.deep_view() =~= before.push(list.deep_view()[i as int]));
        i = i + 1;
    }
    assert(r.deep_view() =~= list.deep_view());
    r
}

/// Where a client reaches a service.
#[derive(Debug, PartialEq, Eq)]
pub struct Upstream {
    pub ip: String,
    pub port: u32,
}

impl View for Upstream {
    type V = UpstreamView;

    open spec fn view(&self) -> UpstreamView {
        UpstreamView { ip: self.ip@, port: self.port }
    }
}

impl DeepView for Upstream {
    type V = UpstreamView;

    open spec fn deep_view(&self) -> UpstreamView {
        self@
    }
}

/// Where replicas run: on a host, or in one container of a host.
#[derive(Debug)]
pub enum Place {
    Host(IpAddr),
    Replica(IpAddr, Option<String>),
}

impl View for Place {
    type V = PlaceView;

    open spec fn view(&self) -> PlaceView {
        match *self {
            Place::Host(ip) => PlaceView::Host(ip),
            Place::Replica(ip, docker) => PlaceView::Replica(ip, docker.deep_view()),
        }
    }
}

impl Clone for Place {
    fn clone(&self) -> (r: Self)
        ensures
            r@ == self@,
    {
        match self {
            Place::Host(ip) => Place::Host(*ip),
            Place::Replica(ip, docker) => Place::Replica(*ip, text::copy_option(docker)),
        }
    }
}

impl Place {
    /// Whether a replica at `ip` in container `docker` runs in the place.
    pub fn covers(&self, ip: IpAddr, docker: &Option<String>) -> (r: bool)
        ensures
            r == self@.covers(ip, docker.deep_view()),
    {
        match self {
            Place::Host(host) => ip == *host,
            Place::Replica(host, container) => ip == *host && text::same_option(docker, container),
        }
    }
}

/// The configuration of a service.
#[derive(Debug)]
pub struct ServiceConfig {
    dependencies: Vec<String>,
    triggers: Vec<Trigger>,
    timeout: Option<u64>,
    max_networks: Option<u32>,
}

impl View for ServiceConfig {
    type V = ConfigView;

    closed spec fn view(&self) -> ConfigView {
        ConfigView {
            dependencies: self.dependencies.deep_view(),
            triggers: self.triggers.deep_view(),
            timeout: self.timeout,
            max_networks: self.max_networks,
        }
    }
}

impl Clone for ServiceConfig {
    fn clone(&self) -> (r: Self)
        ensures
            r@ == self@,
    {
        ServiceConfig {
            dependencies: text::copy_list(&self.dependencies),
            triggers: copy_triggers(&self.triggers),
            timeout: self.timeout,
            max_networks: self.max_networks,
        }
    }
}

/// A service that is configured and does not run.
#[derive(Debug)]
pub struct UnregisteredServiceInfo {
    config: ServiceConfig,
}

impl View for UnregisteredServiceInfo {
    type V = ConfigView;

    closed spec fn view(&self) -> ConfigView {
        self.config@
    }
}

impl UnregisteredServiceInfo {
    pub fn new(
        dependencies: Vec<String>,
        triggers: Vec<Trigger>,
        timeout: Option<u64>,
        max_networks: Option<u32>,
    ) -> (r: Self)
        ensures
            r@ == (ConfigView {
                dependencies: dependencies.deep_view(),
                triggers: triggers.deep_view(),
                timeout,
                max_networks,
            }),
    {
        UnregisteredServiceInfo {
            config: ServiceConfig { dependencies, triggers, timeout, max_networks },
        }
    }
}

/// A replica of a service.
#[derive(Debug)]
pub struct Replica {
    ip: IpAddr,
    port: u16,
    docker_container: Option<String>,
    clients: Clients,
}

impl View for Replica {
    type V = ReplicaView;

    closed spec fn view(&self) -> ReplicaView {
        ReplicaView {
            ip: self.ip,
            port: self.port,
            docker_container: self.docker_container.deep_view(),
            clients: self.clients@,
        }
    }
}

impl DeepView for Replica {
    type V = ReplicaView;

    open spec fn deep_view(&self) -> ReplicaView {
        self@
    }
}

impl Clone for Replica {
    fn clone(&self) -> (r: Self)
        ensures
            r@ == self@,
    {
        Replica {
            ip: self.ip,
            port: self.port,
            docker_container: text::copy_option(&self.docker_container),
            clients: self.clients.clone(),
        }
    }
}

impl Replica {
    /// A replica without clients.
    fn new(ip: IpAddr, port: u16, docker_container: Option<String>) -> (r: Self)
        ensures
            r@ == (ReplicaView {
                ip,
                port,
                docker_container: docker_container.deep_view(),
                clients: Seq::empty(),
            }),
    {
        Replica { ip, port, docker_container, clients: Clients::default() }
    }

    pub fn ip(&self) -> (r: IpAddr)
        ensures
            r == self@.ip,
    {
        self.ip
    }

    pub fn port(&self) -> (r: u16)
        ensures
            r == self@.port,
    {
        self.port
    }

    pub fn docker_container(&self) -> (r: &Option<String>)
        ensures
            r.deep_view() == self@.docker_container,
    {
        &self.docker_container
    }

    pub fn clients(&self) -> (r: &Table<Client, ClientInfo>)
        ensures
            r@ == self@.clients,
    {
        self.clients.clients()
    }

    /// A replica is identified by its address and its container.
    pub fn matches_identity(&self, ip: IpAddr, docker_container: &Option<String>) -> (r: bool)
        ensures
            r == self@.matches(ip, docker_container.deep_view()),
    {
        self.ip == ip && text::same_option(&self.docker_container, docker_container)
    }

    /// Adds the connections of the replica to a list.
    fn collect_entries(&self, list: &mut Vec<Entry>)
        ensures
            final(list).deep_view() == old(list).deep_view() + self@.entries(),
    {
        let clients = self.clients.clients();
        let mut i: usize = 0;
        while i < clients.len()
            invariant
                i <= clients@.len(),
                clients@ == self@.clients,
                list.deep_view() =~= old(list).deep_view() + self@.entries().take(i as int),
            decreases clients@.len() - i,
        {
            let ghost before = list.deep_view();
            list.push(
                Entry {
                    client: clients.key_at(i).clone(),
                    info: clients.value_at(i).clone(),
                    ip: self.ip,
                    docker_container: text::copy_option(&self.docker_container),
                    port: self.port,
                },
            );
            assert(list.deep_view() =~= before.push(self@.entries()[i as int]));
            i = i + 1;
        }
        assert(self@.entries().take(i as int) =~= self@.entries());
    }
}

/// A connection of a service, with the replica that it leads to.
#[derive(Debug)]
pub struct Entry {
    pub client: Client,
    pub info: ClientInfo,
    pub ip: IpAddr,
    pub docker_container: Option<String>,
    pub port: u16,
}

impl View for Entry {
    type V = EntryView;

    open spec fn view(&self) -> EntryView {
        EntryView {
            client: self.client@,
            info: self.info@,
            ip: self.ip,
            docker_container: self.docker_container.deep_view(),
            port: self.port,
        }
    }
}

impl DeepView for Entry {
    type V = EntryView;

    open spec fn deep_view(&self) -> EntryView {
        self@
    }
}

/// A service that runs.
#[derive(Debug)]
pub struct RegisteredServiceInfo {
    config: ServiceConfig,
    replicas: Vec<Replica>,
}

impl View for RegisteredServiceInfo {
    type V = RegisteredView;

    closed spec fn view(&self) -> RegisteredView {
        RegisteredView { config: self.config@, replicas: self.replicas.deep_view() }
    }
}

impl Clone for RegisteredServiceInfo {
    fn clone(&self) -> (r: Self)
        ensures
            r@ == self@,
    {
        let mut replicas: Vec<Replica> = Vec::new();
        let mut i: usize = 0;
        while i < self.replicas.len()
            invariant
                i <= self.replicas.len(),
                replicas.deep_view() =~= self.replicas.deep_view().take(i as int),
            decreases self.replicas.len() - i,
        {
            let ghost before = replicas.deep_view();
            replicas.push(self.replicas[i].clone());
            assert(replicas.deep_view() =~= before.push(self.replicas.deep_view()[i as int]));
            i = i + 1;
        }
        assert(replicas.deep_view() =~= self.replicas.deep_view());
        RegisteredServiceInfo { config: self.config.clone(), replicas }
    }
}

/// A service: configured alone, or running too.
#[derive(Debug)]
pub enum ServiceInfo {
    Unregistered(UnregisteredServiceInfo),
    Registered(RegisteredServiceInfo),
}

impl View for ServiceInfo {
    type V = ServiceView;

    open spec fn view(&self) -> ServiceView {
        match *self {
            ServiceInfo::Unregistered(unreg) => ServiceView::Unregistered(unreg@),
            ServiceInfo::Registered(reg) => ServiceView::Registered(reg@),
        }
    }
}

impl DeepView for ServiceInfo {
    type V = ServiceView;

    open spec fn deep_view(&self) -> ServiceView {
        self@
    }
}

impl Clone for ServiceInfo {
    fn clone(&self) -> (r: Self)
        ensures
            r@ == self@,
    {
        match self {
            ServiceInfo::Unregistered(unreg) => ServiceInfo::Unregistered(
                UnregisteredServiceInfo { config: unreg.config.clone() },
            ),
            ServiceInfo::Registered(reg) => ServiceInfo::Registered(reg.clone()),
        }
    }
}

impl RegisteredServiceInfo {
    /// The first replica that the client is connected to.
    fn find_holder(&self, client: &Client) -> (r: Option<usize>)
        ensures
            match r {
                Some(i) => {
                    &&& self@.is_holder(client@, i as int)
                    &&& self@.holds(client@)
                    &&& self@.holder(client@) == i
                },
                None => !self@.holds(client@),
            },
    {
        let mut i: usize = 0;
        while i < self.replicas.len()
            invariant
                i <= self.replicas.len(),
                self@.replicas == self.replicas.deep_view(),
                forall|j: int|
                    0 <= j < i ==> !table::has_key(
                        (#[trigger] self@.replicas[j]).clients,
                        client@,
                    ),
            decreases self.replicas.len() - i,
        {
            assert(self@.replicas[i as int] == self.replicas[i as int]@);
            if self.replicas[i].clients.clients().contains_key(client) {
                proof {
                    lemma_holder(self@, client@, i as int);
                }
                return Some(i);
            }
            i = i + 1;
        }
        None
    }

    /// Counts one more chain over the connection of a client, on the first replica that it is
    /// connected to.
    pub fn add_chain(&mut self, client: &Client, now: u128)
        requires
            old(self)@.info(client@) matches Some(ci) ==> ci.active_chains < usize::MAX,
        ensures
            final(self)@ == old(self)@.with_chain(client@, now as nat),
    {
        if let Some(i) = self.find_holder(client) {
            if let Some(client_info) = self.replicas[i].clients.clients_mut().get_mut(client) {
                client_info.add_active_chain(now);
            }
            assert(self@ =~= old(self)@.with_chain(client@, now as nat));
        }
    }

    /// Marks the connection of a client as used.
    pub fn set_latest_now(&mut self, client: &Client, now: u128)
        ensures
            final(self)@ == old(self)@.used(client@, now as nat),
    {
        if let Some(i) = self.find_holder(client) {
            if let Some(client_info) = self.replicas[i].clients.clients_mut().get_mut(client) {
                client_info.set_latest_now(now);
            }
            assert(self@ =~= old(self)@.used(client@, now as nat));
        }
    }

    /// Counts one chain fewer over the connection of a client. With its last chain the network is
    /// torn down and the connection removed.
    pub fn decrement_chain(&mut self, client: &Client, orchestrator: &mut Orchestrator)
        ensures
            (final(self)@, final(orchestrator)@) == old(self)@.decremented(
                client@,
                old(orchestrator)@,
            ),
    {
        if let Some(i) = self.find_holder(client) {
            let mut last = false;
            if let Some(ci) = self.replicas[i].clients.clients_mut().get_mut(client) {
                if ci.active_chains() <= 1 {
                    last = true;
                } else {
                    ci.remove_active_chains(1);
                }
            }
            if last {
                proof {
                    table::lemma_put_same(old(self)@.replicas[i as int].clients, client@);
                    assert(self@ =~= old(self)@);
                }
                if let Some(ci) = self.replicas[i].clients.clients_mut().remove(client) {
                    orchestrator.send_net_teardown(
                        ci.client_ip(),
                        text::copy_option(ci.docker_container()),
                        self.replicas[i].ip,
                        text::copy_option(&self.replicas[i].docker_container),
                        ci.net_id(),
                    );
                }
                assert(self@ =~= old(self)@.without_client(client@));
            } else {
                assert(self@ =~= old(self)@.decremented(client@, orchestrator@).0);
            }
        }
    }

    /// The address and container of the first replica that a client is connected to.
    pub fn client_replica(&self, client: &Client) -> (r: Option<(IpAddr, Option<String>)>)
        ensures
            r.deep_view() == (if self@.holds(client@) {
                let replica = self@.replicas[self@.holder(client@)];
                Some((replica.ip, replica.docker_container))
            } else {
                None
            }),
    {
        match self.find_holder(client) {
            Some(i) => {
                assert(self@.replicas[i as int] == self.replicas[i as int]@);
                Some(
                    (self.replicas[i].ip, text::copy_option(&self.replicas[i].docker_container)),
                )
            },
            None => None,
        }
    }

    /// The replica with the fewest clients, the first of them where there are several.
    pub fn pick_replica_least_clients(&self) -> (r: Option<&Replica>)
        ensures
            r.deep_view() == self@.least(),
    {
        if self.replicas.len() == 0 {
            assert(self@.replicas.len() == 0);
            return None;
        }
        let mut best: usize = 0;
        let mut i: usize = 1;
        while i < self.replicas.len()
            invariant
                1 <= i <= self.replicas.len(),
                best < i,
                self@.replicas == self.replicas.deep_view(),
                forall|j: int|
                    0 <= j < i ==> self@.replicas[best as int].clients.len() <= (
                    #[trigger] self@.replicas[j]).clients.len(),
                forall|j: int|
                    0 <= j < best ==> self@.replicas[best as int].clients.len() < (
                    #[trigger] self@.replicas[j]).clients.len(),
            decreases self.replicas.len() - i,
        {
            assert(self@.replicas[i as int] == self.replicas[i as int]@);
            assert(self@.replicas[best as int] == self.replicas[best as int]@);
            if self.replicas[i].clients.clients().len() < self.replicas[best].clients.clients().len() {
                best = i;
            }
            i = i + 1;
        }
        proof {
            lemma_least(self@, best as int);
            assert(self@.replicas[best as int] == self.replicas[best as int]@);
        }
        Some(&self.replicas[best])
    }

    /// The first replica at `ip` in container `docker`.
    fn find_replica(&self, ip: IpAddr, docker: &Option<String>) -> (r: Option<usize>)
        ensures
            match r {
                Some(i) => {
                    &&& self@.is_replica(ip, docker.deep_view(), i as int)
                    &&& self@.has_replica(ip, docker.deep_view())
                    &&& self@.replica_index(ip, docker.deep_view()) == i
                },
                None => !self@.has_replica(ip, docker.deep_view()),
            },
    {
        let mut i: usize = 0;
        while i < self.replicas.len()
            invariant
                i <= self.replicas.len(),
                self@.replicas == self.replicas.deep_view(),
                forall|j: int|
                    0 <= j < i ==> !(#[trigger] self@.replicas[j]).matches(
                        ip,
                        docker.deep_view(),
                    ),
            decreases self.replicas.len() - i,
        {
            assert(self@.replicas[i as int] == self.replicas[i as int]@);
            if self.replicas[i].matches_identity(ip, docker) {
                proof {
                    lemma_replica(self@, ip, docker.deep_view(), i as int);
                }
                return Some(i);
            }
            i = i + 1;
        }
        None
    }

    /// Connects a client to the replica at `replica_ip` in container `replica_docker`, where there
    /// is one.
    pub fn add_client_to_replica(
        &mut self,
        replica_ip: IpAddr,
        replica_docker: &Option<String>,
        client: Client,
        client_info: ClientInfo,
    )
        ensures
            final(self)@ == old(self)@.with_client(
                replica_ip,
                replica_docker.deep_view(),
                client@,
                client_info@,
            ),
    {
        if let Some(i) = self.find_replica(replica_ip, replica_docker) {
            self.replicas[i].clients.add_client(client, client_info);
            assert(self@ =~= old(self)@.with_client(
                replica_ip,
                replica_docker.deep_view(),
                client@,
                client_info@,
            ));
        }
    }

    /// Counts one more chain over the connection of a client to the replica at `ip` in container
    /// `docker`.
    pub fn add_chain_on_replica(
        &mut self,
        client: &Client,
        ip: IpAddr,
        docker: &Option<String>,
        now: u128,
    )
        requires
            old(self)@.info_at(ip, docker.deep_view(), client@) matches Some(ci)
                ==> ci.active_chains < usize::MAX,
        ensures
            final(self)@ == old(self)@.with_chain_at(
                ip,
                docker.deep_view(),
                client@,
                now as nat,
            ),
    {
        if let Some(i) = self.find_replica(ip, docker) {
            assert(self@.replicas[i as int] == self.replicas[i as int]@);
            if let Some(client_info) = self.replicas[i].clients.clients_mut().get_mut(client) {
                client_info.add_active_chain(now);
            }
            assert(self@ =~= old(self)@.with_chain_at(
                ip,
                docker.deep_view(),
                client@,
                now as nat,
            ));
        }
    }

    /// Counts one chain fewer over the connection of a client to the replica at `ip` in container
    /// `docker`. With its last chain the network is torn down and the connection removed.
    pub fn decrement_chain_on_replica(
        &mut self,
        client: &Client,
        ip: IpAddr,
        docker: &Option<String>,
        orchestrator: &mut Orchestrator,
    )
        ensures
            (final(self)@, final(orchestrator)@) == old(self)@.decremented_at(
                ip,
                docker.deep_view(),
                client@,
                old(orchestrator)@,
            ),
    {
        if let Some(i) = self.find_replica(ip, docker) {
            assert(self@.replicas[i as int] == self.replicas[i as int]@);
            let mut last = false;
            if let Some(ci) = self.replicas[i].clients.clients_mut().get_mut(client) {
                if ci.active_chains() <= 1 {
                    last = true;
                } else {
                    ci.remove_active_chains(1);
                }
            }
            if last {
                proof {
                    table::lemma_put_same(old(self)@.replicas[i as int].clients, client@);
                    assert(self@ =~= old(self)@);
                }
                if let Some(ci) = self.replicas[i].clients.clients_mut().remove(client) {
                    orchestrator.send_net_teardown(
                        ci.client_ip(),
                        text::copy_option(ci.docker_container()),
                        ip,
                        text::copy_option(docker),
                        ci.net_id(),
                    );
                }
                assert(self@ =~= old(self)@.without_client_at(
                    ip,
                    docker.deep_view(),
                    client@,
                ));
            } else {
                assert(self@ =~= old(self)@.decremented_at(
                    ip,
                    docker.deep_view(),
                    client@,
                    orchestrator@,
                ).0);
            }
        }
    }

    /// Marks the connection of a client to the replica at `ip` in container `docker` as used.
    pub fn set_latest_on_replica(
        &mut self,
        client: &Client,
        ip: IpAddr,
        docker: &Option<String>,
        now: u128,
    )
        ensures
            final(self)@ == old(self)@.used_at(ip, docker.deep_view(), client@, now as nat),
    {
        if let Some(i) = self.find_replica(ip, docker) {
            assert(self@.replicas[i as int] == self.replicas[i as int]@);
            if let Some(client_info) = self.replicas[i].clients.clients_mut().get_mut(client) {
                client_info.set_latest_now(now);
            }
            assert(self@ =~= old(self)@.used_at(ip, docker.deep_view(), client@, now as nat));
        }
    }

    /// Marks the connection of a client to the replica at `ip` in container `docker` or not as the entry
    /// of a backend chain.
    pub fn mark_entry(
        &mut self,
        client: &Client,
        ip: IpAddr,
        docker: &Option<String>,
        is_backend_entry: bool,
    )
        ensures
            final(self)@ == old(self)@.marked_at(
                ip,
                docker.deep_view(),
                client@,
                is_backend_entry,
            ),
    {
        if let Some(i) = self.find_replica(ip, docker) {
            assert(self@.replicas[i as int] == self.replicas[i as int]@);
            if let Some(client_info) = self.replicas[i].clients.clients_mut().get_mut(client) {
                client_info.set_backend_entry(is_backend_entry);
            }
            assert(self@ =~= old(self)@.marked_at(
                ip,
                docker.deep_view(),
                client@,
                is_backend_entry,
            ));
        }
    }

    /// The address and container of the replica that the backend chains of a client lead to.
    pub fn entry_replica(&self, client: &Client) -> (r: Option<(IpAddr, Option<String>)>)
        ensures
            r.deep_view() == (if self@.holds(client@) {
                let replica = self@.replicas[self@.entry_holder(client@)];
                Some((replica.ip, replica.docker_container))
            } else {
                None
            }),
    {
        let mut i: usize = 0;
        while i < self.replicas.len()
            invariant
                i <= self.replicas.len(),
                self@.replicas == self.replicas.deep_view(),
                forall|j: int| 0 <= j < i ==> !#[trigger] self@.has_entry(client@, j),
            decreases self.replicas.len() - i,
        {
            assert(self@.replicas[i as int] == self.replicas[i as int]@);
            if let Some(ci) = self.replicas[i].clients.clients().get(client) {
                if ci.is_backend_entry() {
                    proof {
                        lemma_entry_holder(self@, client@, i as int);
                    }
                    return Some(
                        (
                            self.replicas[i].ip,
                            text::copy_option(&self.replicas[i].docker_container),
                        ),
                    );
                }
            }
            i = i + 1;
        }
        assert forall|j: int| !self@.is_entry_holder(client@, j) by {
            if self@.is_entry_holder(client@, j) {
                assert(self@.has_entry(client@, j));
            }
        }
        self.client_replica(client)
    }

    /// Removes a client from the replica at `ip` in container `docker`.
    pub fn remove_client_from_replica(
        &mut self,
        client: &Client,
        ip: IpAddr,
        docker: &Option<String>,
    )
        ensures
            final(self)@ == old(self)@.without_client_at(ip, docker.deep_view(), client@),
    {
        if let Some(i) = self.find_replica(ip, docker) {
            self.replicas[i].clients.clients_mut().remove(client);
            assert(self@ =~= old(self)@.without_client_at(ip, docker.deep_view(), client@));
        }
    }

    /// Where a client reaches the service, if it is connected.
    pub fn is_client_setup(&self, client: &Client) -> (r: Option<Upstream>)
        ensures
            r.deep_view() == self@.upstream(client@),
    {
        match self.find_holder(client) {
            Some(i) => {
                assert(self@.replicas[i as int] == self.replicas[i as int]@);
                match self.replicas[i].clients.is_client_setup(client) {
                    Some(server_net) => Some(
                        Upstream {
                            ip: server_net.to_text(),
                            port: self.replicas[i].port as u32,
                        },
                    ),
                    None => None,
                }
            },
            None => None,
        }
    }

    /// Whether a client is connected to the replica at `ip` in container `docker`.
    pub fn is_client_on_replica(
        &self,
        client: &Client,
        ip: IpAddr,
        docker: &Option<String>,
    ) -> (r: bool)
        ensures
            r == self@.holds_at(client@, ip, docker.deep_view()),
    {
        let mut i: usize = 0;
        while i < self.replicas.len()
            invariant
                i <= self.replicas.len(),
                self@.replicas == self.replicas.deep_view(),
                forall|j: int|
                    0 <= j < i ==> !((#[trigger] self@.replicas[j]).matches(
                        ip,
                        docker.deep_view(),
                    ) && table::has_key(self@.replicas[j].clients, client@)),
            decreases self.replicas.len() - i,
        {
            assert(self@.replicas[i as int] == self.replicas[i as int]@);
            if self.replicas[i].matches_identity(ip, docker)
                && self.replicas[i].clients.clients().contains_key(client) {
                return true;
            }
            i = i + 1;
        }
        false
    }

    /// Removes a client from the first replica that it is connected to.
    pub fn remove_client(&mut self, client: &Client)
        ensures
            final(self)@ == old(self)@.without_client(client@),
    {
        if let Some(i) = self.find_holder(client) {
            self.replicas[i].clients.clients_mut().remove(client);
            assert(self@ =~= old(self)@.without_client(client@));
        }
    }

    pub fn replicas(&self) -> (r: &Vec<Replica>)
        ensures
            r.deep_view() == self@.replicas,
    {
        &self.replicas
    }

    pub fn dependencies(&self) -> (r: &Vec<String>)
        ensures
            r.deep_view() == self@.config.dependencies,
    {
        &self.config.dependencies
    }

    pub fn triggers(&self) -> (r: &Vec<Trigger>)
        ensures
            r.deep_view() == self@.config.triggers,
    {
        &self.config.triggers
    }

    pub fn max_networks(&self) -> (r: Option<u32>)
        ensures
            r == self@.config.max_networks,
    {
        self.config.max_networks
    }

    /// Every connection of the service, replica by replica.
    pub fn all_clients_owned(&self) -> (r: Vec<Entry>)
        ensures
            r.deep_view() == self@.entries(),
    {
        let mut r: Vec<Entry> = Vec::new();
        let mut i: usize = 0;
        assert(r.deep_view() =~= Seq::empty());
        while i < self.replicas.len()
            invariant
                i <= self.replicas.len(),
                self@.replicas == self.replicas.deep_view(),
                r.deep_view() == seqs::concat_map(
                    self@.replicas.take(i as int),
                    model::entries_of(),
                ),
            decreases self.replicas.len() - i,
        {
            proof {
                assert(self@.replicas[i as int] == self.replicas[i as int]@);
                seqs::lemma_concat_map_step(self@.replicas, model::entries_of(), i as int);
            }
            self.replicas[i].collect_entries(&mut r);
            i = i + 1;
        }
        assert(self@.replicas.take(i as int) =~= self@.replicas);
        r
    }

    /// The proxy clients that have not used their connection for `timeout` or longer.
    pub fn expired_proxy_clients(&self, timeout: u128, now: u128) -> (r: Vec<Client>)
        ensures
            r.deep_view() == self@.expired(timeout as nat, now as nat),
    {
        let entries = self.all_clients_owned();
        let ghost f = model::expired_client(timeout as nat, now as nat);
        let mut r: Vec<Client> = Vec::new();
        let mut i: usize = 0;
        assert(r.deep_view() =~= Seq::empty());
        while i < entries.len()
            invariant
                i <= entries.len(),
                f == model::expired_client(timeout as nat, now as nat),
                r.deep_view() == seqs::concat_map(entries.deep_view().take(i as int), f),
            decreases entries.len() - i,
        {
            let ghost before = r.deep_view();
            proof {
                seqs::lemma_concat_map_step(entries.deep_view(), f, i as int);
                assert(entries.deep_view()[i as int] == entries[i as int]@);
            }
            let e = &entries[i];
            if e.client.is_proxy().is_some() && e.info.idle(now) >= timeout {
                r.push(e.client.clone());
                assert(r.deep_view() =~= before + seq![e.client@]);
            } else {
                assert(before + Seq::<ClientView>::empty() =~= before);
            }
            i = i + 1;
        }
        assert(entries.deep_view().take(i as int) =~= entries.deep_view());
        r
    }

    /// The time until the first proxy client has not used its connection for `timeout`.
    pub fn nearest_proxy_expiry(&self, timeout: u128, now: u128) -> (r: Option<u128>)
        ensures
            match r {
                Some(d) => {
                    &&& exists|i: int|
                        0 <= i < self@.entries().len() && (#[trigger] self@.entries()[i]).client.proxy is Some
                            && d == self@.entries()[i].info.remaining(timeout as nat, now as nat)
                    &&& forall|i: int|
                        0 <= i < self@.entries().len() && (#[trigger] self@.entries()[i]).client.proxy is Some
                            ==> d <= self@.entries()[i].info.remaining(timeout as nat, now as nat)
                },
                None => forall|i: int|
                    0 <= i < self@.entries().len() ==> (#[trigger] self@.entries()[i]).client.proxy is None,
            },
    {
        let entries = self.all_clients_owned();
        let mut r: Option<u128> = None;
        let mut i: usize = 0;
        while i < entries.len()
            invariant
                i <= entries.len(),
                entries.deep_view() == self@.entries(),
                match r {
                    Some(d) => {
                        &&& exists|j: int|
                            0 <= j < i && (#[trigger] self@.entries()[j]).client.proxy is Some
                                && d == self@.entries()[j].info.remaining(timeout as nat, now as nat)
                        &&& forall|j: int|
                            0 <= j < i && (#[trigger] self@.entries()[j]).client.proxy is Some
                                ==> d <= self@.entries()[j].info.remaining(timeout as nat, now as nat)
                    },
                    None => forall|j: int|
                        0 <= j < i ==> (#[trigger] self@.entries()[j]).client.proxy is None,
                },
            decreases entries.len() - i,
        {
            let e = &entries[i];
            assert(self@.entries()[i as int] == e@);
            if e.client.is_proxy().is_some() {
                let d = timeout.saturating_sub(e.info.idle(now));
                let nearer = match r {
                    Some(best) => d < best,
                    None => true,
                };
                if nearer {
                    r = Some(d);
                }
            }
            i = i + 1;
        }
        r
    }

    fn service_clients(&self, place: &Place) -> (r: Vec<Client>)
        ensures
            r.deep_view() == self@.service_clients(place@),
    {
        let entries = self.all_clients_owned();
        let ghost f = place@.service_clients();
        let mut r: Vec<Client> = Vec::new();
        let mut i: usize = 0;
        assert(r.deep_view() =~= Seq::empty());
        while i < entries.len()
            invariant
                i <= entries.len(),
                f == place@.service_clients(),
                r.deep_view() == seqs::unique(
                    seqs::concat_map(entries.deep_view().take(i as int), f),
                ),
            decreases entries.len() - i,
        {
            let ghost before = r.deep_view();
            let ghost all = seqs::concat_map(entries.deep_view().take(i as int), f);
            proof {
                seqs::lemma_concat_map_step(entries.deep_view(), f, i as int);
                assert(entries.deep_view()[i as int] == entries[i as int]@);
            }
            let e = &entries[i];
            if place.covers(e.ip, &e.docker_container) && e.client.is_proxy().is_none() {
                assert((all + seq![e.client@]).drop_last() =~= all);
                if !client_in(&r, &e.client) {
                    r.push(e.client.clone());
                    assert(r.deep_view() =~= before.push(e.client@));
                }
            } else {
                assert(all + Seq::<ClientView>::empty() =~= all);
            }
            i = i + 1;
        }
        assert(entries.deep_view().take(i as int) =~= entries.deep_view());
        r
    }

    /// The services connected to replicas at `ip`, each once.
    pub fn service_clients_on_ip(&self, ip: IpAddr) -> (r: Vec<Client>)
        ensures
            r.deep_view() == self@.service_clients(PlaceView::Host(ip)),
    {
        self.service_clients(&Place::Host(ip))
    }

    /// The services connected to the replica at `ip` in a container, each once.
    pub fn service_clients_on_replica(
        &self,
        ip: IpAddr,
        docker_container: &Option<String>,
    ) -> (r: Vec<Client>)
        ensures
            r.deep_view() == self@.service_clients(
                PlaceView::Replica(ip, docker_container.deep_view()),
            ),
    {
        self.service_clients(&Place::Replica(ip, text::copy_option(docker_container)))
    }

    /// Whether a replica runs at `ip`.
    pub fn has_replica_on_ip(&self, ip: IpAddr) -> (r: bool)
        ensures
            r == self@.runs_on(ip),
    {
        let mut i: usize = 0;
        while i < self.replicas.len()
            invariant
                i <= self.replicas.len(),
                self@.replicas == self.replicas.deep_view(),
                forall|j: int| 0 <= j < i ==> (#[trigger] self@.replicas[j]).ip != ip,
            decreases self.replicas.len() - i,
        {
            assert(self@.replicas[i as int] == self.replicas[i as int]@);
            if self.replicas[i].ip == ip {
                return true;
            }
            i = i + 1;
        }
        false
    }

    /// Whether every replica runs at `ip`.
    pub fn runs_only_on(&self, ip: IpAddr) -> (r: bool)
        ensures
            r == (forall|i: int|
                0 <= i < self@.replicas.len() ==> (#[trigger] self@.replicas[i]).ip == ip),
    {
        let mut i: usize = 0;
        while i < self.replicas.len()
            invariant
                i <= self.replicas.len(),
                self@.replicas == self.replicas.deep_view(),
                forall|j: int| 0 <= j < i ==> (#[trigger] self@.replicas[j]).ip == ip,
            decreases self.replicas.len() - i,
        {
            assert(self@.replicas[i as int] == self.replicas[i as int]@);
            if self.replicas[i].ip != ip {
                return false;
            }
            i = i + 1;
        }
        true
    }

    /// Whether a client is connected through the proxy at `ip`.
    pub fn has_proxy_clients_of(&self, ip: IpAddr) -> (r: bool)
        ensures
            r == self@.has_proxy_clients_of(ip),
    {
        let entries = self.all_clients_owned();
        let mut i: usize = 0;
        while i < entries.len()
            invariant
                i <= entries.len(),
                entries.deep_view() == self@.entries(),
                forall|j: int|
                    0 <= j < i ==> (#[trigger] self@.entries()[j]).client.proxy != Some(ip),
            decreases entries.len() - i,
        {
            assert(self@.entries()[i as int] == entries[i as int]@);
            if let Some(proxy) = entries[i].client.is_proxy() {
                if proxy == ip {
                    return true;
                }
            }
            i = i + 1;
        }
        false
    }

    /// The connections of proxy clients.
    fn proxy_entries(&self) -> (r: Vec<Entry>)
        ensures
            r.deep_view() == self@.proxy_entries(),
    {
        let mut entries = self.all_clients_owned();
        let ghost all = entries.deep_view();
        let ghost f = model::proxy_entry();
        let mut i: usize = 0;
        let ghost mut k: int = 0;
        assert(all.take(0) =~= Seq::empty());
        assert(entries.deep_view().take(0) =~= Seq::empty());
        while i < entries.len()
            invariant
                i <= entries.len(),
                0 <= k <= all.len(),
                all.len() - k == entries.len() - i,
                f == model::proxy_entry(),
                entries.deep_view().take(i as int) == seqs::concat_map(all.take(k), f),
                forall|j: int|
                    i <= j < entries.len() ==> #[trigger] entries.deep_view()[j] == all[j - i + k],
            decreases entries.len() - i,
        {
            let ghost before = entries.deep_view();
            proof {
                seqs::lemma_concat_map_step(all, f, k);
                assert(before[i as int] == all[k]);
            }
            if entries[i].client.is_proxy().is_some() {
                i = i + 1;
                assert(before.take(i as int) =~= before.take(i - 1) + seq![all[k]]);
            } else {
                entries.remove(i);
                assert(entries.deep_view() =~= before.remove(i as int));
                assert(entries.deep_view().take(i as int) =~= before.take(i as int) + Seq::<
                    EntryView,
                >::empty());
            }
            proof {
                k = k + 1;
            }
        }
        assert(all.take(k) =~= all);
        assert(entries.deep_view().take(i as int) =~= entries.deep_view());
        entries
    }

    /// The number of proxy clients.
    pub fn proxy_clients_count(&self) -> (r: usize)
        ensures
            r == self@.proxy_entries().len(),
    {
        let entries = self.proxy_entries();
        assert(entries.deep_view().len() == entries.len());
        entries.len()
    }

    /// The least used network that is set up through proxy `proxy_ip`, the first of them where
    /// there are several: a connection on it.
    pub fn find_reusable_network_on_proxy(&self, proxy_ip: IpAddr) -> (r: Option<Entry>)
        ensures
            r.deep_view() == self@.reusable(proxy_ip),
    {
        let mut entries = self.proxy_entries();
        let mut best: Option<(usize, usize)> = None;
        let mut i: usize = 0;
        while i < entries.len()
            invariant
                i <= entries.len(),
                entries.deep_view() == self@.proxy_entries(),
                match best {
                    Some((b, n)) => {
                        &&& b < i
                        &&& self@.is_reusable(proxy_ip, b as int)
                        &&& n == self@.net_users(self@.proxy_entries()[b as int].info.net_id)
                        &&& forall|j: int| #[trigger]
                            self@.is_reusable(proxy_ip, j) && j < i ==> n <= self@.net_users(
                                self@.proxy_entries()[j].info.net_id,
                            )
                        &&& forall|j: int| #[trigger]
                            self@.is_reusable(proxy_ip, j) && j < b ==> n < self@.net_users(
                                self@.proxy_entries()[j].info.net_id,
                            )
                    },
                    None => forall|j: int| #[trigger] self@.is_reusable(proxy_ip, j) ==> j >= i,
                },
            decreases entries.len() - i,
        {
            assert(self@.proxy_entries()[i as int] == entries[i as int]@);
            let through = match entries[i].client.is_proxy() {
                Some(ip) => ip == proxy_ip,
                None => false,
            };
            if through && entries[i].info.net_id() != 0 {
                assert(self@.is_reusable(proxy_ip, i as int));
                let n = count_on_net(&entries, entries[i].info.net_id());
                let fewer = match best {
                    Some((_, least)) => n < least,
                    None => true,
                };
                if fewer {
                    best = Some((i, n));
                }
            }
            i = i + 1;
        }
        match best {
            Some((b, _)) => {
                proof {
                    assert(self@.is_least_used(proxy_ip, b as int));
                    lemma_least_used(self@, proxy_ip, b as int);
                    assert(self@.proxy_entries()[b as int] == entries[b as int]@);
                }
                Some(entries.remove(b))
            },
            None => {
                assert forall|j: int| !self@.is_least_used(proxy_ip, j) by {
                    if self@.is_least_used(proxy_ip, j) {
                        assert(self@.is_reusable(proxy_ip, j));
                    }
                }
                None
            },
        }
    }

    /// The clients whose connection a backend trigger set up, with its last use.
    pub fn backend_entry_clients(&self) -> (r: Vec<(Client, u128)>)
        ensures
            r.deep_view().map_values(|e: (ClientView, u128)| (e.0, e.1 as nat))
                == self@.backend_entries(),
    {
        let entries = self.all_clients_owned();
        let ghost f = model::backend_entry();
        let ghost g = |e: (ClientView, u128)| (e.0, e.1 as nat);
        let mut r: Vec<(Client, u128)> = Vec::new();
        let mut i: usize = 0;
        assert(r.deep_view().map_values(g) =~= Seq::empty());
        while i < entries.len()
            invariant
                i <= entries.len(),
                f == model::backend_entry(),
                g == (|e: (ClientView, u128)| (e.0, e.1 as nat)),
                r.deep_view().map_values(g) == seqs::concat_map(
                    entries.deep_view().take(i as int),
                    f,
                ),
            decreases entries.len() - i,
        {
            let ghost before = r.deep_view().map_values(g);
            proof {
                seqs::lemma_concat_map_step(entries.deep_view(), f, i as int);
                assert(entries.deep_view()[i as int] == entries[i as int]@);
            }
            let e = &entries[i];
            if e.info.is_backend_entry() {
                r.push((e.client.clone(), e.info.latest()));
                assert(r.deep_view().map_values(g) =~= before + seq![
                    (e.client@, e.info@.latest),
                ]);
            } else {
                assert(before + Seq::<(ClientView, nat)>::empty() =~= before);
            }
            i = i + 1;
        }
        assert(entries.deep_view().take(i as int) =~= entries.deep_view());
        r
    }

    /// The edges that lead from the replica of `service_name` at `service_ip` along `dependencies`,
    /// each dependency served by its replica with the fewest clients.
    pub fn dependency_chain(
        service_name: String,
        service_ip: IpAddr,
        service_docker: Option<String>,
        dependencies: &Vec<String>,
        services: &Services,
    ) -> (r: Vec<Edge>)
        ensures
            r.deep_view() == model::dependency_edges(
                service_name@,
                service_ip,
                service_docker.deep_view(),
                dependencies.deep_view(),
                services@,
            ),
    {
        let ghost hops = dependencies.deep_view();
        let ghost edges = model::dependency_edges(
            service_name@,
            service_ip,
            service_docker.deep_view(),
            hops,
            services@,
        );
        let ghost start = (service_name@, Some(service_ip), service_docker.deep_view());
        let mut chain: Vec<Edge> = Vec::new();
        let mut current_ip: Option<IpAddr> = Some(service_ip);
        let mut current_docker: Option<String> = service_docker;
        let mut current_name = service_name;
        let mut i: usize = 0;
        while i < dependencies.len()
            invariant
                i <= dependencies.len(),
                hops == dependencies.deep_view(),
                edges == Seq::new(
                    hops.len(),
                    |k: int|
                        model::edge_between(
                            if k == 0 {
                                start
                            } else {
                                model::hop(services@, hops[k - 1])
                            },
                            model::hop(services@, hops[k]),
                        ),
                ),
                (current_name@, current_ip, current_docker.deep_view()) == (if i == 0 {
                    start
                } else {
                    model::hop(services@, hops[i - 1])
                }),
                chain.deep_view() =~= edges.take(i as int),
            decreases dependencies.len() - i,
        {
            let ghost before = chain.deep_view();
            let dep = &dependencies[i];
            assert(hops[i as int] == dep@);
            let (dep_ip, dep_docker) = match services.get(dep) {
                Some(ServiceInfo::Registered(reg)) => match reg.pick_replica_least_clients() {
                    Some(r) => (Some(r.ip), text::copy_option(&r.docker_container)),
                    None => (None, None),
                },
                _ => (None, None),
            };
            let client = match current_ip {
                Some(ip) => Client::new_service(
                    current_name.clone(),
                    ip,
                    text::copy_option(&current_docker),
                ),
                None => Client::new(current_name.clone(), None),
            };
            chain.push(
                Edge::new(
                    current_ip,
                    client,
                    current_docker,
                    dep_ip,
                    Client::new(dep.clone(), None),
                    text::copy_option(&dep_docker),
                ),
            );
            assert(chain.deep_view() =~= before.push(edges[i as int]));
            current_ip = dep_ip;
            current_docker = dep_docker;
            current_name = dep.clone();
            i = i + 1;
        }
        assert(edges.take(i as int) =~= edges);
        chain
    }

    /// Drops the replicas that run in a place.
    fn drop_replicas(&mut self, place: &Place)
        ensures
            final(self)@ == old(self)@.without_replicas(place@),
    {
        let ghost all = self@.replicas;
        let ghost f = place@.elsewhere();
        let mut i: usize = 0;
        let ghost mut k: int = 0;
        assert(all.take(0) =~= Seq::empty());
        assert(self@.replicas.take(0) =~= Seq::empty());
        while i < self.replicas.len()
            invariant
                i <= self.replicas.len(),
                0 <= k <= all.len(),
                all.len() - k == self.replicas.len() - i,
                f == place@.elsewhere(),
                self@.replicas == self.replicas.deep_view(),
                self@.config == old(self)@.config,
                self@.replicas.take(i as int) == seqs::concat_map(all.take(k), f),
                forall|j: int|
                    i <= j < self.replicas.len() ==> #[trigger] self@.replicas[j] == all[j - i + k],
            decreases self.replicas.len() - i,
        {
            let ghost before = self@.replicas;
            proof {
                seqs::lemma_concat_map_step(all, f, k);
                assert(before[i as int] == all[k]);
            }
            if place.covers(self.replicas[i].ip, &self.replicas[i].docker_container) {
                self.replicas.remove(i);
                assert(self@.replicas =~= before.remove(i as int));
                assert(self@.replicas.take(i as int) =~= before.take(i as int) + Seq::<
                    ReplicaView,
                >::empty());
            } else {
                i = i + 1;
                assert(before.take(i as int) =~= before.take(i - 1) + seq![all[k]]);
            }
            proof {
                k = k + 1;
            }
        }
        assert(all.take(k) =~= all);
        assert(self@.replicas.take(i as int) =~= self@.replicas);
    }

    /// The number of connections.
    pub fn client_count(&self) -> (r: usize)
        ensures
            r == self@.entries().len(),
    {
        let entries = self.all_clients_owned();
        assert(entries.deep_view().len() == entries.len());
        entries.len()
    }

    /// Whether there is any connection.
    pub fn has_clients(&self) -> (r: bool)
        ensures
            r == (self@.entries().len() > 0),
    {
        self.client_count() > 0
    }
}

impl ServiceInfo {
    /// A service that does not run.
    pub fn new(
        dependencies: Vec<String>,
        triggers: Vec<Trigger>,
        timeout: Option<u64>,
        max_networks: Option<u32>,
    ) -> (r: Self)
        ensures
            r@ == ServiceView::Unregistered(
                ConfigView {
                    dependencies: dependencies.deep_view(),
                    triggers: triggers.deep_view(),
                    timeout,
                    max_networks,
                },
            ),
    {
        ServiceInfo::Unregistered(
            UnregisteredServiceInfo::new(dependencies, triggers, timeout, max_networks),
        )
    }

    /// The service, found to run at `ip` on `port` alone, outside a container. One that ran elsewhere
    /// keeps the clients of its first replica.
    pub fn register(self, ip: IpAddr, port: u16) -> (r: ServiceInfo)
        ensures
            r@ == self@.moved_to(ip, port),
    {
        let mut replica = Replica::new(ip, port, None);
        let config = match &self {
            ServiceInfo::Unregistered(unreg) => unreg.config.clone(),
            ServiceInfo::Registered(reg) => {
                if reg.replicas.len() > 0 {
                    replica.clients = reg.replicas[0].clients.clone();
                }
                reg.config.clone()
            },
        };
        let mut replicas: Vec<Replica> = Vec::new();
        replicas.push(replica);
        let r = ServiceInfo::Registered(RegisteredServiceInfo { config, replicas });
        assert(r@ =~~= self@.moved_to(ip, port));
        r
    }

    pub fn as_registered(&self) -> (r: Option<&RegisteredServiceInfo>)
        ensures
            match r {
                Some(reg) => self@ == ServiceView::Registered(reg@),
                None => self@ is Unregistered,
            },
    {
        match self {
            ServiceInfo::Unregistered(_) => None,
            ServiceInfo::Registered(reg) => Some(reg),
        }
    }

    /// Records that the service runs at `ip`, in a container where one is given, on `port`.
    pub fn add_replica(&mut self, ip: IpAddr, port: u16, docker_container: Option<String>)
        ensures
            final(self)@ == old(self)@.with_replica(ip, port, docker_container.deep_view()),
    {
        match self {
            ServiceInfo::Unregistered(unreg) => {
                let config = unreg.config.clone();
                let mut replicas: Vec<Replica> = Vec::new();
                replicas.push(Replica::new(ip, port, docker_container));
                *self = ServiceInfo::Registered(RegisteredServiceInfo { config, replicas });
            },
            ServiceInfo::Registered(reg) => {
                match reg.find_replica(ip, &docker_container) {
                    Some(i) => {
                        reg.replicas[i].port = port;
                    },
                    None => {
                        reg.replicas.push(Replica::new(ip, port, docker_container));
                    },
                }
            },
        }
        assert(self@ =~~= old(self)@.with_replica(ip, port, docker_container.deep_view()));
    }

    fn drop_replicas(&mut self, place: &Place)
        ensures
            final(self)@ == old(self)@.without_replicas(place@),
    {
        if let ServiceInfo::Registered(reg) = self {
            reg.drop_replicas(place);
            if reg.replicas.len() == 0 {
                let config = reg.config.clone();
                *self = ServiceInfo::Unregistered(UnregisteredServiceInfo { config });
            }
        }
    }

    /// Removes the replicas at `ip`. A service without replicas does not run.
    pub fn remove_replicas_on_ip(&mut self, ip: IpAddr)
        ensures
            final(self)@ == old(self)@.without_replicas(PlaceView::Host(ip)),
    {
        self.drop_replicas(&Place::Host(ip));
    }

    /// Removes the replica at `ip` in a container. A service without replicas does not run.
    pub fn remove_replica(&mut self, ip: IpAddr, docker_container: &Option<String>)
        ensures
            final(self)@ == old(self)@.without_replicas(
                PlaceView::Replica(ip, docker_container.deep_view()),
            ),
    {
        self.drop_replicas(&Place::Replica(ip, text::copy_option(docker_container)));
    }

    fn config(&self) -> (r: &ServiceConfig)
        ensures
            r@ == self@.config(),
    {
        match self {
            ServiceInfo::Unregistered(unreg) => &unreg.config,
            ServiceInfo::Registered(reg) => &reg.config,
        }
    }

    /// The timeout in seconds, zero for none, where proxies and triggers may enter at the service.
    pub fn timeout(&self) -> (r: Option<u64>)
        ensures
            r == self@.config().timeout,
    {
        self.config().timeout
    }

    /// Whether proxies may enter at the service, with the timeout that goes with it.
    pub fn is_proxy_reachable(&self) -> (r: Option<u64>)
        ensures
            r == self@.config().timeout,
    {
        self.timeout()
    }

    /// Takes over the configuration of `loaded`.
    pub fn update_from_file(&mut self, loaded: &Self)
        ensures
            final(self)@ == old(self)@.with_config(loaded@.config()),
    {
        let config = loaded.config().clone();
        match self {
            ServiceInfo::Unregistered(unreg) => {
                unreg.config = config;
            },
            ServiceInfo::Registered(reg) => {
                reg.config = config;
            },
        }
    }

    pub fn dependencies(&self) -> (r: Vec<String>)
        ensures
            r.deep_view() == self@.config().dependencies,
    {
        text::copy_list(&self.config().dependencies)
    }

    pub fn triggers(&self) -> (r: &Vec<Trigger>)
        ensures
            r.deep_view() == self@.config().triggers,
    {
        &self.config().triggers
    }

    pub fn max_networks(&self) -> (r: Option<u32>)
        ensures
            r == self@.config().max_networks,
    {
        self.config().max_networks
    }

    /// The service without its replicas.
    pub fn unregistered(&self) -> (r: Self)
        ensures
            r@ == ServiceView::Unregistered(self@.config()),
    {
        ServiceInfo::Unregistered(UnregisteredServiceInfo { config: self.config().clone() })
    }
}

/// The number of connections on a network.
fn count_on_net(entries: &Vec<Entry>, net_id: u32) -> (n: usize)
    ensures
        n == seqs::concat_map(entries.deep_view(), model::entry_on_net(net_id)).len(),
{
    let ghost f = model::entry_on_net(net_id);
    let mut n: usize = 0;
    let mut i: usize = 0;
    assert(entries.deep_view().take(0) =~= Seq::empty());
    while i < entries.len()
        invariant
            n <= i <= entries.len(),
            f == model::entry_on_net(net_id),
            n == seqs::concat_map(entries.deep_view().take(i as int), f).len(),
        decreases entries.len() - i,
    {
        proof {
            seqs::lemma_concat_map_step(entries.deep_view(), f, i as int);
            assert(entries.deep_view()[i as int] == entries[i as int]@);
        }
        if entries[i].info.net_id() == net_id {
            n = n + 1;
        }
        i = i + 1;
    }
    assert(entries.deep_view().take(i as int) =~= entries.deep_view());
    n
}

/// The first connection on a least used network is the only first one.
proof fn lemma_least_used(reg: RegisteredView, ip: IpAddr, i: int)
    requires
        reg.is_least_used(ip, i),
    ensures
        reg.reusable(ip) == Some(reg.proxy_entries()[i]),
{
    let k = choose|k: int| reg.is_least_used(ip, k);
    assert(reg.is_least_used(ip, k));
    assert(reg.is_reusable(ip, k));
    assert(reg.is_reusable(ip, i));
}

/// Whether a list holds a client.
fn client_in(list: &Vec<Client>, client: &Client) -> (r: bool)
    ensures
        r == list.deep_view().contains(client@),
{
    let mut i: usize = 0;
    while i < list.len()
        invariant
            i <= list.len(),
            forall|j: int| 0 <= j < i ==> list.deep_view()[j] != client@,
        decreases list.len() - i,
    {
        if list[i].same(client) {
            assert(list.deep_view()[i as int] == client@);
            return true;
        }
        i = i + 1;
    }
    false
}

/// The first replica with the fewest clients is the only first one.
proof fn lemma_least(reg: RegisteredView, i: int)
    requires
        reg.is_least(i),
    ensures
        reg.least() == Some(reg.replicas[i]),
{
    let k = choose|k: int| reg.is_least(k);
    assert(reg.is_least(k));
    assert(reg.replicas[k].clients.len() <= reg.replicas[i].clients.len());
    assert(reg.replicas[i].clients.len() <= reg.replicas[k].clients.len());
}

/// The first replica in a place is the only first one.
proof fn lemma_replica(reg: RegisteredView, ip: IpAddr, docker: Option<Seq<char>>, i: int)
    requires
        reg.is_replica(ip, docker, i),
    ensures
        reg.has_replica(ip, docker),
        reg.replica_index(ip, docker) == i,
{
    let k = reg.replica_index(ip, docker);
    assert(reg.is_replica(ip, docker, k));
    if k < i {
        assert(!reg.replicas[k].matches(ip, docker));
    } else if i < k {
        assert(!reg.replicas[i].matches(ip, docker));
    }
}

/// The first replica that a client is connected to over an entry is the only first one.
proof fn lemma_entry_holder(reg: RegisteredView, c: ClientView, i: int)
    requires
        reg.has_entry(c, i),
        forall|j: int| 0 <= j < i ==> !#[trigger] reg.has_entry(c, j),
    ensures
        reg.holds(c),
        reg.entry_holder(c) == i,
{
    connections::lemma_held_at(reg, c, i);
    assert(reg.is_entry_holder(c, i));
    let k = reg.entry_holder(c);
    assert(reg.is_entry_holder(c, k));
    assert(reg.has_entry(c, k));
    if k < i {
        assert(!reg.has_entry(c, k));
    } else if i < k {
        assert(!reg.has_entry(c, i));
    }
}

/// The first replica that a client is connected to is the only first one.
proof fn lemma_holder(reg: RegisteredView, c: ClientView, i: int)
    requires
        reg.is_holder(c, i),
    ensures
        reg.holds(c),
        reg.holder(c) == i,
{
    let k = reg.holder(c);
    assert(reg.is_holder(c, k));
    if k < i {
        assert(!table::has_key(reg.replicas[k].clients, c));
    } else if i < k {
        assert(!table::has_key(reg.replicas[i].clients, c));
    }
}

} // verus!
