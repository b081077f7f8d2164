//! The clients of a service replica and what is known of each connection.
use crate::addr::{IpAddr, Ipv4Addr};
use crate::table;
use crate::table::{Key, Table};
use crate::text;
use vstd::prelude::*;

verus! {

/// What identifies a client.
#[verifier::ext_equal]
pub struct ClientView {
    pub name: Seq<char>,
    pub proxy: Option<IpAddr>,
    pub replica: Option<(IpAddr, Option<Seq<char>>)>,
}

/// A client of a service: an external client behind a proxy, or a replica of another service.
#[derive(Debug)]
pub struct Client {
    name: String,
    proxy: Option<IpAddr>,
    replica: Option<(IpAddr, Option<String>)>,
}

impl View for Client {
    type V = ClientView;

    closed spec fn view(&self) -> ClientView {
        ClientView {
            name: self.name@,
            proxy: self.proxy,
            replica: self.replica.deep_view(),
        }
    }
}

impl DeepView for Client {
    type V = ClientView;

    open spec fn deep_view(&self) -> ClientView {
        self@
    }
}

impl Clone for Client {
    fn clone(&self) -> (r: Self)
        ensures
            r@ == self@,
    {
        let replica = match &self.replica {
            Some((ip, docker)) => Some((*ip, text::copy_option(docker))),
            None => None,
        };
        Client { name: self.name.clone(), proxy: self.proxy, replica }
    }
}

impl Key for Client {
    fn same(&self, other: &Self) -> (r: bool) {
        let same_replica = match (&self.replica, &other.replica) {
            (Some((ip, docker)), Some((other_ip, other_docker))) => *ip == *other_ip
                && text::same_option(docker, other_docker),
            (None, None) => true,
            _ => false,
        };
        let same_proxy = match (self.proxy, other.proxy) {
            (Some(a), Some(b)) => a == b,
            (None, None) => true,
            _ => false,
        };
        self.name == other.name && same_proxy && same_replica
    }
}

impl Client {
    /// A client known by name, reached through `proxy` where one is given.
    pub fn new(name: String, proxy: Option<IpAddr>) -> (r: Self)
        ensures
            r@ == (ClientView { name: name@, proxy, replica: None }),
    {
        Client { name, proxy, replica: None }
    }

    /// The replica of service `name` that runs at `ip`, in container `docker` where one is given.
    pub fn new_service(name: String, ip: IpAddr, docker: Option<String>) -> (r: Self)
        ensures
            r@ == service_client(name@, ip, docker.deep_view()),
    {
        Client { name, proxy: None, replica: Some((ip, docker)) }
    }

    pub fn name(&self) -> (r: &String)
        ensures
            r@ == self@.name,
    {
        &self.name
    }

    /// The proxy that the client is reached through.
    pub fn is_proxy(&self) -> (r: Option<IpAddr>)
        ensures
            r == self@.proxy,
    {
        self.proxy
    }

    /// The address and container of the service replica that the client stands for.
    pub fn replica_identity(&self) -> (r: Option<(IpAddr, Option<String>)>)
        ensures
            r.deep_view() == self@.replica,
    {
        match &self.replica {
            Some((ip, docker)) => Some((*ip, text::copy_option(docker))),
            None => None,
        }
    }

    /// The name to show, where `proxy_text` is the written form of the proxy's address.
    pub fn display_name(&self, proxy_text: &str) -> (r: String)
        ensures
            r@ == (if self@.proxy is Some {
                self@.name + " (via "@ + proxy_text@ + ")"@
            } else {
                self@.name
            }),
    {
        let mut r = self.name.clone();
        if self.proxy.is_some() {
            r.append(" (via ");
            r.append(proxy_text);
            r.append(")");
        }
        r
    }
}

/// The client that stands for the replica of service `name` at `ip`.
pub open spec fn service_client(
    name: Seq<char>,
    ip: IpAddr,
    docker: Option<Seq<char>>,
) -> ClientView {
    ClientView { name, proxy: None, replica: Some((ip, docker)) }
}

/// What is known of the connection of a client to a replica.
#[verifier::ext_equal]
pub struct ClientInfoView {
    pub client_ip: IpAddr,
    pub client_net: Ipv4Addr,
    pub server_net: Ipv4Addr,
    pub net_id: u32,
    pub time_ms: u128,
    pub active_chains: nat,
    pub latest: nat,
    pub docker_container: Option<Seq<char>>,
    pub is_backend_entry: bool,
}

impl ClientInfoView {
    /// One more chain runs over the connection, which is used now.
    pub open spec fn with_chain(self, now: nat) -> ClientInfoView {
        ClientInfoView { active_chains: self.active_chains + 1, latest: now, ..self }
    }

    /// The connection is used now.
    pub open spec fn used(self, now: nat) -> ClientInfoView {
        ClientInfoView { latest: now, ..self }
    }

    /// Marked or not as the entry of a backend chain.
    pub open spec fn marked(self, is_backend_entry: bool) -> ClientInfoView {
        ClientInfoView { is_backend_entry, ..self }
    }

    /// `n` chains fewer run over the connection, down to none.
    pub open spec fn without_chains(self, n: nat) -> ClientInfoView {
        ClientInfoView {
            active_chains: if self.active_chains >= n {
                (self.active_chains - n) as nat
            } else {
                0
            },
            ..self
        }
    }

    /// The time left until the connection has not been used for `timeout`.
    pub open spec fn remaining(self, timeout: nat, now: nat) -> nat {
        if timeout >= self.idle(now) {
            (timeout - self.idle(now)) as nat
        } else {
            0
        }
    }

    /// The time since the last use; none where the last use lies ahead of `now`.
    pub open spec fn idle(self, now: nat) -> nat {
        if now >= self.latest {
            (now - self.latest) as nat
        } else {
            0
        }
    }
}

/// The connection of a client to a service replica. Instants are nanoseconds since a fixed start.
#[derive(Debug)]
pub struct ClientInfo {
    client_ip: IpAddr,
    client_net: Ipv4Addr,
    server_net: Ipv4Addr,
    net_id: u32,
    time_ms: u128,
    active_chains: usize,
    latest: u128,
    docker_container: Option<String>,
    is_backend_entry: bool,
}

impl View for ClientInfo {
    type V = ClientInfoView;

    closed spec fn view(&self) -> ClientInfoView {
        ClientInfoView {
            client_ip: self.client_ip,
            client_net: self.client_net,
            server_net: self.server_net,
            net_id: self.net_id,
            time_ms: self.time_ms,
            active_chains: self.active_chains as nat,
            latest: self.latest as nat,
            docker_container: self.docker_container.deep_view(),
            is_backend_entry: self.is_backend_entry,
        }
    }
}

impl DeepView for ClientInfo {
    type V = ClientInfoView;

    open spec fn deep_view(&self) -> ClientInfoView {
        self@
    }
}

impl Clone for ClientInfo {
    fn clone(&self) -> (r: Self)
        ensures
            r@ == self@,
    {
        ClientInfo {
            client_ip: self.client_ip,
            client_net: self.client_net,
            server_net: self.server_net,
            net_id: self.net_id,
            time_ms: self.time_ms,
            active_chains: self.active_chains,
            latest: self.latest,
            docker_container: text::copy_option(&self.docker_container),
            is_backend_entry: self.is_backend_entry,
        }
    }
}

/// A connection that was just set up and that no chain uses yet.
pub open spec fn fresh_info(
    client_ip: IpAddr,
    client_net: Ipv4Addr,
    server_net: Ipv4Addr,
    net_id: u32,
    time_ms: u128,
    docker_container: Option<Seq<char>>,
    is_backend_entry: bool,
    now: nat,
) -> ClientInfoView {
    ClientInfoView {
        client_ip,
        client_net,
        server_net,
        net_id,
        time_ms,
        active_chains: 0,
        latest: now,
        docker_container,
        is_backend_entry,
    }
}

/// The mark of a connection that is being set up.
pub open spec fn placeholder_info(client_ip: IpAddr, now: nat) -> ClientInfoView {
    let none = Ipv4Addr { a: 0, b: 0, c: 0, d: 0 };
    fresh_info(client_ip, none, none, 0, 0, None, false, now)
}

impl ClientInfo {
    pub fn new(
        client_ip: IpAddr,
        client_net: Ipv4Addr,
        server_net: Ipv4Addr,
        net_id: u32,
        time_ms: u128,
        docker_container: Option<String>,
        now: u128,
    ) -> (r: Self)
        ensures
            r@ == fresh_info(
                client_ip,
                client_net,
                server_net,
                net_id,
                time_ms,
                docker_container.deep_view(),
                false,
                now as nat,
            ),
    {
        ClientInfo {
            client_ip,
            client_net,
            server_net,
            net_id,
            time_ms,
            active_chains: 0,
            latest: now,
            docker_container,
            is_backend_entry: false,
        }
    }

    /// The same connection, marked or not as the entry of a backend chain.
    pub fn with_backend_entry(self, is_backend_entry: bool) -> (r: Self)
        ensures
            r@ == self@.marked(is_backend_entry),
    {
        let mut r = self;
        r.is_backend_entry = is_backend_entry;
        r
    }

    /// Marks the connection or not as the entry of a backend chain.
    pub fn set_backend_entry(&mut self, is_backend_entry: bool)
        ensures
            final(self)@ == old(self)@.marked(is_backend_entry),
    {
        self.is_backend_entry = is_backend_entry;
    }

    /// Reserves a slot for a connection that is being set up.
    pub fn placeholder(client_ip: IpAddr, now: u128) -> (r: Self)
        ensures
            r@ == placeholder_info(client_ip, now as nat),
    {
        ClientInfo {
            client_ip,
            client_net: Ipv4Addr::unspecified(),
            server_net: Ipv4Addr::unspecified(),
            net_id: 0,
            time_ms: 0,
            active_chains: 0,
            latest: now,
            docker_container: None,
            is_backend_entry: false,
        }
    }

    /// The address of the host that the client runs on.
    pub fn client_ip(&self) -> (r: IpAddr)
        ensures
            r == self@.client_ip,
    {
        self.client_ip
    }

    pub fn docker_container(&self) -> (r: &Option<String>)
        ensures
            r.deep_view() == self@.docker_container,
    {
        &self.docker_container
    }

    /// The client's address on the network of the connection.
    pub fn client_net(&self) -> (r: Ipv4Addr)
        ensures
            r == self@.client_net,
    {
        self.client_net
    }

    /// The server's address on the network of the connection.
    pub fn server_net(&self) -> (r: Ipv4Addr)
        ensures
            r == self@.server_net,
    {
        self.server_net
    }

    pub fn net_id(&self) -> (r: u32)
        ensures
            r == self@.net_id,
    {
        self.net_id
    }

    /// How long the set-up took.
    pub fn time_ms(&self) -> (r: u128)
        ensures
            r == self@.time_ms,
    {
        self.time_ms
    }

    /// Whether the connection is the first of a chain that a backend trigger set up.
    pub fn is_backend_entry(&self) -> (r: bool)
        ensures
            r == self@.is_backend_entry,
    {
        self.is_backend_entry
    }

    /// Counts one more chain and marks the connection as used.
    pub fn add_active_chain(&mut self, now: u128)
        requires
            old(self)@.active_chains < usize::MAX,
        ensures
            final(self)@ == old(self)@.with_chain(now as nat),
    {
        self.active_chains = self.active_chains + 1;
        self.set_latest_now(now);
    }

    pub fn set_latest_now(&mut self, now: u128)
        ensures
            final(self)@ == old(self)@.used(now as nat),
    {
        self.latest = now;
    }

    pub fn remove_active_chains(&mut self, num_chains: usize)
        ensures
            final(self)@ == old(self)@.without_chains(num_chains as nat),
    {
        self.active_chains = self.active_chains.saturating_sub(num_chains);
    }

    /// The number of chains that run over the connection.
    pub fn active_chains(&self) -> (r: usize)
        ensures
            r == self@.active_chains,
    {
        self.active_chains
    }

    /// When the connection was last used.
    pub fn latest(&self) -> (r: u128)
        ensures
            r == self@.latest,
    {
        self.latest
    }

    /// How long the connection has not been used.
    pub fn idle(&self, now: u128) -> (r: u128)
        ensures
            r == self@.idle(now as nat),
    {
        now.saturating_sub(self.latest)
    }
}

/// The clients of one replica.
#[derive(Debug)]
pub struct Clients {
    clients: Table<Client, ClientInfo>,
}

impl View for Clients {
    type V = Seq<(ClientView, ClientInfoView)>;

    closed spec fn view(&self) -> Seq<(ClientView, ClientInfoView)> {
        self.clients@
    }
}

impl DeepView for Clients {
    type V = Seq<(ClientView, ClientInfoView)>;

    open spec fn deep_view(&self) -> Seq<(ClientView, ClientInfoView)> {
        self@
    }
}

impl Clone for Clients {
    fn clone(&self) -> (r: Self)
        ensures
            r@ == self@,
    {
        let mut clients: Table<Client, ClientInfo> = Table::new();
        let mut i: usize = 0;
        while i < self.clients.len()
            invariant
                i <= self.clients@.len(),
                clients@ =~= self.clients@.take(i as int),
            decreases self.clients@.len() - i,
        {
            clients.push(self.clients.key_at(i).clone(), self.clients.value_at(i).clone());
            i = i + 1;
        }
        assert(clients@ =~= self.clients@);
        Clients { clients }
    }
}

impl Default for Clients {
    fn default() -> (r: Self)
        ensures
            r@ == Seq::<(ClientView, ClientInfoView)>::empty(),
    {
        Clients { clients: Table::new() }
    }
}

impl Clients {
    /// Records the connection of a client, in place of the one recorded before.
    pub fn add_client(&mut self, client: Client, client_info: ClientInfo)
        ensures
            final(self)@ == table::put(old(self)@, client@, client_info@),
    {
        self.clients.insert(client, client_info);
    }

    /// The server's address on the network that connects the client.
    pub fn is_client_setup(&self, client: &Client) -> (r: Option<Ipv4Addr>)
        ensures
            r == (match table::lookup(self@, client@) {
                Some(ci) => Some(ci.server_net),
                None => None,
            }),
    {
        match self.clients.get(client) {
            Some(ci) => Some(ci.server_net()),
            None => None,
        }
    }

    pub fn clients(&self) -> (r: &Table<Client, ClientInfo>)
        ensures
            r@ == self@,
    {
        &self.clients
    }

    pub fn clients_mut(&mut self) -> (r: &mut Table<Client, ClientInfo>)
        ensures
            r@ == old(self)@,
            final(self)@ == final(r)@,
    {
        &mut self.clients
    }
}

} // verus!
