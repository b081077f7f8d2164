//! The edges of a dependency chain.
use crate::addr::IpAddr;
use crate::services::clients::{Client, ClientView};
use crate::text;
use vstd::prelude::*;

verus! {

/// A connection that a chain needs, from a client to a server that may not be running anywhere.
#[derive(Debug)]
pub struct Edge {
    pub client: (Option<IpAddr>, Client),
    pub server: (Option<IpAddr>, Client),
    pub client_docker: Option<String>,
    pub server_docker: Option<String>,
}

#[verifier::ext_equal]
pub struct EdgeView {
    pub client: (Option<IpAddr>, ClientView),
    pub server: (Option<IpAddr>, ClientView),
    pub client_docker: Option<Seq<char>>,
    pub server_docker: Option<Seq<char>>,
}

impl View for Edge {
    type V = EdgeView;

    open spec fn view(&self) -> EdgeView {
        EdgeView {
            client: self.client.deep_view(),
            server: self.server.deep_view(),
            client_docker: self.client_docker.deep_view(),
            server_docker: self.server_docker.deep_view(),
        }
    }
}

impl DeepView for Edge {
    type V = EdgeView;

    open spec fn deep_view(&self) -> EdgeView {
        self@
    }
}

impl EdgeView {
    /// The edge between two hosts, where both ends run on one.
    pub open spec fn registered(self) -> Option<RegisteredEdgeView> {
        match (self.client.0, self.server.0) {
            (Some(client_ip), Some(server_ip)) => Some(
                RegisteredEdgeView {
                    client: (client_ip, self.client.1),
                    server: (server_ip, self.server.1),
                    client_docker: self.client_docker,
                    server_docker: self.server_docker,
                    is_backend_entry: false,
                },
            ),
            _ => None,
        }
    }
}

impl Edge {
    pub fn new(
        client_ip: Option<IpAddr>,
        client: Client,
        client_docker: Option<String>,
        server_ip: Option<IpAddr>,
        server: Client,
        server_docker: Option<String>,
    ) -> (r: Self)
        ensures
            r@ == (EdgeView {
                client: (client_ip, client@),
                server: (server_ip, server@),
                client_docker: client_docker.deep_view(),
                server_docker: server_docker.deep_view(),
            }),
    {
        let r = Edge {
            client: (client_ip, client),
            server: (server_ip, server),
            client_docker,
            server_docker,
        };
        assert(client_ip.deep_view() == client_ip);
        assert(server_ip.deep_view() == server_ip);
        r
    }

    /// The edge between two hosts; nothing where an end runs on none.
    pub fn into_registered(self) -> (r: Option<RegisteredEdge>)
        ensures
            r.deep_view() == self@.registered(),
    {
        assert(self.client.0.deep_view() == self.client.0);
        assert(self.server.0.deep_view() == self.server.0);
        match (self.client.0, self.server.0) {
            (Some(client_ip), Some(server_ip)) => Some(
                RegisteredEdge::new(
                    client_ip,
                    self.client.1,
                    self.client_docker,
                    server_ip,
                    self.server.1,
                    self.server_docker,
                ),
            ),
            _ => None,
        }
    }
}

/// A connection that a chain needs, between two hosts.
#[derive(Debug)]
pub struct RegisteredEdge {
    pub client: (IpAddr, Client),
    pub server: (IpAddr, Client),
    pub client_docker: Option<String>,
    pub server_docker: Option<String>,
    /// Whether the edge is the first of a chain that a backend trigger asked for.
    pub is_backend_entry: bool,
}

#[verifier::ext_equal]
pub struct RegisteredEdgeView {
    pub client: (IpAddr, ClientView),
    pub server: (IpAddr, ClientView),
    pub client_docker: Option<Seq<char>>,
    pub server_docker: Option<Seq<char>>,
    pub is_backend_entry: bool,
}

impl View for RegisteredEdge {
    type V = RegisteredEdgeView;

    open spec fn view(&self) -> RegisteredEdgeView {
        RegisteredEdgeView {
            client: (self.client.0, self.client.1@),
            server: (self.server.0, self.server.1@),
            client_docker: self.client_docker.deep_view(),
            server_docker: self.server_docker.deep_view(),
            is_backend_entry: self.is_backend_entry,
        }
    }
}

impl DeepView for RegisteredEdge {
    type V = RegisteredEdgeView;

    open spec fn deep_view(&self) -> RegisteredEdgeView {
        self@
    }
}

impl Clone for RegisteredEdge {
    fn clone(&self) -> (r: Self)
        ensures
            r@ == self@,
    {
        RegisteredEdge {
            client: (self.client.0, self.client.1.clone()),
            server: (self.server.0, self.server.1.clone()),
            client_docker: text::copy_option(&self.client_docker),
            server_docker: text::copy_option(&self.server_docker),
            is_backend_entry: self.is_backend_entry,
        }
    }
}

impl RegisteredEdge {
    /// An edge that is no backend entry.
    pub fn new(
        client_ip: IpAddr,
        client: Client,
        client_docker: Option<String>,
        server_ip: IpAddr,
        server: Client,
        server_docker: Option<String>,
    ) -> (r: Self)
        ensures
            r@ == (RegisteredEdgeView {
                client: (client_ip, client@),
                server: (server_ip, server@),
                client_docker: client_docker.deep_view(),
                server_docker: server_docker.deep_view(),
                is_backend_entry: false,
            }),
    {
        RegisteredEdge {
            client: (client_ip, client),
            server: (server_ip, server),
            client_docker,
            server_docker,
            is_backend_entry: false,
        }
    }
}

} // verus!
