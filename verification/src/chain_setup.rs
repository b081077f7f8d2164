//! Setting up the networks of a chain, edge by edge.
//!
//! An edge is opened first: its connection is reserved and its two hosts are asked to set up their
//! ends of a network. Once both have answered, or will not, the edge is finished, and once all edges
//! of a chain are finished, so is the chain.
use crate::addr::{IpAddr, Ipv4Addr};
use crate::nullnet_grpc_impl::{NullnetGrpcImpl, RequestError};
use crate::orchestrator;
use crate::orchestrator::new_message_id;
use crate::orchestrator::OrchestratorView;
use crate::seqs;
use crate::services::clients;
use crate::services::clients::{Client, ClientInfo, ClientInfoView, ClientView};
use crate::services::edge::{RegisteredEdge, RegisteredEdgeView};
use crate::services::model;
use crate::services::model::{RegisteredView, ServiceView};
use crate::services::room;
use crate::services::service_info::{RegisteredServiceInfo, ServiceInfo};
use crate::services::world;
use crate::services::world::World;
use crate::text;
use vstd::prelude::*;

verus! {

/// A connection that a chain runs over.
#[derive(Debug)]
pub struct SuccessfulEdge {
    pub client: Client,
    pub server_name: String,
    /// The address and container of the replica that the edge leads to.
    pub replica: (IpAddr, Option<String>),
    /// Where the client reaches the service, for a proxy client that was not connected before.
    pub proxy_upstream: Option<Ipv4Addr>,
}

#[verifier::ext_equal]
pub struct SuccessView {
    pub client: ClientView,
    pub server_name: Seq<char>,
    pub replica: (IpAddr, Option<Seq<char>>),
    pub proxy_upstream: Option<Ipv4Addr>,
}

impl View for SuccessfulEdge {
    type V = SuccessView;

    open spec fn view(&self) -> SuccessView {
        SuccessView {
            client: self.client@,
            server_name: self.server_name@,
            replica: (self.replica.0, self.replica.1.deep_view()),
            proxy_upstream: self.proxy_upstream,
        }
    }
}

impl DeepView for SuccessfulEdge {
    type V = SuccessView;

    open spec fn deep_view(&self) -> SuccessView {
        self@
    }
}

/// How the set-up of an edge ended.
#[derive(Debug)]
pub enum EdgeOutcome {
    Success(SuccessfulEdge),
    Failed,
}

#[verifier::ext_equal]
pub enum OutcomeView {
    Success(SuccessView),
    Failed,
}

impl View for EdgeOutcome {
    type V = OutcomeView;

    open spec fn view(&self) -> OutcomeView {
        match *self {
            EdgeOutcome::Success(edge) => OutcomeView::Success(edge@),
            EdgeOutcome::Failed => OutcomeView::Failed,
        }
    }
}

impl DeepView for EdgeOutcome {
    type V = OutcomeView;

    open spec fn deep_view(&self) -> OutcomeView {
        self@
    }
}

/// An edge whose hosts were asked to set up a network.
#[derive(Debug)]
pub struct PendingEdge {
    pub edge: RegisteredEdge,
    pub net_id: u32,
    /// The message to the server's host.
    pub server_msg: String,
    /// The message to the client's host.
    pub client_msg: String,
    /// The address that goes with the server's end; none where its host could not be asked.
    pub server_addr: Option<Ipv4Addr>,
    /// The address that goes with the client's end; none where its host could not be asked.
    pub client_addr: Option<Ipv4Addr>,
    /// When the set-up began.
    pub started: u128,
}

#[verifier::ext_equal]
pub struct PendingView {
    pub edge: RegisteredEdgeView,
    pub net_id: u32,
    pub server_msg: Seq<char>,
    pub client_msg: Seq<char>,
    pub server_addr: Option<Ipv4Addr>,
    pub client_addr: Option<Ipv4Addr>,
    pub started: nat,
}

impl View for PendingEdge {
    type V = PendingView;

    open spec fn view(&self) -> PendingView {
        PendingView {
            edge: self.edge@,
            net_id: self.net_id,
            server_msg: self.server_msg@,
            client_msg: self.client_msg@,
            server_addr: self.server_addr,
            client_addr: self.client_addr,
            started: self.started as nat,
        }
    }
}

impl DeepView for PendingEdge {
    type V = PendingView;

    open spec fn deep_view(&self) -> PendingView {
        self@
    }
}

/// How far the set-up of an edge came without its hosts.
#[derive(Debug)]
pub enum EdgeProgress {
    /// It is finished already.
    Finished(EdgeOutcome),
    /// Its hosts have to answer.
    Pending(PendingEdge),
}

#[verifier::ext_equal]
pub enum ProgressView {
    Finished(OutcomeView),
    Pending(PendingView),
}

impl View for EdgeProgress {
    type V = ProgressView;

    open spec fn view(&self) -> ProgressView {
        match *self {
            EdgeProgress::Finished(outcome) => ProgressView::Finished(outcome@),
            EdgeProgress::Pending(pending) => ProgressView::Pending(pending@),
        }
    }
}

impl DeepView for EdgeProgress {
    type V = ProgressView;

    open spec fn deep_view(&self) -> ProgressView {
        self@
    }
}

impl RegisteredEdgeView {
    /// The name of the service that the edge leads to.
    pub open spec fn server_name(self) -> Seq<char> {
        self.server.1.name
    }

    /// Whether the edge's connection is there. A proxy client keeps to the replica that it is
    /// connected to; other clients may be connected to several.
    pub open spec fn is_set_up(self, reg: RegisteredView) -> bool {
        if self.client.1.proxy is Some {
            reg.holds(self.client.1)
        } else {
            reg.holds_at(self.client.1, self.server.0, self.server_docker)
        }
    }

    /// The edge's server after one more chain runs over the connection that is there: that of a proxy
    /// client to the replica that it keeps to, that of another client to the edge's replica.
    pub open spec fn counted(self, reg: RegisteredView, now: nat) -> RegisteredView {
        if self.client.1.proxy is Some {
            reg.with_chain(self.client.1, now)
        } else {
            reg.with_chain_at(self.server.0, self.server_docker, self.client.1, now)
        }
    }

    /// The edge, set up, with the address of a new proxy client.
    pub open spec fn success(self, proxy_upstream: Option<Ipv4Addr>) -> OutcomeView {
        OutcomeView::Success(
            SuccessView {
                client: self.client.1,
                server_name: self.server_name(),
                replica: (self.server.0, self.server_docker),
                proxy_upstream,
            },
        )
    }

    /// After the edge's network was torn down.
    pub open spec fn teardown(self, orch: OrchestratorView, net_id: u32) -> OrchestratorView {
        orch.teardown(
            self.client.0,
            self.client_docker,
            self.server.0,
            self.server_docker,
            net_id,
        )
    }
}

impl World {
    /// After the edge's client was taken off the replica that the edge leads to.
    pub open spec fn released(self, edge: RegisteredEdgeView) -> World {
        match model::registered(self.services, edge.server_name()) {
            Some(reg) => self.with_service(
                edge.server_name(),
                ServiceView::Registered(
                    reg.without_client_at(edge.server.0, edge.server_docker, edge.client.1),
                ),
            ),
            None => self,
        }
    }

    /// After an edge was opened, and how far that came: it fails where its server does not run or
    /// where no network identifier is left, it is finished where its connection is there, and else
    /// its hosts are asked to set up a network for a connection that is reserved.
    pub open spec fn open_edge(
        self,
        edge: RegisteredEdgeView,
        server_msg: Seq<char>,
        client_msg: Seq<char>,
        now: nat,
    ) -> (World, ProgressView) {
        let name = edge.server_name();
        match model::registered(self.services, name) {
            None => (self, ProgressView::Finished(OutcomeView::Failed)),
            Some(reg) => if edge.is_set_up(reg) {
                (
                    self.with_service(
                        name,
                        ServiceView::Registered(edge.counted(reg, now)),
                    ),
                    ProgressView::Finished(edge.success(None)),
                )
            } else {
                let reserved = self.with_service(
                    name,
                    ServiceView::Registered(
                        reg.with_client(
                            edge.server.0,
                            edge.server_docker,
                            edge.client.1,
                            clients::placeholder_info(edge.client.0, now),
                        ),
                    ),
                );
                match orchestrator::lowest_free(self.orch.net_ids) {
                    None => (
                        reserved.released(edge),
                        ProgressView::Finished(OutcomeView::Failed),
                    ),
                    Some(net_id) => (
                        World {
                            orch: self.orch.allocated(net_id).setup(
                                server_msg,
                                edge.server.0,
                                None,
                                net_id,
                                edge.client.0,
                                edge.server_docker,
                            ).setup(
                                client_msg,
                                edge.client.0,
                                Some(name),
                                net_id,
                                edge.server.0,
                                edge.client_docker,
                            ),
                            ..reserved
                        },
                        ProgressView::Pending(
                            PendingView {
                                edge,
                                net_id,
                                server_msg,
                                client_msg,
                                server_addr: if self.orch.clients.contains(edge.server.0) {
                                    Some(self.orch.net.setup_addr(false, net_id))
                                } else {
                                    None
                                },
                                client_addr: if self.orch.clients.contains(edge.client.0) {
                                    Some(self.orch.net.setup_addr(true, net_id))
                                } else {
                                    None
                                },
                                started: now,
                            },
                        ),
                    ),
                }
            },
        }
    }

    /// After an edge was finished, and how: where both hosts acknowledged and the server still
    /// runs, the connection to the edge's replica is recorded and a chain runs over it; else the network
    /// is torn down and the reservation given up.
    pub open spec fn finish_edge(
        self,
        pending: PendingView,
        server_ack: bool,
        client_ack: bool,
        now: nat,
    ) -> (World, OutcomeView) {
        let edge = pending.edge;
        let name = edge.server_name();
        let settled = World {
            orch: self.orch.settled(pending.server_msg).settled(pending.client_msg),
            ..self
        };
        let torn = World { orch: edge.teardown(settled.orch, pending.net_id), ..settled };
        match (pending.server_addr, pending.client_addr) {
            (Some(server_addr), Some(client_addr)) => if server_ack && client_ack {
                match model::registered(self.services, name) {
                    Some(reg) => (
                        settled.with_service(
                            name,
                            ServiceView::Registered(
                                reg.with_client(
                                    edge.server.0,
                                    edge.server_docker,
                                    edge.client.1,
                                    pending.info(server_addr, client_addr, now).with_chain(now),
                                ),
                            ),
                        ),
                        edge.success(
                            if edge.client.1.proxy is Some {
                                Some(server_addr)
                            } else {
                                None
                            },
                        ),
                    ),
                    None => (torn, OutcomeView::Failed),
                }
            } else {
                (torn.released(edge), OutcomeView::Failed)
            },
            _ => (torn.released(edge), OutcomeView::Failed),
        }
    }

    /// After a chain was finished, and where its proxy client reaches the service: where an edge
    /// failed, one chain fewer runs over the others.
    pub open spec fn finish_chain(
        self,
        outcomes: Seq<OutcomeView>,
    ) -> (World, Result<Option<Ipv4Addr>, RequestError>) {
        if outcomes.contains(OutcomeView::Failed) {
            (seqs::fold(self, outcomes, undo_edge()), Err(RequestError::SetupFailed))
        } else {
            (self, Ok(first_upstream(outcomes)))
        }
    }

    /// After one chain fewer runs over the connection of an edge that was set up: that of a proxy client
    /// to the replica that it keeps to, that of another client to the edge's replica.
    pub open spec fn undone(self, edge: SuccessView) -> World {
        if edge.client.proxy is Some {
            self.decrement(edge.client, edge.server_name)
        } else {
            self.decrement_at(edge.client, edge.server_name, edge.replica.0, edge.replica.1)
        }
    }
}

impl PendingView {
    /// The connection that the edge's network makes.
    pub open spec fn info(
        self,
        server_addr: Ipv4Addr,
        client_addr: Ipv4Addr,
        now: nat,
    ) -> ClientInfoView {
        clients::fresh_info(
            self.edge.client.0,
            client_addr,
            server_addr,
            self.net_id,
            elapsed_ms(self.started, now),
            self.edge.client_docker,
            self.edge.is_backend_entry,
            now,
        )
    }
}

/// The whole milliseconds from one instant to another.
pub open spec fn elapsed_ms(started: nat, now: nat) -> u128 {
    if now >= started {
        ((now - started) / 1_000_000) as u128
    } else {
        0
    }
}

/// A function that counts one chain fewer over the connection of an edge, where it was set up.
pub open spec fn undo_edge() -> spec_fn(World, OutcomeView) -> World {
    |w: World, outcome: OutcomeView|
        match outcome {
            OutcomeView::Success(edge) => w.undone(edge),
            OutcomeView::Failed => w,
        }
}

/// The address of the first new proxy client.
pub open spec fn first_upstream(outcomes: Seq<OutcomeView>) -> Option<Ipv4Addr>
    decreases outcomes.len(),
{
    if outcomes.len() == 0 {
        None
    } else {
        match outcomes[0] {
            OutcomeView::Success(
                SuccessView { client: _, server_name: _, replica: _, proxy_upstream: Some(ip) },
            ) => Some(ip),
            _ => first_upstream(outcomes.drop_first()),
        }
    }
}

impl NullnetGrpcImpl {
    /// Whether the connection of an edge is there.
    fn is_edge_set_up(edge: &RegisteredEdge, reg: &RegisteredServiceInfo) -> (r: bool)
        ensures
            r == edge@.is_set_up(reg@),
    {
        if edge.client.1.is_proxy().is_some() {
            reg.is_client_setup(&edge.client.1).is_some()
        } else {
            reg.is_client_on_replica(&edge.client.1, edge.server.0, &edge.server_docker)
        }
    }

    /// Takes the client of an edge off the replica that the edge leads to.
    fn release_edge(&mut self, edge: &RegisteredEdge)
        ensures
            final(self)@ == old(self)@.released(edge@),
    {
        if let Some(ServiceInfo::Registered(reg)) = self.services.get_mut(edge.server.1.name()) {
            reg.remove_client_from_replica(&edge.client.1, edge.server.0, &edge.server_docker);
        }
        proof {
            world::lemma_same_service(old(self)@, edge@.server_name());
        }
    }

    /// Reserves the connection of an edge, or counts one more chain over it where it is there. Gives
    /// nothing where it has to be set up.
    fn reserve_edge(&mut self, edge: &RegisteredEdge, now: u128) -> (r: Option<EdgeOutcome>)
        requires
            room::has_room(old(self)@.services, 1),
        ensures
            final(self)@.orch == old(self)@.orch,
            match model::registered(old(self)@.services, edge@.server_name()) {
                None => final(self)@ == old(self)@ && r.deep_view() == Some(OutcomeView::Failed),
                Some(reg) => if edge@.is_set_up(reg) {
                    &&& r.deep_view() == Some(edge@.success(None))
                    &&& final(self)@ == old(self)@.with_service(
                        edge@.server_name(),
                        ServiceView::Registered(edge@.counted(reg, now as nat)),
                    )
                } else {
                    &&& r is None
                    &&& final(self)@ == old(self)@.with_service(
                        edge@.server_name(),
                        ServiceView::Registered(
                            reg.with_client(
                                edge@.server.0,
                                edge@.server_docker,
                                edge@.client.1,
                                clients::placeholder_info(edge@.client.0, now as nat),
                            ),
                        ),
                    )
                },
            },
    {
        let ghost w = self@;
        proof {
            room::lemma_room_of(w.services, edge@.server_name(), 1);
            world::lemma_same_service(w, edge@.server_name());
        }
        if let Some(ServiceInfo::Registered(reg)) = self.services.get_mut(edge.server.1.name()) {
            proof {
                room::lemma_info_room(reg@, edge@.client.1, 1);
                room::lemma_info_at_room(
                    reg@,
                    edge@.server.0,
                    edge@.server_docker,
                    edge@.client.1,
                    1,
                );
            }
            if Self::is_edge_set_up(edge, reg) {
                if edge.client.1.is_proxy().is_some() {
                    reg.add_chain(&edge.client.1, now);
                } else {
                    reg.add_chain_on_replica(
                        &edge.client.1,
                        edge.server.0,
                        &edge.server_docker,
                        now,
                    );
                }
                return Some(
                    EdgeOutcome::Success(
                        SuccessfulEdge {
                            client: edge.client.1.clone(),
                            server_name: edge.server.1.name().clone(),
                            replica: (edge.server.0, text::copy_option(&edge.server_docker)),
                            proxy_upstream: None,
                        },
                    ),
                );
            }
            // reserve the slot so that other requests see it as in progress
            reg.add_client_to_replica(
                edge.server.0,
                &edge.server_docker,
                edge.client.1.clone(),
                ClientInfo::placeholder(edge.client.0, now),
            );
            return None;
        }
        Some(EdgeOutcome::Failed)
    }

    /// Opens an edge, with the identifiers of the messages to its hosts.
    pub fn open_edge(
        &mut self,
        edge: RegisteredEdge,
        server_msg: String,
        client_msg: String,
        now: u128,
    ) -> (r: EdgeProgress)
        requires
            room::has_room(old(self)@.services, 1),
        ensures
            (final(self)@, r@) == old(self)@.open_edge(
                edge@,
                server_msg@,
                client_msg@,
                now as nat,
            ),
    {
        if let Some(outcome) = self.reserve_edge(&edge, now) {
            return EdgeProgress::Finished(outcome);
        }
        let net_id = match self.orchestrator.allocate_net_id() {
            Some(net_id) => net_id,
            None => {
                self.release_edge(&edge);
                return EdgeProgress::Finished(EdgeOutcome::Failed);
            },
        };
        let server_addr = self.orchestrator.send_net_setup(
            server_msg.clone(),
            edge.server.0,
            None,
            net_id,
            edge.client.0,
            text::copy_option(&edge.server_docker),
        );
        let client_addr = self.orchestrator.send_net_setup(
            client_msg.clone(),
            edge.client.0,
            Some(edge.server.1.name().clone()),
            net_id,
            edge.server.0,
            text::copy_option(&edge.client_docker),
        );
        EdgeProgress::Pending(
            PendingEdge {
                edge,
                net_id,
                server_msg,
                client_msg,
                server_addr,
                client_addr,
                started: now,
            },
        )
    }

    /// Opens an edge under fresh message identifiers.
    pub fn begin_edge(&mut self, edge: RegisteredEdge, now: u128) -> (r: EdgeProgress)
        requires
            room::has_room(old(self)@.services, 1),
        ensures
            exists|server_msg: Seq<char>, client_msg: Seq<char>|
                {
                    &&& orchestrator::is_message_id(server_msg)
                    &&& orchestrator::is_message_id(client_msg)
                    &&& (final(self)@, r@) == #[trigger] old(self)@.open_edge(
                        edge@,
                        server_msg,
                        client_msg,
                        now as nat,
                    )
                },
    {
        let server_msg = new_message_id();
        let client_msg = new_message_id();
        self.open_edge(edge, server_msg, client_msg, now)
    }
}

/// The whole milliseconds from one instant to another.
fn millis_between(started: u128, now: u128) -> (r: u128)
    ensures
        r == elapsed_ms(started as nat, now as nat),
{
    now.saturating_sub(started) / 1_000_000
}

impl NullnetGrpcImpl {
    /// Tears down the network of an edge.
    fn teardown_edge(&mut self, edge: &RegisteredEdge, net_id: u32)
        ensures
            final(self)@ == (World {
                orch: edge@.teardown(old(self)@.orch, net_id),
                ..old(self)@
            }),
    {
        self.orchestrator.send_net_teardown(
            edge.client.0,
            text::copy_option(&edge.client_docker),
            edge.server.0,
            text::copy_option(&edge.server_docker),
            net_id,
        );
    }

    /// Records the connection of an edge whose hosts both acknowledged. Gives false where the server
    /// does not run any more.
    fn commit_edge(
        &mut self,
        pending: &PendingEdge,
        server_addr: Ipv4Addr,
        client_addr: Ipv4Addr,
        now: u128,
    ) -> (r: bool)
        ensures
            match model::registered(old(self)@.services, pending@.edge.server_name()) {
                Some(reg) => {
                    &&& r
                    &&& final(self)@ == old(self)@.with_service(
                        pending@.edge.server_name(),
                        ServiceView::Registered(
                            reg.with_client(
                                pending@.edge.server.0,
                                pending@.edge.server_docker,
                                pending@.edge.client.1,
                                pending@.info(server_addr, client_addr, now as nat).with_chain(
                                    now as nat,
                                ),
                            ),
                        ),
                    )
                },
                None => !r && final(self)@ == old(self)@,
            },
    {
        let edge = &pending.edge;
        proof {
            world::lemma_same_service(self@, edge@.server_name());
        }
        if let Some(ServiceInfo::Registered(reg)) = self.services.get_mut(edge.server.1.name()) {
            let mut ci = ClientInfo::new(
                edge.client.0,
                client_addr,
                server_addr,
                pending.net_id,
                millis_between(pending.started, now),
                text::copy_option(&edge.client_docker),
                now,
            ).with_backend_entry(edge.is_backend_entry);
            ci.add_active_chain(now);
            reg.add_client_to_replica(
                edge.server.0,
                &edge.server_docker,
                edge.client.1.clone(),
                ci,
            );
            return true;
        }
        false
    }

    /// Finishes an edge, once each of its hosts acknowledged or will not.
    pub fn finish_edge(
        &mut self,
        pending: PendingEdge,
        server_ack: bool,
        client_ack: bool,
        now: u128,
    ) -> (r: EdgeOutcome)
        ensures
            (final(self)@, r@) == old(self)@.finish_edge(
                pending@,
                server_ack,
                client_ack,
                now as nat,
            ),
    {
        self.orchestrator.settle(&pending.server_msg);
        self.orchestrator.settle(&pending.client_msg);
        let (server_addr, client_addr) = match (pending.server_addr, pending.client_addr) {
            (Some(server_addr), Some(client_addr)) if server_ack && client_ack => (
                server_addr,
                client_addr,
            ),
            _ => {
                self.teardown_edge(&pending.edge, pending.net_id);
                self.release_edge(&pending.edge);
                return EdgeOutcome::Failed;
            },
        };
        if !self.commit_edge(&pending, server_addr, client_addr, now) {
            // the service stopped during the set-up
            self.teardown_edge(&pending.edge, pending.net_id);
            return EdgeOutcome::Failed;
        }
        let proxy_upstream = if pending.edge.client.1.is_proxy().is_some() {
            Some(server_addr)
        } else {
            None
        };
        EdgeOutcome::Success(
            SuccessfulEdge {
                client: pending.edge.client.1.clone(),
                server_name: pending.edge.server.1.name().clone(),
                replica: (pending.edge.server.0, text::copy_option(&pending.edge.server_docker)),
                proxy_upstream,
            },
        )
    }

    /// Finishes a chain, once all its edges are finished: where one failed, one chain fewer runs
    /// over the others. Gives the address at which a new proxy client reaches the service.
    pub fn finish_chain(&mut self, outcomes: Vec<EdgeOutcome>) -> (r: Result<
        Option<Ipv4Addr>,
        RequestError,
    >)
        ensures
            (final(self)@, r) == old(self)@.finish_chain(outcomes.deep_view()),
    {
        if any_failed(&outcomes) {
            self.undo_edges(&outcomes);
            return Err(RequestError::SetupFailed);
        }
        Ok(find_upstream(&outcomes))
    }

    /// Counts one chain fewer over the connection of each edge that was set up.
    fn undo_edges(&mut self, outcomes: &Vec<EdgeOutcome>)
        ensures
            final(self)@ == seqs::fold(old(self)@, outcomes.deep_view(), undo_edge()),
    {
        let ghost w = self@;
        let ghost f = undo_edge();
        let ghost all = outcomes.deep_view();
        let mut i: usize = 0;
        assert(all.take(0) =~= Seq::empty());
        while i < outcomes.len()
            invariant
                i <= outcomes.len(),
                all == outcomes.deep_view(),
                f == undo_edge(),
                self@ == seqs::fold(w, all.take(i as int), f),
            decreases outcomes.len() - i,
        {
            proof {
                seqs::lemma_fold_step(w, all, f, i as int);
                assert(all[i as int] == outcomes[i as int]@);
            }
            if let EdgeOutcome::Success(edge) = &outcomes[i] {
                self.undo_edge(edge);
            }
            i = i + 1;
        }
        assert(all.take(i as int) =~= all);
    }

    /// Counts one chain fewer over the connection of an edge that was set up.
    fn undo_edge(&mut self, edge: &SuccessfulEdge)
        ensures
            final(self)@ == old(self)@.undone(edge@),
    {
        proof {
            reveal(World::decrement);
            reveal(World::decrement_at);
            world::lemma_same_service(self@, edge@.server_name);
        }
        if let Some(ServiceInfo::Registered(reg)) = self.services.get_mut(&edge.server_name) {
            if edge.client.is_proxy().is_some() {
                reg.decrement_chain(&edge.client, &mut self.orchestrator);
            } else {
                reg.decrement_chain_on_replica(
                    &edge.client,
                    edge.replica.0,
                    &edge.replica.1,
                    &mut self.orchestrator,
                );
            }
        }
    }
}

/// Whether an edge failed.
fn any_failed(outcomes: &Vec<EdgeOutcome>) -> (r: bool)
    ensures
        r == outcomes.deep_view().contains(OutcomeView::Failed),
{
    let mut i: usize = 0;
    while i < outcomes.len()
        invariant
            i <= outcomes.len(),
            forall|j: int| 0 <= j < i ==> outcomes.deep_view()[j] != OutcomeView::Failed,
        decreases outcomes.len() - i,
    {
        assert(outcomes.deep_view()[i as int] == outcomes[i as int]@);
        if let EdgeOutcome::Failed = outcomes[i] {
            return true;
        }
        i = i + 1;
    }
    false
}

/// The address of the first new proxy client.
fn find_upstream(outcomes: &Vec<EdgeOutcome>) -> (r: Option<Ipv4Addr>)
    ensures
        r == first_upstream(outcomes.deep_view()),
{
    let ghost all = outcomes.deep_view();
    let mut i: usize = 0;
    assert(all.skip(0) =~= all);
    while i < outcomes.len()
        invariant
            i <= outcomes.len(),
            all == outcomes.deep_view(),
            first_upstream(all.skip(i as int)) == first_upstream(all),
        decreases outcomes.len() - i,
    {
        proof {
            assert(all.skip(i as int)[0] == outcomes[i as int]@);
            assert(all.skip(i as int).drop_first() =~= all.skip(i + 1));
        }
        if let EdgeOutcome::Success(edge) = &outcomes[i] {
            if let Some(ip) = edge.proxy_upstream {
                return Some(ip);
            }
        }
        i = i + 1;
    }
    None
}

/// The edges of a chain, opened one after the other.
pub open spec fn open_all(
    w: World,
    edges: Seq<RegisteredEdgeView>,
    msgs: Seq<(Seq<char>, Seq<char>)>,
    now: nat,
) -> (World, Seq<ProgressView>)
    decreases edges.len(),
{
    if edges.len() == 0 {
        (w, Seq::empty())
    } else {
        let (w, progress) = open_all(w, edges.drop_last(), msgs, now);
        let m = msgs[edges.len() - 1];
        let (w, last) = w.open_edge(edges.last(), m.0, m.1, now);
        (w, progress.push(last))
    }
}

/// The edges of a chain, finished one after the other with the answers of their hosts.
pub open spec fn finish_all(
    w: World,
    progress: Seq<ProgressView>,
    acks: Seq<(bool, bool)>,
    now: nat,
) -> (World, Seq<OutcomeView>)
    decreases progress.len(),
{
    if progress.len() == 0 {
        (w, Seq::empty())
    } else {
        let (w, outcomes) = finish_all(w, progress.drop_last(), acks, now);
        let ack = acks[progress.len() - 1];
        match progress.last() {
            ProgressView::Finished(outcome) => (w, outcomes.push(outcome)),
            ProgressView::Pending(pending) => {
                let (w, outcome) = w.finish_edge(pending, ack.0, ack.1, now);
                (w, outcomes.push(outcome))
            },
        }
    }
}

impl World {
    /// After the set-up of a chain whose hosts answer as given, and where its proxy client reaches
    /// the service.
    pub open spec fn set_up_chain(
        self,
        edges: Seq<RegisteredEdgeView>,
        msgs: Seq<(Seq<char>, Seq<char>)>,
        acks: Seq<(bool, bool)>,
        opened: nat,
        finished: nat,
    ) -> (World, Result<Option<Ipv4Addr>, RequestError>) {
        let (w, progress) = open_all(self, edges, msgs, opened);
        let (w, outcomes) = finish_all(w, progress, acks, finished);
        w.finish_chain(outcomes)
    }
}

/// Giving up a reservation takes no room.
proof fn lemma_released_room(w: World, edge: RegisteredEdgeView, n: nat)
    requires
        room::has_room(w.services, n),
    ensures
        room::has_room(w.released(edge).services, n),
{
    let name = edge.server_name();
    if let Some(reg) = model::registered(w.services, name) {
        room::lemma_room_of(w.services, name, n);
        let (ip, docker) = (edge.server.0, edge.server_docker);
        room::lemma_without_client_at_room(reg, ip, docker, edge.client.1, n);
        room::lemma_put_room(
            w.services,
            name,
            ServiceView::Registered(reg.without_client_at(ip, docker, edge.client.1)),
            n,
        );
    }
}

/// An edge that is opened takes room for one chain.
proof fn lemma_open_room(
    w: World,
    edge: RegisteredEdgeView,
    server_msg: Seq<char>,
    client_msg: Seq<char>,
    now: nat,
    n: nat,
)
    requires
        room::has_room(w.services, n + 1),
        n + 1 <= usize::MAX,
    ensures
        room::has_room(w.open_edge(edge, server_msg, client_msg, now).0.services, n),
{
    let name = edge.server_name();
    room::lemma_less_room(w.services, n + 1, n);
    if let Some(reg) = model::registered(w.services, name) {
        room::lemma_room_of(w.services, name, n + 1);
        let c = edge.client.1;
        if edge.is_set_up(reg) {
            room::lemma_with_chain_room(reg, c, now, n);
            room::lemma_with_chain_at_room(reg, edge.server.0, edge.server_docker, c, now, n);
            room::lemma_put_room(
                w.services,
                name,
                ServiceView::Registered(edge.counted(reg, now)),
                n,
            );
        } else {
            let ci = clients::placeholder_info(edge.client.0, now);
            let with = reg.with_client(edge.server.0, edge.server_docker, c, ci);
            room::lemma_room_of(w.services, name, n);
            room::lemma_with_client_room(reg, edge.server.0, edge.server_docker, c, ci, n);
            room::lemma_put_room(w.services, name, ServiceView::Registered(with), n);
            lemma_released_room(w.with_service(name, ServiceView::Registered(with)), edge, n);
        }
    }
}

impl NullnetGrpcImpl {
    /// Opens the edges of a chain.
    fn open_edges(
        &mut self,
        dep_chain: Vec<RegisteredEdge>,
        msg_ids: &Vec<(String, String)>,
        now: u128,
    ) -> (r: Vec<EdgeProgress>)
        requires
            dep_chain.len() == msg_ids.len(),
            room::has_room(old(self)@.services, dep_chain.deep_view().len()),
        ensures
            (final(self)@, r.deep_view()) == open_all(
                old(self)@,
                dep_chain.deep_view(),
                msg_ids.deep_view(),
                now as nat,
            ),
            r.len() == dep_chain.len(),
    {
        let ghost w = self@;
        let ghost edges = dep_chain.deep_view();
        let ghost msgs = msg_ids.deep_view();
        let mut dep_chain = dep_chain;
        let mut r: Vec<EdgeProgress> = Vec::new();
        assert(r.deep_view() =~= Seq::empty());
        assert(edges.take(0) =~= Seq::empty());
        while dep_chain.len() > 0
            invariant
                r.len() + dep_chain.len() == edges.len(),
                edges.len() == msg_ids.len(),
                edges.len() <= usize::MAX,
                msgs == msg_ids.deep_view(),
                dep_chain.deep_view() =~= edges.skip(r.len() as int),
                (self@, r.deep_view()) == open_all(w, edges.take(r.len() as int), msgs, now as nat),
                room::has_room(self@.services, dep_chain.len() as nat),
            decreases dep_chain.len(),
        {
            let ghost k = r.len() as int;
            let ghost before = dep_chain.deep_view();
            let ghost before_w = self@;
            let ghost progress = r.deep_view();
            let ghost n = (dep_chain.len() - 1) as nat;
            assert(before.len() == dep_chain.len());
            let i = r.len();
            let edge = dep_chain.remove(0);
            proof {
                assert(edge@ == before[0]);
                assert(before[0] == edges[k]);
                assert(dep_chain.deep_view() =~= before.remove(0));
                assert(before.remove(0) =~= edges.skip(k + 1));
                assert(edges.take(k + 1).drop_last() =~= edges.take(k));
                assert(msgs[k] == (msg_ids[k].0@, msg_ids[k].1@));
                room::lemma_less_room(before_w.services, n + 1, 1);
                lemma_open_room(before_w, edge@, msgs[k].0, msgs[k].1, now as nat, n);
            }
            let progress_of_edge = self.open_edge(
                edge,
                msg_ids[i].0.clone(),
                msg_ids[i].1.clone(),
                now,
            );
            r.push(progress_of_edge);
            assert(r.deep_view() =~= progress.push(progress_of_edge@));
        }
        assert(edges.take(r.len() as int) =~= edges);
        r
    }

    /// Finishes the edges of a chain with the answers of their hosts.
    fn finish_edges(
        &mut self,
        progress: Vec<EdgeProgress>,
        acks: &Vec<(bool, bool)>,
        now: u128,
    ) -> (r: Vec<EdgeOutcome>)
        requires
            progress.len() == acks.len(),
        ensures
            (final(self)@, r.deep_view()) == finish_all(
                old(self)@,
                progress.deep_view(),
                acks@,
                now as nat,
            ),
    {
        let ghost w = self@;
        let ghost all = progress.deep_view();
        let mut progress = progress;
        let mut r: Vec<EdgeOutcome> = Vec::new();
        assert(r.deep_view() =~= Seq::empty());
        assert(all.take(0) =~= Seq::empty());
        assert(all.skip(0) =~= all);
        while progress.len() > 0
            invariant
                r.len() + progress.len() == all.len(),
                all.len() == acks.len(),
                progress.deep_view() =~= all.skip(r.len() as int),
                (self@, r.deep_view()) == finish_all(
                    w,
                    all.take(r.len() as int),
                    acks@,
                    now as nat,
                ),
            decreases progress.len(),
        {
            let ghost k = r.len() as int;
            let ghost before = progress.deep_view();
            let ghost so_far = r.deep_view();
            assert(before.len() == progress.len());
            let (server_ack, client_ack) = acks[r.len()];
            let edge = progress.remove(0);
            proof {
                assert(edge@ == before[0]);
                assert(before[0] == all[k]);
                assert(progress.deep_view() =~= before.remove(0));
                assert(before.remove(0) =~= all.skip(k + 1));
                assert(all.take(k + 1).drop_last() =~= all.take(k));
            }
            let outcome = match edge {
                EdgeProgress::Finished(outcome) => outcome,
                EdgeProgress::Pending(pending) => self.finish_edge(
                    pending,
                    server_ack,
                    client_ack,
                    now,
                ),
            };
            r.push(outcome);
            assert(r.deep_view() =~= so_far.push(outcome@));
        }
        assert(all.take(r.len() as int) =~= all);
        r
    }

    /// Sets up a chain whose hosts answer as given: `acks` says of each edge whether the server's and
    /// the client's host acknowledged. Gives the address at which a new proxy client reaches the
    /// service.
    pub fn net_chain_setup(
        &mut self,
        dep_chain: Vec<RegisteredEdge>,
        msg_ids: &Vec<(String, String)>,
        acks: &Vec<(bool, bool)>,
        opened: u128,
        finished: u128,
    ) -> (r: Result<Option<Ipv4Addr>, RequestError>)
        requires
            dep_chain.len() == msg_ids.len(),
            dep_chain.len() == acks.len(),
            room::has_room(old(self)@.services, dep_chain.deep_view().len()),
        ensures
            (final(self)@, r) == old(self)@.set_up_chain(
                dep_chain.deep_view(),
                msg_ids.deep_view(),
                acks@,
                opened as nat,
                finished as nat,
            ),
    {
        let progress = self.open_edges(dep_chain, msg_ids, opened);
        let outcomes = self.finish_edges(progress, acks, finished);
        self.finish_chain(outcomes)
    }
}

} // verus!
