//! What the set-up of a chain adds, and that it can be undone.
use crate::addr::IpAddr;
use crate::chain_setup;
use crate::chain_setup::{OutcomeView, PendingView, ProgressView};
use crate::seqs;
use crate::services::clients;
use crate::services::clients::{ClientInfoView, ClientView};
use crate::services::connections;
use crate::services::edge::RegisteredEdgeView;
use crate::services::laws;
use crate::services::model;
use crate::services::model::{ServiceView, ServicesView};
use crate::services::world;
use crate::services::world::{ChainEdge, ChainHop, NodeView, World};
use crate::setup_laws;
use vstd::prelude::*;

verus! {

/// Where a connection may be: a client, and a replica of a service.
#[verifier::ext_equal]
pub struct Spot {
    pub name: Seq<char>,
    pub ip: IpAddr,
    pub docker: Option<Seq<char>>,
    pub client: ClientView,
}

/// The connection at a spot.
pub open spec fn at(services: ServicesView, s: Spot) -> Option<ClientInfoView> {
    connections::conn(services, s.name, s.ip, s.docker, s.client)
}

/// The spot that an edge connects.
pub open spec fn spot(edge: RegisteredEdgeView) -> Spot {
    Spot {
        name: edge.server_name(),
        ip: edge.server.0,
        docker: edge.server_docker,
        client: edge.client.1,
    }
}

/// The client of a spot is connected to no other replica of the spot's service.
pub open spec fn only_at(services: ServicesView, s: Spot) -> bool {
    forall|q: Spot|
        q.name == s.name && q.client == s.client && (#[trigger] at(services, q)) is Some ==> q == s
}

/// Two states of the services differ in the connection at one spot alone.
pub open spec fn set_at(
    a: ServicesView,
    b: ServicesView,
    s: Spot,
    info: Option<ClientInfoView>,
) -> bool {
    &&& laws::same_shape(a, b)
    &&& forall|q: Spot| #[trigger]
        at(b, q) == (if q == s {
            info
        } else {
            at(a, q)
        })
}

/// A connection after one chain fewer runs over it: it is gone with its last chain.
pub open spec fn fewer(info: Option<ClientInfoView>) -> Option<ClientInfoView> {
    match info {
        Some(ci) => if ci.active_chains <= 1 {
            None
        } else {
            Some(ci.without_chains(1))
        },
        None => None,
    }
}

/// An edge can be counted: its server, where it runs, runs a replica at the edge's end, and a proxy client
/// is connected to no other one. A connection that is there is set up.
pub open spec fn is_ready(services: ServicesView, edge: RegisteredEdgeView) -> bool {
    let s = spot(edge);
    &&& model::registered(services, s.name) is Some ==> laws::port_at(
        services,
        s.name,
        s.ip,
        s.docker,
    ) is Some
    &&& s.client.proxy is Some ==> only_at(services, s)
    &&& at(services, s) is Some ==> at(services, s)->0.active_chains > 0
}

/// The client of an edge and the service that it leads to.
pub open spec fn pair(edge: RegisteredEdgeView) -> ChainEdge {
    (edge.client.1, edge.server_name())
}

/// Two edges make different connections. Those of a proxy client lead to different services.
pub open spec fn is_apart(a: RegisteredEdgeView, b: RegisteredEdgeView) -> bool {
    pair(a) != pair(b) || (a.client.1.proxy is None && spot(a) != spot(b))
}

/// Each edge can be counted, and no two make the same connection.
pub open spec fn is_linked(services: ServicesView, edges: Seq<RegisteredEdgeView>) -> bool {
    &&& forall|i: int| 0 <= i < edges.len() ==> is_ready(services, #[trigger] edges[i])
    &&& forall|i: int, j: int|
        0 <= i < j < edges.len() ==> is_apart(#[trigger] edges[i], #[trigger] edges[j])
}

/// No client of an edge is connected to another replica of the edge's server, and no two edges are of
/// the same client and the same service.
pub open spec fn is_single(services: ServicesView, edges: Seq<RegisteredEdgeView>) -> bool {
    &&& forall|i: int| 0 <= i < edges.len() ==> only_at(services, spot(#[trigger] edges[i]))
    &&& forall|i: int, j: int|
        0 <= i < j < edges.len() ==> pair(#[trigger] edges[i]) != pair(#[trigger] edges[j])
}

pub(crate) proof fn lemma_set_at(
    a: ServicesView,
    b: ServicesView,
    s: Spot,
    info: Option<ClientInfoView>,
)
    requires
        setup_laws::conn_set(a, b, s.name, s.ip, s.docker, s.client, info),
    ensures
        set_at(a, b, s, info),
{
    assert forall|q: Spot| #[trigger]
        at(b, q) == (if q == s {
            info
        } else {
            at(a, q)
        }) by {
        if q.name == s.name && q.ip == s.ip && q.docker == s.docker && q.client == s.client {
            assert(q =~= s);
        }
    }
}

/// Where the client of a spot is found, if it is connected nowhere else.
pub(crate) proof fn lemma_found(services: ServicesView, s: Spot)
    requires
        connections::services_wf(services),
        only_at(services, s),
    ensures
        match model::registered(services, s.name) {
            Some(reg) => {
                &&& reg.holds(s.client) == (at(services, s) is Some)
                &&& reg.info(s.client) == at(services, s)
                &&& reg.holds(s.client) ==> reg.replicas[reg.holder(s.client)].matches(
                    s.ip,
                    s.docker,
                )
            },
            None => at(services, s) is None,
        },
{
    connections::lemma_wf_of(services, s.name);
    if let Some(reg) = model::registered(services, s.name) {
        connections::lemma_holds(reg, s.client);
        if reg.holds(s.client) {
            let r = reg.replicas[reg.holder(s.client)];
            let q = Spot { ip: r.ip, docker: r.docker_container, ..s };
            assert(at(services, q) is Some);
        } else if at(services, s) is Some {
            assert(connections::replica_conn(reg, s.ip, s.docker, s.client) is Some);
        }
    }
}

/// `after` is `w` after one chain fewer runs over the connection at a spot.
pub open spec fn is_fewer(w: World, s: Spot, after: World) -> bool {
    &&& connections::services_wf(after.services)
    &&& set_at(w.services, after.services, s, fewer(at(w.services, s)))
    &&& after.orch.net_ids == (match at(w.services, s) {
        Some(ci) => if ci.active_chains <= 1 {
            seqs::without(w.orch.net_ids, ci.net_id)
        } else {
            w.orch.net_ids
        },
        None => w.orch.net_ids,
    })
}

/// Where the backend chains of a client lead that is connected to one replica alone.
pub(crate) proof fn lemma_entry_found(services: ServicesView, s: Spot)
    requires
        connections::services_wf(services),
        only_at(services, s),
        at(services, s) is Some,
    ensures
        world::entry_connection(services, s.client, s.name) == Some(end_of(s)),
{
    lemma_found(services, s);
    connections::lemma_wf_of(services, s.name);
    let reg = model::registered(services, s.name)->0;
    setup_laws::lemma_entry(reg, s.client);
    let r = reg.replicas[reg.entry_holder(s.client)];
    let q = Spot { ip: r.ip, docker: r.docker_container, ..s };
    assert(at(services, q) is Some);
}

/// What one chain fewer over the connection to a replica changes.
pub(crate) proof fn lemma_fewer_at(w: World, s: Spot)
    requires
        connections::services_wf(w.services),
    ensures
        is_fewer(w, s, w.decrement_at(s.client, s.name, s.ip, s.docker)),
{
    let after = w.decrement_at(s.client, s.name, s.ip, s.docker);
    laws::lemma_decrement_at_reduced(w, s.client, s.name, s.ip, s.docker);
    reveal(World::decrement_at);
    connections::lemma_wf_of(w.services, s.name);
    if let Some(reg) = model::registered(w.services, s.name) {
        let (next, _) = reg.decremented_at(s.ip, s.docker, s.client, w.orch);
        laws::lemma_decremented_at_reduced(reg, s.ip, s.docker, s.client, w.orch);
        laws::lemma_put_shape(w, s.name, next);
        if let Some(ci) = reg.info_at(s.ip, s.docker, s.client) {
            if ci.active_chains <= 1 {
                connections::lemma_without_client_at(reg, s.ip, s.docker, s.client);
            } else {
                if s.client.proxy is Some {
                    let i = reg.replica_index(s.ip, s.docker);
                    assert(reg.is_replica(s.ip, s.docker, i));
                    connections::lemma_sticky_holder(reg, s.client, i);
                }
                connections::lemma_with_client(
                    reg,
                    s.ip,
                    s.docker,
                    s.client,
                    ci.without_chains(1),
                );
            }
        }
        assert forall|q: Spot| #[trigger]
            at(after.services, q) == (if q == s {
                fewer(at(w.services, s))
            } else {
                at(w.services, q)
            }) by {
            laws::lemma_put_registered(
                w.services,
                s.name,
                ServiceView::Registered(next),
                q.name,
            );
            if q.name == s.name && q.ip == s.ip && q.docker == s.docker && q.client == s.client {
                assert(q =~= s);
            }
            assert(connections::replica_conn(next, q.ip, q.docker, q.client) is Some
                || connections::replica_conn(next, q.ip, q.docker, q.client) is None);
        }
    }
}

/// What one chain fewer over the connection of a client changes that is connected to one replica alone.
pub(crate) proof fn lemma_fewer(w: World, s: Spot)
    requires
        connections::services_wf(w.services),
        only_at(w.services, s),
    ensures
        is_fewer(w, s, w.decrement(s.client, s.name)),
{
    let after = w.decrement(s.client, s.name);
    laws::lemma_decrement_reduced(w, s.client, s.name);
    laws::lemma_decrement_shape(w, s.client, s.name);
    lemma_found(w.services, s);
    reveal(World::decrement);
    connections::lemma_wf_of(w.services, s.name);
    if let Some(reg) = model::registered(w.services, s.name) {
        let (next, _) = reg.decremented(s.client, w.orch);
        if let Some(ci) = reg.info(s.client) {
            if ci.active_chains <= 1 {
                connections::lemma_without_client(reg, s.client);
            } else {
                connections::lemma_with_info(reg, s.client, ci.without_chains(1));
            }
        }
        assert forall|q: Spot| #[trigger]
            at(after.services, q) == (if q == s {
                fewer(at(w.services, s))
            } else {
                at(w.services, q)
            }) by {
            laws::lemma_put_registered(
                w.services,
                s.name,
                ServiceView::Registered(next),
                q.name,
            );
            if q.name == s.name && q.ip == s.ip && q.docker == s.docker && q.client == s.client {
                assert(q =~= s);
            }
            assert(connections::replica_conn(next, q.ip, q.docker, q.client) is Some
                || connections::replica_conn(next, q.ip, q.docker, q.client) is None);
        }
    }
}

/// A connection after it was marked or not as the entry of a backend chain.
pub open spec fn remarked(info: Option<ClientInfoView>, flag: bool) -> Option<ClientInfoView> {
    match info {
        Some(ci) => Some(ci.marked(flag)),
        None => None,
    }
}

/// The replica of a spot.
pub open spec fn end_of(s: Spot) -> NodeView {
    NodeView { name: s.name, ip: s.ip, docker: s.docker }
}

/// What marking a connection changes.
pub(crate) proof fn lemma_remarked(w: World, s: Spot, flag: bool)
    requires
        connections::services_wf(w.services),
    ensures
        ({
            let after = w.marked_at(s.client, end_of(s), flag);
            &&& connections::services_wf(after.services)
            &&& set_at(w.services, after.services, s, remarked(at(w.services, s), flag))
            &&& after.orch == w.orch
        }),
{
    setup_laws::law_marked(w, s.client, end_of(s), flag);
    lemma_set_at(
        w.services,
        w.marked_at(s.client, end_of(s), flag).services,
        s,
        remarked(at(w.services, s), flag),
    );
}

/// How far the opening of an edge came, and what it changed.
pub open spec fn is_opened(
    w: World,
    edge: RegisteredEdgeView,
    now: nat,
    after: World,
    progress: ProgressView,
) -> bool {
    let s = spot(edge);
    match progress {
        ProgressView::Finished(OutcomeView::Success(_)) => {
            &&& at(w.services, s) is Some
            &&& progress == ProgressView::Finished(edge.success(None))
            &&& set_at(
                w.services,
                after.services,
                s,
                Some(at(w.services, s)->0.with_chain(now)),
            )
            &&& after.orch == w.orch
        },
        ProgressView::Finished(OutcomeView::Failed) => {
            &&& at(w.services, s) is None
            &&& after == w
        },
        ProgressView::Pending(p) => {
            &&& at(w.services, s) is None
            &&& p.edge == edge
            &&& !w.orch.net_ids.contains(p.net_id)
            &&& set_at(
                w.services,
                after.services,
                s,
                Some(clients::placeholder_info(edge.client.0, now)),
            )
            &&& after.orch.net_ids == w.orch.net_ids.push(p.net_id)
        },
    }
}

/// What the opening of an edge changes whose server runs.
proof fn lemma_opened_running(
    w: World,
    edge: RegisteredEdgeView,
    server_msg: Seq<char>,
    client_msg: Seq<char>,
    now: nat,
)
    requires
        connections::services_wf(w.services),
        is_ready(w.services, edge),
        model::registered(w.services, edge.server_name()) is Some,
    ensures
        ({
            let (after, progress) = w.open_edge(edge, server_msg, client_msg, now);
            &&& connections::services_wf(after.services)
            &&& is_opened(w, edge, now, after, progress)
        }),
{
    let (after, progress) = w.open_edge(edge, server_msg, client_msg, now);
    let s = spot(edge);
    setup_laws::law_open_edge(w, edge, server_msg, client_msg, now);
    let reg = model::registered(w.services, s.name)->0;
    connections::lemma_wf_of(w.services, s.name);
    if s.client.proxy is Some {
        lemma_found(w.services, s);
    } else {
        connections::lemma_holds_at(reg, s.ip, s.docker, s.client);
    }
    assert(edge.is_set_up(reg) == (at(w.services, s) is Some));
    match progress {
        ProgressView::Finished(OutcomeView::Success(_)) => {
            let (ip, docker) = choose|ip: IpAddr, docker: Option<Seq<char>>|
                {
                    &&& (#[trigger] connections::conn(
                        w.services,
                        s.name,
                        ip,
                        docker,
                        s.client,
                    )) is Some
                    &&& setup_laws::conn_set(
                        w.services,
                        after.services,
                        s.name,
                        ip,
                        docker,
                        s.client,
                        Some(
                            connections::conn(
                                w.services,
                                s.name,
                                ip,
                                docker,
                                s.client,
                            )->0.with_chain(now),
                        ),
                    )
                    &&& s.client.proxy is None ==> ip == s.ip && docker == s.docker
                };
            let q = Spot { ip, docker, ..s };
            assert(at(w.services, q) is Some);
            lemma_set_at(
                w.services,
                after.services,
                s,
                Some(at(w.services, s)->0.with_chain(now)),
            );
        },
        ProgressView::Finished(OutcomeView::Failed) => {
            setup_laws::lemma_release_undoes(
                w,
                edge,
                reg,
                clients::placeholder_info(edge.client.0, now),
            );
        },
        ProgressView::Pending(p) => {
            lemma_set_at(
                w.services,
                after.services,
                s,
                Some(clients::placeholder_info(edge.client.0, now)),
            );
        },
    }
}

/// What the opening of an edge changes.
pub(crate) proof fn lemma_opened(
    w: World,
    edge: RegisteredEdgeView,
    server_msg: Seq<char>,
    client_msg: Seq<char>,
    now: nat,
)
    requires
        connections::services_wf(w.services),
        is_ready(w.services, edge),
    ensures
        ({
            let (after, progress) = w.open_edge(edge, server_msg, client_msg, now);
            &&& connections::services_wf(after.services)
            &&& is_opened(w, edge, now, after, progress)
        }),
{
    if model::registered(w.services, edge.server_name()) is Some {
        lemma_opened_running(w, edge, server_msg, client_msg, now);
    }
}

/// How an edge that was open ended, and what that changed.
pub open spec fn is_finished(
    w: World,
    pending: PendingView,
    now: nat,
    after: World,
    outcome: OutcomeView,
) -> bool {
    let s = spot(pending.edge);
    match outcome {
        OutcomeView::Success(_) => {
            &&& pending.server_addr is Some && pending.client_addr is Some
            &&& outcome == pending.edge.success(
                if s.client.proxy is Some {
                    pending.server_addr
                } else {
                    None
                },
            )
            &&& set_at(
                w.services,
                after.services,
                s,
                Some(
                    pending.info(pending.server_addr->0, pending.client_addr->0, now).with_chain(
                        now,
                    ),
                ),
            )
            &&& after.orch.net_ids == w.orch.net_ids
        },
        OutcomeView::Failed => {
            &&& set_at(w.services, after.services, s, None)
            &&& after.orch.net_ids == seqs::without(w.orch.net_ids, pending.net_id)
        },
    }
}

/// What finishing an edge changes.
pub(crate) proof fn lemma_finished(
    w: World,
    pending: PendingView,
    server_ack: bool,
    client_ack: bool,
    now: nat,
)
    requires
        connections::services_wf(w.services),
        laws::port_at(
            w.services,
            spot(pending.edge).name,
            spot(pending.edge).ip,
            spot(pending.edge).docker,
        ) is Some,
        spot(pending.edge).client.proxy is Some ==> only_at(w.services, spot(pending.edge)),
    ensures
        ({
            let (after, outcome) = w.finish_edge(pending, server_ack, client_ack, now);
            &&& connections::services_wf(after.services)
            &&& is_finished(w, pending, now, after, outcome)
        }),
{
    let (after, outcome) = w.finish_edge(pending, server_ack, client_ack, now);
    let edge = pending.edge;
    let s = spot(edge);
    let reg = model::registered(w.services, s.name)->0;
    if pending.server_addr is Some && pending.client_addr is Some && server_ack && client_ack {
        assert forall|ip: IpAddr, docker: Option<Seq<char>>|
            s.client.proxy is Some && #[trigger] connections::conn(
                w.services,
                s.name,
                ip,
                docker,
                s.client,
            ) is Some implies ip == s.ip && docker == s.docker by {
            let q = Spot { ip, docker, ..s };
            assert(at(w.services, q) is Some);
        }
        setup_laws::law_finish_edge(w, pending, now);
        lemma_set_at(
            w.services,
            after.services,
            s,
            Some(
                pending.info(pending.server_addr->0, pending.client_addr->0, now).with_chain(now),
            ),
        );
    } else {
        connections::lemma_wf_of(w.services, s.name);
        connections::lemma_without_client_at(reg, s.ip, s.docker, s.client);
        let next = reg.without_client_at(s.ip, s.docker, s.client);
        if reg.has_replica(s.ip, s.docker) {
            assert(reg.is_replica(s.ip, s.docker, reg.replica_index(s.ip, s.docker)));
        }
        connections::lemma_put_wf(w.services, s.name, ServiceView::Registered(next));
        assert forall|k: int| 0 <= k < reg.replicas.len() implies (#[trigger] next.replicas[k])
            == reg.replicas[k].with_clients(next.replicas[k].clients) by {}
        laws::lemma_ports_kept(reg, next);
        laws::lemma_put_shape(w, s.name, next);
        assert(after.services == w.with_service(s.name, ServiceView::Registered(next)).services);
        assert forall|q: Spot| #[trigger]
            at(after.services, q) == (if q == s {
                None
            } else {
                at(w.services, q)
            }) by {
            laws::lemma_put_registered(
                w.services,
                s.name,
                ServiceView::Registered(next),
                q.name,
            );
            if q.name == s.name && q.ip == s.ip && q.docker == s.docker && q.client == s.client {
                assert(q =~= s);
            }
        }
    }
}

/// Whether a spot is that of an edge.
pub open spec fn on_chain(edges: Seq<RegisteredEdgeView>, q: Spot) -> bool {
    exists|i: int| 0 <= i < edges.len() && spot(#[trigger] edges[i]) == q
}

/// Whether an edge that was opened took an identifier into use.
pub open spec fn takes(progress: ProgressView, id: u32) -> bool {
    match progress {
        ProgressView::Pending(p) => p.net_id == id,
        ProgressView::Finished(_) => false,
    }
}

/// How far an edge came fits to whether it was connected before.
pub open spec fn fits(
    before: Option<ClientInfoView>,
    edge: RegisteredEdgeView,
    progress: ProgressView,
) -> bool {
    match progress {
        ProgressView::Finished(OutcomeView::Success(_)) => before is Some && progress
            == ProgressView::Finished(edge.success(None)),
        ProgressView::Finished(OutcomeView::Failed) => before is None,
        ProgressView::Pending(p) => before is None && p.edge == edge,
    }
}

/// The connection of an edge after it was opened.
pub open spec fn opened_at(
    before: Option<ClientInfoView>,
    edge: RegisteredEdgeView,
    progress: ProgressView,
    now: nat,
) -> Option<ClientInfoView> {
    match progress {
        ProgressView::Finished(OutcomeView::Success(_)) => Some(before->0.with_chain(now)),
        ProgressView::Finished(OutcomeView::Failed) => before,
        ProgressView::Pending(_) => Some(clients::placeholder_info(edge.client.0, now)),
    }
}

/// Some edge that was opened took an identifier into use.
pub open spec fn taken(progress: Seq<ProgressView>, id: u32) -> bool {
    exists|i: int| 0 <= i < progress.len() && takes(#[trigger] progress[i], id)
}

/// What opening the edges of a chain changed.
pub open spec fn all_opened(
    w: World,
    edges: Seq<RegisteredEdgeView>,
    now: nat,
    v: World,
    progress: Seq<ProgressView>,
) -> bool {
    &&& progress.len() == edges.len()
    &&& connections::services_wf(v.services)
    &&& laws::same_shape(w.services, v.services)
    &&& forall|i: int|
        0 <= i < edges.len() ==> fits(
            at(w.services, spot(edges[i])),
            edges[i],
            #[trigger] progress[i],
        )
    &&& forall|i: int|
        0 <= i < edges.len() ==> at(v.services, spot(#[trigger] edges[i])) == opened_at(
            at(w.services, spot(edges[i])),
            edges[i],
            progress[i],
            now,
        )
    &&& forall|q: Spot|
        !on_chain(edges, q) ==> #[trigger] at(v.services, q) == at(w.services, q)
    &&& v.orch.net_ids.no_duplicates()
    &&& forall|id: u32| #[trigger]
        v.orch.net_ids.contains(id) == (w.orch.net_ids.contains(id) || taken(progress, id))
    &&& forall|i: int, id: u32|
        0 <= i < edges.len() && #[trigger] takes(progress[i], id) ==> !w.orch.net_ids.contains(id)
    &&& forall|i: int, j: int, id: u32|
        0 <= i < j < edges.len() && #[trigger] takes(progress[i], id) ==> !#[trigger] takes(
            progress[j],
            id,
        )
}

/// A client of an edge that was connected to no other replica before others of its chain were counted is
/// connected to no other one after.
pub(crate) proof fn lemma_still_only(
    w: World,
    edges: Seq<RegisteredEdgeView>,
    v: World,
    k: int,
)
    requires
        0 <= k < edges.len(),
        is_linked(w.services, edges),
        edges[k].client.1.proxy is Some || is_single(w.services, edges),
        forall|q: Spot|
            !on_chain(edges, q) ==> #[trigger] at(v.services, q) == at(w.services, q),
    ensures
        only_at(v.services, spot(edges[k])),
{
    let s = spot(edges[k]);
    assert(is_ready(w.services, edges[k]));
    assert(only_at(w.services, s));
    assert forall|q: Spot|
        q.name == s.name && q.client == s.client && (#[trigger] at(v.services, q)) is Some implies q
        == s by {
        if on_chain(edges, q) {
            let i = choose|i: int| 0 <= i < edges.len() && spot(#[trigger] edges[i]) == q;
            assert(pair(edges[i]) == pair(edges[k]));
            if i < k {
                assert(is_apart(edges[i], edges[k]));
            } else if k < i {
                assert(is_apart(edges[k], edges[i]));
            }
        } else {
            assert(at(w.services, q) is Some);
        }
    }
}

/// The same services run in two states of the same shape.
pub(crate) proof fn lemma_runs(a: ServicesView, b: ServicesView, name: Seq<char>)
    requires
        connections::services_wf(a),
        connections::services_wf(b),
        laws::same_shape(a, b),
    ensures
        model::registered(a, name) is Some == model::registered(b, name) is Some,
{
    connections::lemma_wf_of(a, name);
    connections::lemma_wf_of(b, name);
    if let Some(reg) = model::registered(a, name) {
        let r = reg.replicas[0];
        connections::lemma_index(reg, 0);
        assert(laws::port_at(b, name, r.ip, r.docker_container) == laws::port_at(
            a,
            name,
            r.ip,
            r.docker_container,
        ));
    }
    if let Some(reg) = model::registered(b, name) {
        let r = reg.replicas[0];
        connections::lemma_index(reg, 0);
        assert(laws::port_at(b, name, r.ip, r.docker_container) == laws::port_at(
            a,
            name,
            r.ip,
            r.docker_container,
        ));
    }
}

/// What opening the edges of a chain changes.
pub(crate) proof fn lemma_all_opened(
    w: World,
    edges: Seq<RegisteredEdgeView>,
    msgs: Seq<(Seq<char>, Seq<char>)>,
    now: nat,
)
    requires
        connections::services_wf(w.services),
        w.orch.net_ids.no_duplicates(),
        is_linked(w.services, edges),
    ensures
        ({
            let (v, progress) = chain_setup::open_all(w, edges, msgs, now);
            all_opened(w, edges, now, v, progress)
        }),
    decreases edges.len(),
{
    let (x, all) = chain_setup::open_all(w, edges, msgs, now);
    if edges.len() == 0 {
        assert forall|id: u32| #[trigger]
            x.orch.net_ids.contains(id) == (w.orch.net_ids.contains(id) || taken(all, id)) by {}
    } else {
        let front = edges.drop_last();
        let last = edges.last();
        let n = front.len() as int;
        assert(edges[n] == last);
        assert forall|i: int| 0 <= i < front.len() implies is_ready(
            w.services,
            #[trigger] front[i],
        ) by {
            assert(front[i] == edges[i]);
        }
        assert(is_linked(w.services, front));
        lemma_all_opened(w, front, msgs, now);
        let (v, progress) = chain_setup::open_all(w, front, msgs, now);
        let m = msgs[edges.len() - 1];
        let s = spot(last);
        assert(is_ready(w.services, last));
        assert forall|q: Spot|
            q == s || (s.client.proxy is Some && q.name == s.name && q.client
                == s.client) implies #[trigger] at(v.services, q) == at(w.services, q) by {
            if on_chain(front, q) {
                let i = choose|i: int| 0 <= i < front.len() && spot(#[trigger] front[i]) == q;
                assert(front[i] == edges[i]);
                assert(is_apart(edges[i], edges[n]));
            }
        }
        assert(at(v.services, s) == at(w.services, s));
        assert(laws::port_at(v.services, s.name, s.ip, s.docker) == laws::port_at(
            w.services,
            s.name,
            s.ip,
            s.docker,
        ));
        if s.client.proxy is Some {
            assert forall|q: Spot|
                q.name == s.name && q.client == s.client && (#[trigger] at(
                    v.services,
                    q,
                )) is Some implies q == s by {
                assert(at(w.services, q) is Some);
            }
        }
        lemma_runs(w.services, v.services, s.name);
        lemma_opened(v, last, m.0, m.1, now);
        let p = all[n];
        assert(all == progress.push(p));
        lemma_open_more(w, edges, now, v, progress, x, p);
    }
}

/// One more edge that is opened.
pub(crate) proof fn lemma_open_more(
    w: World,
    edges: Seq<RegisteredEdgeView>,
    now: nat,
    v: World,
    progress: Seq<ProgressView>,
    x: World,
    p: ProgressView,
)
    requires
        edges.len() > 0,
        is_linked(w.services, edges),
        all_opened(w, edges.drop_last(), now, v, progress),
        connections::services_wf(x.services),
        at(v.services, spot(edges.last())) == at(w.services, spot(edges.last())),
        is_opened(v, edges.last(), now, x, p),
    ensures
        all_opened(w, edges, now, x, progress.push(p)),
{
    let front = edges.drop_last();
    let last = edges.last();
    let n = front.len() as int;
    let s = spot(last);
    let all = progress.push(p);
    assert(edges[n] == last);
    assert forall|q: Spot| q != s implies #[trigger] at(x.services, q) == at(v.services, q) by {}
    assert forall|i: int| 0 <= i < n implies spot(#[trigger] edges[i]) != s by {
        assert(is_apart(edges[i], edges[n]));
    }
    assert forall|i: int| 0 <= i < edges.len() implies fits(
        at(w.services, spot(edges[i])),
        edges[i],
        #[trigger] all[i],
    ) by {
        if i < n {
            assert(all[i] == progress[i]);
            assert(front[i] == edges[i]);
        }
    }
    assert forall|i: int| 0 <= i < edges.len() implies at(
        x.services,
        spot(#[trigger] edges[i]),
    ) == opened_at(at(w.services, spot(edges[i])), edges[i], all[i], now) by {
        if i < n {
            assert(front[i] == edges[i]);
            assert(at(x.services, spot(front[i])) == at(v.services, spot(front[i])));
        }
    }
    assert forall|q: Spot| !on_chain(edges, q) implies #[trigger] at(x.services, q) == at(
        w.services,
        q,
    ) by {
        assert(q != s) by {
            if q == s {
                assert(spot(edges[n]) == q);
            }
        }
        if on_chain(front, q) {
            let i = choose|i: int| 0 <= i < front.len() && spot(#[trigger] front[i]) == q;
            assert(spot(edges[i]) == q);
        }
        assert(at(x.services, q) == at(v.services, q));
    }
    assert forall|id: u32| #[trigger]
        x.orch.net_ids.contains(id) == (w.orch.net_ids.contains(id) || taken(all, id)) by {
        lemma_push_contains(v.orch.net_ids, id);
        assert(v.orch.net_ids.contains(id) == (w.orch.net_ids.contains(id) || taken(
            progress,
            id,
        )));
        if taken(progress, id) {
            let i = choose|i: int| 0 <= i < progress.len() && takes(#[trigger] progress[i], id);
            assert(takes(all[i], id));
        }
        if takes(p, id) {
            assert(takes(all[n], id));
        }
        if taken(all, id) {
            let i = choose|i: int| 0 <= i < all.len() && takes(#[trigger] all[i], id);
            if i < n {
                assert(takes(progress[i], id));
            }
        }
    }
    assert forall|i: int, id: u32|
        0 <= i < edges.len() && #[trigger] takes(all[i], id) implies !w.orch.net_ids.contains(
        id,
    ) by {
        if i < n {
            assert(takes(progress[i], id));
        } else {
            assert(!v.orch.net_ids.contains(id));
        }
    }
    assert forall|i: int, j: int, id: u32|
        0 <= i < j < edges.len() && #[trigger] takes(all[i], id) implies !#[trigger] takes(
        all[j],
        id,
    ) by {
        assert(takes(progress[i], id));
        if j < n {
            assert(!takes(progress[j], id));
        } else if takes(p, id) {
            assert(taken(progress, id));
            assert(v.orch.net_ids.contains(id));
        }
    }
}

/// What is in a list that something was appended to.
pub(crate) proof fn lemma_push_contains<A>(s: Seq<A>, x: A)
    ensures
        forall|y: A| #[trigger] s.push(y).contains(x) == (s.contains(x) || x == y),
{
    assert forall|y: A| #[trigger] s.push(y).contains(x) == (s.contains(x) || x == y) by {
        let t = s.push(y);
        if s.contains(x) {
            let k = choose|k: int| 0 <= k < s.len() && s[k] == x;
            assert(t[k] == x);
        }
        if x == y {
            assert(t[s.len() as int] == x);
        }
        if t.contains(x) {
            let k = choose|k: int| 0 <= k < t.len() && t[k] == x;
            if k < s.len() {
                assert(s[k] == x);
            }
        }
    }
}

/// How an edge ended fits to how far it came when it was opened.
pub open spec fn ends(edge: RegisteredEdgeView, progress: ProgressView, outcome: OutcomeView) -> bool {
    match progress {
        ProgressView::Finished(o) => outcome == o,
        ProgressView::Pending(p) => outcome is Failed || {
            &&& p.server_addr is Some && p.client_addr is Some
            &&& outcome == edge.success(
                if edge.client.1.proxy is Some {
                    p.server_addr
                } else {
                    None
                },
            )
        },
    }
}

/// The connection of an edge after it was finished.
pub open spec fn finished_at(
    before: Option<ClientInfoView>,
    progress: ProgressView,
    outcome: OutcomeView,
    opened: nat,
    finished: nat,
) -> Option<ClientInfoView> {
    match progress {
        ProgressView::Finished(OutcomeView::Success(_)) => Some(before->0.with_chain(opened)),
        ProgressView::Finished(OutcomeView::Failed) => before,
        ProgressView::Pending(p) => match outcome {
            OutcomeView::Success(_) => Some(
                p.info(p.server_addr->0, p.client_addr->0, finished).with_chain(finished),
            ),
            OutcomeView::Failed => None,
        },
    }
}

/// Some edge took an identifier into use and did not fail.
pub open spec fn kept(progress: Seq<ProgressView>, outcomes: Seq<OutcomeView>, id: u32) -> bool {
    exists|i: int|
        0 <= i < progress.len() && takes(#[trigger] progress[i], id) && !(i < outcomes.len()
            && outcomes[i] is Failed)
}

/// What finishing the first edges of a chain changed, of which all were open.
pub open spec fn all_finished(
    w: World,
    edges: Seq<RegisteredEdgeView>,
    progress: Seq<ProgressView>,
    opened: nat,
    finished: nat,
    u: World,
    outcomes: Seq<OutcomeView>,
) -> bool {
    &&& outcomes.len() <= edges.len()
    &&& connections::services_wf(u.services)
    &&& laws::same_shape(w.services, u.services)
    &&& forall|i: int|
        0 <= i < outcomes.len() ==> ends(edges[i], progress[i], #[trigger] outcomes[i])
    &&& forall|i: int|
        0 <= i < edges.len() ==> at(u.services, spot(#[trigger] edges[i])) == (if i
            < outcomes.len() {
            finished_at(
                at(w.services, spot(edges[i])),
                progress[i],
                outcomes[i],
                opened,
                finished,
            )
        } else {
            opened_at(at(w.services, spot(edges[i])), edges[i], progress[i], opened)
        })
    &&& forall|q: Spot|
        !on_chain(edges, q) ==> #[trigger] at(u.services, q) == at(w.services, q)
    &&& u.orch.net_ids.no_duplicates()
    &&& forall|id: u32| #[trigger]
        u.orch.net_ids.contains(id) == (w.orch.net_ids.contains(id) || kept(
            progress,
            outcomes,
            id,
        ))
}

/// What finishing the first edges of a chain changes.
pub(crate) proof fn lemma_all_finished(
    w: World,
    edges: Seq<RegisteredEdgeView>,
    v: World,
    progress: Seq<ProgressView>,
    acks: Seq<(bool, bool)>,
    opened: nat,
    finished: nat,
    m: int,
)
    requires
        is_linked(w.services, edges),
        all_opened(w, edges, opened, v, progress),
        0 <= m <= edges.len(),
    ensures
        ({
            let (u, outcomes) = chain_setup::finish_all(v, progress.take(m), acks, finished);
            &&& outcomes.len() == m
            &&& all_finished(w, edges, progress, opened, finished, u, outcomes)
        }),
    decreases m,
{
    let (x, all) = chain_setup::finish_all(v, progress.take(m), acks, finished);
    if m == 0 {
        assert forall|id: u32| #[trigger]
            x.orch.net_ids.contains(id) == (w.orch.net_ids.contains(id) || kept(
                progress,
                all,
                id,
            )) by {
            assert(taken(progress, id) == kept(progress, all, id)) by {
                if taken(progress, id) {
                    let i = choose|i: int|
                        0 <= i < progress.len() && takes(#[trigger] progress[i], id);
                    assert(takes(progress[i], id));
                }
            }
        }
    } else {
        let n = m - 1;
        lemma_all_finished(w, edges, v, progress, acks, opened, finished, n);
        let (u, outcomes) = chain_setup::finish_all(v, progress.take(n), acks, finished);
        assert(progress.take(m).drop_last() =~= progress.take(n));
        assert(progress.take(m).last() == progress[n]);
        let o = all[n];
        assert(all == outcomes.push(o));
        assert(fits(at(w.services, spot(edges[n])), edges[n], progress[n]));
        assert(is_ready(w.services, edges[n]));
        match progress[n] {
            ProgressView::Finished(outcome) => {
                assert(x == u && o == outcome);
                lemma_finish_same(w, edges, v, progress, opened, finished, u, outcomes);
            },
            ProgressView::Pending(p) => {
                let s = spot(edges[n]);
                if s.client.proxy is Some {
                    lemma_still_only(w, edges, u, n);
                }
                assert(at(u.services, s) is Some);
                lemma_finished(u, p, acks[n].0, acks[n].1, finished);
                lemma_finish_more(w, edges, v, progress, opened, finished, u, outcomes, x, o);
            },
        }
    }
}

/// One more edge that had ended when it was opened.
pub(crate) proof fn lemma_finish_same(
    w: World,
    edges: Seq<RegisteredEdgeView>,
    v: World,
    progress: Seq<ProgressView>,
    opened: nat,
    finished: nat,
    u: World,
    outcomes: Seq<OutcomeView>,
)
    requires
        all_opened(w, edges, opened, v, progress),
        all_finished(w, edges, progress, opened, finished, u, outcomes),
        outcomes.len() < edges.len(),
        progress[outcomes.len() as int] is Finished,
    ensures
        all_finished(
            w,
            edges,
            progress,
            opened,
            finished,
            u,
            outcomes.push(progress[outcomes.len() as int]->Finished_0),
        ),
{
    let n = outcomes.len() as int;
    let all = outcomes.push(progress[n]->Finished_0);
    assert forall|i: int| 0 <= i < all.len() implies ends(
        edges[i],
        progress[i],
        #[trigger] all[i],
    ) by {
        if i < n {
            assert(all[i] == outcomes[i]);
        }
    }
    assert forall|id: u32| #[trigger]
        u.orch.net_ids.contains(id) == (w.orch.net_ids.contains(id) || kept(progress, all, id)) by {
        assert(kept(progress, all, id) == kept(progress, outcomes, id)) by {
            if kept(progress, all, id) {
                let i = choose|i: int|
                    0 <= i < progress.len() && takes(#[trigger] progress[i], id) && !(i
                        < all.len() && all[i] is Failed);
                assert(takes(progress[i], id) && !(i < outcomes.len() && outcomes[i] is Failed));
            }
            if kept(progress, outcomes, id) {
                let i = choose|i: int|
                    0 <= i < progress.len() && takes(#[trigger] progress[i], id) && !(i
                        < outcomes.len() && outcomes[i] is Failed);
                assert(takes(progress[i], id) && !(i < all.len() && all[i] is Failed));
            }
        }
    }
}

/// One more edge that is finished.
pub(crate) proof fn lemma_finish_more(
    w: World,
    edges: Seq<RegisteredEdgeView>,
    v: World,
    progress: Seq<ProgressView>,
    opened: nat,
    finished: nat,
    u: World,
    outcomes: Seq<OutcomeView>,
    x: World,
    o: OutcomeView,
)
    requires
        is_linked(w.services, edges),
        all_opened(w, edges, opened, v, progress),
        all_finished(w, edges, progress, opened, finished, u, outcomes),
        outcomes.len() < edges.len(),
        progress[outcomes.len() as int] is Pending,
        connections::services_wf(x.services),
        is_finished(u, progress[outcomes.len() as int]->Pending_0, finished, x, o),
    ensures
        all_finished(w, edges, progress, opened, finished, x, outcomes.push(o)),
{
    let n = outcomes.len() as int;
    let all = outcomes.push(o);
    let p = progress[n]->Pending_0;
    let s = spot(edges[n]);
    assert(fits(at(w.services, s), edges[n], progress[n]));
    assert(p.edge == edges[n]);
    assert forall|q: Spot| q != s implies #[trigger] at(x.services, q) == at(u.services, q) by {}
    assert forall|i: int| 0 <= i < edges.len() && i != n implies spot(#[trigger] edges[i])
        != s by {
        if i < n {
            assert(is_apart(edges[i], edges[n]));
        } else {
            assert(is_apart(edges[n], edges[i]));
        }
    }
    assert forall|i: int| 0 <= i < all.len() implies ends(
        edges[i],
        progress[i],
        #[trigger] all[i],
    ) by {
        if i < n {
            assert(all[i] == outcomes[i]);
        }
    }
    assert forall|i: int| 0 <= i < edges.len() implies at(
        x.services,
        spot(#[trigger] edges[i]),
    ) == (if i < all.len() {
        finished_at(at(w.services, spot(edges[i])), progress[i], all[i], opened, finished)
    } else {
        opened_at(at(w.services, spot(edges[i])), edges[i], progress[i], opened)
    }) by {
        if i != n {
            assert(at(x.services, spot(edges[i])) == at(u.services, spot(edges[i])));
        }
    }
    assert forall|q: Spot| !on_chain(edges, q) implies #[trigger] at(x.services, q) == at(
        w.services,
        q,
    ) by {
        if q == s {
            assert(spot(edges[n]) == q);
        }
        assert(at(x.services, q) == at(u.services, q));
    }
    laws::lemma_without_contains(u.orch.net_ids, p.net_id);
    assert forall|id: u32| #[trigger]
        x.orch.net_ids.contains(id) == (w.orch.net_ids.contains(id) || kept(progress, all, id)) by {
        assert(u.orch.net_ids.contains(id) == (w.orch.net_ids.contains(id) || kept(
            progress,
            outcomes,
            id,
        )));
        if kept(progress, all, id) {
            let i = choose|i: int|
                0 <= i < progress.len() && takes(#[trigger] progress[i], id) && !(i < all.len()
                    && all[i] is Failed);
            assert(takes(progress[i], id) && !(i < outcomes.len() && outcomes[i] is Failed));
            if id == p.net_id && i != n {
                assert(takes(progress[n], id));
                if i < n {
                    assert(!takes(progress[n], id));
                } else {
                    assert(!takes(progress[i], id));
                }
            }
        }
        if kept(progress, outcomes, id) && !(id == p.net_id && o is Failed) {
            let i = choose|i: int|
                0 <= i < progress.len() && takes(#[trigger] progress[i], id) && !(i
                    < outcomes.len() && outcomes[i] is Failed);
            assert(takes(progress[i], id) && !(i < all.len() && all[i] is Failed));
        }
        if id == p.net_id {
            assert(takes(progress[n], id));
            assert(!w.orch.net_ids.contains(id));
        }
    }
}

/// A connection that one more chain runs over; one that is new has one chain.
pub open spec fn counted(before: Option<ClientInfoView>, after: Option<ClientInfoView>) -> bool {
    match (before, after) {
        (Some(b), Some(a)) => a == (ClientInfoView {
            active_chains: b.active_chains + 1,
            latest: a.latest,
            ..b
        }),
        (None, Some(a)) => a.active_chains == 1,
        (_, None) => false,
    }
}

/// Edge `i` made a new connection, on network `id`.
pub open spec fn is_new(
    w: World,
    edges: Seq<RegisteredEdgeView>,
    oks: Seq<bool>,
    u: World,
    i: int,
    id: u32,
) -> bool {
    &&& 0 <= i < edges.len()
    &&& oks[i]
    &&& at(w.services, spot(edges[i])) is None
    &&& at(u.services, spot(edges[i])) is Some
    &&& at(u.services, spot(edges[i]))->0.net_id == id
}

/// `u` is `w` after the edges of a chain were set up that did not fail: one more chain runs over each
/// of them, the networks of new connections were not in use and differ, and nothing else changed.
pub open spec fn is_counted(
    w: World,
    edges: Seq<RegisteredEdgeView>,
    oks: Seq<bool>,
    u: World,
) -> bool {
    &&& oks.len() == edges.len()
    &&& connections::services_wf(u.services)
    &&& laws::same_shape(w.services, u.services)
    &&& forall|i: int|
        0 <= i < edges.len() && oks[i] ==> counted(
            at(w.services, spot(edges[i])),
            #[trigger] at(u.services, spot(edges[i])),
        )
    &&& forall|i: int|
        0 <= i < edges.len() && !oks[i] ==> #[trigger] at(u.services, spot(edges[i])) == at(
            w.services,
            spot(edges[i]),
        )
    &&& forall|q: Spot|
        !on_chain(edges, q) ==> #[trigger] at(u.services, q) == at(w.services, q)
    &&& u.orch.net_ids.no_duplicates()
    &&& forall|id: u32| #[trigger]
        u.orch.net_ids.contains(id) == (w.orch.net_ids.contains(id) || exists|i: int| #[trigger]
            is_new(w, edges, oks, u, i, id))
    &&& forall|i: int, id: u32| #[trigger]
        is_new(w, edges, oks, u, i, id) ==> !w.orch.net_ids.contains(id)
    &&& forall|i: int, j: int, id: u32|
        i < j && #[trigger] is_new(w, edges, oks, u, i, id) ==> !#[trigger] is_new(
            w,
            edges,
            oks,
            u,
            j,
            id,
        )
}

/// The connection of an edge that was set up.
pub open spec fn success_spot(outcome: OutcomeView) -> Spot {
    let edge = outcome->Success_0;
    Spot {
        name: edge.server_name,
        ip: edge.replica.0,
        docker: edge.replica.1,
        client: edge.client,
    }
}

/// Which outcomes are not failures.
pub open spec fn successes(outcomes: Seq<OutcomeView>) -> Seq<bool> {
    Seq::new(outcomes.len(), |i: int| outcomes[i] is Success)
}

/// What the set-up of a chain adds before it is finished: one more chain over each edge that did not
/// fail, and no more.
pub proof fn law_edges_counted(
    w: World,
    edges: Seq<RegisteredEdgeView>,
    msgs: Seq<(Seq<char>, Seq<char>)>,
    acks: Seq<(bool, bool)>,
    opened: nat,
    finished: nat,
)
    requires
        connections::services_wf(w.services),
        w.orch.net_ids.no_duplicates(),
        is_linked(w.services, edges),
    ensures
        ({
            let (v, progress) = chain_setup::open_all(w, edges, msgs, opened);
            let (u, outcomes) = chain_setup::finish_all(v, progress, acks, finished);
            &&& is_counted(w, edges, successes(outcomes), u)
            &&& forall|i: int|
                0 <= i < edges.len() && (#[trigger] outcomes[i]) is Success ==> success_spot(
                    outcomes[i],
                ) == spot(edges[i])
        }),
{
    let (v, progress) = chain_setup::open_all(w, edges, msgs, opened);
    let (u, outcomes) = chain_setup::finish_all(v, progress, acks, finished);
    lemma_all_opened(w, edges, msgs, opened);
    lemma_all_finished(w, edges, v, progress, acks, opened, finished, edges.len() as int);
    assert(progress.take(edges.len() as int) =~= progress);
    let oks = successes(outcomes);
    assert forall|i: int|
        0 <= i < edges.len() && (#[trigger] outcomes[i]) is Success implies success_spot(
        outcomes[i],
    ) == spot(edges[i]) by {
        assert(fits(at(w.services, spot(edges[i])), edges[i], progress[i]));
        assert(ends(edges[i], progress[i], outcomes[i]));
    }
    assert forall|i: int| 0 <= i < edges.len() implies (if oks[i] {
        counted(at(w.services, spot(edges[i])), #[trigger] at(u.services, spot(edges[i])))
    } else {
        at(u.services, spot(edges[i])) == at(w.services, spot(edges[i]))
    }) by {
        assert(fits(at(w.services, spot(edges[i])), edges[i], progress[i]));
        assert(ends(edges[i], progress[i], outcomes[i]));
    }
    assert forall|i: int, id: u32| #[trigger]
        is_new(w, edges, oks, u, i, id) == (0 <= i < edges.len() && takes(progress[i], id)
            && outcomes[i] is Success) by {
        if 0 <= i < edges.len() {
            assert(fits(at(w.services, spot(edges[i])), edges[i], progress[i]));
            assert(ends(edges[i], progress[i], outcomes[i]));
            assert(at(u.services, spot(edges[i])) == finished_at(
                at(w.services, spot(edges[i])),
                progress[i],
                outcomes[i],
                opened,
                finished,
            ));
        }
    }
    assert forall|id: u32| #[trigger]
        u.orch.net_ids.contains(id) == (w.orch.net_ids.contains(id) || exists|i: int| #[trigger]
            is_new(w, edges, oks, u, i, id)) by {
        if kept(progress, outcomes, id) {
            let i = choose|i: int|
                0 <= i < progress.len() && takes(#[trigger] progress[i], id) && !(i
                    < outcomes.len() && outcomes[i] is Failed);
            assert(is_new(w, edges, oks, u, i, id));
        }
        if exists|i: int| #[trigger] is_new(w, edges, oks, u, i, id) {
            let i = choose|i: int| #[trigger] is_new(w, edges, oks, u, i, id);
            assert(takes(progress[i], id));
        }
    }
}

/// Two connections are the same but for their last use.
pub open spec fn is_same(before: Option<ClientInfoView>, after: Option<ClientInfoView>) -> bool {
    match (before, after) {
        (Some(b), Some(a)) => a == (ClientInfoView { latest: a.latest, ..b }),
        (None, None) => true,
        _ => false,
    }
}

/// `x` has the services, replicas, connections and networks that `w` has; only the last use of
/// connections may differ.
pub open spec fn is_restored(w: World, x: World) -> bool {
    &&& connections::services_wf(x.services)
    &&& laws::same_shape(w.services, x.services)
    &&& forall|q: Spot| is_same(at(w.services, q), #[trigger] at(x.services, q))
    &&& forall|id: u32| #[trigger]
        x.orch.net_ids.contains(id) == w.orch.net_ids.contains(id)
    &&& x.orch.net_ids.no_duplicates()
}

/// A client and a service are those of an edge that was set up.
pub open spec fn is_own(edges: Seq<RegisteredEdgeView>, oks: Seq<bool>, p: ChainEdge) -> bool {
    exists|i: int| 0 <= i < edges.len() && oks[i] && pair(#[trigger] edges[i]) == p
}

/// A client is not connected to a service.
pub open spec fn is_absent(services: ServicesView, p: ChainEdge) -> bool {
    forall|q: Spot| q.client == p.0 && q.name == p.1 ==> (#[trigger] at(services, q)) is None
}

/// `x` is `u` after one chain fewer runs over each of those edges of a chain that are `done`, of which the
/// set-up made `u` from `w`.
pub open spec fn is_undone(
    w: World,
    edges: Seq<RegisteredEdgeView>,
    oks: Seq<bool>,
    u: World,
    done: spec_fn(int) -> bool,
    x: World,
) -> bool {
    &&& connections::services_wf(x.services)
    &&& laws::same_shape(w.services, x.services)
    &&& forall|i: int|
        0 <= i < edges.len() && oks[i] && done(i) ==> is_same(
            at(w.services, spot(edges[i])),
            #[trigger] at(x.services, spot(edges[i])),
        )
    &&& forall|i: int|
        0 <= i < edges.len() && !(oks[i] && done(i)) ==> (#[trigger] at(
            x.services,
            spot(edges[i]),
        )) == at(u.services, spot(edges[i]))
    &&& forall|q: Spot|
        !on_chain(edges, q) ==> #[trigger] at(x.services, q) == at(w.services, q)
    &&& x.orch.net_ids.no_duplicates()
    &&& forall|id: u32| #[trigger]
        x.orch.net_ids.contains(id) == (w.orch.net_ids.contains(id) || is_left(
            w,
            edges,
            oks,
            u,
            done,
            id,
        ))
}

/// An identifier is that of a new connection which is not `done`.
pub open spec fn is_left(
    w: World,
    edges: Seq<RegisteredEdgeView>,
    oks: Seq<bool>,
    u: World,
    done: spec_fn(int) -> bool,
    id: u32,
) -> bool {
    exists|i: int| #[trigger] is_new(w, edges, oks, u, i, id) && !done(i)
}

/// Those edges whose client and service are among some.
pub open spec fn among(edges: Seq<RegisteredEdgeView>, pairs: Seq<ChainEdge>) -> spec_fn(int) -> bool {
    |i: int| pairs.contains(pair(edges[i]))
}

/// Before any edge is undone.
proof fn lemma_none_undone(
    w: World,
    edges: Seq<RegisteredEdgeView>,
    oks: Seq<bool>,
    u: World,
    done: spec_fn(int) -> bool,
)
    requires
        is_counted(w, edges, oks, u),
        forall|i: int| 0 <= i < edges.len() ==> !(#[trigger] done(i)),
    ensures
        is_undone(w, edges, oks, u, done, u),
{
    assert forall|id: u32| #[trigger]
        u.orch.net_ids.contains(id) == (w.orch.net_ids.contains(id) || is_left(
            w,
            edges,
            oks,
            u,
            done,
            id,
        )) by {
        if exists|i: int| #[trigger] is_new(w, edges, oks, u, i, id) {
            let i = choose|i: int| #[trigger] is_new(w, edges, oks, u, i, id);
            assert(is_new(w, edges, oks, u, i, id) && !done(i));
        }
    }
}

/// Which edges are undone matters only for those that were set up.
proof fn lemma_same_undone(
    w: World,
    edges: Seq<RegisteredEdgeView>,
    oks: Seq<bool>,
    u: World,
    done: spec_fn(int) -> bool,
    other: spec_fn(int) -> bool,
    x: World,
)
    requires
        is_undone(w, edges, oks, u, done, x),
        forall|i: int| 0 <= i < edges.len() && oks[i] ==> #[trigger] other(i) == done(i),
    ensures
        is_undone(w, edges, oks, u, other, x),
{
    assert forall|i: int|
        0 <= i < edges.len() && oks[i] && other(i) implies is_same(
        at(w.services, spot(edges[i])),
        #[trigger] at(x.services, spot(edges[i])),
    ) by {
        assert(done(i));
    }
    assert forall|i: int| 0 <= i < edges.len() && !(oks[i] && other(i)) implies (#[trigger] at(
        x.services,
        spot(edges[i]),
    )) == at(u.services, spot(edges[i])) by {
        assert(!(oks[i] && done(i))) by {
            if oks[i] {
                assert(other(i) == done(i));
            }
        }
    }
    assert forall|id: u32| #[trigger]
        x.orch.net_ids.contains(id) == (w.orch.net_ids.contains(id) || is_left(
            w,
            edges,
            oks,
            u,
            other,
            id,
        )) by {
        if is_left(w, edges, oks, u, done, id) {
            let i = choose|i: int| #[trigger] is_new(w, edges, oks, u, i, id) && !done(i);
            assert(other(i) == done(i));
        }
        if is_left(w, edges, oks, u, other, id) {
            let i = choose|i: int| #[trigger] is_new(w, edges, oks, u, i, id) && !other(i);
            assert(other(i) == done(i));
        }
    }
}

/// One chain fewer over the connection of an edge.
proof fn lemma_undo_edge(
    w: World,
    edges: Seq<RegisteredEdgeView>,
    oks: Seq<bool>,
    u: World,
    done: spec_fn(int) -> bool,
    y: World,
    n: int,
    x: World,
)
    requires
        is_linked(w.services, edges),
        is_counted(w, edges, oks, u),
        0 <= n < edges.len(),
        oks[n],
        !done(n),
        is_undone(w, edges, oks, u, done, y),
        is_fewer(y, spot(edges[n]), x),
    ensures
        is_undone(w, edges, oks, u, |i: int| done(i) || i == n, x),
{
    let s = spot(edges[n]);
    let more = |i: int| done(i) || i == n;
    assert(is_ready(w.services, edges[n]));
    assert(at(y.services, s) == at(u.services, s));
    assert(counted(at(w.services, s), at(u.services, s)));
    assert forall|i: int| 0 <= i < edges.len() && i != n implies spot(#[trigger] edges[i]) != s by {
        if i < n {
            assert(is_apart(edges[i], edges[n]));
        } else {
            assert(is_apart(edges[n], edges[i]));
        }
    }
    assert forall|q: Spot| q != s implies #[trigger] at(x.services, q) == at(y.services, q) by {}
    assert forall|i: int|
        0 <= i < edges.len() && oks[i] && more(i) implies is_same(
        at(w.services, spot(edges[i])),
        #[trigger] at(x.services, spot(edges[i])),
    ) by {
        if i != n {
            assert(at(x.services, spot(edges[i])) == at(y.services, spot(edges[i])));
        }
    }
    assert forall|i: int| 0 <= i < edges.len() && !(oks[i] && more(i)) implies (#[trigger] at(
        x.services,
        spot(edges[i]),
    )) == at(u.services, spot(edges[i])) by {
        assert(i != n);
        assert(at(x.services, spot(edges[i])) == at(y.services, spot(edges[i])));
    }
    assert forall|q: Spot| !on_chain(edges, q) implies #[trigger] at(x.services, q) == at(
        w.services,
        q,
    ) by {
        if q == s {
            assert(spot(edges[n]) == q);
        }
        assert(at(x.services, q) == at(y.services, q));
    }
    let ci = at(u.services, s)->0;
    laws::lemma_without_contains(y.orch.net_ids, ci.net_id);
    assert forall|id: u32| #[trigger]
        x.orch.net_ids.contains(id) == (w.orch.net_ids.contains(id) || is_left(
            w,
            edges,
            oks,
            u,
            more,
            id,
        )) by {
        assert(y.orch.net_ids.contains(id) == (w.orch.net_ids.contains(id) || is_left(
            w,
            edges,
            oks,
            u,
            done,
            id,
        )));
        if is_left(w, edges, oks, u, more, id) {
            let i = choose|i: int| #[trigger] is_new(w, edges, oks, u, i, id) && !more(i);
            assert(is_new(w, edges, oks, u, i, id) && !done(i));
            if is_new(w, edges, oks, u, n, id) {
                if i < n {
                    assert(!is_new(w, edges, oks, u, n, id));
                } else {
                    assert(!is_new(w, edges, oks, u, i, id));
                }
            }
            assert(!is_new(w, edges, oks, u, n, id));
        }
        if is_left(w, edges, oks, u, done, id) {
            let i = choose|i: int| #[trigger] is_new(w, edges, oks, u, i, id) && !done(i);
            if i != n {
                assert(is_new(w, edges, oks, u, i, id) && !more(i));
            }
        }
        if at(w.services, s) is None {
            assert(is_new(w, edges, oks, u, n, ci.net_id));
            assert(!w.orch.net_ids.contains(ci.net_id));
        } else {
            assert(!is_new(w, edges, oks, u, n, id));
        }
    }
}

/// One chain fewer over a connection that is not there.
proof fn lemma_undo_absent(
    w: World,
    edges: Seq<RegisteredEdgeView>,
    oks: Seq<bool>,
    u: World,
    done: spec_fn(int) -> bool,
    y: World,
    p: ChainEdge,
)
    requires
        is_counted(w, edges, oks, u),
        is_absent(u.services, p),
        is_undone(w, edges, oks, u, done, y),
    ensures
        is_undone(w, edges, oks, u, done, y.decrement(p.0, p.1)),
{
    let s = Spot { name: p.1, ip: IpAddr::V6(0), docker: None, client: p.0 };
    let x = y.decrement(p.0, p.1);
    assert forall|q: Spot|
        q.client == p.0 && q.name == p.1 implies (#[trigger] at(y.services, q)) is None by {
        assert(at(u.services, q) is None);
        if on_chain(edges, q) {
            let i = choose|i: int| 0 <= i < edges.len() && spot(#[trigger] edges[i]) == q;
            assert(at(u.services, spot(edges[i])) is None);
            assert(!oks[i]);
            assert(at(y.services, spot(edges[i])) == at(u.services, spot(edges[i])));
        } else {
            assert(at(u.services, q) == at(w.services, q));
        }
    }
    lemma_fewer(y, s);
    assert(at(y.services, s) is None);
    assert forall|q: Spot| #[trigger] at(x.services, q) == at(y.services, q) by {}
    assert(x.orch.net_ids == y.orch.net_ids);
    assert forall|i: int| 0 <= i < edges.len() implies #[trigger] at(x.services, spot(edges[i]))
        == at(y.services, spot(edges[i])) by {}
}

/// What one chain fewer over each of some connections leaves of the edges of a chain, where each is
/// that of an edge or is not there.
pub(crate) proof fn lemma_undone(
    w: World,
    edges: Seq<RegisteredEdgeView>,
    oks: Seq<bool>,
    u: World,
    pairs: Seq<ChainEdge>,
)
    requires
        is_linked(w.services, edges),
        is_single(w.services, edges),
        is_counted(w, edges, oks, u),
        pairs.no_duplicates(),
        forall|k: int|
            0 <= k < pairs.len() ==> is_own(edges, oks, #[trigger] pairs[k]) || is_absent(
                u.services,
                pairs[k],
            ),
    ensures
        is_undone(
            w,
            edges,
            oks,
            u,
            among(edges, pairs),
            seqs::fold(u, pairs, world::decrement_edge()),
        ),
    decreases pairs.len(),
{
    let x = seqs::fold(u, pairs, world::decrement_edge());
    if pairs.len() == 0 {
        lemma_none_undone(w, edges, oks, u, among(edges, pairs));
    } else {
        let front = pairs.drop_last();
        let n = front.len() as int;
        let p = pairs.last();
        assert(pairs[n] == p);
        assert forall|k: int| 0 <= k < front.len() implies is_own(
            edges,
            oks,
            #[trigger] front[k],
        ) || is_absent(u.services, front[k]) by {
            assert(front[k] == pairs[k]);
        }
        lemma_undone(w, edges, oks, u, front);
        let y = seqs::fold(u, front, world::decrement_edge());
        assert(x == y.decrement(p.0, p.1));
        assert(!front.contains(p)) by {
            if front.contains(p) {
                let k = choose|k: int| 0 <= k < front.len() && front[k] == p;
                assert(pairs[k] == pairs[n]);
            }
        }
        assert forall|z: ChainEdge| #[trigger]
            pairs.contains(z) == (front.contains(z) || z == p) by {
            lemma_push_contains(front, z);
            assert(pairs =~= front.push(p));
        }
        let done = among(edges, front);
        if is_own(edges, oks, p) {
            let i = choose|i: int| 0 <= i < edges.len() && oks[i] && pair(#[trigger] edges[i]) == p;
            lemma_still_only(w, edges, y, i);
            lemma_fewer(y, spot(edges[i]));
            lemma_undo_edge(w, edges, oks, u, done, y, i, x);
            let more = |k: int| done(k) || k == i;
            assert forall|k: int| 0 <= k < edges.len() && oks[k] implies #[trigger] among(
                edges,
                pairs,
            )(k) == more(k) by {
                if pair(edges[k]) == p && k != i {
                    if k < i {
                        assert(pair(edges[k]) != pair(edges[i]));
                    } else {
                        assert(pair(edges[i]) != pair(edges[k]));
                    }
                }
            }
            lemma_same_undone(w, edges, oks, u, more, among(edges, pairs), x);
        } else {
            lemma_undo_absent(w, edges, oks, u, done, y, p);
            assert forall|k: int| 0 <= k < edges.len() && oks[k] implies #[trigger] among(
                edges,
                pairs,
            )(k) == done(k) by {
                if pair(edges[k]) == p {
                    assert(is_own(edges, oks, p));
                }
            }
            lemma_same_undone(w, edges, oks, u, done, among(edges, pairs), x);
        }
    }
}

/// What is left of the edges of a chain after one chain fewer runs over the first hops of its way.
pub(crate) proof fn lemma_hops_undone(
    w: World,
    edges: Seq<RegisteredEdgeView>,
    oks: Seq<bool>,
    u: World,
    hops: Seq<ChainHop>,
    m: int,
)
    requires
        is_linked(w.services, edges),
        is_counted(w, edges, oks, u),
        0 <= m <= edges.len(),
        hops.len() == edges.len(),
        forall|i: int| 0 <= i < edges.len() ==> #[trigger] oks[i],
        forall|i: int|
            0 <= i < edges.len() ==> #[trigger] hops[i] == (edges[i].client.1, end_of(spot(edges[i]))),
    ensures
        is_undone(
            w,
            edges,
            oks,
            u,
            |i: int| i < m,
            seqs::fold(u, hops.take(m), world::decrement_hop()),
        ),
    decreases m,
{
    let f = world::decrement_hop();
    if m == 0 {
        assert(hops.take(0) =~= Seq::empty());
        lemma_none_undone(w, edges, oks, u, |i: int| i < m);
    } else {
        let n = m - 1;
        lemma_hops_undone(w, edges, oks, u, hops, n);
        seqs::lemma_fold_step(u, hops, f, n);
        let y = seqs::fold(u, hops.take(n), f);
        let x = seqs::fold(u, hops.take(m), f);
        let done = |i: int| i < n;
        let s = spot(edges[n]);
        assert(hops[n] == (s.client, end_of(s)));
        assert(oks[n]);
        lemma_fewer_at(y, s);
        lemma_undo_edge(w, edges, oks, u, done, y, n, x);
        lemma_same_undone(w, edges, oks, u, |i: int| done(i) || i == n, |i: int| i < m, x);
    }
}

/// What is left of the edges of a chain after those of the first outcomes that were set up were undone.
proof fn lemma_rolled_back(
    w: World,
    edges: Seq<RegisteredEdgeView>,
    outcomes: Seq<OutcomeView>,
    u: World,
    m: int,
)
    requires
        is_linked(w.services, edges),
        is_counted(w, edges, successes(outcomes), u),
        0 <= m <= edges.len(),
        forall|i: int|
            0 <= i < edges.len() && (#[trigger] outcomes[i]) is Success ==> success_spot(
                outcomes[i],
            ) == spot(edges[i]),
    ensures
        is_undone(
            w,
            edges,
            successes(outcomes),
            u,
            |i: int| i < m,
            seqs::fold(u, outcomes.take(m), chain_setup::undo_edge()),
        ),
    decreases m,
{
    let f = chain_setup::undo_edge();
    let oks = successes(outcomes);
    if m == 0 {
        assert(outcomes.take(0) =~= Seq::empty());
        lemma_none_undone(w, edges, oks, u, |i: int| i < m);
    } else {
        let n = m - 1;
        lemma_rolled_back(w, edges, outcomes, u, n);
        seqs::lemma_fold_step(u, outcomes, f, n);
        let y = seqs::fold(u, outcomes.take(n), f);
        let x = seqs::fold(u, outcomes.take(m), f);
        let done = |i: int| i < n;
        assert(x == f(y, outcomes[n]));
        match outcomes[n] {
            OutcomeView::Success(edge) => {
                let s = spot(edges[n]);
                assert(success_spot(outcomes[n]) == s);
                assert(oks[n]);
                if s.client.proxy is Some {
                    lemma_still_only(w, edges, y, n);
                    lemma_fewer(y, s);
                } else {
                    lemma_fewer_at(y, s);
                }
                lemma_undo_edge(w, edges, oks, u, done, y, n, x);
                lemma_same_undone(
                    w,
                    edges,
                    oks,
                    u,
                    |i: int| done(i) || i == n,
                    |i: int| i < m,
                    x,
                );
            },
            OutcomeView::Failed => {
                assert(!oks[n]);
                lemma_same_undone(w, edges, oks, u, done, |i: int| i < m, x);
            },
        }
    }
}

/// A chain of which an edge fails leaves nothing behind: connections, chains over them and networks
/// in use are as before the set-up.
pub proof fn law_failed_chain(
    w: World,
    edges: Seq<RegisteredEdgeView>,
    msgs: Seq<(Seq<char>, Seq<char>)>,
    acks: Seq<(bool, bool)>,
    opened: nat,
    finished: nat,
)
    requires
        connections::services_wf(w.services),
        w.orch.net_ids.no_duplicates(),
        is_linked(w.services, edges),
        w.set_up_chain(edges, msgs, acks, opened, finished).1 is Err,
    ensures
        is_restored(w, w.set_up_chain(edges, msgs, acks, opened, finished).0),
{
    let (v, progress) = chain_setup::open_all(w, edges, msgs, opened);
    let (u, outcomes) = chain_setup::finish_all(v, progress, acks, finished);
    law_edges_counted(w, edges, msgs, acks, opened, finished);
    let n = edges.len() as int;
    lemma_rolled_back(w, edges, outcomes, u, n);
    assert(outcomes.take(n) =~= outcomes);
    let x = w.set_up_chain(edges, msgs, acks, opened, finished).0;
    lemma_all_undone(w, edges, successes(outcomes), u, |i: int| i < n, x);
}

/// Where every edge that was set up is undone, all is as it was.
pub(crate) proof fn lemma_all_undone(
    w: World,
    edges: Seq<RegisteredEdgeView>,
    oks: Seq<bool>,
    u: World,
    done: spec_fn(int) -> bool,
    x: World,
)
    requires
        is_counted(w, edges, oks, u),
        is_undone(w, edges, oks, u, done, x),
        forall|i: int| 0 <= i < edges.len() && oks[i] ==> #[trigger] done(i),
    ensures
        is_restored(w, x),
{
    assert forall|q: Spot| is_same(at(w.services, q), #[trigger] at(x.services, q)) by {
        if on_chain(edges, q) {
            let i = choose|i: int| 0 <= i < edges.len() && spot(#[trigger] edges[i]) == q;
            if oks[i] {
                assert(done(i));
                assert(is_same(at(w.services, spot(edges[i])), at(x.services, spot(edges[i]))));
            } else {
                assert(at(x.services, spot(edges[i])) == at(u.services, spot(edges[i])));
                assert(at(u.services, spot(edges[i])) == at(w.services, spot(edges[i])));
            }
        }
    }
    assert forall|id: u32| #[trigger]
        x.orch.net_ids.contains(id) == w.orch.net_ids.contains(id) by {
        if is_left(w, edges, oks, u, done, id) {
            let i = choose|i: int| #[trigger] is_new(w, edges, oks, u, i, id) && !done(i);
            assert(done(i));
        }
    }
}

} // verus!
