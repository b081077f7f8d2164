//! The edges of a chain, one after the other.
use crate::chain_setup;
use crate::chain_setup::{OutcomeView, ProgressView};
use crate::message_laws;
use crate::nullnet_grpc_impl;
use crate::services::edge::RegisteredEdgeView;
use crate::services::laws;
use crate::services::model;
use crate::services::model::ServiceView;
use crate::services::world::World;
use vstd::prelude::*;

verus! {

/// How far the opening of an edge of a chain came: it stands for that edge, with the pair of messages of its
/// own and a network that was not in use before the chain.
pub open spec fn is_step(
    w: World,
    edge: RegisteredEdgeView,
    msgs: (Seq<char>, Seq<char>),
    now: nat,
    progress: ProgressView,
    after: World,
) -> bool {
    match progress {
        ProgressView::Pending(p) => {
            &&& p.edge == edge
            &&& p.server_msg == msgs.0
            &&& p.client_msg == msgs.1
            &&& p.started == now
            &&& 1 <= p.net_id <= 65535
            &&& !w.orch.net_ids.contains(p.net_id)
            &&& after.orch.net_ids.contains(p.net_id)
            &&& p.server_addr is Some == w.orch.clients.contains(edge.server.0)
            &&& p.client_addr is Some == w.orch.clients.contains(edge.client.0)
            &&& p.server_addr is Some ==> after.orch.pending.contains(msgs.0)
            &&& p.client_addr is Some ==> after.orch.pending.contains(msgs.1)
        },
        ProgressView::Finished(OutcomeView::Success(s)) => {
            &&& s.client == edge.client.1
            &&& s.server_name == edge.server.1.name
            &&& s.replica == (edge.server.0, edge.server_docker)
            &&& s.proxy_upstream is None
        },
        ProgressView::Finished(OutcomeView::Failed) => true,
    }
}

/// The same services run before and after an edge is opened.
proof fn lemma_open_runs(
    w: World,
    edge: RegisteredEdgeView,
    server_msg: Seq<char>,
    client_msg: Seq<char>,
    now: nat,
    n: Seq<char>,
)
    ensures
        model::registered(
            w.open_edge(edge, server_msg, client_msg, now).0.services,
            n,
        ) is Some == (model::registered(w.services, n) is Some),
{
    let name = edge.server_name();
    if let Some(reg) = model::registered(w.services, name) {
        lemma_put_runs(w, name, edge.counted(reg, now), n);
        let reserved = reg.with_client(
            edge.server.0,
            edge.server_docker,
            edge.client.1,
            crate::services::clients::placeholder_info(edge.client.0, now),
        );
        lemma_put_runs(w, name, reserved, n);
        let v = w.with_service(name, ServiceView::Registered(reserved));
        laws::lemma_put_registered(w.services, name, ServiceView::Registered(reserved), name);
        lemma_put_runs(
            v,
            name,
            reserved.without_client_at(edge.server.0, edge.server_docker, edge.client.1),
            n,
        );
    }
}

proof fn lemma_put_runs(w: World, name: Seq<char>, reg: model::RegisteredView, n: Seq<char>)
    requires
        model::registered(w.services, name) is Some,
    ensures
        model::registered(w.with_service(name, ServiceView::Registered(reg)).services, n) is Some
            == (model::registered(w.services, n) is Some),
{
    laws::lemma_put_registered(w.services, name, ServiceView::Registered(reg), n);
}

/// Opening a chain opens its edges in their order, each with its own pair of messages. Networks that are
/// taken into use differ, and were not in use before. Nothing that was to be sent is lost, what was awaited
/// is awaited still, and the same services run.
pub proof fn law_chain_opened(
    w: World,
    edges: Seq<RegisteredEdgeView>,
    msgs: Seq<(Seq<char>, Seq<char>)>,
    now: nat,
)
    ensures
        ({
            let (after, progress) = chain_setup::open_all(w, edges, msgs, now);
            &&& progress.len() == edges.len()
            &&& forall|i: int|
                0 <= i < edges.len() ==> is_step(
                    w,
                    edges[i],
                    msgs[i],
                    now,
                    #[trigger] progress[i],
                    after,
                )
            &&& forall|i: int, j: int|
                0 <= i < j < edges.len() && (#[trigger] progress[i]) is Pending && (
                #[trigger] progress[j]) is Pending ==> progress[i]->Pending_0.net_id
                    != progress[j]->Pending_0.net_id
            &&& after.orch.net == w.orch.net
            &&& after.orch.clients == w.orch.clients
            &&& forall|id: u32|
                w.orch.net_ids.contains(id) ==> #[trigger] after.orch.net_ids.contains(id)
            &&& forall|id: Seq<char>|
                w.orch.pending.contains(id) ==> #[trigger] after.orch.pending.contains(id)
            &&& forall|n: Seq<char>|
                (#[trigger] model::registered(after.services, n)) is Some == (model::registered(
                    w.services,
                    n,
                ) is Some)
            &&& w.orch.outbox.len() <= after.orch.outbox.len()
            &&& forall|k: int|
                0 <= k < w.orch.outbox.len() ==> #[trigger] after.orch.outbox[k] == w.orch.outbox[k]
        }),
    decreases edges.len(),
{
    if edges.len() > 0 {
        let n = edges.len() - 1;
        let front = edges.drop_last();
        law_chain_opened(w, front, msgs, now);
        let (v, before) = chain_setup::open_all(w, front, msgs, now);
        let (after, progress) = chain_setup::open_all(w, edges, msgs, now);
        let (m, e) = (msgs[n], edges[n]);
        let last = v.open_edge(e, m.0, m.1, now).1;
        message_laws::law_setup_messages(v, e, m.0, m.1, now);
        lemma_finished_keeps(v, e, m.0, m.1, now);
        assert(progress == before.push(last));
        assert(after == v.open_edge(e, m.0, m.1, now).0);
        assert forall|id: u32| v.orch.net_ids.contains(id) implies #[trigger]
            after.orch.net_ids.contains(id) by {
            if let ProgressView::Pending(p) = last {
                let k = choose|k: int| 0 <= k < v.orch.net_ids.len() && v.orch.net_ids[k] == id;
                assert(v.orch.net_ids.push(p.net_id)[k] == id);
            }
        }
        if let ProgressView::Pending(p) = last {
            assert(v.orch.net_ids.push(p.net_id)[v.orch.net_ids.len() as int] == p.net_id);
            assert(after.orch.net_ids.contains(p.net_id));
        }
        assert forall|i: int| 0 <= i < edges.len() implies is_step(
            w,
            edges[i],
            msgs[i],
            now,
            #[trigger] progress[i],
            after,
        ) by {
            if i < n {
                assert(progress[i] == before[i]);
                assert(front[i] == edges[i]);
                assert(is_step(w, front[i], msgs[i], now, before[i], v));
            } else {
                assert(progress[i] == last);
            }
        }
        assert forall|i: int, j: int|
            0 <= i < j < edges.len() && (#[trigger] progress[i]) is Pending && (
            #[trigger] progress[j]) is Pending implies progress[i]->Pending_0.net_id
            != progress[j]->Pending_0.net_id by {
            assert(progress[i] == before[i]);
            if j < n {
                assert(progress[j] == before[j]);
            } else {
                assert(is_step(w, front[i], msgs[i], now, before[i], v));
            }
        }
        assert forall|q: Seq<char>|
            (#[trigger] model::registered(after.services, q)) is Some == (model::registered(
                w.services,
                q,
            ) is Some) by {
            lemma_open_runs(v, e, m.0, m.1, now, q);
            assert(model::registered(v.services, q) is Some == (model::registered(
                w.services,
                q,
            ) is Some));
        }
    }
}

/// An edge that is finished at once sends nothing and takes no network into use.
proof fn lemma_finished_keeps(
    w: World,
    edge: RegisteredEdgeView,
    server_msg: Seq<char>,
    client_msg: Seq<char>,
    now: nat,
)
    ensures
        w.open_edge(edge, server_msg, client_msg, now).1 is Finished ==> w.open_edge(
            edge,
            server_msg,
            client_msg,
            now,
        ).0.orch == w.orch,
        w.open_edge(edge, server_msg, client_msg, now).1 matches ProgressView::Finished(
            OutcomeView::Success(s),
        ) ==> {
            &&& s.client == edge.client.1
            &&& s.server_name == edge.server.1.name
            &&& s.replica == (edge.server.0, edge.server_docker)
            &&& s.proxy_upstream is None
        },
{
}

/// The same services run before and after an edge is finished.
proof fn lemma_finish_runs(
    w: World,
    pending: chain_setup::PendingView,
    server_ack: bool,
    client_ack: bool,
    now: nat,
    n: Seq<char>,
)
    ensures
        model::registered(
            w.finish_edge(pending, server_ack, client_ack, now).0.services,
            n,
        ) is Some == (model::registered(w.services, n) is Some),
{
    let edge = pending.edge;
    let name = edge.server_name();
    if let Some(reg) = model::registered(w.services, name) {
        lemma_put_runs(
            w,
            name,
            reg.without_client_at(edge.server.0, edge.server_docker, edge.client.1),
            n,
        );
        if let (Some(s), Some(c)) = (pending.server_addr, pending.client_addr) {
            lemma_put_runs(
                w,
                name,
                reg.with_client(
                    edge.server.0,
                    edge.server_docker,
                    edge.client.1,
                    pending.info(s, c, now).with_chain(now),
                ),
                n,
            );
        }
    }
}

/// Finishing a chain finishes its edges in their order, each with the answers of its own hosts. An edge that
/// was finished already stays so. One that was under way is set up exactly where both its hosts were asked
/// and acknowledged and its server runs; the address that a proxy client reaches is then the server's.
pub proof fn law_chain_finished(
    w: World,
    progress: Seq<ProgressView>,
    acks: Seq<(bool, bool)>,
    now: nat,
)
    ensures
        ({
            let (after, outcomes) = chain_setup::finish_all(w, progress, acks, now);
            &&& outcomes.len() == progress.len()
            &&& forall|i: int|
                0 <= i < progress.len() ==> match progress[i] {
                    ProgressView::Finished(o) => #[trigger] outcomes[i] == o,
                    ProgressView::Pending(p) => {
                        let ok = acks[i].0 && acks[i].1 && p.server_addr is Some
                            && p.client_addr is Some && model::registered(
                            w.services,
                            p.edge.server.1.name,
                        ) is Some;
                        match outcomes[i] {
                            OutcomeView::Success(s) => {
                                &&& ok
                                &&& s.client == p.edge.client.1
                                &&& s.server_name == p.edge.server.1.name
                                &&& s.replica == (p.edge.server.0, p.edge.server_docker)
                                &&& s.proxy_upstream == (if p.edge.client.1.proxy is Some {
                                    p.server_addr
                                } else {
                                    None
                                })
                            },
                            OutcomeView::Failed => !ok,
                        }
                    },
                }
            &&& forall|n: Seq<char>|
                (#[trigger] model::registered(after.services, n)) is Some == (model::registered(
                    w.services,
                    n,
                ) is Some)
        }),
    decreases progress.len(),
{
    if progress.len() > 0 {
        let n = progress.len() - 1;
        let front = progress.drop_last();
        law_chain_finished(w, front, acks, now);
        let (v, before) = chain_setup::finish_all(w, front, acks, now);
        let (after, outcomes) = chain_setup::finish_all(w, progress, acks, now);
        assert forall|i: int| 0 <= i < n implies #[trigger] outcomes[i] == before[i] && progress[i]
            == front[i] by {}
        if let ProgressView::Pending(p) = progress[n] {
            assert(model::registered(v.services, p.edge.server.1.name) is Some
                == (model::registered(w.services, p.edge.server.1.name) is Some));
            assert forall|q: Seq<char>|
                (#[trigger] model::registered(after.services, q)) is Some == (model::registered(
                    w.services,
                    q,
                ) is Some) by {
                lemma_finish_runs(v, p, acks[n].0, acks[n].1, now, q);
                assert(model::registered(v.services, q) is Some == (model::registered(
                    w.services,
                    q,
                ) is Some));
            }
        }
    }
}

/// The services that a host offers are taken as it sends them.
pub proof fn law_offer_taken(o: (Seq<char>, u32, Option<Seq<char>>))
    requires
        o.1 <= 65535,
    ensures
        nullnet_grpc_impl::valid_offer(o).0 == o.0,
        nullnet_grpc_impl::valid_offer(o).1 == o.1,
        nullnet_grpc_impl::valid_offer(o).2 == o.2,
{
}

} // verus!
