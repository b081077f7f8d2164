//! Bringing services in line with changes leaves the hosts alone.
use crate::orchestrator::OrchestratorView;
use crate::seqs;
use crate::services::clients::ClientView;
use crate::services::model;
use crate::services::model::{EntryView, PlaceView};
use crate::services::world;
use crate::services::world::{ChainEdge, ChainHop, ChangeView, FilterView, World};
use vstd::prelude::*;

verus! {

/// The same hosts are connected, the same messages awaited, and networks are of the same kind.
pub open spec fn same_hosts(a: OrchestratorView, b: OrchestratorView) -> bool {
    b.clients == a.clients && b.pending == a.pending && b.net == a.net
}

proof fn lemma_decrements_hosts(w: World, edges: Seq<ChainEdge>)
    ensures
        same_hosts(w.orch, seqs::fold(w, edges, world::decrement_edge()).orch),
{
    let f = world::decrement_edge();
    let p = |v: World| same_hosts(w.orch, v.orch);
    assert forall|v: World, e: ChainEdge| p(v) && edges.contains(e) implies #[trigger] p(
        f(v, e),
    ) by {
        reveal(World::decrement);
    }
    seqs::lemma_fold_keeps(w, edges, f, p);
}

proof fn lemma_hops_hosts(w: World, hops: Seq<ChainHop>)
    ensures
        same_hosts(w.orch, seqs::fold(w, hops, world::decrement_hop()).orch),
{
    let f = world::decrement_hop();
    let p = |v: World| same_hosts(w.orch, v.orch);
    assert forall|v: World, h: ChainHop| p(v) && hops.contains(h) implies #[trigger] p(
        f(v, h),
    ) by {
        reveal(World::decrement_at);
    }
    seqs::lemma_fold_keeps(w, hops, f, p);
}

proof fn lemma_teardown_hosts(w: World, name: Seq<char>, filter: FilterView)
    ensures
        same_hosts(w.orch, w.teardown_chain(name, filter).orch),
{
    reveal(World::teardown_chain);
    if let Some(reg) = model::registered(w.services, name) {
        let entries = seqs::concat_map(reg.entries(), filter.selected());
        let f = world::take_down_deps(name);
        let p = |v: World| same_hosts(w.orch, v.orch);
        assert forall|v: World, e: EntryView| p(v) && entries.contains(e) implies #[trigger] p(
            f(v, e),
        ) by {
            reveal(World::teardown_dep_chain);
            let node = world::NodeView { name, ip: e.ip, docker: e.docker_container };
            lemma_decrements_hosts(v, world::dep_edges(v.services, node));
        }
        seqs::lemma_fold_keeps(w, entries, f, p);
        let w1 = seqs::fold(w, entries, f);
        let g = world::take_down_net();
        let q = |o: OrchestratorView| same_hosts(w.orch, o);
        assert forall|o: OrchestratorView, e: EntryView| q(o) && entries.contains(
            e,
        ) implies #[trigger] q(g(o, e)) by {}
        seqs::lemma_fold_keeps(w1.orch, entries, g, q);
    }
}

proof fn lemma_teardowns_hosts(w: World, names: Seq<Seq<char>>, filter: FilterView)
    ensures
        same_hosts(w.orch, seqs::fold(w, names, world::take_down(filter)).orch),
{
    let f = world::take_down(filter);
    let p = |v: World| same_hosts(w.orch, v.orch);
    assert forall|v: World, name: Seq<char>| p(v) && names.contains(name) implies #[trigger] p(
        f(v, name),
    ) by {
        lemma_teardown_hosts(v, name, filter);
    }
    seqs::lemma_fold_keeps(w, names, f, p);
}

proof fn lemma_invalidated_hosts(w: World, name: Seq<char>, is_failed: bool)
    ensures
        same_hosts(w.orch, w.teardown_invalidated_service(name, is_failed).orch),
{
    reveal(World::teardown_invalidated_service);
    lemma_teardowns_hosts(
        w,
        seqs::concat_map(w.services, world::dependent_on(name)),
        FilterView::All,
    );
}

proof fn lemma_partial_hosts(w: World, name: Seq<char>, place: PlaceView)
    ensures
        same_hosts(w.orch, w.teardown_partial_replicas(name, place).orch),
{
    reveal(World::teardown_partial_replicas);
    if let Some(reg) = model::registered(w.services, name) {
        let clients = reg.service_clients(place);
        let f = world::take_down_source();
        let p = |v: World| same_hosts(w.orch, v.orch);
        assert forall|v: World, c: ClientView| p(v) && clients.contains(c) implies #[trigger] p(
            f(v, c),
        ) by {
            if let Some((ip, docker)) = c.replica {
                lemma_teardown_hosts(
                    v,
                    c.name,
                    FilterView::On(PlaceView::Replica(ip, docker)),
                );
            }
        }
        seqs::lemma_fold_keeps(w, clients, f, p);
        lemma_teardown_hosts(seqs::fold(w, clients, f), name, FilterView::On(place));
    }
}

proof fn lemma_apply_hosts(w: World, change: ChangeView)
    ensures
        same_hosts(w.orch, w.apply(change).orch),
{
    reveal(World::apply);
    match change {
        ChangeView::Removed { name } => {
            lemma_invalidated_hosts(w, name, true);
        },
        ChangeView::DepsChanged { name } => {
            lemma_invalidated_hosts(w, name, false);
        },
        ChangeView::ReachabilityChanged { name } => {
            lemma_teardown_hosts(w, name, FilterView::All);
        },
        ChangeView::ReplicasRemoved { name, ip } => {
            lemma_invalidated_hosts(w, name, true);
            lemma_partial_hosts(w, name, PlaceView::Host(ip));
        },
        ChangeView::ReplicaRemoved { name, ip, docker_container } => {
            lemma_invalidated_hosts(w, name, true);
            lemma_partial_hosts(w, name, PlaceView::Replica(ip, docker_container));
        },
        ChangeView::ProxyDisconnected { ip } => {
            lemma_teardowns_hosts(
                w,
                seqs::concat_map(w.services, world::served_through(ip)),
                FilterView::ByIp(ip),
            );
        },
        ChangeView::ProxyClientTimedOut { name, client } => {
            lemma_teardown_hosts(w, name, FilterView::ByClient(client));
        },
        ChangeView::BackendChainTimedOut {
            initiator_name,
            initiator_ip,
            initiator_docker,
            first_dependency,
        } => {
            reveal(World::teardown_backend_chain);
            reveal(World::marked_at);
            let node = world::NodeView {
                name: initiator_name,
                ip: initiator_ip,
                docker: initiator_docker,
            };
            lemma_hops_hosts(w, world::backend_hops(w.services, node, first_dependency));
        },
    }
}

/// Bringing services in line with changes leaves the same hosts connected and the same messages awaited.
pub proof fn law_changes_keep_hosts(w: World, list: Seq<ChangeView>)
    ensures
        same_hosts(w.orch, w.apply_all(list).orch),
{
    let f = world::apply_change();
    let p = |v: World| same_hosts(w.orch, v.orch);
    assert forall|v: World, change: ChangeView| p(v) && list.contains(change) implies #[trigger] p(
        f(v, change),
    ) by {
        lemma_apply_hosts(v, change);
    }
    seqs::lemma_fold_keeps(w, list, f, p);
}

} // verus!
