//! What was set up is there, and a request that comes again finds it.
use crate::addr::{IpAddr, Ipv4Addr};
use crate::chain_setup;
use crate::chain_setup::{OutcomeView, PendingView, ProgressView};
use crate::nullnet_grpc_impl;
use crate::nullnet_grpc_impl::{
    ProxyChainView, ProxyReplyView, RequestError, SharedNetworkView, TriggerReplyView,
};
use crate::seqs;
use crate::services::clients;
use crate::services::clients::{ClientInfoView, ClientView};
use crate::services::connections;
use crate::services::edge::RegisteredEdgeView;
use crate::services::laws;
use crate::services::model;
use crate::services::model::{RegisteredView, ServiceView, ServicesView, UpstreamView};
use crate::services::world;
use crate::services::world::{ChainEdge, NodeView, World};
use crate::setup_laws;
use crate::table;
use vstd::prelude::*;

verus! {

/// Service `b` has the configuration and the replicas of `a` in the same order, every client of a
/// replica is still one, and those that are spared have the same connections.
spec fn is_extended(
    a: RegisteredView,
    b: RegisteredView,
    spared: spec_fn(ClientView) -> bool,
) -> bool {
    &&& b.config == a.config
    &&& b.replicas.len() == a.replicas.len()
    &&& forall|k: int|
        0 <= k < a.replicas.len() ==> (#[trigger] b.replicas[k]) == a.replicas[k].with_clients(
            b.replicas[k].clients,
        )
    &&& forall|k: int, q: ClientView|
        0 <= k < a.replicas.len() && table::has_key(a.replicas[k].clients, q)
            ==> #[trigger] table::has_key(b.replicas[k].clients, q)
    &&& forall|k: int, q: ClientView|
        0 <= k < a.replicas.len() && spared(q) ==> #[trigger] table::lookup(
            b.replicas[k].clients,
            q,
        ) == table::lookup(a.replicas[k].clients, q)
}

/// The same services run, and each is extended.
spec fn all_extended(
    a: ServicesView,
    b: ServicesView,
    spared: spec_fn(ClientView) -> bool,
) -> bool {
    forall|name: Seq<char>|
        match (model::registered(a, name), #[trigger] model::registered(b, name)) {
            (Some(x), Some(y)) => is_extended(x, y, spared),
            (None, None) => true,
            _ => false,
        }
}

proof fn lemma_extended_twice(
    a: RegisteredView,
    b: RegisteredView,
    c: RegisteredView,
    spared: spec_fn(ClientView) -> bool,
)
    requires
        is_extended(a, b, spared),
        is_extended(b, c, spared),
    ensures
        is_extended(a, c, spared),
{
    assert forall|k: int| 0 <= k < a.replicas.len() implies (#[trigger] c.replicas[k])
        == a.replicas[k].with_clients(c.replicas[k].clients) by {
        assert(b.replicas[k] == a.replicas[k].with_clients(b.replicas[k].clients));
    }
    assert forall|k: int, q: ClientView|
        0 <= k < a.replicas.len() && table::has_key(
            a.replicas[k].clients,
            q,
        ) implies #[trigger] table::has_key(c.replicas[k].clients, q) by {
        assert(table::has_key(b.replicas[k].clients, q));
    }
    assert forall|k: int, q: ClientView|
        0 <= k < a.replicas.len() && spared(q) implies #[trigger] table::lookup(
        c.replicas[k].clients,
        q,
    ) == table::lookup(a.replicas[k].clients, q) by {
        assert(table::lookup(b.replicas[k].clients, q) == table::lookup(a.replicas[k].clients, q));
    }
}

proof fn lemma_all_twice(
    a: ServicesView,
    b: ServicesView,
    c: ServicesView,
    spared: spec_fn(ClientView) -> bool,
)
    requires
        all_extended(a, b, spared),
        all_extended(b, c, spared),
    ensures
        all_extended(a, c, spared),
{
    assert forall|name: Seq<char>|
        match (model::registered(a, name), #[trigger] model::registered(c, name)) {
            (Some(x), Some(y)) => is_extended(x, y, spared),
            (None, None) => true,
            _ => false,
        } by {
        if let Some(z) = model::registered(c, name) {
            let y = model::registered(b, name)->0;
            assert(model::registered(b, name) is Some);
            let x = model::registered(a, name)->0;
            lemma_extended_twice(x, y, z, spared);
        } else {
            assert(model::registered(b, name) is None);
        }
    }
}

/// A service in place of itself, extended, extends the services.
proof fn lemma_put_extended(
    w: World,
    name: Seq<char>,
    next: RegisteredView,
    spared: spec_fn(ClientView) -> bool,
)
    requires
        model::registered(w.services, name) matches Some(reg) && is_extended(reg, next, spared),
    ensures
        all_extended(
            w.services,
            w.with_service(name, ServiceView::Registered(next)).services,
            spared,
        ),
{
    let b = w.with_service(name, ServiceView::Registered(next)).services;
    assert forall|q: Seq<char>|
        match (model::registered(w.services, q), #[trigger] model::registered(b, q)) {
            (Some(x), Some(y)) => is_extended(x, y, spared),
            (None, None) => true,
            _ => false,
        } by {
        laws::lemma_put_registered(w.services, name, ServiceView::Registered(next), q);
    }
}

/// A client put on a replica extends the service.
proof fn lemma_put_client(
    reg: RegisteredView,
    i: int,
    c: ClientView,
    ci: ClientInfoView,
    spared: spec_fn(ClientView) -> bool,
)
    requires
        0 <= i < reg.replicas.len(),
        !spared(c),
    ensures
        is_extended(
            reg,
            reg.with_clients(i, table::put(reg.replicas[i].clients, c, ci)),
            spared,
        ),
{
    let next = reg.with_clients(i, table::put(reg.replicas[i].clients, c, ci));
    assert forall|k: int, q: ClientView|
        0 <= k < reg.replicas.len() && table::has_key(
            reg.replicas[k].clients,
            q,
        ) implies #[trigger] table::has_key(next.replicas[k].clients, q) by {
        table::lemma_put_keys(reg.replicas[i].clients, c, ci, q);
    }
    assert forall|k: int, q: ClientView|
        0 <= k < reg.replicas.len() && spared(q) implies #[trigger] table::lookup(
        next.replicas[k].clients,
        q,
    ) == table::lookup(reg.replicas[k].clients, q) by {
        table::lemma_put(reg.replicas[i].clients, c, ci, q);
    }
}

/// What a client that is not spared does on its replica extends the service.
proof fn lemma_client_extends(
    reg: RegisteredView,
    ip: IpAddr,
    docker: Option<Seq<char>>,
    c: ClientView,
    ci: ClientInfoView,
    now: nat,
    flag: bool,
    spared: spec_fn(ClientView) -> bool,
)
    requires
        !spared(c),
    ensures
        is_extended(reg, reg.with_client(ip, docker, c, ci), spared),
        is_extended(reg, reg.with_chain(c, now), spared),
        is_extended(reg, reg.with_chain_at(ip, docker, c, now), spared),
        is_extended(reg, reg.used_at(ip, docker, c, now), spared),
        is_extended(reg, reg.marked_at(ip, docker, c, flag), spared),
{
    if reg.has_replica(ip, docker) {
        let i = reg.replica_index(ip, docker);
        assert(reg.is_replica(ip, docker, i));
        lemma_put_client(reg, i, c, ci, spared);
        if let Some(info) = reg.info_at(ip, docker, c) {
            lemma_put_client(reg, i, c, info.with_chain(now), spared);
            lemma_put_client(reg, i, c, info.used(now), spared);
            lemma_put_client(reg, i, c, info.marked(flag), spared);
        }
    }
    if reg.holds(c) {
        let i = reg.holder(c);
        assert(reg.is_holder(c, i));
        if let Some(info) = reg.info(c) {
            lemma_put_client(reg, i, c, info.with_chain(now), spared);
        }
    }
}

/// An edge that did not fail to open extends the services. The client of a service is then connected
/// at the edge's end, where a replica runs there.
proof fn lemma_open_extends(
    w: World,
    edge: RegisteredEdgeView,
    server_msg: Seq<char>,
    client_msg: Seq<char>,
    now: nat,
    spared: spec_fn(ClientView) -> bool,
)
    requires
        !spared(edge.client.1),
        w.open_edge(edge, server_msg, client_msg, now).1 != ProgressView::Finished(
            OutcomeView::Failed,
        ),
    ensures
        all_extended(
            w.services,
            w.open_edge(edge, server_msg, client_msg, now).0.services,
            spared,
        ),
        edge.client.1.proxy is None ==> is_there(
            w.open_edge(edge, server_msg, client_msg, now).0.services,
            edge,
        ),
{
    let name = edge.server_name();
    let c = edge.client.1;
    let reg = model::registered(w.services, name)->0;
    let ci = clients::placeholder_info(edge.client.0, now);
    lemma_client_extends(reg, edge.server.0, edge.server_docker, c, ci, now, false, spared);
    let next = if edge.is_set_up(reg) {
        edge.counted(reg, now)
    } else {
        reg.with_client(edge.server.0, edge.server_docker, c, ci)
    };
    lemma_put_extended(w, name, next, spared);
    laws::lemma_put_registered(w.services, name, ServiceView::Registered(next), name);
    if c.proxy is None {
        if edge.is_set_up(reg) {
            lemma_holds_at(reg, next, c, edge.server.0, edge.server_docker, spared);
        } else if reg.has_replica(edge.server.0, edge.server_docker) {
            let i = reg.replica_index(edge.server.0, edge.server_docker);
            assert(reg.is_replica(edge.server.0, edge.server_docker, i));
            table::lemma_put_keys(reg.replicas[i].clients, c, ci, c);
            assert(next.replicas[i].matches(edge.server.0, edge.server_docker));
        } else if next.has_replica(edge.server.0, edge.server_docker) {
            assert(next == reg);
        }
    }
}

/// The client of an edge is connected at the edge's end, where a replica runs there.
spec fn is_there(services: ServicesView, edge: RegisteredEdgeView) -> bool {
    model::registered(services, edge.server_name()) matches Some(reg) ==> reg.has_replica(
        edge.server.0,
        edge.server_docker,
    ) ==> reg.holds_at(edge.client.1, edge.server.0, edge.server_docker)
}

/// A client that is connected at a place is still so in a service that is extended.
proof fn lemma_holds_at(
    a: RegisteredView,
    b: RegisteredView,
    c: ClientView,
    ip: IpAddr,
    docker: Option<Seq<char>>,
    spared: spec_fn(ClientView) -> bool,
)
    requires
        is_extended(a, b, spared),
    ensures
        a.holds_at(c, ip, docker) ==> b.holds_at(c, ip, docker),
{
    if a.holds_at(c, ip, docker) {
        let i = choose|i: int|
            0 <= i < a.replicas.len() && (#[trigger] a.replicas[i]).matches(ip, docker)
                && table::has_key(a.replicas[i].clients, c);
        assert(b.replicas[i].matches(ip, docker));
        assert(table::has_key(b.replicas[i].clients, c));
    }
}

/// Where a service runs, it runs where it is extended too.
proof fn lemma_same_replicas(
    a: RegisteredView,
    b: RegisteredView,
    ip: IpAddr,
    docker: Option<Seq<char>>,
    spared: spec_fn(ClientView) -> bool,
)
    requires
        is_extended(a, b, spared),
    ensures
        a.has_replica(ip, docker) == b.has_replica(ip, docker),
        a.has_replica(ip, docker) ==> a.replica_index(ip, docker) == b.replica_index(ip, docker),
{
    if a.has_replica(ip, docker) {
        let i = a.replica_index(ip, docker);
        assert(a.is_replica(ip, docker, i));
        assert(b.is_replica(ip, docker, i)) by {
            assert(b.replicas[i].matches(ip, docker));
            assert forall|j: int| 0 <= j < i implies !(#[trigger] b.replicas[j]).matches(
                ip,
                docker,
            ) by {
                assert(!a.replicas[j].matches(ip, docker));
            }
        }
        let j = b.replica_index(ip, docker);
        assert(b.is_replica(ip, docker, j));
        assert(i == j);
    }
    if b.has_replica(ip, docker) {
        let i = b.replica_index(ip, docker);
        assert(b.is_replica(ip, docker, i));
        assert(a.is_replica(ip, docker, i)) by {
            assert(a.replicas[i].matches(ip, docker));
            assert forall|j: int| 0 <= j < i implies !(#[trigger] a.replicas[j]).matches(
                ip,
                docker,
            ) by {
                assert(!b.replicas[j].matches(ip, docker));
            }
        }
    }
}

/// An edge that is there is still so in services that are extended.
proof fn lemma_still_there(
    a: ServicesView,
    b: ServicesView,
    edge: RegisteredEdgeView,
    spared: spec_fn(ClientView) -> bool,
)
    requires
        all_extended(a, b, spared),
        is_there(a, edge),
    ensures
        is_there(b, edge),
{
    if let Some(y) = model::registered(b, edge.server_name()) {
        let x = model::registered(a, edge.server_name())->0;
        lemma_same_replicas(x, y, edge.server.0, edge.server_docker, spared);
        lemma_holds_at(x, y, edge.client.1, edge.server.0, edge.server_docker, spared);
    }
}

/// An edge that was finished without failure extends the services.
proof fn lemma_finish_extends(
    w: World,
    pending: PendingView,
    server_ack: bool,
    client_ack: bool,
    now: nat,
    spared: spec_fn(ClientView) -> bool,
)
    requires
        !spared(pending.edge.client.1),
        w.finish_edge(pending, server_ack, client_ack, now).1 is Success,
    ensures
        all_extended(
            w.services,
            w.finish_edge(pending, server_ack, client_ack, now).0.services,
            spared,
        ),
{
    let edge = pending.edge;
    let name = edge.server_name();
    let c = edge.client.1;
    let reg = model::registered(w.services, name)->0;
    let ci = pending.info(pending.server_addr->0, pending.client_addr->0, now).with_chain(now);
    lemma_client_extends(reg, edge.server.0, edge.server_docker, c, ci, now, false, spared);
    let next = reg.with_client(edge.server.0, edge.server_docker, c, ci);
    lemma_put_extended(w, name, next, spared);
}

/// How far an edge came tells what the edge was.
spec fn is_of(progress: ProgressView, edge: RegisteredEdgeView) -> bool {
    match progress {
        ProgressView::Finished(OutcomeView::Success(e)) => e.client == edge.client.1
            && e.proxy_upstream is None,
        ProgressView::Finished(OutcomeView::Failed) => true,
        ProgressView::Pending(p) => p.edge == edge,
    }
}

/// The edges of a chain that were opened without failure extend the services, and those of services
/// are there.
proof fn lemma_open_all_extends(
    w: World,
    edges: Seq<RegisteredEdgeView>,
    msgs: Seq<(Seq<char>, Seq<char>)>,
    now: nat,
    spared: spec_fn(ClientView) -> bool,
)
    requires
        forall|i: int| 0 <= i < edges.len() ==> !spared((#[trigger] edges[i]).client.1),
        forall|i: int|
            0 <= i < edges.len() ==> (#[trigger] chain_setup::open_all(w, edges, msgs, now).1[i])
                != ProgressView::Finished(OutcomeView::Failed),
    ensures
        chain_setup::open_all(w, edges, msgs, now).1.len() == edges.len(),
        all_extended(w.services, chain_setup::open_all(w, edges, msgs, now).0.services, spared),
        forall|i: int|
            0 <= i < edges.len() && (#[trigger] edges[i]).client.1.proxy is None ==> is_there(
                chain_setup::open_all(w, edges, msgs, now).0.services,
                edges[i],
            ),
        forall|i: int|
            0 <= i < edges.len() ==> is_of(
                #[trigger] chain_setup::open_all(w, edges, msgs, now).1[i],
                edges[i],
            ),
    decreases edges.len(),
{
    lemma_opened_len(w, edges, msgs, now);
    if edges.len() > 0 {
        let front = edges.drop_last();
        let n = front.len() as int;
        let (v, progress) = chain_setup::open_all(w, front, msgs, now);
        let m = msgs[n];
        let (u, all) = chain_setup::open_all(w, edges, msgs, now);
        lemma_opened_len(w, front, msgs, now);
        assert(all == progress.push(all[n]));
        assert forall|i: int| 0 <= i < front.len() implies (#[trigger] progress[i])
            != ProgressView::Finished(OutcomeView::Failed) by {
            assert(all[i] == progress[i]);
        }
        assert forall|i: int| 0 <= i < front.len() implies !spared(
            (#[trigger] front[i]).client.1,
        ) by {
            assert(front[i] == edges[i]);
        }
        lemma_open_all_extends(w, front, msgs, now, spared);
        assert(edges[n] == edges.last());
        assert(all[n] != ProgressView::Finished(OutcomeView::Failed));
        lemma_open_extends(v, edges.last(), m.0, m.1, now, spared);
        lemma_all_twice(w.services, v.services, u.services, spared);
        assert forall|i: int|
            0 <= i < edges.len() && (#[trigger] edges[i]).client.1.proxy is None implies is_there(
            u.services,
            edges[i],
        ) by {
            if i < n {
                assert(front[i] == edges[i]);
                lemma_still_there(v.services, u.services, edges[i], spared);
            }
        }
        assert forall|i: int| 0 <= i < edges.len() implies is_of(#[trigger] all[i], edges[i]) by {
            if i < n {
                assert(progress[i] == all[i] && front[i] == edges[i]);
            }
        }
    }
}

proof fn lemma_opened_len(
    w: World,
    edges: Seq<RegisteredEdgeView>,
    msgs: Seq<(Seq<char>, Seq<char>)>,
    now: nat,
)
    ensures
        chain_setup::open_all(w, edges, msgs, now).1.len() == edges.len(),
    decreases edges.len(),
{
    if edges.len() > 0 {
        lemma_opened_len(w, edges.drop_last(), msgs, now);
    }
}

proof fn lemma_finished_len(
    w: World,
    progress: Seq<ProgressView>,
    acks: Seq<(bool, bool)>,
    now: nat,
)
    ensures
        chain_setup::finish_all(w, progress, acks, now).1.len() == progress.len(),
        forall|i: int|
            0 <= i < progress.len() && progress[i] == ProgressView::Finished(OutcomeView::Failed)
                ==> (#[trigger] chain_setup::finish_all(w, progress, acks, now).1[i]) is Failed,
    decreases progress.len(),
{
    if progress.len() > 0 {
        let front = progress.drop_last();
        lemma_finished_len(w, front, acks, now);
        let all = chain_setup::finish_all(w, progress, acks, now).1;
        let before = chain_setup::finish_all(w, front, acks, now).1;
        assert forall|i: int|
            0 <= i < progress.len() && progress[i] == ProgressView::Finished(
                OutcomeView::Failed,
            ) implies (#[trigger] all[i]) is Failed by {
            if i < front.len() {
                assert(front[i] == progress[i]);
                assert(all[i] == before[i]);
            }
        }
    }
}

/// The edges of a chain that were finished without failure extend the services, and none of them but a
/// proxy client's has an address.
proof fn lemma_finish_all_extends(
    w: World,
    progress: Seq<ProgressView>,
    acks: Seq<(bool, bool)>,
    now: nat,
    spared: spec_fn(ClientView) -> bool,
)
    requires
        forall|i: int|
            0 <= i < progress.len() ==> ((#[trigger] progress[i]) matches ProgressView::Pending(p)
                ==> !spared(p.edge.client.1)),
        forall|i: int|
            0 <= i < progress.len() ==> (#[trigger] chain_setup::finish_all(
                w,
                progress,
                acks,
                now,
            ).1[i]) is Success,
    ensures
        all_extended(
            w.services,
            chain_setup::finish_all(w, progress, acks, now).0.services,
            spared,
        ),
    decreases progress.len(),
{
    lemma_finished_len(w, progress, acks, now);
    if progress.len() > 0 {
        let front = progress.drop_last();
        let n = front.len() as int;
        let (v, outcomes) = chain_setup::finish_all(w, front, acks, now);
        let (u, all) = chain_setup::finish_all(w, progress, acks, now);
        lemma_finished_len(w, front, acks, now);
        assert forall|i: int| 0 <= i < front.len() implies (#[trigger] outcomes[i]) is Success by {
            assert(all[i] == outcomes[i]);
        }
        assert forall|i: int| 0 <= i < front.len() implies ((
        #[trigger] front[i]) matches ProgressView::Pending(p) ==> !spared(p.edge.client.1)) by {
            assert(front[i] == progress[i]);
        }
        lemma_finish_all_extends(w, front, acks, now, spared);
        assert(progress[n] == progress.last());
        assert(all[n] is Success);
        if let ProgressView::Pending(p) = progress.last() {
            lemma_finish_extends(v, p, acks[n].0, acks[n].1, now, spared);
            lemma_all_twice(w.services, v.services, u.services, spared);
        }
    }
}

/// No client is spared.
spec fn none() -> spec_fn(ClientView) -> bool {
    |c: ClientView| false
}

/// A chain that was set up extends the services, and its edges between services are there.
proof fn lemma_set_up_extends(
    w: World,
    edges: Seq<RegisteredEdgeView>,
    msgs: Seq<(Seq<char>, Seq<char>)>,
    acks: Seq<(bool, bool)>,
    opened: nat,
    finished: nat,
)
    requires
        w.set_up_chain(edges, msgs, acks, opened, finished).1 is Ok,
    ensures
        ({
            let u = w.set_up_chain(edges, msgs, acks, opened, finished).0;
            &&& all_extended(w.services, u.services, none())
            &&& forall|i: int|
                0 <= i < edges.len() && (#[trigger] edges[i]).client.1.proxy is None ==> is_there(
                    u.services,
                    edges[i],
                )
        }),
{
    let (v, progress) = chain_setup::open_all(w, edges, msgs, opened);
    let (u, outcomes) = chain_setup::finish_all(v, progress, acks, finished);
    lemma_no_failure(w, edges, msgs, acks, opened, finished);
    lemma_open_all_extends(w, edges, msgs, opened, none());
    lemma_finish_all_extends(v, progress, acks, finished, none());
    lemma_all_twice(w.services, v.services, u.services, none());
    assert forall|i: int|
        0 <= i < edges.len() && (#[trigger] edges[i]).client.1.proxy is None implies is_there(
        u.services,
        edges[i],
    ) by {
        lemma_still_there(v.services, u.services, edges[i], none());
    }
}

/// No edge of a chain that was set up failed.
proof fn lemma_no_failure(
    w: World,
    edges: Seq<RegisteredEdgeView>,
    msgs: Seq<(Seq<char>, Seq<char>)>,
    acks: Seq<(bool, bool)>,
    opened: nat,
    finished: nat,
)
    requires
        w.set_up_chain(edges, msgs, acks, opened, finished).1 is Ok,
    ensures
        ({
            let (v, progress) = chain_setup::open_all(w, edges, msgs, opened);
            let (u, outcomes) = chain_setup::finish_all(v, progress, acks, finished);
            &&& progress.len() == edges.len()
            &&& outcomes.len() == edges.len()
            &&& forall|i: int|
                0 <= i < edges.len() ==> (#[trigger] progress[i]) != ProgressView::Finished(
                    OutcomeView::Failed,
                )
            &&& forall|i: int| 0 <= i < edges.len() ==> (#[trigger] outcomes[i]) is Success
        }),
{
    let (v, progress) = chain_setup::open_all(w, edges, msgs, opened);
    let (u, outcomes) = chain_setup::finish_all(v, progress, acks, finished);
    lemma_opened_len(w, edges, msgs, opened);
    lemma_finished_len(v, progress, acks, finished);
    assert forall|i: int| 0 <= i < edges.len() implies (#[trigger] outcomes[i]) is Success by {
        if outcomes[i] is Failed {
            assert(outcomes.contains(OutcomeView::Failed));
        }
    }
    assert forall|i: int| 0 <= i < edges.len() implies (#[trigger] progress[i])
        != ProgressView::Finished(OutcomeView::Failed) by {
        if progress[i] == ProgressView::Finished(OutcomeView::Failed) {
            assert(outcomes[i] is Failed);
        }
    }
}

/// The node that a planned chain passes after `k` dependencies.
spec fn node_at(
    start: ServicesView,
    node: NodeView,
    deps: Seq<Seq<char>>,
    k: int,
) -> NodeView {
    if k == 0 {
        node
    } else {
        let hop = model::hop(start, deps[k - 1]);
        NodeView { name: deps[k - 1], ip: hop.1->0, docker: hop.2 }
    }
}

/// A planned chain whose edges are there is connected, from each of its nodes on.
proof fn lemma_reaches(
    start: ServicesView,
    services: ServicesView,
    node: NodeView,
    deps: Seq<Seq<char>>,
    edges: Seq<RegisteredEdgeView>,
    j: int,
)
    requires
        0 <= j <= deps.len(),
        all_extended(start, services, none()),
        deps.len() <= edges.len(),
        forall|k: int|
            0 <= k < deps.len() ==> {
                let e = #[trigger] edges[k];
                let to = node_at(start, node, deps, k + 1);
                &&& is_there(services, e)
                &&& e.client.1 == node_at(start, node, deps, k).client()
                &&& e.server_name() == deps[k]
                &&& e.server.0 == to.ip
                &&& e.server_docker == to.docker
                &&& model::hop(start, deps[k]).1 is Some
            },
    ensures
        world::reaches(services, node_at(start, node, deps, j), deps.skip(j)),
    decreases deps.len() - j,
{
    let names = deps.skip(j);
    if j < deps.len() {
        lemma_reaches(start, services, node, deps, edges, j + 1);
        assert(names[0] == deps[j]);
        assert(names.drop_first() =~= deps.skip(j + 1));
        let from = node_at(start, node, deps, j);
        let to = node_at(start, node, deps, j + 1);
        let e = edges[j];
        let x = model::registered(start, deps[j])->0;
        let i0 = choose|i: int| x.is_least(i);
        assert(x.is_least(i0));
        assert(x.replicas[i0].matches(to.ip, to.docker));
        lemma_some_replica(x, to.ip, to.docker, i0);
        let y = model::registered(services, deps[j])->0;
        assert(model::registered(services, deps[j]) is Some);
        lemma_same_replicas(x, y, to.ip, to.docker, none());
        assert(y.holds_at(from.client(), to.ip, to.docker));
        let i = choose|i: int|
            0 <= i < y.replicas.len() && (#[trigger] y.replicas[i]).matches(to.ip, to.docker)
                && table::has_key(y.replicas[i].clients, from.client());
        assert(world::is_next(y, from, i));
        assert(to =~= NodeView {
            name: names[0],
            ip: y.replicas[i].ip,
            docker: y.replicas[i].docker_container,
        });
    }
}

/// Of replicas at a place one is the first.
proof fn lemma_some_replica(reg: RegisteredView, ip: IpAddr, docker: Option<Seq<char>>, i: int)
    requires
        0 <= i < reg.replicas.len(),
        reg.replicas[i].matches(ip, docker),
    ensures
        reg.has_replica(ip, docker),
    decreases i,
{
    if exists|j: int| 0 <= j < i && (#[trigger] reg.replicas[j]).matches(ip, docker) {
        let j = choose|j: int| 0 <= j < i && (#[trigger] reg.replicas[j]).matches(ip, docker);
        lemma_some_replica(reg, ip, docker, j);
    } else {
        assert(reg.is_replica(ip, docker, i));
    }
}

/// A connected chain is still so in services that are extended.
proof fn lemma_still_reaches(
    a: ServicesView,
    b: ServicesView,
    node: NodeView,
    names: Seq<Seq<char>>,
)
    requires
        all_extended(a, b, none()),
        world::reaches(a, node, names),
    ensures
        world::reaches(b, node, names),
    decreases names.len(),
{
    if names.len() > 0 {
        let x = model::registered(a, names[0])->0;
        let y = model::registered(b, names[0])->0;
        assert(model::registered(b, names[0]) is Some);
        let i = choose|i: int| #[trigger]
            world::is_next(x, node, i) && world::reaches(
                a,
                NodeView {
                    name: names[0],
                    ip: x.replicas[i].ip,
                    docker: x.replicas[i].docker_container,
                },
                names.drop_first(),
            );
        let next = NodeView {
            name: names[0],
            ip: x.replicas[i].ip,
            docker: x.replicas[i].docker_container,
        };
        lemma_still_reaches(a, b, next, names.drop_first());
        assert(y.replicas[i] == x.replicas[i].with_clients(y.replicas[i].clients));
        assert(table::has_key(y.replicas[i].clients, node.client()));
        assert(world::is_next(y, node, i));
    }
}

/// Marking a connection, as used or as an entry, extends the services.
proof fn lemma_marks_extend(w: World, c: ClientView, at: NodeView, now: nat, flag: bool)
    ensures
        all_extended(w.services, w.refreshed(c, at.name, now).services, none()),
        all_extended(w.services, w.marked_at(c, at, flag).services, none()),
{
    reveal(World::marked_at);
    if let Some(reg) = model::registered(w.services, at.name) {
        let ci = clients::placeholder_info(IpAddr::V6(0), 0);
        lemma_client_extends(reg, at.ip, at.docker, c, ci, now, flag, none());
        lemma_put_extended(w, at.name, reg.marked_at(at.ip, at.docker, c, flag), none());
        if let Some(e) = world::entry_connection(w.services, c, at.name) {
            lemma_client_extends(reg, e.ip, e.docker, c, ci, now, flag, none());
            lemma_put_extended(w, at.name, reg.used_at(e.ip, e.docker, c, now), none());
        }
    }
}

/// The first replica on a host is at the same place in a service that is extended.
proof fn lemma_replica_on(a: RegisteredView, b: RegisteredView, ip: IpAddr)
    requires
        is_extended(a, b, none()),
        nullnet_grpc_impl::replica_on(a, ip) is Some,
    ensures
        nullnet_grpc_impl::replica_on(b, ip) is Some,
        nullnet_grpc_impl::replica_on(b, ip)->0.ip == nullnet_grpc_impl::replica_on(a, ip)->0.ip,
        nullnet_grpc_impl::replica_on(b, ip)->0.docker_container
            == nullnet_grpc_impl::replica_on(a, ip)->0.docker_container,
{
    let i = choose|i: int| nullnet_grpc_impl::is_first_on(a, ip, i);
    assert(nullnet_grpc_impl::is_first_on(a, ip, i));
    assert(b.replicas[i] == a.replicas[i].with_clients(b.replicas[i].clients));
    assert(nullnet_grpc_impl::is_first_on(b, ip, i)) by {
        assert forall|j: int| 0 <= j < i implies (#[trigger] b.replicas[j]).ip != ip by {
            assert(a.replicas[j].ip != ip);
        }
    }
    let k = choose|k: int| nullnet_grpc_impl::is_first_on(b, ip, k);
    assert(nullnet_grpc_impl::is_first_on(b, ip, k));
    assert(k == i);
}

/// The chain that a trigger on a port asks for, and the replica that it starts from, are connected:
/// from each replica on the way to one of the next service.
pub open spec fn is_served(
    services: ServicesView,
    name: Seq<char>,
    sender_ip: IpAddr,
    port: u16,
) -> bool {
    match model::registered(services, name) {
        Some(reg) => match nullnet_grpc_impl::replica_on(reg, sender_ip) {
            Some(r) => {
                let chain = nullnet_grpc_impl::chain_for(reg.config.triggers, port);
                &&& chain.len() > 0
                &&& world::reaches(
                    services,
                    NodeView { name, ip: r.ip, docker: r.docker_container },
                    chain,
                )
            },
            None => false,
        },
        None => false,
    }
}

/// A trigger is answered without a set-up only where its replica is connected to the first service of
/// the port's chain. Where the service has another chain that starts alike, every edge of the chain is
/// connected then, and stays so.
pub proof fn law_trigger_refreshed(
    w: World,
    name: Seq<char>,
    sender_ip: IpAddr,
    port: u16,
    now: nat,
)
    requires
        w.backend_trigger(name, sender_ip, port, now).1 == Ok::<_, RequestError>(
            TriggerReplyView::Refreshed,
        ),
    ensures
        ({
            let after = w.backend_trigger(name, sender_ip, port, now).0;
            let reg = model::registered(w.services, name)->0;
            let r = nullnet_grpc_impl::replica_on(reg, sender_ip)->0;
            let c = clients::service_client(name, r.ip, r.docker_container);
            let chain = nullnet_grpc_impl::chain_for(reg.config.triggers, port);
            &&& world::connection(w.services, c, chain[0]) is Some
            &&& !nullnet_grpc_impl::starts_alone(reg.config, chain) ==> is_served(
                w.services,
                name,
                sender_ip,
                port,
            ) && is_served(after.services, name, sender_ip, port)
        }),
{
    let reg = model::registered(w.services, name)->0;
    let r = nullnet_grpc_impl::replica_on(reg, sender_ip)->0;
    let deps = nullnet_grpc_impl::chain_for(reg.config.triggers, port);
    let node = NodeView { name, ip: r.ip, docker: r.docker_container };
    let after = w.backend_trigger(name, sender_ip, port, now).0;
    lemma_marks_extend(w, node.client(), NodeView { name: deps[0], ..node }, now, false);
    if world::reaches(w.services, node, deps) {
        lemma_still_reaches(w.services, after.services, node, deps);
    }
    assert(model::registered(after.services, name) is Some);
    lemma_replica_on(reg, model::registered(after.services, name)->0, sender_ip);
}

/// A replica that is connected along a chain is connected to its first service.
proof fn lemma_reaches_first(services: ServicesView, node: NodeView, names: Seq<Seq<char>>)
    requires
        names.len() > 0,
        world::reaches(services, node, names),
    ensures
        world::connection(services, node.client(), names[0]) is Some,
{
    let reg = model::registered(services, names[0])->0;
    let i = choose|i: int| #[trigger] world::is_next(reg, node, i);
    assert(world::is_next(reg, node, i));
    connections::lemma_held_at(reg, node.client(), i);
}

/// After the chain that a trigger asked for was set up, every edge of it is connected.
pub proof fn law_trigger_connected(
    w: World,
    name: Seq<char>,
    sender_ip: IpAddr,
    port: u16,
    now: nat,
    edges: Seq<RegisteredEdgeView>,
    msgs: Seq<(Seq<char>, Seq<char>)>,
    acks: Seq<(bool, bool)>,
    opened: nat,
    finished: nat,
)
    requires
        w.backend_trigger(name, sender_ip, port, now).1 == Ok::<_, RequestError>(
            TriggerReplyView::Setup(edges),
        ),
        w.set_up_backend_chain(edges, msgs, acks, opened, finished).1 is Ok,
    ensures
        is_served(
            w.set_up_backend_chain(edges, msgs, acks, opened, finished).0.services,
            name,
            sender_ip,
            port,
        ),
{
    let reg = model::registered(w.services, name)->0;
    let r = nullnet_grpc_impl::replica_on(reg, sender_ip)->0;
    let deps = nullnet_grpc_impl::chain_for(reg.config.triggers, port);
    let node = NodeView { name, ip: r.ip, docker: r.docker_container };
    let u = w.set_up_chain(edges, msgs, acks, opened, finished).0;
    let t = w.set_up_backend_chain(edges, msgs, acks, opened, finished).0;
    lemma_set_up_extends(w, edges, msgs, acks, opened, finished);
    let plan = model::dependency_edges(name, r.ip, r.docker_container, deps, w.services);
    assert(edges.len() == deps.len());
    assert forall|k: int| 0 <= k < deps.len() implies {
        let e = #[trigger] edges[k];
        let to = node_at(w.services, node, deps, k + 1);
        &&& is_there(u.services, e)
        &&& e.client.1 == node_at(w.services, node, deps, k).client()
        &&& e.server_name() == deps[k]
        &&& e.server.0 == to.ip
        &&& e.server_docker == to.docker
        &&& model::hop(w.services, deps[k]).1 is Some
    } by {
        assert(plan[k].registered() is Some);
    }
    lemma_reaches(w.services, u.services, node, deps, edges, 0);
    assert(deps.skip(0) =~= deps);
    lemma_marks_extend(u, edges[0].client.1, nullnet_grpc_impl::edge_end(edges[0]), 0, true);
    lemma_still_reaches(u.services, t.services, node, deps);
    lemma_all_twice(w.services, u.services, t.services, none());
    assert(model::registered(t.services, name) is Some);
    lemma_replica_on(reg, model::registered(t.services, name)->0, sender_ip);
}

/// A trigger that was served finds its chain when it comes again: it changes nothing then but the last
/// use of the connection to the chain's first service.
pub proof fn law_trigger_again(
    w: World,
    name: Seq<char>,
    sender_ip: IpAddr,
    port: u16,
    now: nat,
    r: NodeView,
    chain: Seq<Seq<char>>,
)
    requires
        is_served(w.services, name, sender_ip, port),
        model::registered(w.services, name)->0.config.timeout is Some,
        ({
            let reg = model::registered(w.services, name)->0;
            let replica = nullnet_grpc_impl::replica_on(reg, sender_ip)->0;
            &&& r == NodeView { name, ip: replica.ip, docker: replica.docker_container }
            &&& chain == nullnet_grpc_impl::chain_for(reg.config.triggers, port)
        }),
    ensures
        w.backend_trigger(name, sender_ip, port, now) == (
            w.refreshed(r.client(), chain[0], now),
            Ok::<_, RequestError>(TriggerReplyView::Refreshed),
        ),
{
    lemma_reaches_first(w.services, r, chain);
}

/// A trigger whose chain was set up, whatever the state it was set up in, only marks it as used when it
/// comes again.
pub proof fn law_trigger_served(
    w: World,
    name: Seq<char>,
    sender_ip: IpAddr,
    port: u16,
    now: nat,
    edges: Seq<RegisteredEdgeView>,
    msgs: Seq<(Seq<char>, Seq<char>)>,
    acks: Seq<(bool, bool)>,
    opened: nat,
    finished: nat,
    later: nat,
)
    requires
        w.backend_trigger(name, sender_ip, port, now).1 == Ok::<_, RequestError>(
            TriggerReplyView::Setup(edges),
        ),
        w.set_up_backend_chain(edges, msgs, acks, opened, finished).1 is Ok,
    ensures
        ({
            let t = w.set_up_backend_chain(edges, msgs, acks, opened, finished).0;
            t.backend_trigger(name, sender_ip, port, later) == (
                t.refreshed(edges[0].client.1, edges[0].server_name(), later),
                Ok::<_, RequestError>(TriggerReplyView::Refreshed),
            )
        }),
{
    let reg = model::registered(w.services, name)->0;
    let r = nullnet_grpc_impl::replica_on(reg, sender_ip)->0;
    let deps = nullnet_grpc_impl::chain_for(reg.config.triggers, port);
    let u = w.set_up_chain(edges, msgs, acks, opened, finished).0;
    let t = w.set_up_backend_chain(edges, msgs, acks, opened, finished).0;
    law_trigger_connected(w, name, sender_ip, port, now, edges, msgs, acks, opened, finished);
    lemma_set_up_extends(w, edges, msgs, acks, opened, finished);
    lemma_marks_extend(u, edges[0].client.1, nullnet_grpc_impl::edge_end(edges[0]), 0, true);
    lemma_all_twice(w.services, u.services, t.services, none());
    let plan = model::dependency_edges(name, r.ip, r.docker_container, deps, w.services);
    assert(plan[0].registered() is Some);
    assert(model::registered(t.services, name) is Some);
    lemma_replica_on(reg, model::registered(t.services, name)->0, sender_ip);
    lemma_reaches_first(
        t.services,
        NodeView { name, ip: r.ip, docker: r.docker_container },
        deps,
    );
}

/// The edges between services have no address of a proxy client.
proof fn lemma_no_upstreams(
    w: World,
    progress: Seq<ProgressView>,
    acks: Seq<(bool, bool)>,
    now: nat,
)
    requires
        forall|i: int|
            0 <= i < progress.len() ==> match #[trigger] progress[i] {
                ProgressView::Finished(OutcomeView::Success(e)) => e.proxy_upstream is None,
                ProgressView::Finished(OutcomeView::Failed) => true,
                ProgressView::Pending(p) => p.edge.client.1.proxy is None,
            },
    ensures
        forall|i: int|
            0 <= i < progress.len() ==> ((#[trigger] chain_setup::finish_all(
                w,
                progress,
                acks,
                now,
            ).1[i]) matches OutcomeView::Success(e) ==> e.proxy_upstream is None),
    decreases progress.len(),
{
    lemma_finished_len(w, progress, acks, now);
    if progress.len() > 0 {
        let front = progress.drop_last();
        let n = front.len() as int;
        let before = chain_setup::finish_all(w, front, acks, now).1;
        let all = chain_setup::finish_all(w, progress, acks, now).1;
        lemma_finished_len(w, front, acks, now);
        assert forall|i: int| 0 <= i < front.len() implies match #[trigger] front[i] {
            ProgressView::Finished(OutcomeView::Success(e)) => e.proxy_upstream is None,
            ProgressView::Finished(OutcomeView::Failed) => true,
            ProgressView::Pending(p) => p.edge.client.1.proxy is None,
        } by {
            assert(front[i] == progress[i]);
        }
        lemma_no_upstreams(w, front, acks, now);
        assert(progress[n] == progress.last());
        assert forall|i: int| 0 <= i < progress.len() implies ((
        #[trigger] all[i]) matches OutcomeView::Success(e) ==> e.proxy_upstream is None) by {
            if i < n {
                assert(all[i] == before[i]);
            }
        }
    }
}

/// Where only the last edge has an address, it is the first one.
proof fn lemma_last_upstream(outcomes: Seq<OutcomeView>, addr: Ipv4Addr)
    requires
        outcomes.len() > 0,
        outcomes.last() matches OutcomeView::Success(e) && e.proxy_upstream == Some(addr),
        forall|i: int|
            0 <= i < outcomes.len() - 1 ==> ((#[trigger] outcomes[i]) matches OutcomeView::Success(
                e,
            ) ==> e.proxy_upstream is None),
    ensures
        chain_setup::first_upstream(outcomes) == Some(addr),
    decreases outcomes.len(),
{
    if outcomes.len() > 1 {
        let rest = outcomes.drop_first();
        assert(outcomes[0] matches OutcomeView::Success(e) ==> e.proxy_upstream is None);
        assert forall|i: int| 0 <= i < rest.len() - 1 implies ((
        #[trigger] rest[i]) matches OutcomeView::Success(e) ==> e.proxy_upstream is None) by {
            assert(rest[i] == outcomes[i + 1]);
        }
        lemma_last_upstream(rest, addr);
    }
}

/// A client that is connected to one replica alone is found there.
proof fn lemma_only_holder(reg: RegisteredView, c: ClientView, i: int)
    requires
        0 <= i < reg.replicas.len(),
        table::has_key(reg.replicas[i].clients, c),
        forall|k: int|
            0 <= k < reg.replicas.len() && k != i ==> !table::has_key(
                (#[trigger] reg.replicas[k]).clients,
                c,
            ),
    ensures
        reg.holds(c),
        reg.holder(c) == i,
{
    assert(reg.is_holder(c, i));
    let k = reg.holder(c);
    assert(reg.is_holder(c, k));
    if k != i {
        assert(!table::has_key(reg.replicas[k].clients, c));
    }
}

/// Connecting a client to a replica, where it is connected to no other one, and counting a chain.
proof fn lemma_connected(
    reg: RegisteredView,
    ip: IpAddr,
    docker: Option<Seq<char>>,
    c: ClientView,
    ci: ClientInfoView,
    now: nat,
)
    requires
        reg.has_replica(ip, docker),
        forall|k: int|
            0 <= k < reg.replicas.len() && k != reg.replica_index(ip, docker) ==> !table::has_key(
                (#[trigger] reg.replicas[k]).clients,
                c,
            ),
    ensures
        ({
            let one = reg.with_client(ip, docker, c, ci);
            let next = one.with_chain(c, now);
            let i = reg.replica_index(ip, docker);
            &&& one.config == reg.config
            &&& one.holds(c)
            &&& one.holder(c) == i
            &&& one.info(c) == Some(ci)
            &&& one.replicas[i].port == reg.replicas[i].port
            &&& next.config == reg.config
            &&& next.holds(c)
            &&& next.holder(c) == i
            &&& next.info(c) == Some(ci.with_chain(now))
            &&& next.replicas[i].port == reg.replicas[i].port
        }),
{
    let i = reg.replica_index(ip, docker);
    assert(reg.is_replica(ip, docker, i));
    let one = reg.with_client(ip, docker, c, ci);
    let clients = table::put(reg.replicas[i].clients, c, ci);
    table::lemma_put(reg.replicas[i].clients, c, ci, c);
    table::lemma_put_keys(reg.replicas[i].clients, c, ci, c);
    assert(one.replicas[i].clients == clients);
    lemma_only_holder(one, c, i);
    assert(one.info(c) == Some(ci));
    let next = one.with_chain(c, now);
    table::lemma_put(clients, c, ci.with_chain(now), c);
    table::lemma_put_keys(clients, c, ci.with_chain(now), c);
    assert(next.replicas[i].clients == table::put(clients, c, ci.with_chain(now)));
    lemma_only_holder(next, c, i);
}

/// A proxy client whose chain was set up, whatever the state it was set up in, has an address, and is
/// answered with it when it asks again. That changes nothing but the last use of its connection.
pub proof fn law_request_again(
    w: World,
    name: Seq<char>,
    proxy_ip: IpAddr,
    client: Seq<char>,
    now: nat,
    chain: ProxyChainView,
    msgs: Seq<(Seq<char>, Seq<char>)>,
    acks: Seq<(bool, bool)>,
    opened: nat,
    finished: nat,
    later: nat,
)
    requires
        connections::services_wf(w.services),
        w.proxy_request(name, proxy_ip, client, now).1 == Ok::<_, RequestError>(
            ProxyReplyView::Setup(chain),
        ),
        w.set_up_chain(chain.edges, msgs, acks, opened, finished).1 is Ok,
    ensures
        ({
            let c = nullnet_grpc_impl::proxy_client(client, proxy_ip);
            let (u, result) = w.set_up_chain(chain.edges, msgs, acks, opened, finished);
            match result {
                Ok(Some(addr)) => u.proxy_request(name, proxy_ip, client, later) == (
                    u.used(c, name, later),
                    Ok::<_, RequestError>(
                        ProxyReplyView::Ready(
                            UpstreamView { ip: addr.dotted(), port: chain.port as u32 },
                        ),
                    ),
                ),
                _ => false,
            }
        }),
{
    let edges = chain.edges;
    let c = nullnet_grpc_impl::proxy_client(client, proxy_ip);
    let spared = |q: ClientView| q == c;
    let reg = model::registered(w.services, name)->0;
    let deps = reg.config.dependencies;
    let n = deps.len() as int;
    connections::lemma_wf_of(w.services, name);
    let r = reg.least()->0;
    let i = choose|i: int| reg.is_least(i);
    assert(reg.is_least(i));
    connections::lemma_index(reg, i);
    let plan = model::dependency_edges(name, r.ip, r.docker_container, deps, w.services);
    let front = edges.drop_last();
    assert(edges.len() == n + 1);
    assert forall|k: int| 0 <= k < n implies (#[trigger] front[k]).client.1.proxy is None by {
        assert(front[k] == edges[k]);
        assert(plan[k].registered() is Some);
    }
    lemma_no_failure(w, edges, msgs, acks, opened, finished);
    let (v, progress) = chain_setup::open_all(w, edges, msgs, opened);
    let (u, outcomes) = chain_setup::finish_all(v, progress, acks, finished);
    assert(!outcomes.contains(OutcomeView::Failed)) by {
        if outcomes.contains(OutcomeView::Failed) {
            let j = choose|j: int| 0 <= j < outcomes.len() && outcomes[j] == OutcomeView::Failed;
            assert(outcomes[j] is Success);
        }
    }
    // the edges between services are opened
    let (v1, first) = chain_setup::open_all(w, front, msgs, opened);
    lemma_opened_len(w, front, msgs, opened);
    assert(progress.drop_last() =~= first);
    assert forall|k: int| 0 <= k < n implies (#[trigger] first[k]) != ProgressView::Finished(
        OutcomeView::Failed,
    ) by {
        assert(first[k] == progress[k]);
    }
    lemma_open_all_extends(w, front, msgs, opened, spared);
    let reg1 = model::registered(v1.services, name)->0;
    assert(model::registered(v1.services, name) is Some);
    lemma_same_replicas(reg, reg1, r.ip, r.docker_container, spared);
    assert forall|k: int| 0 <= k < reg1.replicas.len() implies !table::has_key(
        (#[trigger] reg1.replicas[k]).clients,
        c,
    ) by {
        if table::has_key(reg.replicas[k].clients, c) {
            connections::lemma_held_at(reg, c, k);
        }
        assert(table::lookup(reg1.replicas[k].clients, c) == table::lookup(
            reg.replicas[k].clients,
            c,
        ));
    }
    // the client's edge is opened
    let m = msgs[n];
    assert(edges.last() == edges[n]);
    assert(!edges[n].is_set_up(reg1)) by {
        if reg1.holds(c) {
            assert(reg1.is_holder(c, reg1.holder(c)));
        }
    }
    assert(progress[n] != ProgressView::Finished(OutcomeView::Failed));
    let p = progress[n]->Pending_0;
    let blank = clients::placeholder_info(edges[n].client.0, opened);
    let reg2 = reg1.with_client(r.ip, r.docker_container, c, blank);
    assert(reg1.is_replica(r.ip, r.docker_container, i));
    laws::lemma_put_registered(v1.services, name, ServiceView::Registered(reg2), name);
    assert(model::registered(v.services, name) == Some(reg2));
    assert(reg2.is_replica(r.ip, r.docker_container, i)) by {
        assert forall|j: int| 0 <= j < i implies !(#[trigger] reg2.replicas[j]).matches(
            r.ip,
            r.docker_container,
        ) by {
            assert(!reg1.replicas[j].matches(r.ip, r.docker_container));
        }
    }
    assert(reg2.replica_index(r.ip, r.docker_container) == i) by {
        let j = reg2.replica_index(r.ip, r.docker_container);
        assert(reg2.is_replica(r.ip, r.docker_container, j));
    }
    // the edges between services are finished
    let (v2, before) = chain_setup::finish_all(v, first, acks, finished);
    lemma_finished_len(v, first, acks, finished);
    assert(outcomes == before.push(outcomes[n]));
    assert forall|k: int| 0 <= k < n implies (#[trigger] before[k]) is Success by {
        assert(before[k] == outcomes[k]);
    }
    assert forall|k: int| 0 <= k < n implies ((#[trigger] first[k]) matches ProgressView::Pending(q)
        ==> !spared(q.edge.client.1) && q.edge.client.1.proxy is None) by {
        assert(is_of(first[k], front[k]));
    }
    lemma_finish_all_extends(v, first, acks, finished, spared);
    assert forall|k: int| 0 <= k < n implies match #[trigger] first[k] {
        ProgressView::Finished(OutcomeView::Success(e)) => e.proxy_upstream is None,
        ProgressView::Finished(OutcomeView::Failed) => true,
        ProgressView::Pending(q) => q.edge.client.1.proxy is None,
    } by {
        assert(is_of(first[k], front[k]));
    }
    lemma_no_upstreams(v, first, acks, finished);
    // the client's edge is finished
    let reg3 = model::registered(v2.services, name)->0;
    assert(model::registered(v2.services, name) is Some);
    lemma_same_replicas(reg2, reg3, r.ip, r.docker_container, spared);
    assert forall|k: int| 0 <= k < reg3.replicas.len() && k != i implies !table::has_key(
        (#[trigger] reg3.replicas[k]).clients,
        c,
    ) by {
        assert(!table::has_key(reg1.replicas[k].clients, c));
        assert(reg2.replicas[k] == reg1.replicas[k]);
        assert(table::lookup(reg3.replicas[k].clients, c) == table::lookup(
            reg2.replicas[k].clients,
            c,
        ));
    }
    assert(outcomes[n] is Success);
    let info = p.info(p.server_addr->0, p.client_addr->0, finished).with_chain(finished);
    lemma_connected(reg3, r.ip, r.docker_container, c, info, finished);
    let reg4 = reg3.with_client(r.ip, r.docker_container, c, info);
    laws::lemma_put_registered(v2.services, name, ServiceView::Registered(reg4), name);
    table::lemma_put(v2.services, name, ServiceView::Registered(reg4), name);
    assert forall|k: int| 0 <= k < outcomes.len() - 1 implies ((
    #[trigger] outcomes[k]) matches OutcomeView::Success(e) ==> e.proxy_upstream is None) by {
        assert(before[k] == outcomes[k]);
    }
    lemma_last_upstream(outcomes, p.server_addr->0);
    assert(reg3.replicas[i].port == reg.replicas[i].port);
}

/// A proxy client that shares a network is answered with the address of the network when it asks again.
/// That changes nothing but the last use of its connection.
pub proof fn law_share_again(
    w: World,
    name: Seq<char>,
    proxy_ip: IpAddr,
    client: Seq<char>,
    asked: nat,
    network: SharedNetworkView,
    now: nat,
    later: nat,
)
    requires
        connections::services_wf(w.services),
        w.proxy_request(name, proxy_ip, client, asked).1 == Ok::<_, RequestError>(
            ProxyReplyView::Share(network),
        ),
    ensures
        ({
            let c = nullnet_grpc_impl::proxy_client(client, proxy_ip);
            let u = w.share_network(name, proxy_ip, client, network, now);
            u.proxy_request(name, proxy_ip, client, later) == (
                u.used(c, name, later),
                Ok::<_, RequestError>(
                    ProxyReplyView::Ready(
                        UpstreamView {
                            ip: network.entry.info.server_net.dotted(),
                            port: network.entry.port as u32,
                        },
                    ),
                ),
            )
        }),
{
    let c = nullnet_grpc_impl::proxy_client(client, proxy_ip);
    let e = network.entry;
    let spared = |q: ClientView| q == c;
    let reg = model::registered(w.services, name)->0;
    setup_laws::law_share_proposal(w, name, proxy_ip, client, asked, network);
    connections::lemma_wf_of(w.services, name);
    assert forall|k: int| 0 <= k < reg.replicas.len() implies !table::has_key(
        (#[trigger] reg.replicas[k]).clients,
        c,
    ) by {
        let x = reg.replicas[k];
        connections::lemma_index(reg, k);
        assert(connections::conn(w.services, name, x.ip, x.docker_container, c) is None);
    }
    let info = clients::fresh_info(
        proxy_ip,
        e.info.client_net,
        e.info.server_net,
        e.info.net_id,
        0,
        None,
        false,
        now,
    );
    let i = reg.replica_index(e.ip, e.docker_container);
    assert(reg.is_replica(e.ip, e.docker_container, i));
    lemma_connected(reg, e.ip, e.docker_container, c, info, now);
    let next = reg.with_client(e.ip, e.docker_container, c, info).with_chain(c, now);
    let v = w.with_service(name, ServiceView::Registered(next));
    laws::lemma_put_registered(w.services, name, ServiceView::Registered(next), name);
    let f = nullnet_grpc_impl::increment_edge(now);
    let p = |x: World| all_extended(v.services, x.services, spared);
    assert forall|x: World, edge: ChainEdge|
        p(x) && network.edges.contains(edge) implies #[trigger] p(f(x, edge)) by {
        if let Some(dep) = model::registered(x.services, edge.1) {
            lemma_client_extends(
                dep,
                e.ip,
                e.docker_container,
                edge.0,
                info,
                now,
                false,
                spared,
            );
            lemma_put_extended(x, edge.1, dep.with_chain(edge.0, now), spared);
            lemma_all_twice(v.services, x.services, f(x, edge).services, spared);
        }
    }
    seqs::lemma_fold_keeps(v, network.edges, f, p);
    let u = w.share_network(name, proxy_ip, client, network, now);
    let last = model::registered(u.services, name)->0;
    assert(model::registered(u.services, name) is Some);
    assert forall|k: int| 0 <= k < last.replicas.len() implies #[trigger] table::lookup(
        last.replicas[k].clients,
        c,
    ) == table::lookup(next.replicas[k].clients, c) by {}
    assert(next.is_holder(c, i));
    assert(table::has_key(next.replicas[i].clients, c));
    assert(table::lookup(last.replicas[i].clients, c) is Some);
    assert forall|k: int| 0 <= k < last.replicas.len() && k != i implies !table::has_key(
        (#[trigger] last.replicas[k]).clients,
        c,
    ) by {
        assert(table::lookup(last.replicas[k].clients, c) == table::lookup(
            next.replicas[k].clients,
            c,
        ));
        assert(next.replicas[k] == reg.replicas[k]);
        assert(!table::has_key(reg.replicas[k].clients, c));
    }
    lemma_only_holder(last, c, i);
    assert(last.replicas[i].port == reg.replicas[i].port);
}

} // verus!
