//! Connections that end: their hosts are told, and their networks are free again.
use crate::addr::{IpAddr, Ipv4Addr};
use crate::chain_laws;
use crate::chain_laws::Spot;
use crate::chain_setup;
use crate::chain_setup::OutcomeView;
use crate::farewell_laws;
use crate::message_laws;
use crate::net::Net;
use crate::nullnet_grpc_impl::RequestError;
use crate::orchestrator::{DispatchView, OrchestratorView};
use crate::seqs;
use crate::services::clients::{ClientInfoView, ClientView};
use crate::services::connections;
use crate::services::laws;
use crate::services::model;
use crate::services::model::{EntryView, PlaceView, RegisteredView, ServiceView};
use crate::services::world;
use crate::services::world::{ChainEdge, ChangeView, FilterView, NodeView, World};
use crate::setup_laws;
use crate::table;
use vstd::prelude::*;

verus! {

/// A host, where it can be reached and networks are VXLANs, is told to tear down a network for a
/// container: one of the messages from number `from` on says so.
pub open spec fn is_told(
    orch: OrchestratorView,
    from: int,
    host: IpAddr,
    docker: Option<Seq<char>>,
    net_id: u32,
) -> bool {
    orch.net == Net::Vxlan && orch.clients.contains(host) ==> exists|k: int|
        from <= k < orch.outbox.len() && #[trigger] orch.outbox[k] == message_laws::teardown_of(
            host,
            docker,
            net_id,
        )
}

/// The network of a connection to a replica at `ip` in container `docker` is gone: the host that the
/// connection comes from and the host of the replica are told, each for the container of its own end, and
/// the identifier is not in use.
pub open spec fn is_gone(
    w: World,
    v: World,
    ip: IpAddr,
    docker: Option<Seq<char>>,
    ci: ClientInfoView,
) -> bool {
    let n = w.orch.outbox.len() as int;
    &&& is_told(v.orch, n, ci.client_ip, ci.docker_container, ci.net_id)
    &&& is_told(v.orch, n, ip, docker, ci.net_id)
    &&& w.orch.net_ids.no_duplicates() ==> !v.orch.net_ids.contains(ci.net_id)
}

/// Every connection that is there in `w` and not in `v` is gone with its network: every one of a proxy
/// client, and where `all` holds every other one too.
pub open spec fn lost_are_gone(w: World, v: World, all: bool) -> bool {
    forall|name: Seq<char>, ip: IpAddr, docker: Option<Seq<char>>, c: ClientView|
        (all || c.proxy is Some) && connections::conn(w.services, name, ip, docker, c) is Some && (
        #[trigger] connections::conn(v.services, name, ip, docker, c)) is None ==> is_gone(
            w,
            v,
            ip,
            docker,
            connections::conn(w.services, name, ip, docker, c)->0,
        )
}

/// A connection is there in `w` and not in `v`, and a message tears down its network at one of its two
/// ends.
pub open spec fn ends_connection(
    w: World,
    v: World,
    d: DispatchView,
    name: Seq<char>,
    ip: IpAddr,
    docker: Option<Seq<char>>,
    c: ClientView,
) -> bool {
    match connections::conn(w.services, name, ip, docker, c) {
        Some(ci) => {
            &&& connections::conn(v.services, name, ip, docker, c) is None
            &&& d == message_laws::teardown_of(ip, docker, ci.net_id) || d
                == message_laws::teardown_of(ci.client_ip, ci.docker_container, ci.net_id)
        },
        None => false,
    }
}

/// Every message that was sent meanwhile ends a connection that is lost.
pub open spec fn told_are_lost(w: World, v: World) -> bool {
    forall|k: int|
        w.orch.outbox.len() <= k < v.orch.outbox.len() ==> is_for_lost(
            w,
            v,
            #[trigger] v.orch.outbox[k],
        )
}

/// A message, to a host that can be reached and on a VXLAN, ends a connection that is lost.
pub open spec fn is_for_lost(w: World, v: World, d: DispatchView) -> bool {
    w.orch.net == Net::Vxlan && w.orch.clients.contains(d.dest) && exists|
        name: Seq<char>,
        ip: IpAddr,
        docker: Option<Seq<char>>,
        c: ClientView,
    | #[trigger]
        ends_connection(w, v, d, name, ip, docker, c)
}

/// A reduction in which every connection that is lost is gone with its network.
spec fn is_clean(w: World, v: World, all: bool) -> bool {
    &&& laws::reduced(w, v)
    &&& lost_are_gone(w, v, all)
    &&& told_are_lost(w, v)
    &&& farewell_laws::is_said(w, v, all)
}

proof fn lemma_told_later(
    a: OrchestratorView,
    b: OrchestratorView,
    from: int,
    host: IpAddr,
    docker: Option<Seq<char>>,
    net_id: u32,
)
    requires
        0 <= from,
        is_told(a, from, host, docker, net_id),
        laws::orch_reduced(a, b),
    ensures
        is_told(b, from, host, docker, net_id),
{
    if b.net == Net::Vxlan && b.clients.contains(host) {
        let k = choose|k: int|
            from <= k < a.outbox.len() && #[trigger] a.outbox[k] == message_laws::teardown_of(
                host,
                docker,
                net_id,
            );
        assert(b.outbox[k] == a.outbox[k]);
    }
}

proof fn lemma_told_earlier(
    b: OrchestratorView,
    from: int,
    earlier: int,
    host: IpAddr,
    docker: Option<Seq<char>>,
    net_id: u32,
)
    requires
        earlier <= from,
        is_told(b, from, host, docker, net_id),
    ensures
        is_told(b, earlier, host, docker, net_id),
{
    if b.net == Net::Vxlan && b.clients.contains(host) {
        let k = choose|k: int|
            from <= k < b.outbox.len() && #[trigger] b.outbox[k] == message_laws::teardown_of(
                host,
                docker,
                net_id,
            );
        assert(b.outbox[k] == message_laws::teardown_of(host, docker, net_id));
    }
}

proof fn lemma_clean_same(w: World, all: bool)
    requires
        connections::services_wf(w.services),
    ensures
        is_clean(w, w, all),
{
    laws::lemma_reduced_same(w);
    farewell_laws::lemma_said_nothing(w, w, all);
}

/// What is there after a reduction was there before.
proof fn lemma_was_there(w: World, v: World)
    requires
        laws::services_reduced(w.services, v.services),
    ensures
        forall|s: Spot|
            (#[trigger] chain_laws::at(v.services, s)) is Some ==> chain_laws::at(
                w.services,
                s,
            ) is Some,
{
    assert forall|s: Spot| (#[trigger] chain_laws::at(v.services, s)) is Some implies chain_laws::at(
        w.services,
        s,
    ) is Some by {
        assert(laws::conn_kept(chain_laws::at(w.services, s), chain_laws::at(v.services, s)));
    }
}

proof fn lemma_clean_twice(a: World, b: World, c: World, all: bool)
    requires
        is_clean(a, b, all),
        is_clean(b, c, all),
    ensures
        is_clean(a, c, all),
{
    laws::lemma_reduced_twice(a, b, c);
    lemma_was_there(b, c);
    farewell_laws::lemma_said_twice(a, b, c, all);
    let n = a.orch.outbox.len() as int;
    assert forall|name: Seq<char>, ip: IpAddr, docker: Option<Seq<char>>, q: ClientView|
        (all || q.proxy is Some) && connections::conn(a.services, name, ip, docker, q) is Some && (
        #[trigger] connections::conn(c.services, name, ip, docker, q)) is None implies is_gone(
        a,
        c,
        ip,
        docker,
        connections::conn(a.services, name, ip, docker, q)->0,
    ) by {
        let ci = connections::conn(a.services, name, ip, docker, q)->0;
        if connections::conn(b.services, name, ip, docker, q) is None {
            assert(is_gone(a, b, ip, docker, ci));
            lemma_told_later(b.orch, c.orch, n, ci.client_ip, ci.docker_container, ci.net_id);
            lemma_told_later(b.orch, c.orch, n, ip, docker, ci.net_id);
        } else {
            let cj = connections::conn(b.services, name, ip, docker, q)->0;
            assert(laws::conn_kept(Some(ci), Some(cj)));
            assert(is_gone(b, c, ip, docker, cj));
            let m = b.orch.outbox.len() as int;
            lemma_told_earlier(c.orch, m, n, ci.client_ip, ci.docker_container, ci.net_id);
            lemma_told_earlier(c.orch, m, n, ip, docker, ci.net_id);
        }
    }
    assert forall|k: int| a.orch.outbox.len() <= k < c.orch.outbox.len() implies is_for_lost(
        a,
        c,
        #[trigger] c.orch.outbox[k],
    ) by {
        let d = c.orch.outbox[k];
        if k < b.orch.outbox.len() {
            assert(d == b.orch.outbox[k]);
            assert(is_for_lost(a, b, d));
            let (name, ip, docker, q) = choose|
                name: Seq<char>,
                ip: IpAddr,
                docker: Option<Seq<char>>,
                q: ClientView,
            | #[trigger]
                ends_connection(a, b, d, name, ip, docker, q);
            assert(laws::conn_kept(
                connections::conn(b.services, name, ip, docker, q),
                connections::conn(c.services, name, ip, docker, q),
            ));
            assert(ends_connection(a, c, d, name, ip, docker, q));
        } else {
            assert(is_for_lost(b, c, d));
            let (name, ip, docker, q) = choose|
                name: Seq<char>,
                ip: IpAddr,
                docker: Option<Seq<char>>,
                q: ClientView,
            | #[trigger]
                ends_connection(b, c, d, name, ip, docker, q);
            assert(laws::conn_kept(
                connections::conn(a.services, name, ip, docker, q),
                connections::conn(b.services, name, ip, docker, q),
            ));
            assert(ends_connection(a, c, d, name, ip, docker, q));
        }
    }
}

proof fn lemma_clean_less(w: World, v: World)
    requires
        is_clean(w, v, true),
    ensures
        is_clean(w, v, false),
{
    farewell_laws::lemma_said_less(w, v);
}

/// A network that is torn down is gone.
proof fn lemma_torn(w: World, v: World, ip: IpAddr, docker: Option<Seq<char>>, ci: ClientInfoView)
    requires
        v.orch == w.orch.teardown(ci.client_ip, ci.docker_container, ip, docker, ci.net_id),
    ensures
        is_gone(w, v, ip, docker, ci),
        forall|k: int|
            w.orch.outbox.len() <= k < v.orch.outbox.len() ==> (#[trigger] v.orch.outbox[k])
                == message_laws::teardown_of(ip, docker, ci.net_id) || v.orch.outbox[k]
                == message_laws::teardown_of(ci.client_ip, ci.docker_container, ci.net_id),
        forall|k: int|
            w.orch.outbox.len() <= k < v.orch.outbox.len() ==> w.orch.net == Net::Vxlan
                && w.orch.clients.contains((#[trigger] v.orch.outbox[k]).dest),
{
    message_laws::lemma_teardowns(
        w.orch,
        ip,
        docker,
        ci.client_ip,
        ci.docker_container,
        ci.net_id,
    );
    laws::lemma_without_contains(w.orch.net_ids, ci.net_id);
    let n = w.orch.outbox.len() as int;
    let more = message_laws::teardowns(
        w.orch,
        ip,
        docker,
        ci.client_ip,
        ci.docker_container,
        ci.net_id,
    );
    let first = message_laws::teardown_of(ip, docker, ci.net_id);
    let second = message_laws::teardown_of(ci.client_ip, ci.docker_container, ci.net_id);
    if w.orch.net == Net::Vxlan && w.orch.clients.contains(ip) {
        assert(more[0] == first);
        assert(v.orch.outbox[n] == first);
    }
    if w.orch.net == Net::Vxlan && w.orch.clients.contains(ci.client_ip) {
        let k = more.len() - 1;
        assert(more[k] == second);
        assert(v.orch.outbox[n + k] == second);
    }
    assert forall|k: int| n <= k < v.orch.outbox.len() implies (#[trigger] v.orch.outbox[k]) == first
        || v.orch.outbox[k] == second by {
        assert(v.orch.outbox[k] == more[k - n]);
    }
    assert forall|k: int| n <= k < v.orch.outbox.len() implies w.orch.net == Net::Vxlan
        && w.orch.clients.contains((#[trigger] v.orch.outbox[k]).dest) by {
        assert(v.orch.outbox[k] == more[k - n]);
    }
}

proof fn lemma_decrement_clean(w: World, c: ClientView, name: Seq<char>)
    requires
        connections::services_wf(w.services),
    ensures
        is_clean(w, w.decrement(c, name), true),
{
    let v = w.decrement(c, name);
    laws::lemma_decrement_reduced(w, c, name);
    reveal(World::decrement);
    connections::lemma_wf_of(w.services, name);
    if let Some(reg) = model::registered(w.services, name) {
        let (next, _) = reg.decremented(c, w.orch);
        connections::lemma_holds(reg, c);
        if let Some(ci) = reg.info(c) {
            let r = reg.replicas[reg.holder(c)];
            if ci.active_chains <= 1 {
                connections::lemma_without_client(reg, c);
                lemma_torn(w, v, r.ip, r.docker_container, ci);
                laws::lemma_put_registered(w.services, name, ServiceView::Registered(next), name);
                assert(connections::replica_conn(next, r.ip, r.docker_container, c) is None);
                assert forall|k: int|
                    w.orch.outbox.len() <= k < v.orch.outbox.len() implies is_for_lost(
                    w,
                    v,
                    #[trigger] v.orch.outbox[k],
                ) by {
                    assert(ends_connection(
                        w,
                        v,
                        v.orch.outbox[k],
                        name,
                        r.ip,
                        r.docker_container,
                        c,
                    ));
                }
            } else {
                connections::lemma_with_info(reg, c, ci.without_chains(1));
            }
        }
        assert forall|n: Seq<char>, ip: IpAddr, docker: Option<Seq<char>>, q: ClientView|
            connections::conn(w.services, n, ip, docker, q) is Some && (#[trigger] connections::conn(
                v.services,
                n,
                ip,
                docker,
                q,
            )) is None implies is_gone(
            w,
            v,
            ip,
            docker,
            connections::conn(w.services, n, ip, docker, q)->0,
        ) by {
            laws::lemma_put_registered(w.services, name, ServiceView::Registered(next), n);
            assert(n == name);
            assert(connections::replica_conn(next, ip, docker, q) is None);
        }
        lemma_decrement_said(w, c, name, reg, next);
    } else {
        farewell_laws::lemma_said_nothing(w, v, true);
    }
}

/// What is said of a connection over which one chain fewer runs.
proof fn lemma_decrement_said(
    w: World,
    c: ClientView,
    name: Seq<char>,
    reg: RegisteredView,
    next: RegisteredView,
)
    requires
        connections::services_wf(w.services),
        model::registered(w.services, name) == Some(reg),
        next == reg.decremented(c, w.orch).0,
    ensures
        farewell_laws::is_said(w, w.decrement(c, name), true),
{
    let v = w.decrement(c, name);
    reveal(World::decrement);
    connections::lemma_wf_of(w.services, name);
    connections::lemma_holds(reg, c);
    match reg.info(c) {
        Some(ci) => {
            let r = reg.replicas[reg.holder(c)];
            let s = Spot { name, ip: r.ip, docker: r.docker_container, client: c };
            if ci.active_chains <= 1 {
                connections::lemma_without_client(reg, c);
                laws::lemma_put_registered(w.services, name, ServiceView::Registered(next), name);
                assert(connections::replica_conn(next, r.ip, r.docker_container, c) is None);
                assert(chain_laws::at(w.services, s) == Some(ci));
                assert(chain_laws::at(v.services, s) is None);
                assert forall|q: Spot|
                    q != s && chain_laws::at(w.services, q) is Some implies (
                #[trigger] chain_laws::at(v.services, q)) is Some by {
                    laws::lemma_put_registered(
                        w.services,
                        name,
                        ServiceView::Registered(next),
                        q.name,
                    );
                    if q.name == name {
                        assert(connections::replica_conn(next, q.ip, q.docker, q.client) is Some
                            || (q.ip == s.ip && q.docker == s.docker && q.client == c));
                        assert(q.ip == s.ip && q.docker == s.docker && q.client == c ==> q =~= s);
                    }
                }
                farewell_laws::lemma_said_one(w, v, s, true);
            } else {
                connections::lemma_with_info(reg, c, ci.without_chains(1));
                assert forall|q: Spot| chain_laws::at(w.services, q) is Some implies (
                #[trigger] chain_laws::at(v.services, q)) is Some by {
                    laws::lemma_put_registered(
                        w.services,
                        name,
                        ServiceView::Registered(next),
                        q.name,
                    );
                    if q.name == name {
                        assert(connections::replica_conn(next, q.ip, q.docker, q.client) is Some);
                    }
                }
                farewell_laws::lemma_said_nothing(w, v, true);
            }
        },
        None => {
            assert forall|q: Spot| chain_laws::at(w.services, q) is Some implies (
            #[trigger] chain_laws::at(v.services, q)) is Some by {
                laws::lemma_put_registered(
                    w.services,
                    name,
                    ServiceView::Registered(next),
                    q.name,
                );
            }
            farewell_laws::lemma_said_nothing(w, v, true);
        },
    }
}

proof fn lemma_decrement_at_clean(
    w: World,
    c: ClientView,
    name: Seq<char>,
    at: IpAddr,
    container: Option<Seq<char>>,
)
    requires
        connections::services_wf(w.services),
    ensures
        is_clean(w, w.decrement_at(c, name, at, container), true),
{
    let v = w.decrement_at(c, name, at, container);
    laws::lemma_decrement_at_reduced(w, c, name, at, container);
    reveal(World::decrement_at);
    connections::lemma_wf_of(w.services, name);
    if let Some(reg) = model::registered(w.services, name) {
        let (next, _) = reg.decremented_at(at, container, c, w.orch);
        if let Some(ci) = reg.info_at(at, container, c) {
            if ci.active_chains <= 1 {
                lemma_torn(w, v, at, container, ci);
                connections::lemma_without_client_at(reg, at, container, c);
                laws::lemma_put_registered(w.services, name, ServiceView::Registered(next), name);
                assert(connections::replica_conn(next, at, container, c) is None);
                assert forall|k: int|
                    w.orch.outbox.len() <= k < v.orch.outbox.len() implies is_for_lost(
                    w,
                    v,
                    #[trigger] v.orch.outbox[k],
                ) by {
                    assert(ends_connection(w, v, v.orch.outbox[k], name, at, container, c));
                }
            } else {
                if c.proxy is Some {
                    let i = reg.replica_index(at, container);
                    assert(reg.is_replica(at, container, i));
                    connections::lemma_sticky_holder(reg, c, i);
                }
                connections::lemma_with_client(reg, at, container, c, ci.without_chains(1));
                laws::lemma_put_registered(w.services, name, ServiceView::Registered(next), name);
                assert(connections::replica_conn(next, at, container, c) is Some);
            }
        }
        assert forall|n: Seq<char>, ip: IpAddr, docker: Option<Seq<char>>, q: ClientView|
            connections::conn(w.services, n, ip, docker, q) is Some && (#[trigger] connections::conn(
                v.services,
                n,
                ip,
                docker,
                q,
            )) is None implies is_gone(
            w,
            v,
            ip,
            docker,
            connections::conn(w.services, n, ip, docker, q)->0,
        ) by {
            laws::lemma_put_registered(w.services, name, ServiceView::Registered(next), n);
            assert(n == name && ip == at && docker == container && q == c);
        }
        lemma_decrement_at_said(w, c, name, at, container, reg, next);
    } else {
        farewell_laws::lemma_said_nothing(w, v, true);
    }
}

proof fn lemma_decrement_at_said(
    w: World,
    c: ClientView,
    name: Seq<char>,
    at: IpAddr,
    container: Option<Seq<char>>,
    reg: RegisteredView,
    next: RegisteredView,
)
    requires
        connections::services_wf(w.services),
        model::registered(w.services, name) == Some(reg),
        next == reg.decremented_at(at, container, c, w.orch).0,
    ensures
        farewell_laws::is_said(w, w.decrement_at(c, name, at, container), true),
{
    let v = w.decrement_at(c, name, at, container);
    reveal(World::decrement_at);
    connections::lemma_wf_of(w.services, name);
    let s = Spot { name, ip: at, docker: container, client: c };
    let gone = match reg.info_at(at, container, c) {
        Some(ci) => {
            if ci.active_chains <= 1 {
                connections::lemma_without_client_at(reg, at, container, c);
                true
            } else {
                if c.proxy is Some {
                    let i = reg.replica_index(at, container);
                    assert(reg.is_replica(at, container, i));
                    connections::lemma_sticky_holder(reg, c, i);
                }
                connections::lemma_with_client(reg, at, container, c, ci.without_chains(1));
                false
            }
        },
        None => false,
    };
    laws::lemma_put_registered(w.services, name, ServiceView::Registered(next), name);
    assert(connections::replica_conn(next, at, container, c) is None || !gone);
    assert forall|q: Spot|
        (q != s || !gone) && chain_laws::at(w.services, q) is Some implies (
    #[trigger] chain_laws::at(v.services, q)) is Some by {
        laws::lemma_put_registered(w.services, name, ServiceView::Registered(next), q.name);
        if q.name == name {
            if q.ip == s.ip && q.docker == s.docker && q.client == c {
                assert(q =~= s);
            }
            assert(connections::replica_conn(next, q.ip, q.docker, q.client) is Some);
        }
    }
    if gone {
        farewell_laws::lemma_said_one(w, v, s, true);
    } else {
        farewell_laws::lemma_said_nothing(w, v, true);
    }
}

proof fn lemma_dep_chains_clean(w: World, name: Seq<char>, entries: Seq<EntryView>)
    requires
        connections::services_wf(w.services),
    ensures
        is_clean(w, seqs::fold(w, entries, world::take_down_deps(name)), true),
{
    let f = world::take_down_deps(name);
    let p = |v: World| is_clean(w, v, true);
    lemma_clean_same(w, true);
    assert forall|v: World, e: EntryView| p(v) && entries.contains(e) implies #[trigger] p(
        f(v, e),
    ) by {
        reveal(World::teardown_dep_chain);
        let node = NodeView { name, ip: e.ip, docker: e.docker_container };
        let edges = world::dep_edges(v.services, node);
        let g = world::decrement_edge();
        assert forall|u: World, x: ChainEdge| p(u) && edges.contains(x) implies #[trigger] p(
            g(u, x),
        ) by {
            lemma_decrement_clean(u, x.0, x.1);
            lemma_clean_twice(w, u, g(u, x), true);
        }
        seqs::lemma_fold_keeps(v, edges, g, p);
    }
    seqs::lemma_fold_keeps(w, entries, f, p);
}

/// The network of an entry that is among those taken down is gone.
proof fn lemma_net_gone(w: World, v: World, entries: Seq<EntryView>, k: int)
    requires
        0 <= k < entries.len(),
        laws::orch_reduced(w.orch, v.orch),
    ensures
        ({
            let after = World {
                orch: seqs::fold(v.orch, entries, world::take_down_net()),
                ..v
            };
            is_gone(w, after, entries[k].ip, entries[k].docker_container, entries[k].info)
        }),
{
    let f = world::take_down_net();
    let e = entries[k];
    let ci = e.info;
    let n = w.orch.outbox.len() as int;
    let inv = |o: OrchestratorView| laws::orch_reduced(w.orch, o);
    let goal = |o: OrchestratorView|
        is_gone(w, World { orch: o, ..v }, e.ip, e.docker_container, ci);
    assert forall|o: OrchestratorView, x: EntryView| inv(o) && entries.contains(x) implies #[trigger] inv(
        f(o, x),
    ) by {
        laws::lemma_teardown_reduced(
            o,
            x.info.client_ip,
            x.info.docker_container,
            x.ip,
            x.docker_container,
            x.info.net_id,
        );
        laws::lemma_orch_reduced_twice(w.orch, o, f(o, x));
    }
    assert forall|o: OrchestratorView| inv(o) implies #[trigger] goal(f(o, entries[k])) by {
        let b = World { orch: o, ..v };
        let c = World { orch: f(o, e), ..v };
        lemma_torn(b, c, e.ip, e.docker_container, ci);
        let m = o.outbox.len() as int;
        lemma_told_earlier(c.orch, m, n, ci.client_ip, ci.docker_container, ci.net_id);
        lemma_told_earlier(c.orch, m, n, e.ip, e.docker_container, ci.net_id);
    }
    assert forall|o: OrchestratorView, x: EntryView|
        inv(o) && goal(o) && entries.contains(x) implies goal(#[trigger] f(o, x)) by {
        laws::lemma_teardown_reduced(
            o,
            x.info.client_ip,
            x.info.docker_container,
            x.ip,
            x.docker_container,
            x.info.net_id,
        );
        lemma_told_later(o, f(o, x), n, ci.client_ip, ci.docker_container, ci.net_id);
        lemma_told_later(o, f(o, x), n, e.ip, e.docker_container, ci.net_id);
    }
    seqs::lemma_fold_reaches(v.orch, entries, f, inv, k, goal);
}

/// The messages that end the networks of entries are each for one of them.
proof fn lemma_nets_told(o: OrchestratorView, entries: Seq<EntryView>, k: int)
    requires
        o.outbox.len() <= k < seqs::fold(o, entries, world::take_down_net()).outbox.len(),
    ensures
        is_for_entry(entries, seqs::fold(o, entries, world::take_down_net()).outbox[k]),
        o.net == Net::Vxlan,
        o.clients.contains(seqs::fold(o, entries, world::take_down_net()).outbox[k].dest),
    decreases entries.len(),
{
    let f = world::take_down_net();
    if entries.len() > 0 {
        let front = entries.drop_last();
        let e = entries.last();
        let b = seqs::fold(o, front, f);
        let c = seqs::fold(o, entries, f);
        laws::lemma_nets_reduced(o, front);
        assert(c == f(b, e));
        message_laws::lemma_teardowns(
            b,
            e.ip,
            e.docker_container,
            e.info.client_ip,
            e.info.docker_container,
            e.info.net_id,
        );
        if k < b.outbox.len() {
            lemma_nets_told(o, front, k);
            let i = choose|i: int|
                0 <= i < front.len() && is_end_of(#[trigger] front[i], b.outbox[k]);
            assert(is_end_of(entries[i], c.outbox[k]));
        } else {
            assert(is_end_of(entries[entries.len() - 1], c.outbox[k]));
        }
    }
}

/// A message tears down the network of an entry at one of its two ends.
spec fn is_end_of(e: EntryView, d: DispatchView) -> bool {
    d == message_laws::teardown_of(e.ip, e.docker_container, e.info.net_id) || d
        == message_laws::teardown_of(e.info.client_ip, e.info.docker_container, e.info.net_id)
}

spec fn is_for_entry(entries: Seq<EntryView>, d: DispatchView) -> bool {
    exists|i: int| 0 <= i < entries.len() && is_end_of(#[trigger] entries[i], d)
}

/// The chains of a service that are taken down are gone.
proof fn lemma_chain_clean(w: World, name: Seq<char>, filter: FilterView)
    requires
        connections::services_wf(w.services),
    ensures
        is_clean(w, w.teardown_chain(name, filter), true),
{
    let after = w.teardown_chain(name, filter);
    laws::lemma_teardown_chain_reduced(w, name, filter);
    laws::law_teardown_chain(w, name, filter);
    connections::lemma_wf_of(w.services, name);
    reveal(World::teardown_chain);
    if let Some(reg) = model::registered(w.services, name) {
        let entries = seqs::concat_map(reg.entries(), filter.selected());
        let v = seqs::fold(w, entries, world::take_down_deps(name));
        lemma_dep_chains_clean(w, name, entries);
        let torn = World { orch: seqs::fold(v.orch, entries, world::take_down_net()), ..v };
        laws::lemma_nets_reduced(v.orch, entries);
        connections::lemma_wf_of(v.services, name);
        assert(after.orch == torn.orch);
        lemma_chain_said(w, name, filter, reg);
        assert forall|n: Seq<char>, ip: IpAddr, docker: Option<Seq<char>>, q: ClientView|
            connections::conn(w.services, n, ip, docker, q) is Some && (#[trigger] connections::conn(
                after.services,
                n,
                ip,
                docker,
                q,
            )) is None implies is_gone(
            w,
            after,
            ip,
            docker,
            connections::conn(w.services, n, ip, docker, q)->0,
        ) by {
            let ci = connections::conn(w.services, n, ip, docker, q)->0;
            if q.proxy is Some {
                assert(n == name && filter.selects_at(q, ip, docker));
                let port = reg.replicas[reg.replica_index(ip, docker)].port;
                let e = EntryView { client: q, info: ci, ip, docker_container: docker, port };
                connections::lemma_entries(reg, e);
                laws::lemma_selected(reg, filter, e);
                assert(entries.contains(e));
                let k = choose|k: int| 0 <= k < entries.len() && entries[k] == e;
                lemma_net_gone(w, v, entries, k);
            } else {
                lemma_services_stay(v, name, reg, filter, n, ip, docker, q);
                assert(connections::conn(v.services, n, ip, docker, q) is None);
                assert(is_gone(w, v, ip, docker, ci));
                let m = w.orch.outbox.len() as int;
                lemma_told_later(v.orch, torn.orch, m, ci.client_ip, ci.docker_container, ci.net_id);
                lemma_told_later(v.orch, torn.orch, m, ip, docker, ci.net_id);
            }
        }
        assert forall|k: int|
            w.orch.outbox.len() <= k < after.orch.outbox.len() implies is_for_lost(
            w,
            after,
            #[trigger] after.orch.outbox[k],
        ) by {
            let d = after.orch.outbox[k];
            if k < v.orch.outbox.len() {
                assert(d == v.orch.outbox[k]);
                assert(is_for_lost(w, v, d));
                let (n, ip, docker, q) = choose|
                    n: Seq<char>,
                    ip: IpAddr,
                    docker: Option<Seq<char>>,
                    q: ClientView,
                | #[trigger]
                    ends_connection(w, v, d, n, ip, docker, q);
                if q.proxy is None {
                    lemma_services_stay(v, name, reg, filter, n, ip, docker, q);
                } else {
                    laws::lemma_dep_chains_proxies(w, name, entries);
                    assert(connections::conn(v.services, n, ip, docker, q) == connections::conn(
                        w.services,
                        n,
                        ip,
                        docker,
                        q,
                    ));
                }
                assert(ends_connection(w, after, d, n, ip, docker, q));
            } else {
                lemma_nets_told(v.orch, entries, k);
                let i = choose|i: int|
                    0 <= i < entries.len() && is_end_of(#[trigger] entries[i], d);
                let e = entries[i];
                assert(entries.contains(e));
                laws::lemma_selected(reg, filter, e);
                connections::lemma_entries(reg, e);
                assert(connections::conn(w.services, name, e.ip, e.docker_container, e.client)
                    == Some(e.info));
                assert(connections::conn(
                    after.services,
                    name,
                    e.ip,
                    e.docker_container,
                    e.client,
                ) is None);
                assert(ends_connection(
                    w,
                    after,
                    d,
                    name,
                    e.ip,
                    e.docker_container,
                    e.client,
                ));
            }
        }
    } else {
        lemma_clean_same(w, true);
    }
}

/// What is said where the chains of a service are taken down.
proof fn lemma_chain_said(w: World, name: Seq<char>, filter: FilterView, reg: RegisteredView)
    requires
        connections::services_wf(w.services),
        model::registered(w.services, name) == Some(reg),
        is_clean(
            w,
            seqs::fold(
                w,
                seqs::concat_map(reg.entries(), filter.selected()),
                world::take_down_deps(name),
            ),
            true,
        ),
    ensures
        farewell_laws::is_said(w, w.teardown_chain(name, filter), true),
{
    let after = w.teardown_chain(name, filter);
    let f = filter.selected();
    let entries = seqs::concat_map(reg.entries(), f);
    let v = seqs::fold(w, entries, world::take_down_deps(name));
    laws::law_teardown_chain(w, name, filter);
    laws::lemma_dep_chains_proxies(w, name, entries);
    connections::lemma_wf_of(w.services, name);
    reveal(World::teardown_chain);
    assert(after.orch == seqs::fold(v.orch, entries, world::take_down_net()));
    assert forall|i: int| 0 <= i < entries.len() implies chain_laws::at(
        v.services,
        farewell_laws::spot_of(name, #[trigger] entries[i]),
    ) == Some(entries[i].info) && chain_laws::at(
        after.services,
        farewell_laws::spot_of(name, entries[i]),
    ) is None by {
        let e = entries[i];
        assert(entries.contains(e));
        laws::lemma_selected(reg, filter, e);
        connections::lemma_entries(reg, e);
        assert(connections::conn(v.services, name, e.ip, e.docker_container, e.client)
            == connections::conn(w.services, name, e.ip, e.docker_container, e.client));
    }
    connections::lemma_entries_distinct(reg);
    assert forall|x: EntryView| #[trigger] f(x) == seq![x] || f(x) == Seq::<EntryView>::empty() by {}
    seqs::lemma_some_distinct(reg.entries(), f);
    assert forall|i: int, j: int| 0 <= i < j < entries.len() implies farewell_laws::spot_of(
        name,
        #[trigger] entries[i],
    ) != farewell_laws::spot_of(name, #[trigger] entries[j]) by {
        assert(entries.contains(entries[i]) && entries.contains(entries[j]));
        laws::lemma_selected(reg, filter, entries[i]);
        laws::lemma_selected(reg, filter, entries[j]);
        connections::lemma_entries(reg, entries[i]);
        connections::lemma_entries(reg, entries[j]);
        if farewell_laws::spot_of(name, entries[i]) == farewell_laws::spot_of(name, entries[j]) {
            assert(entries[i] =~= entries[j]);
        }
    }
    assert forall|s: Spot| #[trigger] chain_laws::at(after.services, s) is Some implies chain_laws::at(
        v.services,
        s,
    ) is Some by {
        if s.client.proxy is Some {
            assert(connections::conn(v.services, s.name, s.ip, s.docker, s.client)
                == connections::conn(w.services, s.name, s.ip, s.docker, s.client));
        } else {
            lemma_services_stay(v, name, reg, filter, s.name, s.ip, s.docker, s.client);
        }
    }
    assert forall|s: Spot|
        chain_laws::at(v.services, s) is Some && (#[trigger] chain_laws::at(
            after.services,
            s,
        )) is None implies exists|i: int|
        0 <= i < entries.len() && farewell_laws::spot_of(name, #[trigger] entries[i]) == s by {
        if s.client.proxy is Some {
            assert(connections::conn(v.services, s.name, s.ip, s.docker, s.client)
                == connections::conn(w.services, s.name, s.ip, s.docker, s.client));
            assert(s.name == name && filter.selects_at(s.client, s.ip, s.docker));
            let e = EntryView {
                client: s.client,
                info: chain_laws::at(w.services, s)->0,
                ip: s.ip,
                docker_container: s.docker,
                port: reg.replicas[reg.replica_index(s.ip, s.docker)].port,
            };
            connections::lemma_entries(reg, e);
            laws::lemma_selected(reg, filter, e);
            let i = choose|i: int| 0 <= i < entries.len() && entries[i] == e;
            assert(farewell_laws::spot_of(name, entries[i]) =~= s);
        } else {
            lemma_services_stay(v, name, reg, filter, s.name, s.ip, s.docker, s.client);
        }
    }
    farewell_laws::lemma_said_entries(v, after, name, entries);
    farewell_laws::lemma_said_twice(w, v, after, true);
}

/// Proxy clients that are disconnected leave the connections of services alone.
proof fn lemma_services_stay(
    v: World,
    name: Seq<char>,
    reg: RegisteredView,
    filter: FilterView,
    n: Seq<char>,
    ip: IpAddr,
    docker: Option<Seq<char>>,
    q: ClientView,
)
    requires
        connections::services_wf(v.services),
        q.proxy is None,
    ensures
        ({
            let entries = seqs::concat_map(reg.entries(), filter.selected());
            model::registered(v.services, name) matches Some(r) ==> connections::conn(
                v.with_service(
                    name,
                    ServiceView::Registered(seqs::fold(r, entries, world::disconnect())),
                ).services,
                n,
                ip,
                docker,
                q,
            ) == connections::conn(v.services, n, ip, docker, q)
        }),
{
    let entries = seqs::concat_map(reg.entries(), filter.selected());
    connections::lemma_wf_of(v.services, name);
    if let Some(r) = model::registered(v.services, name) {
        let next = seqs::fold(r, entries, world::disconnect());
        laws::lemma_put_registered(v.services, name, ServiceView::Registered(next), n);
        assert forall|e: EntryView| #[trigger] entries.contains(e) implies e.client != q by {
            laws::lemma_selected(reg, filter, e);
        }
        laws::lemma_not_leaving(r, entries, ip, docker, q);
    }
}

proof fn lemma_chains_clean(w: World, names: Seq<Seq<char>>, filter: FilterView)
    requires
        connections::services_wf(w.services),
    ensures
        is_clean(w, seqs::fold(w, names, world::take_down(filter)), true),
{
    let f = world::take_down(filter);
    let p = |v: World| is_clean(w, v, true);
    lemma_clean_same(w, true);
    assert forall|v: World, name: Seq<char>| p(v) && names.contains(name) implies #[trigger] p(
        f(v, name),
    ) by {
        lemma_chain_clean(v, name, filter);
        lemma_clean_twice(w, v, f(v, name), true);
    }
    seqs::lemma_fold_keeps(w, names, f, p);
}

/// A service that is replaced by one with the same proxy clients loses none of them.
proof fn lemma_put_clean(w: World, name: Seq<char>, si: ServiceView)
    requires
        connections::services_wf(w.services),
        connections::service_wf(si),
        table::lookup(w.services, name) is Some,
        laws::service_reduced(table::lookup(w.services, name)->0, si),
        forall|ip: IpAddr, docker: Option<Seq<char>>, c: ClientView|
            c.proxy is Some && (#[trigger] connections::conn(
                w.services,
                name,
                ip,
                docker,
                c,
            )) is Some ==> (si matches ServiceView::Registered(reg) && connections::replica_conn(
                reg,
                ip,
                docker,
                c,
            ) is Some),
    ensures
        is_clean(w, w.with_service(name, si), false),
{
    let v = w.with_service(name, si);
    laws::lemma_put_reduced(w, name, si);
    assert forall|s: Spot|
        s.client.proxy is Some && chain_laws::at(w.services, s) is Some implies (
    #[trigger] chain_laws::at(v.services, s)) is Some by {
        laws::lemma_put_registered(w.services, name, si, s.name);
        if s.name == name {
            assert(connections::conn(w.services, name, s.ip, s.docker, s.client) is Some);
        }
    }
    farewell_laws::lemma_said_nothing(w, v, false);
    assert forall|n: Seq<char>, ip: IpAddr, docker: Option<Seq<char>>, c: ClientView|
        c.proxy is Some && connections::conn(w.services, n, ip, docker, c) is Some && (
        #[trigger] connections::conn(v.services, n, ip, docker, c)) is None implies is_gone(
        w,
        v,
        ip,
        docker,
        connections::conn(w.services, n, ip, docker, c)->0,
    ) by {
        laws::lemma_put_registered(w.services, name, si, n);
        if n == name {
            assert(connections::conn(w.services, name, ip, docker, c) is Some);
        }
        assert(false);
    }
}

/// Taking chains down leaves no proxy client on a running service that is among those named.
pub(crate) proof fn lemma_none_left(
    w: World,
    names: Seq<Seq<char>>,
    name: Seq<char>,
    ip: IpAddr,
    docker: Option<Seq<char>>,
    c: ClientView,
)
    requires
        connections::services_wf(w.services),
        names.contains(name),
        c.proxy is Some,
    ensures
        connections::conn(
            seqs::fold(w, names, world::take_down(FilterView::All)).services,
            name,
            ip,
            docker,
            c,
        ) is None,
{
    let f = world::take_down(FilterView::All);
    let k = choose|k: int| 0 <= k < names.len() && names[k] == name;
    let inv = |v: World| connections::services_wf(v.services);
    let goal = |v: World| connections::conn(v.services, name, ip, docker, c) is None;
    assert forall|v: World, n: Seq<char>| inv(v) && names.contains(n) implies #[trigger] inv(
        f(v, n),
    ) by {
        laws::lemma_teardown_chain_reduced(v, n, FilterView::All);
    }
    assert forall|v: World| inv(v) implies #[trigger] goal(f(v, names[k])) by {
        laws::law_teardown_chain(v, name, FilterView::All);
    }
    assert forall|v: World, n: Seq<char>|
        inv(v) && goal(v) && names.contains(n) implies goal(#[trigger] f(v, n)) by {
        laws::law_teardown_chain(v, n, FilterView::All);
    }
    seqs::lemma_fold_reaches(w, names, f, inv, k, goal);
}

/// A running service is among those that are, or depend on, a service exactly where it is or does.
pub(crate) proof fn lemma_dependents(w: World, name: Seq<char>, n: Seq<char>)
    requires
        connections::services_wf(w.services),
    ensures
        seqs::concat_map(w.services, world::dependent_on(name)).contains(n) == (match model::registered(
            w.services,
            n,
        ) {
            Some(reg) => n == name || exists|k: int|
                0 <= k < reg.config.dependencies.len() && #[trigger] reg.config.dependencies[k]
                    == name,
            None => false,
        }),
{
    let g = world::dependent_on(name);
    let names = seqs::concat_map(w.services, g);
    if names.contains(n) {
        let i = seqs::lemma_concat_map_from(w.services, g, n);
        let t = g(w.services[i]);
        let j = choose|j: int| 0 <= j < t.len() && t[j] == n;
        assert(t.len() == 1 && j == 0);
        assert(w.services[i].0 == n);
        table::lemma_occurs(w.services, n, i);
        let deps = w.services[i].1.config().dependencies;
        if n != name {
            let k = choose|k: int| 0 <= k < deps.len() && deps[k] == name;
            assert(deps[k] == name);
        }
    }
    if let Some(reg) = model::registered(w.services, n) {
        if n == name || exists|k: int|
            0 <= k < reg.config.dependencies.len() && #[trigger] reg.config.dependencies[k] == name {
            let i = laws::lemma_listed(w.services, n);
            if n != name {
                let k = choose|k: int|
                    0 <= k < reg.config.dependencies.len() && #[trigger] reg.config.dependencies[k]
                        == name;
                assert(reg.config.dependencies.contains(name));
            }
            assert(g(w.services[i]) == seq![n]);
            assert(g(w.services[i])[0] == n);
            assert(g(w.services[i]).contains(n));
            seqs::lemma_concat_map_has(w.services, g, i, n);
        }
    }
}

proof fn lemma_invalidated_clean(w: World, name: Seq<char>, is_failed: bool)
    requires
        connections::services_wf(w.services),
    ensures
        is_clean(w, w.teardown_invalidated_service(name, is_failed), !is_failed),
{
    reveal(World::teardown_invalidated_service);
    let names = seqs::concat_map(w.services, world::dependent_on(name));
    let v = seqs::fold(w, names, world::take_down(FilterView::All));
    lemma_chains_clean(w, names, FilterView::All);
    if is_failed {
        lemma_clean_less(w, v);
        if let Some(reg) = model::registered(v.services, name) {
            let si = ServiceView::Unregistered(reg.config);
            assert forall|ip: IpAddr, docker: Option<Seq<char>>, c: ClientView|
                c.proxy is Some implies (#[trigger] connections::conn(
                v.services,
                name,
                ip,
                docker,
                c,
            )) is None by {
                if connections::conn(v.services, name, ip, docker, c) is Some {
                    assert(laws::conn_kept(
                        connections::conn(w.services, name, ip, docker, c),
                        connections::conn(v.services, name, ip, docker, c),
                    ));
                    lemma_dependents(w, name, name);
                    lemma_none_left(w, names, name, ip, docker, c);
                }
            }
            lemma_put_clean(v, name, si);
            lemma_clean_twice(w, v, v.with_service(name, si), false);
        }
    }
}

proof fn lemma_partial_clean(w: World, name: Seq<char>, place: PlaceView)
    requires
        connections::services_wf(w.services),
    ensures
        is_clean(w, w.teardown_partial_replicas(name, place), true),
        is_clean(
            w,
            w.teardown_partial_replicas(name, place).without_replicas(name, place),
            false,
        ),
{
    reveal(World::teardown_partial_replicas);
    lemma_clean_same(w, true);
    let v = w.teardown_partial_replicas(name, place);
    if let Some(reg) = model::registered(w.services, name) {
        let clients = reg.service_clients(place);
        let f = world::take_down_source();
        let p = |u: World| is_clean(w, u, true);
        assert forall|u: World, c: ClientView| p(u) && clients.contains(c) implies #[trigger] p(
            f(u, c),
        ) by {
            if let Some((ip, docker)) = c.replica {
                lemma_chain_clean(u, c.name, FilterView::On(PlaceView::Replica(ip, docker)));
                lemma_clean_twice(w, u, f(u, c), true);
            }
        }
        seqs::lemma_fold_keeps(w, clients, f, p);
        let u = seqs::fold(w, clients, f);
        lemma_chain_clean(u, name, FilterView::On(place));
        lemma_clean_twice(w, u, v, true);
        laws::law_teardown_chain(u, name, FilterView::On(place));
    }
    lemma_clean_less(w, v);
    connections::lemma_wf_of(v.services, name);
    if let Some(si) = table::lookup(v.services, name) {
        let next = si.without_replicas(place);
        if let ServiceView::Registered(r) = si {
            connections::lemma_without_replicas(r, place);
            laws::lemma_without_replicas_reduced(v, name, place);
            laws::lemma_ports_elsewhere(r, place);
            assert forall|ip: IpAddr, docker: Option<Seq<char>>, c: ClientView|
                c.proxy is Some && (#[trigger] connections::conn(
                    v.services,
                    name,
                    ip,
                    docker,
                    c,
                )) is Some implies (next matches ServiceView::Registered(x)
                && connections::replica_conn(x, ip, docker, c) is Some) by {
                assert(laws::conn_kept(
                    connections::conn(w.services, name, ip, docker, c),
                    connections::conn(v.services, name, ip, docker, c),
                ));
                assert(model::registered(w.services, name) is Some);
                assert(!place.covers(ip, docker));
                let x = r.without_replicas(place);
                assert(connections::replica_conn(x, ip, docker, c) is Some);
                assert(x.has_replica(ip, docker));
                assert(x.is_replica(ip, docker, x.replica_index(ip, docker)));
            }
            lemma_put_clean(v, name, next);
            lemma_clean_twice(w, v, v.with_service(name, next), false);
        } else {
            world::lemma_same_service(v, name);
        }
    }
}

/// Where all connections stay, nothing is said.
proof fn lemma_same_conns_said(w: World, v: World, all: bool)
    requires
        v.orch == w.orch,
        forall|n: Seq<char>, ip: IpAddr, docker: Option<Seq<char>>, c: ClientView| #[trigger]
            connections::conn(v.services, n, ip, docker, c) is Some == (connections::conn(
                w.services,
                n,
                ip,
                docker,
                c,
            ) is Some),
    ensures
        farewell_laws::is_said(w, v, all),
{
    assert forall|s: Spot| chain_laws::at(w.services, s) is Some implies (
    #[trigger] chain_laws::at(v.services, s)) is Some by {
        assert(connections::conn(v.services, s.name, s.ip, s.docker, s.client) is Some);
    }
    farewell_laws::lemma_said_nothing(w, v, all);
}

proof fn lemma_marked_said(v: World, c: ClientView, at: NodeView)
    requires
        connections::services_wf(v.services),
    ensures
        farewell_laws::is_said(v, v.marked_at(c, at, false), true),
{
    setup_laws::law_marked(v, c, at, false);
    lemma_same_conns_said(v, v.marked_at(c, at, false), true);
}

/// A change that stops replicas: connections of services to them are lost with them.
pub open spec fn stops_replicas(change: ChangeView) -> bool {
    change is Removed || change is ReplicasRemoved || change is ReplicaRemoved
}

proof fn lemma_apply_clean(w: World, change: ChangeView)
    requires
        connections::services_wf(w.services),
    ensures
        is_clean(w, w.apply(change), false),
        !stops_replicas(change) ==> is_clean(w, w.apply(change), true),
{
    reveal(World::apply);
    match change {
        ChangeView::Removed { name } => {
            lemma_invalidated_clean(w, name, true);
            let v = w.teardown_invalidated_service(name, true);
            laws::lemma_failed(w, name);
            laws::lemma_del_reduced(v, name);
            let x = World { services: table::del(v.services, name), ..v };
            assert forall|n: Seq<char>, ip: IpAddr, docker: Option<Seq<char>>, c: ClientView|
                #[trigger] connections::conn(x.services, n, ip, docker, c) == connections::conn(
                    v.services,
                    n,
                    ip,
                    docker,
                    c,
                ) by {
                table::lemma_del(v.services, name, n);
            }
            lemma_same_conns_said(v, x, false);
            lemma_clean_twice(w, v, x, false);
        },
        ChangeView::DepsChanged { name } => {
            lemma_invalidated_clean(w, name, false);
        },
        ChangeView::ReachabilityChanged { name } => {
            lemma_chain_clean(w, name, FilterView::All);
        },
        ChangeView::ReplicasRemoved { name, ip } => {
            lemma_invalidated_clean(w, name, true);
            lemma_partial_clean(w, name, PlaceView::Host(ip));
        },
        ChangeView::ReplicaRemoved { name, ip, docker_container } => {
            lemma_invalidated_clean(w, name, true);
            lemma_partial_clean(w, name, PlaceView::Replica(ip, docker_container));
        },
        ChangeView::ProxyDisconnected { ip } => {
            lemma_chains_clean(
                w,
                seqs::concat_map(w.services, world::served_through(ip)),
                FilterView::ByIp(ip),
            );
        },
        ChangeView::ProxyClientTimedOut { name, client } => {
            lemma_chain_clean(w, name, FilterView::ByClient(client));
        },
        ChangeView::BackendChainTimedOut {
            initiator_name,
            initiator_ip,
            initiator_docker,
            first_dependency,
        } => {
            let node = NodeView {
                name: initiator_name,
                ip: initiator_ip,
                docker: initiator_docker,
            };
            let p = |v: World| is_clean(w, v, true);
            lemma_clean_same(w, true);
            assert forall|
                v: World,
                c: ClientView,
                name: Seq<char>,
                ip: IpAddr,
                docker: Option<Seq<char>>,
            |
                p(v) && c.proxy is None implies p(#[trigger] v.decrement_at(c, name, ip, docker)) by {
                lemma_decrement_at_clean(v, c, name, ip, docker);
                lemma_clean_twice(w, v, v.decrement_at(c, name, ip, docker), true);
            }
            assert forall|v: World, c: ClientView, at: NodeView| p(v) && c.proxy is None implies p(
                #[trigger] v.marked_at(c, at, false),
            ) by {
                laws::lemma_marked_reduced(v, c, at);
                setup_laws::law_marked(v, c, at, false);
                lemma_marked_said(v, c, at);
                lemma_clean_twice(w, v, v.marked_at(c, at, false), true);
            }
            laws::lemma_backend_keeps(w, node, first_dependency, p);
        },
    }
    if !stops_replicas(change) {
        lemma_clean_less(w, w.apply(change));
    }
}

/// Bringing services in line with changes ends no connection in silence. Of every connection of a proxy
/// client that was there before and is not there after, the host that it comes from and the host of the
/// replica that it leads to are told to tear down its network, each for the container of its own end, as
/// far as they can be reached and networks are VXLANs; and its identifier is not in use any more. Where no
/// replica stops, the same holds of the connections between services. No host is told anything else: every
/// message that is sent ends a connection that is not there any more, at one of its two ends, and each such
/// end is told once.
pub proof fn law_lost_are_gone(w: World, list: Seq<ChangeView>)
    requires
        connections::services_wf(w.services),
    ensures
        lost_are_gone(w, w.apply_all(list), false),
        told_are_lost(w, w.apply_all(list)),
        farewell_laws::is_said(w, w.apply_all(list), false),
        (forall|i: int| 0 <= i < list.len() ==> !stops_replicas(#[trigger] list[i]))
            ==> lost_are_gone(w, w.apply_all(list), true) && farewell_laws::is_said(
            w,
            w.apply_all(list),
            true,
        ),
{
    let f = world::apply_change();
    let p = |v: World| is_clean(w, v, false);
    lemma_clean_same(w, false);
    assert forall|v: World, x: ChangeView| p(v) && list.contains(x) implies #[trigger] p(
        f(v, x),
    ) by {
        lemma_apply_clean(v, x);
        lemma_clean_twice(w, v, f(v, x), false);
    }
    seqs::lemma_fold_keeps(w, list, f, p);
    if forall|i: int| 0 <= i < list.len() ==> !stops_replicas(#[trigger] list[i]) {
        let q = |v: World| is_clean(w, v, true);
        lemma_clean_same(w, true);
        assert forall|v: World, x: ChangeView| q(v) && list.contains(x) implies #[trigger] q(
            f(v, x),
        ) by {
            let i = choose|i: int| 0 <= i < list.len() && list[i] == x;
            assert(!stops_replicas(list[i]));
            lemma_apply_clean(v, x);
            lemma_clean_twice(w, v, f(v, x), true);
        }
        seqs::lemma_fold_keeps(w, list, f, q);
    }
}

/// The same holds of the chains of one service that are taken down, between services too.
pub proof fn law_chain_lost_are_gone(w: World, name: Seq<char>, filter: FilterView)
    requires
        connections::services_wf(w.services),
    ensures
        lost_are_gone(w, w.teardown_chain(name, filter), true),
        told_are_lost(w, w.teardown_chain(name, filter)),
        farewell_laws::is_said(w, w.teardown_chain(name, filter), true),
{
    lemma_chain_clean(w, name, filter);
}

/// Concluding a chain fails exactly where one of its edges failed. Then its other edges are undone, and
/// every connection that ends with that is gone with its network. Else nothing changes, and the address
/// is that of the first edge that has one.
pub proof fn law_chain_concluded(w: World, outcomes: Seq<OutcomeView>)
    requires
        connections::services_wf(w.services),
    ensures
        ({
            let (after, result) = w.finish_chain(outcomes);
            let failed = exists|i: int| 0 <= i < outcomes.len() && (#[trigger] outcomes[i]) is Failed;
            &&& lost_are_gone(w, after, true)
            &&& told_are_lost(w, after)
            &&& farewell_laws::is_said(w, after, true)
            &&& failed ==> result == Err::<Option<Ipv4Addr>, _>(RequestError::SetupFailed)
            &&& !failed ==> after == w && match result {
                Ok(Some(addr)) => exists|i: int|
                    {
                        &&& 0 <= i < outcomes.len()
                        &&& (#[trigger] outcomes[i])->Success_0.proxy_upstream == Some(addr)
                        &&& forall|j: int|
                            0 <= j < i ==> (
                            #[trigger] outcomes[j])->Success_0.proxy_upstream is None
                    },
                Ok(None) => forall|j: int|
                    0 <= j < outcomes.len() ==> (
                    #[trigger] outcomes[j])->Success_0.proxy_upstream is None,
                Err(_) => false,
            }
        }),
{
    let f = chain_setup::undo_edge();
    let p = |v: World| is_clean(w, v, true);
    lemma_clean_same(w, true);
    assert forall|v: World, o: OutcomeView| p(v) && outcomes.contains(o) implies #[trigger] p(
        f(v, o),
    ) by {
        if let OutcomeView::Success(e) = o {
            lemma_decrement_clean(v, e.client, e.server_name);
            lemma_decrement_at_clean(v, e.client, e.server_name, e.replica.0, e.replica.1);
            lemma_clean_twice(w, v, f(v, o), true);
        }
    }
    seqs::lemma_fold_keeps(w, outcomes, f, p);
    if exists|i: int| 0 <= i < outcomes.len() && (#[trigger] outcomes[i]) is Failed {
        let i = choose|i: int| 0 <= i < outcomes.len() && (#[trigger] outcomes[i]) is Failed;
        assert(outcomes[i] == OutcomeView::Failed);
        assert(outcomes.contains(OutcomeView::Failed));
    } else {
        if outcomes.contains(OutcomeView::Failed) {
            let i = choose|i: int| 0 <= i < outcomes.len() && outcomes[i] == OutcomeView::Failed;
            assert(outcomes[i] is Failed);
        }
        lemma_first(outcomes);
    }
}

/// Where a chain's address comes from.
proof fn lemma_first(outcomes: Seq<OutcomeView>)
    requires
        forall|i: int| 0 <= i < outcomes.len() ==> (#[trigger] outcomes[i]) is Success,
    ensures
        match chain_setup::first_upstream(outcomes) {
            Some(addr) => exists|i: int|
                {
                    &&& 0 <= i < outcomes.len()
                    &&& (#[trigger] outcomes[i])->Success_0.proxy_upstream == Some(addr)
                    &&& forall|j: int|
                        0 <= j < i ==> (#[trigger] outcomes[j])->Success_0.proxy_upstream is None
                },
            None => forall|j: int|
                0 <= j < outcomes.len() ==> (
                #[trigger] outcomes[j])->Success_0.proxy_upstream is None,
        },
    decreases outcomes.len(),
{
    if outcomes.len() > 0 {
        let rest = outcomes.drop_first();
        assert(outcomes[0] is Success);
        if outcomes[0]->Success_0.proxy_upstream is None {
            assert forall|i: int| 0 <= i < rest.len() implies (#[trigger] rest[i]) is Success by {
                assert(rest[i] == outcomes[i + 1]);
            }
            lemma_first(rest);
            match chain_setup::first_upstream(rest) {
                Some(addr) => {
                    let i = choose|i: int|
                        {
                            &&& 0 <= i < rest.len()
                            &&& (#[trigger] rest[i])->Success_0.proxy_upstream == Some(addr)
                            &&& forall|j: int|
                                0 <= j < i ==> (
                                #[trigger] rest[j])->Success_0.proxy_upstream is None
                        };
                    assert(outcomes[i + 1] == rest[i]);
                    assert forall|j: int| 0 <= j < i + 1 implies (
                    #[trigger] outcomes[j])->Success_0.proxy_upstream is None by {
                        if j > 0 {
                            assert(rest[j - 1] == outcomes[j]);
                        }
                    }
                },
                None => {
                    assert forall|j: int| 0 <= j < outcomes.len() implies (
                    #[trigger] outcomes[j])->Success_0.proxy_upstream is None by {
                        if j > 0 {
                            assert(rest[j - 1] == outcomes[j]);
                        }
                    }
                },
            }
        }
    }
}

} // verus!
