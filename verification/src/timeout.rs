//! Connections that have not been used for too long.
use crate::addr::IpAddr;
use crate::orchestrator::Orchestrator;
use crate::seqs;
use crate::services::changes;
use crate::services::changes::{apply_changes, secs_to_nanos, ServiceChange};
use crate::services::clients::ClientView;
use crate::services::connections;
use crate::services::laws;
use crate::services::model;
use crate::services::model::{EntryView, RegisteredView, ServiceView, ServicesView};
use crate::services::service_info::{RegisteredServiceInfo, ServiceInfo, Services};
use crate::services::world;
use crate::services::world::{ChangeView, FilterView, NodeView, World};
use crate::table;
use vstd::prelude::*;

verus! {

/// The time after which connections that enter at a service end, in nanoseconds. A service that is
/// no entry point, or that is configured with zero, has none.
pub open spec fn limit(si: ServiceView) -> Option<nat> {
    match si.config().timeout {
        Some(secs) => if secs > 0 {
            Some(changes::nanos(secs))
        } else {
            None
        },
        None => None,
    }
}

/// The limit of a service by name.
pub open spec fn limit_of(services: ServicesView, name: Seq<char>) -> Option<nat> {
    match table::lookup(services, name) {
        Some(si) => limit(si),
        None => None,
    }
}

/// The time since `latest`; none where it lies ahead of `now`.
pub open spec fn elapsed(latest: nat, now: nat) -> nat {
    if now >= latest {
        (now - latest) as nat
    } else {
        0
    }
}

/// The time left of `limit` since `latest`.
pub open spec fn remaining(limit: nat, latest: nat, now: nat) -> nat {
    if limit >= elapsed(latest, now) {
        (limit - elapsed(latest, now)) as nat
    } else {
        0
    }
}

/// A function that reports the proxy clients of a service that timed out.
pub open spec fn expired_on(now: nat) -> spec_fn((Seq<char>, ServiceView)) -> Seq<ChangeView> {
    |s: (Seq<char>, ServiceView)|
        match (limit(s.1), s.1) {
            (Some(limit), ServiceView::Registered(reg)) => reg.expired(limit, now).map_values(
                changes::timed_out(s.0),
            ),
            _ => Seq::empty(),
        }
}

/// A function that reports the entry of a backend chain to service `name` that timed out. The limit
/// is that of the service that triggered the chain.
pub open spec fn expired_entry(
    services: ServicesView,
    name: Seq<char>,
    now: nat,
) -> spec_fn((ClientView, nat)) -> Seq<ChangeView> {
    |e: (ClientView, nat)|
        match (limit_of(services, e.0.name), e.0.replica) {
            (Some(limit), Some((ip, docker))) => if elapsed(e.1, now) >= limit {
                seq![
                    ChangeView::BackendChainTimedOut {
                        initiator_name: e.0.name,
                        initiator_ip: ip,
                        initiator_docker: docker,
                        first_dependency: name,
                    },
                ]
            } else {
                Seq::empty()
            },
            _ => Seq::empty(),
        }
}

/// A function that reports the entries of backend chains to a service that timed out.
pub open spec fn expired_entries_on(
    services: ServicesView,
    now: nat,
) -> spec_fn((Seq<char>, ServiceView)) -> Seq<ChangeView> {
    |s: (Seq<char>, ServiceView)|
        match s.1 {
            ServiceView::Registered(reg) => seqs::concat_map(
                reg.backend_entries(),
                expired_entry(services, s.0, now),
            ),
            ServiceView::Unregistered(_) => Seq::empty(),
        }
}

/// What timed out: proxy clients, then chains that replicas triggered.
pub open spec fn timed_out(services: ServicesView, now: nat) -> Seq<ChangeView> {
    seqs::concat_map(services, expired_on(now)) + seqs::concat_map(
        services,
        expired_entries_on(services, now),
    )
}

/// The time after which connections that enter at a service end.
fn limit_for(si: &ServiceInfo) -> (r: Option<u128>)
    ensures
        match r {
            Some(nanos) => limit(si@) == Some(nanos as nat),
            None => limit(si@) is None,
        },
{
    match si.timeout() {
        Some(timeout) => if timeout > 0 {
            Some(secs_to_nanos(timeout))
        } else {
            None
        },
        None => None,
    }
}

/// The limit of a service by name.
fn limit_by_name(services: &Services, name: &String) -> (r: Option<u128>)
    ensures
        match r {
            Some(nanos) => limit_of(services@, name@) == Some(nanos as nat),
            None => limit_of(services@, name@) is None,
        },
{
    match services.get(name) {
        Some(si) => limit_for(si),
        None => None,
    }
}

/// Reports the proxy clients that timed out.
fn collect_proxy_clients(services: &Services, now: u128) -> (r: Vec<ServiceChange>)
    ensures
        r.deep_view() == seqs::concat_map(services@, expired_on(now as nat)),
{
    let ghost f = expired_on(now as nat);
    let mut r: Vec<ServiceChange> = Vec::new();
    let mut i: usize = 0;
    assert(r.deep_view() =~= Seq::empty());
    assert(services@.take(0) =~= Seq::empty());
    while i < services.len()
        invariant
            i <= services@.len(),
            f == expired_on(now as nat),
            r.deep_view() == seqs::concat_map(services@.take(i as int), f),
        decreases services@.len() - i,
    {
        let ghost before = r.deep_view();
        proof {
            seqs::lemma_concat_map_step(services@, f, i as int);
            assert(before + Seq::<ChangeView>::empty() =~= before);
        }
        let si = services.value_at(i);
        if let Some(timeout) = limit_for(si) {
            if let ServiceInfo::Registered(reg) = si {
                changes::push_timed_out(
                    services.key_at(i),
                    reg.expired_proxy_clients(timeout, now),
                    &mut r,
                );
            }
        }
        i = i + 1;
    }
    assert(services@.take(i as int) =~= services@);
    r
}

/// Reports the entries of backend chains to a service that timed out.
fn push_expired_entries(
    name: &String,
    reg: &RegisteredServiceInfo,
    services: &Services,
    now: u128,
    list: &mut Vec<ServiceChange>,
)
    ensures
        final(list).deep_view() == old(list).deep_view() + seqs::concat_map(
            reg@.backend_entries(),
            expired_entry(services@, name@, now as nat),
        ),
{
    let ghost f = expired_entry(services@, name@, now as nat);
    let ghost start = list.deep_view();
    let ghost all = reg@.backend_entries();
    let ghost g = |e: (ClientView, u128)| (e.0, e.1 as nat);
    let entries = reg.backend_entry_clients();
    let mut i: usize = 0;
    assert(all.take(0) =~= Seq::empty());
    assert(start + Seq::<ChangeView>::empty() =~= start);
    assert(all.len() == entries.deep_view().map_values(g).len());
    assert(forall|j: int|
        0 <= j < entries.len() ==> #[trigger] all[j] == (
            entries[j].0@,
            entries[j].1 as nat,
        )) by {
        assert forall|j: int| 0 <= j < entries.len() implies #[trigger] all[j] == (
            entries[j].0@,
            entries[j].1 as nat,
        ) by {
            assert(entries.deep_view()[j] == (entries[j].0@, entries[j].1));
        }
    }
    while i < entries.len()
        invariant
            i <= entries.len(),
            all.len() == entries.len(),
            f == expired_entry(services@, name@, now as nat),
            forall|j: int|
                0 <= j < entries.len() ==> #[trigger] all[j] == (entries[j].0@, entries[j].1 as nat),
            list.deep_view() == start + seqs::concat_map(all.take(i as int), f),
        decreases entries.len() - i,
    {
        let ghost before = list.deep_view();
        let ghost so_far = seqs::concat_map(all.take(i as int), f);
        let ghost step = f(all[i as int]);
        proof {
            seqs::lemma_concat_map_step(all, f, i as int);
            assert((start + so_far) + step =~= start + (so_far + step));
            assert(before + Seq::<ChangeView>::empty() =~= before);
        }
        let (client, latest) = &entries[i];
        if let Some(timeout) = limit_by_name(services, client.name()) {
            if now.saturating_sub(*latest) >= timeout {
                if let Some((initiator_ip, initiator_docker)) = client.replica_identity() {
                    list.push(
                        ServiceChange::BackendChainTimedOut {
                            initiator_name: client.name().clone(),
                            initiator_ip,
                            initiator_docker,
                            first_dependency: name.clone(),
                        },
                    );
                    assert(list.deep_view() =~= before + step);
                }
            }
        }
        i = i + 1;
    }
    assert(all.take(i as int) =~= all);
}

/// Finds out which proxy clients and which chains that replicas triggered timed out.
pub fn collect_timed_out_clients(services: &Services, now: u128) -> (r: Vec<ServiceChange>)
    ensures
        r.deep_view() == timed_out(services@, now as nat),
{
    let mut r = collect_proxy_clients(services, now);
    let ghost start = r.deep_view();
    let ghost f = expired_entries_on(services@, now as nat);
    let mut i: usize = 0;
    assert(services@.take(0) =~= Seq::empty());
    assert(start + Seq::<ChangeView>::empty() =~= start);
    while i < services.len()
        invariant
            i <= services@.len(),
            f == expired_entries_on(services@, now as nat),
            r.deep_view() == start + seqs::concat_map(services@.take(i as int), f),
        decreases services@.len() - i,
    {
        let ghost before = r.deep_view();
        let ghost so_far = seqs::concat_map(services@.take(i as int), f);
        let ghost step = f(services@[i as int]);
        proof {
            seqs::lemma_concat_map_step(services@, f, i as int);
            assert((start + so_far) + step =~= start + (so_far + step));
            assert(before + Seq::<ChangeView>::empty() =~= before);
        }
        if let ServiceInfo::Registered(reg) = services.value_at(i) {
            push_expired_entries(services.key_at(i), reg, services, now, &mut r);
        }
        i = i + 1;
    }
    assert(services@.take(i as int) =~= services@);
    r
}

/// Takes down what timed out.
pub fn apply_timeouts(services: &mut Services, orchestrator: &mut Orchestrator, now: u128)
    ensures
        (World { services: final(services)@, orch: final(orchestrator)@ }) == (World {
            services: old(services)@,
            orch: old(orchestrator)@,
        }).apply_all(timed_out(old(services)@, now as nat)),
{
    let list = collect_timed_out_clients(services, now);
    apply_changes(list, services, None, orchestrator);
}

/// Time `d` is the limit of service `i`, or what is left of it for one of its proxy clients.
pub open spec fn is_entry_deadline(services: ServicesView, now: nat, i: int, d: nat) -> bool {
    match limit(services[i].1) {
        Some(limit) => {
            ||| d == limit
            ||| match services[i].1 {
                ServiceView::Registered(reg) => exists|j: int|
                    0 <= j < reg.entries().len() && (#[trigger] reg.entries()[j]).client.proxy is Some
                        && d == reg.entries()[j].info.remaining(limit, now),
                ServiceView::Unregistered(_) => false,
            }
        },
        None => false,
    }
}

/// Time `d` is what is left of the initiator's limit for a backend chain to service `i`.
pub open spec fn is_backend_deadline(services: ServicesView, now: nat, i: int, d: nat) -> bool {
    match services[i].1 {
        ServiceView::Registered(reg) => exists|j: int|
            0 <= j < reg.backend_entries().len() && is_chain_deadline(
                services,
                #[trigger] reg.backend_entries()[j],
                now,
                d,
            ),
        ServiceView::Unregistered(_) => false,
    }
}

/// Time `d` is what is left of the initiator's limit for a backend chain.
pub open spec fn is_chain_deadline(
    services: ServicesView,
    e: (ClientView, nat),
    now: nat,
    d: nat,
) -> bool {
    match limit_of(services, e.0.name) {
        Some(limit) => d == remaining(limit, e.1, now),
        None => false,
    }
}

/// Time `d` is one to look at, as far as entries of the first `a` services and backend chains to
/// the first `b` services go.
pub open spec fn is_deadline_among(
    services: ServicesView,
    now: nat,
    default: nat,
    a: int,
    b: int,
    d: nat,
) -> bool {
    ||| d == default
    ||| exists|i: int| 0 <= i < a && #[trigger] is_entry_deadline(services, now, i, d)
    ||| exists|i: int| 0 <= i < b && #[trigger] is_backend_deadline(services, now, i, d)
}

/// Time `d` is one after which to look for connections that timed out: the default, the limit of a
/// service or what is left of one.
pub open spec fn is_deadline(services: ServicesView, now: nat, default: nat, d: nat) -> bool {
    is_deadline_among(services, now, default, services.len() as int, services.len() as int, d)
}

/// The least time left for a backend chain to a service, if below `bound`.
fn nearest_backend_expiry(
    reg: &RegisteredServiceInfo,
    services: &Services,
    now: u128,
    bound: u128,
) -> (r: u128)
    ensures
        r <= bound,
        r == bound || exists|j: int|
            0 <= j < reg@.backend_entries().len() && is_chain_deadline(
                services@,
                #[trigger] reg@.backend_entries()[j],
                now as nat,
                r as nat,
            ),
        forall|j: int, d: nat|
            0 <= j < reg@.backend_entries().len() && #[trigger] is_chain_deadline(
                services@,
                reg@.backend_entries()[j],
                now as nat,
                d,
            ) ==> r <= d,
{
    let ghost all = reg@.backend_entries();
    let ghost g = |e: (ClientView, u128)| (e.0, e.1 as nat);
    let entries = reg.backend_entry_clients();
    assert(all.len() == entries.deep_view().map_values(g).len());
    assert forall|j: int| 0 <= j < entries.len() implies #[trigger] all[j] == (
        entries[j].0@,
        entries[j].1 as nat,
    ) by {
        assert(entries.deep_view()[j] == (entries[j].0@, entries[j].1));
    }
    let mut r = bound;
    let mut i: usize = 0;
    while i < entries.len()
        invariant
            i <= entries.len(),
            all.len() == entries.len(),
            forall|j: int|
                0 <= j < entries.len() ==> #[trigger] all[j] == (entries[j].0@, entries[j].1 as nat),
            r <= bound,
            r == bound || exists|j: int|
                0 <= j < i && is_chain_deadline(
                    services@,
                    #[trigger] all[j],
                    now as nat,
                    r as nat,
                ),
            forall|j: int, d: nat|
                0 <= j < i && #[trigger] is_chain_deadline(services@, all[j], now as nat, d) ==> r
                    <= d,
        decreases entries.len() - i,
    {
        let (client, latest) = &entries[i];
        assert(all[i as int] == (client@, *latest as nat));
        if let Some(timeout) = limit_by_name(services, client.name()) {
            let expiry = timeout.saturating_sub(now.saturating_sub(*latest));
            assert(is_chain_deadline(services@, all[i as int], now as nat, expiry as nat));
            if expiry < r {
                r = expiry;
            }
        }
        i = i + 1;
    }
    r
}

/// The time until the next connection may time out, at most `default` seconds. The limits
/// themselves count too, so that connections made meanwhile are looked at in time.
pub fn nearest_timeout(services: &Services, now: u128, default: u64) -> (r: u128)
    ensures
        is_deadline(services@, now as nat, changes::nanos(default), r as nat),
        forall|d: nat|
            is_deadline(services@, now as nat, changes::nanos(default), d) ==> r <= d,
{
    let mut nearest = secs_to_nanos(default);
    let mut i: usize = 0;
    while i < services.len()
        invariant
            i <= services@.len(),
            is_deadline_among(
                services@,
                now as nat,
                changes::nanos(default),
                i as int,
                0,
                nearest as nat,
            ),
            nearest <= changes::nanos(default),
            forall|k: int, d: nat|
                0 <= k < i && #[trigger] is_entry_deadline(services@, now as nat, k, d) ==> nearest
                    <= d,
        decreases services@.len() - i,
    {
        let si = services.value_at(i);
        let ghost before = nearest;
        if let Some(timeout) = limit_for(si) {
            assert(is_entry_deadline(services@, now as nat, i as int, timeout as nat));
            if timeout < nearest {
                nearest = timeout;
            }
            if let ServiceInfo::Registered(reg) = si {
                if let Some(expiry) = reg.nearest_proxy_expiry(timeout, now) {
                    assert(is_entry_deadline(services@, now as nat, i as int, expiry as nat));
                    if expiry < nearest {
                        nearest = expiry;
                    }
                }
            }
        }
        assert forall|d: nat| #[trigger]
            is_entry_deadline(services@, now as nat, i as int, d) implies nearest <= d by {}
        i = i + 1;
    }
    let mut i: usize = 0;
    while i < services.len()
        invariant
            i <= services@.len(),
            is_deadline_among(
                services@,
                now as nat,
                changes::nanos(default),
                services@.len() as int,
                i as int,
                nearest as nat,
            ),
            nearest <= changes::nanos(default),
            forall|k: int, d: nat|
                0 <= k < services@.len() && #[trigger] is_entry_deadline(
                    services@,
                    now as nat,
                    k,
                    d,
                ) ==> nearest <= d,
            forall|k: int, d: nat|
                0 <= k < i && #[trigger] is_backend_deadline(services@, now as nat, k, d)
                    ==> nearest <= d,
        decreases services@.len() - i,
    {
        if let ServiceInfo::Registered(reg) = services.value_at(i) {
            let expiry = nearest_backend_expiry(reg, services, now, nearest);
            if expiry < nearest {
                assert(is_backend_deadline(services@, now as nat, i as int, expiry as nat));
                nearest = expiry;
            }
        }
        i = i + 1;
    }
    nearest
}

/// Whether the connection of a client at a location timed out.
pub open spec fn is_expired(
    services: ServicesView,
    name: Seq<char>,
    ip: IpAddr,
    docker: Option<Seq<char>>,
    c: ClientView,
    now: nat,
) -> bool {
    match (limit_of(services, name), connections::conn(services, name, ip, docker, c)) {
        (Some(limit), Some(ci)) => ci.idle(now) >= limit,
        _ => false,
    }
}

/// Whether a connection of a client to a service timed out.
pub open spec fn is_expired_somewhere(
    services: ServicesView,
    name: Seq<char>,
    c: ClientView,
    now: nat,
) -> bool {
    exists|ip: IpAddr, docker: Option<Seq<char>>| #[trigger]
        is_expired(services, name, ip, docker, c, now)
}

/// A proxy client is reported as timed out exactly where its connection timed out.
proof fn lemma_reported(
    services: ServicesView,
    name: Seq<char>,
    reg: RegisteredView,
    limit: nat,
    now: nat,
    c: ClientView,
)
    requires
        connections::services_wf(services),
        model::registered(services, name) == Some(reg),
        limit_of(services, name) == Some(limit),
    ensures
        forall|ip: IpAddr, docker: Option<Seq<char>>|
            c.proxy is Some && #[trigger] is_expired(services, name, ip, docker, c, now)
                ==> reg.expired(limit, now).contains(c),
        reg.expired(limit, now).contains(c) ==> c.proxy is Some && is_expired_somewhere(
            services,
            name,
            c,
            now,
        ),
{
    connections::lemma_wf_of(services, name);
    let f = model::expired_client(limit, now);
    assert forall|ip: IpAddr, docker: Option<Seq<char>>|
        c.proxy is Some && #[trigger] is_expired(
            services,
            name,
            ip,
            docker,
            c,
            now,
        ) implies reg.expired(limit, now).contains(c) by {
        let info = connections::replica_conn(reg, ip, docker, c)->0;
        let port = reg.replicas[reg.replica_index(ip, docker)].port;
        let e = EntryView { client: c, info, ip, docker_container: docker, port };
        connections::lemma_entries(reg, e);
        let k = choose|k: int| 0 <= k < reg.entries().len() && reg.entries()[k] == e;
        assert(f(e)[0] == c);
        assert(f(reg.entries()[k]).contains(c));
        seqs::lemma_concat_map_has(reg.entries(), f, k, c);
    }
    if reg.expired(limit, now).contains(c) {
        let k = seqs::lemma_concat_map_from(reg.entries(), f, c);
        let e = reg.entries()[k];
        assert(reg.entries().contains(e));
        connections::lemma_entries(reg, e);
        assert(f(e)[0] == e.client);
        assert(e.client == c);
        assert(is_expired(services, name, e.ip, e.docker_container, c, now));
    }
}

/// A change that is due for timeouts is the end of a proxy client that timed out, or of a backend
/// chain.
proof fn lemma_due(services: ServicesView, now: nat, change: ChangeView)
    requires
        connections::services_wf(services),
        timed_out(services, now).contains(change),
    ensures
        match change {
            ChangeView::ProxyClientTimedOut { name, client } => client.proxy is Some
                && is_expired_somewhere(services, name, client, now),
            ChangeView::BackendChainTimedOut { .. } => true,
            _ => false,
        },
{
    let first = seqs::concat_map(services, expired_on(now));
    let second = seqs::concat_map(services, expired_entries_on(services, now));
    let k = choose|k: int|
        0 <= k < (first + second).len() && (first + second)[k] == change;
    if k < first.len() {
        assert(first[k] == change);
        assert(first.contains(change));
        let i = seqs::lemma_concat_map_from(services, expired_on(now), change);
        let s = services[i];
        table::lemma_occurs(services, s.0, i);
        let m = expired_on(now)(s);
        let j = choose|j: int| 0 <= j < m.len() && m[j] == change;
        assert(m.len() > 0);
        let reg = s.1->Registered_0;
        let limit = limit(s.1)->0;
        let all = reg.expired(limit, now);
        assert(m == all.map_values(changes::timed_out(s.0)));
        assert(m[j] == changes::timed_out(s.0)(all[j]));
        assert(all.contains(all[j]));
        lemma_reported(services, s.0, reg, limit, now, all[j]);
        assert(change == ChangeView::ProxyClientTimedOut { name: s.0, client: all[j] });
    } else {
        assert(second[k - first.len()] == change);
        assert(second.contains(change));
        let i = seqs::lemma_concat_map_from(
            services,
            expired_entries_on(services, now),
            change,
        );
        let s = services[i];
        let reg = s.1->Registered_0;
        let g = expired_entry(services, s.0, now);
        let j = seqs::lemma_concat_map_from(reg.backend_entries(), g, change);
        let t = g(reg.backend_entries()[j]);
        let x = choose|x: int| 0 <= x < t.len() && t[x] == change;
        assert(t[x] == change);
        assert(t.len() == 1);
        assert(t[0] is BackendChainTimedOut);
        assert(change is BackendChainTimedOut);
    }
}

/// Taking down what timed out disconnects exactly the proxy clients whose connection timed out:
/// every other proxy client keeps its connection as it is.
pub proof fn law_timeouts(w: World, now: nat)
    requires
        connections::services_wf(w.services),
    ensures
        laws::reduced(w, w.apply_all(timed_out(w.services, now))),
        forall|name: Seq<char>, ip: IpAddr, docker: Option<Seq<char>>, c: ClientView|
            c.proxy is Some ==> #[trigger] connections::conn(
                w.apply_all(timed_out(w.services, now)).services,
                name,
                ip,
                docker,
                c,
            ) == (if is_expired(w.services, name, ip, docker, c, now) {
                None
            } else {
                connections::conn(w.services, name, ip, docker, c)
            }),
{
    let list = timed_out(w.services, now);
    let after = w.apply_all(list);
    laws::law_changes_reduce(w, list);
    assert forall|name: Seq<char>, ip: IpAddr, docker: Option<Seq<char>>, c: ClientView|
        c.proxy is Some implies #[trigger] connections::conn(after.services, name, ip, docker, c)
        == (if is_expired(w.services, name, ip, docker, c, now) {
        None
    } else {
        connections::conn(w.services, name, ip, docker, c)
    }) by {
        if is_expired(w.services, name, ip, docker, c, now) {
            lemma_expired_ends(w, now, name, ip, docker, c);
        } else {
            lemma_unexpired_stays(w, now, name, ip, docker, c);
        }
    }
}

proof fn lemma_expired_ends(
    w: World,
    now: nat,
    name: Seq<char>,
    ip: IpAddr,
    docker: Option<Seq<char>>,
    c: ClientView,
)
    requires
        connections::services_wf(w.services),
        c.proxy is Some,
        is_expired(w.services, name, ip, docker, c, now),
    ensures
        connections::conn(
            w.apply_all(timed_out(w.services, now)).services,
            name,
            ip,
            docker,
            c,
        ) is None,
{
    let list = timed_out(w.services, now);
    let change = ChangeView::ProxyClientTimedOut { name, client: c };
    let reg = model::registered(w.services, name)->0;
    let limit = limit_of(w.services, name)->0;
    lemma_reported(w.services, name, reg, limit, now, c);
    let i = laws::lemma_listed(w.services, name);
    let f = expired_on(now);
    let all = reg.expired(limit, now);
    let k = choose|k: int| 0 <= k < all.len() && all[k] == c;
    assert(all.map_values(changes::timed_out(name))[k] == change);
    assert(f(w.services[i]).contains(change));
    seqs::lemma_concat_map_has(w.services, f, i, change);
    let first = seqs::concat_map(w.services, f);
    let j = choose|j: int| 0 <= j < first.len() && first[j] == change;
    assert(list[j] == change);
    assert(list.contains(change));
    let goal = |v: World| connections::conn(v.services, name, ip, docker, c) is None;
    assert forall|v: World| connections::services_wf(v.services) implies #[trigger] goal(
        v.apply(change),
    ) by {
        reveal(World::apply);
        laws::law_teardown_chain(v, name, FilterView::ByClient(c));
    }
    assert forall|a: World, b: World| goal(a) && #[trigger] laws::reduced(a, b) implies goal(b) by {
        assert(laws::conn_kept(
            connections::conn(a.services, name, ip, docker, c),
            connections::conn(b.services, name, ip, docker, c),
        ));
    }
    laws::lemma_change_reaches(w, list, change, goal);
}

proof fn lemma_unexpired_stays(
    w: World,
    now: nat,
    name: Seq<char>,
    ip: IpAddr,
    docker: Option<Seq<char>>,
    c: ClientView,
)
    requires
        connections::services_wf(w.services),
        c.proxy is Some,
        !is_expired(w.services, name, ip, docker, c, now),
    ensures
        connections::conn(
            w.apply_all(timed_out(w.services, now)).services,
            name,
            ip,
            docker,
            c,
        ) == connections::conn(w.services, name, ip, docker, c),
{
    let list = timed_out(w.services, now);
    let f = world::apply_change();
    let before = connections::conn(w.services, name, ip, docker, c);
    let p = |v: World|
        connections::services_wf(v.services) && connections::conn(v.services, name, ip, docker, c)
            == before;
    assert forall|v: World, x: ChangeView| p(v) && list.contains(x) implies #[trigger] p(
        f(v, x),
    ) by {
        reveal(World::apply);
        lemma_due(w.services, now, x);
        laws::lemma_apply_reduced(v, x);
        match x {
            ChangeView::ProxyClientTimedOut { name: n, client } => {
                laws::law_teardown_chain(v, n, FilterView::ByClient(client));
                if n == name && client == c && before is Some {
                    let (a, b) = choose|a: IpAddr, b: Option<Seq<char>>| #[trigger]
                        is_expired(w.services, n, a, b, client, now);
                    connections::lemma_wf_of(w.services, name);
                    let reg = model::registered(w.services, name)->0;
                    laws::lemma_one_place(reg, c, a, b);
                    laws::lemma_one_place(reg, c, ip, docker);
                }
            },
            ChangeView::BackendChainTimedOut {
                initiator_name,
                initiator_ip,
                initiator_docker,
                first_dependency,
            } => {
                let node = NodeView {
                    name: initiator_name,
                    ip: initiator_ip,
                    docker: initiator_docker,
                };
                laws::lemma_proxies_kept(v);
                laws::lemma_backend_keeps(
                    v,
                    node,
                    first_dependency,
                    |u: World|
                        connections::services_wf(u.services) && laws::same_proxy_conns(
                            v.services,
                            u.services,
                        ),
                );
            },
            _ => {},
        }
    }
    seqs::lemma_fold_keeps(w, list, f, p);
}

/// Before the nearest timeout nothing times out: nothing is due at any instant until then.
pub proof fn law_nearest_timeout(
    services: ServicesView,
    now: nat,
    default: nat,
    nearest: nat,
    t: nat,
)
    requires
        forall|d: nat| is_deadline(services, now, default, d) ==> nearest <= d,
        now <= t < now + nearest,
    ensures
        timed_out(services, t).len() == 0,
{
    let list = timed_out(services, t);
    let first = seqs::concat_map(services, expired_on(t));
    let second = seqs::concat_map(services, expired_entries_on(services, t));
    if list.len() > 0 {
        let change = list[0];
        if first.len() > 0 {
            assert(first[0] == change);
            assert(first.contains(change));
            let i = seqs::lemma_concat_map_from(services, expired_on(t), change);
            let s = services[i];
            let reg = s.1->Registered_0;
            let limit = limit(s.1)->0;
            let all = reg.expired(limit, t);
            assert(all.len() > 0);
            assert(all.contains(all[0]));
            let g = model::expired_client(limit, t);
            let k = seqs::lemma_concat_map_from(reg.entries(), g, all[0]);
            let e = reg.entries()[k];
            assert(g(e).len() > 0);
            let d = e.info.remaining(limit, now);
            assert(is_entry_deadline(services, now, i, d));
            assert(is_deadline(services, now, default, d));
        } else {
            assert(second[0] == change);
            assert(second.contains(change));
            let i = seqs::lemma_concat_map_from(
                services,
                expired_entries_on(services, t),
                change,
            );
            let s = services[i];
            let reg = s.1->Registered_0;
            let g = expired_entry(services, s.0, t);
            let j = seqs::lemma_concat_map_from(reg.backend_entries(), g, change);
            let e = reg.backend_entries()[j];
            assert(g(e).len() > 0);
            let limit = limit_of(services, e.0.name)->0;
            let d = remaining(limit, e.1, now);
            assert(is_chain_deadline(services, reg.backend_entries()[j], now, d));
            assert(is_backend_deadline(services, now, i, d));
            assert(is_deadline(services, now, default, d));
        }
    }
}

} // verus!
