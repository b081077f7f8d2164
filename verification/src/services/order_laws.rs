//! Replicas keep their order.
use crate::addr::IpAddr;
use crate::nullnet_grpc_impl;
use crate::seqs;
use crate::services::changes;
use crate::services::changes::OfferView;
use crate::services::connections;
use crate::services::laws;
use crate::services::laws::Site;
use crate::services::model;
use crate::services::model::{PlaceView, ReplicaView, ServiceView, ServicesView};
use crate::services::update_laws;
use crate::services::world;
use crate::services::world::{ChangeView, World};
use crate::table;
use vstd::prelude::*;

verus! {

/// A function that keeps the sites on other hosts than `host`.
pub open spec fn not_on(host: IpAddr) -> spec_fn(Site) -> Seq<Site> {
    |s: Site|
        if s.0 == host {
            Seq::empty()
        } else {
            seq![s]
        }
}

/// Where the replicas of service `name` run on other hosts than `host`, in their order.
pub open spec fn sites_elsewhere(services: ServicesView, name: Seq<char>, host: IpAddr) -> Seq<
    Site,
> {
    seqs::concat_map(laws::sites_at(services, name), not_on(host))
}

/// The sites elsewhere of a list of replicas.
spec fn elsewhere(replicas: Seq<ReplicaView>, host: IpAddr) -> Seq<Site> {
    seqs::concat_map(replicas.map_values(laws::site_of()), not_on(host))
}

/// The sites elsewhere, with one more replica.
proof fn lemma_one_more(replicas: Seq<ReplicaView>, host: IpAddr, r: ReplicaView)
    ensures
        elsewhere(replicas.push(r), host) == elsewhere(replicas, host) + not_on(host)(
            laws::site_of()(r),
        ),
{
    let more = replicas.push(r).map_values(laws::site_of());
    assert(more.drop_last() =~= replicas.map_values(laws::site_of()));
    assert(more.last() == laws::site_of()(r));
}

/// Replicas on a host that stop leave the sites elsewhere.
proof fn lemma_stopped(replicas: Seq<ReplicaView>, place: PlaceView, host: IpAddr)
    requires
        forall|r: ReplicaView| #[trigger]
            place.covers(r.ip, r.docker_container) ==> r.ip == host,
    ensures
        elsewhere(seqs::concat_map(replicas, place.elsewhere()), host) == elsewhere(
            replicas,
            host,
        ),
    decreases replicas.len(),
{
    let f = place.elsewhere();
    if replicas.len() > 0 {
        let front = replicas.drop_last();
        let r = replicas.last();
        lemma_stopped(front, place, host);
        assert(front.push(r) =~= replicas);
        lemma_one_more(front, host, r);
        let rest = seqs::concat_map(front, f);
        if place.covers(r.ip, r.docker_container) {
            assert(rest + f(r) =~= rest);
            assert(elsewhere(front, host) + Seq::<Site>::empty() =~= elsewhere(front, host));
        } else {
            assert(rest + f(r) =~= rest.push(r));
            lemma_one_more(rest, host, r);
        }
    } else {
        assert(seqs::concat_map(replicas, f) =~= replicas);
    }
}

/// A replica on a host that changes its port leaves the sites elsewhere.
proof fn lemma_replaced(replicas: Seq<ReplicaView>, host: IpAddr, i: int, r: ReplicaView)
    requires
        0 <= i < replicas.len(),
        replicas[i].ip == host,
        r.ip == host,
    ensures
        elsewhere(replicas.update(i, r), host) == elsewhere(replicas, host),
    decreases replicas.len(),
{
    let front = replicas.drop_last();
    let last = replicas.last();
    let next = replicas.update(i, r);
    assert(front.push(last) =~= replicas);
    lemma_one_more(front, host, last);
    if i == front.len() {
        assert(next =~= front.push(r));
        lemma_one_more(front, host, r);
    } else {
        lemma_replaced(front, host, i, r);
        assert(next =~= front.update(i, r).push(last));
        lemma_one_more(front.update(i, r), host, last);
    }
}

/// The end of a replica on a host leaves the sites elsewhere, of every service.
proof fn lemma_replica_removed(
    w: World,
    name: Seq<char>,
    host: IpAddr,
    docker: Option<Seq<char>>,
    q: Seq<char>,
)
    requires
        connections::services_wf(w.services),
        laws::port_at(w.services, name, host, docker) is Some,
    ensures
        sites_elsewhere(
            w.apply(
                ChangeView::ReplicaRemoved { name, ip: host, docker_container: docker },
            ).services,
            q,
            host,
        ) == sites_elsewhere(w.services, q, host),
{
    reveal(World::apply);
    let place = PlaceView::Replica(host, docker);
    let reg = model::registered(w.services, name)->0;
    let after = w.apply(
        ChangeView::ReplicaRemoved { name, ip: host, docker_container: docker },
    ).services;
    assert(reg.is_replica(host, docker, reg.replica_index(host, docker)));
    if world::runs_once(w.services, name) {
        laws::lemma_invalidated_shape(w, name, true);
        if q == name {
            let all = laws::sites_at(w.services, q);
            assert(laws::sites_at(after, q) == Seq::<Site>::empty());
            assert(all =~= seq![laws::site_of()(reg.replicas[0])]);
            assert(all.drop_last() =~= Seq::empty());
            reveal_with_fuel(seqs::concat_map, 2);
            assert(sites_elsewhere(w.services, q, host) =~= Seq::empty());
        } else {
            assert(laws::sites_at(after, q) == laws::sites_at(w.services, q));
        }
    } else {
        let w1 = w.teardown_partial_replicas(name, place);
        laws::lemma_partial_shape(w, name, place);
        assert(laws::sites_at(w1.services, q) == laws::sites_at(w.services, q));
        if let Some(si) = table::lookup(w1.services, name) {
            let next = si.without_replicas(place);
            table::lemma_put(w1.services, name, next, q);
            if q == name {
                if let ServiceView::Registered(before) = si {
                    lemma_stopped(before.replicas, place, host);
                    assert(next.replicas() =~= before.without_replicas(place).replicas);
                }
            }
        }
    }
}

/// The changes for the list of a host leave the sites elsewhere.
proof fn lemma_list_changes(
    w: World,
    sender_ip: IpAddr,
    list: Seq<OfferView>,
    done: Seq<ChangeView>,
    q: Seq<char>,
)
    requires
        connections::services_wf(w.services),
        done.no_duplicates(),
        forall|x: ChangeView| #[trigger]
            done.contains(x) ==> changes::list_changes(w.services, sender_ip, list).contains(x),
    ensures
        sites_elsewhere(w.apply_all(done).services, q, sender_ip) == sites_elsewhere(
            w.services,
            q,
            sender_ip,
        ),
    decreases done.len(),
{
    if done.len() > 0 {
        let front = done.drop_last();
        let x = done.last();
        let v = w.apply_all(front);
        assert(w.apply_all(done) == v.apply(x));
        assert forall|y: ChangeView| #[trigger] front.contains(y) implies changes::list_changes(
            w.services,
            sender_ip,
            list,
        ).contains(y) by {
            let k = choose|k: int| 0 <= k < front.len() && front[k] == y;
            assert(done[k] == y);
            assert(done.contains(y));
        }
        assert(done[done.len() - 1] == x);
        assert(done.contains(x));
        lemma_list_changes(w, sender_ip, list, front, q);
        update_laws::lemma_apply_distinct(w, sender_ip, list, front);
        update_laws::lemma_list_change(w.services, sender_ip, list, x);
        if let ChangeView::ReplicaRemoved { name, ip, docker_container } = x {
            assert(!front.contains(x)) by {
                if front.contains(x) {
                    let k = choose|k: int| 0 <= k < front.len() && front[k] == x;
                    assert(done[k] == done[done.len() - 1]);
                }
            }
            assert(laws::port_at(v.services, name, ip, docker_container) is Some);
            lemma_replica_removed(v, name, ip, docker_container, q);
        }
    }
}

/// A service that is found to run on a host has the same sites elsewhere.
proof fn lemma_found_on(si: ServiceView, host: IpAddr, port: u16, docker: Option<Seq<char>>)
    ensures
        elsewhere(si.with_replica(host, port, docker).replicas(), host) == elsewhere(
            si.replicas(),
            host,
        ),
{
    let next = si.with_replica(host, port, docker).replicas();
    let r = ReplicaView { ip: host, port, docker_container: docker, clients: Seq::empty() };
    let all = elsewhere(si.replicas(), host);
    lemma_one_more(si.replicas(), host, r);
    assert(all + Seq::<Site>::empty() =~= all);
    match si {
        ServiceView::Unregistered(_) => {
            assert(next =~= si.replicas().push(r));
        },
        ServiceView::Registered(reg) => {
            if reg.has_replica(host, docker) {
                let i = reg.replica_index(host, docker);
                assert(reg.is_replica(host, docker, i));
                lemma_replaced(reg.replicas, host, i, ReplicaView { port, ..reg.replicas[i] });
            }
        },
    }
}

/// The services that a host offers leave the sites elsewhere.
proof fn lemma_offers(
    services: ServicesView,
    sender_ip: IpAddr,
    list: Seq<OfferView>,
    q: Seq<char>,
)
    ensures
        sites_elsewhere(
            seqs::fold(services, list, nullnet_grpc_impl::offer(sender_ip)),
            q,
            sender_ip,
        ) == sites_elsewhere(services, q, sender_ip),
    decreases list.len(),
{
    let f = nullnet_grpc_impl::offer(sender_ip);
    if list.len() > 0 {
        let front = list.drop_last();
        let o = list.last();
        let before = seqs::fold(services, front, f);
        lemma_offers(services, sender_ip, front, q);
        if let Some(si) = table::lookup(before, o.0) {
            let next = si.with_replica(sender_ip, o.1, o.2);
            table::lemma_put(before, o.0, next, q);
            lemma_found_on(si, sender_ip, o.1, o.2);
        }
    }
}

/// After a host sent the list of the services that it offers, the replicas of every service on other
/// hosts are those that were there before, at the same ports and in the same order.
pub proof fn law_services_list_order(
    w: World,
    sender_ip: IpAddr,
    list: Seq<OfferView>,
    name: Seq<char>,
)
    requires
        connections::services_wf(w.services),
    ensures
        sites_elsewhere(w.services_list(sender_ip, list).services, name, sender_ip)
            == sites_elsewhere(w.services, name, sender_ip),
{
    let all = changes::list_changes(w.services, sender_ip, list);
    update_laws::lemma_list_changes_differ(w.services, sender_ip, list);
    lemma_list_changes(w, sender_ip, list, all, name);
    lemma_offers(w.apply_all(all).services, sender_ip, list, name);
}

/// Two lists of replicas are of the same hosts and containers, in the same order.
spec fn same_homes(a: Seq<ReplicaView>, b: Seq<ReplicaView>) -> bool {
    &&& a.len() == b.len()
    &&& forall|k: int|
        0 <= k < a.len() ==> (#[trigger] b[k]).ip == a[k].ip && b[k].docker_container
            == a[k].docker_container
}

/// The replicas of service `name`.
spec fn replicas_at(services: ServicesView, name: Seq<char>) -> Seq<ReplicaView> {
    match table::lookup(services, name) {
        Some(si) => si.replicas(),
        None => Seq::empty(),
    }
}

/// Services that a host offers and that run there add no replica.
proof fn lemma_offers_again(
    services: ServicesView,
    sender_ip: IpAddr,
    list: Seq<OfferView>,
    q: Seq<char>,
)
    requires
        connections::services_wf(services),
        forall|i: int|
            0 <= i < list.len() && laws::config_at(services, (#[trigger] list[i]).0) is Some
                ==> laws::port_at(services, list[i].0, sender_ip, list[i].2) is Some,
    ensures
        same_homes(
            replicas_at(services, q),
            replicas_at(seqs::fold(services, list, nullnet_grpc_impl::offer(sender_ip)), q),
        ),
    decreases list.len(),
{
    let f = nullnet_grpc_impl::offer(sender_ip);
    if list.len() > 0 {
        let front = list.drop_last();
        let o = list.last();
        let before = seqs::fold(services, front, f);
        assert forall|i: int|
            0 <= i < front.len() && laws::config_at(
                services,
                (#[trigger] front[i]).0,
            ) is Some implies laws::port_at(services, front[i].0, sender_ip, front[i].2) is Some by {
            assert(front[i] == list[i]);
        }
        lemma_offers_again(services, sender_ip, front, q);
        update_laws::lemma_offers(services, sender_ip, front);
        assert(list[list.len() - 1] == o);
        assert(laws::config_at(before, o.0) == laws::config_at(services, o.0));
        if let Some(si) = table::lookup(before, o.0) {
            let next = si.with_replica(sender_ip, o.1, o.2);
            table::lemma_put(before, o.0, next, q);
            assert(laws::port_at(before, o.0, sender_ip, o.2) is Some);
            if q == o.0 {
                let reg = si->Registered_0;
                let i = reg.replica_index(sender_ip, o.2);
                assert(reg.is_replica(sender_ip, o.2, i));
                assert(same_homes(si.replicas(), next.replicas()));
            }
        }
    }
}

/// Replicas of the same hosts and containers that have the same ports are at the same sites.
proof fn lemma_same_sites(a: ServicesView, b: ServicesView, name: Seq<char>)
    requires
        connections::services_wf(a),
        connections::services_wf(b),
        same_homes(replicas_at(a, name), replicas_at(b, name)),
        forall|ip: IpAddr, docker: Option<Seq<char>>| #[trigger]
            laws::port_at(b, name, ip, docker) == laws::port_at(a, name, ip, docker),
    ensures
        laws::sites_at(b, name) == laws::sites_at(a, name),
{
    let x = replicas_at(a, name);
    let y = replicas_at(b, name);
    connections::lemma_wf_of(a, name);
    connections::lemma_wf_of(b, name);
    assert forall|k: int| 0 <= k < x.len() implies laws::site_of()(#[trigger] y[k])
        == laws::site_of()(x[k]) by {
        connections::lemma_index(model::registered(a, name)->0, k);
        connections::lemma_index(model::registered(b, name)->0, k);
        assert(laws::port_at(b, name, x[k].ip, x[k].docker_container) == laws::port_at(
            a,
            name,
            x[k].ip,
            x[k].docker_container,
        ));
    }
    assert(laws::sites_at(b, name) =~= laws::sites_at(a, name));
}

/// A service runs exactly where it has a replica, after a list of services too; and the list, when it
/// comes again, changes no replica: they run where they ran, in the same order.
pub proof fn law_services_list_again(
    w: World,
    sender_ip: IpAddr,
    list: Seq<OfferView>,
    name: Seq<char>,
)
    requires
        connections::services_wf(w.services),
    ensures
        ({
            let after = w.services_list(sender_ip, list);
            &&& model::registered(after.services, name) is Some == (laws::sites_at(
                after.services,
                name,
            ).len() > 0)
            &&& laws::sites_at(after.services_list(sender_ip, list).services, name)
                == laws::sites_at(after.services, name)
        }),
{
    let after = w.services_list(sender_ip, list);
    let again = after.services_list(sender_ip, list);
    update_laws::law_services_list(w, sender_ip, list);
    update_laws::law_services_list(after, sender_ip, list);
    update_laws::law_services_list_settles(w, sender_ip, list);
    connections::lemma_wf_of(after.services, name);
    assert(after.apply_all(Seq::empty()) == after);
    assert forall|i: int|
        0 <= i < list.len() && laws::config_at(
            after.services,
            (#[trigger] list[i]).0,
        ) is Some implies laws::port_at(after.services, list[i].0, sender_ip, list[i].2) is Some by {
        assert(laws::config_at(after.services, list[i].0) == laws::config_at(
            w.services,
            list[i].0,
        ));
        assert(changes::offers(list, list[i].0, list[i].2));
        update_laws::lemma_offered_port(list, list[i].0, list[i].2);
    }
    lemma_offers_again(after.services, sender_ip, list, name);
    assert forall|ip: IpAddr, docker: Option<Seq<char>>| #[trigger]
        laws::port_at(again.services, name, ip, docker) == laws::port_at(
            after.services,
            name,
            ip,
            docker,
        ) by {
        assert(laws::config_at(after.services, name) == laws::config_at(w.services, name));
    }
    lemma_same_sites(after.services, again.services, name);
}

} // verus!
