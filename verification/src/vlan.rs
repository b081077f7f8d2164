//! Cleaning up after services where no network has to be torn down: chains are taken off the services
//! alone.
use crate::net::Net;
use crate::nullnet_grpc_impl::RequestError;
use crate::orchestrator::{Orchestrator, OrchestratorView};
use crate::seqs;
use crate::services::changes::{dependents, teardown_chain, ProxyFilter};
use crate::services::model;
use crate::services::model::{ServiceView, ServicesView};
use crate::services::service_info::{ServiceInfo, Services};
use crate::services::world;
use crate::services::world::{FilterView, World};
use crate::table;
use vstd::prelude::*;

verus! {

/// An orchestrator without hosts.
pub open spec fn no_hosts() -> OrchestratorView {
    OrchestratorView {
        net: Net::Vlan,
        clients: Seq::empty(),
        pending: Seq::empty(),
        net_ids: Seq::empty(),
        outbox: Seq::empty(),
    }
}

/// Whether each of some services runs.
pub open spec fn all_run(services: ServicesView, names: Seq<Seq<char>>) -> bool {
    forall|i: int|
        0 <= i < names.len() ==> model::registered(services, #[trigger] names[i]) is Some
}

/// The services after the proxy chains of one were taken off them, and whether that was done: a chain
/// with a dependency that does not run is left alone.
pub open spec fn without_chains(services: ServicesView, name: Seq<char>) -> (ServicesView, bool) {
    match model::registered(services, name) {
        Some(reg) => if all_run(services, reg.config.dependencies) {
            (
                (World { services, orch: no_hosts() }).teardown_chain(
                    name,
                    FilterView::All,
                ).services,
                true,
            )
        } else {
            (services, false)
        },
        None => (services, true),
    }
}

/// The services after the proxy chains of several were taken off them, up to the first that was left
/// alone, and whether all were.
pub open spec fn without_all_chains(services: ServicesView, names: Seq<Seq<char>>) -> (
    ServicesView,
    bool,
)
    decreases names.len(),
{
    if names.len() == 0 {
        (services, true)
    } else {
        let (before, done) = without_all_chains(services, names.drop_last());
        if done {
            without_chains(before, names.last())
        } else {
            (before, false)
        }
    }
}

/// The services after one of them failed, and whether they were cleaned up: the chains of the service
/// and of those that depend on it are taken off, and the service does not run any more.
pub open spec fn without_failed(services: ServicesView, failed: Seq<char>) -> (ServicesView, bool) {
    let names = seqs::concat_map(services, world::dependent_on(failed));
    let (after, done) = without_all_chains(services, names);
    match table::lookup(after, failed) {
        Some(si) if done => (
            table::put(after, failed, ServiceView::Unregistered(si.config())),
            true,
        ),
        _ => (after, done),
    }
}

/// Whether each of some services runs.
fn do_all_run(services: &Services, names: &Vec<String>) -> (r: bool)
    ensures
        r == all_run(services@, names.deep_view()),
{
    let ghost all = names.deep_view();
    let mut i: usize = 0;
    while i < names.len()
        invariant
            i <= names.len(),
            all == names.deep_view(),
            forall|j: int|
                0 <= j < i ==> model::registered(services@, #[trigger] all[j]) is Some,
        decreases names.len() - i,
    {
        assert(all[i as int] == names[i as int]@);
        match services.get(&names[i]) {
            Some(ServiceInfo::Registered(_)) => {},
            _ => return false,
        }
        i = i + 1;
    }
    true
}

/// Takes the proxy chains of a service off the services.
pub fn cleanup_vlans_chain(name: &str, services: &mut Services) -> (r: Result<(), RequestError>)
    ensures
        (final(services)@, r is Ok) == without_chains(old(services)@, name@),
        r is Err ==> r == Err::<(), _>(RequestError::DependencyNotRegistered),
{
    let name = name.to_owned();
    match services.get(&name) {
        Some(ServiceInfo::Registered(reg)) => {
            if !do_all_run(services, reg.dependencies()) {
                return Err(RequestError::DependencyNotRegistered);
            }
        },
        _ => return Ok(()),
    }
    let mut orchestrator = Orchestrator::new(Net::Vlan);
    teardown_chain(&name, services, &mut orchestrator, &ProxyFilter::All);
    Ok(())
}

/// Takes the chains of a service that failed, and of those that depend on it, off the services, and
/// records that it does not run any more.
pub fn cleanup_vlans_failed_service(failed_service: &str, services: &mut Services) -> (r: Result<
    (),
    RequestError,
>)
    ensures
        (final(services)@, r is Ok) == without_failed(old(services)@, failed_service@),
        r is Err ==> r == Err::<(), _>(RequestError::DependencyNotRegistered),
{
    let failed = failed_service.to_owned();
    let services_to_cleanup = dependents(&failed, services);
    let ghost start = services@;
    let ghost all = services_to_cleanup.deep_view();
    let mut i: usize = 0;
    assert(all.take(0) =~= Seq::empty());
    while i < services_to_cleanup.len()
        invariant
            i <= services_to_cleanup.len(),
            all == services_to_cleanup.deep_view(),
            (services@, true) == without_all_chains(start, all.take(i as int)),
            all == seqs::concat_map(start, world::dependent_on(failed@)),
            failed@ == failed_service@,
            start == old(services)@,
        decreases services_to_cleanup.len() - i,
    {
        proof {
            assert(all.take(i + 1).drop_last() =~= all.take(i as int));
            assert(all[i as int] == services_to_cleanup[i as int]@);
        }
        match cleanup_vlans_chain(services_to_cleanup[i].as_str(), services) {
            Ok(()) => {},
            Err(e) => {
                proof {
                    lemma_stops(start, all, i + 1);
                }
                return Err(e);
            },
        }
        i = i + 1;
    }
    assert(all.take(i as int) =~= all);
    let unregistered = match services.get(&failed) {
        Some(si) => Some(si.unregistered()),
        None => None,
    };
    if let Some(si) = unregistered {
        services.insert(failed, si);
    }
    Ok(())
}

/// What was left alone stays so, whatever comes after it.
proof fn lemma_stops(services: ServicesView, names: Seq<Seq<char>>, m: int)
    requires
        0 <= m <= names.len(),
        !without_all_chains(services, names.take(m)).1,
    ensures
        without_all_chains(services, names) == without_all_chains(services, names.take(m)),
    decreases names.len() - m,
{
    if m == names.len() {
        assert(names.take(m) =~= names);
    } else {
        assert(names.take(m + 1).drop_last() =~= names.take(m));
        lemma_stops(services, names, m + 1);
    }
}

} // verus!
