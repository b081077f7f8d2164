//! Cleaning up after services and proxies.
use crate::addr::IpAddr;
use crate::orchestrator::Orchestrator;
use crate::services::changes::{teardown_chain, teardown_invalidated_service, ProxyFilter};
use crate::services::service_info::Services;
use crate::services::world::{FilterView, World};
use vstd::prelude::*;

verus! {

/// Takes down the chains of a service and of those that depend on it. A service that failed does not
/// run any more.
pub fn cleanup_vxlans_invalidated_service(
    invalidated_service: &str,
    is_failed: bool,
    services: &mut Services,
    orchestrator: &mut Orchestrator,
)
    ensures
        (World { services: final(services)@, orch: final(orchestrator)@ }) == (World {
            services: old(services)@,
            orch: old(orchestrator)@,
        }).teardown_invalidated_service(invalidated_service@, is_failed),
{
    teardown_invalidated_service(
        &invalidated_service.to_owned(),
        is_failed,
        services,
        orchestrator,
    );
}

/// Takes down the chains of a service's proxy clients: of those behind one proxy where one is given,
/// else of all.
pub fn cleanup_vxlans_chain(
    name: &str,
    services: &mut Services,
    orchestrator: &mut Orchestrator,
    proxy_filter: Option<IpAddr>,
)
    ensures
        (World { services: final(services)@, orch: final(orchestrator)@ }) == (World {
            services: old(services)@,
            orch: old(orchestrator)@,
        }).teardown_chain(
            name@,
            match proxy_filter {
                Some(ip) => FilterView::ByIp(ip),
                None => FilterView::All,
            },
        ),
{
    let filter = match proxy_filter {
        Some(ip) => ProxyFilter::ByIp(ip),
        None => ProxyFilter::All,
    };
    teardown_chain(&name.to_owned(), services, orchestrator, &filter);
}

} // verus!
