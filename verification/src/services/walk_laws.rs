//! Chains that come to an end are walked to their end.
use crate::addr::IpAddr;
use crate::seqs;
use crate::services::clients::ClientView;
use crate::services::connections;
use crate::services::laws;
use crate::services::model;
use crate::services::model::{ServiceView, ServicesView};
use crate::services::world;
use crate::services::world::{ChainEdge, NodeView};
use crate::table;
use crate::use_laws;
use vstd::prelude::*;

verus! {

/// The node that a chain from `node` comes to after some steps, if it goes on that far.
pub open spec fn after(services: ServicesView, node: NodeView, steps: nat) -> Option<NodeView>
    decreases steps,
{
    if steps == 0 {
        Some(node)
    } else {
        match node.next(services) {
            Some(next) => after(services, next, (steps - 1) as nat),
            None => None,
        }
    }
}

/// The replicas of all services.
spec fn nodes(services: ServicesView) -> Seq<NodeView>
    decreases services.len(),
{
    if services.len() == 0 {
        Seq::empty()
    } else {
        nodes(services.drop_last()) + service_nodes(services.last())
    }
}

/// The replicas of a service.
spec fn service_nodes(s: (Seq<char>, ServiceView)) -> Seq<NodeView> {
    Seq::new(
        s.1.replicas().len(),
        |k: int|
            NodeView {
                name: s.0,
                ip: s.1.replicas()[k].ip,
                docker: s.1.replicas()[k].docker_container,
            },
    )
}

proof fn lemma_nodes_len(services: ServicesView)
    ensures
        nodes(services).len() == world::replica_count(services),
    decreases services.len(),
{
    if services.len() > 0 {
        lemma_nodes_len(services.drop_last());
    }
}

proof fn lemma_nodes_has(services: ServicesView, i: int, node: NodeView)
    requires
        0 <= i < services.len(),
        service_nodes(services[i]).contains(node),
    ensures
        nodes(services).contains(node),
    decreases services.len(),
{
    let before = nodes(services.drop_last());
    let last = service_nodes(services.last());
    if i == services.len() - 1 {
        let k = choose|k: int| 0 <= k < last.len() && last[k] == node;
        assert((before + last)[before.len() + k] == node);
    } else {
        lemma_nodes_has(services.drop_last(), i, node);
        let k = choose|k: int| 0 <= k < before.len() && before[k] == node;
        assert((before + last)[k] == node);
    }
}

/// What a client is connected to is a replica.
proof fn lemma_connection(services: ServicesView, c: ClientView, name: Seq<char>)
    ensures
        world::connection(services, c, name) is Some ==> nodes(services).contains(
            world::connection(services, c, name)->0,
        ),
{
    if let Some(reg) = model::registered(services, name) {
        if reg.holds(c) {
            let p = table::position(services, name);
            assert(table::is_first(services, name, p));
            let h = reg.holder(c);
            assert(reg.is_holder(c, h));
            let all = service_nodes(services[p]);
            assert(all[h] == world::connection(services, c, name)->0);
            assert(all.contains(all[h]));
            lemma_nodes_has(services, p, all[h]);
        }
    }
}

proof fn lemma_last_connection(services: ServicesView, c: ClientView, names: Seq<Seq<char>>)
    ensures
        world::last_connection(services, c, names) is Some ==> nodes(services).contains(
            world::last_connection(services, c, names)->0,
        ),
    decreases names.len(),
{
    if names.len() > 0 {
        lemma_connection(services, c, names.last());
        lemma_last_connection(services, c, names.drop_last());
    }
}

/// Steps taken one after the other add up.
proof fn lemma_after_sum(services: ServicesView, node: NodeView, a: nat, b: nat)
    ensures
        after(services, node, a + b) == (match after(services, node, a) {
            Some(next) => after(services, next, b),
            None => None,
        }),
    decreases a,
{
    if a > 0 {
        if let Some(next) = node.next(services) {
            lemma_after_sum(services, next, (a - 1) as nat, b);
            assert((a + b - 1) as nat == (a - 1) as nat + b);
        }
    }
}

/// A chain that has come to an end does not go on.
proof fn lemma_after_end(services: ServicesView, node: NodeView, a: nat, b: nat)
    requires
        a <= b,
        after(services, node, a) is None,
    ensures
        after(services, node, b) is None,
{
    lemma_after_sum(services, node, a, (b - a) as nat);
}

/// Where a chain comes to after at least one step is a replica.
proof fn lemma_after_node(services: ServicesView, node: NodeView, steps: nat)
    requires
        steps > 0,
        after(services, node, steps) is Some,
    ensures
        nodes(services).contains(after(services, node, steps)->0),
{
    let before = (steps - 1) as nat;
    lemma_after_sum(services, node, before, 1);
    let last = after(services, node, before)->0;
    lemma_last_connection(
        services,
        last.client(),
        world::dependencies(services, last.name),
    );
    reveal_with_fuel(after, 2);
}

/// A chain that comes to an end passes no node twice.
proof fn lemma_no_return(
    services: ServicesView,
    node: NodeView,
    i: nat,
    j: nat,
    end: nat,
)
    requires
        i < j < end,
        after(services, node, (end - 1) as nat) is Some,
        after(services, node, end) is None,
    ensures
        after(services, node, i) != after(services, node, j),
{
    if after(services, node, i) == after(services, node, j) {
        let rest = (end - j) as nat;
        lemma_after_sum(services, node, i, rest);
        lemma_after_sum(services, node, j, rest);
        if after(services, node, j) is None {
            lemma_after_end(services, node, j, (end - 1) as nat);
        }
        lemma_after_end(services, node, i + rest, (end - 1) as nat);
    }
}

/// A walk that comes to the end of a chain is the same with more steps.
proof fn lemma_walk_end(services: ServicesView, node: NodeView, a: nat, b: nat)
    requires
        a <= b,
        after(services, node, a) is None,
    ensures
        node.walk(services, a) == node.walk(services, b),
    decreases a,
{
    if let Some(next) = node.next(services) {
        lemma_walk_end(services, next, (a - 1) as nat, (b - 1) as nat);
    }
}

/// The first end of a chain comes within as many steps as there are replicas, and one more.
proof fn lemma_end_near(services: ServicesView, node: NodeView, end: nat)
    requires
        end > 0,
        after(services, node, (end - 1) as nat) is Some,
        after(services, node, end) is None,
    ensures
        end <= world::replica_count(services) + 1,
{
    let passed = Seq::new((end - 1) as nat, |k: int| after(services, node, (k + 1) as nat)->0);
    assert forall|i: int, j: int| 0 <= i < j < passed.len() implies passed[i] != passed[j] by {
        lemma_no_return(services, node, (i + 1) as nat, (j + 1) as nat, end);
        if after(services, node, (i + 1) as nat) is None {
            lemma_after_end(services, node, (i + 1) as nat, (end - 1) as nat);
        }
        if after(services, node, (j + 1) as nat) is None {
            lemma_after_end(services, node, (j + 1) as nat, (end - 1) as nat);
        }
    }
    assert forall|k: int| 0 <= k < passed.len() implies nodes(services).contains(
        #[trigger] passed[k],
    ) by {
        if after(services, node, (k + 1) as nat) is None {
            lemma_after_end(services, node, (k + 1) as nat, (end - 1) as nat);
        }
        lemma_after_node(services, node, (k + 1) as nat);
    }
    assert(passed.no_duplicates());
    seqs::lemma_no_more(passed, nodes(services));
    lemma_nodes_len(services);
}

/// A chain that comes to an end is walked to its end: however many steps its end takes, its edges
/// are those of the walk over that many nodes.
pub proof fn law_chain_edges(services: ServicesView, node: NodeView, steps: nat)
    requires
        after(services, node, steps) is None,
    ensures
        world::chain_edges(services, node) == node.walk(services, steps),
    decreases steps,
{
    if after(services, node, (steps - 1) as nat) is None {
        law_chain_edges(services, node, (steps - 1) as nat);
        lemma_walk_end(services, node, (steps - 1) as nat, steps);
    } else {
        lemma_end_near(services, node, steps);
        lemma_walk_end(services, node, steps, world::replica_count(services) + 1);
    }
}

/// A replica leads on to another: it is connected to it, and to no replica of a dependency that is listed
/// later than the one that the other belongs to.
pub open spec fn leads_to(services: ServicesView, a: NodeView, b: NodeView) -> bool {
    let c = ClientView { name: a.name, proxy: None, replica: Some((a.ip, a.docker)) };
    laws::config_at(services, a.name) matches Some(config) && exists|k: int|
        {
            &&& 0 <= k < config.dependencies.len()
            &&& #[trigger] config.dependencies[k] == b.name
            &&& connections::conn(services, b.name, b.ip, b.docker, c) is Some
            &&& forall|j: int, x: IpAddr, y: Option<Seq<char>>|
                k < j < config.dependencies.len() ==> #[trigger] connections::conn(
                    services,
                    config.dependencies[j],
                    x,
                    y,
                    c,
                ) is None
        }
}

/// A replica leads nowhere: it is connected to none of its dependencies.
pub open spec fn leads_nowhere(services: ServicesView, a: NodeView) -> bool {
    let c = ClientView { name: a.name, proxy: None, replica: Some((a.ip, a.docker)) };
    laws::config_at(services, a.name) matches Some(config) ==> forall|
        j: int,
        x: IpAddr,
        y: Option<Seq<char>>,
    |
        0 <= j < config.dependencies.len() ==> #[trigger] connections::conn(
            services,
            config.dependencies[j],
            x,
            y,
            c,
        ) is None
}

/// From a replica, each leads on to the next, and the last nowhere.
pub open spec fn are_stops(services: ServicesView, node: NodeView, stops: Seq<NodeView>) -> bool {
    &&& stops.len() > 0
    &&& stops[0] == node
    &&& forall|i: int, j: int|
        0 <= i && j == i + 1 && j < stops.len() ==> leads_to(
            services,
            #[trigger] stops[i],
            #[trigger] stops[j],
        )
    &&& leads_nowhere(services, stops.last())
}

/// The connections of replicas to all their dependencies, one replica after the other.
pub open spec fn all_edges(services: ServicesView, stops: Seq<NodeView>) -> Seq<ChainEdge>
    decreases stops.len(),
{
    if stops.len() == 0 {
        Seq::empty()
    } else {
        let a = stops[0];
        let c = ClientView { name: a.name, proxy: None, replica: Some((a.ip, a.docker)) };
        let deps = match laws::config_at(services, a.name) {
            Some(config) => config.dependencies,
            None => Seq::empty(),
        };
        Seq::new(deps.len(), |k: int| (c, deps[k])) + all_edges(services, stops.drop_first())
    }
}

/// Where the last connection of a node leads.
proof fn lemma_leads(services: ServicesView, a: NodeView, m: int)
    requires
        connections::services_wf(services),
        laws::config_at(services, a.name) is Some,
        0 <= m <= laws::config_at(services, a.name)->0.dependencies.len(),
    ensures
        ({
            let deps = laws::config_at(services, a.name)->0.dependencies;
            match world::last_connection(services, a.client(), deps.take(m)) {
                Some(b) => exists|k: int|
                    {
                        &&& 0 <= k < m
                        &&& #[trigger] deps[k] == b.name
                        &&& connections::conn(services, b.name, b.ip, b.docker, a.client()) is Some
                        &&& forall|j: int, x: IpAddr, y: Option<Seq<char>>|
                            k < j < m ==> #[trigger] connections::conn(
                                services,
                                deps[j],
                                x,
                                y,
                                a.client(),
                            ) is None
                    },
                None => forall|j: int, x: IpAddr, y: Option<Seq<char>>|
                    0 <= j < m ==> #[trigger] connections::conn(
                        services,
                        deps[j],
                        x,
                        y,
                        a.client(),
                    ) is None,
            }
        }),
    decreases m,
{
    if m > 0 {
        let deps = laws::config_at(services, a.name)->0.dependencies;
        lemma_leads(services, a, m - 1);
        assert(deps.take(m).drop_last() =~= deps.take(m - 1));
        assert(deps.take(m).last() == deps[m - 1]);
        use_laws::lemma_connected(services, a.client(), deps[m - 1]);
        if world::connection(services, a.client(), deps[m - 1]) is None {
            if let Some(b) = world::last_connection(services, a.client(), deps.take(m - 1)) {
                let k = choose|k: int|
                    {
                        &&& 0 <= k < m - 1
                        &&& #[trigger] deps[k] == b.name
                        &&& connections::conn(services, b.name, b.ip, b.docker, a.client()) is Some
                        &&& forall|j: int, x: IpAddr, y: Option<Seq<char>>|
                            k < j < m - 1 ==> #[trigger] connections::conn(
                                services,
                                deps[j],
                                x,
                                y,
                                a.client(),
                            ) is None
                    };
                assert(deps[k] == b.name);
                assert forall|j: int, x: IpAddr, y: Option<Seq<char>>| k < j < m implies #[trigger]
                    connections::conn(services, deps[j], x, y, a.client()) is None by {
                    if j == m - 1 {
                        assert(connections::conn(services, deps[m - 1], x, y, a.client()) is None);
                    }
                }
            }
        } else {
            assert(deps[m - 1] == deps.take(m).last());
        }
    }
}

proof fn lemma_stops(services: ServicesView, node: NodeView, steps: nat) -> (stops: Seq<NodeView>)
    requires
        connections::services_wf(services),
        after(services, node, steps) is None,
    ensures
        are_stops(services, node, stops),
        node.walk(services, steps) == all_edges(services, stops),
    decreases steps,
{
    let deps = world::dependencies(services, node.name);
    let n = deps.len() as int;
    assert(deps.take(n) =~= deps);
    if laws::config_at(services, node.name) is Some {
        lemma_leads(services, node, n);
    } else {
        assert(deps =~= Seq::empty());
    }
    match node.next(services) {
        None => {
            let stops = seq![node];
            reveal_with_fuel(all_edges, 2);
            assert(stops.drop_first() =~= Seq::empty());
            assert(node.edges(services) =~= all_edges(services, stops));
            assert(node.walk(services, steps) =~= all_edges(services, stops));
            stops
        },
        Some(next) => {
            let rest = lemma_stops(services, next, (steps - 1) as nat);
            let stops = seq![node] + rest;
            assert(stops.drop_first() =~= rest);
            assert(leads_to(services, node, next));
            assert forall|i: int, j: int|
                0 <= i && j == i + 1 && j < stops.len() implies leads_to(
                services,
                #[trigger] stops[i],
                #[trigger] stops[j],
            ) by {
                if i > 0 {
                    assert(stops[i] == rest[i - 1]);
                    assert(stops[j] == rest[j - 1]);
                }
            }
            assert(stops.last() == rest.last());
            assert(node.walk(services, steps) =~= all_edges(services, stops));
            stops
        },
    }
}

/// The connections that are collected along a chain that comes to an end are those of every replica on it
/// to all the dependencies of its service, in their order: from the replica that the chain starts at, over
/// the one that each leads on to, to the one that leads nowhere.
pub proof fn law_chain_walked(services: ServicesView, node: NodeView, steps: nat)
    requires
        connections::services_wf(services),
        after(services, node, steps) is None,
    ensures
        exists|stops: Seq<NodeView>| #[trigger]
            are_stops(services, node, stops) && world::chain_edges(services, node) == all_edges(
                services,
                stops,
            ),
{
    law_chain_edges(services, node, steps);
    let stops = lemma_stops(services, node, steps);
    assert(are_stops(services, node, stops));
}

} // verus!
