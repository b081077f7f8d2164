//! What holds of every configuration that is made of declarations.
use crate::seqs;
use crate::services::connections;
use crate::services::input;
use crate::services::input::ServiceTomlView;
use crate::services::model;
use crate::services::model::{ConfigView, ServiceView, ServicesView, TriggerView};
use crate::services::update_laws;
use crate::table;
use vstd::prelude::*;

verus! {

/// The services are those that declarations configure.
pub open spec fn is_configured(
    services: ServicesView,
    toml: Seq<ServiceTomlView>,
    default: u64,
) -> bool {
    &&& table::distinct(services)
    &&& forall|name: Seq<char>| #[trigger]
        table::lookup(services, name) == input::configured(toml, name, default)
}

/// Every service that a configuration names is among the services.
pub open spec fn names_present(services: ServicesView, config: ConfigView) -> bool {
    &&& forall|k: int|
        0 <= k < config.dependencies.len() ==> table::lookup(
            services,
            #[trigger] config.dependencies[k],
        ) is Some
    &&& forall|i: int, k: int|
        0 <= i < config.triggers.len() && 0 <= k < config.triggers[i].chain.len()
            ==> table::lookup(services, #[trigger] config.triggers[i].chain[k]) is Some
}

/// Services that declarations configure are well-formed, and none of them runs.
pub proof fn law_configured_idle(
    services: ServicesView,
    toml: Seq<ServiceTomlView>,
    default: u64,
)
    requires
        is_configured(services, toml, default),
    ensures
        connections::services_wf(services),
        update_laws::none_runs(services),
{
    assert forall|i: int| 0 <= i < services.len() implies connections::service_wf(
        (#[trigger] services[i]).1,
    ) by {
        table::lemma_occurs(services, services[i].0, i);
        assert(table::lookup(services, services[i].0) == input::configured(
            toml,
            services[i].0,
            default,
        ));
    }
    assert forall|name: Seq<char>| (#[trigger] model::registered(services, name)) is None by {
        assert(table::lookup(services, name) == input::configured(toml, name, default));
    }
}

/// A service is reachable through a proxy if and only if it is declared, not just named on a chain.
pub proof fn law_reachable_declared(
    services: ServicesView,
    toml: Seq<ServiceTomlView>,
    default: u64,
    name: Seq<char>,
)
    requires
        is_configured(services, toml, default),
    ensures
        (table::lookup(services, name) is Some && table::lookup(
            services,
            name,
        )->0.config().timeout is Some) == exists|i: int|
            0 <= i < toml.len() && (#[trigger] toml[i]).name == name,
{
    assert(table::lookup(services, name) == input::configured(toml, name, default));
    lemma_declared(toml, name, default);
    if exists|i: int| 0 <= i < toml.len() && (#[trigger] toml[i]).name == name {
        let i = choose|i: int| 0 <= i < toml.len() && (#[trigger] toml[i]).name == name;
        lemma_declares(toml, name, default, i);
    }
}

/// Every service on a chain of a configured service is itself configured.
pub proof fn law_chains_configured(
    services: ServicesView,
    toml: Seq<ServiceTomlView>,
    default: u64,
    name: Seq<char>,
)
    requires
        is_configured(services, toml, default),
    ensures
        match table::lookup(services, name) {
            Some(si) => names_present(services, si.config()),
            None => true,
        },
{
    assert(table::lookup(services, name) == input::configured(toml, name, default));
    if let Some(si) = table::lookup(services, name) {
        let config = si.config();
        assert forall|k: int| 0 <= k < config.dependencies.len() implies table::lookup(
            services,
            #[trigger] config.dependencies[k],
        ) is Some by {
            let d = config.dependencies[k];
            assert(table::lookup(services, d) == input::configured(toml, d, default));
            if input::declared(toml, name, default) is Some {
                lemma_declared(toml, name, default);
                let i = choose|i: int| declares(toml, name, config, i);
                assert(toml[i].proxy_dependencies[k] == d);
                lemma_on_proxy_chain(toml, i, d);
            } else {
                let i = lemma_tail(toml, name);
                lemma_after_from(toml[i].proxy_dependencies, name, d);
                lemma_on_proxy_chain(toml, i, d);
            }
        }
        assert forall|i: int, k: int|
            0 <= i < config.triggers.len() && 0 <= k < config.triggers[i].chain.len() implies table::lookup(
            services,
            #[trigger] config.triggers[i].chain[k],
        ) is Some by {
            let d = config.triggers[i].chain[k];
            assert(table::lookup(services, d) == input::configured(toml, d, default));
            if input::declared(toml, name, default) is Some {
                lemma_declared(toml, name, default);
                let j = choose|j: int| declares(toml, name, config, j);
                lemma_on_trigger_chain(toml, j, i, d);
            } else {
                let t = config.triggers[i];
                assert(input::triggers_for(input::trigger_mentions(toml), name).contains(t));
                let (j, m) = lemma_trigger_tail(toml, name, t);
                lemma_after_from(toml[j].triggers[m].chain, name, d);
                lemma_on_trigger_chain(toml, j, m, d);
            }
        }
    }
}

/// Declaration `i` gives service `name` its configuration.
spec fn declares(
    toml: Seq<ServiceTomlView>,
    name: Seq<char>,
    config: ConfigView,
    i: int,
) -> bool {
    &&& 0 <= i < toml.len()
    &&& toml[i].name == name
    &&& toml[i].proxy_dependencies == config.dependencies
    &&& toml[i].triggers == config.triggers
}

/// A declared configuration comes from a declaration.
proof fn lemma_declared(toml: Seq<ServiceTomlView>, name: Seq<char>, default: u64)
    ensures
        match input::declared(toml, name, default) {
            Some(config) => config.timeout is Some && exists|i: int| #[trigger]
                declares(toml, name, config, i),
            None => true,
        },
    decreases toml.len(),
{
    if toml.len() > 0 {
        if toml.last().name == name {
            let config = input::declared(toml, name, default)->0;
            assert(declares(toml, name, config, toml.len() - 1));
        } else {
            let front = toml.drop_last();
            lemma_declared(front, name, default);
            if let Some(config) = input::declared(front, name, default) {
                let i = choose|i: int| declares(front, name, config, i);
                assert(declares(toml, name, config, i));
            }
        }
    }
}

/// A declaration gives its service a configuration, unless a later one does.
proof fn lemma_declares(toml: Seq<ServiceTomlView>, name: Seq<char>, default: u64, i: int)
    requires
        0 <= i < toml.len(),
        toml[i].name == name,
    ensures
        input::declared(toml, name, default) is Some,
    decreases toml.len(),
{
    if toml.last().name != name {
        lemma_declares(toml.drop_last(), name, default, i);
    }
}

/// What comes after an element of a list is in the list.
proof fn lemma_after_from<A>(s: Seq<A>, x: A, y: A)
    requires
        input::after(s, x).contains(y),
    ensures
        s.contains(y),
{
    let rest = input::after(s, x);
    let k = choose|k: int| 0 <= k < rest.len() && rest[k] == y;
    let p = choose|i: int| seqs::is_first_at(s, x, i);
    assert(seqs::is_first_at(s, x, p));
    assert(s[1 + p + k] == y);
}

/// A pair in a list occurs in it, and some pair is the last under its key.
proof fn lemma_pair<K, V>(s: Seq<(K, V)>, k: K, v: V)
    requires
        s.contains((k, v)),
    ensures
        input::last_under(s, k) is Some,
        input::occurs(s, k),
    decreases s.len(),
{
    if s.last().0 != k {
        let i = choose|i: int| 0 <= i < s.len() && s[i] == (k, v);
        assert(s.drop_last()[i] == (k, v));
        lemma_pair(s.drop_last(), k, v);
    }
}

/// The last value under a key is that of a pair.
proof fn lemma_last_under<K, V>(s: Seq<(K, V)>, k: K)
    requires
        input::last_under(s, k) is Some,
    ensures
        s.contains((k, input::last_under(s, k)->0)),
    decreases s.len(),
{
    if s.last().0 == k {
        assert(s[s.len() - 1] == (k, input::last_under(s, k)->0));
    } else {
        lemma_last_under(s.drop_last(), k);
        let v = input::last_under(s, k)->0;
        let i = choose|i: int| 0 <= i < s.drop_last().len() && s.drop_last()[i] == (k, v);
        assert(s[i] == (k, v));
    }
}

/// A service on a proxy chain is configured.
proof fn lemma_on_proxy_chain(toml: Seq<ServiceTomlView>, i: int, d: Seq<char>)
    requires
        0 <= i < toml.len(),
        toml[i].proxy_dependencies.contains(d),
    ensures
        input::implied(toml, d) is Some,
{
    let deps = toml[i].proxy_dependencies;
    let f = input::proxy_mentions_in();
    let k = choose|k: int| 0 <= k < deps.len() && deps[k] == d;
    let m = (d, input::after(deps, d));
    assert(f(toml[i])[k] == m);
    seqs::lemma_concat_map_has(toml, f, i, m);
    lemma_pair(input::proxy_mentions(toml), d, m.1);
}

/// A service on a trigger chain is configured.
proof fn lemma_on_trigger_chain(toml: Seq<ServiceTomlView>, i: int, j: int, d: Seq<char>)
    requires
        0 <= i < toml.len(),
        0 <= j < toml[i].triggers.len(),
        toml[i].triggers[j].chain.contains(d),
    ensures
        input::implied(toml, d) is Some,
{
    let t = toml[i].triggers[j];
    let k = choose|k: int| 0 <= k < t.chain.len() && t.chain[k] == d;
    let m = (d, TriggerView { port: t.port, chain: input::after(t.chain, d) });
    assert(input::chain_mentions()(t)[k] == m);
    seqs::lemma_concat_map_has(toml[i].triggers, input::chain_mentions(), j, m);
    assert(input::trigger_mentions_in()(toml[i]).contains(m));
    seqs::lemma_concat_map_has(toml, input::trigger_mentions_in(), i, m);
    lemma_pair(input::trigger_mentions(toml), d, m.1);
}

/// The dependencies of a service that is only named on chains are the rest of a declared chain, or
/// none. Returns whose chain.
proof fn lemma_tail(toml: Seq<ServiceTomlView>, name: Seq<char>) -> (i: int)
    requires
        input::implied(toml, name) is Some,
        input::implied(toml, name)->0.dependencies.len() > 0,
    ensures
        0 <= i < toml.len(),
        input::implied(toml, name)->0.dependencies == input::after(
            toml[i].proxy_dependencies,
            name,
        ),
{
    let all = input::proxy_mentions(toml);
    lemma_last_under(all, name);
    let f = input::proxy_mentions_in();
    let i = seqs::lemma_concat_map_from(toml, f, (name, input::last_under(all, name)->0));
    i
}

/// A trigger of a service that is only named on chains has the rest of a declared trigger chain.
/// Returns whose, and which.
proof fn lemma_trigger_tail(
    toml: Seq<ServiceTomlView>,
    name: Seq<char>,
    t: TriggerView,
) -> (r: (int, int))
    requires
        input::triggers_for(input::trigger_mentions(toml), name).contains(t),
    ensures
        0 <= r.0 < toml.len(),
        0 <= r.1 < toml[r.0].triggers.len(),
        t.chain == input::after(toml[r.0].triggers[r.1].chain, name),
{
    let all = input::trigger_mentions(toml);
    let n = seqs::lemma_concat_map_from(all, input::trigger_for(name), t);
    let m = all[n];
    assert(m == (name, t));
    assert(all.contains(m));
    let i = seqs::lemma_concat_map_from(toml, input::trigger_mentions_in(), m);
    let j = seqs::lemma_concat_map_from(toml[i].triggers, input::chain_mentions(), m);
    (i, j)
}

/// A declared service is configured as its last declaration says: with its dependencies, triggers and
/// limit on networks, and with its timeout or, where it declares none, the default. It does not run.
pub proof fn law_declared_config(
    services: ServicesView,
    toml: Seq<ServiceTomlView>,
    default: u64,
    i: int,
)
    requires
        is_configured(services, toml, default),
        0 <= i < toml.len(),
        forall|j: int| i < j < toml.len() ==> (#[trigger] toml[j]).name != toml[i].name,
    ensures
        match table::lookup(services, toml[i].name) {
            Some(ServiceView::Unregistered(config)) => {
                &&& config.dependencies == toml[i].proxy_dependencies
                &&& config.triggers == toml[i].triggers
                &&& config.max_networks == toml[i].max_networks
                &&& match toml[i].timeout {
                    Some(secs) => config.timeout == Some(secs),
                    None => config.timeout == Some(default),
                }
            },
            _ => false,
        },
{
    lemma_last_declared(toml, default, i);
}

proof fn lemma_last_declared(toml: Seq<ServiceTomlView>, default: u64, i: int)
    requires
        0 <= i < toml.len(),
        forall|j: int| i < j < toml.len() ==> (#[trigger] toml[j]).name != toml[i].name,
    ensures
        match input::declared(toml, toml[i].name, default) {
            Some(config) => {
                &&& config.dependencies == toml[i].proxy_dependencies
                &&& config.triggers == toml[i].triggers
                &&& config.max_networks == toml[i].max_networks
                &&& match toml[i].timeout {
                    Some(secs) => config.timeout == Some(secs),
                    None => config.timeout == Some(default),
                }
            },
            None => false,
        },
    decreases toml.len(),
{
    if i < toml.len() - 1 {
        assert(toml[toml.len() - 1].name != toml[i].name);
        assert forall|j: int| i < j < toml.drop_last().len() implies (
        #[trigger] toml.drop_last()[j]).name != toml.drop_last()[i].name by {
            assert(toml[j].name != toml[i].name);
        }
        lemma_last_declared(toml.drop_last(), default, i);
    }
}

/// A name stands in a list for the first time at an index.
pub open spec fn stands_first(list: Seq<Seq<char>>, name: Seq<char>, p: int) -> bool {
    &&& 0 <= p < list.len()
    &&& list[p] == name
    &&& forall|q: int| 0 <= q < p ==> #[trigger] list[q] != name
}

/// A service stands on a trigger chain of a declaration, and a trigger has the port of that chain and what
/// follows the service on it.
pub open spec fn follows_on(
    toml: Seq<ServiceTomlView>,
    name: Seq<char>,
    t: TriggerView,
    i: int,
    m: int,
    p: int,
) -> bool {
    &&& 0 <= i < toml.len()
    &&& 0 <= m < toml[i].triggers.len()
    &&& stands_first(toml[i].triggers[m].chain, name, p)
    &&& t.port == toml[i].triggers[m].port
    &&& t.chain == toml[i].triggers[m].chain.skip(p + 1)
}

/// A service that is only named on chains is configured exactly where it is named on one. It is no entry
/// point, and has no limit on networks. Its dependencies are what follows it on the proxy chain of the last
/// declaration that names it there, none where no one does; and its triggers are, port by port, what
/// follows it on trigger chains, where something does.
pub proof fn law_implied_config(
    services: ServicesView,
    toml: Seq<ServiceTomlView>,
    default: u64,
    name: Seq<char>,
)
    requires
        is_configured(services, toml, default),
        forall|i: int| 0 <= i < toml.len() ==> (#[trigger] toml[i]).name != name,
    ensures
        ({
            let named = exists|i: int|
                0 <= i < toml.len() && (#[trigger] toml[i]).proxy_dependencies.contains(name);
            let triggered = exists|i: int, m: int|
                0 <= i < toml.len() && 0 <= m < toml[i].triggers.len() && (
                #[trigger] toml[i].triggers[m]).chain.contains(name);
            &&& table::lookup(services, name) is Some == (named || triggered)
            &&& table::lookup(services, name) matches Some(si) ==> {
                let config = si.config();
                &&& si is Unregistered
                &&& config.timeout is None
                &&& config.max_networks is None
                &&& !named ==> config.dependencies.len() == 0
                &&& forall|i: int, p: int|
                    {
                        &&& 0 <= i < toml.len()
                        &&& #[trigger] stands_first(toml[i].proxy_dependencies, name, p)
                        &&& forall|j: int|
                            i < j < toml.len() ==> !(
                            #[trigger] toml[j]).proxy_dependencies.contains(name)
                    } ==> config.dependencies == toml[i].proxy_dependencies.skip(p + 1)
                &&& forall|t: TriggerView| #[trigger]
                    config.triggers.contains(t) == (t.chain.len() > 0 && exists|
                        i: int,
                        m: int,
                        p: int,
                    | #[trigger]
                        follows_on(toml, name, t, i, m, p))
            }
        }),
{
    if input::declared(toml, name, default) is Some {
        lemma_declared(toml, name, default);
        let config = input::declared(toml, name, default)->0;
        let i = choose|i: int| declares(toml, name, config, i);
        assert(toml[i].name != name);
    }
    let proxy = input::last_under(input::proxy_mentions(toml), name);
    let all = input::trigger_mentions(toml);
    // named on a proxy chain
    if proxy is Some {
        lemma_last_under(input::proxy_mentions(toml), name);
        let i = seqs::lemma_concat_map_from(toml, input::proxy_mentions_in(), (name, proxy->0));
        let s = input::proxy_mentions_in()(toml[i]);
        let k = choose|k: int| 0 <= k < s.len() && s[k] == (name, proxy->0);
        assert(toml[i].proxy_dependencies[k] == name);
        assert(toml[i].proxy_dependencies.contains(name));
    }
    if exists|i: int| 0 <= i < toml.len() && (#[trigger] toml[i]).proxy_dependencies.contains(name) {
        let i = choose|i: int|
            0 <= i < toml.len() && (#[trigger] toml[i]).proxy_dependencies.contains(name);
        let deps = toml[i].proxy_dependencies;
        let k = choose|k: int| 0 <= k < deps.len() && deps[k] == name;
        let m = (name, input::after(deps, name));
        assert(input::proxy_mentions_in()(toml[i])[k] == m);
        seqs::lemma_concat_map_has(toml, input::proxy_mentions_in(), i, m);
        lemma_pair(input::proxy_mentions(toml), name, m.1);
    }
    // named on a trigger chain
    if input::occurs(all, name) {
        let v = lemma_occurs_pair(all, name);
        let i = seqs::lemma_concat_map_from(toml, input::trigger_mentions_in(), (name, v));
        let j = seqs::lemma_concat_map_from(
            toml[i].triggers,
            input::chain_mentions(),
            (name, v),
        );
        let t = toml[i].triggers[j];
        let s = input::chain_mentions()(t);
        let k = choose|k: int| 0 <= k < s.len() && s[k] == (name, v);
        assert(t.chain[k] == name);
        assert(toml[i].triggers[j].chain.contains(name));
    }
    if exists|i: int, m: int|
        0 <= i < toml.len() && 0 <= m < toml[i].triggers.len() && (
        #[trigger] toml[i].triggers[m]).chain.contains(name) {
        let (i, m) = choose|i: int, m: int|
            0 <= i < toml.len() && 0 <= m < toml[i].triggers.len() && (
            #[trigger] toml[i].triggers[m]).chain.contains(name);
        lemma_on_trigger_chain_pair(toml, i, m, name);
        let t = toml[i].triggers[m];
        lemma_pair(all, name, TriggerView { port: t.port, chain: input::after(t.chain, name) });
    }
    assert forall|i: int, p: int|
        {
            &&& 0 <= i < toml.len()
            &&& #[trigger] stands_first(toml[i].proxy_dependencies, name, p)
            &&& forall|j: int|
                i < j < toml.len() ==> !(#[trigger] toml[j]).proxy_dependencies.contains(name)
        } implies proxy == Some(toml[i].proxy_dependencies.skip(p + 1)) by {
        lemma_last_mention(toml, name, i, p);
    }
    let got = input::triggers_for(all, name);
    assert forall|t: TriggerView| #[trigger]
        got.contains(t) == (t.chain.len() > 0 && exists|i: int, m: int, p: int| #[trigger]
            follows_on(toml, name, t, i, m, p)) by {
        if got.contains(t) {
            let n = seqs::lemma_concat_map_from(all, input::trigger_for(name), t);
            let s = input::trigger_for(name)(all[n]);
            let x = choose|x: int| 0 <= x < s.len() && s[x] == t;
            assert(s.len() == 1 && x == 0);
            assert(all.contains(all[n]));
            let i = seqs::lemma_concat_map_from(toml, input::trigger_mentions_in(), all[n]);
            let m = seqs::lemma_concat_map_from(
                toml[i].triggers,
                input::chain_mentions(),
                all[n],
            );
            let u = toml[i].triggers[m];
            let r = input::chain_mentions()(u);
            let k = choose|k: int| 0 <= k < r.len() && r[k] == all[n];
            assert(u.chain[k] == name);
            let p = lemma_after_skip(u.chain, name, k);
            assert(follows_on(toml, name, t, i, m, p));
        }
        if t.chain.len() > 0 && exists|i: int, m: int, p: int| #[trigger]
            follows_on(toml, name, t, i, m, p) {
            let (i, m, p) = choose|i: int, m: int, p: int| #[trigger]
                follows_on(toml, name, t, i, m, p);
            let u = toml[i].triggers[m];
            assert(u.chain.contains(name));
            lemma_on_trigger_chain_pair(toml, i, m, name);
            let q = lemma_after_skip(u.chain, name, p);
            if q < p {
                assert(u.chain[q] != name);
            } else if p < q {
                assert(u.chain[p] != name);
            }
            let pair = (name, TriggerView { port: u.port, chain: input::after(u.chain, name) });
            assert(pair.1 == t);
            let n = choose|n: int| 0 <= n < all.len() && all[n] == pair;
            assert(input::trigger_for(name)(all[n])[0] == t);
            assert(input::trigger_for(name)(all[n]).contains(t));
            seqs::lemma_concat_map_has(all, input::trigger_for(name), n, t);
        }
    }
}

/// What follows an element is what follows its first occurrence.
proof fn lemma_after_skip(s: Seq<Seq<char>>, x: Seq<char>, k: int) -> (p: int)
    requires
        0 <= k < s.len(),
        s[k] == x,
    ensures
        stands_first(s, x, p),
        input::after(s, x) == s.skip(p + 1),
{
    crate::services::laws::lemma_first_at(s, x, k);
    let p = choose|i: int| seqs::is_first_at(s, x, i);
    assert(seqs::is_first_at(s, x, p));
    p
}

/// A key that occurs has a value.
proof fn lemma_occurs_pair<K, V>(s: Seq<(K, V)>, k: K) -> (v: V)
    requires
        input::occurs(s, k),
    ensures
        s.contains((k, v)),
    decreases s.len(),
{
    if s.last().0 == k {
        assert(s[s.len() - 1] == (k, s.last().1));
        s.last().1
    } else {
        let v = lemma_occurs_pair(s.drop_last(), k);
        let i = choose|i: int| 0 <= i < s.drop_last().len() && s.drop_last()[i] == (k, v);
        assert(s[i] == (k, v));
        v
    }
}

/// A service on a trigger chain is mentioned with what follows it.
proof fn lemma_on_trigger_chain_pair(toml: Seq<ServiceTomlView>, i: int, j: int, d: Seq<char>)
    requires
        0 <= i < toml.len(),
        0 <= j < toml[i].triggers.len(),
        toml[i].triggers[j].chain.contains(d),
    ensures
        ({
            let t = toml[i].triggers[j];
            input::trigger_mentions(toml).contains(
                (d, TriggerView { port: t.port, chain: input::after(t.chain, d) }),
            )
        }),
{
    let t = toml[i].triggers[j];
    let k = choose|k: int| 0 <= k < t.chain.len() && t.chain[k] == d;
    let m = (d, TriggerView { port: t.port, chain: input::after(t.chain, d) });
    assert(input::chain_mentions()(t)[k] == m);
    seqs::lemma_concat_map_has(toml[i].triggers, input::chain_mentions(), j, m);
    assert(input::trigger_mentions_in()(toml[i]).contains(m));
    seqs::lemma_concat_map_has(toml, input::trigger_mentions_in(), i, m);
}

/// The last value under a key in a list with others appended.
proof fn lemma_last_appended<K, V>(s: Seq<(K, V)>, t: Seq<(K, V)>, k: K)
    ensures
        input::last_under(s + t, k) == (match input::last_under(t, k) {
            Some(v) => Some(v),
            None => input::last_under(s, k),
        }),
    decreases t.len(),
{
    if t.len() == 0 {
        assert(s + t =~= s);
    } else {
        assert((s + t).drop_last() =~= s + t.drop_last());
        assert((s + t).last() == t.last());
        lemma_last_appended(s, t.drop_last(), k);
    }
}

/// The last mention on a proxy chain is that of the last declaration that has one.
proof fn lemma_last_mention(toml: Seq<ServiceTomlView>, name: Seq<char>, i: int, p: int)
    requires
        0 <= i < toml.len(),
        stands_first(toml[i].proxy_dependencies, name, p),
        forall|j: int|
            i < j < toml.len() ==> !(#[trigger] toml[j]).proxy_dependencies.contains(name),
    ensures
        input::last_under(input::proxy_mentions(toml), name) == Some(
            toml[i].proxy_dependencies.skip(p + 1),
        ),
    decreases toml.len(),
{
    let f = input::proxy_mentions_in();
    let front = toml.drop_last();
    let last = toml.last();
    lemma_last_appended(seqs::concat_map(front, f), f(last), name);
    let got = input::last_under(f(last), name);
    if got is Some {
        lemma_last_under(f(last), name);
        let s = f(last);
        let k = choose|k: int| 0 <= k < s.len() && s[k] == (name, got->0);
        assert(last.proxy_dependencies[k] == name);
        assert(last.proxy_dependencies.contains(name));
        if i < toml.len() - 1 {
            assert(!toml[toml.len() - 1].proxy_dependencies.contains(name));
        }
        let q = lemma_after_skip(last.proxy_dependencies, name, k);
        if q < p {
            assert(last.proxy_dependencies[q] != name);
        } else if p < q {
            assert(last.proxy_dependencies[p] != name);
        }
    } else if i == toml.len() - 1 {
        let m = (name, input::after(last.proxy_dependencies, name));
        assert(f(last)[p] == m);
        assert(f(last).contains(m));
        lemma_pair(f(last), name, m.1);
    } else {
        assert forall|j: int| i < j < front.len() implies !(
        #[trigger] front[j]).proxy_dependencies.contains(name) by {
            assert(front[j] == toml[j]);
        }
        assert(front[i] == toml[i]);
        lemma_last_mention(front, name, i, p);
    }
}

/// What comes after an element of a sequence is what is left behind the first place that it stands at; where
/// it is not there, nothing is left.
pub proof fn law_tail<A>(s: Seq<A>, x: A, i: int)
    ensures
        0 <= i < s.len() && s[i] == x && (forall|j: int| 0 <= j < i ==> #[trigger] s[j] != x) ==> {
            &&& input::after(s, x).len() == s.len() - i - 1
            &&& forall|k: int|
                i < k < s.len() ==> input::after(s, x)[k - i - 1] == #[trigger] s[k]
        },
        (forall|j: int| 0 <= j < s.len() ==> #[trigger] s[j] != x) ==> input::after(s, x).len() == 0,
{
    if 0 <= i < s.len() && s[i] == x && (forall|j: int| 0 <= j < i ==> #[trigger] s[j] != x) {
        assert(seqs::is_first_at(s, x, i));
        let k = choose|k: int| seqs::is_first_at(s, x, k);
        assert(seqs::is_first_at(s, x, k));
        if k < i {
            assert(s[k] != x);
        } else if i < k {
            assert(s[i] != x);
        }
    }
    if exists|k: int| seqs::is_first_at(s, x, k) {
        let k = choose|k: int| seqs::is_first_at(s, x, k);
        assert(s[k] == x);
    }
}

} // verus!
