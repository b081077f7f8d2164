//! The configuration of the services and when to read it again.
use crate::orchestrator::Orchestrator;
use crate::seqs;
use crate::services::changes;
use crate::services::changes::{apply_changes, detect_config_changes};
use crate::services::model::{ConfigView, ServiceView, TriggerView};
use crate::services::service_info::{copy_triggers, ServiceInfo, Services, Trigger};
use crate::services::world::World;
use crate::table;
use crate::table::Table;
use crate::text;
use vstd::prelude::*;

verus! {

/// The declaration of a service.
#[derive(Debug)]
pub struct ServiceToml {
    pub name: String,
    /// The timeout in seconds of connections that enter at the service, zero for none.
    pub timeout: Option<u64>,
    /// The chain that is walked when the service is reached through a proxy.
    pub proxy_dependencies: Vec<String>,
    /// The chains that are walked when the service triggers one, by port.
    pub triggers: Vec<Trigger>,
    /// The number of networks from which on proxy clients share one.
    pub max_networks: Option<u32>,
}

#[verifier::ext_equal]
pub struct ServiceTomlView {
    pub name: Seq<char>,
    pub timeout: Option<u64>,
    pub proxy_dependencies: Seq<Seq<char>>,
    pub triggers: Seq<TriggerView>,
    pub max_networks: Option<u32>,
}

impl View for ServiceToml {
    type V = ServiceTomlView;

    open spec fn view(&self) -> ServiceTomlView {
        ServiceTomlView {
            name: self.name@,
            timeout: self.timeout,
            proxy_dependencies: self.proxy_dependencies.deep_view(),
            triggers: self.triggers.deep_view(),
            max_networks: self.max_networks,
        }
    }
}

impl DeepView for ServiceToml {
    type V = ServiceTomlView;

    open spec fn deep_view(&self) -> ServiceTomlView {
        self@
    }
}

/// The declarations of the services.
#[derive(Debug)]
pub struct ServicesToml {
    pub services: Vec<ServiceToml>,
}

impl View for ServicesToml {
    type V = Seq<ServiceTomlView>;

    open spec fn view(&self) -> Seq<ServiceTomlView> {
        self.services.deep_view()
    }
}

/// The elements of `s` after the first occurrence of `x`.
pub open spec fn after<A>(s: Seq<A>, x: A) -> Seq<A> {
    if exists|i: int| seqs::is_first_at(s, x, i) {
        s.skip(1 + choose|i: int| seqs::is_first_at(s, x, i))
    } else {
        Seq::empty()
    }
}

/// The elements of `slice` that come after the first occurrence of `elem`.
pub fn tail_after(slice: &[String], elem: &str) -> (r: Vec<String>)
    ensures
        r.deep_view() == after(slice.deep_view(), elem@),
{
    let ghost s = slice.deep_view();
    let wanted = elem.to_owned();
    let mut i: usize = 0;
    while i < slice.len()
        invariant
            i <= slice.len(),
            s == slice.deep_view(),
            wanted@ == elem@,
            forall|j: int| 0 <= j < i ==> #[trigger] s[j] != elem@,
        decreases slice.len() - i,
    {
        if slice[i] == wanted {
            proof {
                assert(s[i as int] == elem@);
                lemma_after(s, elem@, i as int);
            }
            return copy_from(slice, i + 1);
        }
        i = i + 1;
    }
    let r: Vec<String> = Vec::new();
    assert(r.deep_view() =~= Seq::empty());
    r
}

/// A copy of the elements from index `from` on.
fn copy_from(slice: &[String], from: usize) -> (r: Vec<String>)
    requires
        from <= slice.len(),
    ensures
        r.deep_view() == slice.deep_view().skip(from as int),
{
    let mut r: Vec<String> = Vec::new();
    let mut i = from;
    while i < slice.len()
        invariant
            from <= i <= slice.len(),
            r.deep_view() =~= slice.deep_view().subrange(from as int, i as int),
        decreases slice.len() - i,
    {
        let ghost before = r.deep_view();
        r.push(slice[i].clone());
        assert(r.deep_view() =~= before.push(slice.deep_view()[i as int]));
        i = i + 1;
    }
    assert(r.deep_view() =~= slice.deep_view().skip(from as int));
    r
}

/// `after` starts behind the first index.
proof fn lemma_after<A>(s: Seq<A>, x: A, i: int)
    requires
        seqs::is_first_at(s, x, i),
    ensures
        after(s, x) == s.skip(i + 1),
{
    let k = choose|i: int| seqs::is_first_at(s, x, i);
    assert(seqs::is_first_at(s, x, k));
    if k < i {
        assert(s[k] != x);
    } else if i < k {
        assert(s[i] != x);
    }
}

/// A function that lists the services on the proxy chain of a declaration, each with the rest of
/// the chain behind it.
pub open spec fn proxy_mentions_in() -> spec_fn(ServiceTomlView) -> Seq<
    (Seq<char>, Seq<Seq<char>>),
> {
    |s: ServiceTomlView|
        Seq::new(
            s.proxy_dependencies.len(),
            |k: int|
                (s.proxy_dependencies[k], after(s.proxy_dependencies, s.proxy_dependencies[k])),
        )
}

/// The services on proxy chains, in order, each with the rest of its chain.
pub open spec fn proxy_mentions(toml: Seq<ServiceTomlView>) -> Seq<(Seq<char>, Seq<Seq<char>>)> {
    seqs::concat_map(toml, proxy_mentions_in())
}

/// A function that lists the services on a trigger chain, each with the rest of the chain.
pub open spec fn chain_mentions() -> spec_fn(TriggerView) -> Seq<(Seq<char>, TriggerView)> {
    |t: TriggerView|
        Seq::new(
            t.chain.len(),
            |k: int|
                (t.chain[k], TriggerView { port: t.port, chain: after(t.chain, t.chain[k]) }),
        )
}

/// A function that lists the services on the trigger chains of a declaration.
pub open spec fn trigger_mentions_in() -> spec_fn(ServiceTomlView) -> Seq<
    (Seq<char>, TriggerView),
> {
    |s: ServiceTomlView| seqs::concat_map(s.triggers, chain_mentions())
}

/// The services on trigger chains, in order, each with the rest of its chain.
pub open spec fn trigger_mentions(toml: Seq<ServiceTomlView>) -> Seq<(Seq<char>, TriggerView)> {
    seqs::concat_map(toml, trigger_mentions_in())
}

/// The value of the last pair under `k`.
pub open spec fn last_under<K, V>(s: Seq<(K, V)>, k: K) -> Option<V>
    decreases s.len(),
{
    if s.len() == 0 {
        None
    } else if s.last().0 == k {
        Some(s.last().1)
    } else {
        last_under(s.drop_last(), k)
    }
}

/// Whether there is a pair under `k`.
pub open spec fn occurs<K, V>(s: Seq<(K, V)>, k: K) -> bool
    decreases s.len(),
{
    s.len() > 0 && (s.last().0 == k || occurs(s.drop_last(), k))
}

/// A function that gives the trigger of a mention of service `name`, unless its chain is empty.
pub open spec fn trigger_for(name: Seq<char>) -> spec_fn((Seq<char>, TriggerView)) -> Seq<
    TriggerView,
> {
    |m: (Seq<char>, TriggerView)|
        if m.0 == name && m.1.chain.len() > 0 {
            seq![m.1]
        } else {
            Seq::empty()
        }
}

/// The triggers that service `name` has from its mentions on trigger chains.
pub open spec fn triggers_for(mentions: Seq<(Seq<char>, TriggerView)>, name: Seq<char>) -> Seq<
    TriggerView,
> {
    seqs::concat_map(mentions, trigger_for(name))
}

/// The declared configuration of service `name`, the last one where there are several.
pub open spec fn declared(toml: Seq<ServiceTomlView>, name: Seq<char>, default: u64) -> Option<
    ConfigView,
>
    decreases toml.len(),
{
    if toml.len() == 0 {
        None
    } else if toml.last().name == name {
        Some(
            ConfigView {
                dependencies: toml.last().proxy_dependencies,
                triggers: toml.last().triggers,
                timeout: Some(
                    match toml.last().timeout {
                        Some(timeout) => timeout,
                        None => default,
                    },
                ),
                max_networks: toml.last().max_networks,
            },
        )
    } else {
        declared(toml.drop_last(), name, default)
    }
}

/// The configuration that service `name` has from being mentioned on chains alone: the rest of the
/// last proxy chain that it is on, and the rests of the trigger chains that it is on.
pub open spec fn implied(toml: Seq<ServiceTomlView>, name: Seq<char>) -> Option<ConfigView> {
    let proxy = last_under(proxy_mentions(toml), name);
    if proxy is Some || occurs(trigger_mentions(toml), name) {
        Some(
            ConfigView {
                dependencies: match proxy {
                    Some(tail) => tail,
                    None => Seq::empty(),
                },
                triggers: triggers_for(trigger_mentions(toml), name),
                timeout: None,
                max_networks: None,
            },
        )
    } else {
        None
    }
}

/// The configuration of service `name`: the declared one, else the implied one.
pub open spec fn configured(toml: Seq<ServiceTomlView>, name: Seq<char>, default: u64) -> Option<
    ServiceView,
> {
    match declared(toml, name, default) {
        Some(config) => Some(ServiceView::Unregistered(config)),
        None => match implied(toml, name) {
            Some(config) => Some(ServiceView::Unregistered(config)),
            None => None,
        },
    }
}

impl ServicesToml {
    /// Records for each service on a proxy chain the rest of the last chain that it is on.
    fn proxy_tails(&self) -> (accum: Table<String, Vec<String>>)
        ensures
            table::distinct(accum@),
            forall|name: Seq<char>| #[trigger]
                table::lookup(accum@, name) == last_under(proxy_mentions(self@), name),
    {
        let ghost f = proxy_mentions_in();
        let ghost toml = self@;
        let mut accum: Table<String, Vec<String>> = Table::new();
        let mut i: usize = 0;
        assert(toml.take(0) =~= Seq::empty());
        while i < self.services.len()
            invariant
                i <= self.services.len(),
                toml == self@,
                f == proxy_mentions_in(),
                table::distinct(accum@),
                forall|name: Seq<char>| #[trigger]
                    table::lookup(accum@, name) == last_under(
                        seqs::concat_map(toml.take(i as int), f),
                        name,
                    ),
            decreases self.services.len() - i,
        {
            let ghost before = seqs::concat_map(toml.take(i as int), f);
            let ghost step = f(toml[i as int]);
            proof {
                seqs::lemma_concat_map_step(toml, f, i as int);
                assert(toml[i as int] == self.services[i as int]@);
                assert(before + step.take(0) =~= before);
            }
            let deps = &self.services[i].proxy_dependencies;
            let mut j: usize = 0;
            while j < deps.len()
                invariant
                    j <= deps.len(),
                    step == Seq::new(
                        deps.deep_view().len(),
                        |k: int|
                            (
                                deps.deep_view()[k],
                                after(deps.deep_view(), deps.deep_view()[k]),
                            ),
                    ),
                    table::distinct(accum@),
                    forall|name: Seq<char>| #[trigger]
                        table::lookup(accum@, name) == last_under(
                            before + step.take(j as int),
                            name,
                        ),
                decreases deps.len() - j,
            {
                let ghost old_accum = accum@;
                let d = &deps[j];
                let slice = deps.as_slice();
                assert(slice.deep_view() =~= deps.deep_view());
                let tail = tail_after(slice, d.as_str());
                let ghost t = tail.deep_view();
                assert(step[j as int] == (d@, t));
                accum.insert(d.clone(), tail);
                proof {
                    let s = before + step.take(j + 1);
                    assert(s.drop_last() =~= before + step.take(j as int));
                    assert(s.last() == step[j as int]);
                    assert forall|name: Seq<char>| #[trigger]
                        table::lookup(accum@, name) == last_under(s, name) by {
                        table::lemma_put(old_accum, d@, t, name);
                    }
                    table::lemma_put(old_accum, d@, t, d@);
                }
                j = j + 1;
            }
            assert(step.take(j as int) =~= step);
            i = i + 1;
        }
        assert(toml.take(i as int) =~= toml);
        accum
    }

    /// Lists the services on trigger chains, in order, each with the rest of its chain.
    fn list_trigger_mentions(&self) -> (r: Vec<(String, Trigger)>)
        ensures
            r.deep_view() == trigger_mentions(self@),
    {
        let ghost f = trigger_mentions_in();
        let ghost toml = self@;
        let mut r: Vec<(String, Trigger)> = Vec::new();
        let mut i: usize = 0;
        assert(toml.take(0) =~= Seq::empty());
        assert(r.deep_view() =~= Seq::empty());
        while i < self.services.len()
            invariant
                i <= self.services.len(),
                toml == self@,
                f == trigger_mentions_in(),
                r.deep_view() == seqs::concat_map(toml.take(i as int), f),
            decreases self.services.len() - i,
        {
            proof {
                seqs::lemma_concat_map_step(toml, f, i as int);
                assert(toml[i as int] == self.services[i as int]@);
            }
            push_mentions(&self.services[i].triggers, &mut r);
            i = i + 1;
        }
        assert(toml.take(i as int) =~= toml);
        r
    }
}

/// Lists the services on trigger chains, in order, each with the rest of its chain.
fn push_mentions(triggers: &Vec<Trigger>, r: &mut Vec<(String, Trigger)>)
    ensures
        final(r).deep_view() == old(r).deep_view() + seqs::concat_map(
            triggers.deep_view(),
            chain_mentions(),
        ),
{
    let ghost f = chain_mentions();
    let ghost start = r.deep_view();
    let ghost all = triggers.deep_view();
    let mut i: usize = 0;
    assert(all.take(0) =~= Seq::empty());
    assert(start + Seq::<(Seq<char>, TriggerView)>::empty() =~= start);
    while i < triggers.len()
        invariant
            i <= triggers.len(),
            all == triggers.deep_view(),
            f == chain_mentions(),
            r.deep_view() == start + seqs::concat_map(all.take(i as int), f),
        decreases triggers.len() - i,
    {
        let ghost so_far = start + seqs::concat_map(all.take(i as int), f);
        let ghost step = f(all[i as int]);
        proof {
            seqs::lemma_concat_map_step(all, f, i as int);
            assert(so_far + step =~= start + (seqs::concat_map(all.take(i as int), f) + step));
            assert(all[i as int] == triggers[i as int]@);
            assert(so_far + step.take(0) =~= so_far);
        }
        let chain = &triggers[i].chain;
        let mut j: usize = 0;
        while j < chain.len()
            invariant
                i < triggers.len(),
                j <= chain.len(),
                chain == triggers[i as int].chain,
                step == Seq::new(
                    chain.deep_view().len(),
                    |k: int|
                        (
                            chain.deep_view()[k],
                            TriggerView {
                                port: triggers[i as int].port,
                                chain: after(chain.deep_view(), chain.deep_view()[k]),
                            },
                        ),
                ),
                r.deep_view() =~= so_far + step.take(j as int),
            decreases chain.len() - j,
        {
            let ghost before = r.deep_view();
            let d = &chain[j];
            let slice = chain.as_slice();
            assert(slice.deep_view() =~= chain.deep_view());
            let tail = tail_after(slice, d.as_str());
            r.push((d.clone(), Trigger { port: triggers[i].port, chain: tail }));
            assert(r.deep_view() =~= before.push(step[j as int]));
            j = j + 1;
        }
        assert(step.take(j as int) =~= step);
        i = i + 1;
    }
    assert(all.take(i as int) =~= all);
}

/// Collects for each service on trigger chains the triggers that it has from its mentions.
fn trigger_tails(mentions: &Vec<(String, Trigger)>) -> (accum: Table<String, Vec<Trigger>>)
    ensures
        table::distinct(accum@),
        forall|name: Seq<char>| #[trigger]
            table::lookup(accum@, name) == (if occurs(mentions.deep_view(), name) {
                Some(triggers_for(mentions.deep_view(), name))
            } else {
                None
            }),
{
    let ghost all = mentions.deep_view();
    let mut accum: Table<String, Vec<Trigger>> = Table::new();
    let mut i: usize = 0;
    assert(all.take(0) =~= Seq::empty());
    while i < mentions.len()
        invariant
            i <= mentions.len(),
            all == mentions.deep_view(),
            table::distinct(accum@),
            forall|name: Seq<char>| #[trigger]
                table::lookup(accum@, name) == (if occurs(all.take(i as int), name) {
                    Some(triggers_for(all.take(i as int), name))
                } else {
                    None
                }),
        decreases mentions.len() - i,
    {
        let ghost before = all.take(i as int);
        let ghost old_accum = accum@;
        let (name, trigger) = &mentions[i];
        proof {
            assert(all.take(i + 1).drop_last() =~= before);
            assert(all[i as int] == (name@, trigger@));
        }
        let mut list = match accum.get(name) {
            Some(list) => copy_triggers(list),
            None => Vec::new(),
        };
        proof {
            if !occurs(before, name@) {
                lemma_no_triggers(before, name@);
            }
        }
        assert(list.deep_view() =~= triggers_for(before, name@));
        let ghost so_far = list.deep_view();
        if trigger.chain.len() > 0 {
            list.push(trigger.clone());
            assert(list.deep_view() =~= so_far + seq![trigger@]);
        } else {
            assert(so_far =~= so_far + Seq::<TriggerView>::empty());
        }
        let ghost triggers = list.deep_view();
        accum.insert(name.clone(), list);
        proof {
            assert forall|q: Seq<char>| #[trigger]
                table::lookup(accum@, q) == (if occurs(all.take(i + 1), q) {
                    Some(triggers_for(all.take(i + 1), q))
                } else {
                    None
                }) by {
                table::lemma_put(old_accum, name@, triggers, q);
                seqs::lemma_concat_map_step(all, trigger_for(q), i as int);
                if q != name@ {
                    assert(triggers_for(before, q) + Seq::<TriggerView>::empty()
                        =~= triggers_for(before, q));
                }
            }
            table::lemma_put(old_accum, name@, triggers, name@);
        }
        i = i + 1;
    }
    assert(all.take(i as int) =~= all);
    accum
}

/// A service that is not mentioned has no triggers from mentions.
proof fn lemma_no_triggers(mentions: Seq<(Seq<char>, TriggerView)>, name: Seq<char>)
    requires
        !occurs(mentions, name),
    ensures
        triggers_for(mentions, name) == Seq::<TriggerView>::empty(),
    decreases mentions.len(),
{
    if mentions.len() > 0 {
        lemma_no_triggers(mentions.drop_last(), name);
        assert(triggers_for(mentions.drop_last(), name) + Seq::<TriggerView>::empty()
            =~= triggers_for(mentions.drop_last(), name));
    }
}

/// The services that are mentioned on chains, each with the configuration that this implies.
fn implied_services(toml: &ServicesToml) -> (r: Services)
    ensures
        table::distinct(r@),
        forall|name: Seq<char>| #[trigger]
            table::lookup(r@, name) == (match implied(toml@, name) {
                Some(config) => Some(ServiceView::Unregistered(config)),
                None => None,
            }),
{
    let mentions = toml.list_trigger_mentions();
    let proxy_accum = toml.proxy_tails();
    let backend_accum = trigger_tails(&mentions);
    let mut r: Services = Table::new();

    let mut i: usize = 0;
    while i < proxy_accum.len()
        invariant
            i <= proxy_accum@.len(),
            table::distinct(r@),
            table::distinct(proxy_accum@),
            forall|name: Seq<char>| #[trigger]
                table::lookup(proxy_accum@, name) == last_under(proxy_mentions(toml@), name),
            forall|name: Seq<char>| #[trigger]
                table::lookup(backend_accum@, name) == (if occurs(trigger_mentions(toml@), name) {
                    Some(triggers_for(trigger_mentions(toml@), name))
                } else {
                    None
                }),
            forall|name: Seq<char>| #[trigger]
                table::lookup(r@, name) == (if table::has_key(
                    proxy_accum@.take(i as int),
                    name,
                ) {
                    Some(ServiceView::Unregistered(implied(toml@, name)->0))
                } else {
                    None
                }),
        decreases proxy_accum@.len() - i,
    {
        let ghost old_r = r@;
        let ghost prefix = proxy_accum@.take(i as int);
        let name = proxy_accum.key_at(i);
        let proxy = text::copy_list(proxy_accum.value_at(i));
        let backend = match backend_accum.get(name) {
            Some(list) => copy_triggers(list),
            None => Vec::new(),
        };
        proof {
            table::lemma_occurs(proxy_accum@, name@, i as int);
            if !occurs(trigger_mentions(toml@), name@) {
                lemma_no_triggers(trigger_mentions(toml@), name@);
            }
            assert(table::lookup(proxy_accum@, name@) == last_under(proxy_mentions(toml@), name@));
            assert(table::lookup(backend_accum@, name@) == (if occurs(
                trigger_mentions(toml@),
                name@,
            ) {
                Some(triggers_for(trigger_mentions(toml@), name@))
            } else {
                None
            }));
            assert(backend.deep_view() =~= triggers_for(trigger_mentions(toml@), name@));
        }
        let si = ServiceInfo::new(proxy, backend, None, None);
        let ghost siv = si@;
        assert(siv == ServiceView::Unregistered(implied(toml@, name@)->0));
        r.insert(name.clone(), si);
        proof {
            assert(proxy_accum@.take(i + 1) =~= prefix.push(proxy_accum@[i as int]));
            assert forall|q: Seq<char>| #[trigger]
                table::lookup(r@, q) == (if table::has_key(proxy_accum@.take(i + 1), q) {
                    Some(ServiceView::Unregistered(implied(toml@, q)->0))
                } else {
                    None
                }) by {
                table::lemma_put(old_r, name@, siv, q);
                table::lemma_has_key_push(prefix, proxy_accum@[i as int], q);
            }
            table::lemma_put(old_r, name@, siv, name@);
        }
        i = i + 1;
    }
    assert(proxy_accum@.take(i as int) =~= proxy_accum@);

    let mut i: usize = 0;
    while i < backend_accum.len()
        invariant
            i <= backend_accum@.len(),
            table::distinct(r@),
            table::distinct(backend_accum@),
            forall|name: Seq<char>| #[trigger]
                table::lookup(proxy_accum@, name) == last_under(proxy_mentions(toml@), name),
            forall|name: Seq<char>| #[trigger]
                table::lookup(backend_accum@, name) == (if occurs(trigger_mentions(toml@), name) {
                    Some(triggers_for(trigger_mentions(toml@), name))
                } else {
                    None
                }),
            forall|name: Seq<char>| #[trigger]
                table::lookup(r@, name) == (if table::has_key(proxy_accum@, name)
                    || table::has_key(backend_accum@.take(i as int), name) {
                    Some(ServiceView::Unregistered(implied(toml@, name)->0))
                } else {
                    None
                }),
        decreases backend_accum@.len() - i,
    {
        let ghost old_r = r@;
        let ghost prefix = backend_accum@.take(i as int);
        let name = backend_accum.key_at(i);
        proof {
            table::lemma_occurs(backend_accum@, name@, i as int);
            assert(backend_accum@.take(i + 1) =~= prefix.push(backend_accum@[i as int]));
        }
        if !proxy_accum.contains_key(name) {
            let none: Vec<String> = Vec::new();
            let si = ServiceInfo::new(none, copy_triggers(backend_accum.value_at(i)), None, None);
            let ghost siv = si@;
            proof {
                assert(table::lookup(proxy_accum@, name@) == last_under(
                    proxy_mentions(toml@),
                    name@,
                ));
                assert(table::lookup(backend_accum@, name@) == (if occurs(
                    trigger_mentions(toml@),
                    name@,
                ) {
                    Some(triggers_for(trigger_mentions(toml@), name@))
                } else {
                    None
                }));
                assert(none.deep_view() =~= Seq::empty());
                assert(siv == ServiceView::Unregistered(implied(toml@, name@)->0));
            }
            r.insert(name.clone(), si);
            proof {
                assert forall|q: Seq<char>| #[trigger]
                    table::lookup(r@, q) == (if table::has_key(proxy_accum@, q) || table::has_key(
                        backend_accum@.take(i + 1),
                        q,
                    ) {
                        Some(ServiceView::Unregistered(implied(toml@, q)->0))
                    } else {
                        None
                    }) by {
                    table::lemma_put(old_r, name@, siv, q);
                    table::lemma_has_key_push(prefix, backend_accum@[i as int], q);
                }
                table::lemma_put(old_r, name@, siv, name@);
            }
        } else {
            proof {
                assert forall|q: Seq<char>| #[trigger]
                    table::lookup(r@, q) == (if table::has_key(proxy_accum@, q) || table::has_key(
                        backend_accum@.take(i + 1),
                        q,
                    ) {
                        Some(ServiceView::Unregistered(implied(toml@, q)->0))
                    } else {
                        None
                    }) by {
                    table::lemma_has_key_push(prefix, backend_accum@[i as int], q);
                }
            }
        }
        i = i + 1;
    }
    proof {
        assert(backend_accum@.take(i as int) =~= backend_accum@);
        assert forall|name: Seq<char>| #[trigger]
            table::lookup(r@, name) == (match implied(toml@, name) {
                Some(config) => Some(ServiceView::Unregistered(config)),
                None => None,
            }) by {
            assert(table::lookup(proxy_accum@, name) == last_under(proxy_mentions(toml@), name));
            assert(table::lookup(backend_accum@, name) == (if occurs(
                trigger_mentions(toml@),
                name,
            ) {
                Some(triggers_for(trigger_mentions(toml@), name))
            } else {
                None
            }));
        }
    }
    r
}

impl ServicesToml {
    /// The services by name: those declared, and those that are only mentioned on chains.
    /// `default_timeout` is the timeout in seconds of a declared service that gives none.
    pub fn services_map(self, default_timeout: u64) -> (r: Services)
        ensures
            table::distinct(r@),
            forall|name: Seq<char>| #[trigger]
                table::lookup(r@, name) == configured(self@, name, default_timeout),
    {
        let mut r = implied_services(&self);
        let ghost toml = self@;
        let mut i: usize = 0;
        assert(toml.take(0) =~= Seq::empty());
        while i < self.services.len()
            invariant
                i <= self.services.len(),
                toml == self@,
                table::distinct(r@),
                forall|name: Seq<char>| #[trigger]
                    table::lookup(r@, name) == (match declared(
                        toml.take(i as int),
                        name,
                        default_timeout,
                    ) {
                        Some(config) => Some(ServiceView::Unregistered(config)),
                        None => match implied(toml, name) {
                            Some(config) => Some(ServiceView::Unregistered(config)),
                            None => None,
                        },
                    }),
            decreases self.services.len() - i,
        {
            let ghost old_r = r@;
            let s = &self.services[i];
            let timeout = match s.timeout {
                Some(timeout) => timeout,
                None => default_timeout,
            };
            let si = ServiceInfo::new(
                text::copy_list(&s.proxy_dependencies),
                copy_triggers(&s.triggers),
                Some(timeout),
                s.max_networks,
            );
            let ghost siv = si@;
            r.insert(s.name.clone(), si);
            proof {
                assert(toml[i as int] == s@);
                assert(toml.take(i + 1).drop_last() =~= toml.take(i as int));
                assert forall|name: Seq<char>| #[trigger]
                    table::lookup(r@, name) == (match declared(
                        toml.take(i + 1),
                        name,
                        default_timeout,
                    ) {
                        Some(config) => Some(ServiceView::Unregistered(config)),
                        None => match implied(toml, name) {
                            Some(config) => Some(ServiceView::Unregistered(config)),
                            None => None,
                        },
                    }) by {
                    table::lemma_put(old_r, s.name@, siv, name);
                }
                table::lemma_put(old_r, s.name@, siv, s.name@);
            }
            i = i + 1;
        }
        assert(toml.take(i as int) =~= toml);
        r
    }
}

/// Brings the services in line with a loaded configuration.
pub fn apply_config_update(
    services: &mut Services,
    loaded_services: Services,
    orchestrator: &mut Orchestrator,
    now: u128,
)
    ensures
        (World { services: final(services)@, orch: final(orchestrator)@ }) == (World {
            services: old(services)@,
            orch: old(orchestrator)@,
        }).apply_all(
            changes::config_changes(old(services)@, loaded_services@, now as nat),
        ).merged(loaded_services@),
{
    let changes = detect_config_changes(services, &loaded_services, now);
    apply_changes(changes, services, Some(&loaded_services), orchestrator);
}

/// The whole milliseconds that have to be exceeded between two readings of the configuration.
pub const DEBOUNCE_MS: u128 = 100;

/// Decides when to read the configuration again. A change of the file is reported several times.
#[derive(Debug)]
pub struct Debounce {
    last: Option<u128>,
}

impl View for Debounce {
    type V = Option<nat>;

    closed spec fn view(&self) -> Option<nat> {
        match self.last {
            Some(t) => Some(t as nat),
            None => None,
        }
    }
}

impl Debounce {
    /// Nothing was read yet.
    pub fn new() -> (r: Self)
        ensures
            r@ is None,
    {
        Debounce { last: None }
    }

    /// Whether to read the configuration after an event at `now`, in nanoseconds: it is a
    /// modification, and more than 100 whole milliseconds have passed since the last reading.
    pub fn should_reload(&self, is_modification: bool, now: u128) -> (r: bool)
        ensures
            r == (is_modification && match self@ {
                Some(last) => now >= last && (now - last) / 1_000_000 > DEBOUNCE_MS,
                None => true,
            }),
            self@ matches Some(last) ==> r == (is_modification && now >= last + 101_000_000),
    {
        is_modification && match self.last {
            Some(last) => now.saturating_sub(last) / 1_000_000 > DEBOUNCE_MS,
            None => true,
        }
    }

    /// Records that the configuration was read at `now`.
    pub fn reloaded(&mut self, now: u128)
        ensures
            final(self)@ == Some(now as nat),
    {
        self.last = Some(now);
    }
}

} // verus!
