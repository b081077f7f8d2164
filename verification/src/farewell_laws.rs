//! The messages that end connections: one to each end, once.
use crate::chain_laws;
use crate::chain_laws::Spot;
use crate::message_laws;
use crate::orchestrator::{DispatchView, OrchestratorView};
use crate::plan_laws;
use crate::seqs;
use crate::services::laws;
use crate::services::model::EntryView;
use crate::services::world;
use crate::services::world::World;
use vstd::prelude::*;

verus! {

/// A function that gives the messages that end a connection: one to the host of its replica and one to the
/// host that it comes from, as far as they can be reached and networks are VXLANs.
pub open spec fn farewell(w: World) -> spec_fn(Spot) -> Seq<DispatchView> {
    |s: Spot|
        match chain_laws::at(w.services, s) {
            Some(ci) => message_laws::teardowns(
                w.orch,
                s.ip,
                s.docker,
                ci.client_ip,
                ci.docker_container,
                ci.net_id,
            ),
            None => Seq::empty(),
        }
}

/// The network of a connection.
pub open spec fn is_on(w: World, s: Spot, id: u32) -> bool {
    match chain_laws::at(w.services, s) {
        Some(ci) => ci.net_id == id,
        None => false,
    }
}

/// A network is that of a connection on a list.
pub open spec fn frees(w: World, lost: Seq<Spot>, id: u32) -> bool {
    exists|s: Spot| #[trigger]
        lost.contains(s) && is_on(w, s, id)
}

/// The messages that were sent meanwhile are those that end the connections of a list, one connection after
/// the other, and the networks that are not in use any more are theirs. Those connections are there in `w`
/// and not in `v`, each is listed once, and every one of a proxy client that was lost is listed; where `all`
/// holds every other one too.
pub open spec fn says(w: World, v: World, lost: Seq<Spot>, all: bool) -> bool {
    &&& lost.no_duplicates()
    &&& forall|s: Spot| #[trigger]
        lost.contains(s) ==> chain_laws::at(w.services, s) is Some && chain_laws::at(
            v.services,
            s,
        ) is None
    &&& forall|s: Spot|
        (all || s.client.proxy is Some) && chain_laws::at(w.services, s) is Some && (
        #[trigger] chain_laws::at(v.services, s)) is None ==> lost.contains(s)
    &&& v.orch.outbox == w.orch.outbox + seqs::concat_map(lost, farewell(w))
    &&& w.orch.net_ids.no_duplicates() ==> forall|id: u32| #[trigger]
        v.orch.net_ids.contains(id) == (w.orch.net_ids.contains(id) && !frees(w, lost, id))
}

/// The messages that were sent meanwhile end lost connections, each at both its ends and once, and the
/// networks of those connections, and no others, are not in use any more.
#[verifier::opaque]
pub open spec fn is_said(w: World, v: World, all: bool) -> bool {
    exists|lost: Seq<Spot>| #[trigger] says(w, v, lost, all)
}

/// Where no connection is lost, nothing is sent.
pub(crate) proof fn lemma_said_nothing(w: World, v: World, all: bool)
    requires
        v.orch.outbox == w.orch.outbox,
        v.orch.net_ids == w.orch.net_ids,
        forall|s: Spot|
            (all || s.client.proxy is Some) && chain_laws::at(w.services, s) is Some ==> (
            #[trigger] chain_laws::at(v.services, s)) is Some,
    ensures
        is_said(w, v, all),
{
    reveal(is_said);
    let lost = Seq::<Spot>::empty();
    assert(seqs::concat_map(lost, farewell(w)) =~= Seq::empty());
    assert(v.orch.outbox =~= w.orch.outbox + seqs::concat_map(lost, farewell(w)));
    assert(says(w, v, lost, all));
}

/// One connection that is torn down.
pub(crate) proof fn lemma_said_one(w: World, v: World, s: Spot, all: bool)
    requires
        chain_laws::at(w.services, s) is Some,
        chain_laws::at(v.services, s) is None,
        forall|q: Spot|
            q != s && chain_laws::at(w.services, q) is Some ==> (#[trigger] chain_laws::at(
                v.services,
                q,
            )) is Some,
        ({
            let ci = chain_laws::at(w.services, s)->0;
            v.orch == w.orch.teardown(
                ci.client_ip,
                ci.docker_container,
                s.ip,
                s.docker,
                ci.net_id,
            )
        }),
    ensures
        is_said(w, v, all),
{
    reveal(is_said);
    let ci = chain_laws::at(w.services, s)->0;
    let lost = seq![s];
    message_laws::lemma_teardowns(
        w.orch,
        s.ip,
        s.docker,
        ci.client_ip,
        ci.docker_container,
        ci.net_id,
    );
    let f = farewell(w);
    reveal_with_fuel(seqs::concat_map, 2);
    assert(lost.drop_last() =~= Seq::empty());
    assert(seqs::concat_map(lost, f) =~= f(s));
    assert(lost[0] == s);
    assert(lost.contains(s));
    laws::lemma_without_contains(w.orch.net_ids, ci.net_id);
    assert forall|id: u32| #[trigger] frees(w, lost, id) == (id == ci.net_id) by {
        assert(forall|q: Spot| #[trigger] lost.contains(q) ==> q == s);
    }
    assert(says(w, v, lost, all));
}

proof fn lemma_alike<A, B>(s: Seq<A>, f: spec_fn(A) -> Seq<B>, g: spec_fn(A) -> Seq<B>)
    requires
        forall|i: int| 0 <= i < s.len() ==> f(#[trigger] s[i]) == g(s[i]),
    ensures
        seqs::concat_map(s, f) == seqs::concat_map(s, g),
    decreases s.len(),
{
    if s.len() > 0 {
        let front = s.drop_last();
        assert forall|i: int| 0 <= i < front.len() implies f(#[trigger] front[i]) == g(
            front[i],
        ) by {
            assert(front[i] == s[i]);
        }
        lemma_alike(front, f, g);
        assert(s[s.len() - 1] == s.last());
    }
}

/// What is said first and what is said then.
pub(crate) proof fn lemma_said_twice(a: World, b: World, c: World, all: bool)
    requires
        laws::services_reduced(a.services, b.services),
        laws::orch_reduced(a.orch, b.orch),
        forall|s: Spot|
            (#[trigger] chain_laws::at(c.services, s)) is Some ==> chain_laws::at(
                b.services,
                s,
            ) is Some,
        is_said(a, b, all),
        is_said(b, c, all),
    ensures
        is_said(a, c, all),
{
    reveal(is_said);
    let first = choose|lost: Seq<Spot>| #[trigger] says(a, b, lost, all);
    let then = choose|lost: Seq<Spot>| #[trigger] says(b, c, lost, all);
    let lost = first + then;
    assert forall|s: Spot| #[trigger] lost.contains(s) == (first.contains(s) || then.contains(s)) by {
        if first.contains(s) {
            let k = choose|k: int| 0 <= k < first.len() && first[k] == s;
            assert(lost[k] == s);
        }
        if then.contains(s) {
            let k = choose|k: int| 0 <= k < then.len() && then[k] == s;
            assert(lost[first.len() + k] == s);
        }
    }
    assert forall|s: Spot| #[trigger] then.contains(s) implies chain_laws::at(a.services, s) is Some by {
        assert(laws::conn_kept(chain_laws::at(a.services, s), chain_laws::at(b.services, s)));
    }
    assert forall|s: Spot| #[trigger] first.contains(s) implies chain_laws::at(
        c.services,
        s,
    ) is None by {
        if chain_laws::at(c.services, s) is Some {
            assert(chain_laws::at(b.services, s) is Some);
        }
    }
    assert(lost.no_duplicates()) by {
        assert forall|i: int, j: int| 0 <= i < j < lost.len() implies lost[i] != lost[j] by {
            if i < first.len() && j >= first.len() {
                assert(first.contains(first[i]));
                assert(then.contains(then[j - first.len()]));
            }
        }
    }
    assert forall|s: Spot|
        (all || s.client.proxy is Some) && chain_laws::at(a.services, s) is Some && (
        #[trigger] chain_laws::at(c.services, s)) is None implies lost.contains(s) by {
        if chain_laws::at(b.services, s) is None {
            assert(first.contains(s));
        } else {
            assert(then.contains(s));
        }
    }
    let f = farewell(a);
    let g = farewell(b);
    assert forall|i: int| 0 <= i < then.len() implies f(#[trigger] then[i]) == g(then[i]) by {
        let s = then[i];
        assert(then.contains(s));
        assert(laws::conn_kept(chain_laws::at(a.services, s), chain_laws::at(b.services, s)));
    }
    lemma_alike(then, f, g);
    plan_laws::lemma_concat_append(first, then, f);
    assert(c.orch.outbox =~= a.orch.outbox + seqs::concat_map(lost, f));
    assert forall|id: u32| #[trigger]
        frees(a, lost, id) == (frees(a, first, id) || frees(b, then, id)) by {
        assert forall|s: Spot| #[trigger] then.contains(s) implies chain_laws::at(
            a.services,
            s,
        )->0.net_id == chain_laws::at(b.services, s)->0.net_id by {
            assert(laws::conn_kept(chain_laws::at(a.services, s), chain_laws::at(b.services, s)));
        }
        if frees(a, first, id) {
            let s = choose|s: Spot| #[trigger]
                first.contains(s) && is_on(a, s, id);
            assert(lost.contains(s));
        }
        if frees(b, then, id) {
            let s = choose|s: Spot| #[trigger]
                then.contains(s) && is_on(b, s, id);
            assert(lost.contains(s));
        }
        if frees(a, lost, id) {
            let s = choose|s: Spot| #[trigger]
                lost.contains(s) && is_on(a, s, id);
            assert(first.contains(s) || then.contains(s));
        }
    }
    assert(says(a, c, lost, all));
}

/// What is said of all is said of proxy clients.
pub(crate) proof fn lemma_said_less(w: World, v: World)
    requires
        is_said(w, v, true),
    ensures
        is_said(w, v, false),
{
    reveal(is_said);
    let lost = choose|lost: Seq<Spot>| #[trigger] says(w, v, lost, true);
    assert(says(w, v, lost, false));
}

/// A connection of an entry of a service.
pub open spec fn spot_of(name: Seq<char>, e: EntryView) -> Spot {
    Spot { name, ip: e.ip, docker: e.docker_container, client: e.client }
}

spec fn end_entry(orch: OrchestratorView) -> spec_fn(EntryView) -> Seq<DispatchView> {
    |e: EntryView|
        message_laws::teardowns(
            orch,
            e.ip,
            e.docker_container,
            e.info.client_ip,
            e.info.docker_container,
            e.info.net_id,
        )
}

/// No connection is on a network.
spec fn none_on(entries: Seq<EntryView>, id: u32) -> bool {
    forall|i: int| 0 <= i < entries.len() ==> (#[trigger] entries[i]).info.net_id != id
}

proof fn lemma_nets_said(orch: OrchestratorView, entries: Seq<EntryView>)
    ensures
        ({
            let after = seqs::fold(orch, entries, world::take_down_net());
            &&& after.outbox == orch.outbox + seqs::concat_map(entries, end_entry(orch))
            &&& after.net == orch.net
            &&& after.clients == orch.clients
            &&& orch.net_ids.no_duplicates() ==> after.net_ids.no_duplicates() && forall|id: u32|
                #[trigger]
                after.net_ids.contains(id) == (orch.net_ids.contains(id) && none_on(entries, id))
        }),
    decreases entries.len(),
{
    let f = world::take_down_net();
    if entries.len() == 0 {
        assert(orch.outbox =~= orch.outbox + seqs::concat_map(entries, end_entry(orch)));
    } else {
        let front = entries.drop_last();
        let e = entries.last();
        lemma_nets_said(orch, front);
        let b = seqs::fold(orch, front, f);
        let c = seqs::fold(orch, entries, f);
        assert(c == f(b, e));
        message_laws::lemma_teardowns(
            b,
            e.ip,
            e.docker_container,
            e.info.client_ip,
            e.info.docker_container,
            e.info.net_id,
        );
        assert(c.outbox =~= orch.outbox + seqs::concat_map(entries, end_entry(orch)));
        laws::lemma_without_contains(b.net_ids, e.info.net_id);
        let n = entries.len() - 1;
        assert(entries[n] == e);
        assert forall|id: u32| #[trigger]
            none_on(entries, id) == (none_on(front, id) && e.info.net_id != id) by {
            if none_on(entries, id) {
                assert forall|i: int| 0 <= i < front.len() implies (
                #[trigger] front[i]).info.net_id != id by {
                    assert(front[i] == entries[i]);
                }
                assert(entries[n].info.net_id != id);
            }
            if none_on(front, id) && e.info.net_id != id {
                assert forall|i: int| 0 <= i < entries.len() implies (
                #[trigger] entries[i]).info.net_id != id by {
                    if i < n {
                        assert(front[i] == entries[i]);
                    }
                }
            }
        }
        if orch.net_ids.no_duplicates() {
            assert forall|id: u32| #[trigger]
                c.net_ids.contains(id) == (orch.net_ids.contains(id) && none_on(entries, id)) by {
                assert(b.net_ids.contains(id) == (orch.net_ids.contains(id) && none_on(front, id)));
            }
        }
    }
}

proof fn lemma_spots_alike(
    name: Seq<char>,
    entries: Seq<EntryView>,
    f: spec_fn(Spot) -> Seq<DispatchView>,
    g: spec_fn(EntryView) -> Seq<DispatchView>,
)
    requires
        forall|i: int|
            0 <= i < entries.len() ==> f(spot_of(name, #[trigger] entries[i])) == g(entries[i]),
    ensures
        seqs::concat_map(Seq::new(entries.len(), |i: int| spot_of(name, entries[i])), f)
            == seqs::concat_map(entries, g),
    decreases entries.len(),
{
    let spots = Seq::new(entries.len(), |i: int| spot_of(name, entries[i]));
    if entries.len() > 0 {
        let front = entries.drop_last();
        assert forall|i: int| 0 <= i < front.len() implies f(spot_of(name, #[trigger] front[i]))
            == g(front[i]) by {
            assert(front[i] == entries[i]);
        }
        lemma_spots_alike(name, front, f, g);
        assert(spots.drop_last() =~= Seq::new(front.len(), |i: int| spot_of(name, front[i])));
        assert(entries[entries.len() - 1] == entries.last());
    }
}

/// Entries of a service whose networks are taken down, and whose clients are disconnected.
pub(crate) proof fn lemma_said_entries(
    v: World,
    after: World,
    name: Seq<char>,
    entries: Seq<EntryView>,
)
    requires
        after.orch == seqs::fold(v.orch, entries, world::take_down_net()),
        forall|i: int|
            0 <= i < entries.len() ==> chain_laws::at(
                v.services,
                spot_of(name, #[trigger] entries[i]),
            ) == Some(entries[i].info) && chain_laws::at(
                after.services,
                spot_of(name, entries[i]),
            ) is None,
        forall|i: int, j: int|
            0 <= i < j < entries.len() ==> spot_of(name, #[trigger] entries[i]) != spot_of(
                name,
                #[trigger] entries[j],
            ),
        forall|s: Spot|
            chain_laws::at(v.services, s) is Some && (#[trigger] chain_laws::at(
                after.services,
                s,
            )) is None ==> exists|i: int|
                0 <= i < entries.len() && spot_of(name, #[trigger] entries[i]) == s,
    ensures
        is_said(v, after, true),
{
    reveal(is_said);
    let lost = Seq::new(entries.len(), |i: int| spot_of(name, entries[i]));
    let f = farewell(v);
    let g = end_entry(v.orch);
    lemma_nets_said(v.orch, entries);
    lemma_spots_alike(name, entries, f, g);
    assert forall|s: Spot| #[trigger] lost.contains(s) implies chain_laws::at(
        v.services,
        s,
    ) is Some && chain_laws::at(after.services, s) is None by {
        let i = choose|i: int| 0 <= i < lost.len() && lost[i] == s;
        assert(spot_of(name, entries[i]) == s);
    }
    assert forall|s: Spot|
        chain_laws::at(v.services, s) is Some && (#[trigger] chain_laws::at(
            after.services,
            s,
        )) is None implies lost.contains(s) by {
        let i = choose|i: int| 0 <= i < entries.len() && spot_of(name, #[trigger] entries[i]) == s;
        assert(lost[i] == s);
    }
    assert forall|i: int, j: int| 0 <= i < j < lost.len() implies lost[i] != lost[j] by {
        assert(spot_of(name, entries[i]) != spot_of(name, entries[j]));
    }
    assert forall|id: u32| #[trigger]
        frees(v, lost, id) == !(none_on(entries, id)) by {
        if frees(v, lost, id) {
            let s = choose|s: Spot| #[trigger]
                lost.contains(s) && is_on(v, s, id);
            let i = choose|i: int| 0 <= i < lost.len() && lost[i] == s;
            assert(spot_of(name, entries[i]) == s);
            assert(entries[i].info.net_id == id);
        }
        if exists|i: int| 0 <= i < entries.len() && (#[trigger] entries[i]).info.net_id == id {
            let i = choose|i: int|
                0 <= i < entries.len() && (#[trigger] entries[i]).info.net_id == id;
            let s = spot_of(name, entries[i]);
            assert(lost[i] == s);
            assert(lost.contains(s));
        }
    }
    assert(says(v, after, lost, true));
}

} // verus!
