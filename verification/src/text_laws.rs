//! What numerals, addresses and graphs say.
use crate::addr::{IpAddr, Ipv4Addr};
use crate::graphviz;
use crate::net::Net;
use crate::nullnet_grpc_impl::RequestError;
use crate::seqs;
use crate::services::clients::{ClientInfoView, ClientView};
use crate::services::connections;
use crate::services::laws;
use crate::services::model;
use crate::services::model::{EntryView, ServicesView};
use crate::text;
use vstd::prelude::*;

verus! {

/// The number that a text of digits says, each digit ten times what it says one place further right.
pub open spec fn value(s: Seq<char>) -> int
    decreases s.len(),
{
    if s.len() == 0 {
        0
    } else {
        10 * value(s.drop_last()) + (s.last() as int - '0' as int)
    }
}

/// A numeral: digits, of which the first is not zero unless it is the only one.
pub open spec fn is_numeral(s: Seq<char>) -> bool {
    &&& s.len() > 0
    &&& forall|i: int| 0 <= i < s.len() ==> '0' <= #[trigger] s[i] <= '9'
    &&& s.len() > 1 ==> s[0] != '0'
}

/// The numeral of a number says that number.
pub proof fn law_numeral(n: nat)
    ensures
        is_numeral(text::decimal_text(n)),
        value(text::decimal_text(n)) == n,
    decreases n,
{
    let s = text::decimal_text(n);
    if n < 10 {
        assert(s.drop_last() =~= Seq::empty());
        assert(value(s.drop_last()) == 0);
    } else {
        let front = text::decimal_text(n / 10);
        law_numeral(n / 10);
        assert(s.drop_last() =~= front);
        assert forall|i: int| 0 <= i < s.len() implies '0' <= #[trigger] s[i] <= '9' by {
            if i < front.len() {
                assert(s[i] == front[i]);
            }
        }
        assert(s[0] == front[0]);
        if front.len() == 1 && front[0] == '0' {
            assert(front.drop_last() =~= Seq::empty());
            assert(value(front.drop_last()) == 0);
            assert(value(front) == 0);
        }
    }
}

/// Different numbers have different numerals.
pub proof fn law_numerals_differ(m: nat, n: nat)
    ensures
        text::decimal_text(m) == text::decimal_text(n) <==> m == n,
{
    law_numeral(m);
    law_numeral(n);
}

/// A text is four numerals with dots between them.
pub open spec fn says_address(
    s: Seq<char>,
    a: Seq<char>,
    b: Seq<char>,
    c: Seq<char>,
    d: Seq<char>,
) -> bool {
    &&& s == a + seq!['.'] + b + seq!['.'] + c + seq!['.'] + d
    &&& is_numeral(a) && is_numeral(b) && is_numeral(c) && is_numeral(d)
}

/// The written form of an address says its four numbers, in their order, with dots between them.
pub proof fn law_dotted(addr: Ipv4Addr)
    ensures
        exists|a: Seq<char>, b: Seq<char>, c: Seq<char>, d: Seq<char>|
            {
                &&& #[trigger] says_address(addr.dotted(), a, b, c, d)
                &&& value(a) == addr.a
                &&& value(b) == addr.b
                &&& value(c) == addr.c
                &&& value(d) == addr.d
            },
{
    reveal_strlit(".");
    let a = text::decimal_text(addr.a as nat);
    let b = text::decimal_text(addr.b as nat);
    let c = text::decimal_text(addr.c as nat);
    let d = text::decimal_text(addr.d as nat);
    law_numeral(addr.a as nat);
    law_numeral(addr.b as nat);
    law_numeral(addr.c as nat);
    law_numeral(addr.d as nat);
    assert("."@ =~= seq!['.']);
    assert(says_address(addr.dotted(), a, b, c, d));
}

/// A text holds another.
pub open spec fn holds_text(s: Seq<char>, p: Seq<char>) -> bool {
    exists|before: Seq<char>, after: Seq<char>| s == #[trigger] (before + p + after)
}

/// Each piece of a text that is put together is in it.
proof fn lemma_piece<A>(s: Seq<A>, f: spec_fn(A) -> Seq<char>, i: int)
    requires
        0 <= i < s.len(),
    ensures
        holds_text(seqs::concat_map(s, f), f(s[i])),
    decreases s.len(),
{
    let front = s.drop_last();
    let before = seqs::concat_map(front, f);
    let all = seqs::concat_map(s, f);
    assert(all == before + f(s.last()));
    if i == s.len() - 1 {
        assert(all =~= before + f(s[i]) + Seq::empty());
    } else {
        lemma_piece(front, f, i);
        assert(front[i] == s[i]);
        lemma_holds_more(Seq::empty(), before, f(s[i]), f(s.last()));
        assert(Seq::empty() + before + f(s.last()) =~= all);
    }
}

/// A text that holds another holds it with more around it.
proof fn lemma_holds_more(x: Seq<char>, s: Seq<char>, p: Seq<char>, y: Seq<char>)
    requires
        holds_text(s, p),
    ensures
        holds_text(x + s + y, p),
{
    let (b, a) = choose|b: Seq<char>, a: Seq<char>| s == #[trigger] (b + p + a);
    assert(x + s + y =~= (x + b) + p + (a + y));
}

/// What a text holds within what it holds.
proof fn lemma_holds_within(s: Seq<char>, t: Seq<char>, p: Seq<char>)
    requires
        holds_text(s, t),
        holds_text(t, p),
    ensures
        holds_text(s, p),
{
    let (b, a) = choose|b: Seq<char>, a: Seq<char>| s == #[trigger] (b + t + a);
    lemma_holds_more(b, t, p, a);
}

/// The line that a service has in the graph.
pub open spec fn node_line(name: Seq<char>, is_entry_point: bool, runs: bool) -> Seq<char> {
    "\n\t\""@ + name + "\" "@ + (if is_entry_point {
        if runs {
            "[style=solid, color=green]"@
        } else {
            "[style=solid, color=red]"@
        }
    } else {
        if runs {
            "[style=dashed, color=green]"@
        } else {
            "[style=dashed, color=red]"@
        }
    }) + ";\n"@
}

/// The line that a connection has in the graph.
pub open spec fn conn_line(
    client: Seq<char>,
    name: Seq<char>,
    net: Net,
    ci: ClientInfoView,
) -> Seq<char> {
    "\t\""@ + client + "\" -> \""@ + name + "\" "@ + ("[label=\""@ + (match net {
        Net::Vlan => "VLAN"@,
        Net::Vxlan => "VXLAN"@,
    }) + " "@ + text::decimal_text(ci.net_id as nat) + " ["@ + text::decimal_text(ci.time_ms as nat)
        + "ms]\""@ + "]"@) + ";\n"@
}

/// How much of the graph services take.
pub open spec fn drawn_len(services: ServicesView, net: Net) -> nat
    decreases services.len(),
{
    if services.len() == 0 {
        0
    } else {
        let s = services.last();
        drawn_len(services.drop_last(), net) + node_line(
            s.0,
            s.1.config().timeout is Some,
            s.1 is Registered,
        ).len() + match s.1 {
            model::ServiceView::Registered(reg) => replicas_len(s.0, reg.replicas, net),
            model::ServiceView::Unregistered(_) => 0,
        }
    }
}

/// How much of the graph the connections to replicas take.
pub open spec fn replicas_len(name: Seq<char>, replicas: Seq<model::ReplicaView>, net: Net) -> nat
    decreases replicas.len(),
{
    if replicas.len() == 0 {
        0
    } else {
        replicas_len(name, replicas.drop_last(), net) + clients_len(
            name,
            replicas.last().clients,
            net,
        )
    }
}

/// How much of the graph connections take.
pub open spec fn clients_len(
    name: Seq<char>,
    clients: Seq<(ClientView, ClientInfoView)>,
    net: Net,
) -> nat
    decreases clients.len(),
{
    if clients.len() == 0 {
        0
    } else {
        clients_len(name, clients.drop_last(), net) + conn_line(
            clients.last().0.name,
            name,
            net,
            clients.last().1,
        ).len()
    }
}

proof fn lemma_edge_line(e: EntryView, name: Seq<char>, net: Net)
    ensures
        graphviz::edge_line(name, net)(e) == conn_line(e.client.name, name, net, e.info),
{
    let label = "[label=\""@ + (match net {
        Net::Vlan => "VLAN"@,
        Net::Vxlan => "VXLAN"@,
    }) + " "@ + text::decimal_text(e.info.net_id as nat) + " ["@ + text::decimal_text(
        e.info.time_ms as nat,
    ) + "ms]\""@ + "]"@;
    assert(graphviz::label_text(e.info, net, false) =~= label);
}

proof fn lemma_clients_len(name: Seq<char>, r: model::ReplicaView, net: Net, m: int)
    requires
        0 <= m <= r.clients.len(),
    ensures
        seqs::concat_map(r.entries().take(m), graphviz::edge_line(name, net)).len() == clients_len(
            name,
            r.clients.take(m),
            net,
        ),
    decreases m,
{
    if m > 0 {
        lemma_clients_len(name, r, net, m - 1);
        assert(r.entries().take(m).drop_last() =~= r.entries().take(m - 1));
        assert(r.clients.take(m).drop_last() =~= r.clients.take(m - 1));
        lemma_edge_line(r.entries()[m - 1], name, net);
    }
}

proof fn lemma_concat_len<A>(s: Seq<A>, t: Seq<A>, f: spec_fn(A) -> Seq<char>)
    ensures
        seqs::concat_map(s + t, f).len() == seqs::concat_map(s, f).len() + seqs::concat_map(
            t,
            f,
        ).len(),
    decreases t.len(),
{
    if t.len() == 0 {
        assert(s + t =~= s);
    } else {
        lemma_concat_len(s, t.drop_last(), f);
        assert((s + t).drop_last() =~= s + t.drop_last());
    }
}

proof fn lemma_replicas_len(name: Seq<char>, replicas: Seq<model::ReplicaView>, net: Net)
    ensures
        seqs::concat_map(
            seqs::concat_map(replicas, model::entries_of()),
            graphviz::edge_line(name, net),
        ).len() == replicas_len(name, replicas, net),
    decreases replicas.len(),
{
    if replicas.len() > 0 {
        let r = replicas.last();
        lemma_replicas_len(name, replicas.drop_last(), net);
        lemma_concat_len(
            seqs::concat_map(replicas.drop_last(), model::entries_of()),
            r.entries(),
            graphviz::edge_line(name, net),
        );
        lemma_clients_len(name, r, net, r.clients.len() as int);
        assert(r.entries().take(r.clients.len() as int) =~= r.entries());
        assert(r.clients.take(r.clients.len() as int) =~= r.clients);
    }
}

proof fn lemma_drawn_len(services: ServicesView, net: Net)
    ensures
        seqs::concat_map(services, graphviz::service_block(net)).len() == drawn_len(services, net),
    decreases services.len(),
{
    if services.len() > 0 {
        lemma_drawn_len(services.drop_last(), net);
        if let model::ServiceView::Registered(reg) = services.last().1 {
            lemma_replicas_len(services.last().0, reg.replicas, net);
        }
    }
}

/// The graph has a line for every service, solid where it is an entry point and green where it runs, and a
/// line for every connection, from its client to the service, with its network and the duration of its
/// set-up. It starts and ends as every graph, and holds nothing else.
pub proof fn law_graph(services: ServicesView, net: Net)
    requires
        connections::services_wf(services),
    ensures
        forall|name: Seq<char>|
            (#[trigger] laws::config_at(services, name)) matches Some(config) ==> holds_text(
                graphviz::graph_text(services, net),
                node_line(
                    name,
                    config.timeout is Some,
                    model::registered(services, name) is Some,
                ),
            ),
        forall|name: Seq<char>, ip: IpAddr, docker: Option<Seq<char>>, c: ClientView|
            (#[trigger] connections::conn(services, name, ip, docker, c)) matches Some(ci)
                ==> holds_text(
                graphviz::graph_text(services, net),
                conn_line(c.name, name, net, ci),
            ),
        graphviz::graph_text(services, net).len() == graphviz::head_text().len() + drawn_len(
            services,
            net,
        ) + "}\n"@.len(),
{
    let f = graphviz::service_block(net);
    let blocks = seqs::concat_map(services, f);
    lemma_drawn_len(services, net);
    assert forall|name: Seq<char>|
        (#[trigger] laws::config_at(services, name)) matches Some(config) ==> holds_text(
            graphviz::graph_text(services, net),
            node_line(name, config.timeout is Some, model::registered(services, name) is Some),
        ) by {
        if let Some(config) = laws::config_at(services, name) {
            let i = laws::lemma_listed(services, name);
            crate::table::lemma_occurs(services, name, i);
            let line = node_line(
                name,
                config.timeout is Some,
                model::registered(services, name) is Some,
            );
            lemma_piece(services, f, i);
            let block = f(services[i]);
            let rest = block.skip(line.len() as int);
            assert(block =~= Seq::empty() + line + rest);
            lemma_holds_within(blocks, block, line);
            lemma_holds_more(graphviz::head_text(), blocks, line, "}\n"@);
        }
    }
    assert forall|name: Seq<char>, ip: IpAddr, docker: Option<Seq<char>>, c: ClientView|
        (#[trigger] connections::conn(services, name, ip, docker, c)) matches Some(ci)
            ==> holds_text(
            graphviz::graph_text(services, net),
            conn_line(c.name, name, net, ci),
        ) by {
        if let Some(ci) = connections::conn(services, name, ip, docker, c) {
            let i = laws::lemma_listed(services, name);
            crate::table::lemma_occurs(services, name, i);
            let reg = model::registered(services, name)->0;
            connections::lemma_wf_of(services, name);
            let e = EntryView {
                client: c,
                info: ci,
                ip,
                docker_container: docker,
                port: reg.replicas[reg.replica_index(ip, docker)].port,
            };
            connections::lemma_entries(reg, e);
            let k = choose|k: int| 0 <= k < reg.entries().len() && reg.entries()[k] == e;
            let g = graphviz::edge_line(name, net);
            lemma_edge_line(e, name, net);
            let line = conn_line(c.name, name, net, ci);
            lemma_piece(reg.entries(), g, k);
            let edges = seqs::concat_map(reg.entries(), g);
            lemma_piece(services, f, i);
            let block = f(services[i]);
            let start = "\n\t\""@ + name + "\" "@ + graphviz::style_text(services[i].1) + ";\n"@;
            assert(block =~= start + edges + Seq::empty());
            lemma_holds_more(start, edges, line, Seq::empty());
            lemma_holds_within(blocks, block, line);
            lemma_holds_more(graphviz::head_text(), blocks, line, "}\n"@);
        }
    }
}

/// The first place at which a text holds another.
pub open spec fn starts_at(s: Seq<char>, p: Seq<char>, i: int) -> bool {
    &&& 0 <= i && i + p.len() <= s.len()
    &&& s.subrange(i, i + p.len()) == p
    &&& forall|j: int|
        0 <= j < i && j + p.len() <= s.len() ==> #[trigger] s.subrange(j, j + p.len()) != p
}

/// Normalising takes off a line what follows the first label on it, and ends it with a semicolon, where the
/// line draws a connection. Every other line stays as it is.
pub proof fn law_plain_line(line: Seq<char>, i: int)
    ensures
        starts_at(line, " [label="@, i) && (exists|j: int| #[trigger] starts_at(line, "->"@, j))
            ==> graphviz::plain_line(line) == line.take(i) + seq![';'],
        (forall|j: int| !#[trigger] starts_at(line, " [label="@, j)) || (forall|j: int|
            !#[trigger] starts_at(line, "->"@, j)) ==> graphviz::plain_line(line) == line,
{
    reveal_strlit(";");
    assert(";"@ =~= seq![';']);
    lemma_starts(line, " [label="@);
    lemma_starts(line, "->"@);
    let p = " [label="@;
    if starts_at(line, p, i) {
        assert(graphviz::is_first_occurrence(line, p, i));
        let k = graphviz::find(line, p)->0;
        assert(graphviz::is_first_occurrence(line, p, k));
        if k < i {
            assert(graphviz::occurs_at(line, p, k));
            assert(line.subrange(k, k + p.len()) != p);
        } else if i < k {
            assert(!graphviz::occurs_at(line, p, i));
        }
    }
}

proof fn lemma_starts(s: Seq<char>, p: Seq<char>)
    ensures
        forall|i: int| #[trigger] starts_at(s, p, i) == graphviz::is_first_occurrence(s, p, i),
        graphviz::find(s, p) is Some == exists|i: int| #[trigger] starts_at(s, p, i),
{
    assert forall|i: int| #[trigger]
        starts_at(s, p, i) == graphviz::is_first_occurrence(s, p, i) by {
        if starts_at(s, p, i) {
            assert forall|j: int| 0 <= j < i implies !#[trigger] graphviz::occurs_at(s, p, j) by {
                if graphviz::occurs_at(s, p, j) {
                    assert(s.subrange(j, j + p.len()) != p);
                }
            }
        }
        if graphviz::is_first_occurrence(s, p, i) {
            assert forall|j: int| 0 <= j < i && j + p.len() <= s.len() implies #[trigger] s.subrange(
                j,
                j + p.len(),
            ) != p by {
                assert(!graphviz::occurs_at(s, p, j));
            }
        }
    }
    if graphviz::find(s, p) is Some {
        let i = choose|i: int| graphviz::is_first_occurrence(s, p, i);
        assert(starts_at(s, p, i));
    }
    if exists|i: int| #[trigger] starts_at(s, p, i) {
        let i = choose|i: int| #[trigger] starts_at(s, p, i);
        assert(graphviz::is_first_occurrence(s, p, i));
    }
}

/// Lines with a line feed between each and the next.
pub open spec fn glued(lines: Seq<Seq<char>>) -> Seq<char>
    decreases lines.len(),
{
    if lines.len() == 0 {
        Seq::empty()
    } else if lines.len() == 1 {
        lines[0]
    } else {
        lines[0] + seq!['\n'] + glued(lines.drop_first())
    }
}

/// A text consists of lines, of which the last may lack its line feed.
pub open spec fn are_lines(s: Seq<char>, lines: Seq<Seq<char>>) -> bool {
    &&& forall|k: int, j: int|
        0 <= k < lines.len() && 0 <= j < lines[k].len() ==> #[trigger] lines[k][j] != '\n'
    &&& s == (if s.len() > 0 && s.last() == '\n' {
        glued(lines).push('\n')
    } else {
        glued(lines)
    })
}

/// A line is another without its label, where that one draws a connection, else the same.
pub open spec fn is_plain_of(line: Seq<char>, plain: Seq<char>) -> bool {
    if (exists|i: int| #[trigger] starts_at(line, " [label="@, i)) && (exists|j: int| #[trigger]
        starts_at(line, "->"@, j)) {
        exists|i: int| #[trigger]
            starts_at(line, " [label="@, i) && plain == line.take(i) + seq![';']
    } else {
        plain == line
    }
}

proof fn lemma_joined_head(head: Seq<char>, rest: Seq<Seq<char>>)
    requires
        rest.len() > 0,
    ensures
        graphviz::joined(seq![head] + rest) == head + seq!['\n'] + graphviz::joined(rest),
    decreases rest.len(),
{
    reveal_strlit("\n");
    assert("\n"@ =~= seq!['\n']);
    let all = seq![head] + rest;
    let front = rest.drop_last();
    assert(all.last() == rest.last());
    if rest.len() == 1 {
        assert(all.drop_last() =~= seq![head]);
        assert(graphviz::joined(seq![head]) == head);
        assert(graphviz::joined(rest) == rest[0]);
    } else {
        lemma_joined_head(head, front);
        assert(all.drop_last() =~= seq![head] + front);
        assert(graphviz::joined(all) =~= head + seq!['\n'] + graphviz::joined(rest));
    }
}

proof fn lemma_joined(lines: Seq<Seq<char>>)
    ensures
        graphviz::joined(lines) == glued(lines),
    decreases lines.len(),
{
    if lines.len() > 1 {
        let rest = lines.drop_first();
        lemma_joined(rest);
        lemma_joined_head(lines[0], rest);
        assert(seq![lines[0]] + rest =~= lines);
    }
}

proof fn lemma_lines(s: Seq<char>)
    requires
        forall|j: int| 0 <= j < s.len() ==> #[trigger] s[j] != '\r',
    ensures
        are_lines(s, graphviz::lines(s)),
        s.len() > 0 ==> graphviz::lines(s).len() > 0,
    decreases s.len(),
{
    let all = graphviz::lines(s);
    if s.len() == 0 {
        assert(s =~= glued(all));
    } else if exists|i: int| graphviz::is_line_end(s, i) {
        let i = choose|i: int| graphviz::is_line_end(s, i);
        let head = s.take(i);
        let rest = s.skip(i + 1);
        assert(graphviz::without_return(head) == head) by {
            if head.len() > 0 {
                assert(head.last() == s[i - 1]);
            }
        }
        assert forall|j: int| 0 <= j < rest.len() implies #[trigger] rest[j] != '\r' by {
            assert(rest[j] == s[i + 1 + j]);
        }
        lemma_lines(rest);
        let more = graphviz::lines(rest);
        assert(all == seq![head] + more);
        assert(all.drop_first() =~= more);
        assert(s =~= head + seq!['\n'] + rest);
        assert forall|k: int, j: int|
            0 <= k < all.len() && 0 <= j < all[k].len() implies #[trigger] all[k][j] != '\n' by {
            if k == 0 {
                assert(head[j] == s[j]);
            } else {
                assert(all[k] == more[k - 1]);
                assert(more[k - 1][j] != '\n');
            }
        }
        if rest.len() == 0 {
            assert(more =~= Seq::empty());
            assert(all =~= seq![head]);
            assert(s =~= glued(all).push('\n'));
        } else {
            assert(s.last() == rest.last());
            assert(glued(all) == head + seq!['\n'] + glued(more));
            if rest.last() == '\n' {
                assert(s =~= glued(all).push('\n'));
            } else {
                assert(s =~= glued(all));
            }
        }
    } else {
        assert(all == seq![s]);
        assert forall|k: int, j: int|
            0 <= k < all.len() && 0 <= j < all[k].len() implies #[trigger] all[k][j] != '\n' by {
            if s[j] == '\n' {
                lemma_some_line_end(s, j);
            }
        }
        if s.last() == '\n' {
            lemma_some_line_end(s, s.len() - 1);
        }
    }
}

proof fn lemma_some_line_end(s: Seq<char>, w: int)
    requires
        0 <= w < s.len(),
        s[w] == '\n',
    ensures
        exists|i: int| graphviz::is_line_end(s, i),
    decreases w,
{
    if exists|j: int| 0 <= j < w && #[trigger] s[j] == '\n' {
        let j = choose|j: int| 0 <= j < w && #[trigger] s[j] == '\n';
        lemma_some_line_end(s, j);
    } else {
        assert(graphviz::is_line_end(s, w));
    }
}

/// Normalising a text takes its lines one by one, in their order: each that draws a connection loses its
/// label, each other stays. They are put together with line feeds between them.
pub proof fn law_normalized(s: Seq<char>)
    requires
        forall|j: int| 0 <= j < s.len() ==> #[trigger] s[j] != '\r',
    ensures
        exists|lines: Seq<Seq<char>>, plain: Seq<Seq<char>>|
            {
                &&& #[trigger] are_lines(s, lines)
                &&& plain.len() == lines.len()
                &&& forall|k: int|
                    0 <= k < lines.len() ==> is_plain_of(#[trigger] lines[k], plain[k])
                &&& graphviz::plain_text(s) == #[trigger] glued(plain)
            },
{
    let lines = graphviz::lines(s);
    let plain = lines.map_values(|line: Seq<char>| graphviz::plain_line(line));
    lemma_lines(s);
    lemma_joined(plain);
    assert forall|k: int| 0 <= k < lines.len() implies is_plain_of(#[trigger] lines[k], plain[k]) by {
        let line = lines[k];
        if exists|i: int| #[trigger] starts_at(line, " [label="@, i) {
            let i = choose|i: int| #[trigger] starts_at(line, " [label="@, i);
            law_plain_line(line, i);
        } else {
            law_plain_line(line, 0);
        }
    }
    assert(are_lines(s, lines) && graphviz::plain_text(s) == glued(plain));
}

/// What each refusal says.
pub proof fn law_reasons()
    ensures
        RequestError::ServiceNotFound.reason() == "Service not found"@,
        RequestError::NotEntryPoint.reason() == "Service is not a configured entry point"@,
        RequestError::NotRegistered.reason() == "Service is not registered"@,
        RequestError::NoReplicas.reason() == "Service has no replicas"@,
        RequestError::DependencyNotRegistered.reason() == "Dependency not registered"@,
        RequestError::SetupFailed.reason() == "NET chain setup failed"@,
        RequestError::NoUpstream.reason() == "No valid upstream IP found after NET chain setup"@,
        RequestError::InitiatorNotFound.reason() == "Initiator service not found"@,
        RequestError::InitiatorNotEntryPoint.reason()
            == "Initiator service is not a configured entry point"@,
        RequestError::InitiatorNotRegistered.reason() == "Initiator service is not registered"@,
        RequestError::NoInitiatorReplica.reason() == "No initiator replica found on sender host"@,
        RequestError::NoDependencies.reason() == "Initiator service has no dependencies"@,
        RequestError::InvalidPort.reason() == "Port is out of range"@,
{
}

} // verus!
