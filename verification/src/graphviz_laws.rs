//! What normalised graphs have in common.
use crate::graphviz;
use crate::net::Net;
use crate::seqs;
use crate::services::clients::ClientInfoView;
use crate::services::model::{EntryView, ServiceView, ServicesView};
use crate::text;
use vstd::prelude::*;

verus! {

/// The connections to a service that are drawn, by client.
pub open spec fn drawn(si: ServiceView) -> Seq<EntryView> {
    match si {
        ServiceView::Registered(reg) => reg.entries(),
        ServiceView::Unregistered(_) => Seq::empty(),
    }
}

/// Two services are drawn alike: in the same style, and with connections of clients of the same
/// names. Their networks and times may differ.
pub open spec fn is_drawn_alike(a: ServiceView, b: ServiceView) -> bool {
    &&& graphviz::style_text(a) == graphviz::style_text(b)
    &&& drawn(a).len() == drawn(b).len()
    &&& forall|k: int|
        0 <= k < drawn(a).len() ==> (#[trigger] drawn(a)[k]).client.name == drawn(b)[k].client.name
}

/// Services of the same names are drawn alike, in the same order.
pub open spec fn are_drawn_alike(a: ServicesView, b: ServicesView) -> bool {
    &&& a.len() == b.len()
    &&& forall|i: int|
        0 <= i < a.len() ==> {
            &&& (#[trigger] a[i]).0 == b[i].0
            &&& is_drawn_alike(a[i].1, b[i].1)
        }
}

/// The lines of a text, without the labels of connections.
spec fn plain(s: Seq<char>) -> Seq<Seq<char>> {
    graphviz::lines(s).map_values(|line: Seq<char>| graphviz::plain_line(line))
}

/// A text that ends where a line does.
spec fn is_whole(s: Seq<char>) -> bool {
    s.len() == 0 || s.last() == '\n'
}

/// The first line feed is the only first one.
proof fn lemma_line_end(s: Seq<char>, i: int)
    requires
        graphviz::is_line_end(s, i),
    ensures
        graphviz::lines(s) == seq![graphviz::without_return(s.take(i))] + graphviz::lines(
            s.skip(i + 1),
        ),
{
    let k = choose|k: int| graphviz::is_line_end(s, k);
    assert(graphviz::is_line_end(s, k));
    if k < i {
        assert(s[k] != '\n');
    } else if i < k {
        assert(s[i] != '\n');
    }
}

/// A text with a line feed has a first one.
proof fn lemma_first_line_end(s: Seq<char>, w: int) -> (i: int)
    requires
        0 <= w < s.len(),
        s[w] == '\n',
    ensures
        graphviz::is_line_end(s, i),
        i <= w,
    decreases w,
{
    if exists|j: int| 0 <= j < w && #[trigger] s[j] == '\n' {
        let j = choose|j: int| 0 <= j < w && #[trigger] s[j] == '\n';
        lemma_first_line_end(s, j)
    } else {
        w
    }
}

/// The lines of a whole text and of what follows it are those of the two.
proof fn lemma_lines_after(x: Seq<char>, y: Seq<char>)
    requires
        is_whole(x),
    ensures
        graphviz::lines(x + y) == graphviz::lines(x) + graphviz::lines(y),
    decreases x.len(),
{
    if x.len() == 0 {
        assert(x + y =~= y);
        assert(graphviz::lines(x) =~= Seq::empty());
        assert(graphviz::lines(x) + graphviz::lines(y) =~= graphviz::lines(y));
    } else {
        let s = x + y;
        let i = lemma_first_line_end(x, x.len() - 1);
        assert(graphviz::is_line_end(s, i)) by {
            assert forall|j: int| 0 <= j < i implies #[trigger] s[j] != '\n' by {
                assert(s[j] == x[j]);
            }
        }
        lemma_line_end(x, i);
        lemma_line_end(s, i);
        let rest = x.skip(i + 1);
        assert(s.take(i) =~= x.take(i));
        assert(s.skip(i + 1) =~= rest + y);
        assert(is_whole(rest));
        lemma_lines_after(rest, y);
        let first = seq![graphviz::without_return(x.take(i))];
        assert(first + (graphviz::lines(rest) + graphviz::lines(y)) =~= (first + graphviz::lines(
            rest,
        )) + graphviz::lines(y));
    }
}

proof fn lemma_plain_after(x: Seq<char>, y: Seq<char>)
    requires
        is_whole(x),
    ensures
        plain(x + y) == plain(x) + plain(y),
{
    lemma_lines_after(x, y);
    assert(plain(x + y) =~= plain(x) + plain(y));
}

/// A text without a line feed but the last character's is one line.
proof fn lemma_one_line(line: Seq<char>)
    requires
        line.len() > 0,
        line.last() != '\r',
        forall|j: int| 0 <= j < line.len() ==> #[trigger] line[j] != '\n',
    ensures
        graphviz::lines(line + seq!['\n']) == seq![line],
{
    let s = line + seq!['\n'];
    let n = line.len() as int;
    assert(graphviz::is_line_end(s, n)) by {
        assert forall|j: int| 0 <= j < n implies #[trigger] s[j] != '\n' by {
            assert(s[j] == line[j]);
        }
    }
    lemma_line_end(s, n);
    assert(s.take(n) =~= line);
    assert(s.skip(n + 1) =~= Seq::empty());
    assert(graphviz::lines(s.skip(n + 1)) =~= Seq::empty());
    assert(seq![line] + Seq::<Seq<char>>::empty() =~= seq![line]);
}

/// The characters of a numeral are digits.
proof fn lemma_numeral(n: nat)
    ensures
        forall|j: int|
            0 <= j < text::decimal_text(n).len() ==> '0' <= #[trigger] text::decimal_text(n)[j]
                <= '9',
    decreases n,
{
    let s = text::decimal_text(n);
    if n >= 10 {
        lemma_numeral(n / 10);
        let front = text::decimal_text(n / 10);
        assert forall|j: int| 0 <= j < s.len() implies '0' <= #[trigger] s[j] <= '9' by {
            if j < front.len() {
                assert(s[j] == front[j]);
            } else {
                assert(s[j] == text::digit_char(n % 10));
            }
        }
    }
}

/// A label starts as all do, and holds no line feed.
proof fn lemma_label(ci: ClientInfoView, net: Net)
    ensures
        ({
            let label = graphviz::label_text(ci, net, false);
            &&& label.len() > 7
            &&& label.take(7) == "[label="@
            &&& forall|j: int| 0 <= j < label.len() ==> #[trigger] label[j] != '\n'
        }),
{
    reveal_strlit("[label=\"");
    reveal_strlit("[label=");
    reveal_strlit("VLAN");
    reveal_strlit("VXLAN");
    reveal_strlit(" ");
    reveal_strlit(" [");
    reveal_strlit("ms]\"");
    reveal_strlit("]");
    let label = graphviz::label_text(ci, net, false);
    let id = text::decimal_text(ci.net_id as nat);
    let time = text::decimal_text(ci.time_ms as nat);
    lemma_numeral(ci.net_id as nat);
    lemma_numeral(ci.time_ms as nat);
    let a = "[label=\""@;
    let b = graphviz::net_text(net);
    let c = " "@;
    let d = " ["@;
    let e = "ms]\""@;
    let f = "]"@;
    assert(label == a + b + c + id + d + time + e + f);
    assert(label.take(7) =~= "[label="@);
    assert forall|j: int| 0 <= j < label.len() implies #[trigger] label[j] != '\n' by {
        let n1 = a.len() as int;
        let n2 = n1 + b.len();
        let n3 = n2 + c.len();
        let n4 = n3 + id.len();
        let n5 = n4 + d.len();
        let n6 = n5 + time.len();
        let n7 = n6 + e.len();
        if j < n1 {
            assert(label[j] == a[j]);
        } else if j < n2 {
            assert(label[j] == b[j - n1]);
        } else if j < n3 {
            assert(label[j] == c[j - n2]);
        } else if j < n4 {
            assert(label[j] == id[j - n3]);
        } else if j < n5 {
            assert(label[j] == d[j - n4]);
        } else if j < n6 {
            assert(label[j] == time[j - n5]);
        } else if j < n7 {
            assert(label[j] == e[j - n6]);
        } else {
            assert(label[j] == f[j - n7]);
        }
    }
}

/// A text that occurs somewhere occurs somewhere first.
proof fn lemma_first_occurrence(s: Seq<char>, p: Seq<char>, m: int) -> (i: int)
    requires
        graphviz::occurs_at(s, p, m),
    ensures
        graphviz::is_first_occurrence(s, p, i),
        graphviz::find(s, p) == Some(i),
        i <= m,
    decreases m,
{
    if exists|j: int| 0 <= j < m && #[trigger] graphviz::occurs_at(s, p, j) {
        let j = choose|j: int| 0 <= j < m && #[trigger] graphviz::occurs_at(s, p, j);
        lemma_first_occurrence(s, p, j)
    } else {
        assert(graphviz::is_first_occurrence(s, p, m));
        let k = choose|k: int| graphviz::is_first_occurrence(s, p, k);
        assert(graphviz::is_first_occurrence(s, p, k));
        if k < m {
            assert(!graphviz::occurs_at(s, p, k));
        } else if m < k {
            assert(!graphviz::occurs_at(s, p, m));
        }
        m
    }
}

/// What occurs in the start of a text occurs there first in the text.
proof fn lemma_find_in_start(s: Seq<char>, start: Seq<char>, p: Seq<char>, m: int) -> (i: int)
    requires
        start.len() <= s.len(),
        s.take(start.len() as int) == start,
        graphviz::occurs_at(start, p, m),
    ensures
        graphviz::find(s, p) == Some(i),
        graphviz::find(start, p) == Some(i),
        0 <= i <= m,
{
    let i = lemma_first_occurrence(start, p, m);
    assert forall|j: int| 0 <= j && j + p.len() <= start.len() implies #[trigger]
        graphviz::occurs_at(s, p, j) == graphviz::occurs_at(start, p, j) by {
        assert(s.subrange(j, j + p.len()) =~= start.subrange(j, j + p.len()));
    }
    assert(graphviz::occurs_at(s, p, i));
    let k = lemma_first_occurrence(s, p, i);
    if k < i {
        assert(graphviz::occurs_at(start, p, k));
    }
    i
}

/// The last line feed of a text splits it.
proof fn lemma_last_line(s: Seq<char>) -> (k: int)
    ensures
        0 <= k <= s.len(),
        is_whole(s.take(k)),
        forall|j: int| k <= j < s.len() ==> #[trigger] s[j] != '\n',
    decreases s.len(),
{
    if s.len() == 0 || s.last() == '\n' {
        assert(s.take(s.len() as int) =~= s);
        s.len() as int
    } else {
        let front = s.drop_last();
        let k = lemma_last_line(front);
        assert(front.take(k) =~= s.take(k));
        assert forall|j: int| k <= j < s.len() implies #[trigger] s[j] != '\n' by {
            if j < front.len() {
                assert(front[j] == s[j]);
            }
        }
        k
    }
}

/// The part of a connection's line before its label, from the client's name on.
spec fn line_start(rest: Seq<char>, name: Seq<char>) -> Seq<char> {
    rest + ("\" -> \""@ + name + "\" "@)
}

/// A line of a connection without its label does not depend on the label.
proof fn lemma_plain_line(rest: Seq<char>, name: Seq<char>, label: Seq<char>)
    requires
        label.len() > 7,
        label.take(7) == "[label="@,
    ensures
        ({
            let q = line_start(rest, name);
            let start = q + "[label="@;
            let i = graphviz::find(start, " [label="@);
            &&& i is Some
            &&& graphviz::plain_line(q + label + ";"@) == start.take(i->0) + ";"@
        }),
{
    reveal_strlit("[label=");
    reveal_strlit(" [label=");
    reveal_strlit("->");
    reveal_strlit("\" -> \"");
    reveal_strlit("\" ");
    reveal_strlit(";");
    let q = line_start(rest, name);
    let start = q + "[label="@;
    let line = q + label + ";"@;
    let n = start.len() as int;
    assert(line.take(n) =~= start) by {
        assert forall|j: int| 0 <= j < n implies #[trigger] line.take(n)[j] == start[j] by {
            if j >= q.len() {
                assert(line[j] == label[j - q.len()]);
                assert(label.take(7)[j - q.len()] == label[j - q.len()]);
            }
        }
    }
    let m = rest.len() as int + 2;
    assert(graphviz::occurs_at(start, "->"@, m)) by {
        assert(start.subrange(m, m + 2) =~= "->"@);
    }
    let a = lemma_find_in_start(line, start, "->"@, m);
    let l = q.len() - 1;
    assert(q[l] == ' ');
    assert(graphviz::occurs_at(start, " [label="@, l)) by {
        assert(start.subrange(l, l + 8) =~= " [label="@);
    }
    let i = lemma_find_in_start(line, start, " [label="@, l);
    assert(line.take(i) =~= start.take(i));
}

/// The lines of a connection without their label do not depend on its network and time, unless the
/// name of the service holds a line feed.
proof fn lemma_edge_lines(name: Seq<char>, a: EntryView, b: EntryView, net: Net, other: Net)
    requires
        forall|j: int| 0 <= j < name.len() ==> #[trigger] name[j] != '\n',
        a.client.name == b.client.name,
    ensures
        is_whole(graphviz::edge_line(name, net)(a)),
        is_whole(graphviz::edge_line(name, other)(b)),
        plain(graphviz::edge_line(name, net)(a)) == plain(graphviz::edge_line(name, other)(b)),
{
    let head = "\t\""@ + a.client.name;
    let k = lemma_last_line(head);
    lemma_edge_line(name, a, net, k);
    lemma_edge_line(name, b, other, k);
}

/// The lines of a connection: those up to the last line feed of the client's name, and one more.
proof fn lemma_edge_line(name: Seq<char>, e: EntryView, net: Net, k: int)
    requires
        forall|j: int| 0 <= j < name.len() ==> #[trigger] name[j] != '\n',
        0 <= k <= ("\t\""@ + e.client.name).len(),
        is_whole(("\t\""@ + e.client.name).take(k)),
        forall|j: int|
            k <= j < ("\t\""@ + e.client.name).len() ==> #[trigger] ("\t\""@ + e.client.name)[j]
                != '\n',
    ensures
        ({
            let head = "\t\""@ + e.client.name;
            let start = line_start(head.skip(k), name) + "[label="@;
            let i = graphviz::find(start, " [label="@);
            &&& is_whole(graphviz::edge_line(name, net)(e))
            &&& plain(graphviz::edge_line(name, net)(e)) == plain(head.take(k)) + seq![
                start.take(i->0) + ";"@,
            ]
        }),
{
    reveal_strlit("\" -> \"");
    reveal_strlit("\" ");
    reveal_strlit(";");
    reveal_strlit(";\n");
    let head = "\t\""@ + e.client.name;
    let before = head.take(k);
    let rest = head.skip(k);
    let label = graphviz::label_text(e.info, net, false);
    lemma_label(e.info, net);
    let q = line_start(rest, name);
    let line = q + label + ";"@;
    let s = graphviz::edge_line(name, net)(e);
    assert(s =~= before + (line + seq!['\n']));
    assert forall|j: int| 0 <= j < line.len() implies #[trigger] line[j] != '\n' by {
        let n1 = rest.len() as int;
        let n2 = n1 + "\" -> \""@.len();
        let n3 = n2 + name.len();
        let n4 = n3 + "\" "@.len();
        let n5 = n4 + label.len();
        if j < n1 {
            assert(line[j] == rest[j]);
            assert(rest[j] == head[k + j]);
        } else if j < n2 {
            assert(line[j] == "\" -> \""@[j - n1]);
        } else if j < n3 {
            assert(line[j] == name[j - n2]);
        } else if j < n4 {
            assert(line[j] == "\" "@[j - n3]);
        } else if j < n5 {
            assert(line[j] == label[j - n4]);
        } else {
            assert(line[j] == ";"@[j - n5]);
        }
    }
    assert(line.last() == ';');
    lemma_one_line(line);
    lemma_plain_line(rest, name, label);
    lemma_plain_after(before, line + seq!['\n']);
    let f = |line: Seq<char>| graphviz::plain_line(line);
    assert(seq![line].map_values(f) =~= seq![graphviz::plain_line(line)]);
}

/// The lines of connections without their labels, one after the other.
proof fn lemma_edges_lines(
    name: Seq<char>,
    a: Seq<EntryView>,
    b: Seq<EntryView>,
    net: Net,
    other: Net,
)
    requires
        forall|j: int| 0 <= j < name.len() ==> #[trigger] name[j] != '\n',
        a.len() == b.len(),
        forall|k: int| 0 <= k < a.len() ==> (#[trigger] a[k]).client.name == b[k].client.name,
    ensures
        ({
            let x = seqs::concat_map(a, graphviz::edge_line(name, net));
            let y = seqs::concat_map(b, graphviz::edge_line(name, other));
            is_whole(x) && is_whole(y) && plain(x) == plain(y)
        }),
    decreases a.len(),
{
    if a.len() > 0 {
        let f = graphviz::edge_line(name, net);
        let g = graphviz::edge_line(name, other);
        assert forall|k: int| 0 <= k < a.drop_last().len() implies (
        #[trigger] a.drop_last()[k]).client.name == b.drop_last()[k].client.name by {
            assert(a[k].client.name == b[k].client.name);
        }
        lemma_edges_lines(name, a.drop_last(), b.drop_last(), net, other);
        let n = a.len() - 1;
        assert(a[n].client.name == b[n].client.name);
        lemma_edge_lines(name, a.last(), b.last(), net, other);
        let x = seqs::concat_map(a.drop_last(), f);
        let y = seqs::concat_map(b.drop_last(), g);
        lemma_plain_after(x, f(a.last()));
        lemma_plain_after(y, g(b.last()));
        lemma_whole(x, f(a.last()));
        lemma_whole(y, g(b.last()));
    }
}

/// Whole texts one after the other are a whole text.
proof fn lemma_whole(x: Seq<char>, y: Seq<char>)
    requires
        is_whole(x),
        is_whole(y),
    ensures
        is_whole(x + y),
{
    if y.len() == 0 {
        assert(x + y =~= x);
    } else {
        assert((x + y).last() == y.last());
    }
}

/// The lines of a service without labels do not depend on networks and times.
proof fn lemma_block_lines(
    a: (Seq<char>, ServiceView),
    b: (Seq<char>, ServiceView),
    net: Net,
    other: Net,
)
    requires
        a.0 == b.0,
        forall|j: int| 0 <= j < a.0.len() ==> #[trigger] a.0[j] != '\n',
        is_drawn_alike(a.1, b.1),
    ensures
        ({
            let x = graphviz::service_block(net)(a);
            let y = graphviz::service_block(other)(b);
            is_whole(x) && is_whole(y) && plain(x) == plain(y)
        }),
{
    reveal_strlit(";\n");
    let head = "\n\t\""@ + a.0 + "\" "@ + graphviz::style_text(a.1) + ";\n"@;
    let x = seqs::concat_map(drawn(a.1), graphviz::edge_line(a.0, net));
    let y = seqs::concat_map(drawn(b.1), graphviz::edge_line(b.0, other));
    lemma_edges_lines(a.0, drawn(a.1), drawn(b.1), net, other);
    assert(head.last() == '\n');
    lemma_plain_after(head, x);
    lemma_plain_after(head, y);
    lemma_whole(head, x);
    lemma_whole(head, y);
    assert(graphviz::service_block(net)(a) =~= head + x);
    assert(graphviz::service_block(other)(b) =~= head + y);
}

proof fn lemma_blocks_lines(a: ServicesView, b: ServicesView, net: Net, other: Net)
    requires
        are_drawn_alike(a, b),
        forall|i: int, j: int|
            0 <= i < a.len() && 0 <= j < a[i].0.len() ==> #[trigger] a[i].0[j] != '\n',
    ensures
        ({
            let x = seqs::concat_map(a, graphviz::service_block(net));
            let y = seqs::concat_map(b, graphviz::service_block(other));
            is_whole(x) && is_whole(y) && plain(x) == plain(y)
        }),
    decreases a.len(),
{
    if a.len() > 0 {
        let (c, d) = (a.drop_last(), b.drop_last());
        assert forall|i: int| 0 <= i < c.len() implies {
            &&& (#[trigger] c[i]).0 == d[i].0
            &&& is_drawn_alike(c[i].1, d[i].1)
        } by {
            assert(a[i].0 == b[i].0);
        }
        assert forall|i: int, j: int|
            0 <= i < c.len() && 0 <= j < c[i].0.len() implies #[trigger] c[i].0[j] != '\n' by {
            assert(a[i].0[j] != '\n');
        }
        lemma_blocks_lines(c, d, net, other);
        let n = a.len() - 1;
        assert(a[n].0 == b[n].0);
        assert forall|j: int| 0 <= j < a.last().0.len() implies #[trigger] a.last().0[j]
            != '\n' by {
            assert(a[n].0[j] != '\n');
        }
        lemma_block_lines(a.last(), b.last(), net, other);
        let x = seqs::concat_map(c, graphviz::service_block(net));
        let y = seqs::concat_map(d, graphviz::service_block(other));
        let (p, q) = (
            graphviz::service_block(net)(a.last()),
            graphviz::service_block(other)(b.last()),
        );
        lemma_plain_after(x, p);
        lemma_plain_after(y, q);
        lemma_whole(x, p);
        lemma_whole(y, q);
    }
}

/// Graphs of services that are drawn alike are equal once they are normalised, whatever the networks
/// and times of their connections, where no name of a service holds a line feed.
pub proof fn law_normalized_graphs(a: ServicesView, b: ServicesView, net: Net, other: Net)
    requires
        are_drawn_alike(a, b),
        forall|i: int, j: int|
            0 <= i < a.len() && 0 <= j < a[i].0.len() ==> #[trigger] a[i].0[j] != '\n',
    ensures
        graphviz::plain_text(graphviz::graph_text(a, net)) == graphviz::plain_text(
            graphviz::graph_text(b, other),
        ),
{
    reveal_strlit("digraph G {\n\tbgcolor=grey10;\n\tnode [color=white, fontcolor=white];\n\tedge [color=white, fontcolor=white, fontsize=9, labelangle=180, labeldistance=0.8];\n");
    let head = graphviz::head_text();
    let end = "}\n"@;
    let x = seqs::concat_map(a, graphviz::service_block(net));
    let y = seqs::concat_map(b, graphviz::service_block(other));
    lemma_blocks_lines(a, b, net, other);
    assert(is_whole(head));
    lemma_plain_after(head, x);
    lemma_plain_after(head, y);
    lemma_whole(head, x);
    lemma_whole(head, y);
    lemma_plain_after(head + x, end);
    lemma_plain_after(head + y, end);
}

/// A line is as it was but for what follows the start of its label, where it draws a connection.
pub open spec fn is_same_line(a: Seq<char>, b: Seq<char>) -> bool {
    a == b || match (graphviz::find(a, " [label="@), graphviz::find(b, " [label="@)) {
        (Some(i), Some(j)) => {
            &&& a.take(i) == b.take(j)
            &&& exists|k: int| #[trigger] graphviz::occurs_at(a.take(i), "->"@, k)
        },
        _ => false,
    }
}

/// Only the labels of connections are lost when a text is normalised: texts whose lines differ in
/// nothing else are equal once they are normalised.
pub proof fn law_labels_alone(s: Seq<char>, t: Seq<char>)
    requires
        graphviz::lines(s).len() == graphviz::lines(t).len(),
        forall|i: int|
            0 <= i < graphviz::lines(s).len() ==> is_same_line(
                #[trigger] graphviz::lines(s)[i],
                graphviz::lines(t)[i],
            ),
    ensures
        graphviz::plain_text(s) == graphviz::plain_text(t),
{
    let f = |line: Seq<char>| graphviz::plain_line(line);
    let x = graphviz::lines(s);
    let y = graphviz::lines(t);
    assert forall|i: int| 0 <= i < x.len() implies graphviz::plain_line(#[trigger] x[i])
        == graphviz::plain_line(y[i]) by {
        let (a, b) = (x[i], y[i]);
        assert(is_same_line(a, b));
        if a != b {
            let (m, n) = (graphviz::find(a, " [label="@)->0, graphviz::find(b, " [label="@)->0);
            let k = choose|k: int| #[trigger] graphviz::occurs_at(a.take(m), "->"@, k);
            lemma_found_in(a, " [label="@);
            lemma_found_in(b, " [label="@);
            let _ = lemma_find_in_start(a, a.take(m), "->"@, k);
            let _ = lemma_find_in_start(b, b.take(n), "->"@, k);
        }
    }
    assert(x.map_values(f) =~= y.map_values(f));
}

/// Where a text is found it occurs, and nowhere before.
proof fn lemma_found_in(s: Seq<char>, p: Seq<char>)
    ensures
        graphviz::find(s, p) matches Some(i) ==> graphviz::is_first_occurrence(s, p, i),
{
    if exists|i: int| graphviz::is_first_occurrence(s, p, i) {
        let i = choose|i: int| graphviz::is_first_occurrence(s, p, i);
        assert(graphviz::is_first_occurrence(s, p, i));
    }
}

/// A line without its label stays as it is.
proof fn lemma_plain_twice(line: Seq<char>)
    ensures
        graphviz::plain_line(graphviz::plain_line(line)) == graphviz::plain_line(line),
        (forall|j: int| 0 <= j < line.len() ==> #[trigger] line[j] != '\n') ==> forall|j: int|
            0 <= j < graphviz::plain_line(line).len() ==> #[trigger] graphviz::plain_line(line)[j]
                != '\n',
        line.len() > 0 ==> graphviz::plain_line(line).len() > 0,
{
    reveal_strlit(" [label=");
    reveal_strlit(";");
    let p = " [label="@;
    if graphviz::find(line, "->"@) is Some {
        if let Some(i) = graphviz::find(line, p) {
            lemma_found_in(line, p);
            let cut = line.take(i) + ";"@;
            assert(graphviz::plain_line(line) == cut);
            lemma_found_in(cut, p);
            if let Some(j) = graphviz::find(cut, p) {
                assert(cut.subrange(j, j + p.len())[7] == p[7]);
                assert(cut[j + 7] == '=');
                assert(j + 7 < i);
                assert(line.subrange(j, j + p.len()) =~= cut.subrange(j, j + p.len()));
                assert(graphviz::occurs_at(line, p, j));
            }
            if forall|j: int| 0 <= j < line.len() ==> #[trigger] line[j] != '\n' {
                assert forall|j: int| 0 <= j < cut.len() implies #[trigger] cut[j] != '\n' by {
                    if j < i {
                        assert(cut[j] == line[j]);
                    }
                }
            }
        }
    }
}

/// Joined lines, from the first on.
proof fn lemma_joined(lines: Seq<Seq<char>>)
    requires
        lines.len() > 1,
    ensures
        graphviz::joined(lines) == lines[0] + "\n"@ + graphviz::joined(lines.drop_first()),
    decreases lines.len(),
{
    let front = lines.drop_last();
    let rest = lines.drop_first();
    if lines.len() == 2 {
        assert(front =~= seq![lines[0]]);
        assert(rest =~= seq![lines[1]]);
        assert(graphviz::joined(front) == lines[0]);
        assert(graphviz::joined(rest) == lines[1]);
        assert(lines.last() == lines[1]);
    } else {
        lemma_joined(front);
        assert(graphviz::joined(lines) == graphviz::joined(front) + "\n"@ + lines.last());
        assert(rest.last() == lines.last());
        assert(front.drop_first() =~= rest.drop_last());
        assert(graphviz::joined(rest) == graphviz::joined(rest.drop_last()) + "\n"@
            + rest.last());
        assert(lines[0] + "\n"@ + graphviz::joined(rest.drop_last()) + "\n"@ + lines.last()
            =~= lines[0] + "\n"@ + (graphviz::joined(rest.drop_last()) + "\n"@ + rest.last()));
    }
}

/// Lines that can be told apart once they are joined: none holds a line feed, only the last ends in a
/// carriage return, and the last is not empty.
spec fn are_lines(lines: Seq<Seq<char>>) -> bool {
    &&& forall|i: int, j: int|
        0 <= i < lines.len() && 0 <= j < lines[i].len() ==> #[trigger] lines[i][j] != '\n'
    &&& forall|i: int|
        0 <= i < lines.len() - 1 && (#[trigger] lines[i]).len() > 0 ==> lines[i].last() != '\r'
    &&& lines.len() > 0 ==> lines.last().len() > 0
}

/// The lines of joined lines are these.
proof fn lemma_lines_of_joined(lines: Seq<Seq<char>>)
    requires
        are_lines(lines),
    ensures
        graphviz::lines(graphviz::joined(lines)) == lines,
    decreases lines.len(),
{
    reveal_strlit("\n");
    let s = graphviz::joined(lines);
    if lines.len() == 0 {
        assert(graphviz::lines(s) =~= lines);
    } else if lines.len() == 1 {
        assert(lines[0] == lines.last());
        assert forall|i: int| !graphviz::is_line_end(s, i) by {
            if 0 <= i < s.len() {
                assert(lines[0][i] != '\n');
            }
        }
        assert(graphviz::lines(s) =~= lines);
    } else {
        let rest = lines.drop_first();
        lemma_joined(lines);
        assert(are_lines(rest)) by {
            assert forall|i: int, j: int|
                0 <= i < rest.len() && 0 <= j < rest[i].len() implies #[trigger] rest[i][j]
                != '\n' by {
                assert(lines[i + 1][j] != '\n');
            }
            assert forall|i: int|
                0 <= i < rest.len() - 1 && (#[trigger] rest[i]).len() > 0 implies rest[i].last()
                != '\r' by {
                assert(lines[i + 1] == rest[i]);
            }
        }
        lemma_lines_of_joined(rest);
        let n = lines[0].len() as int;
        assert(graphviz::is_line_end(s, n)) by {
            assert(s[n] == '\n');
            assert forall|j: int| 0 <= j < n implies #[trigger] s[j] != '\n' by {
                assert(lines[0][j] != '\n');
            }
        }
        lemma_line_end(s, n);
        assert(s.take(n) =~= lines[0]);
        assert(s.skip(n + 1) =~= graphviz::joined(rest));
        assert(lines =~= seq![lines[0]] + rest);
    }
}

/// No line of a text holds a line feed.
proof fn lemma_no_line_feeds(s: Seq<char>)
    ensures
        forall|i: int, j: int|
            0 <= i < graphviz::lines(s).len() && 0 <= j < graphviz::lines(s)[i].len()
                ==> #[trigger] graphviz::lines(s)[i][j] != '\n',
    decreases s.len(),
{
    let all = graphviz::lines(s);
    if s.len() > 0 && exists|i: int| graphviz::is_line_end(s, i) {
        let e = choose|i: int| graphviz::is_line_end(s, i);
        assert(graphviz::is_line_end(s, e));
        lemma_line_end(s, e);
        lemma_no_line_feeds(s.skip(e + 1));
        assert forall|i: int, j: int|
            0 <= i < all.len() && 0 <= j < all[i].len() implies #[trigger] all[i][j] != '\n' by {
            if i == 0 {
                assert(all[0][j] == s[j]);
            } else {
                assert(all[i] == graphviz::lines(s.skip(e + 1))[i - 1]);
            }
        }
    } else if s.len() > 0 {
        assert forall|i: int, j: int|
            0 <= i < all.len() && 0 <= j < all[i].len() implies #[trigger] all[i][j] != '\n' by {
            if s[j] == '\n' {
                let e = lemma_first_line_end(s, j);
            }
        }
    }
}

/// The lines of a text can be told apart once it is normalised: only the last ends in a carriage
/// return, and the last of several is not empty.
pub open spec fn is_settled(s: Seq<char>) -> bool {
    let all = graphviz::lines(s);
    &&& all.len() > 1 ==> all.last().len() > 0
    &&& forall|i: int|
        0 <= i < all.len() - 1 && graphviz::plain_line(#[trigger] all[i]).len() > 0
            ==> graphviz::plain_line(all[i]).last() != '\r'
}

/// A text that was normalised is so: normalising it again leaves it as it is.
pub proof fn law_normalized_again(s: Seq<char>)
    requires
        is_settled(s),
    ensures
        graphviz::plain_text(graphviz::plain_text(s)) == graphviz::plain_text(s),
{
    let f = |line: Seq<char>| graphviz::plain_line(line);
    let all = graphviz::lines(s);
    let plain = all.map_values(f);
    let t = graphviz::plain_text(s);
    lemma_no_line_feeds(s);
    assert forall|i: int| 0 <= i < plain.len() implies graphviz::plain_line(#[trigger] plain[i])
        == plain[i] by {
        lemma_plain_twice(all[i]);
    }
    if plain.len() == 1 && plain[0].len() == 0 {
        assert(t =~= Seq::empty());
        assert(graphviz::lines(t).map_values(f) =~= Seq::empty());
    } else {
        assert(are_lines(plain)) by {
            assert forall|i: int, j: int|
                0 <= i < plain.len() && 0 <= j < plain[i].len() implies #[trigger] plain[i][j]
                != '\n' by {
                lemma_plain_twice(all[i]);
                assert forall|k: int| 0 <= k < all[i].len() implies #[trigger] all[i][k]
                    != '\n' by {}
            }
            assert forall|i: int|
                0 <= i < plain.len() - 1 && (#[trigger] plain[i]).len() > 0 implies plain[i].last()
                != '\r' by {
                assert(graphviz::plain_line(all[i]) == plain[i]);
            }
            if plain.len() > 1 {
                lemma_plain_twice(all.last());
                assert(plain.last() == graphviz::plain_line(all.last()));
            }
        }
        lemma_lines_of_joined(plain);
        assert(graphviz::lines(t) == plain);
        assert(plain.map_values(f) =~= plain);
    }
}

/// The last line of a text is not empty, unless the text is a single line feed or ends in two of them.
proof fn lemma_last_not_empty(s: Seq<char>)
    requires
        s.len() > 0,
        forall|j: int| 0 <= j < s.len() ==> #[trigger] s[j] != '\r',
        s.last() == '\n' ==> s.len() > 1 && s[s.len() - 2] != '\n',
    ensures
        graphviz::lines(s).len() > 0,
        graphviz::lines(s).last().len() > 0,
    decreases s.len(),
{
    if exists|i: int| graphviz::is_line_end(s, i) {
        let e = choose|i: int| graphviz::is_line_end(s, i);
        assert(graphviz::is_line_end(s, e));
        lemma_line_end(s, e);
        let rest = s.skip(e + 1);
        let first = graphviz::without_return(s.take(e));
        assert(first == s.take(e)) by {
            if e > 0 {
                assert(s.take(e).last() == s[e - 1]);
            }
        }
        if rest.len() > 0 {
            assert forall|j: int| 0 <= j < rest.len() implies #[trigger] rest[j] != '\r' by {
                assert(rest[j] == s[j + e + 1]);
            }
            assert(rest.last() == s.last());
            if rest.last() == '\n' && rest.len() == 1 {
                assert(s[s.len() - 2] == '\n');
            }
            lemma_last_not_empty(rest);
            assert(graphviz::lines(s).last() == graphviz::lines(rest).last());
        } else {
            assert(s.last() == '\n');
            assert(graphviz::lines(rest) =~= Seq::empty());
            assert(graphviz::lines(s).last() == first);
        }
    }
}

/// The lines of a text without carriage returns hold none.
proof fn lemma_no_returns(s: Seq<char>)
    requires
        forall|j: int| 0 <= j < s.len() ==> #[trigger] s[j] != '\r',
    ensures
        forall|i: int, j: int|
            0 <= i < graphviz::lines(s).len() && 0 <= j < graphviz::lines(s)[i].len()
                ==> #[trigger] graphviz::lines(s)[i][j] != '\r',
    decreases s.len(),
{
    let all = graphviz::lines(s);
    if s.len() > 0 && exists|i: int| graphviz::is_line_end(s, i) {
        let e = choose|i: int| graphviz::is_line_end(s, i);
        assert(graphviz::is_line_end(s, e));
        lemma_line_end(s, e);
        let rest = s.skip(e + 1);
        assert forall|j: int| 0 <= j < rest.len() implies #[trigger] rest[j] != '\r' by {
            assert(rest[j] == s[j + e + 1]);
        }
        lemma_no_returns(rest);
        assert forall|i: int, j: int|
            0 <= i < all.len() && 0 <= j < all[i].len() implies #[trigger] all[i][j] != '\r' by {
            if i == 0 {
                assert(all[0][j] == s[j]);
            } else {
                assert(all[i] == graphviz::lines(rest)[i - 1]);
            }
        }
    }
}

/// A text without carriage returns that does not end in two line feeds has lines that can be told
/// apart once it is normalised.
pub proof fn law_settled_text(s: Seq<char>)
    requires
        !s.contains('\r'),
        !(s.len() >= 2 && s[s.len() - 1] == '\n' && s[s.len() - 2] == '\n'),
    ensures
        is_settled(s),
{
    let all = graphviz::lines(s);
    assert forall|j: int| 0 <= j < s.len() implies #[trigger] s[j] != '\r' by {
        assert(s.contains(s[j]));
    }
    lemma_no_returns(s);
    if all.len() > 1 {
        if s.len() == 1 && s.last() == '\n' {
            assert(graphviz::is_line_end(s, 0));
            lemma_line_end(s, 0);
            assert(s.skip(1) =~= Seq::empty());
            assert(graphviz::lines(s.skip(1)) =~= Seq::empty());
        } else {
            lemma_last_not_empty(s);
        }
    }
    assert forall|i: int|
        0 <= i < all.len() - 1 && graphviz::plain_line(
            #[trigger] all[i],
        ).len() > 0 implies graphviz::plain_line(all[i]).last() != '\r' by {
        reveal_strlit(";");
        let line = all[i];
        let plain = graphviz::plain_line(line);
        lemma_found_in(line, " [label="@);
        if plain == line {
            assert(all[i][line.len() - 1] != '\r');
        }
    }
}

} // verus!
