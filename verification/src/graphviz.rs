//! The services and their connections as a graph in the DOT language.
use crate::net::Net;
use crate::seqs;
use crate::services::clients::{ClientInfo, ClientInfoView};
use crate::services::model::{EntryView, ServiceView, ServicesView};
use crate::services::service_info::{Entry, ServiceInfo, Services};
use crate::text;
use vstd::prelude::*;

verus! {

/// What the graph starts with.
pub open spec fn head_text() -> Seq<char> {
    "digraph G {\n\tbgcolor=grey10;\n\tnode [color=white, fontcolor=white];\n\tedge [color=white, fontcolor=white, fontsize=9, labelangle=180, labeldistance=0.8];\n"@
}

/// How a service is drawn: solid where it is an entry point, green where it runs.
pub open spec fn style_text(si: ServiceView) -> Seq<char> {
    match (si, si.config().timeout) {
        (ServiceView::Unregistered(_), Some(_)) => "[style=solid, color=red]"@,
        (ServiceView::Unregistered(_), None) => "[style=dashed, color=red]"@,
        (ServiceView::Registered(_), Some(_)) => "[style=solid, color=green]"@,
        (ServiceView::Registered(_), None) => "[style=dashed, color=green]"@,
    }
}

/// The kind of a network in words.
pub open spec fn net_text(net: Net) -> Seq<char> {
    match net {
        Net::Vlan => "VLAN"@,
        Net::Vxlan => "VXLAN"@,
    }
}

/// The label of a connection: its network, the duration of its set-up, and at its ends, where
/// wanted, the addresses.
pub open spec fn label_text(ci: ClientInfoView, net: Net, show_ends: bool) -> Seq<char> {
    let start = "[label=\""@ + net_text(net) + " "@ + text::decimal_text(ci.net_id as nat) + " ["@
        + text::decimal_text(ci.time_ms as nat) + "ms]\""@;
    if show_ends {
        start + ", taillabel=\""@ + ci.client_net.dotted() + "\", headlabel=\""@
            + ci.server_net.dotted() + "\"]"@
    } else {
        start + "]"@
    }
}

/// A function that gives the line of a connection to service `name`.
pub open spec fn edge_line(name: Seq<char>, net: Net) -> spec_fn(EntryView) -> Seq<char> {
    |e: EntryView|
        "\t\""@ + e.client.name + "\" -> \""@ + name + "\" "@ + label_text(e.info, net, false)
            + ";\n"@
}

/// A function that gives the lines of a service, after an empty one.
pub open spec fn service_block(net: Net) -> spec_fn((Seq<char>, ServiceView)) -> Seq<char> {
    |s: (Seq<char>, ServiceView)|
        "\n\t\""@ + s.0 + "\" "@ + style_text(s.1) + ";\n"@ + match s.1 {
            ServiceView::Registered(reg) => seqs::concat_map(reg.entries(), edge_line(s.0, net)),
            ServiceView::Unregistered(_) => Seq::empty(),
        }
}

/// The graph of the services and their connections.
pub open spec fn graph_text(services: ServicesView, net: Net) -> Seq<char> {
    head_text() + seqs::concat_map(services, service_block(net)) + "}\n"@
}

impl ServiceInfo {
    /// How the service is drawn.
    pub fn graphviz_style(&self) -> (r: &'static str)
        ensures
            r@ == style_text(self@),
    {
        let is_proxy_reachable = self.is_proxy_reachable().is_some();
        match self {
            ServiceInfo::Unregistered(_) => if is_proxy_reachable {
                "[style=solid, color=red]"
            } else {
                "[style=dashed, color=red]"
            },
            ServiceInfo::Registered(_) => if is_proxy_reachable {
                "[style=solid, color=green]"
            } else {
                "[style=dashed, color=green]"
            },
        }
    }
}

impl ClientInfo {
    /// The label of the connection.
    pub fn graphviz_edge_label(&self, net: Net, show_ends: bool) -> (r: String)
        ensures
            r@ == label_text(self@, net, show_ends),
    {
        let mut r = "[label=\"".to_owned();
        r.append(
            match net {
                Net::Vlan => "VLAN",
                Net::Vxlan => "VXLAN",
            },
        );
        r.append(" ");
        r.append(text::decimal(self.net_id() as u128).as_str());
        r.append(" [");
        r.append(text::decimal(self.time_ms()).as_str());
        r.append("ms]\"");
        if show_ends {
            r.append(", taillabel=\"");
            r.append(self.client_net().to_text().as_str());
            r.append("\", headlabel=\"");
            r.append(self.server_net().to_text().as_str());
            r.append("\"]");
        } else {
            r.append("]");
        }
        r
    }
}

/// Writes the lines of the connections to service `name`.
fn write_edges(name: &String, entries: &Vec<Entry>, net: Net, graph: &mut String)
    ensures
        final(graph)@ == old(graph)@ + seqs::concat_map(
            entries.deep_view(),
            edge_line(name@, net),
        ),
{
    let ghost f = edge_line(name@, net);
    let ghost all = entries.deep_view();
    let ghost start = graph@;
    let mut i: usize = 0;
    assert(all.take(0) =~= Seq::empty());
    assert(start + Seq::<char>::empty() =~= start);
    while i < entries.len()
        invariant
            i <= entries.len(),
            all == entries.deep_view(),
            f == edge_line(name@, net),
            graph@ == start + seqs::concat_map(all.take(i as int), f),
        decreases entries.len() - i,
    {
        let ghost before = graph@;
        proof {
            seqs::lemma_concat_map_step(all, f, i as int);
            assert(all[i as int] == entries[i as int]@);
        }
        graph.append("\t\"");
        graph.append(entries[i].client.name().as_str());
        graph.append("\" -> \"");
        graph.append(name.as_str());
        graph.append("\" ");
        graph.append(entries[i].info.graphviz_edge_label(net, false).as_str());
        graph.append(";\n");
        assert(graph@ =~= before + f(all[i as int]));
        assert((start + seqs::concat_map(all.take(i as int), f)) + f(all[i as int]) =~= start + (
        seqs::concat_map(all.take(i as int), f) + f(all[i as int])));
        i = i + 1;
    }
    assert(all.take(i as int) =~= all);
}

/// Draws the services and their connections.
pub fn render_graphviz(services: &Services, net: Net) -> (r: String)
    ensures
        r@ == graph_text(services@, net),
{
    let mut graph =
        "digraph G {\n\tbgcolor=grey10;\n\tnode [color=white, fontcolor=white];\n\tedge [color=white, fontcolor=white, fontsize=9, labelangle=180, labeldistance=0.8];\n".to_owned();
    let ghost f = service_block(net);
    let mut i: usize = 0;
    assert(services@.take(0) =~= Seq::empty());
    assert(head_text() + Seq::<char>::empty() =~= head_text());
    while i < services.len()
        invariant
            i <= services@.len(),
            f == service_block(net),
            graph@ == head_text() + seqs::concat_map(services@.take(i as int), f),
        decreases services@.len() - i,
    {
        let ghost before = graph@;
        let ghost so_far = seqs::concat_map(services@.take(i as int), f);
        proof {
            seqs::lemma_concat_map_step(services@, f, i as int);
        }
        let name = services.key_at(i);
        let si = services.value_at(i);
        graph.append("\n\t\"");
        graph.append(name.as_str());
        graph.append("\" ");
        graph.append(si.graphviz_style());
        graph.append(";\n");
        let ghost header = "\n\t\""@ + name@ + "\" "@ + style_text(si@) + ";\n"@;
        assert(graph@ =~= before + header);
        if let ServiceInfo::Registered(reg) = si {
            write_edges(name, &reg.all_clients_owned(), net, &mut graph);
        }
        assert(graph@ =~= before + f(services@[i as int]));
        assert((head_text() + so_far) + f(services@[i as int]) =~= head_text() + (so_far + f(
            services@[i as int],
        )));
        i = i + 1;
    }
    assert(services@.take(i as int) =~= services@);
    graph.append("}\n");
    graph
}

/// Index `i` is the first line feed of `s`.
pub open spec fn is_line_end(s: Seq<char>, i: int) -> bool {
    seqs::is_first_at(s, '\n', i)
}

/// A line without the carriage return before its line feed.
pub open spec fn without_return(line: Seq<char>) -> Seq<char> {
    if line.len() > 0 && line.last() == '\r' {
        line.drop_last()
    } else {
        line
    }
}

/// The lines of a text. The last one may lack its line feed.
pub open spec fn lines(s: Seq<char>) -> Seq<Seq<char>>
    decreases s.len(),
{
    if s.len() == 0 {
        Seq::empty()
    } else if exists|i: int| is_line_end(s, i) {
        let i = choose|i: int| is_line_end(s, i);
        if is_line_end(s, i) {
            seq![without_return(s.take(i))] + lines(s.skip(i + 1))
        } else {
            Seq::empty()
        }
    } else {
        seq![s]
    }
}

/// Whether `p` occurs in `s` at index `i`.
pub open spec fn occurs_at(s: Seq<char>, p: Seq<char>, i: int) -> bool {
    0 <= i && i + p.len() <= s.len() && s.subrange(i, i + p.len()) == p
}

/// Index `i` is the first at which `p` occurs in `s`.
pub open spec fn is_first_occurrence(s: Seq<char>, p: Seq<char>, i: int) -> bool {
    &&& occurs_at(s, p, i)
    &&& forall|j: int| 0 <= j < i ==> !#[trigger] occurs_at(s, p, j)
}

/// Where `p` first occurs in `s`.
pub open spec fn find(s: Seq<char>, p: Seq<char>) -> Option<int> {
    if exists|i: int| is_first_occurrence(s, p, i) {
        Some(choose|i: int| is_first_occurrence(s, p, i))
    } else {
        None
    }
}

/// A line without the label of the connection that it draws.
pub open spec fn plain_line(line: Seq<char>) -> Seq<char> {
    match (find(line, "->"@), find(line, " [label="@)) {
        (Some(_), Some(i)) => line.take(i) + ";"@,
        _ => line,
    }
}

/// The lines, each but the last with a line feed.
pub open spec fn joined(lines: Seq<Seq<char>>) -> Seq<char>
    decreases lines.len(),
{
    if lines.len() == 0 {
        Seq::empty()
    } else if lines.len() == 1 {
        lines[0]
    } else {
        joined(lines.drop_last()) + "\n"@ + lines.last()
    }
}

/// A graph without the labels of its connections.
pub open spec fn plain_text(s: Seq<char>) -> Seq<char> {
    joined(lines(s).map_values(|line: Seq<char>| plain_line(line)))
}

/// The characters of a text.
fn chars_of(s: &str) -> (r: Vec<char>)
    ensures
        r@ == s@,
{
    let mut r: Vec<char> = Vec::new();
    for c in it: s.chars()
        invariant
            r@ =~= it.seq().take(it.index()),
    {
        r.push(c);
    }
    r
}

/// Where the characters of a text first match those of another.
fn find_chars(s: &Vec<char>, p: &Vec<char>) -> (r: Option<usize>)
    ensures
        match r {
            Some(i) => find(s@, p@) == Some(i as int),
            None => find(s@, p@) is None,
        },
{
    if p.len() > s.len() {
        assert forall|j: int| !occurs_at(s@, p@, j) by {}
        return None;
    }
    let last = s.len() - p.len();
    let mut i: usize = 0;
    while i <= last
        invariant
            i <= last + 1,
            last == s.len() - p.len(),
            forall|j: int| 0 <= j < i ==> !#[trigger] occurs_at(s@, p@, j),
        decreases last + 1 - i,
    {
        if matches_at(s, p, i) {
            proof {
                let k = choose|k: int| is_first_occurrence(s@, p@, k);
                assert(is_first_occurrence(s@, p@, i as int));
                assert(is_first_occurrence(s@, p@, k));
                assert(k == i);
            }
            return Some(i);
        }
        if i == last {
            assert forall|j: int| !is_first_occurrence(s@, p@, j) by {
                if occurs_at(s@, p@, j) {
                    assert(j <= i);
                }
            }
            return None;
        }
        i = i + 1;
    }
    None
}

/// Whether the characters of a text match those of another at index `i`.
fn matches_at(s: &Vec<char>, p: &Vec<char>, i: usize) -> (r: bool)
    requires
        i + p.len() <= s.len(),
    ensures
        r == occurs_at(s@, p@, i as int),
{
    let mut k: usize = 0;
    while k < p.len()
        invariant
            i + p.len() <= s.len(),
            k <= p.len(),
            forall|j: int| 0 <= j < k ==> s@[i + j] == #[trigger] p@[j],
        decreases p.len() - k,
    {
        if s[i + k] != p[k] {
            assert(s@.subrange(i as int, i + p.len())[k as int] != p@[k as int]);
            return false;
        }
        k = k + 1;
    }
    assert(s@.subrange(i as int, i + p.len()) =~= p@);
    true
}

/// A line without the label of the connection that it draws.
fn normalize_line(line: &str) -> (r: String)
    ensures
        r@ == plain_line(line@),
{
    let chars = chars_of(line);
    if find_chars(&chars, &chars_of("->")).is_some() {
        if let Some(bracket_pos) = find_chars(&chars, &chars_of(" [label=")) {
            proof {
                let i = choose|i: int| is_first_occurrence(line@, " [label="@, i);
                assert(is_first_occurrence(line@, " [label="@, i));
                assert(i == bracket_pos);
            }
            let mut stripped = line.substring_char(0, bracket_pos).to_owned();
            assert(line@.subrange(0, bracket_pos as int) =~= line@.take(bracket_pos as int));
            stripped.append(";");
            return stripped;
        }
    }
    line.to_owned()
}

/// Strips the network identifiers and times from a graph, so that graphs of the same connections are
/// equal: a line that draws a connection ends where its label starts.
pub fn normalize_graphviz(graphviz: &str) -> (r: String)
    ensures
        r@ == plain_text(graphviz@),
{
    let ghost f = |line: Seq<char>| plain_line(line);
    let ghost all = lines(graphviz@).map_values(f);
    let chars = chars_of(graphviz);
    let mut r = String::new();
    let mut start: usize = 0;
    let ghost mut done: Seq<Seq<char>> = Seq::empty();
    assert(graphviz@.skip(0) =~= graphviz@);
    assert(done + all =~= all);
    while start < chars.len()
        invariant
            start <= chars.len(),
            chars@ == graphviz@,
            f == (|line: Seq<char>| plain_line(line)),
            all == lines(graphviz@).map_values(f),
            done + lines(graphviz@.skip(start as int)).map_values(f) == all,
            r@ == joined(done),
            start > 0 ==> done.len() > 0,
            start == 0 ==> done.len() == 0,
        decreases chars.len() - start,
    {
        let ghost rest = graphviz@.skip(start as int);
        let mut end = start;
        while end < chars.len() && chars[end] != '\n'
            invariant
                start <= end <= chars.len(),
                chars@ == graphviz@,
                rest == graphviz@.skip(start as int),
                forall|j: int| 0 <= j < end - start ==> #[trigger] rest[j] != '\n',
            decreases chars.len() - end,
        {
            assert(rest[end - start] == chars@[end as int]);
            end = end + 1;
        }
        let mut stop = end;
        if end < chars.len() && end > start && chars[end - 1] == '\r' {
            stop = end - 1;
        }
        let ghost line = graphviz@.subrange(start as int, stop as int);
        let next = if end < chars.len() {
            end + 1
        } else {
            end
        };
        proof {
            lemma_first_line(graphviz@, start as int, end as int, stop as int);
        }
        if start > 0 {
            r.append("\n");
        }
        r.append(normalize_line(graphviz.substring_char(start, stop)).as_str());
        proof {
            let now_done = done.push(plain_line(line));
            assert(now_done.drop_last() =~= done);
            assert(r@ =~= joined(now_done));
            let tail = lines(graphviz@.skip(next as int));
            assert(lines(rest) =~= seq![line] + tail);
            assert(done + lines(rest).map_values(f) =~= now_done + tail.map_values(f));
            done = now_done;
        }
        start = next;
    }
    proof {
        assert(graphviz@.skip(start as int) =~= Seq::empty());
        assert(lines(graphviz@.skip(start as int)).map_values(f) =~= Seq::empty());
        assert(done =~= all);
    }
    r
}

/// The first line of the rest of a text from index `start`, where `end` is its line feed or the end
/// of the text and `stop` leaves out a carriage return before the line feed.
proof fn lemma_first_line(s: Seq<char>, start: int, end: int, stop: int)
    requires
        0 <= start < s.len(),
        start <= end <= s.len(),
        forall|j: int| 0 <= j < end - start ==> #[trigger] s.skip(start)[j] != '\n',
        end < s.len() ==> s[end] == '\n',
        stop == (if end < s.len() && end > start && s[end - 1] == '\r' {
            end - 1
        } else {
            end
        }),
    ensures
        lines(s.skip(start)) == seq![s.subrange(start, stop)] + lines(
            s.skip(
                if end < s.len() {
                    end + 1
                } else {
                    end
                },
            ),
        ),
{
    let rest = s.skip(start);
    if end < s.len() {
        let i = end - start;
        assert(is_line_end(rest, i));
        let k = choose|k: int| is_line_end(rest, k);
        assert(is_line_end(rest, k));
        if k < i {
            assert(rest[k] != '\n');
        } else if i < k {
            assert(rest[i] != '\n');
        }
        assert(rest.take(i) =~= s.subrange(start, end));
        assert(without_return(rest.take(i)) =~= s.subrange(start, stop));
        assert(rest.skip(i + 1) =~= s.skip(end + 1));
    } else {
        assert forall|i: int| !is_line_end(rest, i) by {}
        assert(rest =~= s.subrange(start, stop));
        assert(s.skip(end) =~= Seq::empty());
        assert(seq![rest] + Seq::<Seq<char>>::empty() =~= seq![rest]);
    }
}

} // verus!
