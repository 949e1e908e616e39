use vstd::prelude::*;
use vstd::string::*;

use crate::graph::Graph;
use crate::order::{insert_sorted, lemma_orders_strict_total, pair_order, strict_total, strictly_sorted};

verus! {

/// The chains handed in, as name sequences.
pub open spec fn chains_view(cycles: Seq<Vec<String>>) -> Seq<Seq<Seq<char>>> {
    Seq::new(cycles.len(), |i: int| cycles[i].deep_view())
}

/// `a -> b` is a step of one of the chains.
pub open spec fn is_cycle_edge(chains: Seq<Seq<Seq<char>>>, a: Seq<char>, b: Seq<char>) -> bool {
    exists|i: int, k: int|
        0 <= i < chains.len() && 0 <= k < chains[i].len() - 1 && #[trigger] chains[i][k] == a && chains[i][k + 1] == b
}

/// The line declaring node `x`.
pub open spec fn node_line(x: Seq<char>) -> Seq<char> {
    "  \""@ + x + "\";\n"@
}

/// The line drawing the edge `a -> b`, styled red and bold when `red`.
pub open spec fn edge_line(a: Seq<char>, b: Seq<char>, red: bool) -> Seq<char> {
    "  \""@ + a + "\" -> \""@ + b + if red {
        "\" [color=red, penwidth=2];\n"@
    } else {
        "\";\n"@
    }
}

pub open spec fn node_lines(ns: Seq<Seq<char>>) -> Seq<char>
    decreases ns.len(),
{
    if ns.len() == 0 {
        Seq::empty()
    } else {
        node_lines(ns.drop_last()) + node_line(ns.last())
    }
}

pub open spec fn edge_lines(es: Seq<(Seq<char>, Seq<char>)>, chains: Seq<Seq<Seq<char>>>) -> Seq<char>
    decreases es.len(),
{
    if es.len() == 0 {
        Seq::empty()
    } else {
        edge_lines(es.drop_last(), chains) + edge_line(
            es.last().0,
            es.last().1,
            is_cycle_edge(chains, es.last().0, es.last().1),
        )
    }
}

/// The Graphviz DOT text of a graph: a header, one line per node in order,
/// one line per edge in order (red and bold for a step of a chain), and
/// the closing brace.
pub open spec fn dot_text(ns: Seq<Seq<char>>, es: Seq<(Seq<char>, Seq<char>)>, chains: Seq<Seq<Seq<char>>>) -> Seq<char> {
    "digraph depgraph {\n"@ + node_lines(ns) + edge_lines(es, chains) + "}\n"@
}

/// The steps of the chains, each once.
fn cycle_edges(cycles: &[Vec<String>]) -> (steps: Vec<(String, String)>)
    ensures
        strictly_sorted(steps.deep_view(), pair_order()),
        forall|a: Seq<char>, b: Seq<char>|
            #[trigger] steps.deep_view().to_set().contains((a, b)) <==> is_cycle_edge(chains_view(cycles@), a, b),
{
    proof {
        lemma_orders_strict_total();
    }
    let ghost cv = chains_view(cycles@);
    let mut steps: Vec<(String, String)> = Vec::new();
    let mut i: usize = 0;
    while i < cycles.len()
        invariant
            cv == chains_view(cycles@),
            i <= cycles.len(),
            strict_total(pair_order()),
            strictly_sorted(steps.deep_view(), pair_order()),
            forall|a: Seq<char>, b: Seq<char>|
                #[trigger] steps.deep_view().to_set().contains((a, b)) <==> exists|x: int, k: int|
                    0 <= x < i && 0 <= k < cv[x].len() - 1 && #[trigger] cv[x][k] == a && cv[x][k + 1] == b,
        decreases cycles.len() - i,
    {
        let chain = &cycles[i];
        assert(chain.deep_view() == cv[i as int]);
        let mut k: usize = 0;
        while k + 1 < chain.len()
            invariant
                cv == chains_view(cycles@),
                i < cycles.len(),
                chain.deep_view() == cv[i as int],
                k + 1 <= chain.len() || k == 0,
                strict_total(pair_order()),
                strictly_sorted(steps.deep_view(), pair_order()),
                forall|a: Seq<char>, b: Seq<char>|
                    #[trigger] steps.deep_view().to_set().contains((a, b)) <==> (exists|x: int, m: int|
                        0 <= x < i && 0 <= m < cv[x].len() - 1 && #[trigger] cv[x][m] == a && cv[x][m + 1] == b)
                        || exists|m: int| 0 <= m < k && #[trigger] cv[i as int][m] == a && cv[i as int][m + 1] == b,
            decreases chain.len() - k,
        {
            let ghost before = steps.deep_view().to_set();
            insert_sorted(&mut steps, (chain[k].clone(), chain[k + 1].clone()));
            proof {
                let p = (cv[i as int][k as int], cv[i as int][k + 1]);
                assert forall|a: Seq<char>, b: Seq<char>|
                    #[trigger] steps.deep_view().to_set().contains((a, b)) <==> (exists|x: int, m: int|
                        0 <= x < i && 0 <= m < cv[x].len() - 1 && #[trigger] cv[x][m] == a && cv[x][m + 1] == b)
                        || exists|m: int| 0 <= m < k + 1 && #[trigger] cv[i as int][m] == a && cv[i as int][m + 1] == b by {
                    if exists|m: int| 0 <= m < k + 1 && #[trigger] cv[i as int][m] == a && cv[i as int][m + 1] == b {
                        let m = choose|m: int| 0 <= m < k + 1 && #[trigger] cv[i as int][m] == a && cv[i as int][m + 1] == b;
                        if m < k {
                            assert(before.contains((a, b)));
                        } else {
                            assert((a, b) == p);
                        }
                    }
                    if before.contains((a, b)) {
                        if exists|m: int| 0 <= m < k && #[trigger] cv[i as int][m] == a && cv[i as int][m + 1] == b {
                            let m = choose|m: int| 0 <= m < k && #[trigger] cv[i as int][m] == a && cv[i as int][m + 1] == b;
                            assert(0 <= m < k + 1);
                        }
                    }
                    if (a, b) == p {
                        assert(0 <= k < k + 1 && cv[i as int][k as int] == a && cv[i as int][k + 1] == b);
                    }
                }
            }
            k = k + 1;
        }
        proof {
            assert forall|a: Seq<char>, b: Seq<char>|
                #[trigger] steps.deep_view().to_set().contains((a, b)) <==> exists|x: int, m: int|
                    0 <= x < i + 1 && 0 <= m < cv[x].len() - 1 && #[trigger] cv[x][m] == a && cv[x][m + 1] == b by {
                if exists|m: int| 0 <= m < k && #[trigger] cv[i as int][m] == a && cv[i as int][m + 1] == b {
                    let m = choose|m: int| 0 <= m < k && #[trigger] cv[i as int][m] == a && cv[i as int][m + 1] == b;
                    assert(0 <= i < i + 1 && 0 <= m < cv[i as int].len() - 1 && cv[i as int][m] == a);
                }
                if exists|x: int, m: int| 0 <= x < i + 1 && 0 <= m < cv[x].len() - 1 && #[trigger] cv[x][m] == a && cv[x][m + 1] == b {
                    let (x, m) = choose|x: int, m: int| 0 <= x < i + 1 && 0 <= m < cv[x].len() - 1 && #[trigger] cv[x][m] == a && cv[x][m + 1] == b;
                    if x == i {
                        assert(0 <= m < k && cv[i as int][m] == a && cv[i as int][m + 1] == b);
                    } else {
                        assert(0 <= x < i && 0 <= m < cv[x].len() - 1 && cv[x][m] == a && cv[x][m + 1] == b);
                    }
                }
            }
        }
        i = i + 1;
    }
    steps
}

fn contains_pair(steps: &Vec<(String, String)>, a: &String, b: &String) -> (r: bool)
    ensures
        r == steps.deep_view().to_set().contains((a@, b@)),
{
    let mut i: usize = 0;
    while i < steps.len()
        invariant
            i <= steps.len(),
            forall|k: int| 0 <= k < i ==> steps.deep_view()[k] != (a@, b@),
        decreases steps.len() - i,
    {
        if steps[i].0 == *a && steps[i].1 == *b {
            assert(steps.deep_view()[i as int] == (a@, b@));
            return true;
        }
        i = i + 1;
    }
    proof {
        if steps.deep_view().to_set().contains((a@, b@)) {
            let k = choose|k: int| 0 <= k < steps.deep_view().len() && steps.deep_view()[k] == (a@, b@);
        }
    }
    false
}

/// Renders a graph as Graphviz DOT. Every node is emitted, even one with no
/// edges, and every edge that is a step of one of `cycles` is styled red
/// and bold, so a loop stands out when drawn.
pub fn render_dot(graph: &Graph, cycles: &[Vec<String>]) -> (out: String)
    ensures
        out@ == dot_text(graph.nodes.deep_view(), graph.edges.deep_view(), chains_view(cycles@)),
{
    let ghost ns = graph.nodes.deep_view();
    let ghost es = graph.edges.deep_view();
    let ghost cv = chains_view(cycles@);
    let steps = cycle_edges(cycles);
    let mut out = String::new();
    out.append("digraph depgraph {\n");
    let mut i: usize = 0;
    while i < graph.nodes.len()
        invariant
            ns == graph.nodes.deep_view(),
            i <= graph.nodes.len(),
            out@ == "digraph depgraph {\n"@ + node_lines(ns.take(i as int)),
        decreases graph.nodes.len() - i,
    {
        let node = &graph.nodes[i];
        out.append("  \"");
        out.append(node.as_str());
        out.append("\";\n");
        proof {
            assert(ns.take(i + 1).drop_last() =~= ns.take(i as int));
            assert(out@ =~= "digraph depgraph {\n"@ + node_lines(ns.take(i + 1)));
        }
        i = i + 1;
    }
    assert(ns.take(ns.len() as int) =~= ns);
    let ghost head = out@;
    let mut k: usize = 0;
    while k < graph.edges.len()
        invariant
            es == graph.edges.deep_view(),
            cv == chains_view(cycles@),
            k <= graph.edges.len(),
            forall|a: Seq<char>, b: Seq<char>| #[trigger] steps.deep_view().to_set().contains((a, b)) <==> is_cycle_edge(cv, a, b),
            out@ == head + edge_lines(es.take(k as int), cv),
        decreases graph.edges.len() - k,
    {
        let edge = &graph.edges[k];
        let red = contains_pair(&steps, &edge.0, &edge.1);
        out.append("  \"");
        out.append(edge.0.as_str());
        out.append("\" -> \"");
        out.append(edge.1.as_str());
        if red {
            out.append("\" [color=red, penwidth=2];\n");
        } else {
            out.append("\";\n");
        }
        proof {
            assert(es.take(k + 1).drop_last() =~= es.take(k as int));
            assert(es.take(k + 1).last() == es[k as int]);
            assert(out@ =~= head + edge_lines(es.take(k + 1), cv));
        }
        k = k + 1;
    }
    assert(es.take(es.len() as int) =~= es);
    out.append("}\n");
    assert(out@ =~= dot_text(ns, es, cv));
    out
}

/// The lines of the edges hold the line of each edge, somewhere.
proof fn lemma_edge_line_present(es: Seq<(Seq<char>, Seq<char>)>, chains: Seq<Seq<Seq<char>>>, k: int)
    requires
        0 <= k < es.len(),
    ensures
        exists|p: int|
            0 <= p && p + edge_line(es[k].0, es[k].1, is_cycle_edge(chains, es[k].0, es[k].1)).len() <= edge_lines(
                es,
                chains,
            ).len() && #[trigger] edge_lines(es, chains).subrange(
                p,
                p + edge_line(es[k].0, es[k].1, is_cycle_edge(chains, es[k].0, es[k].1)).len(),
            ) == edge_line(es[k].0, es[k].1, is_cycle_edge(chains, es[k].0, es[k].1)),
    decreases es.len(),
{
    let line = edge_line(es[k].0, es[k].1, is_cycle_edge(chains, es[k].0, es[k].1));
    let front = edge_lines(es.drop_last(), chains);
    let whole = edge_lines(es, chains);
    if k == es.len() - 1 {
        let p = front.len() as int;
        assert(whole == front + line);
        assert(whole.subrange(p, p + line.len()) =~= line);
    } else {
        lemma_edge_line_present(es.drop_last(), chains, k);
        assert(es.drop_last()[k] == es[k]);
        let p = choose|p: int|
            0 <= p && p + line.len() <= front.len() && #[trigger] front.subrange(p, p + line.len()) == line;
        assert(whole.subrange(p, p + line.len()) =~= front.subrange(p, p + line.len()));
    }
}

/// Every step of every chain handed in that is an edge of the graph is
/// drawn red and bold: the text holds that edge's line with the red style.
pub proof fn lemma_chain_steps_drawn_red(
    ns: Seq<Seq<char>>,
    es: Seq<(Seq<char>, Seq<char>)>,
    chains: Seq<Seq<Seq<char>>>,
    i: int,
    m: int,
)
    requires
        0 <= i < chains.len(),
        0 <= m < chains[i].len() - 1,
        es.contains((chains[i][m], chains[i][m + 1])),
    ensures
        ({
            let line = "  \""@ + chains[i][m] + "\" -> \""@ + chains[i][m + 1] + "\" [color=red, penwidth=2];\n"@;
            let text = dot_text(ns, es, chains);
            exists|p: int| 0 <= p && p + line.len() <= text.len() && #[trigger] text.subrange(p, p + line.len()) == line
        }),
{
    let a = chains[i][m];
    let b = chains[i][m + 1];
    let k = choose|k: int| 0 <= k < es.len() && es[k] == (a, b);
    assert(is_cycle_edge(chains, a, b));
    lemma_edge_line_present(es, chains, k);
    let line = edge_line(a, b, true);
    let e = edge_lines(es, chains);
    let p = choose|p: int| 0 <= p && p + line.len() <= e.len() && #[trigger] e.subrange(p, p + line.len()) == line;
    let front = "digraph depgraph {\n"@ + node_lines(ns);
    let text = dot_text(ns, es, chains);
    assert(text == front + e + "}\n"@);
    let q = front.len() + p;
    assert(text.subrange(q, q + line.len()) =~= e.subrange(p, p + line.len()));
    assert(line == "  \""@ + a + "\" -> \""@ + b + "\" [color=red, penwidth=2];\n"@);
}

/// Rendering draws every step of every chain red: for each chain and each
/// of its steps that is an edge of the graph, the output holds that edge's
/// red line.
pub proof fn lemma_render_dot_marks_every_chain(graph: Graph, cycles: Seq<Vec<String>>, out: Seq<char>, i: int, m: int)
    requires
        out == dot_text(graph.nodes.deep_view(), graph.edges.deep_view(), chains_view(cycles)),
        0 <= i < cycles.len(),
        0 <= m < cycles[i]@.len() - 1,
        graph.edges.deep_view().contains((cycles[i]@[m]@, cycles[i]@[m + 1]@)),
    ensures
        ({
            let line = "  \""@ + cycles[i]@[m]@ + "\" -> \""@ + cycles[i]@[m + 1]@ + "\" [color=red, penwidth=2];\n"@;
            exists|p: int| 0 <= p && p + line.len() <= out.len() && #[trigger] out.subrange(p, p + line.len()) == line
        }),
{
    let cv = chains_view(cycles);
    assert(cv[i] == cycles[i].deep_view());
    assert(cv[i][m] == cycles[i]@[m]@);
    assert(cv[i][m + 1] == cycles[i]@[m + 1]@);
    lemma_chain_steps_drawn_red(graph.nodes.deep_view(), graph.edges.deep_view(), cv, i, m);
}

/// An edge of the graph that is a step of no chain is drawn plain.
pub proof fn lemma_other_edges_drawn_plain(
    ns: Seq<Seq<char>>,
    es: Seq<(Seq<char>, Seq<char>)>,
    chains: Seq<Seq<Seq<char>>>,
    a: Seq<char>,
    b: Seq<char>,
)
    requires
        es.contains((a, b)),
        forall|i: int, m: int|
            0 <= i < chains.len() && 0 <= m < chains[i].len() - 1 ==> !(#[trigger] chains[i][m] == a && chains[i][m + 1] == b),
    ensures
        ({
            let line = "  \""@ + a + "\" -> \""@ + b + "\";\n"@;
            let text = dot_text(ns, es, chains);
            exists|p: int| 0 <= p && p + line.len() <= text.len() && #[trigger] text.subrange(p, p + line.len()) == line
        }),
{
    let k = choose|k: int| 0 <= k < es.len() && es[k] == (a, b);
    assert(!is_cycle_edge(chains, a, b));
    lemma_edge_line_present(es, chains, k);
    let line = edge_line(a, b, false);
    let e = edge_lines(es, chains);
    let p = choose|p: int| 0 <= p && p + line.len() <= e.len() && #[trigger] e.subrange(p, p + line.len()) == line;
    let front = "digraph depgraph {\n"@ + node_lines(ns);
    let text = dot_text(ns, es, chains);
    assert(text == front + e + "}\n"@);
    let q = front.len() + p;
    assert(text.subrange(q, q + line.len()) =~= e.subrange(p, p + line.len()));
}

proof fn lemma_node_line_present(ns: Seq<Seq<char>>, k: int)
    requires
        0 <= k < ns.len(),
    ensures
        exists|p: int|
            0 <= p && p + node_line(ns[k]).len() <= node_lines(ns).len() && #[trigger] node_lines(ns).subrange(
                p,
                p + node_line(ns[k]).len(),
            ) == node_line(ns[k]),
    decreases ns.len(),
{
    let line = node_line(ns[k]);
    let front = node_lines(ns.drop_last());
    let whole = node_lines(ns);
    if k == ns.len() - 1 {
        let p = front.len() as int;
        assert(whole.subrange(p, p + line.len()) =~= line);
    } else {
        lemma_node_line_present(ns.drop_last(), k);
        assert(ns.drop_last()[k] == ns[k]);
        let p = choose|p: int| 0 <= p && p + line.len() <= front.len() && #[trigger] front.subrange(p, p + line.len()) == line;
        assert(whole.subrange(p, p + line.len()) =~= front.subrange(p, p + line.len()));
    }
}

/// Every node is drawn, even one with no edges: the text holds its line.
pub proof fn lemma_every_node_drawn(
    ns: Seq<Seq<char>>,
    es: Seq<(Seq<char>, Seq<char>)>,
    chains: Seq<Seq<Seq<char>>>,
    x: Seq<char>,
)
    requires
        ns.contains(x),
    ensures
        ({
            let line = "  \""@ + x + "\";\n"@;
            let text = dot_text(ns, es, chains);
            exists|p: int| 0 <= p && p + line.len() <= text.len() && #[trigger] text.subrange(p, p + line.len()) == line
        }),
{
    let k = choose|k: int| 0 <= k < ns.len() && ns[k] == x;
    lemma_node_line_present(ns, k);
    let line = node_line(x);
    let n = node_lines(ns);
    let p = choose|p: int| 0 <= p && p + line.len() <= n.len() && #[trigger] n.subrange(p, p + line.len()) == line;
    let head = "digraph depgraph {\n"@;
    let text = dot_text(ns, es, chains);
    assert(text == head + n + edge_lines(es, chains) + "}\n"@);
    let q = head.len() + p;
    assert(text.subrange(q, q + line.len()) =~= n.subrange(p, p + line.len()));
}

} // verus!
