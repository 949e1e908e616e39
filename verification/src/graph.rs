use vstd::prelude::*;

use crate::manifest::CrateInfo;
use crate::order::{
    chain_order, insert_sorted, lemma_orders_strict_total, lemma_sorted_exists, lemma_sorted_unique, name_order,
    pair_order, strict_total, strictly_sorted,
};
use crate::reach::{
    adj_ok, component_of, edge, is_path, is_vertex, lemma_component_same, lemma_path_sub, lemma_reach_edge,
    lemma_reach_refl, lemma_reach_trans, reach, reach_avoiding, step, view_adj,
};
use crate::scc::{
    dfs_inv, dfs_postorder, lemma_closed_reach, lemma_initial, cycle_of, find_cycle_in_component, ints, is_cycle, lemma_component_cycle,
    lemma_scc_cycle, lemma_scc_entries, lemma_scc_nontrivial, lemma_scc_of_vertex,
    nontrivial, scc_list_covers, scc_list_ok, strongly_connected_components,
};

verus! {

/// The inter-crate dependency graph: every discovered crate is a node, and
/// an edge `a -> b` means crate `a` depends on crate `b`.
#[derive(Debug, Clone, Default, PartialEq, Eq)]
pub struct Graph {
    pub nodes: Vec<String>,
    pub edges: Vec<(String, String)>,
}

/// The names of the crates handed in.
pub open spec fn crate_names(cs: Seq<CrateInfo>) -> Set<Seq<char>> {
    Set::new(|n: Seq<char>| exists|i: int| 0 <= i < cs.len() && #[trigger] cs[i].name@ == n)
}

/// `cs[i]` lists `cs[i].dependencies[j]` as a dependency on another crate
/// of `cs`.
pub open spec fn is_internal_dependency(cs: Seq<CrateInfo>, i: int, j: int) -> bool {
    &&& 0 <= i < cs.len()
    &&& 0 <= j < cs[i].dependencies@.len()
    &&& cs[i].dependencies@[j]@ != cs[i].name@
    &&& crate_names(cs).contains(cs[i].dependencies@[j]@)
}

/// The edges of the graph of `cs`: one for each dependency of a crate on
/// another crate of `cs`.
pub open spec fn internal_edges(cs: Seq<CrateInfo>) -> Set<(Seq<char>, Seq<char>)> {
    Set::new(
        |e: (Seq<char>, Seq<char>)|
            exists|i: int, j: int|
                #[trigger] is_internal_dependency(cs, i, j) && e == (
                    cs[i].name@,
                    cs[i].dependencies@[j]@,
                ),
    )
}

/// Every edge of the graph of `cs` joins two distinct crates of `cs`: no
/// dependency on an outside package and no self-dependency becomes an edge.
pub proof fn lemma_internal_edges_between_crates(cs: Seq<CrateInfo>, e: (Seq<char>, Seq<char>))
    requires
        internal_edges(cs).contains(e),
    ensures
        e.0 != e.1,
        crate_names(cs).contains(e.0),
        crate_names(cs).contains(e.1),
{
    let (i, j) = choose|i: int, j: int| #[trigger] is_internal_dependency(cs, i, j) && e == (cs[i].name@, cs[i].dependencies@[j]@);
    assert(crate_names(cs).contains(cs[i].name@));
}

/// The internal edges contributed by the dependencies that come before
/// position `j` of crate `i`, or by an earlier crate.
spec fn edges_before(cs: Seq<CrateInfo>, i: int, j: int) -> Set<(Seq<char>, Seq<char>)> {
    Set::new(
        |e: (Seq<char>, Seq<char>)|
            exists|a: int, b: int|
                #[trigger] is_internal_dependency(cs, a, b) && (a < i || (a == i && b < j)) && e == (
                    cs[a].name@,
                    cs[a].dependencies@[b]@,
                ),
    )
}

/// `g` is the graph of `cs`: the crates' names, sorted, each once, and the
/// internal edges, sorted, each once.
pub open spec fn builds(cs: Seq<CrateInfo>, g: Graph) -> bool {
    &&& strictly_sorted(g.nodes.deep_view(), name_order())
    &&& g.nodes.deep_view().to_set() == crate_names(cs)
    &&& strictly_sorted(g.edges.deep_view(), pair_order())
    &&& g.edges.deep_view().to_set() == internal_edges(cs)
}

/// The edges of a built graph are exactly the pairs (crate, dependency)
/// where the dependency names another crate handed in and is not the
/// crate's own name: every such dependency becomes an edge, whatever its
/// name, and no other pair does.
pub proof fn lemma_build_graph_edges_exact(cs: Seq<CrateInfo>, g: Graph, a: Seq<char>, b: Seq<char>)
    requires
        builds(cs, g),
    ensures
        g.edges.deep_view().contains((a, b)) <==> exists|i: int, j: int, t: int|
            0 <= i < cs.len() && 0 <= j < cs[i].dependencies@.len() && 0 <= t < cs.len() && cs[i].name@ == a
                && #[trigger] cs[i].dependencies@[j]@ == b && b != a && #[trigger] cs[t].name@ == b,
{
    let es = g.edges.deep_view();
    if es.contains((a, b)) {
        assert(es.to_set().contains((a, b)));
        assert(internal_edges(cs).contains((a, b)));
        let (i, j) = choose|i: int, j: int| #[trigger] is_internal_dependency(cs, i, j) && (a, b) == (
            cs[i].name@,
            cs[i].dependencies@[j]@,
        );
        assert(crate_names(cs).contains(b));
        let t = choose|t: int| 0 <= t < cs.len() && #[trigger] cs[t].name@ == b;
        assert(0 <= i < cs.len() && 0 <= j < cs[i].dependencies@.len() && 0 <= t < cs.len() && cs[i].name@ == a
            && cs[i].dependencies@[j]@ == b && b != a && cs[t].name@ == b);
    }
    if exists|i: int, j: int, t: int|
        0 <= i < cs.len() && 0 <= j < cs[i].dependencies@.len() && 0 <= t < cs.len() && cs[i].name@ == a
            && #[trigger] cs[i].dependencies@[j]@ == b && b != a && #[trigger] cs[t].name@ == b {
        let (i, j, t) = choose|i: int, j: int, t: int|
            0 <= i < cs.len() && 0 <= j < cs[i].dependencies@.len() && 0 <= t < cs.len() && cs[i].name@ == a
                && #[trigger] cs[i].dependencies@[j]@ == b && b != a && #[trigger] cs[t].name@ == b;
        assert(crate_names(cs).contains(b));
        assert(is_internal_dependency(cs, i, j));
        assert(internal_edges(cs).contains((a, b)));
        assert(es.to_set().contains((a, b)));
    }
}

/// The nodes of a built graph are exactly the names of the crates handed
/// in.
pub proof fn lemma_build_graph_nodes_exact(cs: Seq<CrateInfo>, g: Graph, x: Seq<char>)
    requires
        builds(cs, g),
    ensures
        g.nodes.deep_view().contains(x) <==> exists|t: int| 0 <= t < cs.len() && #[trigger] cs[t].name@ == x,
{
    let ns = g.nodes.deep_view();
    if ns.contains(x) {
        assert(ns.to_set().contains(x));
    }
    if exists|t: int| 0 <= t < cs.len() && #[trigger] cs[t].name@ == x {
        assert(crate_names(cs).contains(x));
        assert(ns.to_set().contains(x));
    }
}

/// Two crates with the same name and the same dependency names.
pub open spec fn crate_matches(c1: CrateInfo, c2: CrateInfo) -> bool {
    &&& c1.name@ == c2.name@
    &&& c1.dependencies.deep_view().to_set() == c2.dependencies.deep_view().to_set()
}

/// Some crate of `cs` matches `c`.
pub open spec fn matched_in(c: CrateInfo, cs: Seq<CrateInfo>) -> bool {
    exists|j: int| 0 <= j < cs.len() && #[trigger] crate_matches(c, cs[j])
}

/// `cs1` and `cs2` hold the same crates, in any order, each with its
/// dependencies in any order.
pub open spec fn same_crates(cs1: Seq<CrateInfo>, cs2: Seq<CrateInfo>) -> bool {
    &&& forall|i: int| 0 <= i < cs1.len() ==> #[trigger] matched_in(cs1[i], cs2)
    &&& forall|j: int| 0 <= j < cs2.len() ==> #[trigger] matched_in(cs2[j], cs1)
}

proof fn lemma_same_crates_edges(cs1: Seq<CrateInfo>, cs2: Seq<CrateInfo>)
    requires
        same_crates(cs1, cs2),
    ensures
        crate_names(cs1) == crate_names(cs2),
        internal_edges(cs1) <= internal_edges(cs2),
{
    assert forall|n: Seq<char>| #[trigger] crate_names(cs1).contains(n) <==> crate_names(cs2).contains(n) by {
        if crate_names(cs1).contains(n) {
            let i = choose|i: int| 0 <= i < cs1.len() && #[trigger] cs1[i].name@ == n;
            assert(matched_in(cs1[i], cs2));
            let j = choose|j: int| 0 <= j < cs2.len() && #[trigger] crate_matches(cs1[i], cs2[j]);
            assert(cs2[j].name@ == n);
        }
        if crate_names(cs2).contains(n) {
            let j = choose|j: int| 0 <= j < cs2.len() && #[trigger] cs2[j].name@ == n;
            assert(matched_in(cs2[j], cs1));
            let i = choose|i: int| 0 <= i < cs1.len() && #[trigger] crate_matches(cs2[j], cs1[i]);
            assert(cs1[i].name@ == n);
        }
    }
    assert(crate_names(cs1) =~= crate_names(cs2));
    assert forall|e: (Seq<char>, Seq<char>)| #[trigger] internal_edges(cs1).contains(e) implies internal_edges(cs2).contains(e) by {
        let (i, j) = choose|i: int, j: int| #[trigger] is_internal_dependency(cs1, i, j) && e == (
            cs1[i].name@,
            cs1[i].dependencies@[j]@,
        );
        assert(matched_in(cs1[i], cs2));
        let i2 = choose|i2: int| 0 <= i2 < cs2.len() && #[trigger] crate_matches(cs1[i], cs2[i2]);
        let d = cs1[i].dependencies@[j]@;
        assert(cs1[i].dependencies.deep_view()[j] == d);
        assert(cs1[i].dependencies.deep_view().to_set().contains(d));
        assert(cs2[i2].dependencies.deep_view().to_set().contains(d));
        let j2 = choose|j2: int| 0 <= j2 < cs2[i2].dependencies.deep_view().len() && cs2[i2].dependencies.deep_view()[j2] == d;
        assert(cs2[i2].dependencies@[j2]@ == d);
        assert(is_internal_dependency(cs2, i2, j2));
    }
}

/// The graph does not depend on the order in which the crates, or the
/// dependencies of each crate, are handed in.
pub proof fn lemma_build_graph_order_free(cs1: Seq<CrateInfo>, cs2: Seq<CrateInfo>, g1: Graph, g2: Graph)
    requires
        same_crates(cs1, cs2),
        builds(cs1, g1),
        builds(cs2, g2),
    ensures
        g1.nodes.deep_view() == g2.nodes.deep_view(),
        g1.edges.deep_view() == g2.edges.deep_view(),
{
    lemma_same_crates_edges(cs1, cs2);
    lemma_same_crates_edges(cs2, cs1);
    let e1 = internal_edges(cs1);
    let e2 = internal_edges(cs2);
    assert(e1 =~= e2);
    lemma_orders_strict_total();
    lemma_sorted_unique(g1.nodes.deep_view(), g2.nodes.deep_view(), name_order());
    lemma_sorted_unique(g1.edges.deep_view(), g2.edges.deep_view(), pair_order());
}

/// Whether `x` occurs in `v`.
pub fn contains_name(v: &Vec<String>, x: &String) -> (r: bool)
    ensures
        r == v.deep_view().contains(x@),
{
    let mut i: usize = 0;
    while i < v.len()
        invariant
            i <= v.len(),
            forall|k: int| 0 <= k < i ==> v.deep_view()[k] != x@,
        decreases v.len() - i,
    {
        if v[i] == *x {
            assert(v.deep_view()[i as int] == x@);
            return true;
        }
        i = i + 1;
    }
    false
}

/// Builds the inter-crate dependency graph from a set of discovered crates.
/// The nodes are the crates' names, sorted, each once. An edge only exists
/// between two crates that were both handed in: a dependency on an outside
/// package never becomes a node. A crate listing its own name as a
/// dependency is ignored rather than turned into a self-loop. The edges are
/// sorted, each once.
pub fn build_graph(crates: &[CrateInfo]) -> (g: Graph)
    ensures
        builds(crates@, g),
{
    proof {
        lemma_orders_strict_total();
    }
    let ghost cs = crates@;
    let mut nodes: Vec<String> = Vec::new();
    let mut i: usize = 0;
    while i < crates.len()
        invariant
            cs == crates@,
            i <= crates.len(),
            strict_total(name_order()),
            strictly_sorted(nodes.deep_view(), name_order()),
            nodes.deep_view().to_set() == crate_names(cs.take(i as int)),
        decreases crates.len() - i,
    {
        let ghost before = nodes.deep_view().to_set();
        insert_sorted(&mut nodes, crates[i].name.clone());
        proof {
            assert forall|n: Seq<char>| #[trigger] crate_names(cs.take(i + 1)).contains(n) <==> before.insert(
                cs[i as int].name@,
            ).contains(n) by {
                if crate_names(cs.take(i + 1)).contains(n) {
                    let k = choose|k: int| 0 <= k < i + 1 && #[trigger] cs.take(i + 1)[k].name@ == n;
                    if k < i {
                        assert(cs.take(i as int)[k].name@ == n);
                    }
                }
                if before.contains(n) {
                    let k = choose|k: int| 0 <= k < i && #[trigger] cs.take(i as int)[k].name@ == n;
                    assert(cs.take(i + 1)[k].name@ == n);
                }
                if n == cs[i as int].name@ {
                    assert(cs.take(i + 1)[i as int].name@ == n);
                }
            }
            assert(crate_names(cs.take(i + 1)) =~= before.insert(cs[i as int].name@));
        }
        i = i + 1;
    }
    assert(cs.take(cs.len() as int) =~= cs);
    let mut edges: Vec<(String, String)> = Vec::new();
    let mut i: usize = 0;
    while i < crates.len()
        invariant
            cs == crates@,
            i <= crates.len(),
            strict_total(pair_order()),
            nodes.deep_view().to_set() == crate_names(cs),
            strictly_sorted(edges.deep_view(), pair_order()),
            edges.deep_view().to_set() == edges_before(cs, i as int, 0),
        decreases crates.len() - i,
    {
        let c = &crates[i];
        let mut j: usize = 0;
        while j < c.dependencies.len()
            invariant
                cs == crates@,
                i < crates.len(),
                *c == cs[i as int],
                j <= c.dependencies.len(),
                strict_total(pair_order()),
                nodes.deep_view().to_set() == crate_names(cs),
                strictly_sorted(edges.deep_view(), pair_order()),
                edges.deep_view().to_set() == edges_before(cs, i as int, j as int),
            decreases c.dependencies.len() - j,
        {
            let dep = &c.dependencies[j];
            let ghost before = edges.deep_view().to_set();
            let internal = *dep != c.name && contains_name(&nodes, dep);
            proof {
                assert(internal == is_internal_dependency(cs, i as int, j as int));
            }
            if internal {
                insert_sorted(&mut edges, (c.name.clone(), dep.clone()));
            }
            proof {
                let e_new = (cs[i as int].name@, cs[i as int].dependencies@[j as int]@);
                assert forall|e: (Seq<char>, Seq<char>)| #[trigger] edges_before(cs, i as int, j + 1).contains(e) <==> (
                    if internal { before.insert(e_new) } else { before }).contains(e) by {
                    if edges_before(cs, i as int, j + 1).contains(e) {
                        let (a, b) = choose|a: int, b: int|
                            #[trigger] is_internal_dependency(cs, a, b) && (a < i || (a == i && b < j + 1)) && e == (
                                cs[a].name@,
                                cs[a].dependencies@[b]@,
                            );
                        if a < i || b < j {
                            assert(edges_before(cs, i as int, j as int).contains(e));
                        }
                    }
                    if before.contains(e) {
                        let (a, b) = choose|a: int, b: int|
                            #[trigger] is_internal_dependency(cs, a, b) && (a < i || (a == i && b < j)) && e == (
                                cs[a].name@,
                                cs[a].dependencies@[b]@,
                            );
                        assert(is_internal_dependency(cs, a, b) && (a < i || (a == i && b < j + 1)));
                    }
                    if internal && e == e_new {
                        assert(is_internal_dependency(cs, i as int, j as int));
                    }
                }
                assert(edges_before(cs, i as int, j + 1) =~= (if internal { before.insert(e_new) } else { before }));
            }
            j = j + 1;
        }
        proof {
            assert forall|e: (Seq<char>, Seq<char>)| #[trigger] edges_before(cs, i + 1, 0).contains(e) <==> edges_before(
                cs,
                i as int,
                j as int,
            ).contains(e) by {
                if edges_before(cs, i + 1, 0).contains(e) {
                    let (a, b) = choose|a: int, b: int|
                        #[trigger] is_internal_dependency(cs, a, b) && (a < i + 1 || (a == i + 1 && b < 0)) && e == (
                            cs[a].name@,
                            cs[a].dependencies@[b]@,
                        );
                    assert(is_internal_dependency(cs, a, b) && (a < i || (a == i && b < j)));
                }
                if edges_before(cs, i as int, j as int).contains(e) {
                    let (a, b) = choose|a: int, b: int|
                        #[trigger] is_internal_dependency(cs, a, b) && (a < i || (a == i && b < j)) && e == (
                            cs[a].name@,
                            cs[a].dependencies@[b]@,
                        );
                    assert(is_internal_dependency(cs, a, b) && (a < i + 1 || (a == i + 1 && b < 0)));
                }
            }
            assert(edges_before(cs, i + 1, 0) =~= edges_before(cs, i as int, j as int));
        }
        i = i + 1;
    }
    proof {
        assert forall|e: (Seq<char>, Seq<char>)| #[trigger] internal_edges(cs).contains(e) <==> edges_before(
            cs,
            cs.len() as int,
            0,
        ).contains(e) by {
            if internal_edges(cs).contains(e) {
                let (a, b) = choose|a: int, b: int|
                    #[trigger] is_internal_dependency(cs, a, b) && e == (cs[a].name@, cs[a].dependencies@[b]@);
                assert(is_internal_dependency(cs, a, b) && (a < cs.len() || (a == cs.len() && b < 0)));
            }
        }
        assert(internal_edges(cs) =~= edges_before(cs, cs.len() as int, 0));
    }
    Graph { nodes, edges }
}

/// The names a graph speaks of: its nodes and both ends of every edge.
pub open spec fn graph_names(nodes: Seq<Seq<char>>, edges: Seq<(Seq<char>, Seq<char>)>) -> Set<Seq<char>> {
    Set::new(
        |x: Seq<char>|
            nodes.contains(x) || exists|k: int| 0 <= k < edges.len() && ((#[trigger] edges[k]).0 == x || edges[k].1 == x),
    )
}

/// The graph's vertices in name order, each once: vertex `i` of the
/// numbered model below is `vertex_seq(g)[i]`.
#[verifier::opaque]
pub open spec fn vertex_seq(g: Graph) -> Seq<Seq<char>> {
    choose|vs: Seq<Seq<char>>|
        strictly_sorted(vs, name_order()) && vs.to_set() == graph_names(g.nodes.deep_view(), g.edges.deep_view())
}

/// The number of name `x` in `vs`.
pub open spec fn name_index(vs: Seq<Seq<char>>, x: Seq<char>) -> int {
    choose|i: int| 0 <= i < vs.len() && vs[i] == x
}

/// The numbers of the targets of the first `k` edges leaving `x`, in edge
/// order.
pub open spec fn targets_from(vs: Seq<Seq<char>>, es: Seq<(Seq<char>, Seq<char>)>, x: Seq<char>, k: int) -> Seq<usize>
    decreases k,
{
    if k <= 0 {
        Seq::empty()
    } else if es[k - 1].0 == x {
        targets_from(vs, es, x, k - 1).push(name_index(vs, es[k - 1].1) as usize)
    } else {
        targets_from(vs, es, x, k - 1)
    }
}

/// The graph over numbered vertices: vertex `i` is `vs[i]`, and its list
/// holds the targets of its edges in edge order.
pub open spec fn model_adj(vs: Seq<Seq<char>>, es: Seq<(Seq<char>, Seq<char>)>) -> Seq<Seq<usize>> {
    Seq::new(vs.len(), |i: int| targets_from(vs, es, vs[i], es.len() as int))
}

#[verifier::opaque]
pub open spec fn graph_model(g: Graph) -> Seq<Seq<usize>> {
    model_adj(vertex_seq(g), g.edges.deep_view())
}

/// A walk of numbered vertices, as names.
pub open spec fn chain_names(vs: Seq<Seq<char>>, p: Seq<int>) -> Seq<Seq<char>> {
    Seq::new(p.len(), |i: int| vs[p[i]])
}

/// Some node of `g` reaches vertex `v` of the numbered graph.
pub open spec fn reached_from_nodes(g: Graph, v: int) -> bool {
    exists|k: int|
        0 <= k < g.nodes.deep_view().len() && #[trigger] reach(
            graph_model(g),
            name_index(vertex_seq(g), g.nodes.deep_view()[k]),
            v,
        )
}

/// The chains reported for `g`: for each strongly connected component with
/// more than one vertex that some node reaches, the loop found by walking
/// from its least name along the first edge, in edge order, that stays
/// inside the component.
#[verifier::opaque]
pub open spec fn reported_cycles(g: Graph) -> Set<Seq<Seq<char>>> {
    let a = graph_model(g);
    Set::new(
        |ch: Seq<Seq<char>>|
            exists|v: int|
                is_vertex(a, v) && #[trigger] nontrivial(a, v) && reached_from_nodes(g, v) && ch == chain_names(
                    vertex_seq(g),
                    cycle_of(a, component_of(a, v))->0,
                ),
    )
}

/// The nodes, and both ends of the first `k` edges.
spec fn names_upto(ns: Seq<Seq<char>>, es: Seq<(Seq<char>, Seq<char>)>, k: int) -> Set<Seq<char>> {
    Set::new(|x: Seq<char>| ns.contains(x) || exists|j: int| 0 <= j < k && ((#[trigger] es[j]).0 == x || es[j].1 == x))
}

proof fn lemma_names_upto_step(ns: Seq<Seq<char>>, es: Seq<(Seq<char>, Seq<char>)>, k: int)
    requires
        0 <= k < es.len(),
    ensures
        names_upto(ns, es, k + 1) == names_upto(ns, es, k).insert(es[k].0).insert(es[k].1),
{
    let s0 = names_upto(ns, es, k);
    let s1 = names_upto(ns, es, k + 1);
    assert forall|x: Seq<char>| #[trigger] s1.contains(x) <==> s0.insert(es[k].0).insert(es[k].1).contains(x) by {
        if s1.contains(x) && !ns.contains(x) {
            let j = choose|j: int| 0 <= j < k + 1 && ((#[trigger] es[j]).0 == x || es[j].1 == x);
            if j < k {
                assert(s0.contains(x));
            }
        }
        if s0.contains(x) && !ns.contains(x) {
            let j = choose|j: int| 0 <= j < k && ((#[trigger] es[j]).0 == x || es[j].1 == x);
            assert(0 <= j < k + 1);
        }
        if x == es[k].0 || x == es[k].1 {
            assert(es[k].0 == x || es[k].1 == x);
        }
    }
    assert(s1 =~= s0.insert(es[k].0).insert(es[k].1));
}

proof fn lemma_names_upto_all(ns: Seq<Seq<char>>, es: Seq<(Seq<char>, Seq<char>)>)
    ensures
        names_upto(ns, es, es.len() as int) == graph_names(ns, es),
{
    assert(names_upto(ns, es, es.len() as int) =~= graph_names(ns, es));
}

/// The graph's names, sorted, each once.
fn vertex_names(graph: &Graph) -> (vs: Vec<String>)
    ensures
        strictly_sorted(vs.deep_view(), name_order()),
        vs.deep_view().to_set() == graph_names(graph.nodes.deep_view(), graph.edges.deep_view()),
        vertex_seq(*graph) == vs.deep_view(),
{
    proof {
        lemma_orders_strict_total();
    }
    let ghost ns = graph.nodes.deep_view();
    let ghost es = graph.edges.deep_view();
    let mut vs: Vec<String> = Vec::new();
    let mut i: usize = 0;
    while i < graph.nodes.len()
        invariant
            ns == graph.nodes.deep_view(),
            i <= graph.nodes.len(),
            strict_total(name_order()),
            strictly_sorted(vs.deep_view(), name_order()),
            vs.deep_view().to_set() == ns.take(i as int).to_set(),
        decreases graph.nodes.len() - i,
    {
        insert_sorted(&mut vs, graph.nodes[i].clone());
        proof {
            assert(ns.take(i + 1) =~= ns.take(i as int).push(ns[i as int]));
            ns.take(i as int).lemma_push_to_set_commute(ns[i as int]);
        }
        i = i + 1;
    }
    assert(ns.take(ns.len() as int) =~= ns);
    let mut k: usize = 0;
    assert(ns.to_set() =~= names_upto(ns, es, 0));
    while k < graph.edges.len()
        invariant
            ns == graph.nodes.deep_view(),
            es == graph.edges.deep_view(),
            k <= graph.edges.len(),
            strict_total(name_order()),
            strictly_sorted(vs.deep_view(), name_order()),
            vs.deep_view().to_set() == names_upto(ns, es, k as int),
        decreases graph.edges.len() - k,
    {
        insert_sorted(&mut vs, graph.edges[k].0.clone());
        insert_sorted(&mut vs, graph.edges[k].1.clone());
        proof {
            lemma_names_upto_step(ns, es, k as int);
        }
        k = k + 1;
    }
    proof {
        lemma_names_upto_all(ns, es);
    }
    proof {
        let g = *graph;
        assert(strictly_sorted(vs.deep_view(), name_order()) && vs.deep_view().to_set() == graph_names(
            g.nodes.deep_view(),
            g.edges.deep_view(),
        ));
        reveal(vertex_seq);
        let chosen = vertex_seq(g);
        lemma_sorted_unique(chosen, vs.deep_view(), name_order());
    }
    vs
}

/// The number of `x` among the sorted, distinct names `vs`.
fn name_position(vs: &Vec<String>, x: &String) -> (i: usize)
    requires
        strict_total(name_order()),
        strictly_sorted(vs.deep_view(), name_order()),
        vs.deep_view().contains(x@),
    ensures
        i < vs.len(),
        vs.deep_view()[i as int] == x@,
        name_index(vs.deep_view(), x@) == i,
{
    let ghost d = vs.deep_view();
    let mut i: usize = 0;
    while i < vs.len()
        invariant
            d == vs.deep_view(),
            strict_total(name_order()),
            strictly_sorted(d, name_order()),
            i <= vs.len(),
            d.contains(x@),
            forall|k: int| 0 <= k < i ==> d[k] != x@,
        decreases vs.len() - i,
    {
        if vs[i] == *x {
            proof {
                let j = name_index(d, x@);
                assert(d[j] == x@);
                if j != i {
                    if j < i {
                        assert(name_order()(d[j], d[i as int]));
                    } else {
                        assert(name_order()(d[i as int], d[j]));
                    }
                    assert(name_order()(x@, x@));
                }
            }
            return i;
        }
        i = i + 1;
    }
    proof {
        let j = choose|j: int| 0 <= j < d.len() && d[j] == x@;
        assert(d[j] != x@);
    }
    0
}

/// The adjacency lists of the numbered graph: for each edge, in order, its
/// target's number is appended to its source's list.
fn adjacency(graph: &Graph, vs: &Vec<String>) -> (adj: Vec<Vec<usize>>)
    requires
        strictly_sorted(vs.deep_view(), name_order()),
        vs.deep_view().to_set() == graph_names(graph.nodes.deep_view(), graph.edges.deep_view()),
    ensures
        view_adj(adj@) == model_adj(vs.deep_view(), graph.edges.deep_view()),
        adj_ok(view_adj(adj@)),
{
    proof {
        lemma_orders_strict_total();
    }
    let ghost d = vs.deep_view();
    let ghost es = graph.edges.deep_view();
    let ghost ns = graph.nodes.deep_view();
    let n = vs.len();
    let mut adj: Vec<Vec<usize>> = Vec::new();
    let mut i: usize = 0;
    while i < n
        invariant
            n == vs.len(),
            i <= n,
            adj.len() == i,
            forall|j: int| 0 <= j < i ==> #[trigger] adj@[j]@ == Seq::<usize>::empty(),
        decreases n - i,
    {
        adj.push(Vec::new());
        i = i + 1;
    }
    let mut k: usize = 0;
    while k < graph.edges.len()
        invariant
            d == vs.deep_view(),
            es == graph.edges.deep_view(),
            ns == graph.nodes.deep_view(),
            n == vs.len(),
            strict_total(name_order()),
            strictly_sorted(d, name_order()),
            d.to_set() == graph_names(ns, es),
            k <= graph.edges.len(),
            adj.len() == n,
            forall|j: int| 0 <= j < n ==> #[trigger] adj@[j]@ == targets_from(d, es, d[j], k as int),
            forall|j: int, m: int| 0 <= j < n && 0 <= m < adj@[j]@.len() ==> #[trigger] adj@[j]@[m] < n,
        decreases graph.edges.len() - k,
    {
        let edge = &graph.edges[k];
        proof {
            assert(graph_names(ns, es).contains(es[k as int].0));
            assert(graph_names(ns, es).contains(es[k as int].1));
            assert(d.to_set().contains(edge.0@));
            assert(d.to_set().contains(edge.1@));
        }
        let a = name_position(vs, &edge.0);
        let b = name_position(vs, &edge.1);
        let mut row: Vec<usize> = Vec::new();
        adj.set_and_swap(a, &mut row);
        row.push(b);
        adj.set(a, row);
        proof {
            assert forall|j: int| 0 <= j < n implies #[trigger] adj@[j]@ == targets_from(d, es, d[j], k + 1) by {
                if j != a {
                    assert(d[j] != d[a as int]) by {
                        assert(name_order()(d[j], d[a as int]) || name_order()(d[a as int], d[j]));
                    }
                }
            }
        }
        k = k + 1;
    }
    proof {
        assert(view_adj(adj@) =~= model_adj(d, es));
    }
    adj
}

/// Marks the vertices listed in `scc`.
fn membership(scc: &Vec<usize>, n: usize) -> (in_scc: Vec<bool>)
    requires
        forall|i: int| 0 <= i < scc.len() ==> #[trigger] scc@[i] < n,
    ensures
        in_scc.len() == n,
        forall|v: int| 0 <= v < n ==> (#[trigger] in_scc@[v] <==> ints(scc@).contains(v)),
{
    let mut in_scc: Vec<bool> = vec![false; n];
    let mut j: usize = 0;
    while j < scc.len()
        invariant
            forall|i: int| 0 <= i < scc.len() ==> #[trigger] scc@[i] < n,
            in_scc.len() == n,
            j <= scc.len(),
            forall|v: int| 0 <= v < n ==> (#[trigger] in_scc@[v] <==> exists|i: int| 0 <= i < j && scc@[i] as int == v),
        decreases scc.len() - j,
    {
        in_scc.set(scc[j], true);
        proof {
            assert forall|v: int| 0 <= v < n implies (#[trigger] in_scc@[v] <==> exists|i: int| 0 <= i < j + 1 && scc@[i] as int == v) by {
                if v == scc@[j as int] as int {
                    assert(0 <= j < j + 1 && scc@[j as int] as int == v);
                }
                if exists|i: int| 0 <= i < j + 1 && scc@[i] as int == v {
                    let i = choose|i: int| 0 <= i < j + 1 && scc@[i] as int == v;
                    if i < j {
                        assert(0 <= i < j && scc@[i] as int == v);
                    }
                }
            }
        }
        j = j + 1;
    }
    proof {
        assert forall|v: int| 0 <= v < n implies (#[trigger] in_scc@[v] <==> ints(scc@).contains(v)) by {
            if ints(scc@).contains(v) {
                let i = choose|i: int| 0 <= i < ints(scc@).len() && ints(scc@)[i] == v;
                assert(scc@[i] as int == v);
            }
            if exists|i: int| 0 <= i < scc.len() && scc@[i] as int == v {
                let i = choose|i: int| 0 <= i < scc.len() && scc@[i] as int == v;
                assert(ints(scc@)[i] == v);
            }
        }
    }
    in_scc
}

/// The names of the vertices of a walk.
fn chain_to_names(chain: &Vec<usize>, vs: &Vec<String>) -> (names: Vec<String>)
    requires
        forall|i: int| 0 <= i < chain.len() ==> #[trigger] chain@[i] < vs.len(),
    ensures
        names.deep_view() == chain_names(vs.deep_view(), ints(chain@)),
{
    let mut names: Vec<String> = Vec::new();
    let mut m: usize = 0;
    while m < chain.len()
        invariant
            forall|i: int| 0 <= i < chain.len() ==> #[trigger] chain@[i] < vs.len(),
            m <= chain.len(),
            names.len() == m,
            forall|i: int| 0 <= i < m ==> #[trigger] names@[i]@ == vs@[chain@[i] as int]@,
        decreases chain.len() - m,
    {
        names.push(vs[chain[m]].clone());
        m = m + 1;
    }
    assert(names.deep_view() =~= chain_names(vs.deep_view(), ints(chain@)));
    names
}

/// Reach is passed on along a walk.
proof fn lemma_reached_along(g: Graph, v: int, w: int)
    requires
        reached_from_nodes(g, v),
        reach(graph_model(g), v, w),
    ensures
        reached_from_nodes(g, w),
{
    let ns = g.nodes.deep_view();
    let k = choose|k: int| 0 <= k < ns.len() && #[trigger] reach(graph_model(g), name_index(vertex_seq(g), ns[k]), v);
    lemma_reach_trans(graph_model(g), name_index(vertex_seq(g), ns[k]), v, w);
}

/// Marks the vertices that some node reaches: a depth-first search from
/// each node in turn, sharing one visited set.
fn reached_marks(graph: &Graph, vs: &Vec<String>, adj: &Vec<Vec<usize>>) -> (seen: Vec<bool>)
    requires
        vertex_seq(*graph) == vs.deep_view(),
        view_adj(adj@) == graph_model(*graph),
        adj_ok(view_adj(adj@)),
    ensures
        seen.len() == adj.len(),
        forall|v: int| 0 <= v < adj.len() ==> (#[trigger] seen@[v] <==> reached_from_nodes(*graph, v)),
{
    proof {
        lemma_orders_strict_total();
        lemma_vertex_seq(*graph);
    }
    let ghost g = *graph;
    let ghost a = view_adj(adj@);
    let ghost d = vs.deep_view();
    let ghost ns = graph.nodes.deep_view();
    assert(d.len() == a.len()) by {
        reveal(graph_model);
    }
    let n = adj.len();
    let mut visited: Vec<bool> = vec![false; n];
    let mut order: Vec<usize> = Vec::new();
    proof {
        lemma_initial(a, visited@);
    }
    let mut i: usize = 0;
    while i < graph.nodes.len()
        invariant
            g == *graph,
            a == view_adj(adj@),
            a == graph_model(g),
            d == vs.deep_view(),
            d == vertex_seq(g),
            ns == graph.nodes.deep_view(),
            d.len() == a.len(),
            n == adj.len(),
            strict_total(name_order()),
            strictly_sorted(d, name_order()),
            d.to_set() == graph_names(ns, g.edges.deep_view()),
            i <= graph.nodes.len(),
            visited.len() == n,
            dfs_inv(a, visited@, Seq::empty(), order@),
            forall|v: int|
                0 <= v < n ==> (#[trigger] visited@[v] <==> exists|k: int|
                    0 <= k < i && #[trigger] reach(a, name_index(d, ns[k]), v)),
        decreases graph.nodes.len() - i,
    {
        proof {
            assert(ns[i as int] == graph.nodes@[i as int]@);
            assert(graph_names(ns, g.edges.deep_view()).contains(ns[i as int]));
            assert(d.to_set().contains(ns[i as int]));
        }
        let u = name_position(vs, &graph.nodes[i]);
        let ghost vis0 = visited@;
        if !visited[u] {
            dfs_postorder(u, adj, &mut visited, &mut order);
        }
        proof {
            assert(visited@[u as int]);
            assert forall|v: int| 0 <= v < n implies (#[trigger] visited@[v] <==> exists|k: int|
                0 <= k < i + 1 && #[trigger] reach(a, name_index(d, ns[k]), v)) by {
                if visited@[v] && !vis0[v] {
                    let p = choose|p: Seq<int>|
                        #[trigger] is_path(a, p) && p[0] == u as int && p.last() == v && forall|j: int|
                            0 <= j < p.len() ==> !vis0[#[trigger] p[j]];
                    assert(reach(a, name_index(d, ns[i as int]), v));
                }
                if exists|k: int| 0 <= k < i + 1 && #[trigger] reach(a, name_index(d, ns[k]), v) {
                    let k = choose|k: int| 0 <= k < i + 1 && #[trigger] reach(a, name_index(d, ns[k]), v);
                    if k == i {
                        let p = choose|p: Seq<int>| #[trigger] is_path(a, p) && p[0] == u as int && p.last() == v;
                        lemma_closed_reach(a, visited@, order@, p);
                    } else {
                        assert(vis0[v]);
                    }
                }
            }
        }
        i = i + 1;
    }
    proof {
        assert forall|v: int| 0 <= v < n implies (#[trigger] visited@[v] <==> reached_from_nodes(g, v)) by {
            if visited@[v] {
                let k = choose|k: int| 0 <= k < ns.len() && #[trigger] reach(a, name_index(d, ns[k]), v);
            }
        }
    }
    visited
}

/// Finds circular dependency chains in the graph: one concrete chain per
/// strongly connected component of more than one crate, such as
/// `["a", "b", "c", "a"]` for a loop `a -> b -> c -> a`. Membership (which
/// crates take part in some cycle) is exact, since it is derived from the
/// strongly connected components; where a component holds more than one
/// elementary cycle, one representative chain through it is returned. The
/// chains come sorted. The search starts from the graph's nodes, so a
/// component that only edges name, out of every node's reach, is not
/// searched.
pub fn detect_cycles(graph: &Graph) -> (cycles: Vec<Vec<String>>)
    ensures
        strictly_sorted(cycles.deep_view(), chain_order()),
        cycles.deep_view().to_set() == reported_cycles(*graph),
{
    proof {
        lemma_orders_strict_total();
    }
    let vs = vertex_names(graph);
    let adj = adjacency(graph, &vs);
    let ghost d = vs.deep_view();
    let ghost a = view_adj(adj@);
    assert(a == graph_model(*graph)) by {
        reveal(graph_model);
    }
    let seen = reached_marks(graph, &vs, &adj);
    let sccs = strongly_connected_components(&adj);
    let ghost ss = view_adj(sccs@);
    let n = adj.len();
    let mut cycles: Vec<Vec<String>> = Vec::new();
    assert(cycles.deep_view().to_set() =~= cycles_upto(*graph, a, d, ss, 0));
    let mut c: usize = 0;
    while c < sccs.len()
        invariant
            d == vs.deep_view(),
            a == view_adj(adj@),
            d.len() == a.len(),
            n == adj.len(),
            adj_ok(a),
            ss == view_adj(sccs@),
            scc_list_ok(a, ss),
            c <= sccs.len(),
            strict_total(chain_order()),
            strictly_sorted(cycles.deep_view(), chain_order()),
            cycles.deep_view().to_set() == cycles_upto(*graph, a, d, ss, c as int),
            a == graph_model(*graph),
            d == vertex_seq(*graph),
            seen.len() == n,
            forall|v: int| 0 <= v < n ==> (#[trigger] seen@[v] <==> reached_from_nodes(*graph, v)),
        decreases sccs.len() - c,
    {
        let scc = &sccs[c];
        assert(scc@ == ss[c as int]);
        proof {
            lemma_cycles_upto_step(*graph, a, d, ss, c as int);
        }
        let searched = if scc.len() >= 2 {
            proof {
                lemma_scc_entries(a, ss, c as int);
            }
            seen[scc[0]]
        } else {
            false
        };
        if searched {
            proof {
                lemma_scc_cycle(a, ss, c as int);
            }
            let in_scc = membership(scc, n);
            let found = find_cycle_in_component(scc, &adj, &in_scc);
            match found {
                Some(chain) => {
                    proof {
                        lemma_cycle_entries(a, ints(chain@), chain@);
                    }
                    let names = chain_to_names(&chain, &vs);
                    insert_sorted(&mut cycles, names);
                },
                None => {},
            }
        }
        c = c + 1;
    }
    proof {
        lemma_cycles_upto_all(*graph, a, d, ss);
    }
    cycles
}

/// A listed component of two or more vertices that some node reaches.
spec fn searched(g: Graph, ss: Seq<Seq<usize>>, e: int) -> bool {
    ss[e].len() >= 2 && reached_from_nodes(g, ss[e][0] as int)
}

/// The chains of the searched components among the first `c` listed.
spec fn cycles_upto(g: Graph, a: Seq<Seq<usize>>, d: Seq<Seq<char>>, ss: Seq<Seq<usize>>, c: int) -> Set<Seq<Seq<char>>> {
    Set::new(
        |ch: Seq<Seq<char>>|
            exists|e: int| 0 <= e < c && searched(g, ss, e) && ch == #[trigger] chain_names(d, cycle_of(a, ints(ss[e]).to_set())->0),
    )
}

proof fn lemma_cycles_upto_step(g: Graph, a: Seq<Seq<usize>>, d: Seq<Seq<char>>, ss: Seq<Seq<usize>>, c: int)
    requires
        0 <= c < ss.len(),
    ensures
        cycles_upto(g, a, d, ss, c + 1) == (if searched(g, ss, c) {
            cycles_upto(g, a, d, ss, c).insert(chain_names(d, cycle_of(a, ints(ss[c]).to_set())->0))
        } else {
            cycles_upto(g, a, d, ss, c)
        }),
{
    let s0 = cycles_upto(g, a, d, ss, c);
    let s1 = cycles_upto(g, a, d, ss, c + 1);
    let t = if searched(g, ss, c) { s0.insert(chain_names(d, cycle_of(a, ints(ss[c]).to_set())->0)) } else { s0 };
    assert forall|ch: Seq<Seq<char>>| #[trigger] s1.contains(ch) <==> t.contains(ch) by {
        if s1.contains(ch) {
            let e = choose|e: int| 0 <= e < c + 1 && searched(g, ss, e) && ch == #[trigger] chain_names(d, cycle_of(a, ints(ss[e]).to_set())->0);
            if e < c {
                assert(s0.contains(ch));
            }
        }
        if s0.contains(ch) {
            let e = choose|e: int| 0 <= e < c && searched(g, ss, e) && ch == #[trigger] chain_names(d, cycle_of(a, ints(ss[e]).to_set())->0);
            assert(0 <= e < c + 1);
        }
        if searched(g, ss, c) && ch == chain_names(d, cycle_of(a, ints(ss[c]).to_set())->0) {
            assert(0 <= c < c + 1);
        }
    }
    assert(s1 =~= t);
}

proof fn lemma_listed_cycle_reported(g: Graph, a: Seq<Seq<usize>>, d: Seq<Seq<char>>, ss: Seq<Seq<usize>>, e: int)
    requires
        adj_ok(a),
        scc_list_ok(a, ss),
        0 <= e < ss.len(),
        searched(g, ss, e),
    ensures
        exists|v: int|
            is_vertex(a, v) && #[trigger] nontrivial(a, v) && reached_from_nodes(g, v) && chain_names(
                d,
                cycle_of(a, ints(ss[e]).to_set())->0,
            ) == chain_names(d, cycle_of(a, component_of(a, v))->0),
{
    lemma_scc_nontrivial(a, ss, e);
    let v = ss[e][0] as int;
    assert(is_vertex(a, v) && nontrivial(a, v) && reached_from_nodes(g, v));
}

proof fn lemma_reported_cycle_listed(g: Graph, a: Seq<Seq<usize>>, d: Seq<Seq<char>>, ss: Seq<Seq<usize>>, v: int)
    requires
        a == graph_model(g),
        scc_list_ok(a, ss),
        scc_list_covers(a, ss),
        is_vertex(a, v),
        nontrivial(a, v),
        reached_from_nodes(g, v),
    ensures
        exists|e: int|
            0 <= e < ss.len() && searched(g, ss, e) && chain_names(d, cycle_of(a, component_of(a, v))->0)
                == #[trigger] chain_names(d, cycle_of(a, ints(ss[e]).to_set())->0),
{
    let e = choose|e: int| 0 <= e < ss.len() && #[trigger] ints(ss[e]).contains(v);
    lemma_scc_of_vertex(a, ss, e, v);
    assert(ints(ss[e]).to_set() == component_of(a, v));
    assert(ints(ss[e])[0] == ss[e][0] as int);
    assert(ints(ss[e]).to_set().contains(ss[e][0] as int));
    assert(component_of(a, v).contains(ss[e][0] as int));
    lemma_reached_along(g, v, ss[e][0] as int);
    assert(chain_names(d, cycle_of(a, component_of(a, v))->0) == chain_names(d, cycle_of(a, ints(ss[e]).to_set())->0));
}

proof fn lemma_cycles_upto_all(g: Graph, a: Seq<Seq<usize>>, d: Seq<Seq<char>>, ss: Seq<Seq<usize>>)
    requires
        a == graph_model(g),
        d == vertex_seq(g),
        adj_ok(a),
        scc_list_ok(a, ss),
        scc_list_covers(a, ss),
    ensures
        cycles_upto(g, a, d, ss, ss.len() as int) == reported_cycles(g),
{
    reveal(reported_cycles);
    let s0 = cycles_upto(g, a, d, ss, ss.len() as int);
    let r = reported_cycles(g);
    assert forall|ch: Seq<Seq<char>>| s0.contains(ch) implies #[trigger] r.contains(ch) by {
        let e = choose|e: int| 0 <= e < ss.len() && searched(g, ss, e) && ch == #[trigger] chain_names(d, cycle_of(a, ints(ss[e]).to_set())->0);
        lemma_listed_cycle_reported(g, a, d, ss, e);
    }
    assert forall|ch: Seq<Seq<char>>| r.contains(ch) implies #[trigger] s0.contains(ch) by {
        let v = choose|v: int|
            is_vertex(a, v) && #[trigger] nontrivial(a, v) && reached_from_nodes(g, v) && ch == chain_names(d, cycle_of(a, component_of(a, v))->0);
        lemma_reported_cycle_listed(g, a, d, ss, v);
    }
    assert(s0 =~= r);
}

/// The entries of a cycle are vertices.
proof fn lemma_cycle_entries(a: Seq<Seq<usize>>, p: Seq<int>, chain: Seq<usize>)
    requires
        p == ints(chain),
        is_cycle(a, p),
    ensures
        forall|i: int| 0 <= i < chain.len() ==> #[trigger] chain[i] < a.len(),
{
    assert forall|i: int| 0 <= i < chain.len() implies #[trigger] chain[i] < a.len() by {
        assert(is_vertex(a, p[i]));
    }
}

/// The numbered vertices are the graph's names, sorted, each once.
pub proof fn lemma_vertex_seq(g: Graph)
    ensures
        strictly_sorted(vertex_seq(g), name_order()),
        vertex_seq(g).to_set() == graph_names(g.nodes.deep_view(), g.edges.deep_view()),
{
    reveal(vertex_seq);
    lemma_orders_strict_total();
    let ns = g.nodes.deep_view();
    let es = g.edges.deep_view();
    let firsts = Seq::new(es.len(), |k: int| es[k].0);
    let seconds = Seq::new(es.len(), |k: int| es[k].1);
    let all = ns + firsts + seconds;
    let nf = ns + firsts;
    assert forall|x: Seq<char>| #[trigger] all.to_set().contains(x) implies graph_names(ns, es).contains(x) by {
        assert(all.contains(x));
        let i = choose|i: int| 0 <= i < all.len() && all[i] == x;
        if i < ns.len() {
            assert(all[i] == nf[i]);
            assert(nf[i] == ns[i]);
            assert(ns.contains(x));
            assert(graph_names(ns, es).contains(x));
        } else if i < ns.len() + es.len() {
            let k = i - ns.len();
            assert(all[i] == nf[i]);
            assert(nf[i] == firsts[k]);
            assert(0 <= k < es.len() && (es[k].0 == x || es[k].1 == x));
            assert(graph_names(ns, es).contains(x));
        } else {
            let k = i - ns.len() - es.len();
            assert(all[i] == seconds[k]);
            assert(0 <= k < es.len() && (es[k].0 == x || es[k].1 == x));
            assert(graph_names(ns, es).contains(x));
        }
    }
    assert forall|x: Seq<char>| #[trigger] graph_names(ns, es).contains(x) implies all.to_set().contains(x) by {
        if ns.contains(x) {
            let i = choose|i: int| 0 <= i < ns.len() && ns[i] == x;
            assert(nf[i] == ns[i]);
            assert(all[i] == nf[i]);
            assert(all[i] == x);
        } else {
            let k = choose|k: int| 0 <= k < es.len() && ((#[trigger] es[k]).0 == x || es[k].1 == x);
            if es[k].0 == x {
                assert(nf[ns.len() + k] == firsts[k]);
                assert(all[ns.len() + k] == nf[ns.len() + k]);
                assert(all[ns.len() + k] == x);
            } else {
                assert(all[ns.len() + es.len() + k] == seconds[k]);
                assert(all[ns.len() + es.len() + k] == x);
            }
        }
    }
    assert(all.to_set() =~= graph_names(ns, es));
    lemma_sorted_exists(all, name_order());
}

/// Each number in a target list stands for the target of an edge from `x`.
proof fn lemma_targets_from(vs: Seq<Seq<char>>, es: Seq<(Seq<char>, Seq<char>)>, x: Seq<char>, k: int, m: int)
    requires
        0 <= k <= es.len(),
        0 <= m < targets_from(vs, es, x, k).len(),
    ensures
        exists|j: int| 0 <= j < k && es[j].0 == x && #[trigger] targets_from(vs, es, x, k)[m] == name_index(vs, es[j].1) as usize,
    decreases k,
{
    if k > 0 {
        let t = targets_from(vs, es, x, k - 1);
        if es[k - 1].0 == x && m == t.len() {
            assert(targets_from(vs, es, x, k)[m] == name_index(vs, es[k - 1].1) as usize);
        } else {
            lemma_targets_from(vs, es, x, k - 1, m);
            let j = choose|j: int| 0 <= j < k - 1 && es[j].0 == x && #[trigger] t[m] == name_index(vs, es[j].1) as usize;
            assert(targets_from(vs, es, x, k)[m] == t[m]);
        }
    }
}

/// An edge of the numbered graph is an edge of the graph, between the
/// names of its ends.
proof fn lemma_model_edge(g: Graph, u: int, w: int)
    requires
        vertex_seq(g).len() <= usize::MAX,
        edge(graph_model(g), u, w),
    ensures
        g.edges.deep_view().contains((vertex_seq(g)[u], vertex_seq(g)[w])),
{
    reveal(graph_model);
    lemma_vertex_seq(g);
    let vs = vertex_seq(g);
    let es = g.edges.deep_view();
    let a = graph_model(g);
    let m = choose|m: int| 0 <= m < a[u].len() && #[trigger] a[u][m] as int == w;
    lemma_targets_from(vs, es, vs[u], es.len() as int, m);
    let j = choose|j: int| 0 <= j < es.len() && es[j].0 == vs[u] && #[trigger] targets_from(vs, es, vs[u], es.len() as int)[m] == name_index(vs, es[j].1) as usize;
    assert(graph_names(g.nodes.deep_view(), es).contains(es[j].1));
    assert(vs.to_set().contains(es[j].1));
    let y = name_index(vs, es[j].1);
    assert(0 <= y < vs.len() && vs[y] == es[j].1);
    assert(y == w);
    assert(es[j] == (vs[u], vs[w]));
}

/// Distinct numbers name distinct vertices.
proof fn lemma_vertex_names_distinct(g: Graph, u: int, w: int)
    requires
        0 <= u < vertex_seq(g).len(),
        0 <= w < vertex_seq(g).len(),
        u != w,
    ensures
        vertex_seq(g)[u] != vertex_seq(g)[w],
{
    lemma_vertex_seq(g);
    lemma_orders_strict_total();
    let vs = vertex_seq(g);
    if u < w {
        assert(name_order()(vs[u], vs[w]));
    } else {
        assert(name_order()(vs[w], vs[u]));
    }
}

/// The component and walk behind a reported chain.
proof fn lemma_reported_witness(g: Graph, ch: Seq<Seq<char>>) -> (r: (int, Seq<int>))
    requires
        reported_cycles(g).contains(ch),
    ensures
        adj_ok(graph_model(g)),
        is_vertex(graph_model(g), r.0),
        r.1 == cycle_of(graph_model(g), component_of(graph_model(g), r.0))->0,
        forall|i: int| 0 <= i < r.1.len() ==> component_of(graph_model(g), r.0).contains(#[trigger] r.1[i]),
        ch == chain_names(vertex_seq(g), r.1),
{
    reveal(reported_cycles);
    let a = graph_model(g);
    lemma_model_ok(g);
    let v = choose|v: int| is_vertex(a, v) && #[trigger] nontrivial(a, v) && ch == chain_names(vertex_seq(g), cycle_of(a, component_of(a, v))->0);
    lemma_component_cycle(a, v);
    (v, cycle_of(a, component_of(a, v))->0)
}

/// The walk behind a reported chain is a cycle.
proof fn lemma_reported_walk(g: Graph, ch: Seq<Seq<char>>) -> (p: Seq<int>)
    requires
        reported_cycles(g).contains(ch),
    ensures
        is_cycle(graph_model(g), p),
        ch == chain_names(vertex_seq(g), p),
{
    reveal(reported_cycles);
    let a = graph_model(g);
    lemma_model_ok(g);
    let v = choose|v: int| is_vertex(a, v) && #[trigger] nontrivial(a, v) && ch == chain_names(vertex_seq(g), cycle_of(a, component_of(a, v))->0);
    lemma_component_cycle(a, v);
    cycle_of(a, component_of(a, v))->0
}

/// Every reported chain is a circular dependency of the graph: it starts
/// and ends at the same crate, each crate in it depends on the next by an
/// edge of the graph, and no crate appears twice before the loop closes.
/// The names along a walk of the numbered graph follow edges of the graph.
proof fn lemma_chain_edges(g: Graph, p: Seq<int>)
    requires
        vertex_seq(g).len() <= usize::MAX,
        is_path(graph_model(g), p),
    ensures
        forall|i: int|
            0 <= i < p.len() - 1 ==> g.edges.deep_view().contains(
                (#[trigger] chain_names(vertex_seq(g), p)[i], chain_names(vertex_seq(g), p)[i + 1]),
            ),
{
    let ch = chain_names(vertex_seq(g), p);
    assert forall|i: int| 0 <= i < p.len() - 1 implies g.edges.deep_view().contains((#[trigger] ch[i], ch[i + 1])) by {
        assert(step(graph_model(g), p, i));
        lemma_model_edge(g, p[i], p[i + 1]);
    }
}

/// Distinct vertices along a walk have distinct names.
proof fn lemma_chain_distinct(g: Graph, p: Seq<int>)
    requires
        p.no_duplicates(),
        forall|i: int| 0 <= i < p.len() ==> 0 <= #[trigger] p[i] < vertex_seq(g).len(),
    ensures
        chain_names(vertex_seq(g), p).no_duplicates(),
{
    let ch = chain_names(vertex_seq(g), p);
    assert forall|i: int, j: int| 0 <= i < j < ch.len() implies ch[i] != ch[j] by {
        lemma_vertex_names_distinct(g, p[i], p[j]);
    }
}

/// Every reported chain is a circular dependency of the graph: it starts
/// and ends at the same crate, each crate in it depends on the next by an
/// edge of the graph, and no crate appears twice before the loop closes.
pub proof fn lemma_reported_chain_is_cycle(g: Graph, ch: Seq<Seq<char>>)
    requires
        vertex_seq(g).len() <= usize::MAX,
        reported_cycles(g).contains(ch),
    ensures
        ch.len() >= 2,
        ch[0] == ch.last(),
        forall|i: int| 0 <= i < ch.len() - 1 ==> g.edges.deep_view().contains((#[trigger] ch[i], ch[i + 1])),
        ch.drop_last().no_duplicates(),
{
    let p = lemma_reported_walk(g, ch);
    let vs = vertex_seq(g);
    assert(vs.len() == graph_model(g).len()) by {
        reveal(graph_model);
    }
    lemma_chain_edges(g, p);
    let q = p.drop_last();
    assert forall|i: int| 0 <= i < q.len() implies 0 <= #[trigger] q[i] < vs.len() by {
        assert(is_vertex(graph_model(g), p[i]));
    }
    lemma_chain_distinct(g, q);
    assert(chain_names(vs, q) =~= ch.drop_last());
    assert(ch[0] == vs[p[0]]);
    assert(ch.last() == vs[p[p.len() - 1]]);
}

/// Chains from different components share no crate: each strongly connected
/// component gets one chain of its own.
#[verifier::spinoff_prover]
#[verifier::rlimit(40)]
pub proof fn lemma_reported_chains_disjoint(g: Graph, c1: Seq<Seq<char>>, c2: Seq<Seq<char>>, x: Seq<char>)
    requires
        reported_cycles(g).contains(c1),
        reported_cycles(g).contains(c2),
        c1.contains(x),
        c2.contains(x),
    ensures
        c1 == c2,
{
    let (v1, p1) = lemma_reported_witness(g, c1);
    let (v2, p2) = lemma_reported_witness(g, c2);
    let a = graph_model(g);
    let vs = vertex_seq(g);
    assert(vs.len() == a.len()) by {
        reveal(graph_model);
    }
    let i = choose|i: int| 0 <= i < c1.len() && c1[i] == x;
    let j = choose|j: int| 0 <= j < c2.len() && c2[j] == x;
    assert(vs[p1[i]] == x && vs[p2[j]] == x);
    assert(component_of(a, v1).contains(p1[i]));
    assert(component_of(a, v2).contains(p2[j]));
    assert(is_vertex(a, p1[i]) && is_vertex(a, p2[j]));
    if p1[i] != p2[j] {
        lemma_vertex_names_distinct(g, p1[i], p2[j]);
    }
    lemma_shared_vertex(a, v1, v2, p1[i]);
}

/// Two components sharing a vertex are one.
proof fn lemma_shared_vertex(a: Seq<Seq<usize>>, v1: int, v2: int, y: int)
    requires
        component_of(a, v1).contains(y),
        component_of(a, v2).contains(y),
    ensures
        component_of(a, v1) == component_of(a, v2),
{
    lemma_component_same(a, y, v1);
    lemma_component_same(a, y, v2);
}

/// The numbered graph's lists hold vertices only.
pub proof fn lemma_model_ok(g: Graph)
    ensures
        adj_ok(graph_model(g)),
{
    reveal(graph_model);
    let a = graph_model(g);
    let vs = vertex_seq(g);
    let es = g.edges.deep_view();
    lemma_vertex_seq(g);
    assert forall|u: int, k: int| 0 <= u < a.len() && 0 <= k < a[u].len() implies #[trigger] a[u][k] < a.len() by {
        lemma_targets_from(vs, es, vs[u], es.len() as int, k);
        let j = choose|j: int| 0 <= j < es.len() && es[j].0 == vs[u] && #[trigger] targets_from(vs, es, vs[u], es.len() as int)[k] == name_index(vs, es[j].1) as usize;
        assert(graph_names(g.nodes.deep_view(), es).contains(es[j].1));
        assert(vs.to_set().contains(es[j].1));
        assert(0 <= name_index(vs, es[j].1) < vs.len());
    }
}

/// Every strongly connected component of two or more crates is reported:
/// its chain, found from its least crate, is among the reported ones, and
/// runs through crates of that component only.
pub proof fn lemma_component_reported(g: Graph, v: int)
    requires
        is_vertex(graph_model(g), v),
        nontrivial(graph_model(g), v),
        reached_from_nodes(g, v),
    ensures
        cycle_of(graph_model(g), component_of(graph_model(g), v)) is Some,
        reported_cycles(g).contains(
            chain_names(vertex_seq(g), cycle_of(graph_model(g), component_of(graph_model(g), v))->0),
        ),
        forall|i: int|
            0 <= i < (cycle_of(graph_model(g), component_of(graph_model(g), v))->0).len() ==> component_of(
                graph_model(g),
                v,
            ).contains(#[trigger] (cycle_of(graph_model(g), component_of(graph_model(g), v))->0)[i]),
{
    reveal(reported_cycles);
    lemma_model_ok(g);
    lemma_component_cycle(graph_model(g), v);
}

/// No chain is reported exactly when no two distinct crates that some node
/// reaches depend on each other, directly or through others.
pub proof fn lemma_no_cycles_iff_acyclic(g: Graph)
    ensures
        reported_cycles(g).is_empty() <==> forall|v: int|
            is_vertex(graph_model(g), v) && reached_from_nodes(g, v) ==> !#[trigger] nontrivial(graph_model(g), v),
{
    reveal(reported_cycles);
    let a = graph_model(g);
    lemma_model_ok(g);
    if exists|v: int| is_vertex(a, v) && reached_from_nodes(g, v) && #[trigger] nontrivial(a, v) {
        let v = choose|v: int| is_vertex(a, v) && reached_from_nodes(g, v) && #[trigger] nontrivial(a, v);
        let ch = chain_names(vertex_seq(g), cycle_of(a, component_of(a, v))->0);
        assert(reported_cycles(g).contains(ch));
    } else {
        assert(reported_cycles(g) =~= Set::empty());
    }
}

/// Each edge from `x` among the first `k` puts the number of its target in
/// `x`'s list.
proof fn lemma_targets_include(vs: Seq<Seq<char>>, es: Seq<(Seq<char>, Seq<char>)>, x: Seq<char>, k: int, j: int)
    requires
        0 <= j < k <= es.len(),
        es[j].0 == x,
    ensures
        targets_from(vs, es, x, k).contains(name_index(vs, es[j].1) as usize),
    decreases k,
{
    let t = targets_from(vs, es, x, k - 1);
    if j < k - 1 {
        lemma_targets_include(vs, es, x, k - 1, j);
        let m = choose|m: int| 0 <= m < t.len() && t[m] == name_index(vs, es[j].1) as usize;
        assert(targets_from(vs, es, x, k)[m] == t[m]);
    } else {
        assert(targets_from(vs, es, x, k)[t.len() as int] == name_index(vs, es[j].1) as usize);
    }
}

/// A name of the graph is the vertex numbered by its place in
/// [`vertex_seq`].
proof fn lemma_name_vertex(g: Graph, x: Seq<char>)
    requires
        graph_names(g.nodes.deep_view(), g.edges.deep_view()).contains(x),
    ensures
        0 <= name_index(vertex_seq(g), x) < vertex_seq(g).len(),
        vertex_seq(g)[name_index(vertex_seq(g), x)] == x,
{
    lemma_vertex_seq(g);
    assert(vertex_seq(g).to_set().contains(x));
}

/// Each edge of the graph is an edge of the numbered graph, between the
/// numbers of its ends.
proof fn lemma_edge_in_model(g: Graph, j: int)
    requires
        vertex_seq(g).len() <= usize::MAX,
        0 <= j < g.edges.deep_view().len(),
    ensures
        edge(
            graph_model(g),
            name_index(vertex_seq(g), g.edges.deep_view()[j].0),
            name_index(vertex_seq(g), g.edges.deep_view()[j].1),
        ),
{
    reveal(graph_model);
    let vs = vertex_seq(g);
    let es = g.edges.deep_view();
    let a = graph_model(g);
    assert(0 <= j < es.len() && ((es[j]).0 == es[j].0 || es[j].1 == es[j].0));
    assert(graph_names(g.nodes.deep_view(), es).contains(es[j].0));
    assert(0 <= j < es.len() && ((es[j]).0 == es[j].1 || es[j].1 == es[j].1));
    assert(graph_names(g.nodes.deep_view(), es).contains(es[j].1));
    lemma_name_vertex(g, es[j].0);
    lemma_name_vertex(g, es[j].1);
    let u = name_index(vs, es[j].0);
    let w = name_index(vs, es[j].1);
    assert(a[u] == targets_from(vs, es, vs[u], es.len() as int));
    lemma_targets_include(vs, es, vs[u], es.len() as int, j);
    let m = choose|m: int| 0 <= m < a[u].len() && a[u][m] == w as usize;
    assert(a[u][m] as int == w);
}

/// `ch` closes a loop along the graph's edges, by name.
pub open spec fn named_cycle(g: Graph, ch: Seq<Seq<char>>) -> bool {
    &&& ch.len() >= 2
    &&& ch[0] == ch.last()
    &&& forall|i: int| 0 <= i < ch.len() - 1 ==> g.edges.deep_view().contains((#[trigger] ch[i], ch[i + 1]))
}

/// A loop along the graph's edges through two distinct crates makes the
/// component of its first crate hold two or more vertices.
#[verifier::spinoff_prover]
proof fn lemma_named_cycle_nontrivial(g: Graph, ch: Seq<Seq<char>>) -> (v: int)
    requires
        vertex_seq(g).len() <= usize::MAX,
        named_cycle(g, ch),
        ch[0] != ch[1],
    ensures
        is_vertex(graph_model(g), v),
        nontrivial(graph_model(g), v),
        v == name_index(vertex_seq(g), ch[0]),
{
    lemma_model_ok(g);
    let a = graph_model(g);
    let vs = vertex_seq(g);
    let es = g.edges.deep_view();
    assert(vs.len() == a.len()) by {
        reveal(graph_model);
    }
    let n = ch.len() as int;
    let p = Seq::new(ch.len(), |i: int| name_index(vs, ch[i]));
    assert forall|i: int| 0 <= i < p.len() implies is_vertex(a, #[trigger] p[i]) && vs[p[i]] == ch[i] by {
        let i2 = if i < n - 1 { i } else { 0 };
        assert(ch[i2] == ch[i]);
        assert(es.contains((ch[i2], ch[i2 + 1])));
        let k = choose|k: int| 0 <= k < es.len() && es[k] == (ch[i2], ch[i2 + 1]);
        assert(0 <= k < es.len() && ((es[k]).0 == ch[i2] || es[k].1 == ch[i2]));
        lemma_name_vertex(g, ch[i2]);
    }
    assert forall|i: int| 0 <= i < p.len() - 1 implies #[trigger] step(a, p, i) by {
        assert(es.contains((ch[i], ch[i + 1])));
        let k = choose|k: int| 0 <= k < es.len() && es[k] == (ch[i], ch[i + 1]);
        lemma_edge_in_model(g, k);
    }
    assert(is_path(a, p));
    assert(vs[p[0]] == ch[0] && vs[p[1]] == ch[1]);
    assert(step(a, p, 0));
    lemma_reach_edge(a, p[0], p[1]);
    lemma_path_sub(a, p, 1, n);
    assert(p[n - 1] == p[0]);
    assert(component_of(a, p[0]).contains(p[1]));
    p[0]
}

/// In a graph whose edges join two distinct nodes, no chain is reported
/// exactly when the edges close no loop.
#[verifier::spinoff_prover]
#[verifier::rlimit(40)]
pub proof fn lemma_no_chains_iff_no_named_cycle(g: Graph)
    requires
        vertex_seq(g).len() <= usize::MAX,
        forall|k: int| 0 <= k < g.edges.deep_view().len() ==> (#[trigger] g.edges.deep_view()[k]).0 != g.edges.deep_view()[k].1,
        forall|k: int|
            0 <= k < g.edges.deep_view().len() ==> g.nodes.deep_view().contains((#[trigger] g.edges.deep_view()[k]).0)
                && g.nodes.deep_view().contains(g.edges.deep_view()[k].1),
    ensures
        reported_cycles(g).is_empty() <==> !exists|ch: Seq<Seq<char>>| #[trigger] named_cycle(g, ch),
{
    lemma_no_cycles_iff_acyclic(g);
    if !reported_cycles(g).is_empty() {
        let ch = reported_cycles(g).choose();
        lemma_reported_chain_is_cycle(g, ch);
        assert(named_cycle(g, ch));
    }
    if exists|ch: Seq<Seq<char>>| #[trigger] named_cycle(g, ch) {
        let ch = choose|ch: Seq<Seq<char>>| #[trigger] named_cycle(g, ch);
        let es = g.edges.deep_view();
        assert(es.contains((ch[0], ch[1])));
        let k = choose|k: int| 0 <= k < es.len() && es[k] == (ch[0], ch[1]);
        let v = lemma_named_cycle_nontrivial(g, ch);
        let ns = g.nodes.deep_view();
        assert(ns.contains(es[k].0));
        let j = choose|j: int| 0 <= j < ns.len() && ns[j] == ch[0];
        lemma_reach_refl(graph_model(g), v);
        assert(reach(graph_model(g), name_index(vertex_seq(g), ns[j]), v));
        assert(reached_from_nodes(g, v));
    }
}

/// The vertices of `g`'s numbered graph that some node reaches and whose
/// component holds another vertex.
pub open spec fn searched_vertices(g: Graph) -> Set<int> {
    Set::new(|v: int| is_vertex(graph_model(g), v) && nontrivial(graph_model(g), v) && reached_from_nodes(g, v))
}

/// The strongly connected components of two or more vertices that some
/// node reaches.
pub open spec fn big_components(g: Graph) -> Set<Set<int>> {
    searched_vertices(g).map(|v: int| component_of(graph_model(g), v))
}

/// The chain reported for a component of `g`'s numbered graph.
pub open spec fn component_chain(g: Graph, c: Set<int>) -> Seq<Seq<char>> {
    chain_names(vertex_seq(g), cycle_of(graph_model(g), c)->0)
}

/// Two components of two or more vertices with the same chain are one.
#[verifier::spinoff_prover]
#[verifier::rlimit(40)]
proof fn lemma_same_chain_same_component(g: Graph, v1: int, v2: int)
    requires
        is_vertex(graph_model(g), v1),
        nontrivial(graph_model(g), v1),
        is_vertex(graph_model(g), v2),
        nontrivial(graph_model(g), v2),
        component_chain(g, component_of(graph_model(g), v1)) == component_chain(g, component_of(graph_model(g), v2)),
    ensures
        component_of(graph_model(g), v1) == component_of(graph_model(g), v2),
{
    let a = graph_model(g);
    let vs = vertex_seq(g);
    lemma_model_ok(g);
    assert(vs.len() == a.len()) by {
        reveal(graph_model);
    }
    lemma_component_cycle(a, v1);
    lemma_component_cycle(a, v2);
    let p1 = cycle_of(a, component_of(a, v1))->0;
    let p2 = cycle_of(a, component_of(a, v2))->0;
    assert(component_of(a, v1).contains(p1[0]));
    assert(component_of(a, v2).contains(p2[0]));
    assert(component_chain(g, component_of(a, v1))[0] == vs[p1[0]]);
    assert(component_chain(g, component_of(a, v2))[0] == vs[p2[0]]);
    if p1[0] != p2[0] {
        lemma_vertex_names_distinct(g, p1[0], p2[0]);
    }
    lemma_shared_vertex(a, v1, v2, p1[0]);
}

/// Different components of two or more vertices get different chains.
proof fn lemma_component_chain_injective(g: Graph)
    ensures
        vstd::relations::injective_on(|c: Set<int>| component_chain(g, c), big_components(g)),
{
    let a = graph_model(g);
    let f = |c: Set<int>| component_chain(g, c);
    assert forall|c1: Set<int>, c2: Set<int>|
        big_components(g).contains(c1) && big_components(g).contains(c2) && #[trigger] f(c1) == #[trigger] f(c2) implies c1 == c2 by {
        let v1 = choose|v: int| searched_vertices(g).contains(v) && c1 == component_of(a, v);
        let v2 = choose|v: int| searched_vertices(g).contains(v) && c2 == component_of(a, v);
        lemma_same_chain_same_component(g, v1, v2);
    }
}

/// One chain is reported for each strongly connected component of two or
/// more crates that some node reaches (in a graph whose edges join nodes,
/// every component): the chains, each listed once, are as many as those
/// components.
#[verifier::spinoff_prover]
pub proof fn lemma_one_chain_per_component(g: Graph, cycles: Seq<Seq<Seq<char>>>)
    requires
        strictly_sorted(cycles, chain_order()),
        cycles.to_set() == reported_cycles(g),
    ensures
        cycles.len() == big_components(g).len(),
{
    let a = graph_model(g);
    let f = |c: Set<int>| component_chain(g, c);
    let vset = searched_vertices(g);
    let r = vstd::set_lib::set_int_range(0, a.len() as int);
    vstd::set_lib::lemma_int_range(0, a.len() as int);
    assert(vset.subset_of(r));
    vstd::set_lib::lemma_len_subset(vset, r);
    let comps = big_components(g);
    vstd::set_lib::lemma_map_size_bound(vset, comps, |v: int| component_of(a, v));
    assert(comps.map(f) =~= reported_cycles(g)) by {
        reveal(reported_cycles);
        assert forall|ch: Seq<Seq<char>>| #[trigger] reported_cycles(g).contains(ch) implies comps.map(f).contains(ch) by {
            let v = choose|v: int|
                is_vertex(a, v) && #[trigger] nontrivial(a, v) && reached_from_nodes(g, v) && ch == chain_names(
                    vertex_seq(g),
                    cycle_of(a, component_of(a, v))->0,
                );
            assert(vset.contains(v));
            assert(comps.contains(component_of(a, v)));
            assert(f(component_of(a, v)) == ch);
        }
        assert forall|ch: Seq<Seq<char>>| #[trigger] comps.map(f).contains(ch) implies reported_cycles(g).contains(ch) by {
            let c = choose|c: Set<int>| comps.contains(c) && ch == f(c);
            let v = choose|v: int| vset.contains(v) && c == component_of(a, v);
            assert(nontrivial(a, v) && reached_from_nodes(g, v));
        }
    }
    lemma_component_chain_injective(g);
    vstd::set_lib::lemma_map_size(comps, reported_cycles(g), f);
    lemma_orders_strict_total();
    assert(cycles.no_duplicates()) by {
        assert forall|i: int, j: int| 0 <= i < cycles.len() && 0 <= j < cycles.len() && i != j implies cycles[i] != cycles[j] by {
            if i < j {
                assert(chain_order()(cycles[i], cycles[j]));
            } else {
                assert(chain_order()(cycles[j], cycles[i]));
            }
        }
    }
    cycles.unique_seq_to_set();
}

} // verus!
