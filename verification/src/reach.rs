use vstd::prelude::*;

verus! {

/// Adjacency lists over the vertices `0..a.len()`: `a[u]` lists the
/// targets of the edges leaving `u`, each a vertex.
/// The adjacency lists of a vector of vectors, as sequences.
pub open spec fn view_adj(v: Seq<Vec<usize>>) -> Seq<Seq<usize>> {
    Seq::new(v.len(), |i: int| v[i]@)
}

pub open spec fn adj_ok(a: Seq<Seq<usize>>) -> bool {
    forall|u: int, k: int| 0 <= u < a.len() && 0 <= k < a[u].len() ==> #[trigger] a[u][k] < a.len()
}

pub open spec fn is_vertex(a: Seq<Seq<usize>>, v: int) -> bool {
    0 <= v < a.len()
}

/// There is an edge from `u` to `v`.
pub open spec fn edge(a: Seq<Seq<usize>>, u: int, v: int) -> bool {
    &&& is_vertex(a, u)
    &&& is_vertex(a, v)
    &&& exists|k: int| 0 <= k < a[u].len() && #[trigger] a[u][k] as int == v
}

/// Step `i` of `p` follows an edge.
pub open spec fn step(a: Seq<Seq<usize>>, p: Seq<int>, i: int) -> bool {
    edge(a, p[i], p[i + 1])
}

/// `p` is a walk along edges, of at least one vertex.
pub open spec fn is_path(a: Seq<Seq<usize>>, p: Seq<int>) -> bool {
    &&& p.len() > 0
    &&& forall|i: int| 0 <= i < p.len() ==> is_vertex(a, #[trigger] p[i])
    &&& forall|i: int| 0 <= i < p.len() - 1 ==> #[trigger] step(a, p, i)
}

/// `v` can be reached from `u` (every vertex reaches itself).
pub open spec fn reach(a: Seq<Seq<usize>>, u: int, v: int) -> bool {
    exists|p: Seq<int>| #[trigger] is_path(a, p) && p[0] == u && p.last() == v
}

/// `u` and `v` reach each other: they lie in one strongly connected
/// component.
pub open spec fn mutual(a: Seq<Seq<usize>>, u: int, v: int) -> bool {
    reach(a, u, v) && reach(a, v, u)
}

/// The strongly connected component of `v`.
pub open spec fn component_of(a: Seq<Seq<usize>>, v: int) -> Set<int> {
    Set::new(|u: int| is_vertex(a, u) && mutual(a, u, v))
}

pub proof fn lemma_reach_refl(a: Seq<Seq<usize>>, u: int)
    requires
        is_vertex(a, u),
    ensures
        reach(a, u, u),
{
    let p = seq![u];
    assert(is_path(a, p));
}

pub proof fn lemma_reach_edge(a: Seq<Seq<usize>>, u: int, v: int)
    requires
        edge(a, u, v),
    ensures
        reach(a, u, v),
{
    let p = seq![u, v];
    assert(step(a, p, 0));
    assert(is_path(a, p));
}

pub proof fn lemma_path_concat(a: Seq<Seq<usize>>, p: Seq<int>, q: Seq<int>)
    requires
        is_path(a, p),
        is_path(a, q),
        p.last() == q[0],
    ensures
        is_path(a, p + q.drop_first()),
        (p + q.drop_first())[0] == p[0],
        (p + q.drop_first()).last() == q.last(),
{
    let r = p + q.drop_first();
    assert forall|i: int| 0 <= i < r.len() implies is_vertex(a, #[trigger] r[i]) by {
        if i < p.len() {
            assert(r[i] == p[i]);
        } else {
            assert(r[i] == q[i - p.len() + 1]);
        }
    }
    assert forall|i: int| 0 <= i < r.len() - 1 implies #[trigger] step(a, r, i) by {
        if i < p.len() - 1 {
            assert(step(a, p, i));
        } else {
            assert(step(a, q, i - p.len() + 1));
        }
    }
}

pub proof fn lemma_reach_trans(a: Seq<Seq<usize>>, u: int, v: int, w: int)
    requires
        reach(a, u, v),
        reach(a, v, w),
    ensures
        reach(a, u, w),
{
    let p = choose|p: Seq<int>| #[trigger] is_path(a, p) && p[0] == u && p.last() == v;
    let q = choose|q: Seq<int>| #[trigger] is_path(a, q) && q[0] == v && q.last() == w;
    lemma_path_concat(a, p, q);
}

pub proof fn lemma_path_sub(a: Seq<Seq<usize>>, p: Seq<int>, i: int, j: int)
    requires
        is_path(a, p),
        0 <= i < j <= p.len(),
    ensures
        is_path(a, p.subrange(i, j)),
        reach(a, p[i], p[j - 1]),
{
    let q = p.subrange(i, j);
    assert forall|k: int| 0 <= k < q.len() implies is_vertex(a, #[trigger] q[k]) by {
        assert(q[k] == p[i + k]);
    }
    assert forall|k: int| 0 <= k < q.len() - 1 implies #[trigger] step(a, q, k) by {
        assert(step(a, p, i + k));
    }
    assert(is_path(a, q));
    assert(q[0] == p[i] && q.last() == p[j - 1]);
}

pub proof fn lemma_reach_vertices(a: Seq<Seq<usize>>, u: int, v: int)
    requires
        reach(a, u, v),
    ensures
        is_vertex(a, u),
        is_vertex(a, v),
{
    let p = choose|p: Seq<int>| #[trigger] is_path(a, p) && p[0] == u && p.last() == v;
    assert(is_vertex(a, p[0]));
    assert(is_vertex(a, p[p.len() - 1]));
}

/// A walk that starts inside a set and ends outside it leaves the set along
/// some edge.
pub proof fn lemma_path_exit(a: Seq<Seq<usize>>, p: Seq<int>, inside: Set<int>) -> (k: int)
    requires
        is_path(a, p),
        inside.contains(p[0]),
        !inside.contains(p.last()),
    ensures
        1 <= k < p.len(),
        inside.contains(p[k - 1]),
        !inside.contains(p[k]),
    decreases p.len(),
{
    let n = p.len() as int;
    if inside.contains(p[n - 2]) {
        n - 1
    } else {
        let q = p.drop_last();
        lemma_path_sub(a, p, 0, n - 1);
        assert(q =~= p.subrange(0, n - 1));
        let k = lemma_path_exit(a, q, inside);
        k
    }
}

/// Distinct vertices number at most the vertex count.
pub proof fn lemma_distinct_bounded(s: Seq<int>, n: int)
    requires
        0 <= n,
        s.no_duplicates(),
        forall|i: int| 0 <= i < s.len() ==> 0 <= #[trigger] s[i] < n,
    ensures
        s.len() <= n,
{
    if s.len() == 0 {
        return;
    }
    assert(0 <= s[0] < n);
    s.unique_seq_to_set();
    let r = vstd::set_lib::set_int_range(0, n);
    assert(s.to_set().subset_of(r));
    vstd::set_lib::lemma_int_range(0, n);
    vstd::set_lib::lemma_len_subset(s.to_set(), r);
}

/// `r` is `a` with every edge turned around.
pub open spec fn is_reverse(r: Seq<Seq<usize>>, a: Seq<Seq<usize>>) -> bool {
    &&& r.len() == a.len()
    &&& forall|u: int, v: int| #[trigger] edge(r, v, u) <==> #[trigger] edge(a, u, v)
}

/// A walk of `r` read backwards is a walk of `a`.
pub proof fn lemma_reverse_path(r: Seq<Seq<usize>>, a: Seq<Seq<usize>>, p: Seq<int>)
    requires
        is_reverse(r, a),
        is_path(r, p),
    ensures
        is_path(a, p.reverse()),
        p.reverse()[0] == p.last(),
        p.reverse().last() == p[0],
{
    let q = p.reverse();
    let n = p.len() as int;
    assert forall|i: int| 0 <= i < q.len() implies is_vertex(a, #[trigger] q[i]) by {
        assert(q[i] == p[n - 1 - i]);
    }
    assert forall|i: int| 0 <= i < q.len() - 1 implies #[trigger] step(a, q, i) by {
        assert(step(r, p, n - 2 - i));
        assert(q[i] == p[n - 1 - i]);
        assert(q[i + 1] == p[n - 2 - i]);
    }
}

/// `v` can be reached from `s` along a walk that never meets a vertex
/// marked in `avoid`.
pub open spec fn reach_avoiding(a: Seq<Seq<usize>>, s: int, v: int, avoid: Seq<bool>) -> bool {
    exists|p: Seq<int>|
        #[trigger] is_path(a, p) && p[0] == s && p.last() == v && forall|i: int|
            0 <= i < p.len() ==> !avoid[#[trigger] p[i]]
}

pub proof fn lemma_reverse_sym(r: Seq<Seq<usize>>, a: Seq<Seq<usize>>)
    requires
        is_reverse(r, a),
    ensures
        is_reverse(a, r),
{
    assert forall|u: int, v: int| #[trigger] edge(a, v, u) <==> #[trigger] edge(r, u, v) by {
        assert(edge(r, u, v) <==> edge(a, v, u));
    }
}

/// Vertices of one component have the same component.
pub proof fn lemma_component_same(a: Seq<Seq<usize>>, x: int, v: int)
    requires
        mutual(a, x, v),
    ensures
        component_of(a, x) == component_of(a, v),
{
    assert forall|u: int| #[trigger] component_of(a, x).contains(u) <==> component_of(a, v).contains(u) by {
        if mutual(a, u, x) {
            lemma_reach_trans(a, u, x, v);
            lemma_reach_trans(a, v, x, u);
        }
        if mutual(a, u, v) {
            lemma_reach_trans(a, u, v, x);
            lemma_reach_trans(a, x, v, u);
        }
    }
    assert(component_of(a, x) =~= component_of(a, v));
}

} // verus!
