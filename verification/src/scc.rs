use vstd::prelude::*;

use crate::order::{index_order, insert_sorted, strict_total, strictly_sorted};

use crate::reach::{
    adj_ok, component_of, edge, is_path, is_reverse, is_vertex, lemma_component_same,
    lemma_distinct_bounded, lemma_path_exit, lemma_path_sub, lemma_reach_edge, lemma_reach_refl,
    lemma_reach_trans, lemma_reach_vertices, lemma_reverse_path, lemma_reverse_sym, mutual, reach,
    reach_avoiding, step, view_adj,
};

verus! {

pub open spec fn ints(s: Seq<usize>) -> Seq<int> {
    Seq::new(s.len(), |k: int| s[k] as int)
}

pub open spec fn stack_nodes(st: Seq<(usize, usize)>) -> Seq<int> {
    Seq::new(st.len(), |k: int| st[k].0 as int)
}

/// Visited vertices are exactly the finished ones (`on`) and those on the
/// stack (`sn`); neither list repeats a vertex, and none is in both.
pub open spec fn colors_ok(a: Seq<Seq<usize>>, vis: Seq<bool>, sn: Seq<int>, on: Seq<int>) -> bool {
    &&& vis.len() == a.len()
    &&& on.no_duplicates()
    &&& sn.no_duplicates()
    &&& forall|i: int| 0 <= i < on.len() ==> is_vertex(a, #[trigger] on[i])
    &&& forall|i: int| 0 <= i < sn.len() ==> is_vertex(a, #[trigger] sn[i])
    &&& forall|v: int| is_vertex(a, v) ==> (#[trigger] vis[v] <==> on.contains(v) || sn.contains(v))
    &&& forall|v: int| !(#[trigger] on.contains(v) && sn.contains(v))
}

/// Each stack entry `(u, k)` has seen the first `k` neighbours of `u`, all
/// visited; the stack's vertices form a walk.
pub open spec fn stack_ok(a: Seq<Seq<usize>>, vis: Seq<bool>, st: Seq<(usize, usize)>) -> bool {
    &&& forall|k: int| 0 <= k < st.len() ==> #[trigger] st[k].1 <= a[st[k].0 as int].len()
    &&& forall|k: int, m: int|
        0 <= k < st.len() && 0 <= m < st[k].1 ==> #[trigger] vis[a[st[k].0 as int][m] as int]
    &&& st.len() > 0 ==> is_path(a, stack_nodes(st))
}

/// Every neighbour of a finished vertex is visited.
pub open spec fn finished_closed(a: Seq<Seq<usize>>, vis: Seq<bool>, on: Seq<int>) -> bool {
    forall|i: int, k: int|
        0 <= i < on.len() && 0 <= k < a[on[i]].len() ==> #[trigger] vis[a[on[i]][k] as int]
}

pub open spec fn gray_witness(a: Seq<Seq<usize>>, sn: Seq<int>, w: int) -> bool {
    exists|k: int| 0 <= k < sn.len() && #[trigger] mutual(a, sn[k], w)
}

pub open spec fn later_witness(a: Seq<Seq<usize>>, on: Seq<int>, i: int, w: int) -> bool {
    exists|j: int| i < j < on.len() && #[trigger] mutual(a, on[j], w)
}

/// A finished vertex that reaches an unfinished one shares its component
/// with a vertex on the stack.
pub open spec fn finished_reach_ok(a: Seq<Seq<usize>>, sn: Seq<int>, on: Seq<int>) -> bool {
    forall|w: int, y: int|
        on.contains(w) && is_vertex(a, y) && !on.contains(y) && #[trigger] reach(a, w, y)
            ==> gray_witness(a, sn, w)
}

/// The finishing-order property: when a visited `w` reaches the finished
/// `on[i]` but not back, `w`'s component holds a vertex finished later or
/// still on the stack.
pub open spec fn finish_order_ok(a: Seq<Seq<usize>>, vis: Seq<bool>, sn: Seq<int>, on: Seq<int>) -> bool {
    forall|i: int, w: int|
        0 <= i < on.len() && is_vertex(a, w) && vis[w] && #[trigger] reach(a, w, on[i]) && !reach(
            a,
            on[i],
            w,
        ) ==> later_witness(a, on, i, w) || gray_witness(a, sn, w)
}

/// Post-order: each neighbour of a finished vertex finished before it,
/// unless it reaches that vertex back.
pub open spec fn finished_edges_ok(a: Seq<Seq<usize>>, on: Seq<int>) -> bool {
    forall|i: int, k: int|
        #![trigger a[on[i]][k]]
        0 <= i < on.len() && 0 <= k < a[on[i]].len() ==> reach(a, a[on[i]][k] as int, on[i])
            || exists|j: int| 0 <= j < i && on[j] == a[on[i]][k] as int
}

pub open spec fn dfs_inv(a: Seq<Seq<usize>>, vis: Seq<bool>, st: Seq<(usize, usize)>, o: Seq<usize>) -> bool {
    &&& adj_ok(a)
    &&& colors_ok(a, vis, stack_nodes(st), ints(o))
    &&& stack_ok(a, vis, st)
    &&& finished_closed(a, vis, ints(o))
    &&& finished_edges_ok(a, ints(o))
    &&& finished_reach_ok(a, stack_nodes(st), ints(o))
    &&& finish_order_ok(a, vis, stack_nodes(st), ints(o))
}

/// A vertex just finished, with all its neighbours visited, shares its
/// component with a vertex still on the stack if it reaches any unfinished
/// vertex.
proof fn lemma_new_finished(a: Seq<Seq<usize>>, vis: Seq<bool>, st: Seq<(usize, usize)>, o: Seq<usize>, y: int)
    requires
        dfs_inv(a, vis, st, o),
        st.len() > 0,
        st.last().1 == a[st.last().0 as int].len(),
        is_vertex(a, y),
        !ints(o).push(st.last().0 as int).contains(y),
        reach(a, st.last().0 as int, y),
    ensures
        gray_witness(a, stack_nodes(st).drop_last(), st.last().0 as int),
{
    let sn = stack_nodes(st);
    let on = ints(o);
    let u = st.last().0 as int;
    let n = st.len() - 1;
    assert(sn[n] == u);
    let on2 = on.push(u);
    let sn2 = sn.drop_last();
    let p = choose|p: Seq<int>| #[trigger] is_path(a, p) && p[0] == u && p.last() == y;
    assert(on2[on.len() as int] == u);
    let k = lemma_path_exit(a, p, on2.to_set());
    let r = p[k - 1];
    let q = p[k];
    assert(step(a, p, k - 1));
    assert(edge(a, r, q));
    assert(is_vertex(a, q));
    let m = choose|m: int| 0 <= m < a[r].len() && #[trigger] a[r][m] as int == q;
    assert(on2.contains(r));
    if r == u {
        assert(st[n].0 as int == r);
        assert(m < st[n].1);
        assert(vis[a[st[n].0 as int][m] as int]);
    } else {
        let i = choose|i: int| 0 <= i < on2.len() && on2[i] == r;
        assert(on[i] == r);
        assert(vis[a[on[i]][m] as int]);
    }
    assert(vis[q]);
    assert(!on.contains(q)) by {
        if on.contains(q) {
            let i = choose|i: int| 0 <= i < on.len() && on[i] == q;
            assert(on2[i] == q);
        }
    }
    assert(sn.contains(q));
    let j = choose|j: int| 0 <= j < sn.len() && sn[j] == q;
    assert(j != n);
    lemma_path_sub(a, sn, j, n + 1);
    lemma_path_sub(a, p, 0, k + 1);
    assert(mutual(a, sn2[j], u));
}

proof fn lemma_pop(a: Seq<Seq<usize>>, vis: Seq<bool>, st: Seq<(usize, usize)>, o: Seq<usize>)
    requires
        dfs_inv(a, vis, st, o),
        st.len() > 0,
        st.last().1 == a[st.last().0 as int].len(),
    ensures
        dfs_inv(a, vis, st.drop_last(), o.push(st.last().0)),
{
    let sn = stack_nodes(st);
    let on = ints(o);
    let u = st.last().0 as int;
    let n = st.len() - 1;
    assert(sn[n] == u);
    let st2 = st.drop_last();
    let o2 = o.push(st.last().0);
    let sn2 = stack_nodes(st2);
    let on2 = ints(o2);
    assert(sn2 =~= sn.drop_last());
    assert(on2 =~= on.push(u));
    assert(!on.contains(u)) by {
        assert(sn.contains(u));
    }
    // colors
    assert forall|v: int| #[trigger] on2.contains(v) <==> on.contains(v) || v == u by {
        if on2.contains(v) {
            let i = choose|i: int| 0 <= i < on2.len() && on2[i] == v;
            if i < on.len() {
                assert(on[i] == v);
            }
        }
        if on.contains(v) {
            let i = choose|i: int| 0 <= i < on.len() && on[i] == v;
            assert(on2[i] == v);
        }
        if v == u {
            assert(on2[on.len() as int] == u);
        }
    }
    assert forall|v: int| #[trigger] sn2.contains(v) <==> sn.contains(v) && v != u by {
        if sn2.contains(v) {
            let i = choose|i: int| 0 <= i < sn2.len() && sn2[i] == v;
            assert(sn[i] == v);
        }
        if sn.contains(v) && v != u {
            let i = choose|i: int| 0 <= i < sn.len() && sn[i] == v;
            assert(sn2[i] == v);
        }
    }
    assert(colors_ok(a, vis, sn2, on2));
    // stack
    if st2.len() > 0 {
        lemma_path_sub(a, sn, 0, n);
        assert(sn.subrange(0, n) =~= stack_nodes(st2));
    }
    assert(stack_ok(a, vis, st2));
    // finished vertices are closed
    assert forall|i: int, k: int| 0 <= i < on2.len() && 0 <= k < a[on2[i]].len() implies #[trigger] vis[a[on2[i]][k] as int] by {
        if i < on.len() {
            assert(on2[i] == on[i]);
        } else {
            assert(vis[a[st[n].0 as int][k] as int]);
        }
    }
    // post-order among finished vertices
    assert forall|i: int, k: int| 0 <= i < on2.len() && 0 <= k < a[on2[i]].len() implies #[trigger] reach(
        a,
        a[on2[i]][k] as int,
        on2[i],
    ) || exists|j: int| 0 <= j < i && on2[j] == a[on2[i]][k] as int by {
        if i < on.len() {
            assert(on2[i] == on[i]);
            assert(a[on[i]][k] == a[on2[i]][k]);
            if !reach(a, a[on[i]][k] as int, on[i]) {
                let j = choose|j: int| 0 <= j < i && on[j] == a[on[i]][k] as int;
                assert(on2[j] == on[j]);
            }
        } else {
            assert(on2[i] == u);
            let w = a[u][k] as int;
            assert(st[n].1 == a[u].len());
            assert(vis[a[st[n].0 as int][k] as int]);
            assert(is_vertex(a, w));
            if on.contains(w) {
                let j = choose|j: int| 0 <= j < on.len() && on[j] == w;
                assert(on2[j] == w);
            } else {
                assert(sn.contains(w));
                let j = choose|j: int| 0 <= j < sn.len() && sn[j] == w;
                if j == n {
                    lemma_reach_refl(a, u);
                } else {
                    lemma_path_sub(a, sn, j, n + 1);
                }
            }
        }
    }
    // finished vertices reaching unfinished ones
    assert forall|w: int, y: int|
        on2.contains(w) && is_vertex(a, y) && !on2.contains(y) && #[trigger] reach(a, w, y) implies gray_witness(a, sn2, w) by {
        if w == u {
            lemma_new_finished(a, vis, st, o, y);
        } else {
            assert(gray_witness(a, sn, w));
            let k = choose|k: int| 0 <= k < sn.len() && #[trigger] mutual(a, sn[k], w);
            if k < n {
                assert(sn2[k] == sn[k]);
            } else {
                assert(sn[k] == u);
                lemma_reach_trans(a, u, w, y);
                lemma_new_finished(a, vis, st, o, y);
                let j = choose|j: int| 0 <= j < sn2.len() && #[trigger] mutual(a, sn2[j], u);
                lemma_reach_trans(a, sn2[j], u, w);
                lemma_reach_trans(a, w, u, sn2[j]);
                assert(mutual(a, sn2[j], w));
            }
        }
    }
    // the finishing-order property
    assert forall|i: int, w: int|
        0 <= i < on2.len() && is_vertex(a, w) && vis[w] && #[trigger] reach(a, w, on2[i]) && !reach(
            a,
            on2[i],
            w,
        ) implies later_witness(a, on2, i, w) || gray_witness(a, sn2, w) by {
        if i < on.len() {
            assert(on2[i] == on[i]);
            if later_witness(a, on, i, w) {
                let j = choose|j: int| i < j < on.len() && #[trigger] mutual(a, on[j], w);
                assert(on2[j] == on[j]);
            } else {
                let k = choose|k: int| 0 <= k < sn.len() && #[trigger] mutual(a, sn[k], w);
                if k < n {
                    assert(sn2[k] == sn[k]);
                } else {
                    assert(on2[on.len() as int] == u);
                    assert(mutual(a, on2[on.len() as int], w));
                }
            }
        } else {
            assert(on2[i] == u);
            lemma_reach_vertices(a, w, u);
            if sn.contains(w) {
                let k = choose|k: int| 0 <= k < sn.len() && sn[k] == w;
                lemma_reach_refl(a, w);
                if k == n {
                    lemma_reach_refl(a, u);
                }
                assert(sn2[k] == w);
                assert(mutual(a, sn2[k], w));
            } else {
                assert(on.contains(w));
                assert(!on.contains(u));
                assert(gray_witness(a, sn, w));
                let k = choose|k: int| 0 <= k < sn.len() && #[trigger] mutual(a, sn[k], w);
                assert(k != n);
                assert(sn2[k] == sn[k]);
            }
        }
    }
}

proof fn lemma_advance(a: Seq<Seq<usize>>, vis: Seq<bool>, st: Seq<(usize, usize)>, o: Seq<usize>)
    requires
        dfs_inv(a, vis, st, o),
        st.len() > 0,
        st.last().1 < a[st.last().0 as int].len(),
        vis[a[st.last().0 as int][st.last().1 as int] as int],
    ensures
        dfs_inv(a, vis, st.drop_last().push((st.last().0, (st.last().1 + 1) as usize)), o),
{
    let st2 = st.drop_last().push((st.last().0, (st.last().1 + 1) as usize));
    let n = st.len() - 1;
    assert(stack_nodes(st2) =~= stack_nodes(st));
    assert forall|k: int, m: int| 0 <= k < st2.len() && 0 <= m < st2[k].1 implies #[trigger] vis[a[st2[k].0 as int][m] as int] by {
        if k < n || m < st[n].1 {
            assert(vis[a[st[k].0 as int][m] as int]);
        }
    }
}

proof fn lemma_discover(a: Seq<Seq<usize>>, vis: Seq<bool>, st: Seq<(usize, usize)>, o: Seq<usize>)
    requires
        dfs_inv(a, vis, st, o),
        st.len() > 0,
        st.last().1 < a[st.last().0 as int].len(),
        !vis[a[st.last().0 as int][st.last().1 as int] as int],
    ensures
        ({
            let v = a[st.last().0 as int][st.last().1 as int];
            dfs_inv(
                a,
                vis.update(v as int, true),
                st.drop_last().push((st.last().0, (st.last().1 + 1) as usize)).push((v, 0usize)),
                o,
            )
        }),
{
    let u = st.last().0 as int;
    let idx = st.last().1 as int;
    let v = a[u][idx];
    let vi = v as int;
    let n = st.len() - 1;
    let vis2 = vis.update(vi, true);
    let st2 = st.drop_last().push((st.last().0, (st.last().1 + 1) as usize)).push((v, 0usize));
    let sn = stack_nodes(st);
    let sn2 = stack_nodes(st2);
    let on = ints(o);
    assert(sn2 =~= sn.push(vi));
    assert(sn[n] == u);
    assert(is_vertex(a, u));
    assert(a[u][idx] < a.len());
    assert(is_vertex(a, vi));
    assert(!on.contains(vi) && !sn.contains(vi));
    assert forall|x: int| #[trigger] sn2.contains(x) <==> sn.contains(x) || x == vi by {
        if sn2.contains(x) {
            let i = choose|i: int| 0 <= i < sn2.len() && sn2[i] == x;
            if i < sn.len() {
                assert(sn[i] == x);
            }
        }
        if sn.contains(x) {
            let i = choose|i: int| 0 <= i < sn.len() && sn[i] == x;
            assert(sn2[i] == x);
        }
        if x == vi {
            assert(sn2[sn.len() as int] == x);
        }
    }
    assert(colors_ok(a, vis2, sn2, on));
    assert forall|k: int, m: int| 0 <= k < st2.len() && 0 <= m < st2[k].1 implies #[trigger] vis2[a[st2[k].0 as int][m] as int] by {
        if k < n || (k == n && m < idx) {
            assert(sn[k] == st[k].0 as int);
            assert(is_vertex(a, sn[k]));
            assert(a[st[k].0 as int][m] < a.len());
            assert(st2[k] == st[k] || k == n);
            assert(vis[a[st[k].0 as int][m] as int]);
        } else if k == n {
            assert(st2[k].0 as int == u);
            assert(m == idx);
            assert(a[st2[k].0 as int][m] == v);
        }
    }
    assert(step(a, sn2, n)) by {
        assert(sn2[n] == u);
        assert(sn2[n + 1] == vi);
        assert(a[u][idx] as int == vi);
    }
    assert forall|i: int| 0 <= i < sn2.len() - 1 implies #[trigger] step(a, sn2, i) by {
        if i < n {
            assert(step(a, sn, i));
        }
    }
    assert(stack_ok(a, vis2, st2));
    assert forall|w: int| #[trigger] gray_witness(a, sn, w) implies gray_witness(a, sn2, w) by {
        let k = choose|k: int| 0 <= k < sn.len() && #[trigger] mutual(a, sn[k], w);
        assert(sn2[k] == sn[k]);
    }
    assert forall|i: int, w: int|
        0 <= i < on.len() && is_vertex(a, w) && vis2[w] && #[trigger] reach(a, w, on[i]) && !reach(
            a,
            on[i],
            w,
        ) implies later_witness(a, on, i, w) || gray_witness(a, sn2, w) by {
        if w == vi {
            lemma_reach_refl(a, vi);
            assert(mutual(a, sn2[sn.len() as int], w));
        } else {
            assert(vis[w]);
            if gray_witness(a, sn, w) {
            }
        }
    }
}

proof fn lemma_start(a: Seq<Seq<usize>>, vis: Seq<bool>, o: Seq<usize>, s: usize)
    requires
        dfs_inv(a, vis, Seq::empty(), o),
        is_vertex(a, s as int),
        !vis[s as int],
    ensures
        dfs_inv(a, vis.update(s as int, true), seq![(s, 0usize)], o),
{
    let vis2 = vis.update(s as int, true);
    let st2 = seq![(s, 0usize)];
    let sn2 = stack_nodes(st2);
    let on = ints(o);
    assert(sn2 =~= seq![s as int]);
    assert(stack_nodes(Seq::<(usize, usize)>::empty()) =~= Seq::<int>::empty());
    assert(!on.contains(s as int));
    assert forall|x: int| #[trigger] sn2.contains(x) <==> x == s as int by {
        if x == s as int {
            assert(sn2[0] == x);
        }
    }
    assert(colors_ok(a, vis2, sn2, on));
    assert(is_path(a, sn2));
    assert(stack_ok(a, vis2, st2));
    assert forall|w: int, y: int|
        on.contains(w) && is_vertex(a, y) && !on.contains(y) && #[trigger] reach(a, w, y) implies gray_witness(a, sn2, w) by {
        assert(gray_witness(a, Seq::<int>::empty(), w));
    }
    assert forall|i: int, w: int|
        0 <= i < on.len() && is_vertex(a, w) && vis2[w] && #[trigger] reach(a, w, on[i]) && !reach(
            a,
            on[i],
            w,
        ) implies later_witness(a, on, i, w) || gray_witness(a, sn2, w) by {
        if w == s as int {
            lemma_reach_refl(a, w);
            assert(mutual(a, sn2[0], w));
        } else {
            assert(vis[w]);
            if gray_witness(a, Seq::<int>::empty(), w) {
            }
        }
    }
}

/// The vertices appended to `o` after its first `n` entries.
pub open spec fn appended(o: Seq<usize>, n: int) -> Seq<int> {
    ints(o).subrange(n, o.len() as int)
}

/// With no search under way, every vertex reachable from a visited one is
/// visited.
pub(crate) proof fn lemma_closed_reach(a: Seq<Seq<usize>>, vis: Seq<bool>, o: Seq<usize>, p: Seq<int>)
    requires
        dfs_inv(a, vis, Seq::empty(), o),
        is_path(a, p),
        vis[p[0]],
    ensures
        vis[p.last()],
{
    let inside = Set::new(|x: int| is_vertex(a, x) && vis[x]);
    assert(is_vertex(a, p[0]));
    if !vis[p.last()] {
        assert(is_vertex(a, p[p.len() - 1]));
        let k = lemma_path_exit(a, p, inside);
        let r = p[k - 1];
        let q = p[k];
        assert(step(a, p, k - 1));
        let m = choose|m: int| 0 <= m < a[r].len() && #[trigger] a[r][m] as int == q;
        let on = ints(o);
        assert(stack_nodes(Seq::<(usize, usize)>::empty()) =~= Seq::<int>::empty());
        assert(on.contains(r));
        let i = choose|i: int| 0 <= i < on.len() && on[i] == r;
        assert(vis[a[on[i]][m] as int]);
    }
}

/// What one search from `start` did: it visited exactly the vertices that
/// `start` reaches without meeting a vertex visited before, and appended
/// exactly those to the finishing order, each once.
proof fn lemma_search_done(
    a: Seq<Seq<usize>>,
    vis0: Seq<bool>,
    o0: Seq<usize>,
    vis: Seq<bool>,
    o: Seq<usize>,
    s: int,
)
    requires
        dfs_inv(a, vis0, Seq::empty(), o0),
        dfs_inv(a, vis, Seq::empty(), o),
        o0.len() <= o.len(),
        o.subrange(0, o0.len() as int) == o0,
        vis[s],
        forall|v: int| 0 <= v < a.len() && vis0[v] ==> vis[v],
        forall|v: int| 0 <= v < a.len() && vis[v] && !vis0[v] ==> reach_avoiding(a, s, v, vis0),
    ensures
        forall|v: int| 0 <= v < a.len() ==> (vis[v] <==> vis0[v] || reach_avoiding(a, s, v, vis0)),
        forall|v: int| #[trigger] appended(o, o0.len() as int).contains(v) <==> reach_avoiding(a, s, v, vis0),
{
    let e = Seq::<(usize, usize)>::empty();
    assert(stack_nodes(e) =~= Seq::<int>::empty());
    let on0 = ints(o0);
    let on = ints(o);
    let new = appended(o, o0.len() as int);
    assert forall|v: int| 0 <= v < a.len() && reach_avoiding(a, s, v, vis0) implies vis[v] by {
        let p = choose|p: Seq<int>|
            #[trigger] is_path(a, p) && p[0] == s && p.last() == v && forall|i: int| 0 <= i < p.len() ==> !vis0[#[trigger] p[i]];
        lemma_closed_reach(a, vis, o, p);
    }
    assert forall|v: int| #[trigger] new.contains(v) <==> reach_avoiding(a, s, v, vis0) by {
        if new.contains(v) {
            let i = choose|i: int| 0 <= i < new.len() && new[i] == v;
            let j = i + o0.len();
            assert(on[j] == v);
            assert(on.contains(v));
            assert(is_vertex(a, v));
            assert(vis[v]);
            if vis0[v] {
                assert(on0.contains(v));
                let h = choose|h: int| 0 <= h < on0.len() && on0[h] == v;
                assert(o[h] == o0[h]);
                assert(on[h] == v);
            }
        }
        if reach_avoiding(a, s, v, vis0) {
            let p = choose|p: Seq<int>|
                #[trigger] is_path(a, p) && p[0] == s && p.last() == v && forall|i: int| 0 <= i < p.len() ==> !vis0[#[trigger] p[i]];
            assert(is_vertex(a, p[p.len() - 1]));
            assert(!vis0[p[p.len() - 1]]);
            assert(vis[v]);
            assert(on.contains(v));
            let j = choose|j: int| 0 <= j < on.len() && on[j] == v;
            if j < o0.len() {
                assert(o[j] == o0[j]);
                assert(on0[j] == v);
                assert(on0.contains(v));
            }
            assert(new[j - o0.len()] == v);
        }
    }
}

/// A finishing order puts each vertex after every neighbour that does not
/// reach it back.
proof fn lemma_edges_finish_first(a: Seq<Seq<usize>>, vis: Seq<bool>, st: Seq<(usize, usize)>, o: Seq<usize>)
    requires
        dfs_inv(a, vis, st, o),
    ensures
        forall|i: int, j: int|
            0 <= i < o.len() && 0 <= j < o.len() && #[trigger] edge(a, o[i] as int, o[j] as int) && !reach(
                a,
                o[j] as int,
                o[i] as int,
            ) ==> j < i,
{
    let on = ints(o);
    assert forall|i: int, j: int|
        0 <= i < o.len() && 0 <= j < o.len() && #[trigger] edge(a, o[i] as int, o[j] as int) && !reach(
            a,
            o[j] as int,
            o[i] as int,
        ) implies j < i by {
        let u = on[i];
        let k = choose|k: int| 0 <= k < a[u].len() && #[trigger] a[u][k] as int == o[j] as int;
        assert(a[on[i]][k] as int == on[j]);
        let h = choose|h: int| 0 <= h < i && on[h] == a[on[i]][k] as int;
        assert(on[h] == on[j]);
    }
}

/// One step of the explicit-stack search, on the state (visited marks,
/// stack of vertex and next neighbour index, finishing order): the top
/// entry either moves on to its next neighbour, pushing it if unvisited, or
/// has none left and finishes. With an empty stack nothing changes.
pub open spec fn search_step(
    a: Seq<Seq<usize>>,
    s: (Seq<bool>, Seq<(usize, usize)>, Seq<usize>),
) -> (Seq<bool>, Seq<(usize, usize)>, Seq<usize>) {
    let vis = s.0;
    let st = s.1;
    let o = s.2;
    if st.len() == 0 {
        s
    } else {
        let node = st.last().0;
        let idx = st.last().1;
        let rest = st.drop_last();
        if idx < a[node as int].len() {
            let next = a[node as int][idx as int];
            let moved = rest.push((node, (idx + 1) as usize));
            if !vis[next as int] {
                (vis.update(next as int, true), moved.push((next, 0usize)), o)
            } else {
                (vis, moved, o)
            }
        } else {
            (vis, rest, o.push(node))
        }
    }
}

/// The state after `k` steps.
pub open spec fn search_steps(
    a: Seq<Seq<usize>>,
    s: (Seq<bool>, Seq<(usize, usize)>, Seq<usize>),
    k: nat,
) -> (Seq<bool>, Seq<(usize, usize)>, Seq<usize>)
    decreases k,
{
    if k == 0 {
        s
    } else {
        search_step(a, search_steps(a, s, (k - 1) as nat))
    }
}

/// The search from `start`, with `vis` and `o` as they were before it, run
/// until its stack is empty: the visited marks and finishing order then.
pub open spec fn search_result(a: Seq<Seq<usize>>, vis: Seq<bool>, o: Seq<usize>, start: usize) -> (Seq<bool>, Seq<usize>) {
    let init = (vis.update(start as int, true), seq![(start, 0usize)], o);
    let k = choose|k: nat| search_steps(a, init, k).1.len() == 0;
    (search_steps(a, init, k).0, search_steps(a, init, k).2)
}

/// Once the stack is empty, further steps change nothing.
proof fn lemma_search_settles(a: Seq<Seq<usize>>, s: (Seq<bool>, Seq<(usize, usize)>, Seq<usize>), k1: nat, k2: nat)
    requires
        search_steps(a, s, k1).1.len() == 0,
        k1 <= k2,
    ensures
        search_steps(a, s, k2) == search_steps(a, s, k1),
    decreases k2,
{
    if k2 > k1 {
        lemma_search_settles(a, s, k1, (k2 - 1) as nat);
    }
}

/// A search that has emptied its stack after `k` steps has its result.
proof fn lemma_search_result(a: Seq<Seq<usize>>, vis: Seq<bool>, o: Seq<usize>, start: usize, k: nat)
    requires
        search_steps(a, (vis.update(start as int, true), seq![(start, 0usize)], o), k).1.len() == 0,
    ensures
        search_result(a, vis, o, start) == (
            search_steps(a, (vis.update(start as int, true), seq![(start, 0usize)], o), k).0,
            search_steps(a, (vis.update(start as int, true), seq![(start, 0usize)], o), k).2,
        ),
{
    let init = (vis.update(start as int, true), seq![(start, 0usize)], o);
    let k2 = choose|k: nat| search_steps(a, init, k).1.len() == 0;
    if k2 <= k {
        lemma_search_settles(a, init, k2, k);
    } else {
        lemma_search_settles(a, init, k, k2);
    }
}

/// Iterative post-order depth-first search from `start`, with an explicit
/// stack rather than recursion, so a large graph cannot exhaust the call
/// stack. It visits exactly the vertices that `start` reaches without
/// meeting one visited before, and appends them to `order`, each once, as
/// they finish: `start` last, and each vertex after every neighbour that
/// does not reach it back. What `order` held before is kept in front.
/// Exactly, the marks and the order are those of [`search_result`]: the
/// neighbours of a vertex are taken in list order.
pub fn dfs_postorder(start: usize, adj: &Vec<Vec<usize>>, visited: &mut Vec<bool>, order: &mut Vec<usize>)
    requires
        dfs_inv(view_adj(adj@), old(visited)@, Seq::empty(), old(order)@),
        (start as int) < adj.len(),
        !old(visited)@[start as int],
    ensures
        dfs_inv(view_adj(adj@), final(visited)@, Seq::empty(), final(order)@),
        final(visited)@[start as int],
        forall|v: int| 0 <= v < adj.len() && old(visited)@[v] ==> final(visited)@[v],
        forall|v: int|
            0 <= v < adj.len() ==> (final(visited)@[v] <==> old(visited)@[v] || reach_avoiding(
                view_adj(adj@),
                start as int,
                v,
                old(visited)@,
            )),
        final(order)@.len() > old(order)@.len(),
        final(order)@.subrange(0, old(order)@.len() as int) == old(order)@,
        forall|v: int|
            #[trigger] appended(final(order)@, old(order)@.len() as int).contains(v) <==> reach_avoiding(
                view_adj(adj@),
                start as int,
                v,
                old(visited)@,
            ),
        final(order)@.last() == start,
        forall|i: int, j: int|
            0 <= i < final(order)@.len() && 0 <= j < final(order)@.len() && #[trigger] edge(
                view_adj(adj@),
                final(order)@[i] as int,
                final(order)@[j] as int,
            ) && !reach(view_adj(adj@), final(order)@[j] as int, final(order)@[i] as int) ==> j < i,
        search_result(view_adj(adj@), old(visited)@, old(order)@, start) == (final(visited)@, final(order)@),
{
    let ghost a = view_adj(adj@);
    let ghost vis0 = visited@;
    let ghost o0 = order@;
    let ghost init = (vis0.update(start as int, true), seq![(start, 0usize)], o0);
    let ghost mut steps: nat = 0;
    proof {
        lemma_start(a, visited@, order@, start);
        let p = seq![start as int];
        assert(is_path(a, p) && p[0] == start && p.last() == start && forall|i: int| 0 <= i < p.len() ==> !vis0[#[trigger] p[i]]);
    }
    visited.set(start, true);
    let mut stack: Vec<(usize, usize)> = Vec::new();
    stack.push((start, 0));
    assert(stack@ =~= seq![(start, 0usize)]);
    assert(order@.subrange(0, o0.len() as int) =~= o0);
    assert((visited@, stack@, order@) == search_steps(a, init, 0));
    while stack.len() > 0
        invariant
            (visited@, stack@, order@) == search_steps(a, init, steps),
            a == view_adj(adj@),
            a.len() == adj.len(),
            dfs_inv(a, vis0, Seq::empty(), o0),
            dfs_inv(a, visited@, stack@, order@),
            (start as int) < adj.len(),
            !vis0[start as int],
            visited@[start as int],
            forall|v: int| 0 <= v < adj.len() && vis0[v] ==> visited@[v],
            forall|v: int| 0 <= v < adj.len() && visited@[v] && !vis0[v] ==> reach_avoiding(a, start as int, v, vis0),
            o0.len() <= order.len(),
            order@.subrange(0, o0.len() as int) == o0,
            stack.len() > 0 ==> stack@[0].0 == start,
            stack.len() == 0 ==> order.len() > o0.len() && order@.last() == start,
        decreases
            adj.len() - order.len(),
            adj.len() - stack.len(),
            if stack.len() > 0 {
                a[stack@.last().0 as int].len() - stack@.last().1
            } else {
                0
            },
    {
        let ghost st = stack@;
        proof {
            lemma_distinct_bounded(ints(order@), a.len() as int);
            lemma_distinct_bounded(stack_nodes(stack@), a.len() as int);
        }
        let ghost o1 = order@;
        let ghost pre = (visited@, stack@, order@);
        let (node, idx) = stack.pop().unwrap();
        assert(stack@ == st.drop_last());
        assert(stack_nodes(st)[st.len() - 1] == node as int);
        proof {
            // the vertex on top of the stack was first visited by this search
            assert(stack_nodes(st).contains(node as int));
            if vis0[node as int] {
                assert(stack_nodes(Seq::<(usize, usize)>::empty()) =~= Seq::<int>::empty());
                assert(ints(o0).contains(node as int));
                let h = choose|h: int| 0 <= h < ints(o0).len() && ints(o0)[h] == node as int;
                assert(o1[h] == o0[h]);
                assert(ints(o1)[h] == node as int);
                assert(ints(o1).contains(node as int));
            }
            assert(!vis0[node as int]);
        }
        let neighbors = &adj[node];
        assert(neighbors@ == a[node as int]);
        if idx < neighbors.len() {
            let next = neighbors[idx];
            stack.push((node, idx + 1));
            if !visited[next] {
                proof {
                    lemma_discover(a, visited@, st, order@);
                    assert(a[node as int][idx as int] == next);
                    assert(edge(a, node as int, next as int));
                    lemma_avoiding_extend(a, start as int, node as int, next as int, vis0);
                }
                visited.set(next, true);
                stack.push((next, 0));
                proof {
                    lemma_distinct_bounded(stack_nodes(stack@), a.len() as int);
                    if st.len() > 1 {
                        assert(stack@[0] == st[0]);
                    } else {
                        assert(stack@[0].0 == node);
                    }
                    assert(stack@ =~= st.drop_last().push((node, (idx + 1) as usize)).push((next, 0usize)));
                    assert((visited@, stack@, order@) == search_step(a, pre));
                }
            } else {
                proof {
                    lemma_advance(a, visited@, st, order@);
                }
                assert(stack@.last() == (node, (idx + 1) as usize));
                assert(stack@[0].0 == start);
                assert(stack@ =~= st.drop_last().push((node, (idx + 1) as usize)));
                assert((visited@, stack@, order@) == search_step(a, pre));
            }
        } else {
            proof {
                lemma_pop(a, visited@, st, order@);
            }
            order.push(node);
            proof {
                lemma_distinct_bounded(ints(order@), a.len() as int);
                assert(order@.subrange(0, o0.len() as int) =~= o1.subrange(0, o0.len() as int));
                if stack.len() > 0 {
                    assert(stack@[0] == st[0]);
                }
                assert(order@ =~= o1.push(node));
                assert((visited@, stack@, order@) == search_step(a, pre));
            }
        }
        proof {
            steps = steps + 1;
        }
    }
    proof {
        lemma_search_result(a, vis0, o0, start, steps);
        lemma_search_done(a, vis0, o0, visited@, order@, start as int);
        lemma_edges_finish_first(a, visited@, stack@, order@);
    }
}

/// How many times `x` occurs in `s`.
pub open spec fn occurrences(s: Seq<usize>, x: usize) -> nat {
    s.to_multiset().count(x)
}

proof fn lemma_occurrences_push(s: Seq<usize>, x: usize, y: usize)
    ensures
        occurrences(s.push(x), y) == occurrences(s, y) + if x == y { 1nat } else { 0nat },
{
    broadcast use {vstd::seq_lib::group_to_multiset_ensures, vstd::multiset::group_multiset_axioms};

}

proof fn lemma_occurrences_absent(s: Seq<usize>, y: usize)
    ensures
        s.contains(y) <==> occurrences(s, y) > 0,
{
    vstd::seq_lib::to_multiset_contains(s, y);
}

/// The reverse graph: `rev[v]` lists `u` once for each time `v` occurs in
/// `adj[u]`, so that it has an edge `v -> u` for each edge `u -> v`.
pub fn reverse_adjacency(adj: &Vec<Vec<usize>>) -> (rev: Vec<Vec<usize>>)
    requires
        adj_ok(view_adj(adj@)),
    ensures
        adj_ok(view_adj(rev@)),
        is_reverse(view_adj(rev@), view_adj(adj@)),
        forall|v: int, u: int|
            0 <= v < adj.len() && 0 <= u < adj.len() ==> occurrences(#[trigger] view_adj(rev@)[v], u as usize)
                == occurrences(#[trigger] view_adj(adj@)[u], v as usize),
{
    let ghost a = view_adj(adj@);
    let n = adj.len();
    let mut rev: Vec<Vec<usize>> = Vec::new();
    let mut v: usize = 0;
    while v < n
        invariant
            a == view_adj(adj@),
            n == adj.len(),
            adj_ok(a),
            v <= n,
            rev.len() == v,
            forall|x: int, k: int| 0 <= x < v && 0 <= k < view_adj(rev@)[x].len() ==> #[trigger] view_adj(rev@)[x][k] < n,
            forall|x: int, u: int|
                0 <= x < v && 0 <= u < n ==> occurrences(#[trigger] view_adj(rev@)[x], u as usize) == occurrences(
                    #[trigger] a[u],
                    x as usize,
                ),
        decreases n - v,
    {
        let mut sources: Vec<usize> = Vec::new();
        let mut u: usize = 0;
        while u < n
            invariant
                a == view_adj(adj@),
                n == adj.len(),
                adj_ok(a),
                v < n,
                u <= n,
                forall|k: int| 0 <= k < sources.len() ==> #[trigger] sources@[k] < u,
                forall|y: int| 0 <= y < u ==> occurrences(sources@, y as usize) == occurrences(#[trigger] a[y], v as usize),
            decreases n - u,
        {
            let targets = &adj[u];
            let ghost before = sources@;
            assert(occurrences(before, u) == 0) by {
                lemma_occurrences_absent(before, u);
                if before.contains(u) {
                    let k = choose|k: int| 0 <= k < before.len() && before[k] == u;
                    assert(sources@[k] < u);
                }
            }
            assert(occurrences(targets@.take(0), v) == 0) by {
                lemma_occurrences_absent(targets@.take(0), v);
                assert(!targets@.take(0).contains(v));
            }
            let mut k: usize = 0;
            while k < targets.len()
                invariant
                    a == view_adj(adj@),
                    u < n,
                    targets@ == a[u as int],
                    k <= targets.len(),
                    occurrences(sources@, u) == occurrences(targets@.take(k as int), v),
                    forall|y: usize| y != u ==> #[trigger] occurrences(sources@, y) == occurrences(before, y),
                    forall|j: int| 0 <= j < sources.len() ==> #[trigger] sources@[j] <= u,
                decreases targets.len() - k,
            {
                let ghost s0 = sources@;
                assert(targets@.take(k + 1) =~= targets@.take(k as int).push(targets@[k as int]));
                proof {
                    lemma_occurrences_push(targets@.take(k as int), targets@[k as int], v);
                }
                if targets[k] == v {
                    sources.push(u);
                    assert(sources@ == s0.push(u));
                    proof {
                        lemma_occurrences_push(s0, u, u);
                        assert forall|y: usize| y != u implies #[trigger] occurrences(sources@, y) == occurrences(before, y) by {
                            lemma_occurrences_push(s0, u, y);
                        }
                    }
                }
                k = k + 1;
            }
            assert(targets@.take(k as int) =~= targets@);
            assert forall|y: int| 0 <= y < u + 1 implies occurrences(sources@, y as usize) == occurrences(
                #[trigger] a[y],
                v as usize,
            ) by {
                if y < u {
                    assert(y as usize != u);
                }
            }
            u = u + 1;
        }
        let ghost old_rev = view_adj(rev@);
        proof {
            assert forall|y: int| 0 <= y < n implies occurrences(sources@, y as usize) == occurrences(
                #[trigger] a[y],
                v as usize,
            ) by {}
        }
        rev.push(sources);
        assert(view_adj(rev@) =~= old_rev.push(sources@));
        v = v + 1;
    }
    let ghost r = view_adj(rev@);
    assert forall|x: int, y: int| #[trigger] edge(r, y, x) <==> #[trigger] edge(a, x, y) by {
        if edge(r, y, x) {
            let k = choose|k: int| 0 <= k < r[y].len() && #[trigger] r[y][k] as int == x;
            assert(r[y].contains(x as usize));
            lemma_occurrences_absent(r[y], x as usize);
            lemma_occurrences_absent(a[x], y as usize);
            assert(occurrences(r[y], x as usize) > 0);
            assert(occurrences(a[x], y as usize) > 0);
            assert(a[x].contains(y as usize));
            let m = choose|m: int| 0 <= m < a[x].len() && a[x][m] == y as usize;
            assert(a[x][m] as int == y);
        }
        if edge(a, x, y) {
            let m = choose|m: int| 0 <= m < a[x].len() && #[trigger] a[x][m] as int == y;
            assert(a[x].contains(y as usize));
            lemma_occurrences_absent(r[y], x as usize);
            lemma_occurrences_absent(a[x], y as usize);
            assert(occurrences(a[x], y as usize) > 0);
            assert(occurrences(r[y], x as usize) > 0);
            assert(r[y].contains(x as usize));
            let k = choose|k: int| 0 <= k < r[y].len() && r[y][k] == x as usize;
            assert(r[y][k] as int == x);
        }
    }
    rev
}

proof fn lemma_avoiding_extend(a: Seq<Seq<usize>>, s: int, u: int, v: int, avoid: Seq<bool>)
    requires
        reach_avoiding(a, s, u, avoid),
        edge(a, u, v),
        !avoid[v],
    ensures
        reach_avoiding(a, s, v, avoid),
{
    let p = choose|p: Seq<int>|
        #[trigger] is_path(a, p) && p[0] == s && p.last() == u && forall|i: int| 0 <= i < p.len() ==> !avoid[#[trigger] p[i]];
    let q = p.push(v);
    assert forall|i: int| 0 <= i < q.len() implies is_vertex(a, #[trigger] q[i]) by {
        if i < p.len() {
            assert(q[i] == p[i]);
        }
    }
    assert forall|i: int| 0 <= i < q.len() - 1 implies #[trigger] step(a, q, i) by {
        if i < p.len() - 1 {
            assert(step(a, p, i));
        }
    }
    assert forall|i: int| 0 <= i < q.len() implies !avoid[#[trigger] q[i]] by {
        if i < p.len() {
            assert(q[i] == p[i]);
        }
    }
    assert(is_path(a, q));
}

/// Pushes, in list order, each entry of `ns` from position `j` on that is
/// not yet assigned, marking it assigned as it goes.
pub open spec fn push_unassigned(ns: Seq<usize>, j: int, asg: Seq<bool>, st: Seq<usize>) -> (Seq<bool>, Seq<usize>)
    decreases ns.len() - j,
{
    if j < 0 || j >= ns.len() {
        (asg, st)
    } else if !asg[ns[j] as int] {
        push_unassigned(ns, j + 1, asg.update(ns[j] as int, true), st.push(ns[j]))
    } else {
        push_unassigned(ns, j + 1, asg, st)
    }
}

/// One step of gathering a component, on the state (assigned marks, stack,
/// gathered vertices): the top vertex is gathered, and its unassigned
/// neighbours in the reverse graph are pushed. With an empty stack nothing
/// changes.
pub open spec fn gather_step(r: Seq<Seq<usize>>, s: (Seq<bool>, Seq<usize>, Seq<usize>)) -> (Seq<bool>, Seq<usize>, Seq<usize>) {
    if s.1.len() == 0 {
        s
    } else {
        let node = s.1.last();
        let p = push_unassigned(r[node as int], 0, s.0, s.1.drop_last());
        (p.0, p.1, s.2.push(node))
    }
}

/// The state after `k` steps.
pub open spec fn gather_steps(r: Seq<Seq<usize>>, s: (Seq<bool>, Seq<usize>, Seq<usize>), k: nat) -> (
    Seq<bool>,
    Seq<usize>,
    Seq<usize>,
)
    decreases k,
{
    if k == 0 {
        s
    } else {
        gather_step(r, gather_steps(r, s, (k - 1) as nat))
    }
}

/// Gathering from `start`, with `asg` the marks before, run until its stack
/// is empty: the marks then, and the vertices gathered, in order.
pub open spec fn gather_result(r: Seq<Seq<usize>>, asg: Seq<bool>, start: usize) -> (Seq<bool>, Seq<usize>) {
    let init = (asg.update(start as int, true), seq![start], Seq::<usize>::empty());
    let k = choose|k: nat| gather_steps(r, init, k).1.len() == 0;
    (gather_steps(r, init, k).0, gather_steps(r, init, k).2)
}

proof fn lemma_gather_settles(r: Seq<Seq<usize>>, s: (Seq<bool>, Seq<usize>, Seq<usize>), k1: nat, k2: nat)
    requires
        gather_steps(r, s, k1).1.len() == 0,
        k1 <= k2,
    ensures
        gather_steps(r, s, k2) == gather_steps(r, s, k1),
    decreases k2,
{
    if k2 > k1 {
        lemma_gather_settles(r, s, k1, (k2 - 1) as nat);
    }
}

proof fn lemma_gather_result(r: Seq<Seq<usize>>, asg: Seq<bool>, start: usize, k: nat)
    requires
        gather_steps(r, (asg.update(start as int, true), seq![start], Seq::<usize>::empty()), k).1.len() == 0,
    ensures
        gather_result(r, asg, start) == (
            gather_steps(r, (asg.update(start as int, true), seq![start], Seq::<usize>::empty()), k).0,
            gather_steps(r, (asg.update(start as int, true), seq![start], Seq::<usize>::empty()), k).2,
        ),
{
    let init = (asg.update(start as int, true), seq![start], Seq::<usize>::empty());
    let k2 = choose|k: nat| gather_steps(r, init, k).1.len() == 0;
    if k2 <= k {
        lemma_gather_settles(r, init, k2, k);
    } else {
        lemma_gather_settles(r, init, k, k2);
    }
}

/// Collects into an empty `component` the vertices reachable from `start`
/// in the reverse graph without meeting an assigned vertex, marking each
/// assigned: a depth-first search with an explicit stack.
fn gather_unassigned(
    start: usize,
    reverse: &Vec<Vec<usize>>,
    assigned: &mut Vec<bool>,
    component: &mut Vec<usize>,
)
    requires
        adj_ok(view_adj(reverse@)),
        (start as int) < reverse.len(),
        old(assigned).len() == reverse.len(),
        !old(assigned)@[start as int],
        old(component)@ == Seq::<usize>::empty(),
    ensures
        final(assigned).len() == reverse.len(),
        ints(final(component)@).no_duplicates(),
        forall|v: int|
            0 <= v < reverse.len() ==> (#[trigger] final(assigned)@[v] <==> old(assigned)@[v] || ints(
                final(component)@,
            ).contains(v)),
        forall|v: int|
            #[trigger] ints(final(component)@).contains(v) <==> reach_avoiding(
                view_adj(reverse@),
                start as int,
                v,
                old(assigned)@,
            ),
        gather_result(view_adj(reverse@), old(assigned)@, start) == (final(assigned)@, final(component)@),
{
    let ghost r = view_adj(reverse@);
    let ghost a0 = assigned@;
    let ghost init = (a0.update(start as int, true), seq![start], Seq::<usize>::empty());
    let ghost mut steps: nat = 0;
    let n = reverse.len();
    assigned.set(start, true);
    let mut stack: Vec<usize> = Vec::new();
    stack.push(start);
    proof {
        lemma_reach_refl(r, start as int);
        let p = seq![start as int];
        assert(is_path(r, p) && p[0] == start && p.last() == start && forall|i: int| 0 <= i < p.len() ==> !a0[#[trigger] p[i]]);
        assert(ints(stack@) =~= seq![start as int]);
        assert(ints(component@) =~= Seq::<int>::empty());
        assert(stack@ =~= seq![start]);
        assert((assigned@, stack@, component@) == gather_steps(r, init, 0));
    }
    while stack.len() > 0
        invariant
            (assigned@, stack@, component@) == gather_steps(r, init, steps),
            r == view_adj(reverse@),
            adj_ok(r),
            n == reverse.len(),
            assigned.len() == n,
            a0.len() == n,
            ints(component@).no_duplicates(),
            ints(stack@).no_duplicates(),
            forall|v: int| !(#[trigger] ints(component@).contains(v) && ints(stack@).contains(v)),
            forall|v: int|
                0 <= v < n ==> (#[trigger] assigned@[v] <==> a0[v] || ints(component@).contains(v) || ints(stack@).contains(v)),
            forall|i: int| 0 <= i < stack.len() ==> #[trigger] stack@[i] < n,
            forall|i: int| 0 <= i < component.len() ==> #[trigger] component@[i] < n,
            forall|v: int| #[trigger] ints(component@).contains(v) ==> reach_avoiding(r, start as int, v, a0),
            forall|v: int| #[trigger] ints(stack@).contains(v) ==> reach_avoiding(r, start as int, v, a0),
            forall|i: int, k: int|
                0 <= i < component.len() && 0 <= k < r[component@[i] as int].len() ==> #[trigger] assigned@[r[component@[i] as int][k] as int],
            ints(component@).contains(start as int) || ints(stack@).contains(start as int),
        decreases n - component.len(),
    {
        let ghost pre = (assigned@, stack@, component@);
        let ghost comp0 = ints(component@);
        let ghost stack0 = ints(stack@);
        let node = stack.pop().unwrap();
        assert(stack0.last() == node as int);
        assert(ints(stack@) =~= stack0.drop_last());
        component.push(node);
        assert(ints(component@) =~= comp0.push(node as int));
        assert(stack0.contains(node as int));
        assert(!comp0.contains(node as int));
        let ghost stack1 = ints(stack@);
        let ghost comp1 = ints(component@);
        assert forall|v: int| #[trigger] comp1.contains(v) <==> comp0.contains(v) || v == node as int by {
            if comp1.contains(v) {
                let i = choose|i: int| 0 <= i < comp1.len() && comp1[i] == v;
                if i < comp0.len() {
                    assert(comp0[i] == v);
                }
            }
            if comp0.contains(v) {
                let i = choose|i: int| 0 <= i < comp0.len() && comp0[i] == v;
                assert(comp1[i] == v);
            }
            if v == node as int {
                assert(comp1[comp0.len() as int] == v);
            }
        }
        assert forall|v: int| #[trigger] stack1.contains(v) <==> stack0.contains(v) && v != node as int by {
            if stack1.contains(v) {
                let i = choose|i: int| 0 <= i < stack1.len() && stack1[i] == v;
                assert(stack0[i] == v);
            }
            if stack0.contains(v) && v != node as int {
                let i = choose|i: int| 0 <= i < stack0.len() && stack0[i] == v;
                assert(stack1[i] == v);
            }
        }
        let neighbors = &reverse[node];
        assert(neighbors@ == r[node as int]);
        let ghost asg_n = assigned@;
        let ghost st_n = stack@;
        assert(st_n == pre.1.drop_last());
        assert(node == pre.1.last());
        assert(component@ == pre.2.push(node));
        let mut j: usize = 0;
        while j < neighbors.len()
            invariant
                push_unassigned(r[node as int], j as int, assigned@, stack@) == push_unassigned(r[node as int], 0, asg_n, st_n),
                component@ == pre.2.push(node),
                r == view_adj(reverse@),
                adj_ok(r),
                n == reverse.len(),
                (node as int) < n,
                neighbors@ == r[node as int],
                j <= neighbors.len(),
                assigned.len() == n,
                a0.len() == n,
                comp1 == ints(component@),
                comp1.no_duplicates(),
                ints(stack@).no_duplicates(),
                comp1.contains(node as int),
                forall|v: int| !(#[trigger] comp1.contains(v) && ints(stack@).contains(v)),
                forall|v: int|
                    0 <= v < n ==> (#[trigger] assigned@[v] <==> a0[v] || comp1.contains(v) || ints(stack@).contains(v)),
                forall|i: int| 0 <= i < stack.len() ==> #[trigger] stack@[i] < n,
                forall|i: int| 0 <= i < component.len() ==> #[trigger] component@[i] < n,
                forall|v: int| #[trigger] comp1.contains(v) ==> reach_avoiding(r, start as int, v, a0),
                forall|v: int| #[trigger] ints(stack@).contains(v) ==> reach_avoiding(r, start as int, v, a0),
                forall|i: int, k: int|
                    0 <= i < component.len() - 1 && 0 <= k < r[component@[i] as int].len() ==> #[trigger] assigned@[r[component@[i] as int][k] as int],
                forall|k: int| 0 <= k < j ==> #[trigger] assigned@[r[node as int][k] as int],
                comp1.contains(start as int) || ints(stack@).contains(start as int),
            decreases neighbors.len() - j,
        {
            let next = neighbors[j];
            assert(next < n);
            assert(r[node as int][j as int] == next);
            if !assigned[next] {
                let ghost st = ints(stack@);
                let ghost asg = assigned@;
                proof {
                    assert(edge(r, node as int, next as int));
                    lemma_avoiding_extend(r, start as int, node as int, next as int, a0);
                }
                assigned.set(next, true);
                stack.push(next);
                assert(ints(stack@) =~= st.push(next as int));
                assert forall|v: int| #[trigger] ints(stack@).contains(v) <==> st.contains(v) || v == next as int by {
                    if ints(stack@).contains(v) {
                        let i = choose|i: int| 0 <= i < ints(stack@).len() && ints(stack@)[i] == v;
                        if i < st.len() {
                            assert(st[i] == v);
                        }
                    }
                    if st.contains(v) {
                        let i = choose|i: int| 0 <= i < st.len() && st[i] == v;
                        assert(ints(stack@)[i] == v);
                    }
                    if v == next as int {
                        assert(ints(stack@)[st.len() as int] == v);
                    }
                }
                assert forall|i: int, k: int|
                    0 <= i < component.len() - 1 && 0 <= k < r[component@[i] as int].len() implies #[trigger] assigned@[r[component@[i] as int][k] as int] by {
                    assert(component@[i] < n);
                    assert(r[component@[i] as int][k] < n);
                    assert(asg[r[component@[i] as int][k] as int]);
                }
                assert forall|k: int| 0 <= k < j + 1 implies #[trigger] assigned@[r[node as int][k] as int] by {
                    if k < j {
                        assert(asg[r[node as int][k] as int]);
                    }
                }
            }
            j = j + 1;
        }
        proof {
            assert(push_unassigned(r[node as int], j as int, assigned@, stack@) == (assigned@, stack@));
            assert((assigned@, stack@, component@) == gather_step(r, pre));
            steps = steps + 1;
            assert forall|i: int, k: int|
                0 <= i < component.len() && 0 <= k < r[component@[i] as int].len() implies #[trigger] assigned@[r[component@[i] as int][k] as int] by {
                if i == component.len() - 1 {
                    assert(component@[i] == node);
                }
            }
            lemma_distinct_bounded(ints(component@), n as int);
        }
    }
    proof {
        lemma_gather_result(r, a0, start, steps);
        let comp = ints(component@);
        assert forall|v: int| reach_avoiding(r, start as int, v, a0) implies #[trigger] comp.contains(v) by {
            let p = choose|p: Seq<int>|
                #[trigger] is_path(r, p) && p[0] == start as int && p.last() == v && forall|i: int| 0 <= i < p.len() ==> !a0[#[trigger] p[i]];
            if !comp.contains(v) {
                assert(comp.to_set().contains(p[0]));
                let k = lemma_path_exit(r, p, comp.to_set());
                let x = p[k - 1];
                let y = p[k];
                assert(step(r, p, k - 1));
                let m = choose|m: int| 0 <= m < r[x].len() && #[trigger] r[x][m] as int == y;
                let i = choose|i: int| 0 <= i < comp.len() && comp[i] == x;
                assert(component@[i] as int == x);
                assert(assigned@[r[component@[i] as int][m] as int]);
                assert(!a0[p[k]]);
                assert(false);
            }
        }
    }
}

/// Collects the vertices reachable from `start` in the reverse graph
/// without meeting an assigned vertex, `start` included, and appends them
/// to `component`, each once; each vertex collected is marked assigned.
/// Exactly, they come in the order of [`gather_result`]: a depth-first
/// search with an explicit stack that pushes neighbours in list order.
pub fn collect_component(
    start: usize,
    reverse: &Vec<Vec<usize>>,
    assigned: &mut Vec<bool>,
    component: &mut Vec<usize>,
)
    requires
        adj_ok(view_adj(reverse@)),
        (start as int) < reverse.len(),
        old(assigned).len() == reverse.len(),
        !old(assigned)@[start as int],
    ensures
        final(assigned).len() == reverse.len(),
        final(component)@.len() >= old(component)@.len(),
        final(component)@.subrange(0, old(component)@.len() as int) == old(component)@,
        appended(final(component)@, old(component)@.len() as int).no_duplicates(),
        forall|v: int|
            0 <= v < reverse.len() ==> (#[trigger] final(assigned)@[v] <==> old(assigned)@[v] || appended(
                final(component)@,
                old(component)@.len() as int,
            ).contains(v)),
        forall|v: int|
            #[trigger] appended(final(component)@, old(component)@.len() as int).contains(v) <==> reach_avoiding(
                view_adj(reverse@),
                start as int,
                v,
                old(assigned)@,
            ),
        final(assigned)@ == gather_result(view_adj(reverse@), old(assigned)@, start).0,
        final(component)@ == old(component)@ + gather_result(view_adj(reverse@), old(assigned)@, start).1,
{
    let ghost c0 = component@;
    let mut found: Vec<usize> = Vec::new();
    gather_unassigned(start, reverse, assigned, &mut found);
    let mut k: usize = 0;
    while k < found.len()
        invariant
            k <= found.len(),
            component@.len() == c0.len() + k,
            component@.subrange(0, c0.len() as int) == c0,
            appended(component@, c0.len() as int) == ints(found@).take(k as int),
        decreases found.len() - k,
    {
        let ghost before = component@;
        component.push(found[k]);
        assert(component@.subrange(0, c0.len() as int) =~= before.subrange(0, c0.len() as int));
        assert(appended(component@, c0.len() as int) =~= ints(found@).take(k + 1));
        k = k + 1;
    }
    assert(ints(found@).take(k as int) =~= ints(found@));
    assert(component@ =~= c0 + found@) by {
        assert forall|i: int| c0.len() <= i < component@.len() implies component@[i] == found@[i - c0.len()] by {
            assert(appended(component@, c0.len() as int)[i - c0.len()] == ints(found@)[i - c0.len()]);
        }
        assert(component@.subrange(0, c0.len() as int) =~= c0);
    }
}

/// `sccs` lists strongly connected components of `a`, each as its
/// vertices in increasing order, no two sharing a vertex.
pub open spec fn scc_list_ok(a: Seq<Seq<usize>>, sccs: Seq<Seq<usize>>) -> bool {
    &&& forall|c: int| 0 <= c < sccs.len() ==> #[trigger] sccs[c].len() > 0
    &&& forall|c: int, i: int, j: int| 0 <= c < sccs.len() && 0 <= i < j < sccs[c].len() ==> #[trigger] sccs[c][i] < #[trigger] sccs[c][j]
    &&& forall|c: int| 0 <= c < sccs.len() ==> #[trigger] ints(sccs[c]).to_set() == component_of(a, sccs[c][0] as int)
    &&& forall|c1: int, c2: int, v: int|
        0 <= c1 < c2 < sccs.len() && #[trigger] ints(sccs[c1]).contains(v) ==> !#[trigger] ints(sccs[c2]).contains(v)
}

/// Every vertex is in some listed component.
pub open spec fn scc_list_covers(a: Seq<Seq<usize>>, sccs: Seq<Seq<usize>>) -> bool {
    forall|v: int| is_vertex(a, v) ==> exists|c: int| 0 <= c < sccs.len() && #[trigger] ints(sccs[c]).contains(v)
}

/// Finishing order of a complete first pass: every vertex once, and the
/// finishing-order property with nothing left on the stack.
pub open spec fn first_pass_ok(a: Seq<Seq<usize>>, on: Seq<int>) -> bool {
    &&& on.no_duplicates()
    &&& on.len() == a.len()
    &&& forall|v: int| is_vertex(a, v) ==> #[trigger] on.contains(v)
    &&& forall|i: int| 0 <= i < on.len() ==> is_vertex(a, #[trigger] on[i])
    &&& forall|i: int, w: int|
        0 <= i < on.len() && is_vertex(a, w) && #[trigger] reach(a, w, on[i]) && !reach(a, on[i], w)
            ==> later_witness(a, on, i, w)
}

pub(crate) proof fn lemma_initial(a: Seq<Seq<usize>>, vis: Seq<bool>)
    requires
        adj_ok(a),
        vis.len() == a.len(),
        forall|v: int| 0 <= v < vis.len() ==> !vis[v],
    ensures
        dfs_inv(a, vis, Seq::empty(), Seq::empty()),
{
    assert(stack_nodes(Seq::<(usize, usize)>::empty()) =~= Seq::<int>::empty());
    assert(ints(Seq::<usize>::empty()) =~= Seq::<int>::empty());
}

/// The first pass from vertex `v` on, with marks `vis` and order `o` so
/// far: a search from each vertex not yet visited, in vertex order.
pub open spec fn first_pass_from(a: Seq<Seq<usize>>, v: int, vis: Seq<bool>, o: Seq<usize>) -> Seq<usize>
    decreases a.len() - v,
{
    if v < 0 || v >= a.len() {
        o
    } else if vis[v] {
        first_pass_from(a, v + 1, vis, o)
    } else {
        let r = search_result(a, vis, o, v as usize);
        first_pass_from(a, v + 1, r.0, r.1)
    }
}

/// The finishing order of the whole first pass.
pub open spec fn finish_order(a: Seq<Seq<usize>>) -> Seq<usize> {
    first_pass_from(a, 0, Seq::new(a.len(), |i: int| false), Seq::empty())
}

/// The first pass: a post-order depth-first search from every vertex not
/// yet visited, in vertex order.
fn finishing_order(adj: &Vec<Vec<usize>>) -> (order: Vec<usize>)
    requires
        adj_ok(view_adj(adj@)),
    ensures
        first_pass_ok(view_adj(adj@), ints(order@)),
        order@ == finish_order(view_adj(adj@)),
{
    let ghost a = view_adj(adj@);
    let n = adj.len();
    let mut visited: Vec<bool> = vec![false; n];
    let mut order: Vec<usize> = Vec::new();
    proof {
        lemma_initial(a, visited@);
        assert(visited@ =~= Seq::new(a.len(), |i: int| false));
    }
    let mut v: usize = 0;
    while v < n
        invariant
            a == view_adj(adj@),
            n == adj.len(),
            v <= n,
            dfs_inv(a, visited@, Seq::empty(), order@),
            forall|u: int| 0 <= u < v ==> visited@[u],
            first_pass_from(a, v as int, visited@, order@) == finish_order(a),
        decreases n - v,
    {
        if !visited[v] {
            dfs_postorder(v, adj, &mut visited, &mut order);
        }
        v = v + 1;
    }
    proof {
        let on = ints(order@);
        assert(stack_nodes(Seq::<(usize, usize)>::empty()) =~= Seq::<int>::empty());
        assert forall|x: int| is_vertex(a, x) implies #[trigger] on.contains(x) by {
            assert(visited@[x]);
        }
        assert forall|i: int, w: int|
            0 <= i < on.len() && is_vertex(a, w) && #[trigger] reach(a, w, on[i]) && !reach(a, on[i], w)
                implies later_witness(a, on, i, w) by {
            assert(visited@[w]);
            if gray_witness(a, Seq::<int>::empty(), w) {
            }
        }
        lemma_distinct_bounded(on, n as int);
        assert(on.len() == n) by {
            let r = vstd::set_lib::set_int_range(0, n as int);
            on.unique_seq_to_set();
            assert forall|x: int| r.contains(x) implies on.to_set().contains(x) by {
                assert(on.contains(x));
            }
            vstd::set_lib::lemma_int_range(0, n as int);
            vstd::set_lib::lemma_len_subset(r, on.to_set());
        }
    }
    order
}

/// A vertex gathered from an unassigned, latest-finishing vertex `v` in
/// the reverse graph is exactly one of `v`'s component.
proof fn lemma_gathered_is_component(
    a: Seq<Seq<usize>>,
    r: Seq<Seq<usize>>,
    on: Seq<int>,
    i: int,
    asg: Seq<bool>,
    y: int,
)
    requires
        adj_ok(a),
        is_reverse(r, a),
        first_pass_ok(a, on),
        0 <= i < on.len(),
        asg.len() == a.len(),
        !asg[on[i]],
        forall|j: int| i < j < on.len() ==> #[trigger] asg[on[j]],
        forall|u: int, v: int| is_vertex(a, u) && is_vertex(a, v) && asg[v] && #[trigger] mutual(a, u, v) ==> asg[u],
    ensures
        reach_avoiding(r, on[i], y, asg) <==> component_of(a, on[i]).contains(y),
{
    let v = on[i];
    if reach_avoiding(r, v, y, asg) {
        let p = choose|p: Seq<int>|
            #[trigger] is_path(r, p) && p[0] == v && p.last() == y && forall|k: int| 0 <= k < p.len() ==> !asg[#[trigger] p[k]];
        lemma_reverse_path(r, a, p);
        assert(reach(a, y, v));
        lemma_reach_vertices(a, y, v);
        assert(!asg[p[p.len() - 1]]);
        if !reach(a, v, y) {
            assert(later_witness(a, on, i, y));
            let j = choose|j: int| i < j < on.len() && #[trigger] mutual(a, on[j], y);
            assert(asg[on[j]]);
            assert(mutual(a, y, on[j]));
            assert(asg[y]);
        }
    }
    if component_of(a, v).contains(y) {
        let q = choose|q: Seq<int>| #[trigger] is_path(a, q) && q[0] == y && q.last() == v;
        assert forall|k: int| 0 <= k < q.len() implies !asg[#[trigger] q[k]] by {
            lemma_path_sub(a, q, k, q.len() as int);
            lemma_path_sub(a, q, 0, k + 1);
            lemma_reach_trans(a, v, y, q[k]);
            if asg[q[k]] {
                assert(mutual(a, v, q[k]));
            }
        }
        lemma_reverse_sym(r, a);
        lemma_reverse_path(a, r, q);
        let p = q.reverse();
        assert forall|k: int| 0 <= k < p.len() implies !asg[#[trigger] p[k]] by {
            assert(p[k] == q[q.len() - 1 - k]);
        }
        assert(is_path(r, p) && p[0] == v && p.last() == y);
    }
}

/// A component with an edge into another is listed before it.
pub open spec fn edges_point_forward(a: Seq<Seq<usize>>, ss: Seq<Seq<usize>>) -> bool {
    forall|c1: int, c2: int, x: int, y: int|
        0 <= c1 < ss.len() && 0 <= c2 < ss.len() && #[trigger] ints(ss[c1]).contains(x) && #[trigger] ints(
            ss[c2],
        ).contains(y) && edge(a, x, y) && c1 != c2 ==> c1 < c2
}

/// The second pass's bookkeeping: component `c` grew from the vertex that
/// finished at `roots[c]`, later than any other vertex of it, and the
/// roots come in decreasing order.
pub open spec fn roots_ok(on: Seq<int>, ss: Seq<Seq<usize>>, roots: Seq<int>) -> bool {
    &&& roots.len() == ss.len()
    &&& forall|c: int| 0 <= c < ss.len() ==> 0 <= #[trigger] roots[c] < on.len()
    &&& forall|c1: int, c2: int| 0 <= c1 < c2 < ss.len() ==> #[trigger] roots[c1] > #[trigger] roots[c2]
    &&& forall|c: int| 0 <= c < ss.len() ==> #[trigger] ints(ss[c]).contains(on[roots[c]])
    &&& forall|c: int, j: int| 0 <= c < ss.len() && 0 <= j < on.len() && #[trigger] ints(ss[c]).contains(#[trigger] on[j]) ==> j <= roots[c]
}

/// Components listed by decreasing latest finishing time point their
/// edges forward.
proof fn lemma_edges_point_forward(a: Seq<Seq<usize>>, on: Seq<int>, ss: Seq<Seq<usize>>, roots: Seq<int>)
    requires
        first_pass_ok(a, on),
        scc_list_ok(a, ss),
        roots_ok(on, ss, roots),
    ensures
        edges_point_forward(a, ss),
{
    assert forall|c1: int, c2: int, x: int, y: int|
        0 <= c1 < ss.len() && 0 <= c2 < ss.len() && #[trigger] ints(ss[c1]).contains(x) && #[trigger] ints(
            ss[c2],
        ).contains(y) && edge(a, x, y) && c1 != c2 implies c1 < c2 by {
        if c2 < c1 {
            let ir = roots[c2];
            let w = on[ir];
            assert(ints(ss[c2]).contains(w));
            let f1 = ss[c1][0] as int;
            let f2 = ss[c2][0] as int;
            assert(ints(ss[c2]).to_set().contains(y));
            assert(ints(ss[c2]).to_set().contains(w));
            assert(ints(ss[c1]).to_set().contains(x));
            assert(component_of(a, f2).contains(y) && component_of(a, f2).contains(w));
            assert(component_of(a, f1).contains(x));
            lemma_reach_edge(a, x, y);
            lemma_reach_trans(a, y, f2, w);
            lemma_reach_trans(a, x, y, w);
            if reach(a, w, x) {
                lemma_reach_trans(a, x, w, f2);
                lemma_reach_trans(a, f2, w, x);
                assert(component_of(a, f2).contains(x));
                assert(ints(ss[c2]).to_set().contains(x));
                assert(ints(ss[c2]).contains(x));
                assert(false);
            }
            assert(is_vertex(a, x));
            assert(later_witness(a, on, ir, x));
            let j = choose|j: int| ir < j < on.len() && #[trigger] mutual(a, on[j], x);
            assert(is_vertex(a, on[j]));
            lemma_reach_trans(a, on[j], x, f1);
            lemma_reach_trans(a, f1, x, on[j]);
            assert(component_of(a, f1).contains(on[j]));
            assert(ints(ss[c1]).to_set().contains(on[j]));
            assert(ints(ss[c1]).contains(on[j]));
            assert(j <= roots[c1]);
            assert(roots[c2] > roots[c1]);
        }
    }
}

/// Kosaraju's algorithm: a post-order depth-first pass, then a second pass
/// over the reverse graph in reverse finishing order. Each tree of the
/// second pass is one strongly connected component, listed with its
/// vertices in increasing order. The components are listed by decreasing
/// latest finishing position in the first pass ([`finish_order`]), so a
/// component with an edge into another is listed before it.
pub fn strongly_connected_components(adj: &Vec<Vec<usize>>) -> (sccs: Vec<Vec<usize>>)
    requires
        adj_ok(view_adj(adj@)),
    ensures
        scc_list_ok(view_adj(adj@), view_adj(sccs@)),
        scc_list_covers(view_adj(adj@), view_adj(sccs@)),
        exists|roots: Seq<int>| roots_ok(ints(finish_order(view_adj(adj@))), view_adj(sccs@), roots),
        edges_point_forward(view_adj(adj@), view_adj(sccs@)),
{
    let ghost a = view_adj(adj@);
    let n = adj.len();
    let order = finishing_order(adj);
    let ghost on = ints(order@);
    let reverse = reverse_adjacency(adj);
    let ghost r = view_adj(reverse@);
    let mut assigned: Vec<bool> = vec![false; n];
    let mut sccs: Vec<Vec<usize>> = Vec::new();
    proof {
        crate::order::lemma_index_order_strict_total();
    }
    let mut i = order.len();
    let ghost mut roots: Seq<int> = Seq::empty();
    while i > 0
        invariant
            roots_ok(on, view_adj(sccs@), roots),
            forall|c: int| 0 <= c < roots.len() ==> #[trigger] roots[c] >= i,
            a == view_adj(adj@),
            r == view_adj(reverse@),
            n == adj.len(),
            adj_ok(a),
            adj_ok(r),
            is_reverse(r, a),
            on == ints(order@),
            first_pass_ok(a, on),
            strict_total(index_order()),
            i <= order.len(),
            assigned.len() == n,
            forall|j: int| i <= j < on.len() ==> #[trigger] assigned@[on[j]],
            forall|v: int| is_vertex(a, v) ==> (#[trigger] assigned@[v] <==> exists|c: int| 0 <= c < sccs.len() && #[trigger] ints(sccs@[c]@).contains(v)),
            forall|u: int, v: int| is_vertex(a, u) && is_vertex(a, v) && assigned@[v] && #[trigger] mutual(a, u, v) ==> assigned@[u],
            scc_list_ok(a, view_adj(sccs@)),
        decreases i,
    {
        i = i - 1;
        let v = order[i];
        assert(on[i as int] == v as int);
        if !assigned[v] {
            let ghost asg0 = assigned@;
            let mut component: Vec<usize> = Vec::new();
            collect_component(v, &reverse, &mut assigned, &mut component);
            let ghost comp = ints(component@);
            assert(appended(component@, 0) =~= comp);
            assert(reverse.len() == n);
            proof {
                assert forall|y: int| #[trigger] comp.contains(y) <==> component_of(a, v as int).contains(y) by {
                    lemma_gathered_is_component(a, r, on, i as int, asg0, y);
                }
            }
            let mut sorted: Vec<usize> = Vec::new();
            let mut k: usize = 0;
            while k < component.len()
                invariant
                    strict_total(index_order()),
                    k <= component.len(),
                    strictly_sorted(sorted.deep_view(), index_order()),
                    sorted.deep_view().to_set() == component@.take(k as int).to_set(),
                decreases component.len() - k,
            {
                insert_sorted(&mut sorted, component[k]);
                assert(component@.take(k + 1) =~= component@.take(k as int).push(component@[k as int]));
                proof {
                    component@.take(k as int).lemma_push_to_set_commute(component@[k as int]);
                }
                k = k + 1;
            }
            assert(component@.take(component.len() as int) =~= component@);
            assert(sorted.deep_view() =~= sorted@);
            let ghost srt = ints(sorted@);
            proof {
                assert forall|y: int| #[trigger] srt.contains(y) <==> comp.contains(y) by {
                    if srt.contains(y) {
                        let j = choose|j: int| 0 <= j < srt.len() && srt[j] == y;
                        assert(sorted@.to_set().contains(sorted@[j]));
                        assert(component@.to_set().contains(sorted@[j]));
                        let m = choose|m: int| 0 <= m < component@.len() && component@[m] == sorted@[j];
                        assert(comp[m] == y);
                    }
                    if comp.contains(y) {
                        let m = choose|m: int| 0 <= m < comp.len() && comp[m] == y;
                        assert(component@.to_set().contains(component@[m]));
                        let j = choose|j: int| 0 <= j < sorted@.len() && sorted@[j] == component@[m];
                        assert(srt[j] == y);
                    }
                }
                lemma_reach_refl(a, v as int);
                assert(component_of(a, v as int).contains(v as int));
                assert(comp.contains(v as int));
                assert(srt.contains(v as int));
                assert(srt.len() > 0);
                assert(srt.contains(srt[0]));
                assert(comp.contains(srt[0]));
                assert(component_of(a, v as int).contains(srt[0]));
                lemma_component_same(a, srt[0], v as int);
                assert(srt.to_set() =~= component_of(a, sorted@[0] as int));
            }
            let ghost old_sccs = view_adj(sccs@);
            let ghost old_vec = sccs@;
            sccs.push(sorted);
            proof {
                let s2 = view_adj(sccs@);
                assert(s2 =~= old_sccs.push(sorted@));
                assert(ints(s2[s2.len() - 1]) == srt);
                assert forall|y: int| is_vertex(a, y) implies (#[trigger] assigned@[y] <==> exists|c: int| 0 <= c < sccs.len() && #[trigger] ints(sccs@[c]@).contains(y)) by {
                    assert(assigned@[y] <==> asg0[y] || comp.contains(y));
                    if assigned@[y] {
                        if asg0[y] {
                            let c = choose|c: int| 0 <= c < old_vec.len() && #[trigger] ints(old_vec[c]@).contains(y);
                            assert(sccs@[c] == old_vec[c]);
                            assert(ints(sccs@[c]@).contains(y));
                        } else {
                            assert(comp.contains(y));
                            assert(ints(sccs@[s2.len() - 1]@).contains(y));
                        }
                    }
                    if exists|c: int| 0 <= c < sccs.len() && #[trigger] ints(sccs@[c]@).contains(y) {
                        let c = choose|c: int| 0 <= c < sccs.len() && #[trigger] ints(sccs@[c]@).contains(y);
                        if c < old_sccs.len() {
                            assert(sccs@[c] == old_vec[c]);
                            assert(ints(old_vec[c]@).contains(y));
                        } else {
                            assert(srt.contains(y));
                        }
                    }
                }
                assert forall|x: int, y: int| is_vertex(a, x) && is_vertex(a, y) && assigned@[y] && #[trigger] mutual(a, x, y) implies assigned@[x] by {
                    assert(assigned@[y] <==> asg0[y] || comp.contains(y));
                    assert(assigned@[x] <==> asg0[x] || comp.contains(x));
                    if !asg0[y] {
                        assert(comp.contains(y));
                        assert(component_of(a, v as int).contains(y));
                        lemma_reach_trans(a, x, y, v as int);
                        lemma_reach_trans(a, v as int, y, x);
                        assert(component_of(a, v as int).contains(x));
                        assert(comp.contains(x));
                    } else {
                        assert(asg0[x]);
                    }
                }
                assert forall|c1: int, c2: int, y: int|
                    0 <= c1 < c2 < s2.len() && #[trigger] ints(s2[c1]).contains(y) implies !#[trigger] ints(s2[c2]).contains(y) by {
                    if c2 == s2.len() - 1 {
                        assert(ints(old_sccs[c1]).contains(y));
                        lemma_reach_vertices_of_list(a, old_sccs, c1, y);
                        assert(asg0[y]);
                        if srt.contains(y) {
                            assert(comp.contains(y));
                        }
                    }
                }
                let last = s2.len() - 1;
                assert(s2[last] == sorted@);
                assert forall|c: int| 0 <= c < s2.len() implies #[trigger] s2[c].len() > 0 by {
                    if c < last {
                        assert(s2[c] == old_sccs[c]);
                    }
                }
                assert forall|c: int, x: int, y: int| 0 <= c < s2.len() && 0 <= x < y < s2[c].len() implies #[trigger] s2[c][x] < #[trigger] s2[c][y] by {
                    if c < last {
                        assert(s2[c] == old_sccs[c]);
                    } else {
                        assert(index_order()(sorted.deep_view()[x], sorted.deep_view()[y]));
                    }
                }
                assert forall|c: int| 0 <= c < s2.len() implies #[trigger] ints(s2[c]).to_set() == component_of(a, s2[c][0] as int) by {
                    if c < last {
                        assert(s2[c] == old_sccs[c]);
                    }
                }
                assert(scc_list_ok(a, s2));
            }
            proof {
                let s2 = view_adj(sccs@);
                let old_roots = roots;
                roots = roots.push(i as int);
                let last = s2.len() - 1;
                assert forall|c: int| 0 <= c < s2.len() implies #[trigger] ints(s2[c]).contains(on[roots[c]]) by {
                    if c < last {
                        assert(s2[c] == old_sccs[c]);
                        assert(roots[c] == old_roots[c]);
                    } else {
                        assert(ints(s2[c]) == srt);
                    }
                }
                assert forall|c: int, j: int| 0 <= c < s2.len() && 0 <= j < on.len() && #[trigger] ints(s2[c]).contains(
                    #[trigger] on[j],
                ) implies j <= roots[c] by {
                    if c < last {
                        assert(s2[c] == old_sccs[c]);
                        assert(roots[c] == old_roots[c]);
                    } else {
                        assert(comp.contains(on[j]));
                        if j > i {
                            assert(asg0[on[j]]);
                            let p = choose|p: Seq<int>|
                                #[trigger] is_path(r, p) && p[0] == v as int && p.last() == on[j] && forall|k: int| 0 <= k < p.len() ==> !asg0[#[trigger] p[k]];
                            assert(!asg0[p[p.len() - 1]]);
                        }
                    }
                }
                assert forall|c1: int, c2: int| 0 <= c1 < c2 < s2.len() implies #[trigger] roots[c1] > #[trigger] roots[c2] by {
                    if c2 < last {
                        assert(roots[c1] == old_roots[c1]);
                        assert(roots[c2] == old_roots[c2]);
                    } else {
                        assert(roots[c1] == old_roots[c1]);
                        assert(old_roots[c1] >= i + 1);
                    }
                }
                assert(roots_ok(on, s2, roots));
            }
        }
    }
    proof {
        lemma_edges_point_forward(a, on, view_adj(sccs@), roots);
        assert(roots_ok(ints(finish_order(a)), view_adj(sccs@), roots));
    }
    proof {
        let s2 = view_adj(sccs@);
        assert forall|v: int| is_vertex(a, v) implies exists|c: int| 0 <= c < s2.len() && #[trigger] ints(s2[c]).contains(v) by {
            assert(on.contains(v));
            let j = choose|j: int| 0 <= j < on.len() && on[j] == v;
            assert(i == 0);
            assert(assigned@[on[j]]);
            let c = choose|c: int| 0 <= c < sccs.len() && #[trigger] ints(sccs@[c]@).contains(v);
            assert(s2[c] == sccs@[c]@);
            assert(ints(s2[c]).contains(v));
        }
    }
    sccs
}

/// A vertex listed in a component is a vertex.
proof fn lemma_reach_vertices_of_list(a: Seq<Seq<usize>>, sccs: Seq<Seq<usize>>, c: int, v: int)
    requires
        scc_list_ok(a, sccs),
        0 <= c < sccs.len(),
        ints(sccs[c]).contains(v),
    ensures
        is_vertex(a, v),
        component_of(a, sccs[c][0] as int).contains(v),
{
    assert(ints(sccs[c]).to_set().contains(v));
}

/// The first target of `u`'s edges, from position `k` of its list on,
/// that lies in `c`.
pub open spec fn first_in_from(a: Seq<Seq<usize>>, c: Set<int>, u: int, k: int) -> Option<int>
    decreases a[u].len() - k,
{
    if k < 0 || k >= a[u].len() {
        None
    } else if c.contains(a[u][k] as int) {
        Some(a[u][k] as int)
    } else {
        first_in_from(a, c, u, k + 1)
    }
}

pub open spec fn position_in(p: Seq<int>, x: int) -> int {
    choose|i: int| 0 <= i < p.len() && p[i] == x
}

/// The greedy walk inside `c`: from the end of `path`, follow the first
/// edge into `c`; once that edge returns to a vertex already on the path,
/// the loop from there is the result. `None` if some vertex has no edge
/// into `c`, or after `fuel` steps.
pub open spec fn walk(a: Seq<Seq<usize>>, c: Set<int>, path: Seq<int>, fuel: nat) -> Option<Seq<int>>
    decreases fuel,
{
    match first_in_from(a, c, path.last(), 0) {
        None => None,
        Some(next) => if path.contains(next) {
            Some(path.subrange(position_in(path, next), path.len() as int).push(next))
        } else if fuel == 0 {
            None
        } else {
            walk(a, c, path.push(next), (fuel - 1) as nat)
        },
    }
}

/// The loop the greedy walk finds from the least vertex of `scc`.
pub open spec fn component_cycle(a: Seq<Seq<usize>>, scc: Seq<usize>) -> Option<Seq<int>> {
    if scc.len() == 0 {
        None
    } else {
        walk(a, ints(scc).to_set(), seq![scc[0] as int], a.len())
    }
}

proof fn lemma_first_in_from(a: Seq<Seq<usize>>, c: Set<int>, u: int, k: int)
    requires
        0 <= u < a.len(),
        0 <= k,
    ensures
        match first_in_from(a, c, u, k) {
            Some(x) => c.contains(x) && exists|m: int| k <= m < a[u].len() && #[trigger] a[u][m] as int == x,
            None => forall|m: int| k <= m < a[u].len() ==> !c.contains(#[trigger] a[u][m] as int),
        },
    decreases a[u].len() - k,
{
    if k < a[u].len() && !c.contains(a[u][k] as int) {
        lemma_first_in_from(a, c, u, k + 1);
        if first_in_from(a, c, u, k + 1) is None {
            assert forall|m: int| k <= m < a[u].len() implies !c.contains(#[trigger] a[u][m] as int) by {
                if m > k {
                }
            }
        }
    }
}

/// Within one strongly connected component (each vertex reachable from
/// every other), walks greedily along the first edge that stays inside the
/// component, starting from the component's least vertex, until it meets a
/// vertex already on the walk, and returns the closed loop from there.
pub fn find_cycle_in_component(scc: &Vec<usize>, adj: &Vec<Vec<usize>>, in_scc: &Vec<bool>) -> (r: Option<Vec<usize>>)
    requires
        adj_ok(view_adj(adj@)),
        in_scc.len() == adj.len(),
        forall|i: int| 0 <= i < scc.len() ==> #[trigger] scc@[i] < adj.len(),
        forall|v: int| 0 <= v < adj.len() ==> (#[trigger] in_scc@[v] <==> ints(scc@).contains(v)),
    ensures
        match r {
            Some(chain) => component_cycle(view_adj(adj@), scc@) == Some(ints(chain@)),
            None => component_cycle(view_adj(adj@), scc@) is None,
        },
{
    let ghost a = view_adj(adj@);
    let ghost c = ints(scc@).to_set();
    let n = adj.len();
    if scc.len() == 0 {
        return None;
    }
    let start = scc[0];
    let mut path: Vec<usize> = Vec::new();
    path.push(start);
    let mut on_path: Vec<bool> = vec![false; n];
    on_path.set(start, true);
    assert(ints(path@) =~= seq![start as int]);
    let mut current = start;
    loop
        invariant
            a == view_adj(adj@),
            adj_ok(a),
            n == adj.len(),
            in_scc.len() == n,
            forall|v: int| 0 <= v < n ==> (#[trigger] in_scc@[v] <==> c.contains(v)),
            on_path.len() == n,
            path.len() > 0,
            ints(path@).no_duplicates(),
            forall|i: int| 0 <= i < path.len() ==> #[trigger] path@[i] < n,
            forall|v: int| 0 <= v < n ==> (#[trigger] on_path@[v] <==> ints(path@).contains(v)),
            current == path@.last(),
            path.len() <= n,
            component_cycle(a, scc@) == walk(a, c, ints(path@), (n - (path.len() - 1)) as nat),
        decreases n - path.len(),
    {
        let ghost p = ints(path@);
        assert(p.last() == current as int);
        let neighbors = &adj[current];
        assert(neighbors@ == a[current as int]);
        let mut k: usize = 0;
        let mut found: Option<usize> = None;
        while k < neighbors.len()
            invariant_except_break
                found is None,
                first_in_from(a, c, current as int, 0) == first_in_from(a, c, current as int, k as int),
            invariant
                a == view_adj(adj@),
                adj_ok(a),
                (current as int) < n,
                n == adj.len(),
                neighbors@ == a[current as int],
                k <= neighbors.len(),
                in_scc.len() == n,
                forall|v: int| 0 <= v < n ==> (#[trigger] in_scc@[v] <==> c.contains(v)),
            ensures
                found is None ==> first_in_from(a, c, current as int, 0) == first_in_from(a, c, current as int, k as int) && k == neighbors.len(),
                found matches Some(x) ==> first_in_from(a, c, current as int, 0) == Some(x as int) && x < n,
            decreases neighbors.len() - k,
        {
            let next = neighbors[k];
            assert(next < n);
            if in_scc[next] {
                assert(a[current as int][k as int] == next);
                assert(c.contains(next as int));
                assert(first_in_from(a, c, current as int, k as int) == Some(next as int));
                found = Some(next);
                break;
            }
            k = k + 1;
        }
        match found {
            None => {
                assert(first_in_from(a, c, current as int, k as int) is None);
                assert(walk(a, c, p, (n - (path.len() - 1)) as nat) is None);
                return None;
            },
            Some(next) => {
                if on_path[next] {
                    let mut idx: usize = 0;
                    while path[idx] != next
                        invariant
                            idx < path.len(),
                            ints(path@).contains(next as int),
                            forall|i: int| 0 <= i < idx ==> path@[i] != next,
                        decreases path.len() - idx,
                    {
                        idx = idx + 1;
                        if idx >= path.len() {
                            proof {
                                let j = choose|j: int| 0 <= j < path.len() && ints(path@)[j] == next as int;
                                assert(path@[j] == next);
                            }
                        }
                    }
                    let mut chain: Vec<usize> = Vec::new();
                    let mut m = idx;
                    while m < path.len()
                        invariant
                            idx <= m <= path.len(),
                            chain@ =~= path@.subrange(idx as int, m as int),
                        decreases path.len() - m,
                    {
                        chain.push(path[m]);
                        m = m + 1;
                    }
                    chain.push(next);
                    proof {
                        assert(ints(path@)[idx as int] == next as int);
                        assert(position_in(p, next as int) == idx as int) by {
                            let j = position_in(p, next as int);
                            assert(p[j] == next as int);
                            assert(p[idx as int] == next as int);
                        }
                        assert(ints(chain@) =~= p.subrange(idx as int, p.len() as int).push(next as int));
                        assert(p.contains(next as int));
                        assert(walk(a, c, p, (n - (path.len() - 1)) as nat) == Some(
                            p.subrange(idx as int, p.len() as int).push(next as int),
                        ));
                    }
                    return Some(chain);
                } else {
                    proof {
                        assert(!p.contains(next as int));
                        lemma_distinct_bounded(p.push(next as int), n as int);
                        assert(p.push(next as int).no_duplicates());
                    }
                    path.push(next);
                    on_path.set(next, true);
                    current = next;
                    proof {
                        assert(ints(path@) =~= p.push(next as int));
                        assert(walk(a, c, p, (n - (p.len() - 1)) as nat) == walk(
                            a,
                            c,
                            p.push(next as int),
                            (n - p.len()) as nat,
                        ));
                        assert forall|v: int| 0 <= v < n implies (#[trigger] on_path@[v] <==> ints(path@).contains(v)) by {
                            if ints(path@).contains(v) && v != next as int {
                                let j = choose|j: int| 0 <= j < ints(path@).len() && ints(path@)[j] == v;
                                assert(p[j] == v);
                            }
                            if p.contains(v) {
                                let j = choose|j: int| 0 <= j < p.len() && p[j] == v;
                                assert(ints(path@)[j] == v);
                            }
                            if v == next as int {
                                assert(ints(path@)[p.len() as int] == v);
                            }
                        }
                    }
                }
            },
        }
    }
}

/// `ch` is a closed walk: it starts and ends at the same vertex, follows
/// edges, and meets no vertex twice before closing.
pub open spec fn is_cycle(a: Seq<Seq<usize>>, ch: Seq<int>) -> bool {
    &&& is_path(a, ch)
    &&& ch.len() >= 2
    &&& ch[0] == ch.last()
    &&& ch.drop_last().no_duplicates()
}

proof fn lemma_first_edge(a: Seq<Seq<usize>>, c: Set<int>, u: int)
    requires
        adj_ok(a),
        is_vertex(a, u),
        first_in_from(a, c, u, 0) is Some,
    ensures
        c.contains(first_in_from(a, c, u, 0)->0),
        edge(a, u, first_in_from(a, c, u, 0)->0),
{
    lemma_first_in_from(a, c, u, 0);
    let x = first_in_from(a, c, u, 0)->0;
    let m = choose|m: int| 0 <= m < a[u].len() && #[trigger] a[u][m] as int == x;
    assert(a[u][m] < a.len());
}

/// Whatever the greedy walk returns is a cycle inside `c`.
pub proof fn lemma_walk_is_cycle(a: Seq<Seq<usize>>, c: Set<int>, path: Seq<int>, fuel: nat)
    requires
        adj_ok(a),
        is_path(a, path),
        path.no_duplicates(),
        forall|i: int| 0 <= i < path.len() ==> c.contains(#[trigger] path[i]),
    ensures
        walk(a, c, path, fuel) matches Some(ch) ==> is_cycle(a, ch) && forall|i: int|
            0 <= i < ch.len() ==> c.contains(#[trigger] ch[i]),
    decreases fuel,
{
    let u = path.last();
    assert(is_vertex(a, path[path.len() - 1]));
    if first_in_from(a, c, u, 0) is Some {
        lemma_first_edge(a, c, u);
        let next = first_in_from(a, c, u, 0)->0;
        let q = path.push(next);
        assert(step(a, q, path.len() - 1));
        assert forall|i: int| 0 <= i < q.len() - 1 implies #[trigger] step(a, q, i) by {
            if i < path.len() - 1 {
                assert(step(a, path, i));
            }
        }
        assert forall|i: int| 0 <= i < q.len() implies is_vertex(a, #[trigger] q[i]) by {
            if i < path.len() {
                assert(q[i] == path[i]);
            }
        }
        assert(is_path(a, q));
        if path.contains(next) {
            let j = position_in(path, next);
            let ch = path.subrange(j, path.len() as int).push(next);
            assert(ch =~= q.subrange(j, q.len() as int));
            lemma_path_sub(a, q, j, q.len() as int);
            assert(ch.drop_last() =~= path.subrange(j, path.len() as int));
            assert forall|i: int| 0 <= i < ch.len() implies c.contains(#[trigger] ch[i]) by {
                if i < ch.len() - 1 {
                    assert(ch[i] == path[j + i]);
                }
            }
        } else if fuel > 0 {
            assert forall|i: int| 0 <= i < q.len() implies c.contains(#[trigger] q[i]) by {
                if i < path.len() {
                    assert(q[i] == path[i]);
                }
            }
            lemma_walk_is_cycle(a, c, q, (fuel - 1) as nat);
        }
    }
}

/// Inside a set whose every vertex has an edge into the set, the greedy
/// walk closes a loop before it runs out of fuel.
proof fn lemma_walk_some(a: Seq<Seq<usize>>, c: Set<int>, path: Seq<int>, fuel: nat)
    requires
        adj_ok(a),
        path.len() > 0,
        path.no_duplicates(),
        forall|i: int| 0 <= i < path.len() ==> c.contains(#[trigger] path[i]),
        forall|x: int| c.contains(x) ==> is_vertex(a, x),
        forall|x: int| #[trigger] c.contains(x) ==> first_in_from(a, c, x, 0) is Some,
        fuel + path.len() >= a.len() + 1,
    ensures
        walk(a, c, path, fuel) is Some,
    decreases fuel,
{
    let u = path.last();
    assert(c.contains(path[path.len() - 1]));
    lemma_first_edge(a, c, u);
    let next = first_in_from(a, c, u, 0)->0;
    if !path.contains(next) {
        let q = path.push(next);
        assert forall|i: int| 0 <= i < q.len() implies c.contains(#[trigger] q[i]) by {
            if i < path.len() {
                assert(q[i] == path[i]);
            }
        }
        assert(q.no_duplicates());
        assert forall|i: int| 0 <= i < q.len() implies 0 <= #[trigger] q[i] < a.len() by {
            assert(c.contains(q[i]));
        }
        lemma_distinct_bounded(q, a.len() as int);
        lemma_walk_some(a, c, q, (fuel - 1) as nat);
    }
}

/// A component with a second vertex gives each of its vertices an edge
/// that stays inside it.
proof fn lemma_component_inner_edge(a: Seq<Seq<usize>>, v: int, w: int, x: int)
    requires
        adj_ok(a),
        component_of(a, v).contains(w),
        w != v,
        component_of(a, v).contains(x),
    ensures
        first_in_from(a, component_of(a, v), x, 0) is Some,
{
    let c = component_of(a, v);
    let other = if x == v { w } else { v };
    assert(mutual(a, x, other)) by {
        if x != v {
            assert(mutual(a, x, v));
        } else {
            assert(mutual(a, w, v));
        }
    }
    let p = choose|p: Seq<int>| #[trigger] is_path(a, p) && p[0] == x && p.last() == other;
    assert(p.len() >= 2);
    assert(step(a, p, 0));
    let y = p[1];
    lemma_path_sub(a, p, 1, p.len() as int);
    lemma_reach_edge(a, x, y);
    lemma_reach_trans(a, y, other, x);
    lemma_reach_trans(a, y, x, v);
    lemma_reach_trans(a, v, x, y);
    assert(c.contains(y));
    let m = choose|m: int| 0 <= m < a[x].len() && #[trigger] a[x][m] as int == y;
    lemma_first_in_from(a, c, x, 0);
}

/// The least vertex of a set.
pub open spec fn least(c: Set<int>) -> int {
    choose|m: int| c.contains(m) && forall|y: int| #[trigger] c.contains(y) ==> m <= y
}

/// The loop the greedy walk finds in `c`, from its least vertex.
pub open spec fn cycle_of(a: Seq<Seq<usize>>, c: Set<int>) -> Option<Seq<int>> {
    walk(a, c, seq![least(c)], a.len())
}

/// `v`'s component holds some other vertex.
pub open spec fn nontrivial(a: Seq<Seq<usize>>, v: int) -> bool {
    exists|w: int| w != v && #[trigger] component_of(a, v).contains(w)
}

/// Every strongly connected component of two or more vertices has a loop,
/// and it is a cycle through vertices of that component only.
pub proof fn lemma_component_cycle(a: Seq<Seq<usize>>, v: int)
    requires
        adj_ok(a),
        is_vertex(a, v),
        nontrivial(a, v),
    ensures
        cycle_of(a, component_of(a, v)) is Some,
        is_cycle(a, cycle_of(a, component_of(a, v))->0),
        forall|i: int|
            0 <= i < (cycle_of(a, component_of(a, v))->0).len() ==> component_of(a, v).contains(
                #[trigger] (cycle_of(a, component_of(a, v))->0)[i],
            ),
{
    let c = component_of(a, v);
    let w = choose|w: int| w != v && #[trigger] component_of(a, v).contains(w);
    lemma_reach_refl(a, v);
    assert(c.contains(v));
    assert(exists|m: int| c.contains(m) && forall|y: int| #[trigger] c.contains(y) ==> m <= y) by {
        lemma_least_exists(a, c, v);
    }
    let m = least(c);
    assert forall|x: int| #[trigger] c.contains(x) implies first_in_from(a, c, x, 0) is Some by {
        lemma_component_inner_edge(a, v, w, x);
    }
    let p = seq![m];
    assert(is_path(a, p));
    lemma_walk_some(a, c, p, a.len());
    lemma_walk_is_cycle(a, c, p, a.len());
}

/// A listed component's least vertex is its first.
proof fn lemma_list_least(a: Seq<Seq<usize>>, ss: Seq<Seq<usize>>, c: int)
    requires
        scc_list_ok(a, ss),
        0 <= c < ss.len(),
    ensures
        least(ints(ss[c]).to_set()) == ss[c][0] as int,
        component_cycle(a, ss[c]) == cycle_of(a, ints(ss[c]).to_set()),
{
    let t = ints(ss[c]).to_set();
    assert(ss[c].len() > 0);
    assert(t.contains(ss[c][0] as int)) by {
        assert(ints(ss[c])[0] == ss[c][0] as int);
    }
    assert forall|y: int| #[trigger] t.contains(y) implies ss[c][0] as int <= y by {
        let i = choose|i: int| 0 <= i < ints(ss[c]).len() && ints(ss[c])[i] == y;
        if i > 0 {
            assert(ss[c][0] < ss[c][i]);
        }
    }
    let m = least(t);
    assert(t.contains(m) && forall|y: int| #[trigger] t.contains(y) ==> m <= y);
    assert(m <= ss[c][0] as int);
}

/// A listed component of two or more vertices: its first vertex's
/// component is nontrivial, and the greedy walk finds a cycle there.
pub proof fn lemma_scc_nontrivial(a: Seq<Seq<usize>>, ss: Seq<Seq<usize>>, c: int)
    requires
        adj_ok(a),
        scc_list_ok(a, ss),
        0 <= c < ss.len(),
        ss[c].len() >= 2,
    ensures
        is_vertex(a, ss[c][0] as int),
        nontrivial(a, ss[c][0] as int),
        component_of(a, ss[c][0] as int) == ints(ss[c]).to_set(),
{
    let t = ints(ss[c]).to_set();
    assert(t.contains(ints(ss[c])[0]));
    assert(t.contains(ints(ss[c])[1]));
    assert(ss[c][0] < ss[c][1]);
    assert(component_of(a, ss[c][0] as int).contains(ss[c][1] as int));
}

/// The entries of a listed component are vertices.
pub proof fn lemma_scc_entries(a: Seq<Seq<usize>>, ss: Seq<Seq<usize>>, c: int)
    requires
        scc_list_ok(a, ss),
        0 <= c < ss.len(),
    ensures
        forall|i: int| 0 <= i < ss[c].len() ==> #[trigger] ss[c][i] < a.len(),
{
    assert forall|i: int| 0 <= i < ss[c].len() implies #[trigger] ss[c][i] < a.len() by {
        assert(ints(ss[c])[i] == ss[c][i] as int);
        assert(ints(ss[c]).to_set().contains(ss[c][i] as int));
    }
}

pub proof fn lemma_scc_cycle(a: Seq<Seq<usize>>, ss: Seq<Seq<usize>>, c: int)
    requires
        adj_ok(a),
        scc_list_ok(a, ss),
        0 <= c < ss.len(),
        ss[c].len() >= 2,
    ensures
        component_cycle(a, ss[c]) == cycle_of(a, ints(ss[c]).to_set()),
        component_cycle(a, ss[c]) is Some,
        is_cycle(a, component_cycle(a, ss[c])->0),
{
    lemma_list_least(a, ss, c);
    lemma_scc_nontrivial(a, ss, c);
    lemma_component_cycle(a, ss[c][0] as int);
}

/// The listed component holding a vertex with a nontrivial component is
/// that component, with two or more vertices.
pub proof fn lemma_scc_of_vertex(a: Seq<Seq<usize>>, ss: Seq<Seq<usize>>, c: int, v: int)
    requires
        scc_list_ok(a, ss),
        0 <= c < ss.len(),
        ints(ss[c]).contains(v),
        nontrivial(a, v),
    ensures
        ss[c].len() >= 2,
        ints(ss[c]).to_set() == component_of(a, v),
{
    let t = ints(ss[c]).to_set();
    let f = ss[c][0] as int;
    assert(t.contains(v));
    assert(component_of(a, f).contains(v));
    lemma_component_same(a, v, f);
    let w = choose|w: int| w != v && #[trigger] component_of(a, v).contains(w);
    assert(t.contains(w));
    if ss[c].len() < 2 {
        let i = choose|i: int| 0 <= i < ints(ss[c]).len() && ints(ss[c])[i] == v;
        let k = choose|k: int| 0 <= k < ints(ss[c]).len() && ints(ss[c])[k] == w;
        assert(i == 0 && k == 0);
    }
}

proof fn lemma_least_exists(a: Seq<Seq<usize>>, c: Set<int>, v: int)
    requires
        c.contains(v),
        forall|x: int| #[trigger] c.contains(x) ==> is_vertex(a, x),
    ensures
        exists|m: int| c.contains(m) && forall|y: int| #[trigger] c.contains(y) ==> m <= y,
    decreases v,
{
    if !(forall|y: int| #[trigger] c.contains(y) ==> v <= y) {
        let y = choose|y: int| #[trigger] c.contains(y) && !(v <= y);
        assert(is_vertex(a, y));
        lemma_least_exists(a, c, y);
    }
}

/// Whatever loop the greedy walk finds in a set of vertices is a cycle
/// through that set alone, and it closes after at most as many steps as the
/// set has vertices.
pub proof fn lemma_component_cycle_bounded(a: Seq<Seq<usize>>, scc: Seq<usize>)
    requires
        adj_ok(a),
        forall|i: int| 0 <= i < scc.len() ==> #[trigger] scc[i] < a.len(),
    ensures
        component_cycle(a, scc) matches Some(ch) ==> {
            &&& is_cycle(a, ch)
            &&& forall|i: int| 0 <= i < ch.len() ==> ints(scc).contains(#[trigger] ch[i])
            &&& ch.len() <= ints(scc).to_set().len() + 1
        },
{
    if scc.len() > 0 {
        let c = ints(scc).to_set();
        let p = seq![scc[0] as int];
        assert(ints(scc)[0] == scc[0] as int);
        assert(c.contains(p[0]));
        assert(is_path(a, p));
        lemma_walk_is_cycle(a, c, p, a.len());
        if component_cycle(a, scc) is Some {
            let ch = component_cycle(a, scc)->0;
            let d = ch.drop_last();
            assert forall|i: int| 0 <= i < d.len() implies c.contains(#[trigger] d[i]) by {
                assert(d[i] == ch[i]);
            }
            d.unique_seq_to_set();
            assert(d.to_set().subset_of(c));
            vstd::seq_lib::seq_to_set_is_finite(ints(scc));
            vstd::set_lib::lemma_len_subset(d.to_set(), c);
        }
    }
}

/// `y` can be reached from `x` along a walk that stays inside `c`.
pub open spec fn reach_within(a: Seq<Seq<usize>>, c: Set<int>, x: int, y: int) -> bool {
    exists|p: Seq<int>|
        #[trigger] is_path(a, p) && p[0] == x && p.last() == y && forall|i: int| 0 <= i < p.len() ==> c.contains(#[trigger] p[i])
}

/// Every two vertices of `c` reach each other without leaving `c`.
pub open spec fn strongly_connected_set(a: Seq<Seq<usize>>, c: Set<int>) -> bool {
    forall|x: int, y: int| c.contains(x) && c.contains(y) ==> #[trigger] reach_within(a, c, x, y)
}

/// In a set of two or more vertices, each reaching every other without
/// leaving the set, the greedy walk always closes a loop.
pub proof fn lemma_strongly_connected_cycle(a: Seq<Seq<usize>>, scc: Seq<usize>)
    requires
        adj_ok(a),
        forall|i: int| 0 <= i < scc.len() ==> #[trigger] scc[i] < a.len(),
        ints(scc).to_set().len() >= 2,
        strongly_connected_set(a, ints(scc).to_set()),
    ensures
        component_cycle(a, scc) is Some,
{
    let c = ints(scc).to_set();
    vstd::seq_lib::seq_to_set_is_finite(ints(scc));
    if scc.len() == 0 {
        assert(c =~= Set::<int>::empty());
    }
    assert forall|x: int| #[trigger] c.contains(x) implies is_vertex(a, x) by {
        let i = choose|i: int| 0 <= i < ints(scc).len() && ints(scc)[i] == x;
        assert(scc[i] < a.len());
    }
    assert forall|x: int| #[trigger] c.contains(x) implies first_in_from(a, c, x, 0) is Some by {
        let rest = c.remove(x);
        assert(rest.len() >= 1);
        if !(exists|y: int| #[trigger] rest.contains(y)) {
            assert(rest =~= Set::<int>::empty());
        }
        let y = choose|y: int| #[trigger] rest.contains(y);
        assert(reach_within(a, c, x, y));
        let p = choose|p: Seq<int>|
            #[trigger] is_path(a, p) && p[0] == x && p.last() == y && forall|i: int| 0 <= i < p.len() ==> c.contains(#[trigger] p[i]);
        assert(p.len() >= 2);
        assert(step(a, p, 0));
        assert(c.contains(p[1]));
        let m = choose|m: int| 0 <= m < a[x].len() && #[trigger] a[x][m] as int == p[1];
        lemma_first_in_from(a, c, x, 0);
    }
    let p = seq![scc[0] as int];
    assert(ints(scc)[0] == scc[0] as int);
    assert(c.contains(p[0]));
    lemma_walk_some(a, c, p, a.len());
}

} // verus!
