use vstd::prelude::*;
use crate::model::{BeadNode, BeadView, ids, first_index_of, lemma_first_index_of, find_index,
    collect_ids, push_str};
use crate::edges::{blocks_edge_from, blocks_edge, blocks_edge_set, has_directed_cycle, is_walk,
    is_closed_walk, on_cycle, distinct_ids};

verus! {

/// Every entry of every row is a position inside the table.
pub open spec fn adj_bounded(adj: Seq<Seq<usize>>) -> bool {
    forall|v: int, t: int|
        0 <= v < adj.len() && 0 <= t < adj[v].len() ==> #[trigger] adj[v][t] < adj.len()
}

/// Rows record only true blocks-graph edges between known positions.
pub open spec fn adj_sound(adj: Seq<Seq<usize>>, ns: Seq<BeadView>) -> bool {
    &&& adj.len() == ns.len()
    &&& adj_bounded(adj)
    &&& forall|v: int, t: int|
        0 <= v < adj.len() && 0 <= t < adj[v].len() ==> blocks_edge(ns, v, #[trigger] adj[v][t] as int)
}

/// An edge already recorded when the scan stands at entry `k0` of node
/// `i0`.
pub open spec fn blocks_edge_before(ns: Seq<BeadView>, i0: int, k0: int, a: int, b: int) -> bool {
    exists|i: int, k: int|
        (i < i0 || (i == i0 && k < k0)) && #[trigger] blocks_edge_from(ns, i, k, a, b)
}

/// Row `a` records an edge to `b`.
pub open spec fn adj_has(adj: Seq<Seq<usize>>, a: int, b: int) -> bool {
    0 <= a < adj.len() && exists|t: int| 0 <= t < adj[a].len() && adj[a][t] as int == b
}

/// Every blocks-graph edge is recorded in its row.
pub open spec fn adj_complete(adj: Seq<Seq<usize>>, ns: Seq<BeadView>) -> bool {
    forall|a: int, b: int| #[trigger] blocks_edge(ns, a, b) ==> adj_has(adj, a, b)
}

/// Every element is a position below `n`.
pub open spec fn all_below(s: Seq<usize>, n: int) -> bool {
    forall|t: int| 0 <= t < s.len() ==> s[t] < n
}

/// Every member of every group is a position below `n`.
pub open spec fn groups_below(s: Seq<Seq<usize>>, n: int) -> bool {
    forall|a: int, b: int| 0 <= a < s.len() && 0 <= b < s[a].len() ==> #[trigger] s[a][b] < n
}

/// How many positions already carry a discovery index.
pub open spec fn count_indexed(s: Seq<Option<usize>>) -> int
    decreases s.len(),
{
    if s.len() == 0 {
        0
    } else {
        count_indexed(s.drop_last()) + if s.last() is Some {
            1int
        } else {
            0
        }
    }
}

proof fn lemma_count_indexed_bounds(s: Seq<Option<usize>>)
    ensures
        0 <= count_indexed(s) <= s.len(),
    decreases s.len(),
{
    if s.len() > 0 {
        lemma_count_indexed_bounds(s.drop_last());
    }
}

proof fn lemma_count_indexed_lt(s: Seq<Option<usize>>, j: int)
    requires
        0 <= j < s.len(),
        s[j] is None,
    ensures
        count_indexed(s) < s.len(),
    decreases s.len(),
{
    if j == s.len() - 1 {
        lemma_count_indexed_bounds(s.drop_last());
    } else {
        lemma_count_indexed_lt(s.drop_last(), j);
    }
}

proof fn lemma_count_indexed_set(s: Seq<Option<usize>>, j: int, v: usize)
    requires
        0 <= j < s.len(),
        s[j] is None,
    ensures
        count_indexed(s.update(j, Some(v))) == count_indexed(s) + 1,
    decreases s.len(),
{
    let s2 = s.update(j, Some(v));
    if j == s.len() - 1 {
        assert(s2.drop_last() =~= s.drop_last());
        assert(s2.last() == Some(v));
    } else {
        assert(s2.drop_last() =~= s.drop_last().update(j, Some(v)));
        lemma_count_indexed_set(s.drop_last(), j, v);
        assert(s2.last() == s.last());
    }
}

/// How many flags are set.
pub open spec fn count_true(s: Seq<bool>) -> int
    decreases s.len(),
{
    if s.len() == 0 {
        0
    } else {
        count_true(s.drop_last()) + if s.last() {
            1int
        } else {
            0
        }
    }
}

proof fn lemma_count_true_bounds(s: Seq<bool>)
    ensures
        0 <= count_true(s) <= s.len(),
    decreases s.len(),
{
    if s.len() > 0 {
        lemma_count_true_bounds(s.drop_last());
    }
}

proof fn lemma_count_true_set(s: Seq<bool>, j: int)
    requires
        0 <= j < s.len(),
        !s[j],
    ensures
        count_true(s.update(j, true)) == count_true(s) + 1,
    decreases s.len(),
{
    let s2 = s.update(j, true);
    if j == s.len() - 1 {
        assert(s2.drop_last() =~= s.drop_last());
        assert(s2.last());
    } else {
        assert(s2.drop_last() =~= s.drop_last().update(j, true));
        lemma_count_true_set(s.drop_last(), j);
        assert(s2.last() == s.last());
    }
}

/// Some directed walk leads from `a` to `b`.
pub open spec fn walk_from_to(es: Set<(int, int)>, a: int, b: int) -> bool {
    exists|p: Seq<int>| is_walk(p, es) && p[0] == a && p[p.len() - 1] == b
}

/// The one-vertex walk stands at every vertex.
proof fn lemma_walk_refl(es: Set<(int, int)>, a: int)
    ensures
        walk_from_to(es, a, a),
{
    let p0 = seq![a];
    assert(is_walk(p0, es) && p0[0] == a && p0[p0.len() - 1] == a);
}

/// A walk followed by one more edge is a walk.
proof fn lemma_walk_step(es: Set<(int, int)>, a: int, b: int, c: int)
    requires
        walk_from_to(es, a, b),
        es.contains((b, c)),
    ensures
        walk_from_to(es, a, c),
{
    let p = choose|p: Seq<int>| is_walk(p, es) && p[0] == a && p[p.len() - 1] == b;
    lemma_walk_extend(p, es, c);
    let q = p.push(c);
    assert(is_walk(q, es) && q[0] == a && q[q.len() - 1] == c);
}

/// A walk grows by one edge leaving its last vertex.
proof fn lemma_walk_extend(p: Seq<int>, es: Set<(int, int)>, u: int)
    requires
        is_walk(p, es),
        es.contains((p[p.len() - 1], u)),
    ensures
        is_walk(p.push(u), es),
        p.push(u)[0] == p[0],
        p.push(u)[p.push(u).len() - 1] == u,
{
    let q = p.push(u);
    assert forall|t: int| 0 <= t < q.len() - 1 implies es.contains((#[trigger] q[t], q[t + 1])) by {
        if t < p.len() - 1 {
            assert(q[t] == p[t]);
            assert(q[t + 1] == p[t + 1]);
        } else {
            assert(q[t] == p[p.len() - 1]);
            assert(q[t + 1] == u);
        }
    }
}

/// Two walks sharing an endpoint join into one walk.
proof fn lemma_walk_join(p1: Seq<int>, p2: Seq<int>, es: Set<(int, int)>)
    requires
        is_walk(p1, es),
        is_walk(p2, es),
        p1[p1.len() - 1] == p2[0],
    ensures
        is_walk(p1 + p2.drop_first(), es),
        (p1 + p2.drop_first())[0] == p1[0],
        (p1 + p2.drop_first()).len() == p1.len() + p2.len() - 1,
        (p1 + p2.drop_first())[(p1 + p2.drop_first()).len() - 1] == p2[p2.len() - 1],
{
    let q = p1 + p2.drop_first();
    assert forall|t: int| 0 <= t < q.len() - 1 implies es.contains((#[trigger] q[t], q[t + 1])) by {
        if t < p1.len() - 1 {
            assert(q[t] == p1[t]);
            assert(q[t + 1] == p1[t + 1]);
        } else if t == p1.len() - 1 {
            assert(q[t] == p2[0]);
            assert(q[t + 1] == p2[1]);
        } else {
            assert(q[t] == p2[t - p1.len() + 1]);
            assert(q[t + 1] == p2[t - p1.len() + 2]);
        }
    }
    if p2.len() == 1 {
        assert(q[q.len() - 1] == p1[p1.len() - 1]);
    } else {
        assert(q[q.len() - 1] == p2[p2.len() - 1]);
    }
}

/// The blocks-graph adjacency table: row `a` lists, for every node whose id
/// resolves to position `a`, the resolved positions of its `blocks` entries.
fn build_blocks_adj(beads: &Vec<BeadNode>, idsv: &Vec<String>) -> (adj: Vec<Vec<usize>>)
    requires
        idsv.deep_view() == ids(beads.deep_view()),
    ensures
        adj_sound(adj.deep_view(), beads.deep_view()),
        adj_complete(adj.deep_view(), beads.deep_view()),
{
    let ghost ns = beads.deep_view();
    let n = beads.len();
    let mut adj: Vec<Vec<usize>> = Vec::new();
    let mut i: usize = 0;
    while i < n
        invariant
            i <= n,
            adj.deep_view().len() == i,
            forall|v: int| 0 <= v < i ==> #[trigger] adj.deep_view()[v].len() == 0,
        decreases n - i,
    {
        let ghost pre = adj@;
        let ghost dpre = adj.deep_view();
        adj.push(Vec::new());
        proof {
            assert forall|v: int| 0 <= v < i + 1 implies #[trigger] adj.deep_view()[v].len()
                == 0 by {
                assert(adj.deep_view()[v] == adj@[v].deep_view());
                if v < i {
                    assert(adj@[v] == pre[v]);
                    assert(dpre[v] == pre[v].deep_view());
                    assert(dpre[v].len() == 0);
                } else {
                    assert(adj@[v]@.len() == 0);
                }
            }
        }
        i += 1;
    }
    let mut i: usize = 0;
    while i < n
        invariant
            n == beads@.len(),
            ns == beads.deep_view(),
            idsv.deep_view() == ids(ns),
            i <= n,
            adj_sound(adj.deep_view(), ns),
            forall|a2: int, b2: int|
                #[trigger] blocks_edge_before(ns, i as int, 0, a2, b2) ==> adj_has(
                    adj.deep_view(),
                    a2,
                    b2,
                ),
        decreases n - i,
    {
        proof {
            assert(beads.deep_view()[i as int] == beads@[i as int]@);
            assert(ns[i as int].blocks == beads@[i as int].blocks.deep_view());
        }
        match find_index(idsv, &beads[i].id) {
            Some(from) => {
                proof {
                    lemma_first_index_of(ids(ns), ns[i as int].id);
                }
                let m = beads[i].blocks.len();
                let mut k: usize = 0;
                while k < m
                    invariant
                        n == beads@.len(),
                        ns == beads.deep_view(),
                        idsv.deep_view() == ids(ns),
                        i < n,
                        m == ns[i as int].blocks.len(),
                        ns[i as int].blocks == beads@[i as int].blocks.deep_view(),
                        first_index_of(ids(ns), ns[i as int].id) == Some(from as int),
                        from < n,
                        k <= m,
                        adj_sound(adj.deep_view(), ns),
                        forall|a2: int, b2: int|
                            #[trigger] blocks_edge_before(ns, i as int, k as int, a2, b2)
                                ==> adj_has(adj.deep_view(), a2, b2),
                    decreases m - k,
                {
                    proof {
                        assert(beads@[i as int].blocks.deep_view()[k as int] == beads@[
                            i as int
                        ].blocks@[k as int]@);
                    }
                    match find_index(idsv, &beads[i].blocks[k]) {
                        Some(to) => {
                            proof {
                                lemma_first_index_of(ids(ns), ns[i as int].blocks[k as int]);
                            }
                            let ghost pre = adj.deep_view();
                            adj[from].push(to);
                            proof {
                                assert(blocks_edge_from(
                                    ns,
                                    i as int,
                                    k as int,
                                    from as int,
                                    to as int,
                                ));
                                assert(adj@[from as int]@ == pre[from as int].push(to));
                                assert forall|v: int| 0 <= v < adj.deep_view().len() implies
                                    #[trigger] adj.deep_view()[v] == (if v == from as int {
                                    pre[v].push(to)
                                } else {
                                    pre[v]
                                }) by {
                                    assert(adj.deep_view()[v] == adj@[v].deep_view());
                                    assert(adj@[v].deep_view() =~= adj@[v]@);
                                    if v != from as int {
                                        assert(adj@[v]@ == pre[v]);
                                    }
                                }
                                assert(adj_sound(adj.deep_view(), ns));
                                assert forall|a2: int, b2: int|
                                    #[trigger] blocks_edge_before(
                                        ns,
                                        i as int,
                                        k as int + 1,
                                        a2,
                                        b2,
                                    ) implies adj_has(adj.deep_view(), a2, b2) by {
                                    let (i2, k2) = choose|i2: int, k2: int|
                                        (i2 < i as int || (i2 == i as int && k2 < k as int + 1))
                                            && #[trigger] blocks_edge_from(ns, i2, k2, a2, b2);
                                    if i2 == i as int && k2 == k as int {
                                        assert(a2 == from as int && b2 == to as int);
                                        assert(adj.deep_view()[from as int][pre[
                                            from as int
                                        ].len() as int] as int == to as int);
                                    } else {
                                        assert(blocks_edge_before(ns, i as int, k as int, a2, b2));
                                        assert(adj_has(pre, a2, b2));
                                        let t = choose|t: int|
                                            0 <= t < pre[a2].len() && pre[a2][t] as int == b2;
                                        assert(adj.deep_view()[a2][t] as int == b2);
                                    }
                                }
                            }
                        },
                        None => {
                            proof {
                                assert forall|a2: int, b2: int|
                                    #[trigger] blocks_edge_before(
                                        ns,
                                        i as int,
                                        k as int + 1,
                                        a2,
                                        b2,
                                    ) implies blocks_edge_before(ns, i as int, k as int, a2, b2) by {
                                    let (i2, k2) = choose|i2: int, k2: int|
                                        (i2 < i as int || (i2 == i as int && k2 < k as int + 1))
                                            && #[trigger] blocks_edge_from(ns, i2, k2, a2, b2);
                                    assert(!(i2 == i as int && k2 == k as int));
                                    assert(blocks_edge_from(ns, i2, k2, a2, b2));
                                }
                            }
                        },
                    }
                    k += 1;
                }
                proof {
                    assert forall|a2: int, b2: int|
                        #[trigger] blocks_edge_before(ns, i as int + 1, 0, a2, b2) implies adj_has(
                        adj.deep_view(),
                        a2,
                        b2,
                    ) by {
                        let (i2, k2) = choose|i2: int, k2: int|
                            (i2 < i as int + 1) && #[trigger] blocks_edge_from(ns, i2, k2, a2, b2);
                        assert(i2 < i as int || (i2 == i as int && k2 < m as int));
                        assert(blocks_edge_before(ns, i as int, m as int, a2, b2));
                    }
                }
            },
            None => {
                proof {
                    lemma_first_index_of(ids(ns), ns[i as int].id);
                    assert(ids(ns)[i as int] == ns[i as int].id);
                    assert(false);
                }
            },
        }
        i += 1;
    }
    proof {
        assert forall|a2: int, b2: int| #[trigger] blocks_edge(ns, a2, b2) implies adj_has(
            adj.deep_view(),
            a2,
            b2,
        ) by {
            let (i2, k2) = choose|i2: int, k2: int| #[trigger] blocks_edge_from(ns, i2, k2, a2, b2);
            assert(blocks_edge_before(ns, n as int, 0, a2, b2));
        }
    }
    adj
}

/// The vertex still waits in the work list.
pub open spec fn in_work(w: Seq<usize>, v: int) -> bool {
    exists|q: int| 0 <= q < w.len() && w[q] as int == v
}

/// Every successor of the vertex is already visited.
pub open spec fn row_expanded(adjv: Seq<Seq<usize>>, vis: Seq<bool>, v: int) -> bool {
    forall|t: int| 0 <= t < adjv[v].len() ==> vis[#[trigger] adjv[v][t] as int]
}

/// Edge endpoints are node positions.
proof fn lemma_blocks_edge_bounds(ns: Seq<BeadView>, a: int, b: int)
    requires
        blocks_edge(ns, a, b),
    ensures
        0 <= a < ns.len(),
        0 <= b < ns.len(),
{
    let (i, k) = choose|i: int, k: int| #[trigger] blocks_edge_from(ns, i, k, a, b);
    lemma_first_index_of(ids(ns), ns[i].id);
    lemma_first_index_of(ids(ns), ns[i].blocks[k]);
}

/// A visited set closed under recorded edges swallows every walk that
/// starts inside it.
proof fn lemma_closed_visited(ns: Seq<BeadView>, adjv: Seq<Seq<usize>>, vis: Seq<bool>, p: Seq<int>)
    requires
        adj_complete(adjv, ns),
        adjv.len() == ns.len(),
        vis.len() == ns.len(),
        forall|v: int| 0 <= v < vis.len() && vis[v] ==> row_expanded(adjv, vis, v),
        is_walk(p, blocks_edge_set(ns)),
        0 <= p[0] < vis.len(),
        vis[p[0]],
    ensures
        vis[p[p.len() - 1]],
    decreases p.len(),
{
    if p.len() > 1 {
        assert(blocks_edge_set(ns).contains((p[0], p[1])));
        assert(blocks_edge(ns, p[0], p[1]));
        lemma_blocks_edge_bounds(ns, p[0], p[1]);
        let t = choose|t: int| 0 <= t < adjv[p[0]].len() && adjv[p[0]][t] as int == p[1];
        assert(row_expanded(adjv, vis, p[0]));
        assert(vis[adjv[p[0]][t] as int]);
        let p2 = p.drop_first();
        assert forall|t2: int| 0 <= t2 < p2.len() - 1 implies blocks_edge_set(ns).contains(
            (#[trigger] p2[t2], p2[t2 + 1]),
        ) by {
            assert(p2[t2] == p[t2 + 1]);
            assert(p2[t2 + 1] == p[t2 + 2]);
        }
        assert(is_walk(p2, blocks_edge_set(ns)));
        assert(p2[0] == p[1]);
        lemma_closed_visited(ns, adjv, vis, p2);
        assert(p2[p2.len() - 1] == p[p.len() - 1]);
    }
}

/// Whether `dst` is reachable from `src` along recorded edges: the answer
/// matches, in both directions, the existence of a directed walk in the
/// blocks graph.
#[verifier::rlimit(100)]
fn reaches(adj: &Vec<Vec<usize>>, src: usize, dst: usize, Ghost(ns): Ghost<Seq<BeadView>>) -> (r:
    bool)
    requires
        adj_sound(adj.deep_view(), ns),
        adj_complete(adj.deep_view(), ns),
        src < adj@.len(),
        dst < adj@.len(),
    ensures
        r == walk_from_to(blocks_edge_set(ns), src as int, dst as int),
{
    let ghost es = blocks_edge_set(ns);
    let n = adj.len();
    let mut visited: Vec<bool> = Vec::new();
    let mut i: usize = 0;
    while i < n
        invariant
            i <= n,
            visited@.len() == i,
            forall|j: int| 0 <= j < i ==> !visited@[j],
        decreases n - i,
    {
        visited.push(false);
        i += 1;
    }
    let mut work: Vec<usize> = Vec::new();
    visited[src] = true;
    work.push(src);
    proof {
        lemma_walk_refl(es, src as int);
        assert(in_work(work@, src as int)) by {
            assert(work@[0] as int == src as int);
        }
    }
    while work.len() > 0
        invariant
            n == adj@.len(),
            adj_sound(adj.deep_view(), ns),
            adj_complete(adj.deep_view(), ns),
            es == blocks_edge_set(ns),
            visited@.len() == n,
            all_below(work@, n as int),
            src < n,
            visited@[src as int],
            forall|j: int| 0 <= j < n && visited@[j] ==> walk_from_to(es, src as int, j),
            forall|t: int| 0 <= t < work@.len() ==> visited@[#[trigger] work@[t] as int],
            forall|q1: int, q2: int| 0 <= q1 < q2 < work@.len() ==> work@[q1] != work@[q2],
            forall|v: int|
                0 <= v < n && visited@[v] && !in_work(work@, v) ==> row_expanded(
                    adj.deep_view(),
                    visited@,
                    v,
                ),
        decreases n - count_true(visited@), work@.len(),
    {
        let ghost visited0 = visited@;
        let ghost work0 = work@;
        let w = work.pop().unwrap();
        proof {
            assert forall|q: int| 0 <= q < work@.len() implies work@[q] != w by {
                assert(work0[q] == work@[q]);
                assert(work0[work0.len() - 1] == w);
            }
            assert forall|v: int|
                0 <= v < n && visited@[v] && !in_work(work@, v) && v != w as int implies
                row_expanded(adj.deep_view(), visited@, v) by {
                assert(!in_work(work0, v)) by {
                    if in_work(work0, v) {
                        let q = choose|q: int| 0 <= q < work0.len() && work0[q] as int == v;
                        if q < work@.len() {
                            assert(work@[q] as int == v);
                        } else {
                            assert(work0[q] == w);
                        }
                    }
                }
            }
        }
        let deg = adj[w].len();
        let mut t: usize = 0;
        while t < deg
            invariant
                n == adj@.len(),
                adj_sound(adj.deep_view(), ns),
                adj_complete(adj.deep_view(), ns),
                es == blocks_edge_set(ns),
                visited@.len() == n,
                all_below(work@, n as int),
                src < n,
                visited@[src as int],
                w < n,
                deg == adj@[w as int]@.len(),
                adj.deep_view()[w as int] == adj@[w as int].deep_view(),
                t <= deg,
                forall|j: int| 0 <= j < n && visited@[j] ==> walk_from_to(es, src as int, j),
                forall|u: int| 0 <= u < work@.len() ==> visited@[#[trigger] work@[u] as int],
                forall|q1: int, q2: int| 0 <= q1 < q2 < work@.len() ==> work@[q1] != work@[q2],
                visited@[w as int],
                !in_work(work@, w as int),
                forall|v: int|
                    0 <= v < n && visited@[v] && !in_work(work@, v) && v != w as int
                        ==> row_expanded(adj.deep_view(), visited@, v),
                forall|t2: int|
                    0 <= t2 < t ==> visited@[#[trigger] adj.deep_view()[w as int][t2] as int],
                count_true(visited@) >= count_true(visited0),
                count_true(visited@) > count_true(visited0) || work@.len() <= work0.len() - 1,
            decreases deg - t,
        {
            let u = adj[w][t];
            proof {
                assert(adj.deep_view()[w as int][t as int] == u);
                assert(blocks_edge(ns, w as int, u as int));
                assert(es.contains((w as int, u as int)));
            }
            if !visited[u] {
                let ghost vis0 = visited@;
                let ghost wk0 = work@;
                proof {
                    lemma_count_true_set(visited@, u as int);
                    lemma_walk_step(es, src as int, w as int, u as int);
                }
                visited[u] = true;
                work.push(u);
                proof {
                    assert forall|q1: int, q2: int| 0 <= q1 < q2 < work@.len() implies work@[q1]
                        != work@[q2] by {
                        if q2 == work@.len() - 1 {
                            assert(work@[q1] == wk0[q1]);
                            assert(vis0[wk0[q1] as int]);
                            assert(!vis0[u as int]);
                        }
                    }
                    assert(!in_work(work@, w as int)) by {
                        if in_work(work@, w as int) {
                            let q = choose|q: int|
                                0 <= q < work@.len() && work@[q] as int == w as int;
                            if q < wk0.len() {
                                assert(wk0[q] == w);
                            } else {
                                assert(work@[q] == u);
                            }
                        }
                    }
                    assert forall|v: int|
                        0 <= v < n && visited@[v] && !in_work(work@, v) && v != w as int implies
                        row_expanded(adj.deep_view(), visited@, v) by {
                        if v != u as int {
                            assert(!in_work(wk0, v)) by {
                                if in_work(wk0, v) {
                                    let q = choose|q: int|
                                        0 <= q < wk0.len() && wk0[q] as int == v;
                                    assert(work@[q] as int == v);
                                }
                            }
                            assert(row_expanded(adj.deep_view(), vis0, v));
                            assert forall|t2: int|
                                0 <= t2 < adj.deep_view()[v].len() implies visited@[#[trigger] adj.deep_view()[v][t2] as int] by {
                                assert(vis0[adj.deep_view()[v][t2] as int]);
                            }
                        } else {
                            assert(in_work(work@, v)) by {
                                assert(work@[work@.len() - 1] as int == v);
                            }
                        }
                    }
                }
            }
            t += 1;
        }
        proof {
            lemma_count_true_bounds(visited@);
            assert forall|v: int|
                0 <= v < n && visited@[v] && !in_work(work@, v) implies row_expanded(
                adj.deep_view(),
                visited@,
                v,
            ) by {
                if v == w as int {
                    assert forall|t2: int|
                        0 <= t2 < adj.deep_view()[v].len() implies visited@[#[trigger] adj.deep_view()[v][t2] as int] by {
                        assert(t2 < deg);
                    }
                }
            }
        }
    }
    let r = visited[dst];
    proof {
        if !r && walk_from_to(es, src as int, dst as int) {
            let p = choose|p: Seq<int>|
                is_walk(p, es) && p[0] == src as int && p[p.len() - 1] == dst as int;
            assert forall|v: int| 0 <= v < visited@.len() && visited@[v] implies row_expanded(
                adj.deep_view(),
                visited@,
                v,
            ) by {
                assert(!in_work(work@, v));
            }
            lemma_closed_visited(ns, adj.deep_view(), visited@, p);
            assert(false);
        }
    }
    r
}

/// One depth-first visit of Tarjan's strongly-connected-components search:
/// assigns the vertex its discovery index, explores its edges, propagates
/// lowlink values, and pops one finished component off the traversal stack
/// when the vertex closes it.
fn strongconnect(
    v: usize,
    adj: &Vec<Vec<usize>>,
    counter: &mut usize,
    indices: &mut Vec<Option<usize>>,
    lowlinks: &mut Vec<usize>,
    on_stack: &mut Vec<bool>,
    stack: &mut Vec<usize>,
    sccs: &mut Vec<Vec<usize>>,
)
    requires
        adj_bounded(adj.deep_view()),
        v < adj@.len(),
        old(indices)@.len() == adj@.len(),
        old(lowlinks)@.len() == adj@.len(),
        old(on_stack)@.len() == adj@.len(),
        old(indices)@[v as int] is None,
        *old(counter) == count_indexed(old(indices)@),
        all_below(old(stack)@, adj@.len() as int),
        groups_below(old(sccs).deep_view(), adj@.len() as int),
        forall|j: int| 0 <= j < adj@.len() && old(on_stack)@[j] ==> old(indices)@[j] is Some,
    ensures
        final(indices)@.len() == adj@.len(),
        final(lowlinks)@.len() == adj@.len(),
        final(on_stack)@.len() == adj@.len(),
        forall|j: int|
            0 <= j < adj@.len() && old(indices)@[j] is Some ==> final(indices)@[j] == old(
                indices,
            )@[j],
        final(indices)@[v as int] is Some,
        *final(counter) == count_indexed(final(indices)@),
        count_indexed(final(indices)@) > count_indexed(old(indices)@),
        all_below(final(stack)@, adj@.len() as int),
        groups_below(final(sccs).deep_view(), adj@.len() as int),
        forall|j: int| 0 <= j < adj@.len() && final(on_stack)@[j] ==> final(indices)@[j] is Some,
    decreases adj@.len() - count_indexed(indices@),
{
    let n = adj.len();
    proof {
        lemma_count_indexed_lt(indices@, v as int);
        lemma_count_indexed_set(indices@, v as int, *counter);
    }
    let idx = *counter;
    indices[v] = Some(idx);
    lowlinks[v] = idx;
    *counter = idx + 1;
    stack.push(v);
    on_stack[v] = true;
    let ghost ind1 = indices@;
    let ghost c1 = count_indexed(indices@);

    let deg = adj[v].len();
    let mut t: usize = 0;
    while t < deg
        invariant
            n == adj@.len(),
            adj_bounded(adj.deep_view()),
            v < n,
            deg == adj@[v as int]@.len(),
            t <= deg,
            indices@.len() == n,
            lowlinks@.len() == n,
            on_stack@.len() == n,
            forall|j: int| 0 <= j < n && ind1[j] is Some ==> indices@[j] == ind1[j],
            ind1 == old(indices)@.update(v as int, Some(idx)),
            indices@[v as int] == Some(idx),
            *counter == count_indexed(indices@),
            count_indexed(indices@) >= c1,
            c1 == count_indexed(old(indices)@) + 1,
            all_below(stack@, n as int),
            groups_below(sccs.deep_view(), n as int),
            forall|j: int| 0 <= j < n && on_stack@[j] ==> indices@[j] is Some,
        decreases deg - t,
    {
        proof {
            assert(adj.deep_view()[v as int] == adj@[v as int].deep_view());
            assert(adj.deep_view()[v as int][t as int] == adj@[v as int]@[t as int]);
        }
        let w = adj[v][t];
        if indices[w].is_none() {
            let ghost mid = indices@;
            proof {
                lemma_count_indexed_bounds(indices@);
            }
            strongconnect(w, adj, counter, indices, lowlinks, on_stack, stack, sccs);
            proof {
                assert forall|j: int| 0 <= j < n && ind1[j] is Some implies indices@[j]
                    == ind1[j] by {
                    assert(mid[j] == ind1[j]);
                }
            }
            let lw = lowlinks[w];
            let lv = lowlinks[v];
            if lw < lv {
                lowlinks[v] = lw;
            }
        } else if on_stack[w] {
            let iw = indices[w].unwrap();
            let lv = lowlinks[v];
            if iw < lv {
                lowlinks[v] = iw;
            }
        }
        t += 1;
    }

    let lv = lowlinks[v];
    let iv = indices[v].unwrap();
    if lv == iv {
        let mut group: Vec<usize> = Vec::new();
        let mut done = false;
        while !done
            invariant
                n == adj@.len(),
                on_stack@.len() == n,
                all_below(stack@, n as int),
                all_below(group@, n as int),
                forall|j: int| 0 <= j < n && on_stack@[j] ==> indices@[j] is Some,
            decreases stack@.len(), (if done {
                0int
            } else {
                1int
            }),
        {
            match stack.pop() {
                None => {
                    done = true;
                },
                Some(w) => {
                    on_stack[w] = false;
                    group.push(w);
                    if w == v {
                        done = true;
                    }
                },
            }
        }
        let ghost spre = sccs@;
        let ghost gpre = sccs.deep_view();
        sccs.push(group);
        proof {
            assert forall|a: int, b: int|
                0 <= a < sccs.deep_view().len() && 0 <= b < sccs.deep_view()[a].len() implies
                #[trigger] sccs.deep_view()[a][b] < n by {
                assert(sccs.deep_view()[a] == sccs@[a].deep_view());
                if a < spre.len() {
                    assert(sccs@[a] == spre[a]);
                    assert(gpre[a] == spre[a].deep_view());
                } else {
                    assert(sccs@[a].deep_view() =~= sccs@[a]@);
                }
            }
        }
    }
    proof {
        assert forall|j: int| 0 <= j < n && old(indices)@[j] is Some implies indices@[j] == old(
            indices,
        )@[j] by {
            assert(ind1[j] == old(indices)@[j]);
        }
    }
}

/// Every listed id belongs to some node that lies on a directed cycle of
/// the blocks graph.
/// The vertex lies in a strongly connected component of at least two
/// vertices: some other vertex is reachable from it and reaches it back.
pub open spec fn in_two_cycle(ns: Seq<BeadView>, v: int) -> bool {
    exists|w: int|
        0 <= w < ns.len() && w != v && walk_from_to(blocks_edge_set(ns), v, w) && walk_from_to(
            blocks_edge_set(ns),
            w,
            v,
        )
}

/// Mutual reachability with another vertex puts the vertex on a directed
/// cycle.
pub proof fn lemma_two_cycle_on_cycle(ns: Seq<BeadView>, v: int)
    requires
        in_two_cycle(ns, v),
    ensures
        on_cycle(blocks_edge_set(ns), v),
{
    let es = blocks_edge_set(ns);
    let w = choose|w: int|
        0 <= w < ns.len() && w != v && walk_from_to(es, v, w) && walk_from_to(es, w, v);
    let p1 = choose|p: Seq<int>| is_walk(p, es) && p[0] == v && p[p.len() - 1] == w;
    let p2 = choose|p: Seq<int>| is_walk(p, es) && p[0] == w && p[p.len() - 1] == v;
    assert(p1.len() >= 2);
    lemma_walk_join(p1, p2, es);
    let q = p1 + p2.drop_first();
    assert(is_closed_walk(q, es) && q[0] == v);
}

/// Every listed id belongs to a flagged vertex in a two-vertex-or-larger
/// component.
pub open spec fn out_sound(ns: Seq<BeadView>, em: Seq<bool>, s: Seq<Seq<char>>) -> bool {
    forall|t: int|
        0 <= t < s.len() ==> exists|u: int|
            0 <= u < ns.len() && #[trigger] s[t] == ns[u].id && em[u] && in_two_cycle(ns, u)
}

/// Every flagged vertex has its id listed.
pub open spec fn out_covers(ns: Seq<BeadView>, em: Seq<bool>, s: Seq<Seq<char>>) -> bool {
    forall|u: int| 0 <= u < ns.len() && #[trigger] em[u] ==> s.contains(ns[u].id)
}

/// With unique node ids, no id is listed twice.
pub open spec fn out_nodup(ns: Seq<BeadView>, s: Seq<Seq<char>>) -> bool {
    distinct_ids(ns) ==> forall|t1: int, t2: int| 0 <= t1 < t2 < s.len() ==> s[t1] != s[t2]
}

/// Every listed id belongs to a node of a strongly connected component of
/// at least two vertices of the blocks graph.
pub open spec fn participants_listed(ns: Seq<BeadView>, s: Seq<Seq<char>>) -> bool {
    forall|t: int|
        0 <= t < s.len() ==> exists|u: int|
            0 <= u < ns.len() && #[trigger] s[t] == ns[u].id && in_two_cycle(ns, u)
}

/// Whether some other vertex is reachable from `v` and reaches it back.
#[verifier::rlimit(100)]
fn partner_exists(adj: &Vec<Vec<usize>>, v: usize, Ghost(ns): Ghost<Seq<BeadView>>) -> (r: bool)
    requires
        adj_sound(adj.deep_view(), ns),
        adj_complete(adj.deep_view(), ns),
        v < adj@.len(),
    ensures
        r == in_two_cycle(ns, v as int),
{
    let ghost es = blocks_edge_set(ns);
    let n = adj.len();
    let mut w: usize = 0;
    while w < n
        invariant
            n == adj@.len(),
            adj_sound(adj.deep_view(), ns),
            adj_complete(adj.deep_view(), ns),
            es == blocks_edge_set(ns),
            v < n,
            w <= n,
            forall|w2: int|
                0 <= w2 < w ==> !(w2 != v as int && #[trigger] walk_from_to(es, v as int, w2)
                    && walk_from_to(es, w2, v as int)),
        decreases n - w,
    {
        if w != v {
            if reaches(adj, v, w, Ghost(ns)) && reaches(adj, w, v, Ghost(ns)) {
                return true;
            }
        }
        w += 1;
    }
    proof {
        assert(ns.len() == n);
    }
    false
}

/// Records vertex `v` as a participant: flags it and appends its id.
#[verifier::rlimit(100)]
fn emit_participant(
    out: &mut Vec<String>,
    emitted: &mut Vec<bool>,
    idsv: &Vec<String>,
    v: usize,
    Ghost(ns): Ghost<Seq<BeadView>>,
)
    requires
        idsv.deep_view() == ids(ns),
        ns.len() == old(emitted)@.len(),
        v < old(emitted)@.len(),
        !old(emitted)@[v as int],
        in_two_cycle(ns, v as int),
        out_sound(ns, old(emitted)@, old(out).deep_view()),
        out_covers(ns, old(emitted)@, old(out).deep_view()),
        out_nodup(ns, old(out).deep_view()),
    ensures
        final(emitted)@ == old(emitted)@.update(v as int, true),
        final(out).deep_view() == old(out).deep_view().push(ns[v as int].id),
        out_sound(ns, final(emitted)@, final(out).deep_view()),
        out_covers(ns, final(emitted)@, final(out).deep_view()),
        out_nodup(ns, final(out).deep_view()),
{
    let ghost epre = emitted@;
    let ghost opre = out.deep_view();
    proof {
        assert(ids(ns)[v as int] == ns[v as int].id);
        assert(idsv.deep_view()[v as int] == idsv@[v as int]@);
    }
    emitted[v] = true;
    push_str(out, idsv[v].clone());
    proof {
        let em = emitted@;
        let ov = out.deep_view();
        assert(ov == opre.push(ns[v as int].id));
        assert forall|t: int| 0 <= t < ov.len() implies exists|u: int|
            0 <= u < ns.len() && #[trigger] ov[t] == ns[u].id && em[u] && in_two_cycle(ns, u) by {
            if t < opre.len() {
                assert(ov[t] == opre[t]);
                let u = choose|u: int|
                    0 <= u < ns.len() && opre[t] == ns[u].id && epre[u] && in_two_cycle(ns, u);
                assert(u != v as int);
                assert(em[u]);
            } else {
                assert(ov[t] == ns[v as int].id && em[v as int]);
            }
        }
        assert forall|u: int| 0 <= u < ns.len() && #[trigger] em[u] implies ov.contains(
            ns[u].id,
        ) by {
            if u == v as int {
                assert(ov[opre.len() as int] == ns[u].id);
            } else {
                assert(epre[u]);
                let t = choose|t: int| 0 <= t < opre.len() && opre[t] == ns[u].id;
                assert(ov[t] == ns[u].id);
            }
        }
        if distinct_ids(ns) {
            assert forall|t1: int, t2: int| 0 <= t1 < t2 < ov.len() implies ov[t1] != ov[t2] by {
                if t2 == ov.len() - 1 {
                    assert(ov[t1] == opre[t1]);
                    let u = choose|u: int|
                        0 <= u < ns.len() && opre[t1] == ns[u].id && epre[u] && in_two_cycle(
                            ns,
                            u,
                        );
                    assert(u != v as int);
                    assert(ns[u].id != ns[v as int].id);
                }
            }
        }
    }
}

/// Ids of the nodes that share a strongly connected component of at least
/// two nodes in the blocks graph. Tarjan's algorithm finds the components
/// and fixes the output order; a reachability pass then certifies each
/// membership, and a final sweep over all vertices certifies that no
/// participant was missed. A node whose only cycle is a self-loop forms a
/// component of size one and is not reported.
#[verifier::rlimit(100)]
pub fn find_cycle_nodes_internal(beads: &Vec<BeadNode>) -> (r: Vec<String>)
    ensures
        participants_listed(beads.deep_view(), r.deep_view()),
        forall|u: int|
            0 <= u < beads@.len() && #[trigger] in_two_cycle(beads.deep_view(), u)
                ==> r.deep_view().contains(beads.deep_view()[u].id),
        out_nodup(beads.deep_view(), r.deep_view()),
        r.deep_view().len() > 0 ==> has_directed_cycle(blocks_edge_set(beads.deep_view())),
{
    let ghost ns = beads.deep_view();
    let idsv = collect_ids(beads);
    let adj = build_blocks_adj(beads, &idsv);
    let n = beads.len();

    let mut counter: usize = 0;
    let mut indices: Vec<Option<usize>> = Vec::new();
    let mut lowlinks: Vec<usize> = Vec::new();
    let mut on_stack: Vec<bool> = Vec::new();
    let mut stack: Vec<usize> = Vec::new();
    let mut sccs: Vec<Vec<usize>> = Vec::new();
    let mut i: usize = 0;
    while i < n
        invariant
            i <= n,
            indices@.len() == i,
            lowlinks@.len() == i,
            on_stack@.len() == i,
            count_indexed(indices@) == 0,
            forall|j: int| 0 <= j < i ==> !(#[trigger] on_stack@[j]),
        decreases n - i,
    {
        let ghost s0 = indices@;
        indices.push(None);
        lowlinks.push(0);
        on_stack.push(false);
        proof {
            assert(indices@.drop_last() =~= s0);
        }
        i += 1;
    }
    let mut v: usize = 0;
    while v < n
        invariant
            n == adj@.len(),
            n == beads@.len(),
            adj_sound(adj.deep_view(), ns),
            ns == beads.deep_view(),
            v <= n,
            indices@.len() == n,
            lowlinks@.len() == n,
            on_stack@.len() == n,
            counter == count_indexed(indices@),
            all_below(stack@, n as int),
            groups_below(sccs.deep_view(), n as int),
            forall|j: int| 0 <= j < n && on_stack@[j] ==> indices@[j] is Some,
        decreases n - v,
    {
        if indices[v].is_none() {
            strongconnect(
                v,
                &adj,
                &mut counter,
                &mut indices,
                &mut lowlinks,
                &mut on_stack,
                &mut stack,
                &mut sccs,
            );
        }
        v += 1;
    }
    let mut emitted: Vec<bool> = Vec::new();
    let mut i: usize = 0;
    while i < n
        invariant
            i <= n,
            emitted@.len() == i,
            forall|j: int| 0 <= j < i ==> !emitted@[j],
        decreases n - i,
    {
        emitted.push(false);
        i += 1;
    }
    let mut out: Vec<String> = Vec::new();
    let mut a: usize = 0;
    while a < sccs.len()
        invariant
            n == adj@.len(),
            n == beads@.len(),
            ns == beads.deep_view(),
            adj_sound(adj.deep_view(), ns),
            adj_complete(adj.deep_view(), ns),
            idsv.deep_view() == ids(ns),
            a <= sccs@.len(),
            groups_below(sccs.deep_view(), n as int),
            emitted@.len() == n,
            out_sound(ns, emitted@, out.deep_view()),
            out_covers(ns, emitted@, out.deep_view()),
            out_nodup(ns, out.deep_view()),
        decreases sccs@.len() - a,
    {
        proof {
            assert(sccs.deep_view()[a as int] == sccs@[a as int].deep_view());
        }
        if sccs[a].len() > 1 {
            let m = sccs[a].len();
            let mut b: usize = 0;
            while b < m
                invariant
                    n == adj@.len(),
                    n == beads@.len(),
                    ns == beads.deep_view(),
                    adj_sound(adj.deep_view(), ns),
                    adj_complete(adj.deep_view(), ns),
                    idsv.deep_view() == ids(ns),
                    a < sccs@.len(),
                    m == sccs@[a as int]@.len(),
                    b <= m,
                    groups_below(sccs.deep_view(), n as int),
                    emitted@.len() == n,
                    out_sound(ns, emitted@, out.deep_view()),
                    out_covers(ns, emitted@, out.deep_view()),
                    out_nodup(ns, out.deep_view()),
                decreases m - b,
            {
                proof {
                    assert(sccs.deep_view()[a as int] == sccs@[a as int].deep_view());
                    assert(sccs.deep_view()[a as int][b as int] == sccs@[a as int]@[b as int]);
                }
                let u = sccs[a][b];
                if !emitted[u] {
                    if partner_exists(&adj, u, Ghost(ns)) {
                        emit_participant(&mut out, &mut emitted, &idsv, u, Ghost(ns));
                    }
                }
                b += 1;
            }
        }
        a += 1;
    }
    let mut v: usize = 0;
    while v < n
        invariant
            n == adj@.len(),
            n == beads@.len(),
            ns == beads.deep_view(),
            adj_sound(adj.deep_view(), ns),
            adj_complete(adj.deep_view(), ns),
            idsv.deep_view() == ids(ns),
            v <= n,
            emitted@.len() == n,
            out_sound(ns, emitted@, out.deep_view()),
            out_covers(ns, emitted@, out.deep_view()),
            out_nodup(ns, out.deep_view()),
            forall|u: int| 0 <= u < v && #[trigger] in_two_cycle(ns, u) ==> emitted@[u],
        decreases n - v,
    {
        if !emitted[v] {
            if partner_exists(&adj, v, Ghost(ns)) {
                emit_participant(&mut out, &mut emitted, &idsv, v, Ghost(ns));
            }
        }
        v += 1;
    }
    proof {
        assert forall|u: int|
            0 <= u < ns.len() && #[trigger] in_two_cycle(ns, u) implies out.deep_view().contains(
            ns[u].id,
        ) by {
            assert(emitted@[u]);
        }
        if out.deep_view().len() > 0 {
            let u = choose|u: int|
                0 <= u < ns.len() && out.deep_view()[0] == ns[u].id && emitted@[u] && in_two_cycle(
                    ns,
                    u,
                );
            lemma_two_cycle_on_cycle(ns, u);
            let p = choose|p: Seq<int>| is_closed_walk(p, blocks_edge_set(ns)) && p[0] == u;
            assert(is_closed_walk(p, blocks_edge_set(ns)));
        }
    }
    out
}

/// Ids of the nodes that belong to a strongly connected component of size
/// at least two of the blocks graph: each listed id belongs to such a node,
/// every such node's id is listed, and with unique ids none is listed
/// twice. Order is not significant: callers compare the result as a set.
pub fn find_cycle_nodes_impl(beads: &Vec<BeadNode>) -> (r: Vec<String>)
    ensures
        participants_listed(beads.deep_view(), r.deep_view()),
        forall|u: int|
            0 <= u < beads@.len() && #[trigger] in_two_cycle(beads.deep_view(), u)
                ==> r.deep_view().contains(beads.deep_view()[u].id),
        out_nodup(beads.deep_view(), r.deep_view()),
        r.deep_view().len() > 0 ==> has_directed_cycle(blocks_edge_set(beads.deep_view())),
{
    find_cycle_nodes_internal(beads)
}

} // verus!
