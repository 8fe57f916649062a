use vstd::prelude::*;
use crate::model::{BeadNode, BeadView, ids, first_index_of, lemma_first_index_of, find_index,
    collect_ids, push_str};
use crate::edges::{bb_edge_from, bb_edge, bb_edge_set, has_directed_cycle, dedup_ids,
    dedup_ids_upto, lemma_dedup_contains};
use crate::extgraph::{graph_new, graph_add_node, graph_add_edge, graph_is_cyclic, graph_nodes,
    graph_edge_set, graph_edge_count};

verus! {

/// Count of blocker references among the first `i` nodes.
pub open spec fn blocker_refs_upto(ns: Seq<BeadView>, i: int) -> int
    decreases i,
{
    if i <= 0 {
        0
    } else {
        blocker_refs_upto(ns, i - 1) + ns[i - 1].blocked_by.len()
    }
}

/// Count of all blocker references in the node set.
pub open spec fn total_blocker_refs(ns: Seq<BeadView>) -> int {
    blocker_refs_upto(ns, ns.len() as int)
}

proof fn lemma_blocker_refs_mono(ns: Seq<BeadView>, i: int, j: int)
    requires
        0 <= i <= j,
    ensures
        blocker_refs_upto(ns, i) <= blocker_refs_upto(ns, j),
    decreases j,
{
    if i < j {
        lemma_blocker_refs_mono(ns, i, j - 1);
        assert(ns[j - 1].blocked_by.len() >= 0);
    }
}

/// An edge already recorded when the scan stands at blocker `k0` of node
/// `i0`.
pub open spec fn bb_edge_before(ns: Seq<BeadView>, i0: int, k0: int, a: int, b: int) -> bool {
    exists|i: int, k: int|
        (i < i0 || (i == i0 && k < k0)) && #[trigger] bb_edge_from(ns, i, k, a, b)
}

/// The dependency graph of the node set: one vertex per distinct id in
/// first-seen order (records sharing an id collapse into one vertex, the
/// first record defining it), and an edge from blocker to blocked for every
/// `blocked_by` reference of a defining record that resolves to a known id.
/// Dangling references are dropped silently.
pub fn build_graph(beads: &Vec<BeadNode>) -> (g: petgraph::graph::DiGraph<String, ()>)
    requires
        beads@.len() < 0xFFFF_FFFF,
        total_blocker_refs(beads.deep_view()) < 0xFFFF_FFFF,
    ensures
        graph_nodes(g) == dedup_ids(beads.deep_view()),
        graph_edge_set(g) == bb_edge_set(beads.deep_view()),
{
    let ghost ns = beads.deep_view();
    let n = beads.len();
    let idsv = collect_ids(beads);
    let mut uids: Vec<String> = Vec::new();
    let mut i: usize = 0;
    while i < n
        invariant
            n == beads@.len(),
            ns == beads.deep_view(),
            i <= n,
            uids@.len() <= i,
            uids.deep_view() == dedup_ids_upto(ns, i as int),
        decreases n - i,
    {
        proof {
            assert(beads.deep_view()[i as int] == beads@[i as int]@);
        }
        match find_index(&uids, &beads[i].id) {
            Some(j) => {
                proof {
                    lemma_first_index_of(uids.deep_view(), ns[i as int].id);
                    assert(uids.deep_view().contains(ns[i as int].id));
                }
            },
            None => {
                proof {
                    lemma_first_index_of(uids.deep_view(), ns[i as int].id);
                    if uids.deep_view().contains(ns[i as int].id) {
                        let j = choose|j: int|
                            0 <= j < uids.deep_view().len() && uids.deep_view()[j] == ns[
                                i as int
                            ].id;
                    }
                    assert(!uids.deep_view().contains(ns[i as int].id));
                }
                let ghost du0 = uids.deep_view();
                push_str(&mut uids, beads[i].id.clone());
                proof {
                    assert(uids@.len() == uids.deep_view().len());
                    assert(uids.deep_view().len() == du0.len() + 1);
                }
            },
        }
        i += 1;
    }
    let un = uids.len();
    let mut g = graph_new();
    let mut j: usize = 0;
    while j < un
        invariant
            un == uids@.len(),
            un < 0xFFFF_FFFF,
            uids.deep_view() == dedup_ids(ns),
            j <= un,
            graph_nodes(g) == dedup_ids(ns).take(j as int),
            graph_edge_set(g) == Set::<(int, int)>::empty(),
            graph_edge_count(g) == 0,
        decreases un - j,
    {
        proof {
            assert(uids.deep_view()[j as int] == uids@[j as int]@);
            assert(dedup_ids(ns).take(j as int).len() == j as int);
        }
        let _ = graph_add_node(&mut g, uids[j].clone());
        proof {
            assert(graph_nodes(g) =~= dedup_ids(ns).take(j as int + 1));
        }
        j += 1;
    }
    proof {
        assert(dedup_ids(ns).take(un as int) =~= dedup_ids(ns));
    }
    let mut i: usize = 0;
    while i < n
        invariant
            n == beads@.len(),
            ns == beads.deep_view(),
            idsv.deep_view() == ids(ns),
            uids.deep_view() == dedup_ids(ns),
            un == uids@.len(),
            graph_nodes(g) == dedup_ids(ns),
            total_blocker_refs(ns) < 0xFFFF_FFFF,
            i <= n,
            graph_edge_set(g) == Set::new(
                |e: (int, int)| bb_edge_before(ns, i as int, 0, e.0, e.1),
            ),
            graph_edge_count(g) <= blocker_refs_upto(ns, i as int),
        decreases n - i,
    {
        proof {
            assert(beads.deep_view()[i as int] == beads@[i as int]@);
            assert(ns[i as int].blocked_by == beads@[i as int].blocked_by.deep_view());
        }
        match find_index(&idsv, &beads[i].id) {
            Some(fi) => if fi != i {
                proof {
                    assert forall|a2: int, b2: int|
                        bb_edge_before(ns, i as int + 1, 0, a2, b2) <==> bb_edge_before(
                        ns,
                        i as int,
                        0,
                        a2,
                        b2,
                    ) by {
                        if bb_edge_before(ns, i as int + 1, 0, a2, b2) {
                            let (i2, k2) = choose|i2: int, k2: int|
                                (i2 < i as int + 1) && #[trigger] bb_edge_from(ns, i2, k2, a2, b2);
                            assert(i2 != i as int);
                            assert(bb_edge_before(ns, i as int, 0, a2, b2));
                        }
                        if bb_edge_before(ns, i as int, 0, a2, b2) {
                            let (i2, k2) = choose|i2: int, k2: int|
                                (i2 < i as int) && #[trigger] bb_edge_from(ns, i2, k2, a2, b2);
                            assert(bb_edge_before(ns, i as int + 1, 0, a2, b2));
                        }
                    }
                    assert(graph_edge_set(g) =~= Set::new(
                        |e: (int, int)| bb_edge_before(ns, i as int + 1, 0, e.0, e.1),
                    ));
                }
            } else {
                proof {
                    lemma_dedup_contains(ns, i as int);
                    lemma_first_index_of(dedup_ids(ns), ns[i as int].id);
                }
                let to = match find_index(&uids, &beads[i].id) {
                    Some(to) => to,
                    None => {
                        proof {
                            assert(false);
                        }
                        0
                    },
                };
                let m = beads[i].blocked_by.len();
                let mut k: usize = 0;
                while k < m
                    invariant
                        n == beads@.len(),
                        ns == beads.deep_view(),
                        idsv.deep_view() == ids(ns),
                        graph_nodes(g) == dedup_ids(ns),
                        total_blocker_refs(ns) < 0xFFFF_FFFF,
                        i < n,
                        m == ns[i as int].blocked_by.len(),
                        ns[i as int].blocked_by == beads@[i as int].blocked_by.deep_view(),
                        uids.deep_view() == dedup_ids(ns),
                        un == uids@.len(),
                        first_index_of(ids(ns), ns[i as int].id) == Some(i as int),
                        first_index_of(dedup_ids(ns), ns[i as int].id) == Some(to as int),
                        to < un,
                        k <= m,
                        graph_edge_set(g) == Set::new(
                            |e: (int, int)| bb_edge_before(ns, i as int, k as int, e.0, e.1),
                        ),
                        graph_edge_count(g) <= blocker_refs_upto(ns, i as int) + k,
                    decreases m - k,
                {
                    proof {
                        assert(beads@[i as int].blocked_by.deep_view()[k as int] == beads@[
                            i as int
                        ].blocked_by@[k as int]@);
                    }
                    match find_index(&uids, &beads[i].blocked_by[k]) {
                        Some(from) => {
                            proof {
                                lemma_first_index_of(
                                    dedup_ids(ns),
                                    ns[i as int].blocked_by[k as int],
                                );
                                lemma_blocker_refs_mono(ns, i as int + 1, n as int);
                                assert(blocker_refs_upto(ns, i as int + 1) == blocker_refs_upto(
                                    ns,
                                    i as int,
                                ) + m);
                            }
                            graph_add_edge(&mut g, from, to);
                            proof {
                                assert(bb_edge_from(
                                    ns,
                                    i as int,
                                    k as int,
                                    from as int,
                                    to as int,
                                ));
                                assert forall|a2: int, b2: int|
                                    bb_edge_before(ns, i as int, k as int + 1, a2, b2) <==> (
                                    bb_edge_before(ns, i as int, k as int, a2, b2) || (a2
                                        == from as int && b2 == to as int)) by {
                                    if bb_edge_before(ns, i as int, k as int + 1, a2, b2) {
                                        let (i2, k2) = choose|i2: int, k2: int|
                                            (i2 < i as int || (i2 == i as int && k2 < k as int
                                                + 1)) && #[trigger] bb_edge_from(ns, i2, k2, a2, b2);
                                        if i2 == i as int && k2 == k as int {
                                            assert(a2 == from as int && b2 == to as int);
                                        } else {
                                            assert(bb_edge_before(ns, i as int, k as int, a2, b2));
                                        }
                                    }
                                    if bb_edge_before(ns, i as int, k as int, a2, b2) {
                                        let (i2, k2) = choose|i2: int, k2: int|
                                            (i2 < i as int || (i2 == i as int && k2 < k as int))
                                                && #[trigger] bb_edge_from(ns, i2, k2, a2, b2);
                                        assert(bb_edge_from(ns, i2, k2, a2, b2));
                                        assert(bb_edge_before(ns, i as int, k as int + 1, a2, b2));
                                    }
                                }
                                assert(graph_edge_set(g) =~= Set::new(
                                    |e: (int, int)|
                                        bb_edge_before(ns, i as int, k as int + 1, e.0, e.1),
                                ));
                            }
                        },
                        None => {
                            proof {
                                assert forall|a2: int, b2: int|
                                    bb_edge_before(ns, i as int, k as int + 1, a2, b2) <==>
                                    bb_edge_before(ns, i as int, k as int, a2, b2) by {
                                    if bb_edge_before(ns, i as int, k as int + 1, a2, b2) {
                                        let (i2, k2) = choose|i2: int, k2: int|
                                            (i2 < i as int || (i2 == i as int && k2 < k as int
                                                + 1)) && #[trigger] bb_edge_from(ns, i2, k2, a2, b2);
                                        assert(!(i2 == i as int && k2 == k as int));
                                        assert(bb_edge_before(ns, i as int, k as int, a2, b2));
                                    }
                                    if bb_edge_before(ns, i as int, k as int, a2, b2) {
                                        let (i2, k2) = choose|i2: int, k2: int|
                                            (i2 < i as int || (i2 == i as int && k2 < k as int))
                                                && #[trigger] bb_edge_from(ns, i2, k2, a2, b2);
                                        assert(bb_edge_before(ns, i as int, k as int + 1, a2, b2));
                                    }
                                }
                                assert(graph_edge_set(g) =~= Set::new(
                                    |e: (int, int)|
                                        bb_edge_before(ns, i as int, k as int + 1, e.0, e.1),
                                ));
                            }
                        },
                    }
                    k += 1;
                }
                proof {
                    assert forall|a2: int, b2: int|
                        bb_edge_before(ns, i as int, m as int, a2, b2) <==> bb_edge_before(
                        ns,
                        i as int + 1,
                        0,
                        a2,
                        b2,
                    ) by {
                        if bb_edge_before(ns, i as int, m as int, a2, b2) {
                            let (i2, k2) = choose|i2: int, k2: int|
                                (i2 < i as int || (i2 == i as int && k2 < m as int))
                                    && #[trigger] bb_edge_from(ns, i2, k2, a2, b2);
                            assert(bb_edge_before(ns, i as int + 1, 0, a2, b2));
                        }
                        if bb_edge_before(ns, i as int + 1, 0, a2, b2) {
                            let (i2, k2) = choose|i2: int, k2: int|
                                (i2 < i as int + 1) && #[trigger] bb_edge_from(ns, i2, k2, a2, b2);
                            assert(bb_edge_before(ns, i as int, m as int, a2, b2));
                        }
                    }
                    assert(graph_edge_set(g) =~= Set::new(
                        |e: (int, int)| bb_edge_before(ns, i as int + 1, 0, e.0, e.1),
                    ));
                    assert(blocker_refs_upto(ns, i as int + 1) == blocker_refs_upto(ns, i as int)
                        + m);
                }
            },
            None => {
                proof {
                    lemma_first_index_of(ids(ns), ns[i as int].id);
                    assert(ids(ns)[i as int] == ns[i as int].id);
                    assert(false);
                }
            },
        }
        i += 1;
    }
    proof {
        assert forall|e: (int, int)|
            bb_edge_before(ns, n as int, 0, e.0, e.1) <==> bb_edge(ns, e.0, e.1) by {
            if bb_edge_before(ns, n as int, 0, e.0, e.1) {
                let (i2, k2) = choose|i2: int, k2: int|
                    (i2 < n as int) && #[trigger] bb_edge_from(ns, i2, k2, e.0, e.1);
                assert(bb_edge(ns, e.0, e.1));
            }
            if bb_edge(ns, e.0, e.1) {
                let (i2, k2) = choose|i2: int, k2: int| #[trigger] bb_edge_from(ns, i2, k2, e.0, e.1);
                assert(i2 < n as int);
                assert(bb_edge_before(ns, n as int, 0, e.0, e.1));
            }
        }
        assert(graph_edge_set(g) =~= bb_edge_set(ns));
    }
    g
}

/// Whether the dependency graph, oriented blocker to blocked and derived
/// from the `blocked_by` lists, contains a directed cycle.
pub fn has_cycle_impl(beads: &Vec<BeadNode>) -> (r: bool)
    requires
        beads@.len() < 0xFFFF_FFFF,
        total_blocker_refs(beads.deep_view()) < 0xFFFF_FFFF,
    ensures
        r == has_directed_cycle(bb_edge_set(beads.deep_view())),
{
    let g = build_graph(beads);
    graph_is_cyclic(&g)
}

} // verus!
