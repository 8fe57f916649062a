use vstd::prelude::*;
use crate::model::{BeadView, ids, first_index_of, lemma_first_index_of, lemma_resolve_own_id};

verus! {

/// The distinct ids, each at its first appearance, in input order: records
/// sharing an id collapse into one vertex.
pub open spec fn dedup_ids_upto(ns: Seq<BeadView>, i: int) -> Seq<Seq<char>>
    decreases i,
{
    if i <= 0 {
        Seq::empty()
    } else {
        let p = dedup_ids_upto(ns, i - 1);
        if p.contains(ns[i - 1].id) {
            p
        } else {
            p.push(ns[i - 1].id)
        }
    }
}

/// The vertex set of the dependency graph: the distinct ids in first-seen
/// order.
pub open spec fn dedup_ids(ns: Seq<BeadView>) -> Seq<Seq<char>> {
    dedup_ids_upto(ns, ns.len() as int)
}

/// With unique ids no record collapses: the vertex list is the id list.
pub proof fn lemma_distinct_dedup(ns: Seq<BeadView>)
    requires
        distinct_ids(ns),
    ensures
        dedup_ids(ns) == ids(ns),
{
    lemma_distinct_dedup_upto(ns, ns.len() as int);
    assert(ids(ns).take(ns.len() as int) =~= ids(ns));
}

proof fn lemma_distinct_dedup_upto(ns: Seq<BeadView>, i: int)
    requires
        distinct_ids(ns),
        0 <= i <= ns.len(),
    ensures
        dedup_ids_upto(ns, i) == ids(ns).take(i),
    decreases i,
{
    if i > 0 {
        lemma_distinct_dedup_upto(ns, i - 1);
        let p = ids(ns).take(i - 1);
        if p.contains(ns[i - 1].id) {
            let j = choose|j: int| 0 <= j < p.len() && p[j] == ns[i - 1].id;
            assert(ids(ns)[j] == ns[j].id);
            assert(false);
        }
        assert(p.push(ns[i - 1].id) =~= ids(ns).take(i));
    }
}

/// Every record's id has a collapsed vertex.
pub proof fn lemma_dedup_contains(ns: Seq<BeadView>, i: int)
    requires
        0 <= i < ns.len(),
    ensures
        dedup_ids(ns).contains(ns[i].id),
{
    lemma_dedup_contains_upto(ns, i, ns.len() as int);
}

proof fn lemma_dedup_contains_upto(ns: Seq<BeadView>, i: int, b: int)
    requires
        0 <= i < b <= ns.len(),
    ensures
        dedup_ids_upto(ns, b).contains(ns[i].id),
    decreases b,
{
    if b == i + 1 {
        let p = dedup_ids_upto(ns, i);
        if !p.contains(ns[i].id) {
            assert(dedup_ids_upto(ns, b)[p.len() as int] == ns[i].id);
        }
    } else {
        lemma_dedup_contains_upto(ns, i, b - 1);
        let p = dedup_ids_upto(ns, b - 1);
        let j = choose|j: int| 0 <= j < p.len() && p[j] == ns[i].id;
        if !p.contains(ns[b - 1].id) {
            assert(dedup_ids_upto(ns, b)[j] == ns[i].id);
        }
    }
}

/// Edge recorded by the blocker lists: the defining record of an id (its
/// first occurrence) names `blocked_by[k]`, the blocker collapses to vertex
/// `a`, the record's own id to vertex `b`, and the edge runs from the
/// blocker to the blocked node. Later records of a repeated id contribute
/// nothing: first-seen attributes define the collapsed vertex.
pub open spec fn bb_edge_from(ns: Seq<BeadView>, i: int, k: int, a: int, b: int) -> bool {
    &&& 0 <= i < ns.len()
    &&& first_index_of(ids(ns), ns[i].id) == Some(i)
    &&& 0 <= k < ns[i].blocked_by.len()
    &&& first_index_of(dedup_ids(ns), ns[i].blocked_by[k]) == Some(a)
    &&& first_index_of(dedup_ids(ns), ns[i].id) == Some(b)
}

/// Some blocker list records an edge from position `a` to position `b`.
pub open spec fn bb_edge(ns: Seq<BeadView>, a: int, b: int) -> bool {
    exists|i: int, k: int| bb_edge_from(ns, i, k, a, b)
}

/// All edges derived from the `blocked_by` lists, blocker to blocked.
pub open spec fn bb_edge_set(ns: Seq<BeadView>) -> Set<(int, int)> {
    Set::new(|e: (int, int)| bb_edge(ns, e.0, e.1))
}

/// Edge recorded by the blocks lists: node `i` names `blocks[k]`, the node
/// itself resolves to position `a`, the blocked id to position `b`.
pub open spec fn blocks_edge_from(ns: Seq<BeadView>, i: int, k: int, a: int, b: int) -> bool {
    &&& 0 <= i < ns.len()
    &&& 0 <= k < ns[i].blocks.len()
    &&& first_index_of(ids(ns), ns[i].id) == Some(a)
    &&& first_index_of(ids(ns), ns[i].blocks[k]) == Some(b)
}

/// Some blocks list records an edge from position `a` to position `b`.
pub open spec fn blocks_edge(ns: Seq<BeadView>, a: int, b: int) -> bool {
    exists|i: int, k: int| blocks_edge_from(ns, i, k, a, b)
}

/// All edges derived from the `blocks` lists, blocking to blocked.
pub open spec fn blocks_edge_set(ns: Seq<BeadView>) -> Set<(int, int)> {
    Set::new(|e: (int, int)| blocks_edge(ns, e.0, e.1))
}

/// A directed walk: at least one vertex, each consecutive pair an edge.
pub open spec fn is_walk(p: Seq<int>, es: Set<(int, int)>) -> bool {
    p.len() >= 1 && (forall|t: int| 0 <= t < p.len() - 1 ==> es.contains((#[trigger] p[t], p[t + 1])))
}

/// A directed walk that returns to its start and uses at least one edge.
pub open spec fn is_closed_walk(p: Seq<int>, es: Set<(int, int)>) -> bool {
    p.len() >= 2 && p[0] == p[p.len() - 1] && is_walk(p, es)
}

/// The edge set contains a directed cycle.
pub open spec fn has_directed_cycle(es: Set<(int, int)>) -> bool {
    exists|p: Seq<int>| is_closed_walk(p, es)
}

/// Vertex `v` lies on a directed cycle.
pub open spec fn on_cycle(es: Set<(int, int)>, v: int) -> bool {
    exists|p: Seq<int>| is_closed_walk(p, es) && p[0] == v
}

/// No two nodes share an id.
pub open spec fn distinct_ids(ns: Seq<BeadView>) -> bool {
    forall|p: int, q: int| 0 <= p < q < ns.len() ==> ns[p].id != ns[q].id
}

/// The two dependency fields record the same relation: node `j` appears in
/// node `i`'s blocker list exactly when node `i` appears in node `j`'s
/// blocks list.
pub open spec fn consistent_edges(ns: Seq<BeadView>) -> bool {
    forall|i: int, j: int|
        0 <= i < ns.len() && 0 <= j < ns.len() ==> (ns[i].blocked_by.contains(ns[j].id)
            <==> ns[j].blocks.contains(ns[i].id))
}

/// With unique ids, an edge of the blocker graph runs from `a` to `b`
/// exactly when node `b` lists node `a`'s id as a blocker.
pub proof fn lemma_bb_edge_characterized(ns: Seq<BeadView>, a: int, b: int)
    requires
        distinct_ids(ns),
    ensures
        bb_edge(ns, a, b) <==> (0 <= a < ns.len() && 0 <= b < ns.len()
            && ns[b].blocked_by.contains(ns[a].id)),
{
    lemma_distinct_dedup(ns);
    if bb_edge(ns, a, b) {
        let (i, k) = choose|i: int, k: int| bb_edge_from(ns, i, k, a, b);
        lemma_first_index_of(ids(ns), ns[i].blocked_by[k]);
        lemma_first_index_of(ids(ns), ns[i].id);
        assert(ids(ns)[a] == ns[a].id);
        assert(ids(ns)[b] == ns[b].id);
        assert(i == b);
        assert(ns[b].blocked_by[k] == ns[a].id);
    }
    if 0 <= a < ns.len() && 0 <= b < ns.len() && ns[b].blocked_by.contains(ns[a].id) {
        let k = choose|k: int| 0 <= k < ns[b].blocked_by.len() && ns[b].blocked_by[k] == ns[a].id;
        lemma_resolve_own_id(ns, a);
        lemma_resolve_own_id(ns, b);
        assert(bb_edge_from(ns, b, k, a, b));
    }
}

/// With unique ids, an edge of the blocks graph runs from `a` to `b`
/// exactly when node `a` lists node `b`'s id in `blocks`.
pub proof fn lemma_blocks_edge_characterized(ns: Seq<BeadView>, a: int, b: int)
    requires
        distinct_ids(ns),
    ensures
        blocks_edge(ns, a, b) <==> (0 <= a < ns.len() && 0 <= b < ns.len()
            && ns[a].blocks.contains(ns[b].id)),
{
    if blocks_edge(ns, a, b) {
        let (i, k) = choose|i: int, k: int| blocks_edge_from(ns, i, k, a, b);
        lemma_first_index_of(ids(ns), ns[i].blocks[k]);
        lemma_first_index_of(ids(ns), ns[i].id);
        assert(ids(ns)[a] == ns[a].id);
        assert(ids(ns)[b] == ns[b].id);
        assert(i == a);
        assert(ns[a].blocks[k] == ns[b].id);
    }
    if 0 <= a < ns.len() && 0 <= b < ns.len() && ns[a].blocks.contains(ns[b].id) {
        let k = choose|k: int| 0 <= k < ns[a].blocks.len() && ns[a].blocks[k] == ns[b].id;
        lemma_resolve_own_id(ns, a);
        lemma_resolve_own_id(ns, b);
        assert(blocks_edge_from(ns, a, k, a, b));
    }
}

/// When the two dependency fields agree and ids are unique, the blocker
/// graph and the blocks graph are the same edge set.
pub proof fn lemma_consistent_edge_sets_agree(ns: Seq<BeadView>)
    requires
        distinct_ids(ns),
        consistent_edges(ns),
    ensures
        bb_edge_set(ns) == blocks_edge_set(ns),
{
    assert forall|e: (int, int)| bb_edge(ns, e.0, e.1) <==> blocks_edge(ns, e.0, e.1) by {
        lemma_bb_edge_characterized(ns, e.0, e.1);
        lemma_blocks_edge_characterized(ns, e.0, e.1);
    }
    assert(bb_edge_set(ns) =~= blocks_edge_set(ns));
}

/// A consistent node set with unique ids and an acyclic blocker graph has an
/// acyclic blocks graph as well: `has_cycle_impl` answers false on it, and
/// the contract of `find_cycle_nodes_impl` then forces an empty participant
/// list.
pub proof fn lemma_acyclic_consistent_no_participants(ns: Seq<BeadView>)
    requires
        distinct_ids(ns),
        consistent_edges(ns),
        !has_directed_cycle(bb_edge_set(ns)),
    ensures
        !has_directed_cycle(blocks_edge_set(ns)),
{
    lemma_consistent_edge_sets_agree(ns);
}

} // verus!
