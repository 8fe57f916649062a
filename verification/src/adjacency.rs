use vstd::prelude::*;
use crate::model::{BeadNode, BeadView, push_str};

verus! {

/// First position in the mapping whose key equals `id`.
pub open spec fn key_index_of(m: Seq<(Seq<char>, Seq<Seq<char>>)>, id: Seq<char>) -> Option<int>
    decreases m.len(),
{
    if m.len() == 0 {
        None
    } else if m[0].0 == id {
        Some(0int)
    } else {
        match key_index_of(m.drop_first(), id) {
            Some(j) => Some(j + 1),
            None => None,
        }
    }
}

/// `key_index_of` returns exactly the first position carrying the key, or
/// `None` when no position does.
pub proof fn lemma_key_index_of(m: Seq<(Seq<char>, Seq<Seq<char>>)>, id: Seq<char>)
    ensures
        match key_index_of(m, id) {
            Some(j) => 0 <= j < m.len() && m[j].0 == id && (forall|k: int|
                0 <= k < j ==> m[k].0 != id),
            None => forall|k: int| 0 <= k < m.len() ==> m[k].0 != id,
        },
    decreases m.len(),
{
    if m.len() == 0 {
    } else if m[0].0 == id {
    } else {
        let m2 = m.drop_first();
        lemma_key_index_of(m2, id);
        match key_index_of(m2, id) {
            Some(j) => {
                assert(m[j + 1] == m2[j]);
                assert forall|k: int| 0 <= k < j + 1 implies m[k].0 != id by {
                    if k > 0 {
                        assert(m[k] == m2[k - 1]);
                    }
                }
            },
            None => {
                assert forall|k: int| 0 <= k < m.len() implies m[k].0 != id by {
                    if k > 0 {
                        assert(m[k] == m2[k - 1]);
                    }
                }
            },
        }
    }
}

/// Record one node: append its `blocks` list to the entry owned by its id,
/// creating the entry first when the id is new.
pub open spec fn adj_insert(
    m: Seq<(Seq<char>, Seq<Seq<char>>)>,
    id: Seq<char>,
    bl: Seq<Seq<char>>,
) -> Seq<(Seq<char>, Seq<Seq<char>>)> {
    match key_index_of(m, id) {
        Some(j) => m.update(j, (id, m[j].1 + bl)),
        None => m.push((id, bl)),
    }
}

/// The mapping after recording the first `i` nodes, entries in first-seen
/// order of their ids.
pub open spec fn adjacency_upto(ns: Seq<BeadView>, i: int) -> Seq<(Seq<char>, Seq<Seq<char>>)>
    decreases i,
{
    if i <= 0 {
        Seq::empty()
    } else {
        adj_insert(adjacency_upto(ns, i - 1), ns[i - 1].id, ns[i - 1].blocks)
    }
}

/// The outgoing-edge mapping of the whole node set: one entry per distinct
/// id, holding every id that the nodes with that id declare in `blocks`.
pub open spec fn adjacency_map(ns: Seq<BeadView>) -> Seq<(Seq<char>, Seq<Seq<char>>)> {
    adjacency_upto(ns, ns.len() as int)
}

/// Some entry of the mapping carries this key.
pub open spec fn has_key(m: Seq<(Seq<char>, Seq<Seq<char>>)>, id: Seq<char>) -> bool {
    exists|j: int| 0 <= j < m.len() && m[j].0 == id
}

/// No two entries of the mapping share a key.
pub open spec fn distinct_keys(m: Seq<(Seq<char>, Seq<Seq<char>>)>) -> bool {
    forall|p: int, q: int| 0 <= p < q < m.len() ==> m[p].0 != m[q].0
}

proof fn lemma_insert_has_key(
    m: Seq<(Seq<char>, Seq<Seq<char>>)>,
    id: Seq<char>,
    bl: Seq<Seq<char>>,
    id2: Seq<char>,
)
    requires
        has_key(m, id2) || id2 == id,
    ensures
        has_key(adj_insert(m, id, bl), id2),
{
    lemma_key_index_of(m, id);
    match key_index_of(m, id) {
        Some(j) => {
            if id2 == id {
                assert(adj_insert(m, id, bl)[j].0 == id);
            } else {
                let j2 = choose|j2: int| 0 <= j2 < m.len() && m[j2].0 == id2;
                assert(adj_insert(m, id, bl)[j2].0 == id2);
            }
        },
        None => {
            if id2 == id {
                assert(adj_insert(m, id, bl)[m.len() as int].0 == id);
            } else {
                let j2 = choose|j2: int| 0 <= j2 < m.len() && m[j2].0 == id2;
                assert(adj_insert(m, id, bl)[j2].0 == id2);
            }
        },
    }
}

proof fn lemma_insert_distinct(m: Seq<(Seq<char>, Seq<Seq<char>>)>, id: Seq<char>, bl: Seq<Seq<char>>)
    requires
        distinct_keys(m),
    ensures
        distinct_keys(adj_insert(m, id, bl)),
{
    lemma_key_index_of(m, id);
    let m2 = adj_insert(m, id, bl);
    match key_index_of(m, id) {
        Some(j) => {
            assert forall|p: int, q: int| 0 <= p < q < m2.len() implies m2[p].0 != m2[q].0 by {
                assert(m2[p].0 == m[p].0);
                assert(m2[q].0 == m[q].0);
            }
        },
        None => {
            assert forall|p: int, q: int| 0 <= p < q < m2.len() implies m2[p].0 != m2[q].0 by {
                if q < m.len() {
                } else {
                    assert(m2[q].0 == id);
                    assert(m[p].0 != id);
                }
            }
        },
    }
}

/// Every node id owns an entry in the mapping, even when its `blocks` list
/// is empty.
pub proof fn lemma_adjacency_covers_ids(ns: Seq<BeadView>, i: int)
    requires
        0 <= i < ns.len(),
    ensures
        has_key(adjacency_map(ns), ns[i].id),
{
    lemma_upto_has_key(ns, i, ns.len() as int);
}

proof fn lemma_upto_has_key(ns: Seq<BeadView>, i: int, t: int)
    requires
        0 <= i < t <= ns.len(),
    ensures
        has_key(adjacency_upto(ns, t), ns[i].id),
    decreases t,
{
    if t == i + 1 {
        lemma_insert_has_key(adjacency_upto(ns, i), ns[i].id, ns[i].blocks, ns[i].id);
    } else {
        lemma_upto_has_key(ns, i, t - 1);
        lemma_insert_has_key(adjacency_upto(ns, t - 1), ns[t - 1].id, ns[t - 1].blocks, ns[i].id);
    }
}

/// No id owns two entries of the mapping.
pub proof fn lemma_adjacency_distinct_keys(ns: Seq<BeadView>)
    ensures
        distinct_keys(adjacency_map(ns)),
{
    lemma_upto_distinct(ns, ns.len() as int);
}

proof fn lemma_upto_distinct(ns: Seq<BeadView>, t: int)
    requires
        0 <= t <= ns.len(),
    ensures
        distinct_keys(adjacency_upto(ns, t)),
    decreases t,
{
    if t > 0 {
        lemma_upto_distinct(ns, t - 1);
        lemma_insert_distinct(adjacency_upto(ns, t - 1), ns[t - 1].id, ns[t - 1].blocks);
    }
}

/// The strings of a vector, cloned into a fresh vector.
fn clone_strs(v: &Vec<String>) -> (r: Vec<String>)
    ensures
        r.deep_view() == v.deep_view(),
{
    let n = v.len();
    let mut r: Vec<String> = Vec::new();
    let mut i: usize = 0;
    while i < n
        invariant
            n == v@.len(),
            i <= n,
            r.deep_view() == v.deep_view().take(i as int),
        decreases n - i,
    {
        proof {
            assert(v.deep_view()[i as int] == v@[i as int]@);
            assert(v.deep_view().take(i as int).push(v@[i as int]@) =~= v.deep_view().take(
                i as int + 1,
            ));
        }
        push_str(&mut r, v[i].clone());
        i += 1;
    }
    proof {
        assert(v.deep_view().take(n as int) =~= v.deep_view());
    }
    r
}

/// Appends clones of the strings in `src` to `dst`.
fn extend_strs(dst: &mut Vec<String>, src: &Vec<String>)
    ensures
        final(dst).deep_view() == old(dst).deep_view() + src.deep_view(),
{
    let n = src.len();
    let mut i: usize = 0;
    while i < n
        invariant
            n == src@.len(),
            i <= n,
            dst.deep_view() == old(dst).deep_view() + src.deep_view().take(i as int),
        decreases n - i,
    {
        proof {
            assert(src.deep_view()[i as int] == src@[i as int]@);
            assert((old(dst).deep_view() + src.deep_view().take(i as int)).push(src@[i as int]@)
                =~= old(dst).deep_view() + src.deep_view().take(i as int + 1));
        }
        push_str(dst, src[i].clone());
        i += 1;
    }
    proof {
        assert(old(dst).deep_view() + src.deep_view().take(n as int) =~= old(dst).deep_view()
            + src.deep_view());
    }
}

/// First position in the mapping under construction whose key equals `id`.
fn find_key(m: &Vec<(String, Vec<String>)>, id: &String) -> (r: Option<usize>)
    ensures
        match r {
            Some(j) => key_index_of(m.deep_view(), id@) == Some(j as int),
            None => key_index_of(m.deep_view(), id@) is None,
        },
{
    let n = m.len();
    let mut i: usize = 0;
    while i < n
        invariant
            n == m@.len(),
            i <= n,
            forall|k: int| 0 <= k < i ==> m.deep_view()[k].0 != id@,
        decreases n - i,
    {
        proof {
            assert(m.deep_view()[i as int] == m@[i as int].deep_view());
        }
        if m[i].0 == *id {
            proof {
                lemma_key_index_of(m.deep_view(), id@);
            }
            return Some(i);
        }
        i += 1;
    }
    proof {
        lemma_key_index_of(m.deep_view(), id@);
    }
    None
}

/// The outgoing-edge mapping: every node id maps to the ordered list of ids
/// it blocks, with an entry present even for nodes that block nothing.
/// Nodes sharing an id contribute to one entry, in input order.
pub fn build_adjacency_impl(beads: &Vec<BeadNode>) -> (r: Vec<(String, Vec<String>)>)
    ensures
        r.deep_view() == adjacency_map(beads.deep_view()),
        distinct_keys(r.deep_view()),
        forall|i: int|
            0 <= i < beads@.len() ==> has_key(r.deep_view(), beads.deep_view()[i].id),
{
    let ghost ns = beads.deep_view();
    let n = beads.len();
    let mut r: Vec<(String, Vec<String>)> = Vec::new();
    let mut i: usize = 0;
    while i < n
        invariant
            n == beads@.len(),
            ns == beads.deep_view(),
            i <= n,
            r.deep_view() == adjacency_upto(ns, i as int),
        decreases n - i,
    {
        proof {
            assert(beads.deep_view()[i as int] == beads@[i as int]@);
            assert(ns[i as int].blocks == beads@[i as int].blocks.deep_view());
        }
        let ghost pre = r.deep_view();
        match find_key(&r, &beads[i].id) {
            None => {
                let e = clone_strs(&beads[i].blocks);
                let ghost prev = r@;
                r.push((beads[i].id.clone(), e));
                proof {
                    assert forall|k: int| 0 <= k < r@.len() implies r.deep_view()[k] == pre.push(
                        (ns[i as int].id, ns[i as int].blocks),
                    )[k] by {
                        if k < prev.len() {
                            assert(r@[k] == prev[k]);
                            assert(pre[k] == prev[k].deep_view());
                        } else {
                            assert(r@[k].deep_view() == (ns[i as int].id, ns[i as int].blocks));
                        }
                    }
                    assert(r.deep_view() =~= pre.push((ns[i as int].id, ns[i as int].blocks)));
                }
            },
            Some(j) => {
                proof {
                    lemma_key_index_of(pre, ns[i as int].id);
                }
                let key = r[j].0.clone();
                let mut entry = clone_strs(&r[j].1);
                proof {
                    assert(r.deep_view()[j as int] == r@[j as int].deep_view());
                }
                extend_strs(&mut entry, &beads[i].blocks);
                let ghost prev = r@;
                r.set(j, (key, entry));
                proof {
                    assert forall|k: int| 0 <= k < r@.len() implies r.deep_view()[k] == pre.update(
                        j as int,
                        (ns[i as int].id, pre[j as int].1 + ns[i as int].blocks),
                    )[k] by {
                        if k != j {
                            assert(r@[k] == prev[k]);
                            assert(pre[k] == prev[k].deep_view());
                        } else {
                            assert(r@[k].deep_view() == (
                                ns[i as int].id,
                                pre[j as int].1 + ns[i as int].blocks,
                            ));
                        }
                    }
                    assert(r.deep_view() =~= pre.update(
                        j as int,
                        (ns[i as int].id, pre[j as int].1 + ns[i as int].blocks),
                    ));
                }
            },
        }
        i += 1;
    }
    proof {
        lemma_adjacency_distinct_keys(ns);
        assert forall|t: int| 0 <= t < ns.len() implies has_key(r.deep_view(), ns[t].id) by {
            lemma_adjacency_covers_ids(ns, t);
        }
    }
    r
}

} // verus!
