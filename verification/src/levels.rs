use vstd::prelude::*;
use crate::model::{BeadNode, BeadView, ids, push_str, first_index_of, lemma_first_index_of,
    find_index, collect_ids};
use crate::edges::distinct_ids;

verus! {

/// Ids of the nodes with no blockers among the first `i`, in input order:
/// the seed tier of the schedule.
pub open spec fn seed_ids_upto(ns: Seq<BeadView>, i: int) -> Seq<Seq<char>>
    decreases i,
{
    if i <= 0 {
        Seq::empty()
    } else if ns[i - 1].blocked_by.len() == 0 {
        seed_ids_upto(ns, i - 1).push(ns[i - 1].id)
    } else {
        seed_ids_upto(ns, i - 1)
    }
}

/// Ids of all nodes with no blockers, in input order.
pub open spec fn seed_ids(ns: Seq<BeadView>) -> Seq<Seq<char>> {
    seed_ids_upto(ns, ns.len() as int)
}

/// The level recorded for an id: the value of the first entry carrying it.
pub open spec fn level_of(m: Seq<(Seq<char>, usize)>, id: Seq<char>) -> Option<usize>
    decreases m.len(),
{
    if m.len() == 0 {
        None
    } else if m[0].0 == id {
        Some(m[0].1)
    } else {
        level_of(m.drop_first(), id)
    }
}

/// `level_of` reads exactly the first entry carrying the id.
proof fn lemma_level_of_char(m: Seq<(Seq<char>, usize)>, id: Seq<char>)
    ensures
        match level_of(m, id) {
            Some(lv) => exists|j: int|
                0 <= j < m.len() && m[j].0 == id && m[j].1 == lv && (forall|q: int|
                    0 <= q < j ==> m[q].0 != id),
            None => forall|j: int| 0 <= j < m.len() ==> m[j].0 != id,
        },
    decreases m.len(),
{
    if m.len() == 0 {
    } else if m[0].0 == id {
        assert(m[0].1 == level_of(m, id)->Some_0);
    } else {
        let m2 = m.drop_first();
        lemma_level_of_char(m2, id);
        match level_of(m2, id) {
            Some(lv) => {
                let j2 = choose|j: int|
                    0 <= j < m2.len() && m2[j].0 == id && m2[j].1 == lv && (forall|q: int|
                        0 <= q < j ==> m2[q].0 != id);
                assert(m[j2 + 1] == m2[j2]);
                assert forall|q: int| 0 <= q < j2 + 1 implies m[q].0 != id by {
                    if q > 0 {
                        assert(m[q] == m2[q - 1]);
                    }
                }
            },
            None => {
                assert forall|j: int| 0 <= j < m.len() implies m[j].0 != id by {
                    if j > 0 {
                        assert(m[j] == m2[j - 1]);
                    }
                }
            },
        }
    }
}

/// Appending an entry never changes the level already recorded for an id,
/// and records the new entry's level for a fresh id.
proof fn lemma_level_of_push(m: Seq<(Seq<char>, usize)>, e: (Seq<char>, usize), id: Seq<char>)
    ensures
        level_of(m, id) is Some ==> level_of(m.push(e), id) == level_of(m, id),
        level_of(m, id) is None ==> level_of(m.push(e), id) == (if e.0 == id {
            Some(e.1)
        } else {
            None
        }),
    decreases m.len(),
{
    if m.len() == 0 {
        assert(m.push(e)[0] == e);
        assert(m.push(e).drop_first() =~= Seq::<(Seq<char>, usize)>::empty());
    } else {
        assert(m.push(e)[0] == m[0]);
        assert(m.push(e).drop_first() =~= m.drop_first().push(e));
        lemma_level_of_push(m.drop_first(), e, id);
    }
}

/// The id stands somewhere in tier `k` of the output.
pub open spec fn listed_at(rv: Seq<Seq<Seq<char>>>, id: Seq<char>, k: int) -> bool {
    0 <= k < rv.len() && exists|t: int| 0 <= t < rv[k].len() && rv[k][t] == id
}

/// Every output entry carries exactly the level recorded for its id.
pub open spec fn levels_match(m: Seq<(Seq<char>, usize)>, rv: Seq<Seq<Seq<char>>>) -> bool {
    forall|k: int, t: int|
        0 <= k < rv.len() && 0 <= t < rv[k].len() ==> (match level_of(m, #[trigger] rv[k][t]) {
            Some(l) => l as int == k,
            None => false,
        })
}

/// Every recorded entry stands in the output tier of its level.
pub open spec fn entries_listed(m: Seq<(Seq<char>, usize)>, rv: Seq<Seq<Seq<char>>>) -> bool {
    forall|j: int|
        0 <= j < m.len() ==> (#[trigger] m[j]).1 < rv.len() && listed_at(rv, m[j].0, m[j].1 as int)
}

/// No two recorded entries share an id.
pub open spec fn distinct_level_keys(m: Seq<(Seq<char>, usize)>) -> bool {
    forall|p: int, q: int| 0 <= p < q < m.len() ==> m[p].0 != m[q].0
}

/// The id already carries a level.
pub open spec fn lm_assigned(m: Seq<(Seq<char>, usize)>, id: Seq<char>) -> bool {
    level_of(m, id) is Some
}

/// Every blocker of node `j` already carries a level.
pub open spec fn all_deps_assigned(ns: Seq<BeadView>, m: Seq<(Seq<char>, usize)>, j: int) -> bool {
    forall|t: int|
        0 <= t < ns[j].blocked_by.len() ==> lm_assigned(m, #[trigger] ns[j].blocked_by[t])
}

/// Some blocker of node `j` still waits in the unprocessed part of the
/// queue.
pub open spec fn dep_waiting(ns: Seq<BeadView>, qv: Seq<Seq<char>>, head: int, j: int) -> bool {
    exists|t: int, q: int|
        0 <= t < ns[j].blocked_by.len() && head <= q < qv.len() && #[trigger] qv[q]
            == #[trigger] ns[j].blocked_by[t]
}

/// Every node that could be scheduled but is not yet has a blocker still
/// waiting in the queue: when the queue drains, no schedulable node is left
/// out.
pub open spec fn closure_pending(
    ns: Seq<BeadView>,
    m: Seq<(Seq<char>, usize)>,
    qv: Seq<Seq<char>>,
    head: int,
) -> bool {
    forall|j: int|
        0 <= j < ns.len() && !lm_assigned(m, ns[j].id) && #[trigger] all_deps_assigned(ns, m, j)
            ==> dep_waiting(ns, qv, head, j)
}

/// Id `a`'s first record appears before id `b`'s in the input.
pub open spec fn earlier_in_input(ns: Seq<BeadView>, a: Seq<char>, b: Seq<char>) -> bool {
    match (first_index_of(ids(ns), a), first_index_of(ids(ns), b)) {
        (Some(x), Some(y)) => x < y,
        _ => false,
    }
}

/// Every tier lists its ids in input order of their first records.
pub open spec fn rows_input_ordered(ns: Seq<BeadView>, rv: Seq<Seq<Seq<char>>>) -> bool {
    forall|k: int, t1: int, t2: int|
        0 <= k < rv.len() && 0 <= t1 < t2 < rv[k].len() ==> earlier_in_input(
            ns,
            #[trigger] rv[k][t1],
            #[trigger] rv[k][t2],
        )
}

/// No id occupies two places of the output.
pub open spec fn listed_once(rv: Seq<Seq<Seq<char>>>) -> bool {
    forall|k1: int, t1: int, k2: int, t2: int|
        0 <= k1 < rv.len() && 0 <= t1 < rv[k1].len() && 0 <= k2 < rv.len() && 0 <= t2
            < rv[k2].len() && #[trigger] rv[k1][t1] == #[trigger] rv[k2][t2] ==> k1 == k2 && t1
            == t2
}

/// The id stands in some tier of the output.
pub open spec fn listed_somewhere(rv: Seq<Seq<Seq<char>>>, id: Seq<char>) -> bool {
    exists|k: int| listed_at(rv, id, k)
}

/// The blockers of node `i` all carry a level below `lv`, and at least one
/// carries exactly `lv - 1`.
pub open spec fn dep_levels_ok(
    ns: Seq<BeadView>,
    m: Seq<(Seq<char>, usize)>,
    i: int,
    lv: int,
) -> bool {
    &&& ns[i].blocked_by.len() > 0
    &&& forall|t: int|
        0 <= t < ns[i].blocked_by.len() ==> (match level_of(
            m,
            #[trigger] ns[i].blocked_by[t],
        ) {
            Some(l) => (l as int) < lv,
            None => false,
        })
    &&& exists|t: int|
        0 <= t < ns[i].blocked_by.len() && (match level_of(m, #[trigger] ns[i].blocked_by[t]) {
            Some(l) => l as int == lv - 1,
            None => false,
        })
}

/// A recorded entry is justified: some node carries the id, seeds at level
/// zero, others one past the highest level of their blockers.
pub open spec fn entry_sound(
    ns: Seq<BeadView>,
    m: Seq<(Seq<char>, usize)>,
    key: Seq<char>,
    lv: usize,
) -> bool {
    exists|i: int|
        #![auto]
        0 <= i < ns.len() && ns[i].id == key && (if lv == 0 {
            ns[i].blocked_by.len() == 0
        } else {
            dep_levels_ok(ns, m, i, lv as int)
        })
}

/// Every recorded entry is justified.
pub open spec fn map_sound(ns: Seq<BeadView>, m: Seq<(Seq<char>, usize)>) -> bool {
    forall|j: int| 0 <= j < m.len() ==> entry_sound(ns, m, (#[trigger] m[j]).0, m[j].1)
}

/// A justified entry stays justified when the map grows.
proof fn lemma_entry_sound_push(
    ns: Seq<BeadView>,
    m: Seq<(Seq<char>, usize)>,
    e: (Seq<char>, usize),
    key: Seq<char>,
    lv: usize,
)
    requires
        entry_sound(ns, m, key, lv),
    ensures
        entry_sound(ns, m.push(e), key, lv),
{
    let i = choose|i: int|
        #![auto]
        0 <= i < ns.len() && ns[i].id == key && (if lv == 0 {
            ns[i].blocked_by.len() == 0
        } else {
            dep_levels_ok(ns, m, i, lv as int)
        });
    if lv != 0 {
        assert forall|t: int| 0 <= t < ns[i].blocked_by.len() implies (match level_of(
            m.push(e),
            #[trigger] ns[i].blocked_by[t],
        ) {
            Some(l) => (l as int) < lv,
            None => false,
        }) by {
            lemma_level_of_push(m, e, ns[i].blocked_by[t]);
        }
        let t0 = choose|t: int|
            0 <= t < ns[i].blocked_by.len() && (match level_of(m, #[trigger] ns[i].blocked_by[t]) {
                Some(l) => l as int == lv - 1,
                None => false,
            });
        lemma_level_of_push(m, e, ns[i].blocked_by[t0]);
        assert(dep_levels_ok(ns, m.push(e), i, lv as int));
    }
}

/// Distinct keys drawn from the node ids cannot outnumber the nodes.
proof fn lemma_key_count_bound(m: Seq<(Seq<char>, usize)>, idseq: Seq<Seq<char>>)
    requires
        distinct_level_keys(m),
        forall|j: int| 0 <= j < m.len() ==> idseq.contains((#[trigger] m[j]).0),
    ensures
        m.len() <= idseq.len(),
{
    broadcast use vstd::seq_lib::seq_to_set_is_finite;

    let keys = m.map_values(|e: (Seq<char>, usize)| e.0);
    assert(keys.no_duplicates());
    keys.unique_seq_to_set();
    idseq.lemma_cardinality_of_set();
    assert(keys.to_set() <= idseq.to_set()) by {
        assert forall|x: Seq<char>| keys.to_set().contains(x) implies idseq.to_set().contains(
            x,
        ) by {
            let j = choose|j: int| 0 <= j < keys.len() && keys[j] == x;
            assert(idseq.contains(m[j].0));
        }
    }
    vstd::set_lib::lemma_len_subset(keys.to_set(), idseq.to_set());
}

/// The level recorded for this id, read from the map under construction.
fn lookup_level(lm: &Vec<(String, usize)>, id: &String) -> (r: Option<usize>)
    ensures
        r == level_of(lm.deep_view(), id@),
{
    let n = lm.len();
    let mut i: usize = 0;
    while i < n
        invariant
            n == lm@.len(),
            i <= n,
            forall|k: int| 0 <= k < i ==> lm.deep_view()[k].0 != id@,
        decreases n - i,
    {
        proof {
            assert(lm.deep_view()[i as int] == lm@[i as int].deep_view());
        }
        if lm[i].0 == *id {
            let lv = lm[i].1;
            proof {
                lemma_level_of_char(lm.deep_view(), id@);
                match level_of(lm.deep_view(), id@) {
                    Some(l) => {
                        let j = choose|j: int|
                            0 <= j < lm.deep_view().len() && lm.deep_view()[j].0 == id@
                                && lm.deep_view()[j].1 == l && (forall|q: int|
                                0 <= q < j ==> lm.deep_view()[q].0 != id@);
                        assert(j == i as int);
                    },
                    None => {
                        assert(false);
                    },
                }
            }
            return Some(lv);
        }
        i += 1;
    }
    proof {
        lemma_level_of_char(lm.deep_view(), id@);
    }
    None
}

/// Whether the list holds a string equal to `id`.
fn contains_str(v: &Vec<String>, id: &String) -> (r: bool)
    ensures
        r == v.deep_view().contains(id@),
{
    let n = v.len();
    let mut i: usize = 0;
    while i < n
        invariant
            n == v@.len(),
            i <= n,
            forall|k: int| 0 <= k < i ==> v.deep_view()[k] != id@,
        decreases n - i,
    {
        proof {
            assert(v.deep_view()[i as int] == v@[i as int]@);
        }
        if v[i] == *id {
            proof {
                assert(v.deep_view()[i as int] == id@);
            }
            return true;
        }
        i += 1;
    }
    proof {
        if v.deep_view().contains(id@) {
            let k = choose|k: int| 0 <= k < v.deep_view().len() && v.deep_view()[k] == id@;
        }
    }
    false
}

/// The highest level among the blockers, or `None` when some blocker has no
/// level yet.
fn deps_max_level(lm: &Vec<(String, usize)>, deps: &Vec<String>) -> (r: Option<usize>)
    requires
        deps@.len() > 0,
    ensures
        match r {
            Some(mx) => (forall|t: int|
                0 <= t < deps@.len() ==> (match level_of(
                    lm.deep_view(),
                    #[trigger] deps.deep_view()[t],
                ) {
                    Some(l) => l <= mx,
                    None => false,
                })) && (exists|t: int|
                0 <= t < deps@.len() && level_of(lm.deep_view(), #[trigger] deps.deep_view()[t])
                    == Some(mx)),
            None => exists|t: int|
                0 <= t < deps@.len() && level_of(lm.deep_view(), #[trigger] deps.deep_view()[t])
                    is None,
        },
{
    let n = deps.len();
    let mut best: usize = 0;
    let mut t: usize = 0;
    while t < n
        invariant
            n == deps@.len(),
            t <= n,
            t > 0 ==> (forall|u: int|
                0 <= u < t ==> (match level_of(lm.deep_view(), #[trigger] deps.deep_view()[u]) {
                    Some(l) => l <= best,
                    None => false,
                })),
            t > 0 ==> (exists|u: int|
                0 <= u < t && level_of(lm.deep_view(), #[trigger] deps.deep_view()[u]) == Some(
                    best,
                )),
        decreases n - t,
    {
        proof {
            assert(deps.deep_view()[t as int] == deps@[t as int]@);
        }
        match lookup_level(lm, &deps[t]) {
            Some(l) => {
                if t == 0 || l > best {
                    best = l;
                }
            },
            None => {
                return None;
            },
        }
        t += 1;
    }
    Some(best)
}

/// Appends one id to tier `k` of the output.
fn push_row(r: &mut Vec<Vec<String>>, k: usize, x: String)
    requires
        k < old(r)@.len(),
    ensures
        final(r).deep_view() == old(r).deep_view().update(
            k as int,
            old(r).deep_view()[k as int].push(x@),
        ),
{
    let ghost pre = r@;
    let ghost dpre = r.deep_view();
    r[k].push(x);
    proof {
        assert forall|a: int| 0 <= a < r@.len() implies r.deep_view()[a] == dpre.update(
            k as int,
            dpre[k as int].push(x@),
        )[a] by {
            assert(r.deep_view()[a] == r@[a].deep_view());
            if a == k {
                assert(r@[a]@ == pre[a]@.push(x));
                assert forall|b: int| 0 <= b < r@[a].deep_view().len() implies r@[
                    a
                ].deep_view()[b] == dpre[k as int].push(x@)[b] by {
                    assert(r@[a].deep_view()[b] == r@[a]@[b]@);
                    if b < pre[a]@.len() {
                        assert(r@[a]@[b] == pre[a]@[b]);
                        assert(dpre[a][b] == pre[a]@[b]@);
                    } else {
                        assert(r@[a]@[b] == x);
                    }
                }
                assert(r@[a].deep_view() =~= dpre[k as int].push(x@));
            } else {
                assert(r@[a] == pre[a]);
                assert(dpre[a] == pre[a].deep_view());
            }
        }
        assert(r.deep_view() =~= dpre.update(k as int, dpre[k as int].push(x@)));
    }
}

/// Opens a fresh tier at the end of the output, holding one id.
fn push_new_row(r: &mut Vec<Vec<String>>, x: String)
    ensures
        final(r).deep_view() == old(r).deep_view().push(seq![x@]),
{
    let mut row: Vec<String> = Vec::new();
    row.push(x);
    proof {
        assert(row.deep_view() =~= seq![row@[0]@]);
    }
    let ghost pre = r@;
    let ghost dpre = r.deep_view();
    let ghost rowd = row.deep_view();
    r.push(row);
    proof {
        assert forall|a: int| 0 <= a < r@.len() implies r.deep_view()[a] == dpre.push(rowd)[a] by {
            assert(r.deep_view()[a] == r@[a].deep_view());
            if a < pre.len() {
                assert(r@[a] == pre[a]);
                assert(dpre[a] == pre[a].deep_view());
            }
        }
        assert(r.deep_view() =~= dpre.push(rowd));
    }
}

/// Appends one entry to the level map.
fn push_level_entry(lm: &mut Vec<(String, usize)>, id: String, lv: usize)
    ensures
        final(lm).deep_view() == old(lm).deep_view().push((id@, lv)),
{
    let ghost pre = lm@;
    let ghost dpre = lm.deep_view();
    let ghost idv = id@;
    lm.push((id, lv));
    proof {
        assert forall|k: int| 0 <= k < lm@.len() implies lm.deep_view()[k] == dpre.push(
            (idv, lv),
        )[k] by {
            assert(lm.deep_view()[k] == lm@[k].deep_view());
            if k < pre.len() {
                assert(lm@[k] == pre[k]);
                assert(dpre[k] == pre[k].deep_view());
            } else {
                assert(lm@[k].deep_view() == (idv, lv));
            }
        }
        assert(lm.deep_view() =~= dpre.push((idv, lv)));
    }
}

/// An id listed in tier `k` of the output is justified: some node carries
/// it, every one of that node's blockers stands in a strictly lower tier,
/// and at least one blocker stands in tier `k - 1`.
/// Blocker `u` of node `i` stands in some tier strictly below `k`.
pub open spec fn dep_listed_below(
    ns: Seq<BeadView>,
    rv: Seq<Seq<Seq<char>>>,
    i: int,
    u: int,
    k: int,
) -> bool {
    exists|k2: int| 0 <= k2 < k && listed_at(rv, ns[i].blocked_by[u], k2)
}

pub open spec fn level_entry_sound(
    ns: Seq<BeadView>,
    rv: Seq<Seq<Seq<char>>>,
    id: Seq<char>,
    k: int,
) -> bool {
    exists|i: int|
        #![auto]
        0 <= i < ns.len() && ns[i].id == id && ns[i].blocked_by.len() > 0 && (forall|u: int|
            0 <= u < ns[i].blocked_by.len() ==> #[trigger] dep_listed_below(ns, rv, i, u, k))
        && (exists|u: int|
            0 <= u < ns[i].blocked_by.len() && listed_at(rv, #[trigger] ns[i].blocked_by[u], k - 1))
}

/// A map whose entries are justified and listed at their levels yields a
/// tier table where each id sits in one tier and each tier is justified.
proof fn lemma_levels_sound(ns: Seq<BeadView>, m: Seq<(Seq<char>, usize)>, rv: Seq<Seq<Seq<char>>>)
    requires
        map_sound(ns, m),
        entries_listed(m, rv),
        levels_match(m, rv),
    ensures
        forall|k1: int, t1: int, k2: int, t2: int|
            0 <= k1 < rv.len() && 0 <= t1 < rv[k1].len() && 0 <= k2 < rv.len() && 0 <= t2
                < rv[k2].len() && #[trigger] rv[k1][t1] == #[trigger] rv[k2][t2] ==> k1 == k2,
        forall|k: int, t: int|
            1 <= k < rv.len() && 0 <= t < rv[k].len() ==> level_entry_sound(
                ns,
                rv,
                #[trigger] rv[k][t],
                k,
            ),
{
    assert forall|k: int, t: int|
        1 <= k < rv.len() && 0 <= t < rv[k].len() implies level_entry_sound(
        ns,
        rv,
        #[trigger] rv[k][t],
        k,
    ) by {
        let id = rv[k][t];
        lemma_level_of_char(m, id);
        let lv = level_of(m, id)->Some_0;
        assert(lv as int == k);
        let j = choose|j: int|
            0 <= j < m.len() && m[j].0 == id && m[j].1 == lv && (forall|q: int|
                0 <= q < j ==> m[q].0 != id);
        assert(entry_sound(ns, m, m[j].0, m[j].1));
        let i = choose|i: int|
            #![auto]
            0 <= i < ns.len() && ns[i].id == id && (if lv == 0 {
                ns[i].blocked_by.len() == 0
            } else {
                dep_levels_ok(ns, m, i, lv as int)
            });
        assert(dep_levels_ok(ns, m, i, k));
        assert forall|u: int| 0 <= u < ns[i].blocked_by.len() implies #[trigger] dep_listed_below(
            ns,
            rv,
            i,
            u,
            k,
        ) by {
            let d = ns[i].blocked_by[u];
            lemma_level_of_char(m, d);
            let l2 = level_of(m, d)->Some_0;
            let j2 = choose|j2: int|
                0 <= j2 < m.len() && m[j2].0 == d && m[j2].1 == l2 && (forall|q: int|
                    0 <= q < j2 ==> m[q].0 != d);
            assert(m[j2].1 < rv.len() && listed_at(rv, m[j2].0, m[j2].1 as int));
            assert((l2 as int) < k && listed_at(rv, d, l2 as int));
            assert(dep_listed_below(ns, rv, i, u, k));
        }
        let t0 = choose|t0: int|
            0 <= t0 < ns[i].blocked_by.len() && (match level_of(m, #[trigger] ns[i].blocked_by[t0]) {
                Some(l) => l as int == k - 1,
                None => false,
            });
        let d0 = ns[i].blocked_by[t0];
        lemma_level_of_char(m, d0);
        let j3 = choose|j3: int|
            0 <= j3 < m.len() && m[j3].0 == d0 && m[j3].1 == level_of(m, d0)->Some_0 && (forall|
                q: int,
            |
                0 <= q < j3 ==> m[q].0 != d0);
        assert(m[j3].1 < rv.len() && listed_at(rv, m[j3].0, m[j3].1 as int));
        assert(0 <= t0 < ns[i].blocked_by.len() && listed_at(rv, ns[i].blocked_by[t0], k - 1));
        assert(0 <= i < ns.len());
        assert(ns[i].id == id);
        assert(ns[i].blocked_by.len() > 0);
        assert(forall|u: int|
            0 <= u < ns[i].blocked_by.len() ==> #[trigger] dep_listed_below(ns, rv, i, u, k));
        assert(exists|u: int|
            0 <= u < ns[i].blocked_by.len() && listed_at(rv, #[trigger] ns[i].blocked_by[u], k - 1));
        assert(level_entry_sound(ns, rv, id, k));
    }
}


/// The output after recording `id` at tier `lv`: appended to its tier, or
/// opening the next tier.
pub open spec fn record_row(rv: Seq<Seq<Seq<char>>>, id: Seq<char>, lv: usize) -> Seq<
    Seq<Seq<char>>,
> {
    if lv as int == rv.len() {
        rv.push(seq![id])
    } else {
        rv.update(lv as int, rv[lv as int].push(id))
    }
}

/// Recording a fresh id at a justified level preserves every invariant of
/// the map and the tier table.
proof fn lemma_record_fresh(
    ns: Seq<BeadView>,
    m: Seq<(Seq<char>, usize)>,
    rv: Seq<Seq<Seq<char>>>,
    id: Seq<char>,
    lv: usize,
)
    requires
        distinct_level_keys(m),
        map_sound(ns, m),
        entries_listed(m, rv),
        levels_match(m, rv),
        level_of(m, id) is None,
        entry_sound(ns, m, id, lv),
        lv as int <= rv.len(),
    ensures
        distinct_level_keys(m.push((id, lv))),
        map_sound(ns, m.push((id, lv))),
        entries_listed(m.push((id, lv)), record_row(rv, id, lv)),
        levels_match(m.push((id, lv)), record_row(rv, id, lv)),
{
    let m1 = m.push((id, lv));
    let rv1 = record_row(rv, id, lv);
    lemma_level_of_char(m, id);
    assert forall|p: int, q: int| 0 <= p < q < m1.len() implies m1[p].0 != m1[q].0 by {
        if q < m.len() {
            assert(m1[p] == m[p] && m1[q] == m[q]);
        } else {
            assert(m1[p] == m[p] && m1[q] == (id, lv));
        }
    }
    assert forall|j: int| 0 <= j < m1.len() implies entry_sound(
        ns,
        m1,
        (#[trigger] m1[j]).0,
        m1[j].1,
    ) by {
        if j < m.len() {
            assert(m1[j] == m[j]);
            assert(entry_sound(ns, m, m[j].0, m[j].1));
            lemma_entry_sound_push(ns, m, (id, lv), m[j].0, m[j].1);
        } else {
            assert(m1[j] == (id, lv));
            lemma_entry_sound_push(ns, m, (id, lv), id, lv);
        }
    }
    assert forall|j: int| 0 <= j < m1.len() implies (#[trigger] m1[j]).1 < rv1.len() && listed_at(
        rv1,
        m1[j].0,
        m1[j].1 as int,
    ) by {
        if j < m.len() {
            assert(m1[j] == m[j]);
            let lj = m[j].1 as int;
            let t = choose|t: int| 0 <= t < rv[lj].len() && rv[lj][t] == m[j].0;
            assert(rv1[lj][t] == m[j].0);
        } else {
            assert(m1[j] == (id, lv));
            assert(rv1[lv as int][rv1[lv as int].len() - 1] == id);
        }
    }
    assert forall|k: int, t: int| 0 <= k < rv1.len() && 0 <= t < rv1[k].len() implies (
    match level_of(m1, #[trigger] rv1[k][t]) {
        Some(l) => l as int == k,
        None => false,
    }) by {
        let fresh_row = lv as int == rv.len();
        let is_new = if fresh_row {
            k == lv as int
        } else {
            k == lv as int && t == rv[k].len()
        };
        if is_new {
            assert(rv1[k][t] == id);
            lemma_level_of_push(m, (id, lv), id);
        } else {
            assert(rv1[k][t] == rv[k][t]);
            lemma_level_of_push(m, (id, lv), rv[k][t]);
        }
    }
}

/// Listing an id once more in tier zero, where it is already recorded,
/// preserves the invariants: duplicate seeds land twice in the seed tier.
proof fn lemma_record_again(
    ns: Seq<BeadView>,
    m: Seq<(Seq<char>, usize)>,
    rv: Seq<Seq<Seq<char>>>,
    id: Seq<char>,
)
    requires
        entries_listed(m, rv),
        levels_match(m, rv),
        level_of(m, id) == Some(0usize),
    ensures
        0 < rv.len(),
        entries_listed(m, rv.update(0, rv[0].push(id))),
        levels_match(m, rv.update(0, rv[0].push(id))),
{
    lemma_level_of_char(m, id);
    let j0 = choose|j: int|
        0 <= j < m.len() && m[j].0 == id && m[j].1 == 0usize && (forall|q: int|
            0 <= q < j ==> m[q].0 != id);
    assert(m[j0].1 < rv.len());
    let rv1 = rv.update(0, rv[0].push(id));
    assert forall|j: int| 0 <= j < m.len() implies (#[trigger] m[j]).1 < rv1.len() && listed_at(
        rv1,
        m[j].0,
        m[j].1 as int,
    ) by {
        let lj = m[j].1 as int;
        let t = choose|t: int| 0 <= t < rv[lj].len() && rv[lj][t] == m[j].0;
        assert(rv1[lj][t] == m[j].0);
    }
    assert forall|k: int, t: int| 0 <= k < rv1.len() && 0 <= t < rv1[k].len() implies (
    match level_of(m, #[trigger] rv1[k][t]) {
        Some(l) => l as int == k,
        None => false,
    }) by {
        if k == 0 && t == rv[0].len() {
            assert(rv1[k][t] == id);
        } else {
            assert(rv1[k][t] == rv[k][t]);
        }
    }
}


/// Every node without blockers contributes its id to the seed tier.
proof fn lemma_seed_contains(ns: Seq<BeadView>, j: int, b: int)
    requires
        0 <= j < b <= ns.len(),
        ns[j].blocked_by.len() == 0,
    ensures
        seed_ids_upto(ns, b).contains(ns[j].id),
    decreases b,
{
    if b == j + 1 {
        assert(seed_ids_upto(ns, b)[seed_ids_upto(ns, b).len() - 1] == ns[j].id);
    } else {
        lemma_seed_contains(ns, j, b - 1);
        let pre = seed_ids_upto(ns, b - 1);
        let q = choose|q: int| 0 <= q < pre.len() && pre[q] == ns[j].id;
        assert(seed_ids_upto(ns, b)[q] == ns[j].id);
    }
}

/// Every blocker of node `j` stands in some tier of the output.
pub open spec fn deps_listed(ns: Seq<BeadView>, rv: Seq<Seq<Seq<char>>>, j: int) -> bool {
    forall|u: int|
        0 <= u < ns[j].blocked_by.len() ==> listed_somewhere(rv, #[trigger] ns[j].blocked_by[u])
}

/// When the queue has drained and no schedulable node was left out, every
/// node whose blockers are all listed is itself listed.
proof fn lemma_levels_complete(
    ns: Seq<BeadView>,
    m: Seq<(Seq<char>, usize)>,
    rv: Seq<Seq<Seq<char>>>,
)
    requires
        entries_listed(m, rv),
        levels_match(m, rv),
        forall|j: int|
            0 <= j < ns.len() && !lm_assigned(m, ns[j].id) ==> !#[trigger] all_deps_assigned(
                ns,
                m,
                j,
            ),
    ensures
        forall|j: int|
            0 <= j < ns.len() && #[trigger] deps_listed(ns, rv, j) ==> listed_somewhere(
                rv,
                ns[j].id,
            ),
{
    assert forall|j: int| 0 <= j < ns.len() && #[trigger] deps_listed(ns, rv, j) implies
        listed_somewhere(rv, ns[j].id) by {
        assert forall|t: int| 0 <= t < ns[j].blocked_by.len() implies lm_assigned(
            m,
            #[trigger] ns[j].blocked_by[t],
        ) by {
            let d = ns[j].blocked_by[t];
            assert(listed_somewhere(rv, d));
            let k = choose|k: int| listed_at(rv, d, k);
            let tt = choose|tt: int| 0 <= tt < rv[k].len() && rv[k][tt] == d;
            assert(rv[k][tt] == d);
        }
        assert(all_deps_assigned(ns, m, j));
        assert(lm_assigned(m, ns[j].id));
        lemma_level_of_char(m, ns[j].id);
        let jj = choose|jj: int|
            0 <= jj < m.len() && m[jj].0 == ns[j].id && m[jj].1 == level_of(m, ns[j].id)->Some_0
                && (forall|q: int| 0 <= q < jj ==> m[q].0 != ns[j].id);
        assert(m[jj].1 < rv.len() && listed_at(rv, m[jj].0, m[jj].1 as int));
        assert(listed_at(rv, ns[j].id, m[jj].1 as int));
    }
}

/// Tiers of parallel execution: tier zero holds the nodes with no blockers,
/// and every other node enters the tier one past the highest tier of its
/// blockers, discovered by a breadth-first pass. Nodes whose blockers never
/// all resolve, because of a cycle or a dangling reference, appear in no
/// tier.
#[verifier::rlimit(50)]
pub fn compute_levels_internal(beads: &Vec<BeadNode>) -> (r: Vec<Vec<String>>)
    ensures
        seed_ids(beads.deep_view()).len() == 0 ==> r.deep_view().len() == 0,
        seed_ids(beads.deep_view()).len() > 0 ==> r.deep_view().len() > 0,
        distinct_ids(beads.deep_view()) && r.deep_view().len() > 0 ==> r.deep_view()[0]
            == seed_ids(beads.deep_view()),
        listed_once(r.deep_view()),
        rows_input_ordered(beads.deep_view(), r.deep_view()),
        forall|k: int| 0 <= k < r.deep_view().len() ==> #[trigger] r.deep_view()[k].len() > 0,
        forall|k: int, t: int|
            1 <= k < r.deep_view().len() && 0 <= t < r.deep_view()[k].len() ==> level_entry_sound(
                beads.deep_view(),
                r.deep_view(),
                #[trigger] r.deep_view()[k][t],
                k,
            ),
        forall|j: int|
            0 <= j < beads@.len() && beads.deep_view()[j].blocked_by.len() == 0 ==> listed_at(
                r.deep_view(),
                #[trigger] beads.deep_view()[j].id,
                0,
            ),
        forall|j: int|
            0 <= j < beads@.len() && #[trigger] deps_listed(beads.deep_view(), r.deep_view(), j)
                ==> listed_somewhere(r.deep_view(), beads.deep_view()[j].id),
{
    let ghost ns = beads.deep_view();
    let n = beads.len();
    let mut lm: Vec<(String, usize)> = Vec::new();
    let mut queue: Vec<String> = Vec::new();
    let mut head: usize = 0;
    let mut r: Vec<Vec<String>> = Vec::new();

    let mut i: usize = 0;
    while i < n
        invariant
            n == beads@.len(),
            ns == beads.deep_view(),
            i <= n,
            distinct_level_keys(lm.deep_view()),
            map_sound(ns, lm.deep_view()),
            entries_listed(lm.deep_view(), r.deep_view()),
            levels_match(lm.deep_view(), r.deep_view()),
            forall|j: int|
                0 <= j < lm.deep_view().len() ==> ids(ns).contains((#[trigger] lm.deep_view()[j]).0),
            forall|j: int| 0 <= j < lm.deep_view().len() ==> (#[trigger] lm.deep_view()[j]).1 == 0,
            lm@.len() <= n,
            seed_ids_upto(ns, i as int).len() == 0 ==> r.deep_view().len() == 0,
            seed_ids_upto(ns, i as int).len() > 0 ==> r.deep_view().len() == 1 && r.deep_view()[0]
                == seed_ids_upto(ns, i as int),
            forall|k: int| 0 <= k < r.deep_view().len() ==> #[trigger] r.deep_view()[k].len() > 0,
            forall|d: Seq<char>| #[trigger] lm_assigned(lm.deep_view(), d) ==> exists|q: int|
                0 <= q < queue.deep_view().len() && queue.deep_view()[q] == d,
            forall|j: int|
                0 <= j < i && ns[j].blocked_by.len() == 0 ==> level_of(
                    lm.deep_view(),
                    #[trigger] ns[j].id,
                ) == Some(0usize),
        decreases n - i,
    {
        proof {
            assert(beads.deep_view()[i as int] == beads@[i as int]@);
            assert(ns[i as int].blocked_by == beads@[i as int].blocked_by.deep_view());
        }
        if beads[i].blocked_by.len() == 0 {
            let ghost lmd0 = lm.deep_view();
            let ghost rv0 = r.deep_view();
            let ghost q0 = queue.deep_view();
            match lookup_level(&lm, &beads[i].id) {
                None => {
                    proof {
                        assert(entry_sound(ns, lmd0, ns[i as int].id, 0usize)) by {
                            assert(0 <= i < ns.len() && ns[i as int].id == ns[i as int].id && ns[
                                i as int
                            ].blocked_by.len() == 0);
                        }
                        lemma_record_fresh(ns, lmd0, rv0, ns[i as int].id, 0usize);
                        assert(ids(ns)[i as int] == ns[i as int].id);
                    }
                    push_level_entry(&mut lm, beads[i].id.clone(), 0);
                    if r.len() == 0 {
                        push_new_row(&mut r, beads[i].id.clone());
                    } else {
                        push_row(&mut r, 0, beads[i].id.clone());
                    }
                    push_str(&mut queue, beads[i].id.clone());
                    proof {
                        assert(r.deep_view() == record_row(rv0, ns[i as int].id, 0usize));
                        lemma_key_count_bound(lm.deep_view(), ids(ns));
                        assert(seed_ids_upto(ns, i as int + 1) == seed_ids_upto(ns, i as int).push(
                            ns[i as int].id,
                        ));
                        assert(r.deep_view()[0] =~= seed_ids_upto(ns, i as int + 1));
                        assert(queue.deep_view() == q0.push(ns[i as int].id));
                        assert forall|d: Seq<char>| #[trigger] lm_assigned(
                            lm.deep_view(),
                            d,
                        ) implies exists|q: int|
                            0 <= q < queue.deep_view().len() && queue.deep_view()[q] == d by {
                            lemma_level_of_push(lmd0, (ns[i as int].id, 0usize), d);
                            if lm_assigned(lmd0, d) {
                                let q = choose|q: int| 0 <= q < q0.len() && q0[q] == d;
                                assert(queue.deep_view()[q] == d);
                            } else {
                                assert(d == ns[i as int].id);
                                assert(queue.deep_view()[q0.len() as int] == d);
                            }
                        }
                        assert forall|j: int|
                            0 <= j < i + 1 && ns[j].blocked_by.len() == 0 implies level_of(
                            lm.deep_view(),
                            #[trigger] ns[j].id,
                        ) == Some(0usize) by {
                            lemma_level_of_push(lmd0, (ns[i as int].id, 0usize), ns[j].id);
                        }
                    }
                },
                Some(lv0) => {
                    proof {
                        lemma_level_of_char(lmd0, ns[i as int].id);
                        let jx = choose|j: int|
                            0 <= j < lmd0.len() && lmd0[j].0 == ns[i as int].id && lmd0[j].1 == lv0
                                && (forall|q: int| 0 <= q < j ==> lmd0[q].0 != ns[i as int].id);
                        assert((#[trigger] lmd0[jx]).1 == 0);
                        assert(lv0 == 0);
                        lemma_record_again(ns, lmd0, rv0, ns[i as int].id);
                    }
                    push_row(&mut r, 0, beads[i].id.clone());
                    push_str(&mut queue, beads[i].id.clone());
                    proof {
                        assert(r.deep_view() == rv0.update(0, rv0[0].push(ns[i as int].id)));
                        assert(r.deep_view()[0] =~= seed_ids_upto(ns, i as int + 1));
                        assert(queue.deep_view() == q0.push(ns[i as int].id));
                        assert forall|d: Seq<char>| #[trigger] lm_assigned(
                            lm.deep_view(),
                            d,
                        ) implies exists|q: int|
                            0 <= q < queue.deep_view().len() && queue.deep_view()[q] == d by {
                            let q = choose|q: int| 0 <= q < q0.len() && q0[q] == d;
                            assert(queue.deep_view()[q] == d);
                        }
                    }
                },
            }
        }
        i += 1;
    }

    proof {
        assert forall|j: int|
            0 <= j < ns.len() && !lm_assigned(lm.deep_view(), ns[j].id)
                && #[trigger] all_deps_assigned(ns, lm.deep_view(), j) implies dep_waiting(
            ns,
            queue.deep_view(),
            0int,
            j,
        ) by {
            if ns[j].blocked_by.len() == 0 {
                assert(lm_assigned(lm.deep_view(), ns[j].id));
            } else {
                assert(lm_assigned(lm.deep_view(), ns[j].blocked_by[0]));
                let q = choose|q: int|
                    0 <= q < queue.deep_view().len() && queue.deep_view()[q] == ns[
                        j
                    ].blocked_by[0];
                assert(0 <= 0 < ns[j].blocked_by.len() && 0 <= q < queue.deep_view().len()
                    && queue.deep_view()[q] == ns[j].blocked_by[0]);
                assert(dep_waiting(ns, queue.deep_view(), 0int, j));
            }
        }
    }

    while head < queue.len()
        invariant
            n == beads@.len(),
            ns == beads.deep_view(),
            head <= queue@.len(),
            distinct_level_keys(lm.deep_view()),
            map_sound(ns, lm.deep_view()),
            entries_listed(lm.deep_view(), r.deep_view()),
            levels_match(lm.deep_view(), r.deep_view()),
            forall|j: int|
                0 <= j < lm.deep_view().len() ==> ids(ns).contains((#[trigger] lm.deep_view()[j]).0),
            lm@.len() <= n,
            seed_ids(ns).len() == 0 ==> r.deep_view().len() == 0,
            seed_ids(ns).len() > 0 ==> r.deep_view().len() > 0 && r.deep_view()[0] == seed_ids(ns),
            forall|k: int| 0 <= k < r.deep_view().len() ==> #[trigger] r.deep_view()[k].len() > 0,
            forall|j: int|
                0 <= j < ns.len() && ns[j].blocked_by.len() == 0 ==> level_of(
                    lm.deep_view(),
                    #[trigger] ns[j].id,
                ) == Some(0usize),
            closure_pending(ns, lm.deep_view(), queue.deep_view(), head as int),
        decreases queue@.len() - head + 2 * (n - lm@.len()),
    {
        let ghost m0 = queue@.len() - head + 2 * (n - lm@.len());
        let cur = queue[head].clone();
        head += 1;
        proof {
            assert(cur@ == queue.deep_view()[head as int - 1]);
            assert forall|j: int|
                0 <= j < ns.len() && !lm_assigned(lm.deep_view(), ns[j].id)
                    && #[trigger] all_deps_assigned(ns, lm.deep_view(), j) implies dep_waiting(
                ns,
                queue.deep_view(),
                head as int,
                j,
            ) || (0 <= j && ns[j].blocked_by.contains(cur@)) by {
                assert(dep_waiting(ns, queue.deep_view(), head as int - 1, j));
                let (t, q) = choose|t: int, q: int|
                    0 <= t < ns[j].blocked_by.len() && head as int - 1 <= q
                        < queue.deep_view().len() && #[trigger] queue.deep_view()[q]
                        == #[trigger] ns[j].blocked_by[t];
                if q == head as int - 1 {
                    assert(ns[j].blocked_by[t] == cur@);
                } else {
                    assert(dep_waiting(ns, queue.deep_view(), head as int, j));
                }
            }
        }
        let mut i: usize = 0;
        while i < n
            invariant
                n == beads@.len(),
                ns == beads.deep_view(),
                i <= n,
                head <= queue@.len(),
                distinct_level_keys(lm.deep_view()),
                map_sound(ns, lm.deep_view()),
                entries_listed(lm.deep_view(), r.deep_view()),
                levels_match(lm.deep_view(), r.deep_view()),
                forall|j: int|
                    0 <= j < lm.deep_view().len() ==> ids(ns).contains(
                        (#[trigger] lm.deep_view()[j]).0,
                    ),
                lm@.len() <= n,
                seed_ids(ns).len() == 0 ==> r.deep_view().len() == 0,
                seed_ids(ns).len() > 0 ==> r.deep_view().len() > 0 && r.deep_view()[0] == seed_ids(
                    ns,
                ),
                forall|k: int|
                    0 <= k < r.deep_view().len() ==> #[trigger] r.deep_view()[k].len() > 0,
                forall|j: int|
                    0 <= j < ns.len() && ns[j].blocked_by.len() == 0 ==> level_of(
                        lm.deep_view(),
                        #[trigger] ns[j].id,
                    ) == Some(0usize),
                queue@.len() - head + 2 * (n - lm@.len()) <= m0 - 1,
                forall|j: int|
                    0 <= j < ns.len() && !lm_assigned(lm.deep_view(), ns[j].id)
                        && #[trigger] all_deps_assigned(ns, lm.deep_view(), j) ==> dep_waiting(
                        ns,
                        queue.deep_view(),
                        head as int,
                        j,
                    ) || (i as int <= j && ns[j].blocked_by.contains(cur@)),
            decreases n - i,
        {
            proof {
                assert(beads.deep_view()[i as int] == beads@[i as int]@);
                assert(ns[i as int].blocked_by == beads@[i as int].blocked_by.deep_view());
            }
            if contains_str(&beads[i].blocked_by, &cur) {
                match lookup_level(&lm, &beads[i].id) {
                    Some(_) => {},
                    None => {
                        let ghost lmd0 = lm.deep_view();
                        let ghost rv0 = r.deep_view();
                        match deps_max_level(&lm, &beads[i].blocked_by) {
                            Some(best) => {
                                proof {
                                    let t_best = choose|t: int|
                                        0 <= t < ns[i as int].blocked_by.len() && level_of(
                                            lmd0,
                                            #[trigger] ns[i as int].blocked_by[t],
                                        ) == Some(best);
                                    lemma_level_of_char(lmd0, ns[i as int].blocked_by[t_best]);
                                    let jb = choose|j: int|
                                        0 <= j < lmd0.len() && lmd0[j].0 == ns[
                                            i as int
                                        ].blocked_by[t_best] && lmd0[j].1 == best && (forall|q: int|
                                            0 <= q < j ==> lmd0[q].0 != ns[
                                                i as int
                                            ].blocked_by[t_best]);
                                    assert((#[trigger] lmd0[jb]).1 < rv0.len());
                                }
                                let rl = r.len();
                                let lv = best + 1;
                                proof {
                                    assert(lv as int <= rv0.len());
                                    assert(dep_levels_ok(ns, lmd0, i as int, lv as int));
                                    assert(entry_sound(ns, lmd0, ns[i as int].id, lv)) by {
                                        assert(0 <= i < ns.len() && ns[i as int].id == ns[
                                            i as int
                                        ].id && dep_levels_ok(ns, lmd0, i as int, lv as int));
                                    }
                                    lemma_record_fresh(ns, lmd0, rv0, ns[i as int].id, lv);
                                    assert(ids(ns)[i as int] == ns[i as int].id);
                                }
                                let ghost q0 = queue.deep_view();
                                push_level_entry(&mut lm, beads[i].id.clone(), lv);
                                if lv == rl {
                                    push_new_row(&mut r, beads[i].id.clone());
                                } else {
                                    push_row(&mut r, lv, beads[i].id.clone());
                                }
                                push_str(&mut queue, beads[i].id.clone());
                                proof {
                                    assert(r.deep_view() == record_row(rv0, ns[i as int].id, lv));
                                    lemma_key_count_bound(lm.deep_view(), ids(ns));
                                    assert(r.deep_view()[0] == rv0[0]);
                                    let lmd1 = lm.deep_view();
                                    let q1 = queue.deep_view();
                                    assert(q1 == q0.push(ns[i as int].id));
                                    assert(queue@.len() == q1.len());
                                    assert(q1.len() == q0.len() + 1);
                                    lemma_level_of_push(lmd0, (ns[i as int].id, lv), ns[
                                        i as int
                                    ].id);
                                    assert forall|j: int|
                                        0 <= j < ns.len() && ns[j].blocked_by.len() == 0 implies
                                        level_of(lm.deep_view(), #[trigger] ns[j].id) == Some(
                                        0usize,
                                    ) by {
                                        lemma_level_of_push(lmd0, (ns[i as int].id, lv), ns[j].id);
                                    }
                                    assert forall|k2: int|
                                        0 <= k2 < r.deep_view().len() implies #[trigger] r.deep_view()[k2].len() > 0 by {
                                        if k2 == lv as int {
                                            assert(r.deep_view()[k2].len() > 0);
                                        } else if k2 < rv0.len() {
                                            assert(r.deep_view()[k2] == rv0[k2]);
                                        }
                                    }
                                    assert forall|j: int|
                                        0 <= j < ns.len() && !lm_assigned(lmd1, ns[j].id)
                                            && #[trigger] all_deps_assigned(ns, lmd1, j) implies
                                        dep_waiting(ns, q1, head as int, j) || (i as int + 1 <= j
                                            && ns[j].blocked_by.contains(cur@)) by {
                                        lemma_level_of_push(lmd0, (ns[i as int].id, lv), ns[j].id);
                                        assert(!lm_assigned(lmd0, ns[j].id));
                                        assert(j != i as int);
                                        if all_deps_assigned(ns, lmd0, j) {
                                            if dep_waiting(ns, q0, head as int, j) {
                                                let (t, q) = choose|t: int, q: int|
                                                    0 <= t < ns[j].blocked_by.len() && head as int
                                                        <= q < q0.len() && #[trigger] q0[q]
                                                        == #[trigger] ns[j].blocked_by[t];
                                                assert(q1[q] == ns[j].blocked_by[t]);
                                                assert(dep_waiting(ns, q1, head as int, j));
                                            }
                                        } else {
                                            let t = choose|t: int|
                                                0 <= t < ns[j].blocked_by.len() && !lm_assigned(
                                                    lmd0,
                                                    #[trigger] ns[j].blocked_by[t],
                                                );
                                            assert(lm_assigned(lmd1, ns[j].blocked_by[t]));
                                            lemma_level_of_push(lmd0, (ns[i as int].id, lv), ns[
                                                j
                                            ].blocked_by[t]);
                                            assert(ns[j].blocked_by[t] == ns[i as int].id);
                                            assert(q1[q0.len() as int] == ns[j].blocked_by[t]);
                                            assert(dep_waiting(ns, q1, head as int, j));
                                        }
                                    }
                                }
                            },
                            None => {},
                        }
                    },
                }
            }
            i += 1;
        }
    }
    let ghost lmd = lm.deep_view();
    let ghost rvold = r.deep_view();
    proof {
        assert forall|j: int|
            0 <= j < ns.len() && !lm_assigned(lmd, ns[j].id) implies !#[trigger] all_deps_assigned(
                ns,
                lmd,
                j,
            ) by {
            if all_deps_assigned(ns, lmd, j) {
                assert(dep_waiting(ns, queue.deep_view(), head as int, j));
                let (t, q) = choose|t: int, q: int|
                    0 <= t < ns[j].blocked_by.len() && head as int <= q < queue.deep_view().len()
                        && #[trigger] queue.deep_view()[q] == #[trigger] ns[j].blocked_by[t];
                assert(queue.deep_view().len() == queue@.len());
                assert(false);
            }
        }
    }
    let idsv = collect_ids(beads);
    let tier_count = r.len();
    let mut out: Vec<Vec<String>> = Vec::new();
    let mut k: usize = 0;
    while k < tier_count
        invariant
            k <= tier_count,
            out.deep_view().len() == k,
            forall|k2: int| 0 <= k2 < k ==> #[trigger] out.deep_view()[k2].len() == 0,
        decreases tier_count - k,
    {
        let ghost pre = out@;
        let ghost dpre = out.deep_view();
        out.push(Vec::new());
        proof {
            assert forall|k2: int| 0 <= k2 < k + 1 implies #[trigger] out.deep_view()[k2].len()
                == 0 by {
                assert(out.deep_view()[k2] == out@[k2].deep_view());
                if k2 < k {
                    assert(out@[k2] == pre[k2]);
                    assert(dpre[k2] == pre[k2].deep_view());
                    assert(dpre[k2].len() == 0);
                } else {
                    assert(out@[k2]@.len() == 0);
                }
            }
        }
        k += 1;
    }
    let mut i: usize = 0;
    while i < n
        invariant
            n == beads@.len(),
            ns == beads.deep_view(),
            lmd == lm.deep_view(),
            rvold == r.deep_view(),
            idsv.deep_view() == ids(ns),
            i <= n,
            out.deep_view().len() == tier_count,
            tier_count == rvold.len(),
            distinct_level_keys(lmd),
            entries_listed(lmd, rvold),
            forall|j2: int| 0 <= j2 < lmd.len() ==> ids(ns).contains((#[trigger] lmd[j2]).0),
            forall|j2: int|
                0 <= j2 < ns.len() && ns[j2].blocked_by.len() == 0 ==> level_of(
                    lmd,
                    #[trigger] ns[j2].id,
                ) == Some(0usize),
            map_sound(ns, lmd),
            levels_match(lmd, out.deep_view()),
            forall|k2: int, t: int|
                0 <= k2 < out.deep_view().len() && 0 <= t < out.deep_view()[k2].len() ==> (
                match first_index_of(ids(ns), #[trigger] out.deep_view()[k2][t]) {
                    Some(f2) => f2 < i,
                    None => false,
                }),
            rows_input_ordered(ns, out.deep_view()),
            listed_once(out.deep_view()),
            forall|j2: int|
                0 <= j2 < i && first_index_of(ids(ns), ns[j2].id) == Some(j2) ==> (match level_of(
                    lmd,
                    #[trigger] ns[j2].id,
                ) {
                    Some(l) => listed_at(out.deep_view(), ns[j2].id, l as int),
                    None => true,
                }),
            distinct_ids(ns) && tier_count > 0 ==> out.deep_view()[0] == seed_ids_upto(
                ns,
                i as int,
            ),
        decreases n - i,
    {
        proof {
            assert(beads.deep_view()[i as int] == beads@[i as int]@);
            assert(ns[i as int].blocked_by == beads@[i as int].blocked_by.deep_view());
        }
        match find_index(&idsv, &beads[i].id) {
            Some(fi) => if fi == i {
                match lookup_level(&lm, &beads[i].id) {
                    Some(lv) => {
                        proof {
                            lemma_level_of_char(lmd, ns[i as int].id);
                            let jx = choose|j2: int|
                                0 <= j2 < lmd.len() && lmd[j2].0 == ns[i as int].id && lmd[j2].1
                                    == lv && (forall|q: int|
                                    0 <= q < j2 ==> lmd[q].0 != ns[i as int].id);
                            assert((#[trigger] lmd[jx]).1 < rvold.len());
                        }
                        let ghost ov0 = out.deep_view();
                        push_row(&mut out, lv, beads[i].id.clone());
                        proof {
                            let ov1 = out.deep_view();
                            let nid = ns[i as int].id;
                            assert(ov1 == ov0.update(lv as int, ov0[lv as int].push(nid)));
                            assert forall|k2: int, t: int|
                                0 <= k2 < ov1.len() && 0 <= t < ov1[k2].len() implies (
                            match level_of(lmd, #[trigger] ov1[k2][t]) {
                                Some(l) => l as int == k2,
                                None => false,
                            }) by {
                                if k2 == lv as int && t == ov0[k2].len() {
                                    assert(ov1[k2][t] == nid);
                                } else {
                                    assert(ov1[k2][t] == ov0[k2][t]);
                                }
                            }
                            assert forall|k2: int, t: int|
                                0 <= k2 < ov1.len() && 0 <= t < ov1[k2].len() implies (
                            match first_index_of(ids(ns), #[trigger] ov1[k2][t]) {
                                Some(f2) => f2 < i + 1,
                                None => false,
                            }) by {
                                if k2 == lv as int && t == ov0[k2].len() {
                                    assert(ov1[k2][t] == nid);
                                } else {
                                    assert(ov1[k2][t] == ov0[k2][t]);
                                }
                            }
                            assert forall|k2: int, t1: int, t2: int|
                                0 <= k2 < ov1.len() && 0 <= t1 < t2 < ov1[k2].len() implies
                                earlier_in_input(ns, #[trigger] ov1[k2][t1], #[trigger] ov1[k2][t2]) by {
                                if k2 == lv as int && t2 == ov0[k2].len() {
                                    assert(ov1[k2][t1] == ov0[k2][t1]);
                                    assert(ov1[k2][t2] == nid);
                                } else {
                                    assert(ov1[k2][t1] == ov0[k2][t1]);
                                    assert(ov1[k2][t2] == ov0[k2][t2]);
                                }
                            }
                            assert forall|k1: int, t1: int, k2: int, t2: int|
                                0 <= k1 < ov1.len() && 0 <= t1 < ov1[k1].len() && 0 <= k2
                                    < ov1.len() && 0 <= t2 < ov1[k2].len() && #[trigger] ov1[k1][t1]
                                    == #[trigger] ov1[k2][t2] implies k1 == k2 && t1 == t2 by {
                                let new1 = k1 == lv as int && t1 == ov0[k1].len();
                                let new2 = k2 == lv as int && t2 == ov0[k2].len();
                                if new1 && !new2 {
                                    assert(ov1[k2][t2] == ov0[k2][t2]);
                                    assert(ov1[k1][t1] == nid);
                                } else if !new1 && new2 {
                                    assert(ov1[k1][t1] == ov0[k1][t1]);
                                    assert(ov1[k2][t2] == nid);
                                } else if !new1 && !new2 {
                                    assert(ov1[k1][t1] == ov0[k1][t1]);
                                    assert(ov1[k2][t2] == ov0[k2][t2]);
                                }
                            }
                            assert forall|j2: int|
                                0 <= j2 < i + 1 && first_index_of(ids(ns), ns[j2].id) == Some(j2)
                                    implies (match level_of(lmd, #[trigger] ns[j2].id) {
                                Some(l) => listed_at(ov1, ns[j2].id, l as int),
                                None => true,
                            }) by {
                                if j2 < i {
                                    match level_of(lmd, ns[j2].id) {
                                        Some(l) => {
                                            let t = choose|t: int|
                                                0 <= t < ov0[l as int].len() && ov0[l as int][t]
                                                    == ns[j2].id;
                                            assert(ov1[l as int][t] == ns[j2].id);
                                        },
                                        None => {},
                                    }
                                } else {
                                    assert(ov1[lv as int][ov0[lv as int].len() as int] == nid);
                                }
                            }
                            if distinct_ids(ns) && tier_count > 0 {
                                if ns[i as int].blocked_by.len() == 0 {
                                    assert(lv == 0);
                                    assert(ov1[0] =~= seed_ids_upto(ns, i as int + 1));
                                } else {
                                    if lv == 0 {
                                        let jw = choose|jw: int|
                                            #![auto]
                                            0 <= jw < ns.len() && ns[jw].id == nid && (if lv == 0 {
                                                ns[jw].blocked_by.len() == 0
                                            } else {
                                                dep_levels_ok(ns, lmd, jw, lv as int)
                                            });
                                        assert(jw == i as int);
                                        assert(false);
                                    }
                                    assert(ov1[0] == ov0[0]);
                                    assert(ov1[0] =~= seed_ids_upto(ns, i as int + 1));
                                }
                            }
                        }
                    },
                    None => {
                        proof {
                            if distinct_ids(ns) && tier_count > 0 {
                                if ns[i as int].blocked_by.len() == 0 {
                                    assert(level_of(lmd, ns[i as int].id) == Some(0usize));
                                    assert(false);
                                }
                                assert(out.deep_view()[0] =~= seed_ids_upto(ns, i as int + 1));
                            }
                        }
                    },
                }
            } else {
                proof {
                    if distinct_ids(ns) {
                        crate::model::lemma_resolve_own_id(ns, i as int);
                        assert(false);
                    }
                }
            },
            None => {
                proof {
                    lemma_first_index_of(ids(ns), ns[i as int].id);
                    assert(ids(ns)[i as int] == ns[i as int].id);
                    assert(false);
                }
            },
        }
        i += 1;
    }
    proof {
        let outv = out.deep_view();
        assert forall|j2: int|
            0 <= j2 < lmd.len() implies (#[trigger] lmd[j2]).1 < outv.len() && listed_at(
            outv,
            lmd[j2].0,
            lmd[j2].1 as int,
        ) by {
            let d = lmd[j2].0;
            assert(ids(ns).contains(d));
            lemma_first_index_of(ids(ns), d);
            match first_index_of(ids(ns), d) {
                Some(p0) => {
                    assert(ids(ns)[p0] == ns[p0].id);
                    lemma_level_of_char(lmd, d);
                    match level_of(lmd, d) {
                        Some(l) => {
                            let jx = choose|jx: int|
                                0 <= jx < lmd.len() && lmd[jx].0 == d && lmd[jx].1 == l && (forall|
                                    q: int,
                                |
                                    0 <= q < jx ==> lmd[q].0 != d);
                            assert(jx == j2);
                            assert(listed_at(outv, d, l as int));
                        },
                        None => {
                            assert(false);
                        },
                    }
                },
                None => {
                    let p = choose|p: int| 0 <= p < ids(ns).len() && ids(ns)[p] == d;
                    assert(false);
                },
            }
        }
        lemma_levels_sound(ns, lmd, outv);
        lemma_levels_complete(ns, lmd, outv);
        assert forall|k2: int| 0 <= k2 < outv.len() implies #[trigger] outv[k2].len() > 0 by {
            assert(rvold[k2].len() > 0);
            let id0 = rvold[k2][0];
            assert(level_of(lmd, id0) == Some(k2 as usize)) by {
                assert(rvold[k2][0] == id0);
            }
            lemma_level_of_char(lmd, id0);
            let jx = choose|jx: int|
                0 <= jx < lmd.len() && lmd[jx].0 == id0 && lmd[jx].1 == k2 as usize && (forall|
                    q: int,
                |
                    0 <= q < jx ==> lmd[q].0 != id0);
            assert(listed_at(outv, lmd[jx].0, lmd[jx].1 as int));
        }
        assert forall|j2: int|
            0 <= j2 < ns.len() && ns[j2].blocked_by.len() == 0 implies listed_at(
            outv,
            #[trigger] ns[j2].id,
            0,
        ) by {
            assert(level_of(lmd, ns[j2].id) == Some(0usize));
            lemma_level_of_char(lmd, ns[j2].id);
            let jx = choose|jx: int|
                0 <= jx < lmd.len() && lmd[jx].0 == ns[j2].id && lmd[jx].1 == 0usize && (forall|
                    q: int,
                |
                    0 <= q < jx ==> lmd[q].0 != ns[j2].id);
            assert(listed_at(outv, lmd[jx].0, lmd[jx].1 as int));
        }
        if seed_ids(ns).len() > 0 {
            assert(rvold.len() > 0);
        }
        if distinct_ids(ns) && outv.len() > 0 {
            assert(outv[0] == seed_ids_upto(ns, n as int));
        }
    }
    out
}

/// Tiers of parallel execution, keyed by tier number from zero upward: see
/// `compute_levels_internal` for the guarantees on each tier.
pub fn compute_levels_impl(beads: &Vec<BeadNode>) -> (r: Vec<Vec<String>>)
    ensures
        seed_ids(beads.deep_view()).len() == 0 ==> r.deep_view().len() == 0,
        seed_ids(beads.deep_view()).len() > 0 ==> r.deep_view().len() > 0,
        distinct_ids(beads.deep_view()) && r.deep_view().len() > 0 ==> r.deep_view()[0]
            == seed_ids(beads.deep_view()),
        listed_once(r.deep_view()),
        rows_input_ordered(beads.deep_view(), r.deep_view()),
        forall|k: int| 0 <= k < r.deep_view().len() ==> #[trigger] r.deep_view()[k].len() > 0,
        forall|k: int, t: int|
            1 <= k < r.deep_view().len() && 0 <= t < r.deep_view()[k].len() ==> level_entry_sound(
                beads.deep_view(),
                r.deep_view(),
                #[trigger] r.deep_view()[k][t],
                k,
            ),
        forall|j: int|
            0 <= j < beads@.len() && beads.deep_view()[j].blocked_by.len() == 0 ==> listed_at(
                r.deep_view(),
                #[trigger] beads.deep_view()[j].id,
                0,
            ),
        forall|j: int|
            0 <= j < beads@.len() && #[trigger] deps_listed(beads.deep_view(), r.deep_view(), j)
                ==> listed_somewhere(r.deep_view(), beads.deep_view()[j].id),
{
    compute_levels_internal(beads)
}


/// Some member of the set blocks node `i`: one of `i`'s blocker ids is the
/// id of a node whose position lies in the set.
pub open spec fn has_blocker_in(ns: Seq<BeadView>, c: Set<int>, i: int) -> bool {
    exists|j: int| c.contains(j) && ns[i].blocked_by.contains(ns[j].id)
}

proof fn lemma_seed_member(ns: Seq<BeadView>, id: Seq<char>, b: int)
    requires
        0 <= b <= ns.len(),
        seed_ids_upto(ns, b).contains(id),
    ensures
        exists|s: int| 0 <= s < ns.len() && ns[s].id == id && ns[s].blocked_by.len() == 0,
    decreases b,
{
    if b > 0 {
        let pre = seed_ids_upto(ns, b - 1);
        if ns[b - 1].blocked_by.len() == 0 {
            let t = choose|t: int|
                0 <= t < seed_ids_upto(ns, b).len() && seed_ids_upto(ns, b)[t] == id;
            if t < pre.len() {
                assert(pre[t] == id);
                lemma_seed_member(ns, id, b - 1);
            } else {
                assert(0 <= b - 1 < ns.len() && ns[b - 1].id == id && ns[b - 1].blocked_by.len()
                    == 0);
            }
        } else {
            lemma_seed_member(ns, id, b - 1);
        }
    }
}

proof fn lemma_cluster_not_listed_upto(
    ns: Seq<BeadView>,
    rv: Seq<Seq<Seq<char>>>,
    c: Set<int>,
    k: int,
)
    requires
        0 <= k,
        distinct_ids(ns),
        forall|i: int| #[trigger] c.contains(i) ==> 0 <= i < ns.len(),
        forall|i: int| #[trigger] c.contains(i) ==> has_blocker_in(ns, c, i),
        rv.len() > 0 ==> rv[0] == seed_ids(ns),
        forall|k2: int, t: int|
            1 <= k2 < rv.len() && 0 <= t < rv[k2].len() ==> level_entry_sound(
                ns,
                rv,
                #[trigger] rv[k2][t],
                k2,
            ),
    ensures
        forall|i: int, k2: int|
            c.contains(i) && 0 <= k2 <= k ==> !#[trigger] listed_at(rv, ns[i].id, k2),
    decreases k,
{
    assert forall|i: int, k2: int| c.contains(i) && 0 <= k2 <= k implies !#[trigger] listed_at(
        rv,
        ns[i].id,
        k2,
    ) by {
        if listed_at(rv, ns[i].id, k2) {
            let t = choose|t: int| 0 <= t < rv[k2].len() && rv[k2][t] == ns[i].id;
            if k2 == 0 {
                assert(seed_ids(ns)[t] == ns[i].id);
                assert(seed_ids(ns).contains(ns[i].id));
                lemma_seed_member(ns, ns[i].id, ns.len() as int);
                let s = choose|s: int|
                    0 <= s < ns.len() && ns[s].id == ns[i].id && ns[s].blocked_by.len() == 0;
                assert(s == i);
                let j = choose|j: int| c.contains(j) && ns[i].blocked_by.contains(ns[j].id);
                assert(ns[i].blocked_by.len() > 0);
                assert(false);
            } else {
                assert(level_entry_sound(ns, rv, rv[k2][t], k2));
                let i2 = choose|i2: int|
                    #![auto]
                    0 <= i2 < ns.len() && ns[i2].id == ns[i].id && ns[i2].blocked_by.len() > 0 && (
                    forall|u: int|
                        0 <= u < ns[i2].blocked_by.len() ==> #[trigger] dep_listed_below(
                            ns,
                            rv,
                            i2,
                            u,
                            k2,
                        )) && (exists|u: int|
                        0 <= u < ns[i2].blocked_by.len() && listed_at(
                            rv,
                            #[trigger] ns[i2].blocked_by[u],
                            k2 - 1,
                        ));
                assert(i2 == i);
                let j = choose|j: int| c.contains(j) && ns[i].blocked_by.contains(ns[j].id);
                let u0 = choose|u0: int|
                    0 <= u0 < ns[i].blocked_by.len() && ns[i].blocked_by[u0] == ns[j].id;
                assert(dep_listed_below(ns, rv, i, u0, k2));
                let kd = choose|kd: int| 0 <= kd < k2 && listed_at(rv, ns[i].blocked_by[u0], kd);
                lemma_cluster_not_listed_upto(ns, rv, c, k - 1);
                assert(!listed_at(rv, ns[j].id, kd));
                assert(false);
            }
        }
    }
}

/// Nodes whose blockers never all resolve receive no tier: in a node set
/// with unique ids, take any set of node positions in which every member is
/// blocked by some member, for instance the nodes of a dependency cycle, or
/// a node blocked only through such a cycle. No member's id appears in any
/// tier of an output that satisfies the guarantees of
/// `compute_levels_impl`.
pub proof fn lemma_blocked_cluster_unassigned(
    ns: Seq<BeadView>,
    rv: Seq<Seq<Seq<char>>>,
    c: Set<int>,
)
    requires
        distinct_ids(ns),
        forall|i: int| #[trigger] c.contains(i) ==> 0 <= i < ns.len(),
        forall|i: int| #[trigger] c.contains(i) ==> has_blocker_in(ns, c, i),
        rv.len() > 0 ==> rv[0] == seed_ids(ns),
        forall|k2: int, t: int|
            1 <= k2 < rv.len() && 0 <= t < rv[k2].len() ==> level_entry_sound(
                ns,
                rv,
                #[trigger] rv[k2][t],
                k2,
            ),
    ensures
        forall|i: int, k: int| c.contains(i) ==> !#[trigger] listed_at(rv, ns[i].id, k),
{
    assert forall|i: int, k: int| c.contains(i) implies !#[trigger] listed_at(rv, ns[i].id, k) by {
        if 0 <= k < rv.len() {
            lemma_cluster_not_listed_upto(ns, rv, c, rv.len() - 1);
        }
    }
}


/// A node with exactly one blocker enters the tier one past its blocker's:
/// whenever the blocker stands in tier `lb` and the node stands in some
/// tier `k` of an output meeting the guarantees of `compute_levels_impl`,
/// then `k == lb + 1`.
pub proof fn lemma_sole_blocker_level(
    ns: Seq<BeadView>,
    rv: Seq<Seq<Seq<char>>>,
    i: int,
    lb: int,
    k: int,
)
    requires
        distinct_ids(ns),
        0 <= i < ns.len(),
        ns[i].blocked_by.len() == 1,
        rv.len() > 0 ==> rv[0] == seed_ids(ns),
        forall|k1: int, t1: int, k2: int, t2: int|
            0 <= k1 < rv.len() && 0 <= t1 < rv[k1].len() && 0 <= k2 < rv.len() && 0 <= t2
                < rv[k2].len() && #[trigger] rv[k1][t1] == #[trigger] rv[k2][t2] ==> k1 == k2,
        forall|k2: int, t: int|
            1 <= k2 < rv.len() && 0 <= t < rv[k2].len() ==> level_entry_sound(
                ns,
                rv,
                #[trigger] rv[k2][t],
                k2,
            ),
        listed_at(rv, ns[i].blocked_by[0], lb),
        listed_at(rv, ns[i].id, k),
    ensures
        k == lb + 1,
{
    let t = choose|t: int| 0 <= t < rv[k].len() && rv[k][t] == ns[i].id;
    if k == 0 {
        assert(seed_ids(ns)[t] == ns[i].id);
        assert(seed_ids(ns).contains(ns[i].id));
        lemma_seed_member(ns, ns[i].id, ns.len() as int);
        let s = choose|s: int|
            0 <= s < ns.len() && ns[s].id == ns[i].id && ns[s].blocked_by.len() == 0;
        assert(s == i);
        assert(false);
    } else {
        assert(level_entry_sound(ns, rv, rv[k][t], k));
        let i2 = choose|i2: int|
            #![auto]
            0 <= i2 < ns.len() && ns[i2].id == ns[i].id && ns[i2].blocked_by.len() > 0 && (forall|
                u: int,
            |
                0 <= u < ns[i2].blocked_by.len() ==> #[trigger] dep_listed_below(ns, rv, i2, u, k))
                && (exists|u: int|
                0 <= u < ns[i2].blocked_by.len() && listed_at(
                    rv,
                    #[trigger] ns[i2].blocked_by[u],
                    k - 1,
                ));
        assert(i2 == i);
        let u0 = choose|u0: int|
            0 <= u0 < ns[i].blocked_by.len() && listed_at(rv, #[trigger] ns[i].blocked_by[u0], k - 1);
        assert(u0 == 0);
        let kk = k - 1;
        let ta = choose|ta: int| 0 <= ta < rv[kk].len() && rv[kk][ta] == ns[i].blocked_by[0];
        let tb = choose|tb: int| 0 <= tb < rv[lb].len() && rv[lb][tb] == ns[i].blocked_by[0];
        assert(rv[kk][ta] == rv[lb][tb]);
        assert(kk == lb);
    }
}

} // verus!
