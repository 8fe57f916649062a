use vstd::prelude::*;
use crate::model::{BeadNode, BeadView, closed_status, push_str};

verus! {

/// Some node with this id is marked closed.
pub open spec fn is_closed_id(ns: Seq<BeadView>, id: Seq<char>) -> bool {
    exists|i: int| 0 <= i < ns.len() && ns[i].id == id && ns[i].status == closed_status()
}

/// A node is ready when it is not closed itself and every one of its
/// blockers is the id of a closed node. A blocker id that matches no node
/// counts as not closed, so a dangling reference keeps a node unready.
pub open spec fn is_ready(ns: Seq<BeadView>, i: int) -> bool {
    &&& ns[i].status != closed_status()
    &&& forall|t: int| 0 <= t < ns[i].blocked_by.len() ==> is_closed_id(ns, ns[i].blocked_by[t])
}

/// Ids of the ready nodes among the first `i`, in input order.
pub open spec fn ready_ids_upto(ns: Seq<BeadView>, i: int) -> Seq<Seq<char>>
    decreases i,
{
    if i <= 0 {
        Seq::empty()
    } else if is_ready(ns, i - 1) {
        ready_ids_upto(ns, i - 1).push(ns[i - 1].id)
    } else {
        ready_ids_upto(ns, i - 1)
    }
}

/// Ids of all ready nodes, in input order.
pub open spec fn ready_ids(ns: Seq<BeadView>) -> Seq<Seq<char>> {
    ready_ids_upto(ns, ns.len() as int)
}

/// Whether the node's status is exactly the closed marker.
fn status_is_closed(b: &BeadNode) -> (r: bool)
    ensures
        r == (b@.status == closed_status()),
{
    let c: String = "closed".to_owned();
    b.status == c
}

/// Whether some node in the set carries this id and is closed.
fn id_closed(beads: &Vec<BeadNode>, id: &String) -> (r: bool)
    ensures
        r == is_closed_id(beads.deep_view(), id@),
{
    let n = beads.len();
    let mut i: usize = 0;
    while i < n
        invariant
            n == beads@.len(),
            i <= n,
            forall|k: int|
                0 <= k < i ==> !(beads.deep_view()[k].id == id@ && beads.deep_view()[k].status
                    == closed_status()),
        decreases n - i,
    {
        proof {
            assert(beads.deep_view()[i as int] == beads@[i as int]@);
        }
        if beads[i].id == *id && status_is_closed(&beads[i]) {
            return true;
        }
        i += 1;
    }
    false
}

/// Whether every id in `blockers` is the id of a closed node.
fn all_blockers_closed(beads: &Vec<BeadNode>, blockers: &Vec<String>) -> (r: bool)
    ensures
        r == (forall|t: int|
            0 <= t < blockers@.len() ==> is_closed_id(beads.deep_view(), blockers.deep_view()[t])),
{
    let m = blockers.len();
    let mut t: usize = 0;
    while t < m
        invariant
            m == blockers@.len(),
            t <= m,
            forall|u: int| 0 <= u < t ==> is_closed_id(beads.deep_view(), blockers.deep_view()[u]),
        decreases m - t,
    {
        proof {
            assert(blockers.deep_view()[t as int] == blockers@[t as int]@);
        }
        if !id_closed(beads, &blockers[t]) {
            return false;
        }
        t += 1;
    }
    true
}

/// Ids of the nodes that are ready to work on, in input order: a node is
/// ready when it is not closed and all of its blockers are closed.
pub fn get_ready_beads_impl(beads: &Vec<BeadNode>) -> (r: Vec<String>)
    ensures
        r.deep_view() == ready_ids(beads.deep_view()),
{
    let ghost ns = beads.deep_view();
    let n = beads.len();
    let mut r: Vec<String> = Vec::new();
    let mut i: usize = 0;
    while i < n
        invariant
            n == beads@.len(),
            ns == beads.deep_view(),
            i <= n,
            r.deep_view() == ready_ids_upto(ns, i as int),
        decreases n - i,
    {
        proof {
            assert(beads.deep_view()[i as int] == beads@[i as int]@);
            assert(ns[i as int].blocked_by == beads@[i as int].blocked_by.deep_view());
        }
        if !status_is_closed(&beads[i]) && all_blockers_closed(beads, &beads[i].blocked_by) {
            proof {
                assert(is_ready(ns, i as int));
            }
            push_str(&mut r, beads[i].id.clone());
        } else {
            proof {
                assert(!is_ready(ns, i as int));
            }
        }
        i += 1;
    }
    r
}

} // verus!
