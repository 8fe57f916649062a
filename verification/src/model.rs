use vstd::prelude::*;

verus! {

/// One unit of schedulable work, with its dependency edges recorded in both
/// directions: `blocked_by` lists the ids that must finish before this node,
/// `blocks` lists the ids this node gates.
pub struct BeadNode {
    pub id: String,
    pub title: String,
    pub status: String,
    pub priority: i64,
    pub blocked_by: Vec<String>,
    pub blocks: Vec<String>,
    pub duration: Option<u64>,
}

/// Mathematical image of a node: strings as character sequences, integers
/// unbounded.
pub struct BeadView {
    pub id: Seq<char>,
    pub title: Seq<char>,
    pub status: Seq<char>,
    pub priority: int,
    pub blocked_by: Seq<Seq<char>>,
    pub blocks: Seq<Seq<char>>,
    pub duration: Option<int>,
}

impl View for BeadNode {
    type V = BeadView;

    open spec fn view(&self) -> BeadView {
        BeadView {
            id: self.id@,
            title: self.title@,
            status: self.status@,
            priority: self.priority as int,
            blocked_by: self.blocked_by.deep_view(),
            blocks: self.blocks.deep_view(),
            duration: match self.duration {
                Some(d) => Some(d as int),
                None => None,
            },
        }
    }
}

impl DeepView for BeadNode {
    type V = BeadView;

    open spec fn deep_view(&self) -> BeadView {
        self.view()
    }
}

/// The id of every node, in input order.
pub open spec fn ids(ns: Seq<BeadView>) -> Seq<Seq<char>> {
    ns.map_values(|n: BeadView| n.id)
}

/// The status value that marks a finished node.
pub open spec fn closed_status() -> Seq<char> {
    "closed"@
}

/// Position of the first node whose id equals `id`, if any: dependency
/// references resolve to the first occurrence of an id.
pub open spec fn first_index_of(s: Seq<Seq<char>>, id: Seq<char>) -> Option<int>
    decreases s.len(),
{
    if s.len() == 0 {
        None
    } else if s[0] == id {
        Some(0int)
    } else {
        match first_index_of(s.drop_first(), id) {
            Some(j) => Some(j + 1),
            None => None,
        }
    }
}

/// `first_index_of` returns exactly the first matching position, or `None`
/// when no position matches.
pub proof fn lemma_first_index_of(s: Seq<Seq<char>>, id: Seq<char>)
    ensures
        match first_index_of(s, id) {
            Some(j) => 0 <= j < s.len() && s[j] == id && (forall|k: int|
                0 <= k < j ==> s[k] != id),
            None => forall|k: int| 0 <= k < s.len() ==> s[k] != id,
        },
    decreases s.len(),
{
    if s.len() == 0 {
    } else if s[0] == id {
    } else {
        let s2 = s.drop_first();
        lemma_first_index_of(s2, id);
        match first_index_of(s2, id) {
            Some(j) => {
                assert(first_index_of(s, id) == Some(j + 1));
                assert(s[j + 1] == s2[j]);
                assert forall|k: int| 0 <= k < j + 1 implies s[k] != id by {
                    if k > 0 {
                        assert(s[k] == s2[k - 1]);
                    }
                }
            },
            None => {
                assert forall|k: int| 0 <= k < s.len() implies s[k] != id by {
                    if k > 0 {
                        assert(s[k] == s2[k - 1]);
                    }
                }
            },
        }
    }
}

/// Every id resolves to itself when ids are unique.
pub proof fn lemma_resolve_own_id(ns: Seq<BeadView>, i: int)
    requires
        0 <= i < ns.len(),
        forall|p: int, q: int| 0 <= p < q < ns.len() ==> ns[p].id != ns[q].id,
    ensures
        first_index_of(ids(ns), ns[i].id) == Some(i),
{
    lemma_first_index_of(ids(ns), ns[i].id);
    assert(ids(ns)[i] == ns[i].id);
    match first_index_of(ids(ns), ns[i].id) {
        Some(j) => {
            assert(ids(ns)[j] == ns[j].id);
        },
        None => {
            assert(ids(ns)[i] == ns[i].id);
        },
    }
}

/// First position in `hay` holding a string equal to `needle`.
pub fn find_index(hay: &Vec<String>, needle: &String) -> (r: Option<usize>)
    ensures
        match r {
            Some(j) => first_index_of(hay.deep_view(), needle@) == Some(j as int),
            None => first_index_of(hay.deep_view(), needle@) is None,
        },
{
    let n = hay.len();
    let mut i: usize = 0;
    while i < n
        invariant
            n == hay@.len(),
            i <= n,
            forall|k: int| 0 <= k < i ==> hay.deep_view()[k] != needle@,
        decreases n - i,
    {
        if hay[i] == *needle {
            proof {
                assert(hay.deep_view()[i as int] == hay@[i as int]@);
                lemma_first_index_of(hay.deep_view(), needle@);
            }
            return Some(i);
        }
        proof {
            assert(hay.deep_view()[i as int] == hay@[i as int]@);
        }
        i += 1;
    }
    proof {
        lemma_first_index_of(hay.deep_view(), needle@);
    }
    None
}

/// The ids of the nodes, cloned into their own vector.
pub fn collect_ids(beads: &Vec<BeadNode>) -> (r: Vec<String>)
    ensures
        r.deep_view() =~= ids(beads.deep_view()),
{
    let n = beads.len();
    let mut r: Vec<String> = Vec::new();
    let mut i: usize = 0;
    while i < n
        invariant
            n == beads@.len(),
            i <= n,
            r@.len() == i,
            forall|k: int| 0 <= k < i ==> #[trigger] r@[k]@ == beads@[k].id@,
        decreases n - i,
    {
        let x = beads[i].id.clone();
        r.push(x);
        i += 1;
    }
    proof {
        assert forall|k: int| 0 <= k < n implies r.deep_view()[k] == ids(beads.deep_view())[k] by {
            assert(r.deep_view()[k] == r@[k]@);
            assert(ids(beads.deep_view())[k] == beads.deep_view()[k].id);
            assert(beads.deep_view()[k] == beads@[k].deep_view());
        }
        assert(r.deep_view() =~= ids(beads.deep_view()));
    }
    r
}

/// Appending one string to a vector appends its view to the deep view.
pub fn push_str(r: &mut Vec<String>, x: String)
    ensures
        final(r).deep_view() == old(r).deep_view().push(x@),
{
    let ghost pre = r@;
    let ghost dpre = r.deep_view();
    r.push(x);
    proof {
        assert forall|k: int| 0 <= k < r@.len() implies r.deep_view()[k] == dpre.push(x@)[k] by {
            if k < pre.len() {
                assert(r@[k] == pre[k]);
                assert(dpre[k] == pre[k]@);
            }
        }
        assert(r.deep_view() =~= dpre.push(x@));
    }
}

} // verus!
