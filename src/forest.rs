//! The parent/child forest of one tick's records.
//!
//! Records are referred to by their position in the tick's list. A record's
//! parent is the first record whose id equals its `parent_id`; a record with
//! no `parent_id`, or whose `parent_id` names no record of the list (a ghost
//! parent), is a root.
use vstd::prelude::*;
use crate::record::ProcessRecord;
use std::collections::HashMap;

verus! {

/// Whether some record of `s` has the id `id`.
pub open spec fn has_id(s: Seq<ProcessRecord>, id: u32) -> bool {
    exists|j: int| 0 <= j < s.len() && s[j].id == id
}

/// The first position below `k` that holds a record with id `id`.
pub open spec fn find_id(s: Seq<ProcessRecord>, id: u32, k: nat) -> Option<int>
    decreases k,
{
    if k == 0 {
        None
    } else {
        match find_id(s, id, (k - 1) as nat) {
            Some(j) => Some(j),
            None => if s[k - 1].id == id {
                Some(k - 1)
            } else {
                None
            },
        }
    }
}

/// The position of the parent of the record at `i`, if it can be resolved.
pub open spec fn parent_of(s: Seq<ProcessRecord>, i: int) -> Option<int> {
    match s[i].parent_id {
        Some(p) => find_id(s, p, s.len()),
        None => None,
    }
}

pub open spec fn is_root(s: Seq<ProcessRecord>, i: int) -> bool {
    parent_of(s, i) is None
}

/// The roots among the first `k` records, in list order.
pub open spec fn roots_upto(s: Seq<ProcessRecord>, k: nat) -> Seq<usize>
    decreases k,
{
    if k == 0 {
        Seq::empty()
    } else {
        let r = roots_upto(s, (k - 1) as nat);
        if is_root(s, k - 1) {
            r.push((k - 1) as usize)
        } else {
            r
        }
    }
}

/// The children of the record at `p` among the first `k` records, in list order.
pub open spec fn children_upto(s: Seq<ProcessRecord>, p: int, k: nat) -> Seq<usize>
    decreases k,
{
    if k == 0 {
        Seq::empty()
    } else {
        let r = children_upto(s, p, (k - 1) as nat);
        if parent_of(s, k - 1) == Some(p) {
            r.push((k - 1) as usize)
        } else {
            r
        }
    }
}

/// Roots, children lists and the reverse parent links of one tick's records,
/// all as positions in the record list.
pub struct ProcessForest {
    pub roots: Vec<usize>,
    pub children: Vec<Vec<usize>>,
    pub parent: Vec<Option<usize>>,
}

/// `f` is the forest of `s`.
pub open spec fn is_forest_of(s: Seq<ProcessRecord>, f: ProcessForest) -> bool {
    &&& f.roots@ == roots_upto(s, s.len())
    &&& f.children@.len() == s.len()
    &&& f.parent@.len() == s.len()
    &&& forall|p: int| 0 <= p < s.len() ==> (#[trigger] f.children@[p])@ == children_upto(s, p, s.len())
    &&& forall|i: int| 0 <= i < s.len() ==> match #[trigger] f.parent@[i] {
        Some(j) => parent_of(s, i) == Some(j as int),
        None => parent_of(s, i) is None,
    }
}

proof fn lemma_find_id(s: Seq<ProcessRecord>, id: u32, k: nat)
    requires
        k <= s.len(),
    ensures
        match find_id(s, id, k) {
            Some(j) => 0 <= j < k && s[j].id == id && forall|m: int| 0 <= m < j ==> s[m].id != id,
            None => forall|m: int| 0 <= m < k ==> s[m].id != id,
        },
    decreases k,
{
    if k > 0 {
        lemma_find_id(s, id, (k - 1) as nat);
    }
}

/// The position of the first record with each id, for every id in the list.
pub fn first_positions(records: &Vec<ProcessRecord>) -> (r: HashMap<u32, usize>)
    ensures
        forall|id: u32| #[trigger] r@.contains_key(id) <==> find_id(records@, id, records@.len()) is Some,
        forall|id: u32| r@.contains_key(id) ==> find_id(records@, id, records@.len()) == Some(#[trigger] r@[id] as int),
{
    broadcast use vstd::std_specs::hash::group_hash_axioms;
    let mut first: HashMap<u32, usize> = HashMap::new();
    let mut i: usize = 0;
    while i < records.len()
        invariant
            i <= records@.len(),
            forall|id: u32| #[trigger] first@.contains_key(id) <==> find_id(records@, id, i as nat) is Some,
            forall|id: u32| first@.contains_key(id) ==> find_id(records@, id, i as nat) == Some(#[trigger] first@[id] as int),
        decreases records@.len() - i,
    {
        let id = records[i].id;
        if !first.contains_key(&id) {
            first.insert(id, i);
        }
        i = i + 1;
    }
    first
}

/// Resolves the parent of every record through a lookup of the ids present.
pub fn parent_links(records: &Vec<ProcessRecord>) -> (r: Vec<Option<usize>>)
    ensures
        r@.len() == records@.len(),
        forall|i: int| 0 <= i < records@.len() ==> match #[trigger] r@[i] {
            Some(j) => parent_of(records@, i) == Some(j as int),
            None => parent_of(records@, i) is None,
        },
{
    broadcast use vstd::std_specs::hash::group_hash_axioms;
    let first = first_positions(records);
    let mut out: Vec<Option<usize>> = Vec::new();
    let mut i: usize = 0;
    while i < records.len()
        invariant
            i <= records@.len(),
            out@.len() == i,
            forall|id: u32| #[trigger] first@.contains_key(id) <==> find_id(records@, id, records@.len()) is Some,
            forall|id: u32| first@.contains_key(id) ==> find_id(records@, id, records@.len()) == Some(#[trigger] first@[id] as int),
            forall|m: int| 0 <= m < i ==> match #[trigger] out@[m] {
                Some(j) => parent_of(records@, m) == Some(j as int),
                None => parent_of(records@, m) is None,
            },
        decreases records@.len() - i,
    {
        let link = match records[i].parent_id {
            Some(p) => match first.get(&p) {
                Some(j) => Some(*j),
                None => None,
            },
            None => None,
        };
        out.push(link);
        i = i + 1;
    }
    out
}

/// Builds the forest of one tick's records: every record is either a root or
/// in the children list of its parent; both keep the order of the input list.
pub fn build_forest(records: &Vec<ProcessRecord>) -> (f: ProcessForest)
    ensures
        is_forest_of(records@, f),
{
    let n = records.len();
    let parent = parent_links(records);
    let mut roots: Vec<usize> = Vec::new();
    let mut children: Vec<Vec<usize>> = Vec::new();
    let mut p: usize = 0;
    while p < n
        invariant
            n == records@.len(),
            p <= n,
            children@.len() == p,
            forall|q: int| 0 <= q < p ==> (#[trigger] children@[q])@ == children_upto(records@, q, 0),
        decreases n - p,
    {
        children.push(Vec::new());
        p = p + 1;
    }
    let mut i: usize = 0;
    while i < n
        invariant
            n == records@.len(),
            i <= n,
            parent@.len() == n,
            forall|m: int| 0 <= m < n ==> match #[trigger] parent@[m] {
                Some(j) => parent_of(records@, m) == Some(j as int),
                None => parent_of(records@, m) is None,
            },
            roots@ == roots_upto(records@, i as nat),
            children@.len() == n,
            forall|q: int| 0 <= q < n ==> (#[trigger] children@[q])@ == children_upto(records@, q, i as nat),
        decreases n - i,
    {
        match parent[i] {
            Some(j) => {
                proof { lemma_find_id(records@, records@[i as int].parent_id->Some_0, n as nat); }
                let mut list: Vec<usize> = Vec::new();
                std::mem::swap(&mut list, &mut children[j]);
                list.push(i);
                std::mem::swap(&mut list, &mut children[j]);
            }
            None => {
                roots.push(i);
            }
        }
        i = i + 1;
    }
    ProcessForest { roots, children, parent }
}

pub(crate) proof fn lemma_parent_in_range(s: Seq<ProcessRecord>, i: int)
    requires
        0 <= i < s.len(),
    ensures
        match parent_of(s, i) {
            Some(p) => 0 <= p < s.len() && s[p].id == s[i].parent_id->Some_0,
            None => s[i].parent_id is None || !has_id(s, s[i].parent_id->Some_0),
        },
{
    if let Some(id) = s[i].parent_id {
        lemma_find_id(s, id, s.len());
    }
}

proof fn lemma_roots_upto(s: Seq<ProcessRecord>, k: nat)
    requires
        k <= s.len() <= usize::MAX,
    ensures
        forall|a: int, b: int|
            0 <= a < b < roots_upto(s, k).len() ==> roots_upto(s, k)[a] < roots_upto(s, k)[b],
        forall|x: int| 0 <= x < roots_upto(s, k).len() ==> roots_upto(s, k)[x] < k,
        forall|i: int| 0 <= i < k ==> (roots_upto(s, k).contains(i as usize) <==> is_root(s, i)),
    decreases k,
{
    if k > 0 {
        let k1 = (k - 1) as nat;
        lemma_roots_upto(s, k1);
        let r = roots_upto(s, k1);
        assert forall|i: int| 0 <= i < k implies (roots_upto(s, k).contains(i as usize) <==> is_root(s, i)) by {
            if i == k - 1 {
                if !is_root(s, i) {
                    if r.contains(i as usize) {
                        let x = choose|x: int| 0 <= x < r.len() && r[x] == i as usize;
                    }
                } else {
                    assert(roots_upto(s, k)[r.len() as int] == i as usize);
                }
            } else if is_root(s, k - 1) {
                if r.contains(i as usize) {
                    let x = choose|x: int| 0 <= x < r.len() && r[x] == i as usize;
                    assert(roots_upto(s, k)[x] == i as usize);
                }
                if roots_upto(s, k).contains(i as usize) {
                    let x = choose|x: int| 0 <= x < roots_upto(s, k).len() && roots_upto(s, k)[x] == i as usize;
                    assert(r[x] == i as usize);
                }
            }
        }
    }
}

pub(crate) proof fn lemma_children_upto(s: Seq<ProcessRecord>, p: int, k: nat)
    requires
        k <= s.len() <= usize::MAX,
    ensures
        forall|a: int, b: int|
            0 <= a < b < children_upto(s, p, k).len() ==> children_upto(s, p, k)[a] < children_upto(s, p, k)[b],
        forall|x: int| 0 <= x < children_upto(s, p, k).len() ==> children_upto(s, p, k)[x] < k,
        forall|i: int|
            0 <= i < k ==> (children_upto(s, p, k).contains(i as usize) <==> parent_of(s, i) == Some(p)),
    decreases k,
{
    if k > 0 {
        let k1 = (k - 1) as nat;
        lemma_children_upto(s, p, k1);
        let r = children_upto(s, p, k1);
        assert forall|i: int| 0 <= i < k implies (children_upto(s, p, k).contains(i as usize) <==> parent_of(s, i) == Some(p)) by {
            if i == k - 1 {
                if parent_of(s, i) != Some(p) {
                    if r.contains(i as usize) {
                        let x = choose|x: int| 0 <= x < r.len() && r[x] == i as usize;
                    }
                } else {
                    assert(children_upto(s, p, k)[r.len() as int] == i as usize);
                }
            } else if parent_of(s, k - 1) == Some(p) {
                if r.contains(i as usize) {
                    let x = choose|x: int| 0 <= x < r.len() && r[x] == i as usize;
                    assert(children_upto(s, p, k)[x] == i as usize);
                }
                if children_upto(s, p, k).contains(i as usize) {
                    let x = choose|x: int| 0 <= x < children_upto(s, p, k).len() && children_upto(s, p, k)[x] == i as usize;
                    assert(r[x] == i as usize);
                }
            }
        }
    }
}

/// Every record is placed exactly once: it is either among the roots or in
/// the children list of exactly one record, never both, and no list holds an
/// entry twice or an entry that is not a record's position.
pub proof fn lemma_every_record_placed_once(s: Seq<ProcessRecord>)
    requires
        s.len() <= usize::MAX,
    ensures
        roots_upto(s, s.len()).no_duplicates(),
        forall|x: int| 0 <= x < roots_upto(s, s.len()).len() ==> roots_upto(s, s.len())[x] < s.len(),
        forall|p: int| 0 <= p < s.len() ==> (#[trigger] children_upto(s, p, s.len())).no_duplicates(),
        forall|p: int, x: int|
            0 <= p < s.len() && 0 <= x < children_upto(s, p, s.len()).len()
                ==> #[trigger] children_upto(s, p, s.len())[x] < s.len(),
        forall|i: int| 0 <= i < s.len() ==> {
            ||| ((#[trigger] roots_upto(s, s.len()).contains(i as usize)) && forall|p: int|
                0 <= p < s.len() ==> !(#[trigger] children_upto(s, p, s.len())).contains(i as usize))
            ||| (!roots_upto(s, s.len()).contains(i as usize) && exists|p: int|
                0 <= p < s.len() && (#[trigger] children_upto(s, p, s.len())).contains(i as usize) && forall|q: int|
                    0 <= q < s.len() && q != p ==> !(#[trigger] children_upto(s, q, s.len())).contains(i as usize))
        },
{
    let n = s.len();
    lemma_roots_upto(s, n);
    assert forall|p: int| 0 <= p < n implies (#[trigger] children_upto(s, p, n)).no_duplicates()
        && forall|x: int| 0 <= x < children_upto(s, p, n).len() ==> children_upto(s, p, n)[x] < n by {
        lemma_children_upto(s, p, n);
    }
    assert forall|i: int| 0 <= i < n implies {
        ||| ((#[trigger] roots_upto(s, n).contains(i as usize)) && forall|p: int|
            0 <= p < n ==> !(#[trigger] children_upto(s, p, n)).contains(i as usize))
        ||| (!roots_upto(s, n).contains(i as usize) && exists|p: int|
            0 <= p < n && (#[trigger] children_upto(s, p, n)).contains(i as usize) && forall|q: int|
                0 <= q < n && q != p ==> !(#[trigger] children_upto(s, q, n)).contains(i as usize))
    } by {
        lemma_parent_in_range(s, i);
        assert(roots_upto(s, n).contains(i as usize) <==> is_root(s, i));
        assert forall|p: int| 0 <= p < n implies ((#[trigger] children_upto(s, p, n)).contains(i as usize) <==> parent_of(s, i) == Some(p)) by {
            lemma_children_upto(s, p, n);
        }
        if let Some(p) = parent_of(s, i) {
            assert(children_upto(s, p, n).contains(i as usize));
        }
    }
}

/// A record whose `parent_id` names no record of the list is a root.
pub proof fn lemma_ghost_parent_is_root(s: Seq<ProcessRecord>, i: int)
    requires
        s.len() <= usize::MAX,
        0 <= i < s.len(),
        s[i].parent_id is Some,
        !has_id(s, s[i].parent_id->Some_0),
    ensures
        is_root(s, i),
        roots_upto(s, s.len()).contains(i as usize),
{
    lemma_find_id(s, s[i].parent_id->Some_0, s.len());
    assert(is_root(s, i));
    lemma_roots_upto(s, s.len());
    assert(roots_upto(s, s.len()).contains(i as usize) <==> is_root(s, i));
}

} // verus!
