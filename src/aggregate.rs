//! Bottom-up accumulation of CPU usage over the forest: every record ends up
//! with its own usage plus that of all its descendants.
use vstd::prelude::*;
use crate::forest::{children_upto, is_forest_of, lemma_children_upto, parent_of, ProcessForest};
use vstd::set_lib::{lemma_int_range, lemma_len_subset, set_int_range};
use crate::record::ProcessRecord;

verus! {

/// The record reached from `j` by following `k` parent links, if the chain is that long.
pub open spec fn ancestor(s: Seq<ProcessRecord>, j: int, k: nat) -> Option<int>
    decreases k,
{
    if k == 0 {
        Some(j)
    } else {
        match ancestor(s, j, (k - 1) as nat) {
            Some(x) => parent_of(s, x),
            None => None,
        }
    }
}

/// No chain of parent links loops back on itself: from every record the chain
/// ends within as many steps as there are records.
pub open spec fn acyclic(s: Seq<ProcessRecord>) -> bool {
    forall|j: int| 0 <= j < s.len() ==> (#[trigger] ancestor(s, j, s.len())) is None
}

/// The record at `j` lies strictly below the record at `i`.
pub open spec fn is_descendant(s: Seq<ProcessRecord>, j: int, i: int) -> bool {
    exists|t: int| 1 <= t <= s.len() && #[trigger] ancestor(s, j, t as nat) == Some(i)
}

/// The usage of the descendants of `i` among the first `m` records.
pub open spec fn descendant_usage(s: Seq<ProcessRecord>, i: int, m: nat) -> int
    decreases m,
{
    if m == 0 {
        0
    } else {
        descendant_usage(s, i, (m - 1) as nat) + if is_descendant(s, (m - 1) as int, i) {
            s[m - 1].cpu as int
        } else {
            0
        }
    }
}

/// The usage of `i` together with all its descendants.
pub open spec fn subtree_usage(s: Seq<ProcessRecord>, i: int) -> int {
    s[i].cpu as int + descendant_usage(s, i, s.len())
}

/// Every subtree's usage fits in a `u64`.
pub open spec fn totals_fit(s: Seq<ProcessRecord>) -> bool {
    forall|i: int| 0 <= i < s.len() ==> #[trigger] subtree_usage(s, i) <= u64::MAX
}

/// `b` is `a` with at most its usage changed.
pub open spec fn same_but_cpu(a: ProcessRecord, b: ProcessRecord) -> bool {
    &&& a.id == b.id
    &&& a.parent_id == b.parent_id
    &&& a.name == b.name
    &&& a.executable_path == b.executable_path
    &&& a.owner_name == b.owner_name
    &&& a.memory_bytes == b.memory_bytes
    &&& a.kind == b.kind
}

proof fn lemma_ancestor_in_range(s: Seq<ProcessRecord>, j: int, k: nat)
    requires
        0 <= j < s.len(),
    ensures
        ancestor(s, j, k) matches Some(x) ==> 0 <= x < s.len(),
    decreases k,
{
    if k > 0 {
        lemma_ancestor_in_range(s, j, (k - 1) as nat);
        if let Some(x) = ancestor(s, j, (k - 1) as nat) {
            crate::forest::lemma_parent_in_range(s, x);
        }
    }
}

proof fn lemma_ancestor_compose(s: Seq<ProcessRecord>, j: int, a: nat, b: nat)
    ensures
        ancestor(s, j, a + b) == match ancestor(s, j, a) {
            Some(x) => ancestor(s, x, b),
            None => None,
        },
    decreases b,
{
    if b > 0 {
        lemma_ancestor_compose(s, j, a, (b - 1) as nat);
        assert((a + b - 1) as nat == a + (b - 1) as nat);
    }
}

proof fn lemma_ancestor_none_stays(s: Seq<ProcessRecord>, j: int, a: nat, b: nat)
    requires
        a <= b,
        ancestor(s, j, a) is None,
    ensures
        ancestor(s, j, b) is None,
    decreases b - a,
{
    if a < b {
        lemma_ancestor_none_stays(s, j, a, (b - 1) as nat);
    }
}

proof fn lemma_cycle_repeats(s: Seq<ProcessRecord>, p: int, d: nat, m: nat)
    requires
        ancestor(s, p, d) == Some(p),
    ensures
        ancestor(s, p, m * d) == Some(p),
    decreases m,
{
    if m == 0 {
        assert(m * d == 0) by (nonlinear_arith)
            requires m == 0;
    } else {
        lemma_cycle_repeats(s, p, d, (m - 1) as nat);
        lemma_ancestor_compose(s, p, ((m - 1) * d) as nat, d);
        assert(((m - 1) * d) as nat + d == m * d) by (nonlinear_arith)
            requires m > 0;
    }
}

/// Along an acyclic chain, no record is met twice.
proof fn lemma_chain_distinct(s: Seq<ProcessRecord>, j: int, t1: nat, t2: nat)
    requires
        acyclic(s),
        0 <= j < s.len(),
        t1 < t2,
        ancestor(s, j, t1) is Some,
    ensures
        ancestor(s, j, t2) != ancestor(s, j, t1),
{
    let p = ancestor(s, j, t1)->Some_0;
    lemma_ancestor_in_range(s, j, t1);
    let d = (t2 - t1) as nat;
    lemma_ancestor_compose(s, j, t1, d);
    assert(t1 + d == t2);
    if ancestor(s, j, t2) == Some(p) {
        let n = s.len();
        lemma_cycle_repeats(s, p, d, n);
        assert(n <= n * d) by (nonlinear_arith)
            requires d >= 1;
        if n < n * d {
            assert(ancestor(s, p, n) is None);
            lemma_ancestor_none_stays(s, p, n, n * d);
        }
    }
}

/// The record at `j` is the record at `v` or lies below it.
pub open spec fn in_subtree(s: Seq<ProcessRecord>, j: int, v: int) -> bool {
    j == v || is_descendant(s, j, v)
}

/// The positions of the subtree rooted at `v`.
pub open spec fn subtree_set(s: Seq<ProcessRecord>, v: int) -> Set<int> {
    Set::new(|j: int| 0 <= j < s.len() && in_subtree(s, j, v))
}

/// What has reached `u` once the records in `done` have passed their totals
/// up: `u` itself and the subtrees of those of its children that are in `done`.
pub open spec fn gathered(s: Seq<ProcessRecord>, u: int, done: Set<int>) -> Set<int> {
    Set::new(
        |j: int|
            0 <= j < s.len() && (j == u || exists|c: int|
                0 <= c < s.len() && done.contains(c) && parent_of(s, c) == Some(u)
                    && #[trigger] in_subtree(s, j, c)),
    )
}

/// The usage of the records of `set` among the first `m`.
pub open spec fn usage_in(s: Seq<ProcessRecord>, set: Set<int>, m: nat) -> int
    decreases m,
{
    if m == 0 {
        0
    } else {
        usage_in(s, set, (m - 1) as nat) + if set.contains(m - 1) {
            s[m - 1].cpu as int
        } else {
            0
        }
    }
}

/// How many entries of `list` are not yet in `done`.
pub open spec fn waiting(list: Seq<usize>, done: Set<int>) -> nat
    decreases list.len(),
{
    if list.len() == 0 {
        0
    } else {
        waiting(list.drop_last(), done) + if done.contains(list.last() as int) {
            0nat
        } else {
            1nat
        }
    }
}

proof fn lemma_not_own_descendant(s: Seq<ProcessRecord>, v: int)
    requires
        acyclic(s),
        0 <= v < s.len(),
    ensures
        !is_descendant(s, v, v),
{
    if is_descendant(s, v, v) {
        let t = choose|t: int| 1 <= t <= s.len() && #[trigger] ancestor(s, v, t as nat) == Some(v);
        lemma_chain_distinct(s, v, 0, t as nat);
    }
}

/// A descendant is at fewer steps than there are records.
proof fn lemma_descendant_depth(s: Seq<ProcessRecord>, j: int, t: nat)
    requires
        acyclic(s),
        0 <= j < s.len(),
        ancestor(s, j, t) is Some,
    ensures
        t < s.len(),
{
    if t >= s.len() {
        lemma_ancestor_none_stays(s, j, s.len(), t);
    }
}

proof fn lemma_usage_of_subtree(s: Seq<ProcessRecord>, v: int, m: nat)
    requires
        acyclic(s),
        0 <= v < s.len(),
        m <= s.len(),
    ensures
        usage_in(s, subtree_set(s, v), m) == descendant_usage(s, v, m) + if v < m {
            s[v].cpu as int
        } else {
            0
        },
    decreases m,
{
    if m > 0 {
        lemma_usage_of_subtree(s, v, (m - 1) as nat);
        lemma_not_own_descendant(s, v);
    }
}

proof fn lemma_usage_of_single(s: Seq<ProcessRecord>, u: int, m: nat)
    requires
        0 <= u < s.len(),
        m <= s.len(),
    ensures
        usage_in(s, gathered(s, u, Set::empty()), m) == if u < m {
            s[u].cpu as int
        } else {
            0
        },
    decreases m,
{
    if m > 0 {
        lemma_usage_of_single(s, u, (m - 1) as nat);
    }
}

proof fn lemma_usage_union(s: Seq<ProcessRecord>, a: Set<int>, b: Set<int>, m: nat)
    requires
        forall|j: int| 0 <= j < m ==> !(a.contains(j) && b.contains(j)),
    ensures
        usage_in(s, a.union(b), m) == usage_in(s, a, m) + usage_in(s, b, m),
    decreases m,
{
    if m > 0 {
        lemma_usage_union(s, a, b, (m - 1) as nat);
    }
}

proof fn lemma_usage_subset(s: Seq<ProcessRecord>, a: Set<int>, b: Set<int>, m: nat)
    requires
        a.subset_of(b),
    ensures
        usage_in(s, a, m) <= usage_in(s, b, m),
    decreases m,
{
    if m > 0 {
        lemma_usage_subset(s, a, b, (m - 1) as nat);
    }
}

/// Once every child of `v` is done, what has reached `v` is its whole subtree;
/// before that it is part of it.
proof fn lemma_gathered(s: Seq<ProcessRecord>, v: int, done: Set<int>)
    requires
        acyclic(s),
        0 <= v < s.len(),
    ensures
        gathered(s, v, done).subset_of(subtree_set(s, v)),
        (forall|c: int| 0 <= c < s.len() && parent_of(s, c) == Some(v) ==> done.contains(c))
            ==> gathered(s, v, done) == subtree_set(s, v),
{
    let n = s.len();
    assert forall|j: int| #[trigger] gathered(s, v, done).contains(j) implies subtree_set(s, v).contains(j) by {
        if j != v {
            let c = choose|c: int|
                0 <= c < n && done.contains(c) && parent_of(s, c) == Some(v) && #[trigger] in_subtree(s, j, c);
            let t: nat = if j == c {
                0
            } else {
                let t0 = choose|t: int| 1 <= t <= n && #[trigger] ancestor(s, j, t as nat) == Some(c);
                t0 as nat
            };
            assert(ancestor(s, j, t) == Some(c));
            lemma_descendant_depth(s, j, t);
            assert(ancestor(s, j, t + 1) == Some(v));
            assert(is_descendant(s, j, v));
        }
    }
    if forall|c: int| 0 <= c < n && parent_of(s, c) == Some(v) ==> done.contains(c) {
        assert forall|j: int| #[trigger] subtree_set(s, v).contains(j) implies gathered(s, v, done).contains(j) by {
            if j != v {
                let t = choose|t: int| 1 <= t <= n && #[trigger] ancestor(s, j, t as nat) == Some(v);
                let t1 = (t - 1) as nat;
                if ancestor(s, j, t1) is None {
                    lemma_ancestor_none_stays(s, j, t1, t as nat);
                }
                let c = ancestor(s, j, t1)->Some_0;
                lemma_ancestor_in_range(s, j, t1);
                assert(parent_of(s, c) == Some(v));
                if t1 > 0 {
                    assert(is_descendant(s, j, c));
                }
                assert(in_subtree(s, j, c));
            }
        }
        assert(gathered(s, v, done) =~= subtree_set(s, v));
    }
}

/// What has reached the parent `p` of an unfinished child `v` shares no
/// record with the subtree of `v`.
proof fn lemma_gathered_disjoint(s: Seq<ProcessRecord>, p: int, v: int, done: Set<int>)
    requires
        acyclic(s),
        0 <= v < s.len(),
        0 <= p < s.len(),
        parent_of(s, v) == Some(p),
        !done.contains(v),
    ensures
        forall|j: int| !(gathered(s, p, done).contains(j) && #[trigger] subtree_set(s, v).contains(j)),
{
    let n = s.len();
    assert(ancestor(s, v, 0) == Some(v));
    assert(ancestor(s, v, 1) == Some(p));
    assert forall|j: int| !(gathered(s, p, done).contains(j) && #[trigger] subtree_set(s, v).contains(j)) by {
        if gathered(s, p, done).contains(j) && subtree_set(s, v).contains(j) {
            let t2: nat = if j == v {
                0
            } else {
                let t0 = choose|t: int| 1 <= t <= n && #[trigger] ancestor(s, j, t as nat) == Some(v);
                t0 as nat
            };
            assert(ancestor(s, j, t2) == Some(v));
            lemma_ancestor_compose(s, j, t2, 1);
            assert(ancestor(s, j, t2 + 1) == Some(p));
            if j == p {
                lemma_chain_distinct(s, j, 0, t2 + 1);
            } else {
                let c = choose|c: int|
                    0 <= c < n && done.contains(c) && parent_of(s, c) == Some(p) && #[trigger] in_subtree(s, j, c);
                let t1: nat = if j == c {
                    0
                } else {
                    let t0 = choose|t: int| 1 <= t <= n && #[trigger] ancestor(s, j, t as nat) == Some(c);
                    t0 as nat
                };
                assert(ancestor(s, j, t1) == Some(c));
                assert(ancestor(s, j, t1 + 1) == Some(p));
                if t1 < t2 {
                    lemma_chain_distinct(s, j, t1 + 1, t2 + 1);
                } else if t2 < t1 {
                    lemma_chain_distinct(s, j, t2 + 1, t1 + 1);
                }
            }
        }
    }
}

proof fn lemma_descend(s: Seq<ProcessRecord>, done: Set<int>, u0: int, k: nat) -> (x: int)
    requires
        0 <= u0 < s.len(),
        !done.contains(u0),
        forall|v: int|
            0 <= v < s.len() && !done.contains(v) ==> exists|c: int|
                0 <= c < s.len() && !done.contains(c) && #[trigger] parent_of(s, c) == Some(v),
    ensures
        0 <= x < s.len(),
        !done.contains(x),
        ancestor(s, x, k) == Some(u0),
    decreases k,
{
    if k == 0 {
        u0
    } else {
        let x = lemma_descend(s, done, u0, (k - 1) as nat);
        let c = choose|c: int| 0 <= c < s.len() && !done.contains(c) && #[trigger] parent_of(s, c) == Some(x);
        assert(ancestor(s, c, 0) == Some(c));
        assert(ancestor(s, c, 1) == Some(x));
        lemma_ancestor_compose(s, c, 1, (k - 1) as nat);
        assert(1 + (k - 1) as nat == k);
        c
    }
}

/// In an acyclic forest, some unfinished record has all its children done.
proof fn lemma_ready_exists(s: Seq<ProcessRecord>, done: Set<int>, u0: int) -> (v: int)
    requires
        acyclic(s),
        0 <= u0 < s.len(),
        !done.contains(u0),
    ensures
        0 <= v < s.len(),
        !done.contains(v),
        forall|c: int| 0 <= c < s.len() && parent_of(s, c) == Some(v) ==> done.contains(c),
{
    if forall|v: int|
        0 <= v < s.len() && !done.contains(v) ==> exists|c: int|
            0 <= c < s.len() && !done.contains(c) && #[trigger] parent_of(s, c) == Some(v) {
        let x = lemma_descend(s, done, u0, s.len());
        assert(ancestor(s, x, s.len()) is None);
        0
    } else {
        choose|v: int|
            0 <= v < s.len() && !done.contains(v) && !(exists|c: int|
                0 <= c < s.len() && !done.contains(c) && #[trigger] parent_of(s, c) == Some(v))
    }
}

proof fn lemma_waiting_start(list: Seq<usize>)
    ensures
        waiting(list, Set::empty()) == list.len(),
    decreases list.len(),
{
    if list.len() > 0 {
        lemma_waiting_start(list.drop_last());
    }
}

proof fn lemma_waiting_zero(list: Seq<usize>, done: Set<int>)
    ensures
        waiting(list, done) == 0 <==> forall|i: int| 0 <= i < list.len() ==> done.contains(#[trigger] list[i] as int),
    decreases list.len(),
{
    if list.len() > 0 {
        let l = list.drop_last();
        lemma_waiting_zero(l, done);
        if waiting(list, done) == 0 {
            assert forall|i: int| 0 <= i < list.len() implies done.contains(#[trigger] list[i] as int) by {
                if i < list.len() - 1 {
                    assert(list[i] == l[i]);
                }
            }
        }
        if forall|i: int| 0 <= i < list.len() ==> done.contains(#[trigger] list[i] as int) {
            assert forall|i: int| 0 <= i < l.len() implies done.contains(#[trigger] l[i] as int) by {
                assert(list[i] == l[i]);
            }
            assert(done.contains(list[list.len() - 1] as int));
        }
    }
}

proof fn lemma_waiting_step(list: Seq<usize>, done: Set<int>, v: int)
    requires
        list.no_duplicates(),
        !done.contains(v),
        0 <= v <= usize::MAX,
    ensures
        list.contains(v as usize) ==> waiting(list, done.insert(v)) + 1 == waiting(list, done),
        !list.contains(v as usize) ==> waiting(list, done.insert(v)) == waiting(list, done),
    decreases list.len(),
{
    if list.len() > 0 {
        let l = list.drop_last();
        assert(l.no_duplicates()) by {
            assert forall|a: int, b: int| 0 <= a < l.len() && 0 <= b < l.len() && a != b implies l[a] != l[b] by {
                assert(l[a] == list[a] && l[b] == list[b]);
            }
        }
        lemma_waiting_step(l, done, v);
        if list.last() as int == v {
            assert(!l.contains(v as usize)) by {
                if l.contains(v as usize) {
                    let i = choose|i: int| 0 <= i < l.len() && l[i] == v as usize;
                    assert(list[i] == list[list.len() - 1]);
                }
            }
        } else {
            if list.contains(v as usize) {
                let i = choose|i: int| 0 <= i < list.len() && list[i] == v as usize;
                if i == list.len() - 1 {
                    assert(list.last() == v as usize);
                }
                assert(l[i] == v as usize);
            }
            if l.contains(v as usize) {
                let i = choose|i: int| 0 <= i < l.len() && l[i] == v as usize;
                assert(list[i] == v as usize);
            }
        }
    }
}

/// Everything the frontier loops keep true: the countdowns of unfinished
/// children, the finished set, and (for acyclic input whose totals fit) what
/// each record has accumulated.
spec fn propagation_state(
    s: Seq<ProcessRecord>,
    acc: Seq<u64>,
    pending: Seq<usize>,
    done: Set<int>,
    count: nat,
) -> bool {
    &&& acc.len() == s.len()
    &&& pending.len() == s.len()
    &&& done.finite()
    &&& done.len() == count
    &&& forall|u: int| #[trigger] done.contains(u) ==> 0 <= u < s.len()
    &&& forall|u: int| 0 <= u < s.len() ==> #[trigger] pending[u] == waiting(children_upto(s, u, s.len()), done)
    &&& forall|u: int| #[trigger] done.contains(u) ==> pending[u] == 0
    &&& acyclic(s) && totals_fit(s) ==> forall|u: int|
        0 <= u < s.len() ==> #[trigger] acc[u] == usage_in(s, gathered(s, u, done), s.len())
}

/// `f` lists distinct unfinished records whose children are all finished.
spec fn ready_list(s: Seq<ProcessRecord>, f: Seq<usize>, pending: Seq<usize>, done: Set<int>) -> bool {
    &&& f.no_duplicates()
    &&& forall|i: int| 0 <= i < f.len() ==> #[trigger] f[i] < s.len()
    &&& forall|i: int| 0 <= i < f.len() ==> !done.contains(#[trigger] f[i] as int)
    &&& forall|i: int| 0 <= i < f.len() ==> pending[#[trigger] f[i] as int] == 0
}

proof fn lemma_ready(s: Seq<ProcessRecord>, v: int, pending: Seq<usize>, done: Set<int>)
    requires
        0 <= v < s.len() <= usize::MAX,
        pending.len() == s.len(),
        pending[v] == waiting(children_upto(s, v, s.len()), done),
        pending[v] == 0,
    ensures
        forall|c: int| 0 <= c < s.len() && parent_of(s, c) == Some(v) ==> done.contains(c),
{
    let list = children_upto(s, v, s.len());
    lemma_children_upto(s, v, s.len());
    lemma_waiting_zero(list, done);
    assert forall|c: int| 0 <= c < s.len() && parent_of(s, c) == Some(v) implies done.contains(c) by {
        assert(list.contains(c as usize));
        let i = choose|i: int| 0 <= i < list.len() && list[i] == c as usize;
        assert(done.contains(list[i] as int));
    }
}

/// Adds to every record's usage the usage of all its descendants. Records
/// without children form the first frontier; each record of a frontier adds
/// its total to its parent, and a parent whose children have all done so joins
/// the next frontier. Every record joins a frontier at most once, so the loop
/// ends on any input; where the parent links are acyclic and the totals fit,
/// each record ends with exactly its subtree's usage.
pub fn aggregate_usage(records: &mut Vec<ProcessRecord>, forest: &ProcessForest)
    requires
        is_forest_of(old(records)@, *forest),
    ensures
        final(records)@.len() == old(records)@.len(),
        forall|i: int|
            0 <= i < old(records)@.len() ==> same_but_cpu(
                #[trigger] final(records)@[i],
                old(records)@[i],
            ),
        acyclic(old(records)@) && totals_fit(old(records)@) ==> forall|i: int|
            0 <= i < old(records)@.len() ==> #[trigger] final(records)@[i].cpu == subtree_usage(
                old(records)@,
                i,
            ),
{
    let ghost s = records@;
    let ghost cond = acyclic(s) && totals_fit(s);
    let n = records.len();
    proof {
        lemma_int_range(0, n as int);
    }
    let mut acc: Vec<u64> = Vec::new();
    let mut pending: Vec<usize> = Vec::new();
    let mut i: usize = 0;
    while i < n
        invariant
            n == s.len(),
            records@ == s,
            is_forest_of(s, *forest),
            i <= n,
            acc@.len() == i,
            pending@.len() == i,
            forall|k: int| 0 <= k < i ==> #[trigger] acc@[k] == s[k].cpu,
            forall|k: int|
                0 <= k < i ==> #[trigger] pending@[k] == waiting(children_upto(s, k, n as nat), Set::empty()),
        decreases n - i,
    {
        proof {
            lemma_waiting_start(children_upto(s, i as int, n as nat));
        }
        acc.push(records[i].cpu);
        pending.push(forest.children[i].len());
        i = i + 1;
    }
    let ghost mut done: Set<int> = Set::empty();
    let ghost mut count: nat = 0;
    proof {
        if cond {
            assert forall|u: int| 0 <= u < n implies #[trigger] acc@[u] == usage_in(s, gathered(s, u, done), n as nat) by {
                lemma_usage_of_single(s, u, n as nat);
            }
        }
    }
    let mut frontier: Vec<usize> = Vec::new();
    let mut i: usize = 0;
    while i < n
        invariant
            n == s.len(),
            done == Set::<int>::empty(),
            propagation_state(s, acc@, pending@, done, count),
            i <= n,
            forall|a: int, b: int| 0 <= a < b < frontier@.len() ==> frontier@[a] < frontier@[b],
            forall|k: int| 0 <= k < frontier@.len() ==> #[trigger] frontier@[k] < i,
            ready_list(s, frontier@, pending@, done),
            forall|u: int|
                0 <= u < i && !done.contains(u) && pending@[u] == 0 ==> frontier@.contains(u as usize),
        decreases n - i,
    {
        if pending[i] == 0 {
            let ghost before = frontier@;
            frontier.push(i);
            proof {
                assert forall|a: int, b: int| 0 <= a < frontier@.len() && 0 <= b < frontier@.len() && a != b implies frontier@[a] != frontier@[b] by {
                    if a < b {
                        assert(frontier@[a] < frontier@[b]);
                    } else {
                        assert(frontier@[b] < frontier@[a]);
                    }
                }
                assert forall|a: int| 0 <= a < frontier@.len() implies !done.contains(#[trigger] frontier@[a] as int) by {
                    if a < before.len() {
                        assert(frontier@[a] == before[a]);
                    }
                }
                assert forall|u: int| 0 <= u < i + 1 && !done.contains(u) && pending@[u] == 0 implies frontier@.contains(u as usize) by {
                    if u < i {
                        let k = choose|k: int| 0 <= k < before.len() && before[k] == u as usize;
                        assert(frontier@[k] == u as usize);
                    } else {
                        assert(frontier@[before.len() as int] == u as usize);
                    }
                }
            }
        }
        i = i + 1;
    }
    while frontier.len() > 0
        invariant
            n == s.len(),
            records@ == s,
            is_forest_of(s, *forest),
            cond == (acyclic(s) && totals_fit(s)),
            set_int_range(0, n as int).finite(),
            set_int_range(0, n as int).len() == n,
            propagation_state(s, acc@, pending@, done, count),
            count <= n,
            ready_list(s, frontier@, pending@, done),
            forall|u: int|
                0 <= u < n && !done.contains(u) && pending@[u] == 0 ==> frontier@.contains(u as usize),
        decreases n - count,
    {
        let mut next: Vec<usize> = Vec::new();
        let ghost count0 = count;
        let mut k: usize = 0;
        while k < frontier.len()
            invariant
                n == s.len(),
                records@ == s,
                is_forest_of(s, *forest),
                cond == (acyclic(s) && totals_fit(s)),
                set_int_range(0, n as int).finite(),
                set_int_range(0, n as int).len() == n,
                propagation_state(s, acc@, pending@, done, count),
                k <= frontier@.len(),
                count == count0 + k,
                count <= n,
                frontier@.no_duplicates(),
                forall|i: int| 0 <= i < frontier@.len() ==> #[trigger] frontier@[i] < n,
                forall|i: int| k <= i < frontier@.len() ==> !done.contains(#[trigger] frontier@[i] as int),
                forall|i: int| k <= i < frontier@.len() ==> pending@[#[trigger] frontier@[i] as int] == 0,
                ready_list(s, next@, pending@, done),
                forall|i: int, j: int|
                    k <= i < frontier@.len() && 0 <= j < next@.len() ==> #[trigger] frontier@[i] != #[trigger] next@[j],
                forall|u: int|
                    0 <= u < n && !done.contains(u) && pending@[u] == 0 ==> (exists|i: int|
                        k <= i < frontier@.len() && #[trigger] frontier@[i] == u as usize) || next@.contains(u as usize),
            decreases frontier@.len() - k,
        {
            let v = frontier[k];
            let ghost vi = v as int;
            proof {
                lemma_ready(s, vi, pending@, done);
            }
            let ghost old_acc = acc@;
            let ghost old_pending = pending@;
            let ghost old_next = next@;
            let ghost new_done = done.insert(vi);
            match forest.parent[v] {
                Some(p) => {
                    let ghost pi = p as int;
                    proof {
                        crate::forest::lemma_parent_in_range(s, vi);
                        lemma_children_upto(s, pi, n as nat);
                        lemma_waiting_zero(children_upto(s, pi, n as nat), done);
                        assert(children_upto(s, pi, n as nat).contains(v));
                        let ci = choose|ci: int| 0 <= ci < children_upto(s, pi, n as nat).len() && children_upto(s, pi, n as nat)[ci] == v;
                        assert(!done.contains(children_upto(s, pi, n as nat)[ci] as int));
                        assert(pending@[pi] > 0);
                        assert(pi != vi);
                        assert(!done.contains(pi));
                    }
                    let sum = acc[p].saturating_add(acc[v]);
                    acc.set(p, sum);
                    let left = pending[p] - 1;
                    pending.set(p, left);
                    if left == 0 {
                        next.push(p);
                    }
                    proof {
                        assert forall|u: int| 0 <= u < n implies #[trigger] pending@[u] == waiting(children_upto(s, u, n as nat), new_done) by {
                            lemma_children_upto(s, u, n as nat);
                            crate::forest::lemma_every_record_placed_once(s);
                            assert(children_upto(s, u, n as nat).no_duplicates());
                            lemma_waiting_step(children_upto(s, u, n as nat), done, vi);
                            if u != pi {
                                assert(!children_upto(s, u, n as nat).contains(v));
                            }
                        }
                        if cond {
                            lemma_gathered(s, vi, done);
                            lemma_gathered_disjoint(s, pi, vi, done);
                            lemma_usage_union(s, gathered(s, pi, done), subtree_set(s, vi), n as nat);
                            assert(gathered(s, pi, new_done) =~= gathered(s, pi, done).union(subtree_set(s, vi)));
                            lemma_gathered(s, pi, new_done);
                            lemma_usage_subset(s, gathered(s, pi, new_done), subtree_set(s, pi), n as nat);
                            lemma_usage_of_subtree(s, pi, n as nat);
                            assert(subtree_usage(s, pi) <= u64::MAX);
                            assert forall|u: int| 0 <= u < n implies #[trigger] acc@[u] == usage_in(s, gathered(s, u, new_done), n as nat) by {
                                if u != pi {
                                    assert(gathered(s, u, new_done) =~= gathered(s, u, done));
                                }
                            }
                        }
                    }
                }
                None => {
                    proof {
                        assert forall|u: int| 0 <= u < n implies #[trigger] pending@[u] == waiting(children_upto(s, u, n as nat), new_done) by {
                            lemma_children_upto(s, u, n as nat);
                            crate::forest::lemma_every_record_placed_once(s);
                            lemma_waiting_step(children_upto(s, u, n as nat), done, vi);
                            assert(!children_upto(s, u, n as nat).contains(v));
                        }
                        if cond {
                            assert forall|u: int| 0 <= u < n implies #[trigger] acc@[u] == usage_in(s, gathered(s, u, new_done), n as nat) by {
                                assert(gathered(s, u, new_done) =~= gathered(s, u, done));
                            }
                        }
                    }
                }
            }
            proof {
                assert(new_done.subset_of(set_int_range(0, n as int)));
                lemma_len_subset(new_done, set_int_range(0, n as int));
                assert(new_done.len() == done.len() + 1);
                assert forall|j: int| 0 <= j < old_next.len() implies #[trigger] old_next[j] != v by {
                    assert(frontier@[k as int] == v);
                }
                done = new_done;
                count = count + 1;
                assert(ready_list(s, next@, pending@, done)) by {
                    assert forall|j: int| 0 <= j < next@.len() implies pending@[#[trigger] next@[j] as int] == 0 by {
                        if j < old_next.len() {
                            assert(next@[j] == old_next[j]);
                            assert(old_pending[old_next[j] as int] == 0);
                        }
                    }
                    assert forall|j: int| 0 <= j < next@.len() implies !done.contains(#[trigger] next@[j] as int) by {
                        if j < old_next.len() {
                            assert(next@[j] == old_next[j]);
                        }
                    }
                    assert forall|a: int, b: int| 0 <= a < next@.len() && 0 <= b < next@.len() && a != b implies next@[a] != next@[b] by {
                        if a < old_next.len() && b < old_next.len() {
                            assert(next@[a] == old_next[a] && next@[b] == old_next[b]);
                        } else if a < old_next.len() {
                            assert(old_pending[old_next[a] as int] == 0);
                        } else if b < old_next.len() {
                            assert(old_pending[old_next[b] as int] == 0);
                        }
                    }
                }
                assert forall|i: int, j: int|
                    k + 1 <= i < frontier@.len() && 0 <= j < next@.len() implies #[trigger] frontier@[i] != #[trigger] next@[j] by {
                    if j < old_next.len() {
                        assert(next@[j] == old_next[j]);
                    } else {
                        assert(old_pending[frontier@[i] as int] == 0);
                    }
                }
                assert forall|u: int|
                    0 <= u < n && !done.contains(u) && pending@[u] == 0 implies (exists|i: int|
                        k + 1 <= i < frontier@.len() && #[trigger] frontier@[i] == u as usize) || next@.contains(u as usize) by {
                    if old_pending[u] == 0 {
                        if exists|i: int| k <= i < frontier@.len() && #[trigger] frontier@[i] == u as usize {
                            let i = choose|i: int| k <= i < frontier@.len() && #[trigger] frontier@[i] == u as usize;
                            assert(i != k);
                        } else {
                            let j = choose|j: int| 0 <= j < old_next.len() && old_next[j] == u as usize;
                            assert(next@[j] == u as usize);
                        }
                    } else {
                        assert(next@[next@.len() - 1] == u as usize);
                    }
                }
            }
            k = k + 1;
        }
        proof {
            assert(frontier@.len() > 0);
        }
        frontier = next;
    }
    proof {
        if cond {
            assert forall|u: int| 0 <= u < n implies #[trigger] acc@[u] == subtree_usage(s, u) by {
                assert forall|x: int| 0 <= x < n implies done.contains(x) by {
                    if !done.contains(x) {
                        let v = lemma_ready_exists(s, done, x);
                        lemma_children_upto(s, v, n as nat);
                        lemma_waiting_zero(children_upto(s, v, n as nat), done);
                        assert(pending@[v] == 0);
                        assert(frontier@.contains(v as usize));
                    }
                }
                lemma_gathered(s, u, done);
                lemma_usage_of_subtree(s, u, n as nat);
            }
        }
    }
    let mut i: usize = 0;
    while i < n
        invariant
            n == s.len(),
            n == acc@.len(),
            i <= n,
            records@.len() == n,
            forall|k: int| 0 <= k < n ==> same_but_cpu(#[trigger] records@[k], s[k]),
            forall|k: int| 0 <= k < i ==> #[trigger] records@[k].cpu == acc@[k],
        decreases n - i,
    {
        records[i].cpu = acc[i];
        i = i + 1;
    }
}

} // verus!
