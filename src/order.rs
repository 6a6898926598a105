//! The default list order: descending CPU usage, ties kept in input order.
use vstd::prelude::*;
use crate::record::ProcessRecord;

verus! {

/// In the default order the record at `a` comes before the record at `b`.
pub open spec fn cpu_before(s: Seq<ProcessRecord>, a: int, b: int) -> bool {
    s[a].cpu > s[b].cpu || (s[a].cpu == s[b].cpu && a < b)
}

/// `ord` lists every position of `s` once, in the default order.
pub open spec fn is_cpu_order(s: Seq<ProcessRecord>, ord: Seq<usize>) -> bool {
    &&& ord.len() == s.len()
    &&& forall|i: int| 0 <= i < ord.len() ==> #[trigger] ord[i] < s.len()
    &&& forall|a: int, b: int|
        0 <= a < b < ord.len() ==> cpu_before(s, #[trigger] ord[a] as int, #[trigger] ord[b] as int)
}

/// Reorders the records by descending CPU usage; records with equal usage keep
/// their relative order.
pub fn sort_by_cpu_desc(records: Vec<ProcessRecord>) -> (r: Vec<ProcessRecord>)
    ensures
        exists|ord: Seq<usize>|
            is_cpu_order(records@, ord) && r@ == ord.map_values(|i: usize| records@[i as int]),
{
    let ghost s = records@;
    let n = records.len();
    let mut rest = records;
    let mut out: Vec<ProcessRecord> = Vec::new();
    let ghost mut ord: Seq<usize> = Seq::empty();
    let mut k: usize = 0;
    while k < n
        invariant
            n == s.len(),
            k <= n,
            rest@ == s.subrange(k as int, n as int),
            out@.len() == k,
            ord.len() == k,
            forall|i: int| 0 <= i < k ==> #[trigger] ord[i] < k,
            forall|a: int, b: int|
                0 <= a < b < k ==> cpu_before(s, #[trigger] ord[a] as int, #[trigger] ord[b] as int),
            forall|i: int| 0 <= i < k ==> #[trigger] out@[i] == s[ord[i] as int],
        decreases n - k,
    {
        let rec = rest.remove(0);
        assert(rec == s[k as int]);
        let mut p: usize = 0;
        while p < out.len() && out[p].cpu >= rec.cpu
            invariant
                p <= k,
                out@.len() == k,
                forall|q: int| 0 <= q < p ==> (#[trigger] out@[q]).cpu >= rec.cpu,
            decreases k - p,
        {
            p = p + 1;
        }
        let ghost prev = ord;
        let ghost prev_out = out@;
        out.insert(p, rec);
        proof {
            ord = prev.insert(p as int, k);
            assert forall|q: int| p <= q < k implies s[#[trigger] prev[q] as int].cpu < s[k as int].cpu by {
                assert(prev_out[p as int].cpu < rec.cpu);
                if q > p {
                    assert(cpu_before(s, prev[p as int] as int, prev[q] as int));
                }
            }
            assert forall|a: int, b: int|
                0 <= a < b < k + 1 implies cpu_before(s, #[trigger] ord[a] as int, #[trigger] ord[b] as int) by {
                if b < p {
                    assert(ord[a] == prev[a] && ord[b] == prev[b]);
                } else if b == p {
                    assert(prev_out[a].cpu >= rec.cpu);
                } else if a < p {
                    assert(cpu_before(s, prev[a] as int, prev[b - 1] as int));
                } else if a == p {
                    assert(s[prev[b - 1] as int].cpu < s[k as int].cpu);
                } else {
                    assert(cpu_before(s, prev[a - 1] as int, prev[b - 1] as int));
                }
            }
            assert forall|i: int| 0 <= i < k + 1 implies #[trigger] out@[i] == s[ord[i] as int] by {
                if i < p {
                    assert(out@[i] == prev_out[i]);
                } else if i > p {
                    assert(out@[i] == prev_out[i - 1]);
                }
            }
        }
        k = k + 1;
    }
    assert(out@ =~= ord.map_values(|i: usize| s[i as int]));
    assert(is_cpu_order(s, ord));
    out
}

} // verus!
