//! Mirror benchmarking: ordering measured fetch times, fastest first
//! and failures last, and picking the preferred mirror.

use vstd::multiset::Multiset;
use vstd::prelude::*;
use vstd::string::StringSliceAdditionalSpecFns;

verus! {

/// One mirror's measured result: the wall-clock milliseconds of the
/// reference fetch, or nothing when the fetch failed.
pub struct BenchResult {
    pub mirror: String,
    pub url: String,
    pub time_ms: Option<u64>,
}

/// Model of a benchmark result.
pub struct BenchModel {
    pub mirror: Seq<char>,
    pub url: Seq<char>,
    pub time_ms: Option<nat>,
}

impl View for BenchResult {
    type V = BenchModel;

    open spec fn view(&self) -> BenchModel {
        BenchModel {
            mirror: self.mirror@,
            url: self.url@,
            time_ms: match self.time_ms {
                Option::None => Option::None,
                Option::Some(t) => Option::Some(t as nat),
            },
        }
    }
}

impl Clone for BenchResult {
    fn clone(&self) -> (res: Self)
        ensures
            res@ == self@,
    {
        BenchResult { mirror: self.mirror.clone(), url: self.url.clone(), time_ms: self.time_ms }
    }
}

/// The ordering key: the time, with a failure after every real time.
pub open spec fn bench_key(b: BenchModel) -> nat {
    match b.time_ms {
        Option::Some(t) => t,
        Option::None => (u64::MAX as nat) + 1,
    }
}

fn exec_bench_key(b: &BenchResult) -> (r: u128)
    ensures
        r as nat == bench_key(b@),
{
    match b.time_ms {
        Option::Some(t) => t as u128,
        Option::None => 0x1_0000_0000_0000_0000u128,
    }
}

/// Ascending by key: fastest first, failures last.
pub open spec fn bench_sorted(s: Seq<BenchModel>) -> bool {
    forall|i: int, j: int|
        0 <= i < j < s.len() ==> bench_key(#[trigger] s[i]) <= bench_key(#[trigger] s[j])
}

pub open spec fn bench_views(s: Seq<BenchResult>) -> Seq<BenchModel> {
    s.map(|_i: int, b: BenchResult| b@)
}

/// Order the results: ascending measured time, failures last; the
/// output holds exactly the input results.
#[verifier::loop_isolation(false)]
#[verifier::rlimit(60)]
pub fn sort_bench_results(results: &Vec<BenchResult>) -> (r: Vec<BenchResult>)
    ensures
        bench_sorted(bench_views(r@)),
        bench_views(r@).to_multiset() == bench_views(results@).to_multiset(),
        r@.len() == results@.len(),
{
    broadcast use vstd::seq_lib::group_to_multiset_ensures;

    let mut out: Vec<BenchResult> = Vec::new();
    let n = results.len();
    let mut i: usize = 0;
    proof {
        assert(bench_views(out@) =~= Seq::<BenchModel>::empty());
        assert(bench_views(results@).take(0) =~= Seq::<BenchModel>::empty());
        assert(bench_views(out@).to_multiset() =~= bench_views(results@).take(0).to_multiset());
    }
    while i < n
        invariant
            0 <= i <= n,
            out@.len() == i,
            bench_sorted(bench_views(out@)),
            bench_views(out@).to_multiset() == bench_views(results@).take(i as int).to_multiset(),
        decreases n - i,
    {
        let x = results[i].clone();
        let ghost xm = x@;
        let key = exec_bench_key(&x);
        // find the first position whose key exceeds the new key
        let mut p: usize = 0;
        while p < out.len() && exec_bench_key(&out[p]) <= key
            invariant
                0 <= p <= out@.len(),
                forall|m: int| 0 <= m < p ==> bench_key(#[trigger] bench_views(out@)[m]) <= bench_key(xm),
            decreases out@.len() - p,
        {
            p = p + 1;
        }
        let ghost before = out@;
        out.insert(p, x);
        proof {
            // order: everything before keeps its place, everything after shifts
            assert forall|a: int, b: int|
                0 <= a < b < bench_views(out@).len() implies bench_key(
                #[trigger] bench_views(out@)[a],
            ) <= bench_key(#[trigger] bench_views(out@)[b]) by {
                let pv = p as int;
                if a < pv && b == pv {
                    assert(bench_views(out@)[a] == bench_views(before)[a]);
                } else if a == pv && b > pv {
                    assert(bench_views(out@)[b] == bench_views(before)[b - 1]);
                    assert(bench_key(bench_views(before)[pv]) > bench_key(xm));
                    assert(bench_key(bench_views(before)[b - 1]) >= bench_key(
                        bench_views(before)[pv],
                    ));
                } else if a < pv && b > pv {
                    assert(bench_views(out@)[a] == bench_views(before)[a]);
                    assert(bench_views(out@)[b] == bench_views(before)[b - 1]);
                } else if a > pv {
                    assert(bench_views(out@)[a] == bench_views(before)[a - 1]);
                    assert(bench_views(out@)[b] == bench_views(before)[b - 1]);
                } else if b < pv {
                    assert(bench_views(out@)[a] == bench_views(before)[a]);
                    assert(bench_views(out@)[b] == bench_views(before)[b]);
                }
            }
            // contents: one more copy of the inserted result
            assert(bench_views(out@).remove(p as int) =~= bench_views(before));
            assert(bench_views(out@)[p as int] == xm);
            assert(bench_views(out@).to_multiset() =~= bench_views(before).to_multiset().insert(
                xm,
            ));
            assert(bench_views(results@).take(i + 1) =~= bench_views(results@).take(
                i as int,
            ).push(xm));
        }
        i = i + 1;
    }
    proof {
        assert(bench_views(results@).take(n as int) =~= bench_views(results@));
    }
    out
}

/// The mirror to prefer after a benchmark: the first of the ordered
/// results.
pub fn best_mirror(sorted: &Vec<BenchResult>) -> (r: Option<&String>)
    ensures
        match r {
            Some(m) => sorted@.len() > 0 && m@ == bench_views(sorted@)[0].mirror,
            None => sorted@.len() == 0,
        },
{
    if sorted.len() == 0 {
        None
    } else {
        Some(&sorted[0].mirror)
    }
}

/// Transfer rate in bytes per second from a size and a measured time,
/// saturating at the integer limit; the time must be positive.
pub fn speed_bytes_per_sec(size: u64, ms: u64) -> (r: u64)
    requires
        ms > 0,
    ensures
        r as nat == crate::actions::cap_u64((size as nat / ms as nat) * 1024),
{
    let per_ms: u128 = (size as u128) / (ms as u128);
    let scaled: u128 = per_ms * 1024;
    if scaled > 0xffff_ffff_ffff_ffffu128 {
        u64::MAX
    } else {
        scaled as u64
    }
}

} // verus!
