//! A compressed set of integers, stored as sorted, disjoint half-open runs.
use vstd::prelude::*;

use crate::error::LandmaskError;

verus! {

/// Runs `[start, end)` that are each non-empty and lie in increasing order
/// without overlap.
pub open spec fn runs_wf(runs: Seq<(u64, u64)>) -> bool {
    &&& forall|i: int| 0 <= i < runs.len() ==> #[trigger] runs[i].0 < runs[i].1
    &&& forall|i: int, j: int|
        0 <= i < j < runs.len() ==> #[trigger] runs[i].1 <= #[trigger] runs[j].0
}

/// Whether some run holds `v`.
pub open spec fn runs_have(runs: Seq<(u64, u64)>, v: int) -> bool {
    exists|i: int| 0 <= i < runs.len() && #[trigger] runs[i].0 <= v < runs[i].1
}

/// A set of integers held as runs of consecutive members: a lone member is a
/// run of one, a dense block is a single run.
#[derive(Debug)]
pub struct RunSet {
    runs: Vec<(u64, u64)>,
}

impl RunSet {
    pub closed spec fn runs(&self) -> Seq<(u64, u64)> {
        self.runs@
    }

    pub open spec fn wf(&self) -> bool {
        runs_wf(self.runs())
    }

    /// The members of the set.
    pub open spec fn view(&self) -> Set<int> {
        Set::new(|v: int| runs_have(self.runs(), v))
    }

    /// The empty set.
    pub fn empty() -> (r: RunSet)
        ensures
            r.wf(),
            r@ == Set::<int>::empty(),
    {
        let r = RunSet { runs: Vec::new() };
        assert(r@ =~= Set::<int>::empty());
        r
    }

    /// Takes runs `[start, end)` as they are, or reports a `DataError` where
    /// one is empty or they are not in increasing order without overlap.
    pub fn from_runs(runs: Vec<(u64, u64)>) -> (r: Result<RunSet, LandmaskError>)
        ensures
            runs_wf(runs@) ==> (r matches Ok(s) && s.runs() == runs@ && s.wf()),
            !runs_wf(runs@) ==> r == Err::<RunSet, LandmaskError>(LandmaskError::DataError),
    {
        let n = runs.len();
        let mut k: usize = 0;
        while k < n
            invariant
                n == runs@.len(),
                k <= n,
                runs_wf(runs@.subrange(0, k as int)),
            decreases n - k,
        {
            let (s, e) = runs[k];
            if s >= e {
                proof {
                    assert(runs@[k as int].0 >= runs@[k as int].1);
                }
                return Err(LandmaskError::DataError);
            }
            if k > 0 && runs[k - 1].1 > s {
                proof {
                    assert(runs@[k - 1].1 > runs@[k as int].0);
                }
                return Err(LandmaskError::DataError);
            }
            proof {
                let p = runs@.subrange(0, k as int);
                let p2 = runs@.subrange(0, k + 1);
                assert forall|i: int, j: int| 0 <= i < j < p2.len() implies #[trigger] p2[i].1
                    <= #[trigger] p2[j].0 by {
                    if j == k && i < k - 1 {
                        assert(p[i].1 <= p[k - 1].0);
                        assert(p[k - 1].0 < p[k - 1].1);
                    }
                    if j < k {
                        assert(p[i].1 <= p[j].0);
                    }
                }
                assert forall|i: int| 0 <= i < p2.len() implies #[trigger] p2[i].0 < p2[i].1 by {
                    if i < k {
                        assert(p[i].0 < p[i].1);
                    }
                }
            }
            k = k + 1;
        }
        assert(runs@.subrange(0, n as int) =~= runs@);
        Ok(RunSet { runs })
    }

    /// Membership, by binary search over the runs.
    pub fn contains(&self, v: u64) -> (r: bool)
        requires
            self.wf(),
        ensures
            r == self@.contains(v as int),
    {
        let runs = &self.runs;
        let mut lo: usize = 0;
        let mut hi: usize = runs.len();
        while lo < hi
            invariant
                lo <= hi <= runs@.len(),
                runs_wf(runs@),
                forall|i: int| 0 <= i < lo ==> #[trigger] runs@[i].0 <= v,
                forall|i: int| hi <= i < runs@.len() ==> #[trigger] runs@[i].0 > v,
            decreases hi - lo,
        {
            let mid = lo + (hi - lo) / 2;
            if runs[mid].0 <= v {
                proof {
                    assert forall|i: int| 0 <= i < mid + 1 implies #[trigger] runs@[i].0 <= v by {
                        if i < mid {
                            assert(runs@[i].0 < runs@[i].1);
                            assert(runs@[i].1 <= runs@[mid as int].0);
                        }
                    }
                }
                lo = mid + 1;
            } else {
                proof {
                    assert forall|i: int| mid <= i < runs@.len() implies #[trigger] runs@[i].0
                        > v by {
                        if i > mid {
                            assert(runs@[mid as int].0 < runs@[mid as int].1);
                            assert(runs@[mid as int].1 <= runs@[i].0);
                        }
                    }
                }
                hi = mid;
            }
        }
        let r = lo > 0 && v < runs[lo - 1].1;
        proof {
            if runs_have(runs@, v as int) {
                let i = choose|i: int| 0 <= i < runs@.len() && #[trigger] runs@[i].0 <= v
                    < runs@[i].1;
                assert(i < lo);
                if i < lo - 1 {
                    assert(runs@[i].1 <= runs@[lo - 1].0);
                }
            }
            if r {
                assert(runs@[lo - 1].0 <= v < runs@[lo - 1].1);
            }
            assert(self@.contains(v as int) == runs_have(runs@, v as int));
        }
        r
    }
}

} // verus!
