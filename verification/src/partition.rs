//! Yaroslavskiy's dual-pivot partition step.
use vstd::prelude::*;
use crate::sorting::{perm, swapped, lemma_swap_perm};
use crate::abi::{SortLogger, LogEvent, logged, lemma_logged_then};

verus! {

/// The dual-pivot partition scheme: one step places two pivots and leaves
/// three unsorted regions.
pub struct Yaroslavskiy;

fn swap_at<L: SortLogger<u64>>(arr: &mut [u64], i: usize, j: usize, logger: &mut L)
    requires
        i < old(arr)@.len(),
        j < old(arr)@.len(),
    ensures
        final(arr)@ == swapped(old(arr)@, i as int, j as int),
        perm(old(arr)@, final(arr)@),
        logged(old(logger).keeps(), old(logger).kept(), final(logger).keeps(), final(logger).kept(), seq![LogEvent::Swap(i as nat, j as nat)]),
{
    proof {
        lemma_swap_perm(arr@, i as int, j as int);
    }
    let a = arr[i];
    let b = arr[j];
    arr[i] = b;
    arr[j] = a;
    logger.swap(i, j);
}

/// `s` split by two placed pivots at `lt <= gt`: everything before `lt` is
/// below `s[lt]`, everything strictly between them lies in `s[lt]..=s[gt]`,
/// everything after `gt` is above `s[gt]`.
pub open spec fn dual_partitioned(s: Seq<u64>, lt: int, gt: int) -> bool {
    &&& 0 <= lt < gt < s.len()
    &&& s[lt] <= s[gt]
    &&& forall|k: int| 0 <= k < lt ==> #[trigger] s[k] < s[lt]
    &&& forall|k: int| lt < k < gt ==> s[lt] <= #[trigger] s[k] <= s[gt]
    &&& forall|k: int| gt < k < s.len() ==> #[trigger] s[k] > s[gt]
}

/// The unsorted regions left around the placed pivots, as half-open ranges.
pub open spec fn regions(lt: int, gt: int, len: int) -> Seq<(usize, usize)> {
    seq![(0usize, lt as usize)] + (if lt + 1 < gt {
        seq![((lt + 1) as usize, gt as usize)]
    } else {
        seq![]
    }) + (if gt + 1 < len {
        seq![((gt + 1) as usize, len as usize)]
    } else {
        seq![]
    })
}

/// The smaller of two values.
pub open spec fn smaller(a: u64, b: u64) -> u64 {
    if a <= b {
        a
    } else {
        b
    }
}

/// The larger of two values.
pub open spec fn larger(a: u64, b: u64) -> u64 {
    if a <= b {
        b
    } else {
        a
    }
}

/// Where the second pivot sits once the first has been swapped to the front.
pub open spec fn placed_second(p1: int, p2: int) -> int {
    if p2 == p1 {
        0
    } else if p2 == 0 {
        p1
    } else {
        p2
    }
}

/// An event of the scan: a comparison with one of the two pivots, held at
/// the front and at `last`, or a swap.
pub open spec fn scan_step(e: LogEvent<u64>, last: int) -> bool {
    match e {
        LogEvent::Compare(_, b) => b == 0 || b == last,
        LogEvent::Swap(_, _) => true,
        _ => false,
    }
}

/// The events of one partition of `len` elements around the pivots at `p1`
/// and `p2` that places them at `lt` and `gt`: the two pivots swapped to the
/// ends and compared, the scan's comparisons and swaps, then the two pivots
/// swapped into place.
pub open spec fn partition_log(es: Seq<LogEvent<u64>>, p1: int, p2: int, len: int, lt: int, gt: int) -> bool {
    &&& es.len() >= 5
    &&& es[0] == LogEvent::<u64>::Swap(p1 as nat, 0)
    &&& es[1] == LogEvent::<u64>::Swap(placed_second(p1, p2) as nat, (len - 1) as nat)
    &&& es[2] == LogEvent::<u64>::Compare(0, (len - 1) as nat)
    &&& es[es.len() - 2] == LogEvent::<u64>::Swap(0, lt as nat)
    &&& es[es.len() - 1] == LogEvent::<u64>::Swap((len - 1) as nat, gt as nat)
    &&& forall|k: int| 3 <= k < es.len() - 2 ==> scan_step(#[trigger] es[k], len - 1)
}

proof fn lemma_log_step(
    k0: bool,
    e0: Seq<LogEvent<u64>>,
    kb: bool,
    eb: Seq<LogEvent<u64>>,
    ka: bool,
    ea: Seq<LogEvent<u64>>,
    es: Seq<LogEvent<u64>>,
    ev: LogEvent<u64>,
)
    requires
        logged(k0, e0, kb, eb, es),
        logged(kb, eb, ka, ea, seq![ev]),
    ensures
        logged(k0, e0, ka, ea, es.push(ev)),
{
    lemma_logged_then(k0, e0, kb, eb, ka, ea, es, seq![ev]);
    assert(es + seq![ev] =~= es.push(ev));
}

impl Yaroslavskiy {
    /// Partition around the elements at `pivots[0]` and `pivots[1]`: the
    /// smaller goes to the front, the larger to the back, and a single
    /// left-to-right scan sorts the rest into three regions; the pivots then
    /// move to their final places. Returns the unsorted regions. Every swap,
    /// and every comparison (with a pivot, by its position), is reported to
    /// `logger`.
    pub fn partition<L: SortLogger<u64>>(arr: &mut [u64], logger: &mut L, pivots: &[usize]) -> (r: Vec<(usize, usize)>)
        requires
            old(arr)@.len() >= 2 ==> pivots@.len() >= 2 && pivots@[0] < old(arr)@.len()
                && pivots@[1] < old(arr)@.len(),
        ensures
            perm(old(arr)@, final(arr)@),
            final(arr)@.len() == old(arr)@.len(),
            old(arr)@.len() < 2 ==> r@.len() == 0 && final(arr)@ == old(arr)@ && *final(logger) == *old(logger),
            old(arr)@.len() >= 2 ==> exists|lt: int, gt: int, es: Seq<LogEvent<u64>>|
                dual_partitioned(final(arr)@, lt, gt) && r@ == regions(lt, gt, old(arr)@.len() as int)
                    && #[trigger] partition_log(es, pivots@[0] as int, pivots@[1] as int, old(arr)@.len() as int, lt, gt)
                    && (pivots@[0] != pivots@[1] ==> final(arr)@[lt] == smaller(old(arr)@[pivots@[0] as int], old(arr)@[pivots@[1] as int])
                        && final(arr)@[gt] == larger(old(arr)@[pivots@[0] as int], old(arr)@[pivots@[1] as int]))
                    && logged(old(logger).keeps(), old(logger).kept(), final(logger).keeps(), final(logger).kept(), es),
    {
        let len = arr.len();
        let mut out: Vec<(usize, usize)> = Vec::new();
        if len < 2 {
            return out;
        }
        let last = len - 1;
        let p1_idx = pivots[0];
        let p2_idx_raw = pivots[1];
        let ghost k0 = logger.keeps();
        let ghost e0 = logger.kept();
        swap_at(arr, p1_idx, 0, logger);
        let ghost a1 = arr@;
        let ghost mut es: Seq<LogEvent<u64>> = seq![LogEvent::Swap(p1_idx as nat, 0)];
        let p2_idx = if p2_idx_raw == p1_idx {
            0
        } else if p2_idx_raw == 0 {
            p1_idx
        } else {
            p2_idx_raw
        };
        assert(p2_idx_raw != p1_idx ==> a1[p2_idx as int] == old(arr)@[p2_idx_raw as int] && p2_idx != 0);
        let ghost kb = logger.keeps();
        let ghost eb = logger.kept();
        swap_at(arr, p2_idx, last, logger);
        proof {
            lemma_log_step(k0, e0, kb, eb, logger.keeps(), logger.kept(), es, LogEvent::Swap(p2_idx as nat, last as nat));
            es = es.push(LogEvent::Swap(p2_idx as nat, last as nat));
        }
        let ghost kb = logger.keeps();
        let ghost eb = logger.kept();
        logger.compare(0, last);
        proof {
            lemma_log_step(k0, e0, kb, eb, logger.keeps(), logger.kept(), es, LogEvent::Compare(0, last as nat));
            es = es.push(LogEvent::Compare(0, last as nat));
        }
        let ghost head = es;
        if arr[0] > arr[last] {
            let ghost kb = logger.keeps();
            let ghost eb = logger.kept();
            swap_at(arr, 0, last, logger);
            proof {
                lemma_log_step(k0, e0, kb, eb, logger.keeps(), logger.kept(), es, LogEvent::Swap(0, last as nat));
                es = es.push(LogEvent::Swap(0, last as nat));
            }
        }
        let p1 = arr[0];
        let p2 = arr[last];
        assert(p2_idx_raw != p1_idx ==> p1 == smaller(old(arr)@[p1_idx as int], old(arr)@[p2_idx_raw as int])
            && p2 == larger(old(arr)@[p1_idx as int], old(arr)@[p2_idx_raw as int]));
        let mut lt: usize = 1;
        let mut i: usize = 1;
        let mut gt: usize = last - 1;
        while i <= gt
            invariant
                len == arr@.len(),
                last == len - 1,
                perm(old(arr)@, arr@),
                arr@[0] == p1,
                arr@[last as int] == p2,
                p1 <= p2,
                1 <= lt <= i,
                i <= gt + 2,
                gt < last,
                i <= last,
                lt <= gt + 1,
                forall|k: int| 1 <= k < lt ==> #[trigger] arr@[k] < p1,
                forall|k: int| lt <= k < i && k <= gt ==> p1 <= #[trigger] arr@[k] <= p2,
                forall|k: int| gt < k < last ==> #[trigger] arr@[k] > p2,
                i > gt + 1 ==> i == gt + 2,
                logged(k0, e0, logger.keeps(), logger.kept(), es),
                es.len() >= 3,
                es.take(3) == head,
                forall|k: int| 3 <= k < es.len() ==> scan_step(#[trigger] es[k], last as int),
            decreases gt + 2 - i,
        {
            let ghost kb = logger.keeps();
            let ghost eb = logger.kept();
            logger.compare(i, 0);
            proof {
                lemma_log_step(k0, e0, kb, eb, logger.keeps(), logger.kept(), es, LogEvent::Compare(i as nat, 0));
                es = es.push(LogEvent::Compare(i as nat, 0));
            }
            if arr[i] < p1 {
                let ghost kb = logger.keeps();
                let ghost eb = logger.kept();
                swap_at(arr, i, lt, logger);
                proof {
                    lemma_log_step(k0, e0, kb, eb, logger.keeps(), logger.kept(), es, LogEvent::Swap(i as nat, lt as nat));
                    es = es.push(LogEvent::Swap(i as nat, lt as nat));
                }
                lt = lt + 1;
                i = i + 1;
            } else {
                let ghost kb = logger.keeps();
                let ghost eb = logger.kept();
                logger.compare(i, last);
                proof {
                    lemma_log_step(k0, e0, kb, eb, logger.keeps(), logger.kept(), es, LogEvent::Compare(i as nat, last as nat));
                    es = es.push(LogEvent::Compare(i as nat, last as nat));
                }
                if arr[i] > p2 {
                    let ghost gt0 = gt;
                    let mut scanning = i < gt;
                    while scanning
                        invariant
                            len == arr@.len(),
                            last == len - 1,
                            1 <= lt <= i <= gt <= gt0 < last,
                            arr@[i as int] > p2,
                            forall|k: int| gt < k < last ==> #[trigger] arr@[k] > p2,
                            scanning ==> i < gt,
                            !scanning ==> (i >= gt || arr@[gt as int] <= p2),
                            logged(k0, e0, logger.keeps(), logger.kept(), es),
                            es.len() >= 3,
                            es.take(3) == head,
                            forall|k: int| 3 <= k < es.len() ==> scan_step(#[trigger] es[k], last as int),
                        decreases (if scanning { gt + 1 } else { 0 }),
                    {
                        let ghost kb = logger.keeps();
                        let ghost eb = logger.kept();
                        logger.compare(gt, last);
                        proof {
                            lemma_log_step(k0, e0, kb, eb, logger.keeps(), logger.kept(), es, LogEvent::Compare(gt as nat, last as nat));
                            es = es.push(LogEvent::Compare(gt as nat, last as nat));
                        }
                        if arr[gt] > p2 {
                            gt = gt - 1;
                            scanning = i < gt;
                        } else {
                            scanning = false;
                        }
                    }
                    let ghost s0 = arr@;
                    let ghost kb = logger.keeps();
                    let ghost eb = logger.kept();
                    swap_at(arr, i, gt, logger);
                    proof {
                        lemma_log_step(k0, e0, kb, eb, logger.keeps(), logger.kept(), es, LogEvent::Swap(i as nat, gt as nat));
                        es = es.push(LogEvent::Swap(i as nat, gt as nat));
                    }
                    assert(gt > 0);
                    gt = gt - 1;
                    let ghost kb = logger.keeps();
                    let ghost eb = logger.kept();
                    logger.compare(i, 0);
                    proof {
                        lemma_log_step(k0, e0, kb, eb, logger.keeps(), logger.kept(), es, LogEvent::Compare(i as nat, 0));
                        es = es.push(LogEvent::Compare(i as nat, 0));
                    }
                    if arr[i] < p1 {
                        let ghost kb = logger.keeps();
                        let ghost eb = logger.kept();
                        swap_at(arr, i, lt, logger);
                        proof {
                            lemma_log_step(k0, e0, kb, eb, logger.keeps(), logger.kept(), es, LogEvent::Swap(i as nat, lt as nat));
                            es = es.push(LogEvent::Swap(i as nat, lt as nat));
                        }
                        lt = lt + 1;
                    }
                    i = i + 1;
                } else {
                    i = i + 1;
                }
            }
        }
        let ghost s0 = arr@;
        let ghost lt0 = lt;
        let ghost gt0 = gt;
        lt = lt - 1;
        gt = gt + 1;
        let ghost kb = logger.keeps();
        let ghost eb = logger.kept();
        swap_at(arr, 0, lt, logger);
        proof {
            lemma_log_step(k0, e0, kb, eb, logger.keeps(), logger.kept(), es, LogEvent::Swap(0, lt as nat));
            es = es.push(LogEvent::Swap(0, lt as nat));
        }
        let ghost s1 = arr@;
        let ghost kb = logger.keeps();
        let ghost eb = logger.kept();
        swap_at(arr, last, gt, logger);
        proof {
            lemma_log_step(k0, e0, kb, eb, logger.keeps(), logger.kept(), es, LogEvent::Swap(last as nat, gt as nat));
            es = es.push(LogEvent::Swap(last as nat, gt as nat));
            assert(es[0] == head[0] && es[1] == head[1] && es[2] == head[2]);
            assert(partition_log(es, p1_idx as int, p2_idx_raw as int, len as int, lt as int, gt as int));
        }
        proof {
            let f = arr@;
            assert(f[lt as int] == p1);
            assert(f[gt as int] == p2);
            assert forall|k: int| 0 <= k < lt implies #[trigger] f[k] < f[lt as int] by {
                if k == 0 {
                    assert(f[0] == s0[lt as int]);
                } else {
                    assert(f[k] == s0[k]);
                }
            }
            assert forall|k: int| lt < k < gt implies f[lt as int] <= #[trigger] f[k] <= f[gt as int] by {
                assert(f[k] == s0[k]);
                assert(lt0 <= k <= gt0);
            }
            assert forall|k: int| gt < k < f.len() implies #[trigger] f[k] > f[gt as int] by {
                if k == last {
                    assert(f[k] == s1[gt as int]);
                    assert(s1[gt as int] == s0[gt as int]);
                } else {
                    assert(f[k] == s0[k]);
                }
            }
            assert(dual_partitioned(f, lt as int, gt as int));
        }
        out.push((0, lt));
        if lt + 1 < gt {
            out.push((lt + 1, gt));
        }
        if gt + 1 < len {
            out.push((gt + 1, len));
        }
        assert(out@ =~= regions(lt as int, gt as int, len as int));
        assert(partition_log(es, pivots@[0] as int, pivots@[1] as int, len as int, lt as int, gt as int));
        out
    }
}

} // verus!
