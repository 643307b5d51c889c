//! In-place rotations: by three reversals, and by forward block swaps. Each
//! swap is reported to the logger, with indices relative to the block being
//! worked on.
use vstd::prelude::*;
use crate::abi::{SortLogger, LogEvent, logged, lemma_logged_then};

verus! {

/// `w` rotated left by `r`: its first `r` elements moved to the end.
pub open spec fn rotl<T>(w: Seq<T>, r: int) -> Seq<T> {
    w.skip(r) + w.take(r)
}

/// `s` with the range `lo..hi` reversed.
pub open spec fn reversed_range<T>(s: Seq<T>, lo: int, hi: int) -> Seq<T> {
    Seq::new(s.len(), |k: int| if lo <= k < hi { s[lo + hi - 1 - k] } else { s[k] })
}

/// The swaps that reverse a block of `n`, relative to its start: each of the
/// first half with its mirror.
pub open spec fn reversal_swaps<T>(n: int) -> Seq<LogEvent<T>> {
    Seq::new((n / 2) as nat, |i: int| LogEvent::Swap(i as nat, (n - 1 - i) as nat))
}

/// The swaps that rotate a block of `n` left by `k` with three reversals:
/// its first `k`, the rest (relative to where the rest starts), then the
/// whole block.
pub open spec fn rotation_swaps<T>(n: int, k: int) -> Seq<LogEvent<T>> {
    reversal_swaps(k) + reversal_swaps(n - k) + reversal_swaps(n)
}

fn swap_any<T: Copy>(arr: &mut [T], i: usize, j: usize)
    requires
        i < old(arr)@.len(),
        j < old(arr)@.len(),
    ensures
        final(arr)@ == old(arr)@.update(i as int, old(arr)@[j as int]).update(
            j as int,
            old(arr)@[i as int],
        ),
{
    let a = arr[i];
    let b = arr[j];
    arr[i] = b;
    arr[j] = a;
}

fn reverse_range<T: Copy, L: SortLogger<T>>(arr: &mut [T], lo: usize, hi: usize, logger: &mut L)
    requires
        lo <= hi <= old(arr)@.len(),
    ensures
        final(arr)@ == reversed_range(old(arr)@, lo as int, hi as int),
        logged(old(logger).keeps(), old(logger).kept(), final(logger).keeps(), final(logger).kept(), reversal_swaps(hi - lo)),
{
    let ghost s0 = arr@;
    let ghost k0 = logger.keeps();
    let ghost e0 = logger.kept();
    let half = (hi - lo) / 2;
    let mut i: usize = 0;
    assert(reversal_swaps::<T>(hi - lo).take(0) =~= seq![]);
    assert(e0 + seq![] =~= e0);
    while i < half
        invariant
            lo <= hi <= s0.len(),
            half == (hi - lo) / 2,
            i <= half,
            arr@.len() == s0.len(),
            forall|k: int|
                0 <= k < s0.len() ==> #[trigger] arr@[k] == if (lo <= k < lo + i) || (hi - i <= k < hi) {
                    s0[lo + hi - 1 - k]
                } else {
                    s0[k]
                },
            logged(k0, e0, logger.keeps(), logger.kept(), reversal_swaps(hi - lo).take(i as int)),
        decreases half - i,
    {
        swap_any(arr, lo + i, hi - 1 - i);
        let ghost k1 = logger.keeps();
        let ghost e1 = logger.kept();
        logger.swap(i, hi - lo - 1 - i);
        proof {
            let ev = LogEvent::<T>::Swap(i as nat, (hi - lo - 1 - i) as nat);
            lemma_logged_then(k0, e0, k1, e1, logger.keeps(), logger.kept(), reversal_swaps(hi - lo).take(i as int), seq![ev]);
            assert(reversal_swaps::<T>(hi - lo).take(i as int) + seq![ev] =~= reversal_swaps::<T>(hi - lo).take(i + 1));
        }
        i = i + 1;
    }
    assert(reversal_swaps::<T>(hi - lo).take(half as int) =~= reversal_swaps::<T>(hi - lo));
    assert(arr@ =~= reversed_range(s0, lo as int, hi as int));
}

/// Rotate `arr` left by `split_ind` with three reversals: the elements from
/// `split_ind` on come first, then the ones before it. The logger is given
/// the swaps of each reversal, relative to the block reversed.
pub fn rotate<T: Copy, L: SortLogger<T>>(arr: &mut [T], split_ind: usize, logger: &mut L)
    requires
        split_ind <= old(arr)@.len(),
    ensures
        final(arr)@ == rotl(old(arr)@, split_ind as int),
        logged(
            old(logger).keeps(),
            old(logger).kept(),
            final(logger).keeps(),
            final(logger).kept(),
            rotation_swaps(old(arr)@.len() as int, split_ind as int),
        ),
{
    let len = arr.len();
    rotate_range(arr, 0, len, split_ind, logger);
    assert(old(arr)@.subrange(0, len as int) =~= old(arr)@);
    assert(arr@.subrange(0, len as int) =~= arr@);
}

fn rotate_range<T: Copy, L: SortLogger<T>>(arr: &mut [T], lo: usize, hi: usize, k: usize, logger: &mut L)
    requires
        lo <= hi <= old(arr)@.len(),
        k <= hi - lo,
    ensures
        final(arr)@.len() == old(arr)@.len(),
        final(arr)@.subrange(lo as int, hi as int) == rotl(old(arr)@.subrange(lo as int, hi as int), k as int),
        forall|q: int| 0 <= q < old(arr)@.len() && !(lo <= q < hi) ==> final(arr)@[q] == old(arr)@[q],
        logged(
            old(logger).keeps(),
            old(logger).kept(),
            final(logger).keeps(),
            final(logger).kept(),
            rotation_swaps(hi - lo, k as int),
        ),
{
    let ghost s0 = arr@;
    let ghost k0 = logger.keeps();
    let ghost e0 = logger.kept();
    reverse_range(arr, lo, lo + k, logger);
    let ghost k1 = logger.keeps();
    let ghost e1 = logger.kept();
    reverse_range(arr, lo + k, hi, logger);
    let ghost k2 = logger.keeps();
    let ghost e2 = logger.kept();
    reverse_range(arr, lo, hi, logger);
    proof {
        lemma_logged_then(k0, e0, k1, e1, k2, e2, reversal_swaps::<T>(k as int), reversal_swaps::<T>(hi - (lo + k)));
        lemma_logged_then(
            k0,
            e0,
            k2,
            e2,
            logger.keeps(),
            logger.kept(),
            reversal_swaps::<T>(k as int) + reversal_swaps::<T>(hi - (lo + k)),
            reversal_swaps::<T>(hi - lo),
        );
        assert(hi - (lo + k) == (hi - lo) - k);
    }
    assert(arr@.subrange(lo as int, hi as int) =~= rotl(s0.subrange(lo as int, hi as int), k as int));
}

/// Rotating left by `r` and then by `w.len() - r` gives `w` back.
pub proof fn lemma_rotl_undo<T>(w: Seq<T>, r: int)
    requires
        0 <= r < w.len(),
    ensures
        rotl(rotl(w, r), (w.len() - r) % (w.len() as int)) == w,
{
    let n = w.len() as int;
    if r == 0 {
        assert((n - r) % n == 0) by (nonlinear_arith)
            requires
                r == 0,
                n > 0,
        ;
        assert(rotl(w, 0) =~= w);
        assert(rotl(rotl(w, 0), 0) =~= w);
    } else {
        assert((n - r) % n == n - r) by (nonlinear_arith)
            requires
                0 < r < n,
        ;
        let v = rotl(w, r);
        assert forall|q: int| 0 <= q < n implies #[trigger] rotl(v, n - r)[q] == w[q] by {
            if q < r {
                assert(rotl(v, n - r)[q] == v[q + n - r]);
                assert(v[q + n - r] == w[q]);
            } else {
                assert(rotl(v, n - r)[q] == v[q - r]);
                assert(v[q - r] == w[q]);
            }
        }
        assert(rotl(v, n - r) =~= w);
    }
}


/// The swaps of the forward pass of [`rotate_2`]: each position from `s` on
/// with the one `s` before it.
pub open spec fn forward_swaps<T>(len: int, s: int) -> Seq<LogEvent<T>> {
    if s <= len {
        Seq::new((len - s) as nat, |j: int| LogEvent::Swap(j as nat, (j + s) as nat))
    } else {
        seq![]
    }
}

/// Every swap [`rotate_2`] reports: the forward pass, then the rotation of
/// the trailing `len % s` by `s % len % s`, relative to where it starts.
pub open spec fn block_swaps<T>(len: int, s: int) -> Seq<LogEvent<T>> {
    if s == 0 {
        seq![]
    } else {
        forward_swaps(len, s) + rotation_swaps(len % s, s % len % s)
    }
}

/// What [`rotate_2`] leaves of `a` for a split `s`: the elements from `s` on,
/// followed by the first `s` turned left by `(len - s) % s`. This is `a`
/// rotated left by `s` only when `s` divides the length; a split past the
/// end rotates by `s % len`.
pub open spec fn rotate_2_s<T>(a: Seq<T>, s: int) -> Seq<T> {
    if s == 0 {
        a
    } else if s <= a.len() {
        a.skip(s) + rotl(a.take(s), (a.len() - s) % s)
    } else {
        rotl(a, s % (a.len() as int))
    }
}

/// Block swaps: each element from `split_ind` on is swapped with the one
/// `split_ind` places before it, then the trailing `len % split_ind` elements
/// are rotated by `split_ind % len % split_ind` with three reversals.
pub fn rotate_2<T: Copy, L: SortLogger<T>>(arr: &mut [T], split_ind: usize, logger: &mut L)
    requires
        split_ind > 0 ==> old(arr)@.len() > 0,
    ensures
        final(arr)@ == rotate_2_s(old(arr)@, split_ind as int),
        logged(
            old(logger).keeps(),
            old(logger).kept(),
            final(logger).keeps(),
            final(logger).kept(),
            block_swaps(old(arr)@.len() as int, split_ind as int),
        ),
{
    let len = arr.len();
    if split_ind == 0 {
        return;
    }
    let s = split_ind;
    let ghost a = arr@;
    let ghost k0 = logger.keeps();
    let ghost e0 = logger.kept();
    let mut i: usize = s;
    assert(forward_swaps::<T>(len as int, s as int).take(0) =~= seq![]);
    assert(e0 + seq![] =~= e0);
    proof {
        if s <= len {
            assert((s - s) % (s as int) == 0) by (nonlinear_arith)
                requires
                    s > 0,
            ;
            assert(arr@.subrange(s - s, s as int) =~= rotl(a.take(s as int), (s - s) % (s as int)));
            assert(arr@.take(0) =~= a.subrange(s as int, s as int));
        }
    }
    while i < len
        invariant
            0 < s <= i,
            s <= len ==> i <= len,
            len == arr@.len(),
            a.len() == len,
            s <= len ==> arr@.take(i - s) == a.subrange(s as int, i as int),
            s <= len ==> arr@.subrange(i - s, i as int) == rotl(a.take(s as int), (i - s) % (s as int)),
            s <= len ==> arr@.skip(i as int) == a.skip(i as int),
            s > len ==> arr@ == a,
            s <= len ==> logged(k0, e0, logger.keeps(), logger.kept(), forward_swaps(len as int, s as int).take(i - s)),
            s > len ==> logger.keeps() == k0 && logger.kept() == e0,
        decreases len - i,
    {
        let ghost before = arr@;
        swap_any(arr, i - s, i);
        proof {
            let w = a.take(s as int);
            let r = (i - s) % (s as int);
            let r2 = (i + 1 - s) % (s as int);
            assert(r2 == if r + 1 == s { 0 } else { r + 1 }) by (nonlinear_arith)
                requires
                    r == (i - s) % (s as int),
                    r2 == (i + 1 - s) % (s as int),
                    s > 0,
                    i >= s,
            ;
            assert(arr@.take(i + 1 - s) =~= a.subrange(s as int, i + 1)) by {
                assert(arr@[i - s] == before[i as int]);
                assert(before.skip(i as int)[0] == before[i as int]);
            }
            assert(arr@.subrange(i + 1 - s, i + 1) =~= rotl(w, r2)) by {
                assert forall|q: int| 0 <= q < s implies #[trigger] arr@.subrange(i + 1 - s, i + 1)[q] == rotl(w, r2)[q] by {
                    assert(before.subrange(i - s, i as int) == rotl(w, r));
                    if q < s - 1 {
                        assert(arr@[i + 1 - s + q] == before[i + 1 - s + q]);
                        assert(before.subrange(i - s, i as int)[q + 1] == rotl(w, r)[q + 1]);
                    } else {
                        assert(arr@[i as int] == before[i - s]);
                        assert(before.subrange(i - s, i as int)[0] == rotl(w, r)[0]);
                    }
                }
            }
            assert(arr@.skip(i + 1) =~= a.skip(i + 1)) by {
                assert forall|q: int| 0 <= q < len - i - 1 implies #[trigger] arr@.skip(i + 1)[q] == a.skip(i + 1)[q] by {
                    assert(before.skip(i as int)[q + 1] == a.skip(i as int)[q + 1]);
                }
            }
        }
        let ghost k1 = logger.keeps();
        let ghost e1 = logger.kept();
        logger.swap(i - s, i);
        proof {
            let ev = LogEvent::<T>::Swap((i - s) as nat, i as nat);
            lemma_logged_then(k0, e0, k1, e1, logger.keeps(), logger.kept(), forward_swaps(len as int, s as int).take(i - s), seq![ev]);
            assert(forward_swaps::<T>(len as int, s as int).take(i - s) + seq![ev] =~= forward_swaps::<T>(len as int, s as int).take(i + 1 - s));
        }
        i = i + 1;
    }
    let ghost k1 = logger.keeps();
    let ghost e1 = logger.kept();
    proof {
        if s <= len {
            assert(forward_swaps::<T>(len as int, s as int).take(len - s) =~= forward_swaps::<T>(len as int, s as int));
        } else {
            assert(forward_swaps::<T>(len as int, s as int) =~= seq![]);
            assert(e0 + seq![] =~= e0);
        }
    }
    let m = len % s;
    let k = s % len % s;
    assert(m <= len && k <= m && (s > len ==> m == len && k == s % len)) by (nonlinear_arith)
        requires
            s > 0,
            len > 0,
            m == len % s,
            k == s % len % s,
    {
        if s > len {
            assert(len % s == len);
            assert(s % len < len);
        } else {
            assert(s % len % s == 0) by {
                if s < len {
                    assert(s % len == s);
                } else {
                    assert(s % len == 0);
                }
            }
        }
    }
    if s <= len {
        assert(k == 0) by (nonlinear_arith)
            requires
                s <= len,
                s > 0,
                k == s % len % s,
        {
            if s < len {
                assert(s % len == s);
            } else {
                assert(s % len == 0);
            }
        }
    }
    let ghost mid = arr@;
    rotate_range(arr, len - m, len, k, logger);
    proof {
        lemma_logged_then(k0, e0, k1, e1, logger.keeps(), logger.kept(), forward_swaps::<T>(len as int, s as int), rotation_swaps::<T>(m as int, k as int));
        assert(len - (len - m) == m);
        if s <= len {
            assert(mid =~= mid.take(len - s) + mid.subrange(len - s, len as int));
            let sub = mid.subrange(len - m, len as int);
            assert(rotl(sub, 0) =~= sub);
            assert(arr@.subrange(len - m, len as int) == sub);
            assert forall|q: int| 0 <= q < len implies arr@[q] == mid[q] by {
                if len - m <= q {
                    assert(arr@.subrange(len - m, len as int)[q - (len - m)] == sub[q - (len - m)]);
                }
            }
            assert(arr@ =~= mid);
            assert(mid.take(len - s) =~= a.skip(s as int));
            assert(a.skip(s as int) + rotl(a.take(s as int), (len - s) % (s as int)) =~= mid);
        } else {
            assert(m == len);
            assert(k == s % len);
            assert(mid =~= a);
            assert(arr@.subrange(0, len as int) =~= arr@);
            assert(a.subrange(0, len as int) =~= a);
        }
    }
}

} // verus!
