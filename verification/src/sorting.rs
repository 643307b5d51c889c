//! Hand-rolled `u64` sorts: the baselines the generic sorts are measured
//! against. Quick sort (left-left partition, first-element pivot), top-down
//! merge sort with one auxiliary buffer, and binary max-heap sort; the first
//! two hand arrays of at most 32 elements to insertion sort.
use vstd::prelude::*;

verus! {

/// Inputs of at most this many elements go to insertion sort.
pub const SMALL_SORT_THRESHOLD: usize = 32;

pub open spec fn sorted(s: Seq<u64>) -> bool {
    forall|i: int, j: int| 0 <= i <= j < s.len() ==> s[i] <= s[j]
}

/// `b` holds exactly the elements of `a`, counted with multiplicity.
pub open spec fn perm(a: Seq<u64>, b: Seq<u64>) -> bool {
    a.to_multiset() == b.to_multiset()
}

pub open spec fn swapped(s: Seq<u64>, i: int, j: int) -> Seq<u64> {
    s.update(i, s[j]).update(j, s[i])
}

pub proof fn lemma_swap_perm(s: Seq<u64>, i: int, j: int)
    requires
        0 <= i < s.len(),
        0 <= j < s.len(),
    ensures
        perm(s, swapped(s, i, j)),
{
    broadcast use vstd::seq_lib::group_to_multiset_ensures, vstd::multiset::group_multiset_axioms;
    let t = s.update(i, s[j]);
    vstd::seq_lib::to_multiset_update(s, i, s[j]);
    vstd::seq_lib::to_multiset_update(t, j, s[i]);
    assert(t[j] == if i == j { s[j] } else { s[j] });
    assert(swapped(s, i, j).to_multiset() =~= s.to_multiset());
}

pub proof fn lemma_perm_all<F>(a: Seq<u64>, b: Seq<u64>, lo: u64, hi: u64)
    requires
        perm(a, b),
        forall|k: int| 0 <= k < a.len() ==> lo <= #[trigger] a[k] <= hi,
    ensures
        forall|k: int| 0 <= k < b.len() ==> lo <= #[trigger] b[k] <= hi,
{
    broadcast use vstd::seq_lib::group_to_multiset_ensures;
    assert forall|k: int| 0 <= k < b.len() implies lo <= #[trigger] b[k] <= hi by {
        assert(b.contains(b[k]));
        assert(b.to_multiset().count(b[k]) > 0);
        assert(a.to_multiset().count(b[k]) > 0);
        assert(a.contains(b[k]));
        let q = choose|q: int| 0 <= q < a.len() && a[q] == b[k];
        assert(lo <= a[q] <= hi);
    }
}

fn swap_at(arr: &mut [u64], i: usize, j: usize)
    requires
        i < old(arr)@.len(),
        j < old(arr)@.len(),
    ensures
        final(arr)@ == swapped(old(arr)@, i as int, j as int),
        perm(old(arr)@, final(arr)@),
{
    proof {
        lemma_swap_perm(arr@, i as int, j as int);
    }
    let a = arr[i];
    let b = arr[j];
    arr[i] = b;
    arr[j] = a;
}

/// Insertion sort by adjacent swaps.
pub fn hand_insertion_sort(arr: &mut [u64])
    ensures
        sorted(final(arr)@),
        perm(old(arr)@, final(arr)@),
        final(arr)@.len() == old(arr)@.len(),
{
    let n = arr.len();
    let mut i: usize = 1;
    if n == 0 {
        return;
    }
    while i < n
        invariant
            1 <= i <= n,
            n == arr@.len(),
            sorted(arr@.take(i as int)),
            perm(old(arr)@, arr@),
        decreases n - i,
    {
        let mut j: usize = i;
        assert forall|a: int, b: int| 0 <= a <= b <= i && a != j && b != j implies arr@[a] <= arr@[b] by {
            assert(arr@.take(i as int)[a] == arr@[a] && arr@.take(i as int)[b] == arr@[b]);
        }
        while j > 0 && arr[j] < arr[j - 1]
            invariant
                0 <= j <= i < n,
                n == arr@.len(),
                perm(old(arr)@, arr@),
                // the prefix is sorted except for the element travelling down at j
                forall|a: int, b: int| 0 <= a <= b <= i && a != j && b != j ==> arr@[a] <= arr@[b],
                forall|b: int| j < b <= i ==> arr@[j as int] <= arr@[b],
            decreases j,
        {
            swap_at(arr, j, j - 1);
            j = j - 1;
        }
        proof {
            let t = arr@.take(i + 1);
            assert forall|a: int, b: int| 0 <= a <= b < i + 1 implies #[trigger] t[a] <= #[trigger] t[b] by {
                assert(t[a] == arr@[a] && t[b] == arr@[b]);
                if a == j && b != j {
                } else if b == j && a != j {
                    if j > 0 {
                        assert(arr@[j - 1] <= arr@[j as int]);
                        assert(arr@[a] <= arr@[j - 1]);
                    }
                }
            }
        }
        i = i + 1;
    }
    assert(arr@.take(n as int) =~= arr@);
}

/// `a ++ b` sorted, given each part sorted and every element of `a` at most
/// every element of `b`; and its multiset is the sum of theirs.
proof fn lemma_concat_sorted(a: Seq<u64>, b: Seq<u64>, p: u64)
    requires
        sorted(a),
        sorted(b),
        forall|k: int| 0 <= k < a.len() ==> #[trigger] a[k] <= p,
        forall|k: int| 0 <= k < b.len() ==> p <= #[trigger] b[k],
    ensures
        sorted(a + b),
{
    let c = a + b;
    assert forall|i: int, j: int| 0 <= i <= j < c.len() implies c[i] <= c[j] by {
        if i < a.len() && j >= a.len() {
            assert(c[i] == a[i] && c[j] == b[j - a.len()]);
        } else if i < a.len() {
            assert(c[i] == a[i] && c[j] == a[j]);
        } else {
            assert(c[i] == b[i - a.len()] && c[j] == b[j - a.len()]);
        }
    }
}

/// Quick sort: first element as pivot, moved to the end; a left-to-right
/// scan gathers the elements not above it at the front; both sides recurse.
/// Inputs of at most 32 elements go to insertion sort.
pub fn hand_quicksort(arr: &mut [u64])
    ensures
        sorted(final(arr)@),
        perm(old(arr)@, final(arr)@),
        final(arr)@.len() == old(arr)@.len(),
    decreases old(arr)@.len(),
{
    if arr.len() <= SMALL_SORT_THRESHOLD {
        hand_insertion_sort(arr);
        return;
    }
    let len = arr.len();
    swap_at(arr, 0, len - 1);
    let pivot = arr[len - 1];
    let mut small: usize = 0;
    let mut i: usize = 0;
    while i < len - 1
        invariant
            small <= i <= len - 1,
            arr@.len() == len,
            arr@[len - 1] == pivot,
            perm(old(arr)@, arr@),
            forall|k: int| 0 <= k < small ==> arr@[k] <= pivot,
            forall|k: int| small <= k < i ==> arr@[k] > pivot,
        decreases len - 1 - i,
    {
        if arr[i] <= pivot {
            swap_at(arr, i, small);
            small = small + 1;
        }
        i = i + 1;
    }
    swap_at(arr, small, len - 1);
    let ghost mid = arr@;
    assert(forall|k: int| 0 <= k < small ==> mid[k] <= pivot);
    assert(mid[small as int] == pivot);
    assert(forall|k: int| small < k < len ==> mid[k] > pivot);
    let (left, rest) = arr.split_at_mut(small);
    let ghost left0 = left@;
    hand_quicksort(left);
    let (pv, right) = rest.split_at_mut(1);
    let ghost right0 = right@;
    hand_quicksort(right);
    proof {
        assert(left0 =~= mid.subrange(0, small as int));
        assert(right0 =~= mid.subrange(small + 1, len as int));
        broadcast use vstd::seq_lib::lemma_multiset_commutative;
        let l0 = mid.subrange(0, small as int);
        let r0 = mid.subrange(small + 1, len as int);
        assert(pv@ =~= seq![pivot]);
        assert forall|k: int| 0 <= k < l0.len() implies 0 <= #[trigger] l0[k] <= pivot by {
            assert(l0[k] == mid[k]);
        }
        assert forall|k: int| 0 <= k < r0.len() implies pivot <= #[trigger] r0[k] <= u64::MAX by {
            assert(r0[k] == mid[small + 1 + k]);
        }
        lemma_perm_all::<u64>(l0, left@, 0, pivot);
        lemma_perm_all::<u64>(r0, right@, pivot, u64::MAX);
        lemma_concat_sorted(seq![pivot], right@, pivot);
        lemma_concat_sorted(left@, seq![pivot] + right@, pivot);
        assert(mid =~= l0 + (seq![pivot] + r0));
        assert((l0 + (seq![pivot] + r0)).to_multiset() =~= (left@ + (seq![pivot] + right@)).to_multiset());
    }
}

/// Top-down merge sort with an insertion-sort cutoff and one auxiliary
/// buffer (merge into the buffer, copy back).
pub fn hand_mergesort(arr: &mut [u64])
    ensures
        sorted(final(arr)@),
        perm(old(arr)@, final(arr)@),
        final(arr)@.len() == old(arr)@.len(),
{
    if arr.len() < 2 {
        proof {
            assert(sorted(arr@));
        }
        return;
    }
    let mut tmp: Vec<u64> = Vec::new();
    let mut k: usize = 0;
    while k < arr.len()
        invariant
            k <= arr@.len(),
            tmp@.len() == k,
        decreases arr@.len() - k,
    {
        tmp.push(0);
        k = k + 1;
    }
    hand_mergesort_rec(arr, &mut tmp);
}

fn hand_mergesort_rec(arr: &mut [u64], tmp: &mut Vec<u64>)
    requires
        old(tmp)@.len() >= old(arr)@.len(),
    ensures
        sorted(final(arr)@),
        perm(old(arr)@, final(arr)@),
        final(arr)@.len() == old(arr)@.len(),
        final(tmp)@.len() == old(tmp)@.len(),
    decreases old(arr)@.len(),
{
    let n = arr.len();
    if n <= SMALL_SORT_THRESHOLD {
        hand_insertion_sort(arr);
        return;
    }
    let mid = n / 2;
    let ghost orig = arr@;
    let (al, ar) = arr.split_at_mut(mid);
    let ghost l0 = al@;
    let ghost r0 = ar@;
    hand_mergesort_rec(al, tmp);
    hand_mergesort_rec(ar, tmp);
    let ghost a = al@;
    let ghost b = ar@;
    proof {
        broadcast use vstd::seq_lib::lemma_multiset_commutative;
        assert(orig =~= l0 + r0);
        assert(arr@ =~= a + b);
        assert(a =~= arr@.subrange(0, mid as int));
        assert(b =~= arr@.subrange(mid as int, n as int));
    }
    let mut i: usize = 0;
    let mut j: usize = 0;
    let mut k: usize = 0;
    proof {
        broadcast use vstd::seq_lib::group_to_multiset_ensures, vstd::multiset::group_multiset_axioms;
        assert(tmp@.take(0) =~= Seq::<u64>::empty());
        assert(a.take(0) =~= Seq::<u64>::empty());
        assert(b.take(0) =~= Seq::<u64>::empty());
        assert(Seq::<u64>::empty().to_multiset().add(Seq::<u64>::empty().to_multiset()) =~= Seq::<u64>::empty().to_multiset());
    }
    while k < n
        invariant
            tmp@.len() == old(tmp)@.len(),
            arr@.len() == n,
            mid <= n,
            a == arr@.subrange(0, mid as int),
            b == arr@.subrange(mid as int, n as int),
            sorted(a),
            sorted(b),
            tmp@.len() >= n,
            i <= mid,
            j <= n - mid,
            k == i + j,
            k <= n,
            sorted(tmp@.take(k as int)),
            tmp@.take(k as int).to_multiset() == a.take(i as int).to_multiset().add(
                b.take(j as int).to_multiset(),
            ),
            k > 0 && i < mid ==> tmp@[k - 1] <= a[i as int],
            k > 0 && j < n - mid ==> tmp@[k - 1] <= b[j as int],
        decreases n - k,
    {
        broadcast use vstd::seq_lib::group_to_multiset_ensures, vstd::multiset::group_multiset_axioms;
        let ghost t0 = tmp@.take(k as int);
        let x: u64;
        if j >= n - mid || (i < mid && arr[i] <= arr[mid + j]) {
            x = arr[i];
            assert(a.take(i + 1) =~= a.take(i as int).push(a[i as int]));
            i = i + 1;
        } else {
            x = arr[mid + j];
            assert(b.take(j + 1) =~= b.take(j as int).push(b[j as int]));
            j = j + 1;
        }
        tmp.set(k, x);
        assert(tmp@.take(k + 1) =~= t0.push(x));
        let ghost t1 = tmp@.take(k + 1);
        assert forall|p: int, q: int| 0 <= p <= q < k + 1 implies #[trigger] t1[p] <= #[trigger] t1[q] by {
            if q == k && p < k {
                assert(t0[p] <= t0[k - 1]);
            }
        }
        k = k + 1;
    }
    proof {
        broadcast use vstd::seq_lib::lemma_multiset_commutative;
        assert(a.take(i as int) =~= a);
        assert(b.take(j as int) =~= b);
    }
    let ghost merged = tmp@.take(n as int);
    let mut c: usize = 0;
    while c < n
        invariant
            c <= n,
            tmp@.len() == old(tmp)@.len(),
            arr@.len() == n,
            tmp@.len() >= n,
            merged == tmp@.take(n as int),
            forall|q: int| 0 <= q < c ==> arr@[q] == tmp@[q],
        decreases n - c,
    {
        arr[c] = tmp[c];
        c = c + 1;
    }
    assert(arr@ =~= merged);
}

// ───────────────────────────── heap sort ─────────────────────────────

pub open spec fn parent(k: int) -> int {
    (k - 1) / 2
}

/// Max-heap order on `s[..n]` for every node whose parent is at or after `lo`,
/// except the children of `skip`.
pub open spec fn heap_from(s: Seq<u64>, n: int, lo: int, skip: int) -> bool {
    forall|k: int| 1 <= k < n && parent(k) >= lo && parent(k) != skip ==> s[parent(k)] >= #[trigger] s[k]
}

proof fn lemma_heap_root_max(s: Seq<u64>, n: int, k: int)
    requires
        0 <= k < n <= s.len(),
        heap_from(s, n, 0, -1),
    ensures
        s[0] >= s[k],
    decreases k,
{
    if k > 0 {
        lemma_heap_root_max(s, n, parent(k));
    }
}

/// Sift the element at `i` down the heap `arr[..heap_size]`.
fn sift_down(arr: &mut [u64], heap_size: usize, i: usize, Ghost(lo): Ghost<int>)
    requires
        heap_size <= old(arr)@.len(),
        lo <= i < heap_size,
        0 <= lo,
        heap_from(old(arr)@, heap_size as int, lo, i as int),
        i > lo ==> forall|c: int|
            0 <= c < heap_size && parent(c) == i ==> old(arr)@[parent(i as int)] >= #[trigger] old(
                arr,
            )@[c],
    ensures
        heap_from(final(arr)@, heap_size as int, lo, -1),
        perm(old(arr)@, final(arr)@),
        final(arr)@.len() == old(arr)@.len(),
        forall|q: int| heap_size <= q < old(arr)@.len() ==> final(arr)@[q] == old(arr)@[q],
{
    let mut i = i;
    loop
        invariant
            heap_size <= arr@.len(),
            arr@.len() == old(arr)@.len(),
            lo <= i < heap_size,
            heap_from(arr@, heap_size as int, lo, i as int),
            i > lo ==> forall|c: int|
                0 <= c < heap_size && parent(c) == i ==> arr@[parent(i as int)] >= #[trigger] arr@[c],
            perm(old(arr)@, arr@),
            forall|q: int| heap_size <= q < old(arr)@.len() ==> arr@[q] == old(arr)@[q],
        decreases heap_size - i,
    {
        let l = if i < heap_size / 2 {
            2 * i + 1
        } else {
            heap_size
        };
        let r = if l < heap_size {
            l + 1
        } else {
            heap_size
        };
        assert(l < heap_size ==> l == 2 * i + 1 && parent(l as int) == i);
        assert(r < heap_size ==> r == 2 * i + 2 && parent(r as int) == i);
        assert(l >= heap_size ==> 2 * i + 1 >= heap_size);
        let mut largest = i;
        if l < heap_size && arr[l] > arr[largest] {
            largest = l;
        }
        if r < heap_size && arr[r] > arr[largest] {
            largest = r;
        }
        if largest == i {
            assert forall|k: int| 1 <= k < heap_size && parent(k) >= lo && parent(k) != -1 implies arr@[parent(k)] >= #[trigger] arr@[k] by {
                if parent(k) == i {
                    assert(k == 2 * i + 1 || k == 2 * i + 2);
                }
            }
            return;
        }
        let ghost s0 = arr@;
        swap_at(arr, i, largest);
        proof {
            let s1 = arr@;
            assert forall|k: int| 1 <= k < heap_size && parent(k) >= lo && parent(k) != largest implies s1[parent(k)] >= #[trigger] s1[k] by {
                if parent(k) == i {
                    assert(k == 2 * i + 1 || k == 2 * i + 2);
                } else if k == i {
                    assert(i > lo || parent(k) < lo);
                    assert(s0[parent(i as int)] >= s0[largest as int]);
                } else if k == largest {
                } else {
                    assert(s1[k] == s0[k]);
                    assert(s1[parent(k)] == s0[parent(k)]);
                }
            }
            assert forall|c: int| 0 <= c < heap_size && parent(c) == largest implies s1[parent(largest as int)] >= #[trigger] s1[c] by {
                assert(c != i && c != largest);
                assert(s1[c] == s0[c]);
                assert(parent(c) >= lo && parent(c) != i);
            }
        }
        i = largest;
    }
}

/// Binary max-heap sort: Floyd build, then repeated root extraction.
pub fn hand_heapsort(arr: &mut [u64])
    ensures
        sorted(final(arr)@),
        perm(old(arr)@, final(arr)@),
        final(arr)@.len() == old(arr)@.len(),
{
    let n = arr.len();
    if n < 2 {
        return;
    }
    let mut i = n / 2;
    while i > 0
        invariant
            0 <= i <= n / 2,
            n == arr@.len(),
            heap_from(arr@, n as int, i as int, -1),
            perm(old(arr)@, arr@),
        decreases i,
    {
        i = i - 1;
        proof {
            assert(heap_from(arr@, n as int, i as int, i as int));
        }
        sift_down(arr, n, i, Ghost(i as int));
    }
    let mut end = n - 1;
    while end > 0
        invariant
            0 <= end < n,
            n == arr@.len(),
            heap_from(arr@, (end + 1) as int, 0, -1),
            perm(old(arr)@, arr@),
            forall|p: int, q: int| end < p <= q < n ==> arr@[p] <= arr@[q],
            forall|p: int, q: int| 0 <= p <= end < q < n ==> arr@[p] <= arr@[q],
        decreases end,
    {
        proof {
            assert forall|k: int| 0 <= k <= end implies arr@[0] >= #[trigger] arr@[k] by {
                lemma_heap_root_max(arr@, (end + 1) as int, k);
            }
        }
        let ghost s0 = arr@;
        swap_at(arr, 0, end);
        let ghost pre = arr@;
        proof {
            assert(heap_from(arr@, end as int, 0, 0));
            assert forall|k: int| 0 <= k < pre.take(end as int).len() implies 0 <= #[trigger] pre.take(end as int)[k] <= pre[end as int] by {
                assert(pre.take(end as int)[k] == pre[k]);
                if k == 0 {
                    assert(pre[0] == s0[end as int]);
                } else {
                    assert(pre[k] == s0[k]);
                }
            }
        }
        sift_down(arr, end, 0, Ghost(0));
        proof {
            let post = arr@;
            lemma_prefix_perm(pre, post, end as int);
            lemma_perm_all::<u64>(pre.take(end as int), post.take(end as int), 0, pre[end as int]);
            assert forall|k: int| 0 <= k < end implies post[k] <= pre[end as int] by {
                assert(post.take(end as int)[k] == post[k]);
            }
            assert(post[end as int] == s0[0]);
            assert forall|p: int, q: int| end - 1 < p <= q < n implies post[p] <= post[q] by {
                if p == end && q > end {
                    assert(s0[0] <= s0[q]);
                }
            }
            assert forall|p: int, q: int| 0 <= p <= end - 1 < q < n implies post[p] <= post[q] by {
                if q > end {
                    assert(s0[0] <= s0[q]);
                }
            }
        }
        end = end - 1;
    }
}

/// A permutation that leaves everything from `m` on in place permutes the
/// first `m` elements among themselves.
proof fn lemma_prefix_perm(a: Seq<u64>, b: Seq<u64>, m: int)
    requires
        perm(a, b),
        a.len() == b.len(),
        0 <= m <= a.len(),
        forall|q: int| m <= q < a.len() ==> a[q] == b[q],
    ensures
        perm(a.take(m), b.take(m)),
{
    broadcast use vstd::seq_lib::lemma_multiset_commutative, vstd::multiset::group_multiset_axioms;
    assert(a =~= a.take(m) + a.skip(m));
    assert(b =~= b.take(m) + b.skip(m));
    assert(a.skip(m) =~= b.skip(m));
    let ma = a.take(m).to_multiset();
    let mb = b.take(m).to_multiset();
    let ms = a.skip(m).to_multiset();
    assert(ma.add(ms) == mb.add(ms));
    assert(ma =~= mb) by {
        assert forall|x: u64| ma.count(x) == mb.count(x) by {
            assert(ma.add(ms).count(x) == ma.count(x) + ms.count(x));
            assert(mb.add(ms).count(x) == mb.count(x) + ms.count(x));
        }
    }
}

} // verus!
