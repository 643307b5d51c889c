//! The correctness batteries a generated algorithm entry is run against, one
//! per category: a few fixed inputs, each checked against what the category
//! promises. Each battery stops at the first input that fails and names it.
use vstd::prelude::*;
use crate::bench_registry::{get_arr, get_reversed_arr, iota, iota_rev, lemma_sorted_unique, sorted_perm};
use crate::demo::{sort_unstable, sorted_usize};
use crate::rotations::rotl;
use crate::text::{decimal, owned, push_decimal, push_str};

verus! {

/// The input sizes of the sort, merge and rotation batteries.
pub open spec fn battery_sizes() -> Seq<usize> {
    seq![0usize, 1, 2, 7, 33, 128]
}

/// The input sizes of the partition battery.
pub open spec fn partition_sizes() -> Seq<usize> {
    seq![1usize, 2, 7, 33, 128]
}

fn battery_sizes_vec() -> (r: Vec<usize>)
    ensures
        r@ == battery_sizes(),
{
    let r = vec![0usize, 1, 2, 7, 33, 128];
    assert(r@ =~= battery_sizes());
    r
}

fn partition_sizes_vec() -> (r: Vec<usize>)
    ensures
        r@ == partition_sizes(),
{
    let r = vec![1usize, 2, 7, 33, 128];
    assert(r@ =~= partition_sizes());
    r
}

fn is_sorted(v: &Vec<usize>) -> (r: bool)
    ensures
        r == sorted_usize(v@),
{
    let mut i: usize = 1;
    while i < v.len()
        invariant
            1 <= i,
            forall|a: int, b: int| 0 <= a <= b < i && b < v@.len() ==> v@[a] <= v@[b],
        decreases v@.len() - i,
    {
        if v[i - 1] > v[i] {
            return false;
        }
        i = i + 1;
    }
    true
}

fn same_vec(a: &Vec<usize>, b: &Vec<usize>) -> (r: bool)
    ensures
        r == (a@ == b@),
{
    if a.len() != b.len() {
        return false;
    }
    let mut i: usize = 0;
    while i < a.len()
        invariant
            a@.len() == b@.len(),
            i <= a@.len(),
            forall|q: int| 0 <= q < i ==> a@[q] == b@[q],
        decreases a@.len() - i,
    {
        if a[i] != b[i] {
            return false;
        }
        i = i + 1;
    }
    assert(a@ =~= b@);
    true
}

fn copy_vec(a: &Vec<usize>) -> (r: Vec<usize>)
    ensures
        r@ == a@,
{
    let mut r: Vec<usize> = Vec::new();
    let mut i: usize = 0;
    while i < a.len()
        invariant
            i <= a@.len(),
            r@ == a@.take(i as int),
        decreases a@.len() - i,
    {
        r.push(a[i]);
        i = i + 1;
        assert(r@ =~= a@.take(i as int));
    }
    assert(a@.take(i as int) =~= a@);
    r
}

fn at_n(prefix: &str, n: usize) -> (r: String)
    ensures
        r@ == prefix@ + decimal(n as nat),
{
    let mut m = owned(prefix);
    push_decimal(&mut m, n as u128);
    m
}

// ───────────────────────────── sorts ─────────────────────────────

/// A run of `sort` on `input` handed back a sorted sequence.
pub open spec fn run_sorted<F: Fn(Vec<usize>) -> Vec<usize>>(sort: F, input: Seq<usize>) -> bool {
    exists|v: Vec<usize>, o: Vec<usize>| v@ == input && #[trigger] sort.ensures((v,), o) && sorted_usize(o@)
}

/// A run of `sort` on `input` handed back an unsorted sequence.
pub open spec fn run_unsorted<F: Fn(Vec<usize>) -> Vec<usize>>(sort: F, input: Seq<usize>) -> bool {
    exists|v: Vec<usize>, o: Vec<usize>| v@ == input && #[trigger] sort.ensures((v,), o) && !sorted_usize(o@)
}

/// The sort battery: each size's descending input must come back sorted.
/// The first size that does not is named, and every size before it passed.
pub fn assert_sorts<F: Fn(Vec<usize>) -> Vec<usize>>(sort: &F) -> (r: Result<(), String>)
    requires
        forall|v: Vec<usize>| #[trigger] sort.requires((v,)),
    ensures
        r is Ok ==> forall|k: int| 0 <= k < 6 ==> run_sorted(*sort, iota_rev(#[trigger] battery_sizes()[k] as nat)),
        r is Err ==> exists|k: int|
            0 <= k < 6 && run_unsorted(*sort, iota_rev(#[trigger] battery_sizes()[k] as nat)) && r->Err_0@
                == "not sorted at n="@ + decimal(battery_sizes()[k] as nat) && (forall|q: int|
                0 <= q < k ==> run_sorted(*sort, iota_rev(#[trigger] battery_sizes()[q] as nat))),
{
    let sizes = battery_sizes_vec();
    let mut k: usize = 0;
    while k < sizes.len()
        invariant
            k <= sizes@.len(),
            sizes@ == battery_sizes(),
            forall|v: Vec<usize>| #[trigger] sort.requires((v,)),
            forall|q: int| 0 <= q < k ==> run_sorted(*sort, iota_rev(#[trigger] battery_sizes()[q] as nat)),
        decreases sizes@.len() - k,
    {
        let n = sizes[k];
        let arr = get_reversed_arr(n);
        let ghost input = arr@;
        let out = sort(arr);
        if !is_sorted(&out) {
            return Err(at_n("not sorted at n=", n));
        }
        k = k + 1;
    }
    Ok(())
}

// ───────────────────────────── partitions ─────────────────────────────

/// Around the value at `p`: nothing before it is larger, nothing after it
/// smaller, and `p` is a position of the `n` inputs.
pub open spec fn partitioned(o: Seq<usize>, p: usize, n: usize) -> bool {
    &&& p < n
    &&& p < o.len()
    &&& forall|i: int| 0 <= i < p ==> #[trigger] o[i] <= o[p as int]
    &&& forall|i: int| p < i < o.len() ==> #[trigger] o[i] >= o[p as int]
}

/// The first of the partition checks that fails, as its message.
pub open spec fn partition_message(o: Seq<usize>, p: usize, n: usize) -> Seq<char> {
    if !(p < n && p < o.len()) {
        "pivot index "@ + decimal(p as nat) + " out of bounds at n="@ + decimal(n as nat)
    } else if !(forall|i: int| 0 <= i < p ==> #[trigger] o[i] <= o[p as int]) {
        "left of pivot not ≤ pivot at n="@ + decimal(n as nat)
    } else {
        "right of pivot not ≥ pivot at n="@ + decimal(n as nat)
    }
}

/// A run of `part` on `input` around position `pivot` came back partitioned.
pub open spec fn run_partitions<F: Fn(Vec<usize>, usize) -> (Vec<usize>, usize)>(
    part: F,
    input: Seq<usize>,
    pivot: usize,
) -> bool {
    exists|v: Vec<usize>, o: (Vec<usize>, usize)|
        v@ == input && #[trigger] part.ensures((v, pivot), o) && partitioned(o.0@, o.1, input.len() as usize)
}

/// A run of `part` came back not partitioned, and `m` names the first check
/// that fails.
pub open spec fn run_mispartitions<F: Fn(Vec<usize>, usize) -> (Vec<usize>, usize)>(
    part: F,
    input: Seq<usize>,
    pivot: usize,
    m: Seq<char>,
) -> bool {
    exists|v: Vec<usize>, o: (Vec<usize>, usize)|
        v@ == input && #[trigger] part.ensures((v, pivot), o) && !partitioned(o.0@, o.1, input.len() as usize)
            && m == partition_message(o.0@, o.1, input.len() as usize)
}

fn check_partitioned(o: &Vec<usize>, p: usize, n: usize) -> (r: Result<(), String>)
    ensures
        r is Ok <==> partitioned(o@, p, n),
        r is Err ==> r->Err_0@ == partition_message(o@, p, n),
{
    if !(p < n && p < o.len()) {
        let mut m = at_n("pivot index ", p);
        push_str(&mut m, " out of bounds at n=");
        push_decimal(&mut m, n as u128);
        return Err(m);
    }
    let pivot = o[p];
    let mut i: usize = 0;
    while i < p
        invariant
            p < o@.len(),
            p < n,
            pivot == o@[p as int],
            i <= p,
            forall|q: int| 0 <= q < i ==> #[trigger] o@[q] <= pivot,
        decreases p - i,
    {
        if o[i] > pivot {
            assert(!(forall|q: int| 0 <= q < p ==> #[trigger] o@[q] <= o@[p as int])) by {
                assert(o@[i as int] > o@[p as int]);
            }
            return Err(at_n("left of pivot not ≤ pivot at n=", n));
        }
        i = i + 1;
    }
    let mut i: usize = p + 1;
    while i < o.len()
        invariant
            p < i,
            p < o@.len(),
            p < n,
            pivot == o@[p as int],
            forall|q: int| 0 <= q < p ==> #[trigger] o@[q] <= pivot,
            forall|q: int| p < q < i && q < o@.len() ==> #[trigger] o@[q] >= pivot,
        decreases o@.len() - i,
    {
        if o[i] < pivot {
            assert(!(forall|q: int| p < q < o@.len() ==> #[trigger] o@[q] >= o@[p as int])) by {
                assert(o@[i as int] < o@[p as int]);
            }
            return Err(at_n("right of pivot not ≥ pivot at n=", n));
        }
        i = i + 1;
    }
    Ok(())
}

/// The partition battery: each size's descending input, partitioned around
/// its middle position, must come back partitioned around the returned one.
pub fn assert_partitions<F: Fn(Vec<usize>, usize) -> (Vec<usize>, usize)>(part: &F) -> (r: Result<(), String>)
    requires
        forall|v: Vec<usize>, p: usize| #[trigger] part.requires((v, p)),
    ensures
        r is Ok ==> forall|k: int|
            0 <= k < 5 ==> run_partitions(
                *part,
                iota_rev(#[trigger] partition_sizes()[k] as nat),
                (partition_sizes()[k] / 2) as usize,
            ),
        r is Err ==> exists|k: int|
            0 <= k < 5 && run_mispartitions(
                *part,
                iota_rev(#[trigger] partition_sizes()[k] as nat),
                (partition_sizes()[k] / 2) as usize,
                r->Err_0@,
            ) && (forall|q: int|
                0 <= q < k ==> run_partitions(
                    *part,
                    iota_rev(#[trigger] partition_sizes()[q] as nat),
                    (partition_sizes()[q] / 2) as usize,
                )),
{
    let sizes = partition_sizes_vec();
    let mut k: usize = 0;
    while k < sizes.len()
        invariant
            k <= sizes@.len(),
            sizes@ == partition_sizes(),
            forall|v: Vec<usize>, p: usize| #[trigger] part.requires((v, p)),
            forall|q: int|
                0 <= q < k ==> run_partitions(
                    *part,
                    iota_rev(#[trigger] partition_sizes()[q] as nat),
                    (partition_sizes()[q] / 2) as usize,
                ),
        decreases sizes@.len() - k,
    {
        let n = sizes[k];
        let arr = get_reversed_arr(n);
        let out = part(arr, n / 2);
        match check_partitioned(&out.0, out.1, n) {
            Ok(()) => {},
            Err(m) => {
                return Err(m);
            },
        }
        k = k + 1;
    }
    Ok(())
}

// ───────────────────────────── merges ─────────────────────────────

/// `(i * 7) % n` at each position `i` of `n` (modulo 1 when `n` is 0).
pub open spec fn merge_base(n: nat) -> Seq<usize> {
    Seq::new(n, |i: int| ((i * 7) % (if n == 0 { 1 } else { n as int })) as usize)
}

/// The merge input of size `n`: the base sequence with each half sorted.
pub open spec fn merge_input_ok(s: Seq<usize>, n: nat) -> bool {
    let h = (n / 2) as int;
    let b = merge_base(n);
    &&& s.len() == n
    &&& sorted_usize(s.take(h))
    &&& sorted_usize(s.skip(h))
    &&& s.take(h).to_multiset() == b.take(h).to_multiset()
    &&& s.skip(h).to_multiset() == b.skip(h).to_multiset()
}

/// A run of `merge` on `input` split at `mid` came back as its sorted
/// permutation.
pub open spec fn run_merges<F: Fn(Vec<usize>, usize) -> Vec<usize>>(merge: F, input: Seq<usize>, mid: usize) -> bool {
    exists|v: Vec<usize>, o: Vec<usize>| v@ == input && #[trigger] merge.ensures((v, mid), o) && sorted_perm(o@, input)
}

/// A run of `merge` came back as anything but the sorted permutation.
pub open spec fn run_mismerges<F: Fn(Vec<usize>, usize) -> Vec<usize>>(merge: F, input: Seq<usize>, mid: usize) -> bool {
    exists|v: Vec<usize>, o: Vec<usize>| v@ == input && #[trigger] merge.ensures((v, mid), o) && !sorted_perm(o@, input)
}

fn merge_input(n: usize) -> (r: Vec<usize>)
    requires
        n <= 128,
    ensures
        merge_input_ok(r@, n as nat),
{
    let m: usize = if n == 0 { 1 } else { n };
    let mid = n / 2;
    let mut lo: Vec<usize> = Vec::new();
    let mut hi: Vec<usize> = Vec::new();
    let mut i: usize = 0;
    let ghost b = merge_base(n as nat);
    while i < n
        invariant
            n <= 128,
            m == if n == 0 { 1 } else { n },
            mid == n / 2,
            b == merge_base(n as nat),
            i <= n,
            i <= mid ==> lo@ == b.take(i as int) && hi@.len() == 0,
            i > mid ==> lo@ == b.take(mid as int) && hi@ == b.subrange(mid as int, i as int),
        decreases n - i,
    {
        let x = (i * 7) % m;
        assert(x == b[i as int]);
        if i < mid {
            lo.push(x);
            assert(lo@ =~= b.take(i + 1));
        } else {
            hi.push(x);
            if i == mid {
                assert(hi@ =~= b.subrange(mid as int, i + 1));
            } else {
                assert(hi@ =~= b.subrange(mid as int, i + 1));
            }
        }
        i = i + 1;
    }
    if n <= mid {
        assert(hi@ =~= b.subrange(mid as int, n as int));
    }
    assert(b.subrange(mid as int, n as int) =~= b.skip(mid as int));
    let ghost lo0 = lo@;
    let ghost hi0 = hi@;
    sort_unstable(lo.as_mut_slice());
    sort_unstable(hi.as_mut_slice());
    let ghost ls = lo@;
    let ghost hs = hi@;
    proof {
        ls.to_multiset_ensures();
        lo0.to_multiset_ensures();
        hs.to_multiset_ensures();
        hi0.to_multiset_ensures();
    }
    let mut r = lo;
    let mut hi2 = hi;
    r.append(&mut hi2);
    assert(r@ =~= ls + hs);
    assert(r@.take(mid as int) =~= ls);
    assert(r@.skip(mid as int) =~= hs);
    r
}

/// The merge battery: for each size, the base sequence with both halves
/// sorted, merged at the middle, must come back as its sorted permutation.
pub fn assert_merges<F: Fn(Vec<usize>, usize) -> Vec<usize>>(merge: &F) -> (r: Result<(), String>)
    requires
        forall|v: Vec<usize>, m: usize| #[trigger] merge.requires((v, m)),
    ensures
        r is Ok ==> forall|k: int|
            0 <= k < 6 ==> exists|s: Seq<usize>|
                merge_input_ok(s, #[trigger] battery_sizes()[k] as nat) && run_merges(
                    *merge,
                    s,
                    (battery_sizes()[k] / 2) as usize,
                ),
        r is Err ==> exists|k: int, s: Seq<usize>|
            0 <= k < 6 && merge_input_ok(s, #[trigger] battery_sizes()[k] as nat) && #[trigger] run_mismerges(
                *merge,
                s,
                (battery_sizes()[k] / 2) as usize,
            ) && r->Err_0@ == "merge did not produce a sorted permutation at n="@ + decimal(
                battery_sizes()[k] as nat,
            ) && (forall|q: int|
                0 <= q < k ==> exists|s2: Seq<usize>|
                    merge_input_ok(s2, #[trigger] battery_sizes()[q] as nat) && run_merges(
                        *merge,
                        s2,
                        (battery_sizes()[q] / 2) as usize,
                    )),
{
    let sizes = battery_sizes_vec();
    let mut k: usize = 0;
    while k < sizes.len()
        invariant
            k <= sizes@.len(),
            sizes@ == battery_sizes(),
            forall|v: Vec<usize>, m: usize| #[trigger] merge.requires((v, m)),
            forall|q: int|
                0 <= q < k ==> exists|s: Seq<usize>|
                    merge_input_ok(s, #[trigger] battery_sizes()[q] as nat) && run_merges(
                        *merge,
                        s,
                        (battery_sizes()[q] / 2) as usize,
                    ),
        decreases sizes@.len() - k,
    {
        let n = sizes[k];
        let arr = merge_input(n);
        let mut expected = copy_vec(&arr);
        sort_unstable(expected.as_mut_slice());
        let ghost input = arr@;
        let out = merge(arr, n / 2);
        if !same_vec(&out, &expected) {
            proof {
                if sorted_perm(out@, input) {
                    lemma_sorted_unique(out@, expected@);
                }
                assert(run_mismerges(*merge, input, (battery_sizes()[k as int] / 2) as usize));
            }
            return Err(at_n("merge did not produce a sorted permutation at n=", n));
        }
        assert(run_merges(*merge, input, (battery_sizes()[k as int] / 2) as usize));
        k = k + 1;
    }
    Ok(())
}

// ───────────────────────────── rotations ─────────────────────────────

/// The split points tried at size `n`.
pub open spec fn rotation_mids(n: usize) -> Seq<usize> {
    seq![0usize, 1, n / 3, n / 2, n]
}

/// `0..n` rotated left by `mid` modulo `n`.
pub open spec fn rotated_iota(n: nat, mid: nat) -> Seq<usize> {
    if n == 0 {
        iota(0)
    } else {
        rotl(iota(n), (mid % n) as int)
    }
}

/// A run of `rot` on `0..n` split at `mid` came back rotated.
pub open spec fn run_rotates<F: Fn(Vec<usize>, usize) -> Vec<usize>>(rot: F, n: usize, mid: usize) -> bool {
    exists|v: Vec<usize>, o: Vec<usize>|
        v@ == iota(n as nat) && #[trigger] rot.ensures((v, mid), o) && o@ == rotated_iota(n as nat, mid as nat)
}

/// A run of `rot` on `0..n` split at `mid` came back otherwise.
pub open spec fn run_misrotates<F: Fn(Vec<usize>, usize) -> Vec<usize>>(rot: F, n: usize, mid: usize) -> bool {
    exists|v: Vec<usize>, o: Vec<usize>|
        v@ == iota(n as nat) && #[trigger] rot.ensures((v, mid), o) && o@ != rotated_iota(n as nat, mid as nat)
}

fn rotated_expected(n: usize, mid: usize) -> (r: Vec<usize>)
    requires
        n <= 128,
    ensures
        r@ == rotated_iota(n as nat, mid as nat),
{
    let mut r: Vec<usize> = Vec::new();
    if n == 0 {
        assert(r@ =~= iota(0));
        return r;
    }
    let s = mid % n;
    let mut i: usize = 0;
    while i < n
        invariant
            0 < n <= 128,
            s < n,
            s == mid % n,
            i <= n,
            r@.len() == i,
            forall|q: int| 0 <= q < i ==> #[trigger] r@[q] == rotl(iota(n as nat), s as int)[q],
        decreases n - i,
    {
        let x = if i + s < n { i + s } else { i + s - n };
        assert(x == rotl(iota(n as nat), s as int)[i as int]);
        r.push(x);
        i = i + 1;
    }
    assert(r@ =~= rotl(iota(n as nat), s as int));
    r
}

/// The rotation battery: `0..n`, for each size and each split point, must
/// come back rotated left by the split modulo `n`.
pub fn assert_rotations<F: Fn(Vec<usize>, usize) -> Vec<usize>>(rot: &F) -> (r: Result<(), String>)
    requires
        forall|v: Vec<usize>, m: usize| #[trigger] rot.requires((v, m)),
    ensures
        r is Ok ==> forall|k: int, t: int|
            0 <= k < 6 && 0 <= t < 5 ==> run_rotates(
                *rot,
                #[trigger] battery_sizes()[k],
                #[trigger] rotation_mids(battery_sizes()[k])[t],
            ),
        r is Err ==> exists|k: int, t: int|
            0 <= k < 6 && 0 <= t < 5 && run_misrotates(
                *rot,
                #[trigger] battery_sizes()[k],
                #[trigger] rotation_mids(battery_sizes()[k])[t],
            ) && r->Err_0@ == "rotation by "@ + decimal(rotation_mids(battery_sizes()[k])[t] as nat) + " wrong at n="@
                + decimal(battery_sizes()[k] as nat) && (forall|q: int, u: int|
                (0 <= q < k && 0 <= u < 5) || (q == k && 0 <= u < t) ==> run_rotates(
                    *rot,
                    #[trigger] battery_sizes()[q],
                    #[trigger] rotation_mids(battery_sizes()[q])[u],
                )),
{
    let sizes = battery_sizes_vec();
    let mut k: usize = 0;
    while k < sizes.len()
        invariant
            k <= sizes@.len(),
            sizes@ == battery_sizes(),
            forall|v: Vec<usize>, m: usize| #[trigger] rot.requires((v, m)),
            forall|q: int, t: int|
                0 <= q < k && 0 <= t < 5 ==> run_rotates(
                    *rot,
                    #[trigger] battery_sizes()[q],
                    #[trigger] rotation_mids(battery_sizes()[q])[t],
                ),
        decreases sizes@.len() - k,
    {
        let n = sizes[k];
        let mids = vec![0usize, 1, n / 3, n / 2, n];
        assert(mids@ =~= rotation_mids(n));
        let mut t: usize = 0;
        while t < mids.len()
            invariant
                k < sizes@.len(),
                sizes@ == battery_sizes(),
                n == battery_sizes()[k as int],
                n <= 128,
                mids@ == rotation_mids(n),
                t <= mids@.len(),
                forall|v: Vec<usize>, m: usize| #[trigger] rot.requires((v, m)),
                forall|q: int, u: int|
                    0 <= q < k && 0 <= u < 5 ==> run_rotates(
                        *rot,
                        #[trigger] battery_sizes()[q],
                        #[trigger] rotation_mids(battery_sizes()[q])[u],
                    ),
                forall|u: int| 0 <= u < t ==> run_rotates(*rot, n, #[trigger] rotation_mids(n)[u]),
            decreases mids@.len() - t,
        {
            let mid = mids[t];
            let arr = get_arr(n);
            let expected = rotated_expected(n, mid);
            let out = rot(arr, mid);
            if !same_vec(&out, &expected) {
                let mut m = at_n("rotation by ", mid);
                push_str(&mut m, " wrong at n=");
                push_decimal(&mut m, n as u128);
                assert(run_misrotates(*rot, n, rotation_mids(n)[t as int]));
                return Err(m);
            }
            assert(run_rotates(*rot, n, rotation_mids(n)[t as int]));
            t = t + 1;
        }
        assert forall|q: int, u: int|
            0 <= q < k + 1 && 0 <= u < 5 implies run_rotates(
                *rot,
                #[trigger] battery_sizes()[q],
                #[trigger] rotation_mids(battery_sizes()[q])[u],
            ) by {
            if q == k {
                assert(run_rotates(*rot, n, rotation_mids(n)[u]));
            }
        }
        k = k + 1;
    }
    Ok(())
}

} // verus!
