//! The sort correctness registry's logic: the opt-in random-input caps, the
//! battery every registered sort is checked against, and the checks on what a
//! sort hands back (a sorted permutation; for stable sorts, equal keys in
//! their original order).
use vstd::prelude::*;
use crate::text::{decimal, owned, push_decimal, push_str, str_eq};
use crate::demo::{sort_unstable, sorted_usize};

verus! {

// ───────────────────────────── input caps ─────────────────────────────

/// The caps as (sort name, cap) pairs of plain values.
pub open spec fn caps_view(caps: Seq<(&str, usize)>) -> Seq<(Seq<char>, usize)> {
    caps.map_values(|c: (&str, usize)| (c.0@, c.1))
}

/// The first cap declared for `name`, if any.
pub open spec fn cap_of(caps: Seq<(Seq<char>, usize)>, name: Seq<char>) -> Option<usize>
    decreases caps.len(),
{
    if caps.len() == 0 {
        None
    } else if caps[0].0 == name {
        Some(caps[0].1)
    } else {
        cap_of(caps.drop_first(), name)
    }
}

/// The random-input size cap declared for `sort_name` among `caps` (the
/// registered `(name, cap)` pairs), if any; the first declaration wins.
pub fn max_n_for_tests(caps: &[(&str, usize)], sort_name: &str) -> (r: Option<usize>)
    ensures
        r == cap_of(caps_view(caps@), sort_name@),
{
    let mut i: usize = 0;
    assert(caps_view(caps@).skip(0) =~= caps_view(caps@));
    while i < caps.len()
        invariant
            i <= caps@.len(),
            cap_of(caps_view(caps@), sort_name@) == cap_of(caps_view(caps@).skip(i as int), sort_name@),
        decreases caps@.len() - i,
    {
        let ghost rest = caps_view(caps@).skip(i as int);
        assert(rest[0] == (caps@[i as int].0@, caps@[i as int].1));
        if str_eq(caps[i].0, sort_name) {
            return Some(caps[i].1);
        }
        assert(rest.drop_first() =~= caps_view(caps@).skip(i + 1));
        i = i + 1;
    }
    None
}

// ───────────────────────────── permutations ─────────────────────────────

pub open spec fn factorial(n: nat) -> nat
    decreases n,
{
    if n == 0 {
        1
    } else {
        n * factorial((n - 1) as nat)
    }
}

/// Each of `ps` rearranges `base`.
pub open spec fn all_rearrange(ps: Seq<Vec<usize>>, base: Seq<usize>) -> bool {
    forall|j: int| 0 <= j < ps.len() ==> (#[trigger] ps[j])@.to_multiset() == base.to_multiset()
}

proof fn lemma_swap_keeps_multiset(s: Seq<usize>, i: int, j: int)
    requires
        0 <= i < s.len(),
        0 <= j < s.len(),
    ensures
        s.update(i, s[j]).update(j, s[i]).to_multiset() == s.to_multiset(),
{
    broadcast use vstd::seq_lib::group_to_multiset_ensures, vstd::multiset::group_multiset_axioms;
    let t = s.update(i, s[j]);
    vstd::seq_lib::to_multiset_update(s, i, s[j]);
    vstd::seq_lib::to_multiset_update(t, j, s[i]);
    assert(s.update(i, s[j]).update(j, s[i]).to_multiset() =~= s.to_multiset());
}

fn swap(arr: &mut Vec<usize>, i: usize, j: usize)
    requires
        i < old(arr)@.len(),
        j < old(arr)@.len(),
    ensures
        final(arr)@ == old(arr)@.update(i as int, old(arr)@[j as int]).update(j as int, old(arr)@[i as int]),
        final(arr)@.to_multiset() == old(arr)@.to_multiset(),
{
    proof {
        lemma_swap_keeps_multiset(arr@, i as int, j as int);
    }
    let a = arr[i];
    let b = arr[j];
    arr.set(i, b);
    arr.set(j, a);
}

fn snapshot(arr: &Vec<usize>) -> (r: Vec<usize>)
    ensures
        r@ == arr@,
{
    let mut r: Vec<usize> = Vec::new();
    let mut i: usize = 0;
    while i < arr.len()
        invariant
            i <= arr@.len(),
            r@ == arr@.take(i as int),
        decreases arr@.len() - i,
    {
        r.push(arr[i]);
        i = i + 1;
        assert(r@ =~= arr@.take(i as int));
    }
    assert(arr@.take(i as int) =~= arr@);
    r
}

// ───────────────────────────── Heap's algorithm, position by position ─────────────────────────────

/// Where Heap's algorithm over the first `k` positions leaves each position's
/// element from: position `j` ends up holding what was at `heap_eff(k, j)`
/// (positions from `k` on are untouched).
pub open spec fn heap_eff(k: int, j: int) -> int {
    if j < 0 || j >= k || k <= 1 {
        j
    } else if k == 2 {
        1 - j
    } else if k % 2 == 1 {
        if j == 0 {
            k - 1
        } else if j == k - 1 {
            0
        } else {
            j
        }
    } else if j == 0 {
        k - 3
    } else if j == 1 {
        k - 2
    } else if j == k - 2 {
        k - 1
    } else if j == k - 1 {
        0
    } else {
        j - 1
    }
}

/// For odd `k`, the order in which the last position receives the elements
/// across the `k` rounds.
pub open spec fn heap_cycle(k: int, i: int) -> int {
    if k == 3 {
        2 - i
    } else if i == 0 {
        k - 1
    } else if i <= k - 4 {
        k - 3 - i
    } else if i == k - 3 {
        k - 3
    } else if i == k - 2 {
        k - 2
    } else {
        0
    }
}

/// Where `x` stands in [`heap_cycle`].
pub open spec fn heap_cycle_pos(k: int, x: int) -> int {
    if k == 3 {
        2 - x
    } else if x == k - 1 {
        0
    } else if 1 <= x <= k - 4 {
        k - 3 - x
    } else if x == k - 3 {
        k - 3
    } else if x == k - 2 {
        k - 2
    } else {
        k - 1
    }
}

/// At the start of round `t` of Heap's algorithm over `k` positions,
/// position `j` holds what was first at `heap_state(k, t, j)`.
pub open spec fn heap_state(k: int, t: int, j: int) -> int {
    if t == 0 || j < 0 || j >= k {
        j
    } else if k % 2 == 1 {
        heap_cycle(k, (heap_cycle_pos(k, j) + t) % k)
    } else if j == k - 1 {
        if t == 1 {
            k - 2
        } else if t == k - 1 {
            0
        } else {
            t - 1
        }
    } else if j == 0 {
        if t % 2 == 1 {
            k - 1
        } else {
            0
        }
    } else if j == 1 {
        if t == 1 {
            1
        } else {
            k - 2
        }
    } else if j <= t - 1 {
        j - 1
    } else if j < k - 2 {
        j
    } else if t % 2 == 1 {
        0
    } else {
        k - 1
    }
}

/// The swap of round `t` (between rounds `t` and `t + 1`) applied to a position.
pub open spec fn heap_swap(k: int, t: int, j: int) -> int {
    let i = if k % 2 == 0 {
        t
    } else {
        0
    };
    if j == i {
        k - 1
    } else if j == k - 1 {
        i
    } else {
        j
    }
}

proof fn lemma_heap_cycle(k: int)
    requires
        k >= 3,
        k % 2 == 1,
    ensures
        forall|i: int| 0 <= i < k ==> 0 <= #[trigger] heap_cycle(k, i) < k && heap_cycle_pos(k, heap_cycle(k, i)) == i,
        forall|x: int| 0 <= x < k ==> 0 <= #[trigger] heap_cycle_pos(k, x) < k && heap_cycle(k, heap_cycle_pos(k, x)) == x,
{
}

proof fn lemma_heap_range(k: int, t: int, j: int)
    requires
        1 <= k,
        0 <= t < k,
        0 <= j < k,
    ensures
        0 <= heap_state(k, t, j) < k,
        0 <= heap_eff(k, j) < k,
{
    if k % 2 == 1 && k >= 3 && t > 0 {
        lemma_heap_cycle(k);
        let p = heap_cycle_pos(k, j);
        assert(0 <= (p + t) % k < k) by (nonlinear_arith)
            requires
                k > 0,
        ;
    }
}

proof fn lemma_mod_wrap(k: int, t: int)
    requires
        0 <= t < k,
    ensures
        (k + t) % k == t,
        t % k == t,
{
    vstd::arithmetic::div_mod::lemma_mod_add_multiples_vanish(t, k);
    vstd::arithmetic::div_mod::lemma_small_mod(t as nat, k as nat);
}

/// One round: the swap, then Heap's algorithm over the first `k - 1`.
proof fn lemma_heap_step(k: int, t: int, j: int)
    requires
        2 <= k,
        0 <= t < k - 1,
        0 <= j < k,
    ensures
        heap_state(k, t + 1, j) == heap_state(k, t, heap_eff(k - 1, heap_swap(k, t, j))),
{
    if k % 2 == 1 {
        lemma_heap_cycle(k);
        let q = heap_eff(k - 1, heap_swap(k, t, j));
        let p = heap_cycle_pos(k, j);
        if j == 0 {
            assert(q == k - 1);
            lemma_mod_wrap(k, t);
            assert(p == k - 1);
            assert(p + t + 1 == k + t);
            if t > 0 {
                assert(heap_state(k, t, q) == heap_cycle(k, (0 + t) % k));
            }
        } else {
            assert(heap_cycle_pos(k, q) == p + 1);
            if t == 0 {
                assert(0 <= p + 1 < k);
                lemma_mod_wrap(k, p + 1);
                assert(heap_cycle(k, heap_cycle_pos(k, q)) == q);
            }
        }
    } else {
    }
}

/// After the last round the first `k - 1` positions are run once more; the
/// whole is [`heap_eff`].
proof fn lemma_heap_final(k: int, j: int)
    requires
        2 <= k,
        0 <= j < k,
    ensures
        heap_state(k, k - 1, heap_eff(k - 1, j)) == heap_eff(k, j),
{
    if k % 2 == 1 {
        lemma_heap_cycle(k);
        let e = heap_eff(k - 1, j);
        let sj = heap_swap(k, 0, j);
        lemma_heap_step(k, 0, sj);
        assert(heap_swap(k, 0, sj) == j);
        let p = heap_cycle_pos(k, sj);
        assert(0 <= p < k);
        assert(heap_cycle_pos(k, e) == (p + 1) % k) by {
            assert(heap_state(k, 1, sj) == heap_state(k, 0, e));
            lemma_heap_range(k, 0, j);
            if p + 1 < k {
                lemma_mod_wrap(k, p + 1);
            } else {
                lemma_mod_wrap(k, 0);
            }
        }
        if p + 1 < k {
            lemma_mod_wrap(k, p + 1);
            assert(heap_cycle_pos(k, e) + k - 1 == k + p);
            lemma_mod_wrap(k, p);
        } else {
            lemma_mod_wrap(k, 0);
            assert(heap_cycle_pos(k, e) == 0);
            lemma_mod_wrap(k, k - 1);
        }
    }
}

/// The last position receives a different element in every round.
proof fn lemma_heap_last_distinct(k: int, t1: int, t2: int)
    requires
        1 <= k,
        0 <= t1 < t2 < k,
    ensures
        heap_state(k, t1, k - 1) != heap_state(k, t2, k - 1),
{
    if k % 2 == 1 && k >= 3 {
        lemma_heap_cycle(k);
        lemma_mod_wrap(k, t1);
        lemma_mod_wrap(k, t2);
        assert(heap_state(k, t2, k - 1) == heap_cycle(k, t2));
        if t1 > 0 {
            assert(heap_state(k, t1, k - 1) == heap_cycle(k, t1));
        } else {
            assert(heap_cycle(k, 0) == k - 1);
        }
        assert(heap_cycle_pos(k, heap_cycle(k, t1)) == t1);
    }
}

/// A rearrangement of a sequence without repeats has none either.
proof fn lemma_no_duplicates_kept(a: Seq<usize>, b: Seq<usize>)
    requires
        a.no_duplicates(),
        b.to_multiset() == a.to_multiset(),
    ensures
        b.no_duplicates(),
{
    a.lemma_multiset_has_no_duplicates();
    b.lemma_multiset_has_no_duplicates_conv();
}

/// Heap's algorithm over the first `k` entries of `arr`: appends one snapshot
/// of `arr` per arrangement, `k!` in all, each a rearrangement of `arr` that
/// leaves the entries from `k` on in place; when `arr` has no repeats, no two
/// snapshots are alike. `arr` itself ends rearranged by [`heap_eff`].
fn heap_permute(arr: &mut Vec<usize>, k: usize, out: &mut Vec<Vec<usize>>)
    requires
        k <= old(arr)@.len(),
    ensures
        final(arr)@.to_multiset() == old(arr)@.to_multiset(),
        final(arr)@.len() == old(arr)@.len(),
        final(out)@.len() == old(out)@.len() + factorial(k as nat),
        final(out)@.take(old(out)@.len() as int) == old(out)@,
        all_rearrange(final(out)@.skip(old(out)@.len() as int), old(arr)@),
        forall|j: int| 0 <= j < old(arr)@.len() ==> #[trigger] final(arr)@[j] == old(arr)@[heap_eff(k as int, j)],
        forall|q: int|
            old(out)@.len() <= q < final(out)@.len() ==> (#[trigger] final(out)@[q])@.len() == old(arr)@.len()
                && forall|j: int| k <= j < old(arr)@.len() ==> final(out)@[q]@[j] == old(arr)@[j],
        old(arr)@.no_duplicates() ==> forall|q1: int, q2: int|
            old(out)@.len() <= q1 < q2 < final(out)@.len() ==> #[trigger] final(out)@[q1]@ != #[trigger] final(out)@[q2]@,
    decreases k,
{
    let ghost a0 = arr@;
    let ghost o0 = out@;
    if k <= 1 {
        assert(factorial(k as nat) == 1) by {
            assert(factorial(0) == 1);
            assert(factorial(1) == 1 * factorial(0));
        }
        let s = snapshot(arr);
        out.push(s);
        assert(out@.take(o0.len() as int) =~= o0);
        assert(out@.skip(o0.len() as int) =~= seq![s]);
        return;
    }
    heap_permute(arr, k - 1, out);
    let mut i: usize = 0;
    let ghost mut tags: Seq<int> = Seq::new((out@.len() - o0.len()) as nat, |q: int| 0int);
    proof {
        assert forall|q: int| 0 <= q < tags.len() implies out@[o0.len() + q]@[k - 1] == a0[heap_state(k as int, #[trigger] tags[q], k - 1)] by {
            assert(heap_state(k as int, 0, k - 1) == k - 1);
        }
    }
    while i < k - 1
        invariant
            2 <= k <= arr@.len(),
            arr@.len() == a0.len(),
            arr@.to_multiset() == a0.to_multiset(),
            i < k,
            out@.len() == o0.len() + (i + 1) * factorial((k - 1) as nat),
            out@.take(o0.len() as int) == o0,
            all_rearrange(out@.skip(o0.len() as int), a0),
            forall|j: int| 0 <= j < a0.len() ==> #[trigger] arr@[j] == a0[heap_state(k as int, i as int, heap_eff(k - 1, j))],
            forall|q: int|
                o0.len() <= q < out@.len() ==> (#[trigger] out@[q])@.len() == a0.len() && forall|j: int|
                    k <= j < a0.len() ==> out@[q]@[j] == a0[j],
            tags.len() == out@.len() - o0.len(),
            forall|q: int| 0 <= q < tags.len() ==> 0 <= #[trigger] tags[q] <= i,
            forall|q: int| 0 <= q < tags.len() ==> out@[o0.len() + q]@[k - 1] == a0[heap_state(k as int, #[trigger] tags[q], k - 1)],
            a0.no_duplicates() ==> forall|q1: int, q2: int|
                o0.len() <= q1 < q2 < out@.len() ==> #[trigger] out@[q1]@ != #[trigger] out@[q2]@,
        decreases k - 1 - i,
    {
        let ghost before = arr@;
        if k % 2 == 0 {
            swap(arr, i, k - 1);
        } else {
            swap(arr, 0, k - 1);
        }
        let ghost a1 = arr@;
        proof {
            assert forall|j: int| 0 <= j < a0.len() implies #[trigger] a1[j] == a0[heap_state(k as int, i + 1, j)] by {
                if j < k {
                    lemma_heap_step(k as int, i as int, j);
                    assert(a1[j] == before[heap_swap(k as int, i as int, j)]);
                }
            }
        }
        let ghost o1 = out@;
        heap_permute(arr, k - 1, out);
        proof {
            assert(out@.take(o0.len() as int) =~= o1.take(o0.len() as int));
            assert forall|j: int| 0 <= j < out@.skip(o0.len() as int).len() implies (#[trigger] out@.skip(
                o0.len() as int,
            )[j])@.to_multiset() == a0.to_multiset() by {
                if o0.len() + j < o1.len() {
                    assert(out@[o0.len() + j] == o1.take(o1.len() as int)[o0.len() + j]);
                    assert(o1.skip(o0.len() as int)[j] == o1[o0.len() + j]);
                } else {
                    assert(out@.skip(o1.len() as int)[o0.len() + j - o1.len()] == out@[o0.len() + j]);
                }
            }
            assert((i + 2) * factorial((k - 1) as nat) == (i + 1) * factorial((k - 1) as nat)
                + factorial((k - 1) as nat)) by (nonlinear_arith);
            assert forall|j: int| 0 <= j < a0.len() implies #[trigger] arr@[j] == a0[heap_state(
                k as int,
                i + 1,
                heap_eff(k - 1, j),
            )] by {
                if j < k {
                    lemma_heap_range(k - 1, 0, if j < k - 1 { j } else { 0 });
                }
            }
            assert forall|q: int| o0.len() <= q < out@.len() implies (#[trigger] out@[q])@.len() == a0.len() && forall|j: int|
                k <= j < a0.len() ==> out@[q]@[j] == a0[j] by {
                if q < o1.len() {
                    assert(out@[q] == o1.take(o1.len() as int)[q]);
                } else {
                    assert forall|j: int| k <= j < a0.len() implies out@[q]@[j] == a0[j] by {
                        assert(a1[j] == a0[heap_state(k as int, i + 1, j)]);
                    }
                }
            }
            let ghost nt = tags + Seq::new((out@.len() - o1.len()) as nat, |q: int| (i + 1) as int);
            assert forall|q: int| 0 <= q < nt.len() implies 0 <= #[trigger] nt[q] <= i + 1 && out@[o0.len() + q]@[k - 1]
                == a0[heap_state(k as int, nt[q], k - 1)] by {
                if o0.len() + q < o1.len() {
                    assert(nt[q] == tags[q]);
                    assert(out@[o0.len() + q] == o1.take(o1.len() as int)[o0.len() + q]);
                } else {
                    assert(nt[q] == i + 1);
                    assert(out@[o0.len() + q]@[k - 1] == a1[k - 1]);
                }
            }
            if a0.no_duplicates() {
                lemma_no_duplicates_kept(a0, a1);
                assert forall|q1: int, q2: int| o0.len() <= q1 < q2 < out@.len() implies #[trigger] out@[q1]@
                    != #[trigger] out@[q2]@ by {
                    if q2 < o1.len() {
                        assert(out@[q1] == o1.take(o1.len() as int)[q1]);
                        assert(out@[q2] == o1.take(o1.len() as int)[q2]);
                    } else if q1 < o1.len() {
                        assert(out@[q1] == o1.take(o1.len() as int)[q1]);
                        let t = tags[q1 - o0.len()];
                        assert(o1[q1]@[k - 1] == a0[heap_state(k as int, t, k - 1)]);
                        assert(out@[q2]@[k - 1] == a1[k - 1]);
                        lemma_heap_last_distinct(k as int, t, i + 1);
                        lemma_heap_range(k as int, t, k - 1);
                        lemma_heap_range(k as int, i + 1, k - 1);
                    }
                }
            }
            tags = nt;
        }
        i = i + 1;
    }
    assert(factorial(k as nat) == k * factorial((k - 1) as nat));
    proof {
        assert forall|j: int| 0 <= j < a0.len() implies #[trigger] arr@[j] == a0[heap_eff(k as int, j)] by {
            if j < k {
                lemma_heap_final(k as int, j);
            }
        }
    }
}

/// Every arrangement of `base`, by Heap's algorithm: `n!` sequences, each a
/// rearrangement of `base`, no two alike when `base` has no repeats (so each
/// arrangement exactly once).
pub fn permutations(base: &[usize]) -> (r: Vec<Vec<usize>>)
    ensures
        r@.len() == factorial(base@.len()),
        all_rearrange(r@, base@),
        forall|j: int| 0 <= j < r@.len() ==> (#[trigger] r@[j])@.len() == base@.len(),
        base@.no_duplicates() ==> forall|q1: int, q2: int|
            0 <= q1 < q2 < r@.len() ==> #[trigger] r@[q1]@ != #[trigger] r@[q2]@,
{
    let mut arr: Vec<usize> = Vec::new();
    let mut i: usize = 0;
    while i < base.len()
        invariant
            i <= base@.len(),
            arr@ == base@.take(i as int),
        decreases base@.len() - i,
    {
        arr.push(base[i]);
        i = i + 1;
        assert(arr@ =~= base@.take(i as int));
    }
    assert(base@.take(i as int) =~= base@);
    let mut out: Vec<Vec<usize>> = Vec::new();
    let n = arr.len();
    heap_permute(&mut arr, n, &mut out);
    assert(out@.skip(0) =~= out@);
    proof {
        assert forall|j: int| 0 <= j < out@.len() implies (#[trigger] out@[j])@.len() == base@.len() by {
            broadcast use vstd::seq_lib::group_to_multiset_ensures;
            assert(out@.skip(0)[j] == out@[j]);
            assert(out@[j]@.to_multiset().len() == out@[j]@.len());
            assert(base@.to_multiset().len() == base@.len());
        }
    }
    out
}


// ───────────────────────────── input generators ─────────────────────────────

/// `rand::thread_rng().gen_range(lo..hi)`: a value of the half-open range,
/// which one being left to the thread-local generator.
#[verifier::external_body]
pub(crate) fn random_in(lo: usize, hi: usize) -> (r: usize)
    requires
        lo < hi,
    ensures
        lo <= r < hi,
{
    rand::Rng::gen_range(&mut rand::thread_rng(), lo..hi)
}

/// `SliceRandom::shuffle` with the thread-local generator: the entries end up
/// rearranged, in an order left to chance.
#[verifier::external_body]
fn shuffle(v: &mut Vec<usize>)
    ensures
        final(v)@.to_multiset() == old(v)@.to_multiset(),
{
    rand::seq::SliceRandom::shuffle(v.as_mut_slice(), &mut rand::thread_rng());
}

pub open spec fn iota(n: nat) -> Seq<usize> {
    Seq::new(n, |i: int| i as usize)
}

pub open spec fn iota_rev(n: nat) -> Seq<usize> {
    Seq::new(n, |i: int| (n - 1 - i) as usize)
}

pub open spec fn same(n: nat, v: usize) -> Seq<usize> {
    Seq::new(n, |i: int| v)
}

/// `n` values, each in `lo..hi`.
pub open spec fn drawn_from(s: Seq<usize>, n: nat, lo: nat, hi: nat) -> bool {
    &&& s.len() == n
    &&& forall|i: int| 0 <= i < s.len() ==> lo <= #[trigger] s[i] < hi
}

/// `0, 1, …, n-1`.
pub fn get_arr(n: usize) -> (r: Vec<usize>)
    ensures
        r@ == iota(n as nat),
{
    let mut r: Vec<usize> = Vec::new();
    let mut i: usize = 0;
    while i < n
        invariant
            i <= n,
            r@ == iota(i as nat),
        decreases n - i,
    {
        r.push(i);
        i = i + 1;
        assert(r@ =~= iota(i as nat));
    }
    r
}

/// `n-1, …, 1, 0`.
pub fn get_reversed_arr(n: usize) -> (r: Vec<usize>)
    ensures
        r@ == iota_rev(n as nat),
{
    let mut r: Vec<usize> = Vec::new();
    let mut i: usize = 0;
    while i < n
        invariant
            i <= n,
            r@ == iota_rev(n as nat).take(i as int),
        decreases n - i,
    {
        r.push(n - 1 - i);
        i = i + 1;
        assert(r@ =~= iota_rev(n as nat).take(i as int));
    }
    assert(iota_rev(n as nat).take(n as int) =~= iota_rev(n as nat));
    r
}

/// `n` random values in `lo..hi`.
pub fn get_rand_arr_in_range(n: usize, lo: usize, hi: usize) -> (r: Vec<usize>)
    requires
        lo < hi,
    ensures
        drawn_from(r@, n as nat, lo as nat, hi as nat),
{
    let mut r: Vec<usize> = Vec::new();
    let mut i: usize = 0;
    while i < n
        invariant
            i <= n,
            lo < hi,
            drawn_from(r@, i as nat, lo as nat, hi as nat),
        decreases n - i,
    {
        r.push(random_in(lo, hi));
        i = i + 1;
    }
    r
}

/// `n` random values in `0..n`.
pub fn get_rand_arr(n: usize) -> (r: Vec<usize>)
    ensures
        drawn_from(r@, n as nat, 0, n as nat),
{
    if n == 0 {
        Vec::new()
    } else {
        get_rand_arr_in_range(n, 0, n)
    }
}

fn fill(n: usize, v: usize) -> (r: Vec<usize>)
    ensures
        r@ == same(n as nat, v),
{
    let mut r: Vec<usize> = Vec::new();
    let mut i: usize = 0;
    while i < n
        invariant
            i <= n,
            r@ == same(i as nat, v),
        decreases n - i,
    {
        r.push(v);
        i = i + 1;
        assert(r@ =~= same(i as nat, v));
    }
    r
}


// ───────────────────────────── the battery ─────────────────────────────

/// One input of the correctness battery, with the label a failure names.
#[derive(Debug)]
pub struct CheckCase {
    pub label: String,
    pub input: Vec<usize>,
}

pub open spec fn case_view(c: CheckCase) -> (Seq<char>, Seq<usize>) {
    (c.label@, c.input@)
}

pub open spec fn cases_view(cs: Seq<CheckCase>) -> Seq<(Seq<char>, Seq<usize>)> {
    cs.map_values(|c: CheckCase| case_view(c))
}

fn push_case(out: &mut Vec<CheckCase>, label: String, input: Vec<usize>)
    ensures
        cases_view(final(out)@) == cases_view(old(out)@).push((label@, input@)),
{
    let c = CheckCase { label, input };
    out.push(c);
    assert(cases_view(out@) =~= cases_view(old(out)@).push((label@, input@)));
}

/// The trivial inputs: empty, one element, the three pairs.
pub open spec fn trivial_cases_s() -> Seq<(Seq<char>, Seq<usize>)> {
    seq![
        ("empty"@, seq![]),
        ("single"@, seq![1usize]),
        ("sorted pair"@, seq![1usize, 2]),
        ("reversed pair"@, seq![2usize, 1]),
        ("equal pair"@, seq![1usize, 1]),
    ]
}

fn trivial_cases() -> (r: Vec<CheckCase>)
    ensures
        cases_view(r@) == trivial_cases_s(),
{
    let mut r: Vec<CheckCase> = Vec::new();
    push_case(&mut r, owned("empty"), Vec::new());
    let mut v = Vec::new();
    v.push(1);
    assert(v@ =~= seq![1usize]);
    push_case(&mut r, owned("single"), v);
    let mut v = Vec::new();
    v.push(1);
    v.push(2);
    assert(v@ =~= seq![1usize, 2]);
    push_case(&mut r, owned("sorted pair"), v);
    let mut v = Vec::new();
    v.push(2);
    v.push(1);
    assert(v@ =~= seq![2usize, 1]);
    push_case(&mut r, owned("reversed pair"), v);
    let mut v = Vec::new();
    v.push(1);
    v.push(1);
    assert(v@ =~= seq![1usize, 1]);
    push_case(&mut r, owned("equal pair"), v);
    assert(cases_view(r@)[0] == trivial_cases_s()[0]);
    assert(cases_view(r@)[1] == trivial_cases_s()[1]);
    assert(cases_view(r@)[2] == trivial_cases_s()[2]);
    assert(cases_view(r@)[3] == trivial_cases_s()[3]);
    assert(cases_view(r@)[4] == trivial_cases_s()[4]);
    assert(cases_view(r@) =~= trivial_cases_s());
    r
}

pub open spec fn perm_label(n: nat) -> Seq<char> {
    "perm(n="@ + decimal(n) + ")"@
}

/// The size of the arrangement at position `j` of the permutation cases:
/// one of size 0, one of size 1, two of size 2, … 120 of size 5.
pub open spec fn perm_n(j: int) -> nat {
    if j < 1 {
        0
    } else if j < 2 {
        1
    } else if j < 4 {
        2
    } else if j < 10 {
        3
    } else if j < 34 {
        4
    } else {
        5
    }
}

/// Every arrangement of `0..n` for each `n` up to 5, by Heap's algorithm.
pub open spec fn perm_cases_ok(cs: Seq<(Seq<char>, Seq<usize>)>) -> bool {
    &&& cs.len() == 154
    &&& forall|j: int|
        0 <= j < 154 ==> (#[trigger] cs[j]).0 == perm_label(perm_n(j)) && cs[j].1.to_multiset()
            == iota(perm_n(j)).to_multiset()
    &&& forall|j1: int, j2: int|
        0 <= j1 < j2 < 154 && perm_n(j1) == perm_n(j2) ==> (#[trigger] cs[j1]).1 != (#[trigger] cs[j2]).1
}

fn push_perms(out: &mut Vec<CheckCase>, n: usize)
    ensures
        cases_view(final(out)@).len() == cases_view(old(out)@).len() + factorial(n as nat),
        cases_view(final(out)@).take(old(out)@.len() as int) == cases_view(old(out)@),
        forall|j: int|
            old(out)@.len() <= j < final(out)@.len() ==> (#[trigger] cases_view(final(out)@)[j]).0
                == perm_label(n as nat) && cases_view(final(out)@)[j].1.to_multiset() == iota(
                n as nat,
            ).to_multiset(),
        forall|j1: int, j2: int|
            old(out)@.len() <= j1 < j2 < final(out)@.len() ==> (#[trigger] cases_view(final(out)@)[j1]).1
                != (#[trigger] cases_view(final(out)@)[j2]).1,
{
    let base = get_arr(n);
    assert(base@.no_duplicates());
    let ps = permutations(base.as_slice());
    let ghost o0 = cases_view(out@);
    let mut i: usize = 0;
    while i < ps.len()
        invariant
            i <= ps@.len(),
            ps@.len() == factorial(n as nat),
            all_rearrange(ps@, iota(n as nat)),
            cases_view(out@).len() == o0.len() + i,
            cases_view(out@).take(o0.len() as int) == o0,
            forall|j: int|
                o0.len() <= j < cases_view(out@).len() ==> (#[trigger] cases_view(out@)[j]).0
                    == perm_label(n as nat) && cases_view(out@)[j].1.to_multiset() == iota(
                    n as nat,
                ).to_multiset(),
            forall|q1: int, q2: int| 0 <= q1 < q2 < ps@.len() ==> #[trigger] ps@[q1]@ != #[trigger] ps@[q2]@,
            forall|q: int| 0 <= q < i ==> #[trigger] cases_view(out@)[o0.len() + q].1 == ps@[q]@,
        decreases ps@.len() - i,
    {
        let mut l = owned("perm(n=");
        push_decimal(&mut l, n as u128);
        push_str(&mut l, ")");
        let p = snapshot(&ps[i]);
        assert(ps@[i as int]@.to_multiset() == iota(n as nat).to_multiset());
        let ghost before = cases_view(out@);
        push_case(out, l, p);
        assert(cases_view(out@).take(o0.len() as int) =~= before.take(o0.len() as int));
        proof {
            assert forall|q: int| 0 <= q < i + 1 implies #[trigger] cases_view(out@)[o0.len() + q].1 == ps@[q]@ by {
                if q < i {
                    assert(cases_view(out@)[o0.len() + q] == before[o0.len() + q]);
                }
            }
        }
        i = i + 1;
    }
    proof {
        assert forall|j1: int, j2: int|
            o0.len() <= j1 < j2 < cases_view(out@).len() implies (#[trigger] cases_view(out@)[j1]).1
                != (#[trigger] cases_view(out@)[j2]).1 by {
            assert(cases_view(out@)[o0.len() + (j1 - o0.len())].1 == ps@[j1 - o0.len()]@);
            assert(cases_view(out@)[o0.len() + (j2 - o0.len())].1 == ps@[j2 - o0.len()]@);
        }
    }
}

fn perm_cases() -> (r: Vec<CheckCase>)
    ensures
        perm_cases_ok(cases_view(r@)),
{
    let mut r: Vec<CheckCase> = Vec::new();
    proof {
        reveal_with_fuel(factorial, 6);
    }
    let mut n: usize = 0;
    while n <= 5
        invariant
            n <= 6,
            cases_view(r@).len() == perm_prefix(n as nat),
            forall|j: int|
                0 <= j < cases_view(r@).len() ==> (#[trigger] cases_view(r@)[j]).0 == perm_label(
                    perm_n(j),
                ) && cases_view(r@)[j].1.to_multiset() == iota(perm_n(j)).to_multiset(),
            forall|j: int| 0 <= j < cases_view(r@).len() ==> #[trigger] perm_n(j) < n,
            forall|j1: int, j2: int|
                0 <= j1 < j2 < cases_view(r@).len() && perm_n(j1) == perm_n(j2) ==> (#[trigger] cases_view(r@)[j1]).1
                    != (#[trigger] cases_view(r@)[j2]).1,
        decreases 6 - n,
    {
        let ghost before = cases_view(r@);
        push_perms(&mut r, n);
        proof {
            lemma_perm_prefix(n as nat);
            assert forall|j: int| 0 <= j < cases_view(r@).len() implies (#[trigger] cases_view(
                r@,
            )[j]).0 == perm_label(perm_n(j)) && cases_view(r@)[j].1.to_multiset() == iota(
                perm_n(j),
            ).to_multiset() by {
                if j < before.len() {
                    assert(cases_view(r@)[j] == cases_view(r@).take(before.len() as int)[j]);
                }
            }
            assert forall|j: int| 0 <= j < cases_view(r@).len() implies #[trigger] perm_n(j) < n + 1 by {
                if j < before.len() {
                    assert(perm_n(j) < n);
                }
            }
            assert forall|j1: int, j2: int|
                0 <= j1 < j2 < cases_view(r@).len() && perm_n(j1) == perm_n(j2) implies (#[trigger] cases_view(r@)[j1]).1
                    != (#[trigger] cases_view(r@)[j2]).1 by {
                if j2 < before.len() {
                    assert(cases_view(r@)[j1] == cases_view(r@).take(before.len() as int)[j1]);
                    assert(cases_view(r@)[j2] == cases_view(r@).take(before.len() as int)[j2]);
                } else if j1 < before.len() {
                    assert(perm_n(j1) < n);
                    assert(perm_n(j2) == n);
                }
            }
        }
        n = n + 1;
    }
    proof {
        lemma_perm_prefix(5);
    }
    r
}

/// How many permutation cases the sizes below `n` contribute.
pub open spec fn perm_prefix(n: nat) -> nat
    decreases n,
{
    if n == 0 {
        0
    } else {
        perm_prefix((n - 1) as nat) + factorial((n - 1) as nat)
    }
}

proof fn lemma_perm_prefix(n: nat)
    requires
        n <= 5,
    ensures
        perm_prefix(n + 1) == perm_prefix(n) + factorial(n),
        forall|j: int| perm_prefix(n) <= j < perm_prefix(n + 1) ==> perm_n(j) == n,
        perm_prefix(6) == 154,
{
    reveal_with_fuel(perm_prefix, 7);
    reveal_with_fuel(factorial, 6);
    assert(factorial(0) == 1);
    assert(factorial(1) == 1);
    assert(factorial(2) == 2);
    assert(factorial(3) == 6);
    assert(factorial(4) == 24);
    assert(factorial(5) == 120);
    assert(perm_prefix(1) == 1);
    assert(perm_prefix(2) == 2);
    assert(perm_prefix(3) == 4);
    assert(perm_prefix(4) == 10);
    assert(perm_prefix(5) == 34);
    assert(perm_prefix(6) == 154);
}


pub open spec fn structured_sizes() -> Seq<usize> {
    seq![16usize, 32, 33, 64, 128]
}

/// Sorted, reversed and all-same inputs at each of the structured sizes.
pub open spec fn structured_s() -> Seq<(Seq<char>, Seq<usize>)> {
    Seq::new(
        15,
        |j: int|
            {
                let n = structured_sizes()[j / 3] as nat;
                if j % 3 == 0 {
                    ("sorted "@ + decimal(n), iota(n))
                } else if j % 3 == 1 {
                    ("reversed "@ + decimal(n), iota_rev(n))
                } else {
                    ("all-same "@ + decimal(n), same(n, 42))
                }
            },
    )
}

fn sized_label(prefix: &str, n: usize) -> (r: String)
    ensures
        r@ == prefix@ + decimal(n as nat),
{
    let mut l = owned(prefix);
    push_decimal(&mut l, n as u128);
    l
}

fn structured_cases() -> (r: Vec<CheckCase>)
    ensures
        cases_view(r@) == structured_s(),
{
    let sizes: [usize; 5] = [16, 32, 33, 64, 128];
    assert(sizes@ =~= structured_sizes());
    let mut r: Vec<CheckCase> = Vec::new();
    let mut k: usize = 0;
    while k < 5
        invariant
            k <= 5,
            sizes@ == structured_sizes(),
            cases_view(r@) == structured_s().take(3 * k as int),
        decreases 5 - k,
    {
        let n = sizes[k];
        push_case(&mut r, sized_label("sorted ", n), get_arr(n));
        push_case(&mut r, sized_label("reversed ", n), get_reversed_arr(n));
        push_case(&mut r, sized_label("all-same ", n), fill(n, 42));
        assert(cases_view(r@) =~= structured_s().take(3 * k + 3)) by {
            assert((3 * k) / 3 == k);
            assert((3 * k + 1) / 3 == k);
            assert((3 * k + 2) / 3 == k);
            assert((3 * k) % 3 == 0);
            assert((3 * k + 1) % 3 == 1);
            assert((3 * k + 2) % 3 == 2);
        }
        k = k + 1;
    }
    assert(structured_s().take(15) =~= structured_s());
    r
}

pub open spec fn alternating(n: nat) -> Seq<usize> {
    Seq::new(n, |i: int| if i % 2 == 0 { i as usize } else { (n - i) as usize })
}

pub open spec fn pipe_organ() -> Seq<usize> {
    Seq::new(199, |i: int| if i < 100 { i as usize } else { (198 - i) as usize })
}

pub open spec fn sawtooth() -> Seq<usize> {
    Seq::new(200, |i: int| (i % 20) as usize)
}

pub open spec fn reversed_tail() -> Seq<usize> {
    Seq::new(500, |i: int| if i < 400 { i as usize } else { (899 - i) as usize })
}

/// The shaped inputs: alternating, pipe organ, sawtooth, nearly sorted, a
/// reversed tail, and three duplicate-heavy random ones.
pub open spec fn pattern_cases_ok(cs: Seq<(Seq<char>, Seq<usize>)>) -> bool {
    &&& cs.len() == 8
    &&& cs[0] == ("alternating 128"@, alternating(128))
    &&& cs[1] == ("pipe organ 199"@, pipe_organ())
    &&& cs[2] == ("sawtooth 200"@, sawtooth())
    &&& cs[3].0 == "nearly sorted 500"@ && cs[3].1.to_multiset() == iota(500).to_multiset()
    &&& cs[4] == ("sorted + reversed tail 500"@, reversed_tail())
    &&& cs[5].0 == "few unique (3 vals, n=500)"@ && drawn_from(cs[5].1, 500, 0, 3)
    &&& cs[6].0 == "binary (2 vals, n=300)"@ && drawn_from(cs[6].1, 300, 0, 2)
    &&& cs[7].0 == "many dups (50 vals, n=500)"@ && drawn_from(cs[7].1, 500, 0, 50)
}

fn tabulate_alternating(n: usize) -> (r: Vec<usize>)
    ensures
        r@ == alternating(n as nat),
{
    let mut r: Vec<usize> = Vec::new();
    let mut i: usize = 0;
    while i < n
        invariant
            i <= n,
            r@ == alternating(n as nat).take(i as int),
        decreases n - i,
    {
        r.push(if i % 2 == 0 { i } else { n - i });
        i = i + 1;
        assert(r@ =~= alternating(n as nat).take(i as int));
    }
    assert(alternating(n as nat).take(n as int) =~= alternating(n as nat));
    r
}

fn tabulate_pipe_organ() -> (r: Vec<usize>)
    ensures
        r@ == pipe_organ(),
{
    let mut r: Vec<usize> = Vec::new();
    let mut i: usize = 0;
    while i < 199
        invariant
            i <= 199,
            r@ == pipe_organ().take(i as int),
        decreases 199 - i,
    {
        r.push(if i < 100 { i } else { 198 - i });
        i = i + 1;
        assert(r@ =~= pipe_organ().take(i as int));
    }
    assert(pipe_organ().take(199) =~= pipe_organ());
    r
}

fn tabulate_sawtooth() -> (r: Vec<usize>)
    ensures
        r@ == sawtooth(),
{
    let mut r: Vec<usize> = Vec::new();
    let mut i: usize = 0;
    while i < 200
        invariant
            i <= 200,
            r@ == sawtooth().take(i as int),
        decreases 200 - i,
    {
        r.push(i % 20);
        i = i + 1;
        assert(r@ =~= sawtooth().take(i as int));
    }
    assert(sawtooth().take(200) =~= sawtooth());
    r
}

fn tabulate_reversed_tail() -> (r: Vec<usize>)
    ensures
        r@ == reversed_tail(),
{
    let mut r: Vec<usize> = Vec::new();
    let mut i: usize = 0;
    while i < 500
        invariant
            i <= 500,
            r@ == reversed_tail().take(i as int),
        decreases 500 - i,
    {
        r.push(if i < 400 { i } else { 899 - i });
        i = i + 1;
        assert(r@ =~= reversed_tail().take(i as int));
    }
    assert(reversed_tail().take(500) =~= reversed_tail());
    r
}

/// `0..500` with ten random transpositions.
fn nearly_sorted() -> (r: Vec<usize>)
    ensures
        r@.to_multiset() == iota(500).to_multiset(),
{
    let mut r = get_arr(500);
    let mut t: usize = 0;
    while t < 10
        invariant
            t <= 10,
            r@.len() == 500,
            r@.to_multiset() == iota(500).to_multiset(),
        decreases 10 - t,
    {
        let a = random_in(0, 500);
        let b = random_in(0, 500);
        swap(&mut r, a, b);
        t = t + 1;
    }
    r
}

fn pattern_cases() -> (r: Vec<CheckCase>)
    ensures
        pattern_cases_ok(cases_view(r@)),
{
    let mut r: Vec<CheckCase> = Vec::new();
    push_case(&mut r, owned("alternating 128"), tabulate_alternating(128));
    push_case(&mut r, owned("pipe organ 199"), tabulate_pipe_organ());
    push_case(&mut r, owned("sawtooth 200"), tabulate_sawtooth());
    push_case(&mut r, owned("nearly sorted 500"), nearly_sorted());
    push_case(&mut r, owned("sorted + reversed tail 500"), tabulate_reversed_tail());
    push_case(&mut r, owned("few unique (3 vals, n=500)"), get_rand_arr_in_range(500, 0, 3));
    push_case(&mut r, owned("binary (2 vals, n=300)"), get_rand_arr_in_range(300, 0, 2));
    push_case(&mut r, owned("many dups (50 vals, n=500)"), get_rand_arr_in_range(500, 0, 50));
    r
}

/// The random inputs: a shuffled permutation and random values at each of
/// 100, 500 and 1000, then 5000 random values.
pub open spec fn random_cases_ok(cs: Seq<(Seq<char>, Seq<usize>)>) -> bool {
    &&& cs.len() == 7
    &&& forall|k: int|
        0 <= k < 3 ==> {
            let n = (seq![100nat, 500, 1000])[k];
            &&& (#[trigger] cs[2 * k]).0 == "random permutation "@ + decimal(n)
            &&& cs[2 * k].1.to_multiset() == iota(n).to_multiset()
            &&& cs[2 * k + 1].0 == "random values "@ + decimal(n)
            &&& drawn_from(cs[2 * k + 1].1, n, 0, n)
        }
    &&& cs[6].0 == "random 5000"@ && drawn_from(cs[6].1, 5000, 0, 5000)
}

fn random_cases() -> (r: Vec<CheckCase>)
    ensures
        random_cases_ok(cases_view(r@)),
{
    let sizes: [usize; 3] = [100, 500, 1000];
    let mut r: Vec<CheckCase> = Vec::new();
    let mut k: usize = 0;
    while k < 3
        invariant
            k <= 3,
            sizes@ == seq![100usize, 500, 1000],
            cases_view(r@).len() == 2 * k,
            forall|q: int|
                0 <= q < k ==> {
                    let n = (seq![100nat, 500, 1000])[q];
                    &&& (#[trigger] cases_view(r@)[2 * q]).0 == "random permutation "@ + decimal(n)
                    &&& cases_view(r@)[2 * q].1.to_multiset() == iota(n).to_multiset()
                    &&& cases_view(r@)[2 * q + 1].0 == "random values "@ + decimal(n)
                    &&& drawn_from(cases_view(r@)[2 * q + 1].1, n, 0, n)
                },
        decreases 3 - k,
    {
        let n = sizes[k];
        let mut p = get_arr(n);
        shuffle(&mut p);
        let ghost before = cases_view(r@);
        push_case(&mut r, sized_label("random permutation ", n), p);
        push_case(&mut r, sized_label("random values ", n), get_rand_arr_in_range(n, 0, n));
        proof {
            assert forall|q: int| 0 <= q < k + 1 implies {
                let n = (seq![100nat, 500, 1000])[q];
                &&& (#[trigger] cases_view(r@)[2 * q]).0 == "random permutation "@ + decimal(n)
                &&& cases_view(r@)[2 * q].1.to_multiset() == iota(n).to_multiset()
                &&& cases_view(r@)[2 * q + 1].0 == "random values "@ + decimal(n)
                &&& drawn_from(cases_view(r@)[2 * q + 1].1, n, 0, n)
            } by {
                if q < k {
                    assert(cases_view(r@)[2 * q] == before[2 * q]);
                    assert(cases_view(r@)[2 * q + 1] == before[2 * q + 1]);
                }
            }
        }
        k = k + 1;
    }
    let ghost before = cases_view(r@);
    push_case(&mut r, owned("random 5000"), get_rand_arr(5000));
    proof {
        assert forall|q: int| 0 <= q < 3 implies {
            let n = (seq![100nat, 500, 1000])[q];
            &&& (#[trigger] cases_view(r@)[2 * q]).0 == "random permutation "@ + decimal(n)
            &&& cases_view(r@)[2 * q].1.to_multiset() == iota(n).to_multiset()
            &&& cases_view(r@)[2 * q + 1].0 == "random values "@ + decimal(n)
            &&& drawn_from(cases_view(r@)[2 * q + 1].1, n, 0, n)
        } by {
            assert(cases_view(r@)[2 * q] == before[2 * q]);
            assert(cases_view(r@)[2 * q + 1] == before[2 * q + 1]);
        }
    }
    r
}

/// The whole battery, in the order it runs.
pub open spec fn battery_ok(cs: Seq<(Seq<char>, Seq<usize>)>) -> bool {
    &&& cs.len() == 189
    &&& cs.take(5) == trivial_cases_s()
    &&& perm_cases_ok(cs.subrange(5, 159))
    &&& cs.subrange(159, 174) == structured_s()
    &&& pattern_cases_ok(cs.subrange(174, 182))
    &&& random_cases_ok(cs.subrange(182, 189))
}

/// The correctness battery every sort is run against: the trivial inputs,
/// every arrangement of up to five elements, sorted / reversed / all-same
/// inputs at several sizes, shaped inputs and random ones.
pub fn correctness_battery() -> (r: Vec<CheckCase>)
    ensures
        battery_ok(cases_view(r@)),
{
    let mut r = trivial_cases();
    let ghost t = cases_view(r@);
    let mut p = perm_cases();
    let ghost pv = cases_view(p@);
    r.append(&mut p);
    assert(cases_view(r@) =~= t + pv);
    let mut s = structured_cases();
    let ghost sv = cases_view(s@);
    r.append(&mut s);
    let mut q = pattern_cases();
    let ghost qv = cases_view(q@);
    r.append(&mut q);
    let mut x = random_cases();
    let ghost xv = cases_view(x@);
    r.append(&mut x);
    assert(cases_view(r@) =~= t + pv + sv + qv + xv);
    assert(cases_view(r@).take(5) =~= t);
    assert(cases_view(r@).subrange(5, 159) =~= pv);
    assert(cases_view(r@).subrange(159, 174) =~= sv);
    assert(cases_view(r@).subrange(174, 182) =~= qv);
    assert(cases_view(r@).subrange(182, 189) =~= xv);
    r
}


// ───────────────────────────── the checks ─────────────────────────────

/// `out` is `input` in ascending order.
pub open spec fn sorted_perm(out: Seq<usize>, input: Seq<usize>) -> bool {
    sorted_usize(out) && out.to_multiset() == input.to_multiset()
}

/// A run of `run` on `input` handed back `input` sorted.
pub open spec fn run_sorts<F: Fn(Vec<usize>) -> Vec<usize>>(run: F, input: Seq<usize>) -> bool {
    exists|v: Vec<usize>, o: Vec<usize>| v@ == input && #[trigger] run.ensures((v,), o) && sorted_perm(o@, input)
}

/// A run of `run` on `input` handed back something other than `input` sorted.
pub open spec fn run_missorts<F: Fn(Vec<usize>) -> Vec<usize>>(run: F, input: Seq<usize>) -> bool {
    exists|v: Vec<usize>, o: Vec<usize>| v@ == input && #[trigger] run.ensures((v,), o) && !sorted_perm(o@, input)
}

/// The message of a sort that failed on the input labelled `label`.
pub open spec fn failure_message(name: Seq<char>, label: Seq<char>, n: nat) -> Seq<char> {
    name + ": failed on '"@ + label + "' (n="@ + decimal(n) + ")"@
}

pub proof fn lemma_sorted_unique(x: Seq<usize>, y: Seq<usize>)
    requires
        sorted_usize(x),
        sorted_usize(y),
        x.to_multiset() == y.to_multiset(),
    ensures
        x == y,
{
    let leq = |a: usize, b: usize| a <= b;
    assert(vstd::relations::total_ordering(leq));
    assert(vstd::relations::sorted_by(x, leq));
    assert(vstd::relations::sorted_by(y, leq));
    vstd::seq_lib::lemma_sorted_unique(x, y, leq);
}

/// Runs `run` on a copy of `input` and checks the result against `input`
/// sorted by std.
fn sorts_correctly<F: Fn(Vec<usize>) -> Vec<usize>>(run: &F, input: &Vec<usize>) -> (r: bool)
    requires
        forall|v: Vec<usize>| #[trigger] run.requires((v,)),
    ensures
        r ==> run_sorts(*run, input@),
        !r ==> run_missorts(*run, input@),
{
    let copy = snapshot(input);
    let mut expected = snapshot(input);
    sort_unstable(expected.as_mut_slice());
    let out = run(copy);
    let mut same = out.len() == expected.len();
    let mut i: usize = 0;
    while same && i < out.len()
        invariant
            same ==> out@.len() == expected@.len(),
            i <= out@.len(),
            same ==> forall|t: int| 0 <= t < i ==> out@[t] == expected@[t],
            !same ==> out@.len() != expected@.len() || (i < out@.len() && i < expected@.len()
                && out@[i as int] != expected@[i as int]),
        decreases out@.len() - i + (if same { 1int } else { 0int }),
    {
        if out[i] != expected[i] {
            same = false;
        } else {
            i = i + 1;
        }
    }
    if same {
        assert(out@ =~= expected@);
        assert(run_sorts(*run, input@)) by {
            assert(run.ensures((copy,), out));
        }
    } else {
        assert(run_missorts(*run, input@)) by {
            assert(run.ensures((copy,), out));
            if sorted_perm(out@, input@) {
                lemma_sorted_unique(out@, expected@);
                assert(out@.len() == expected@.len());
            }
        }
    }
    same
}

fn failure(name: &str, label: &String, n: usize) -> (r: String)
    ensures
        r@ == failure_message(name@, label@, n as nat),
{
    let mut m = owned(name);
    push_str(&mut m, ": failed on '");
    push_str(&mut m, label.as_str());
    push_str(&mut m, "' (n=");
    push_decimal(&mut m, n as u128);
    push_str(&mut m, ")");
    m
}

/// Runs `run` on each case of at most `cap` elements, in order; the first
/// case whose result is not its input sorted ends the run with that case's
/// failure message.
pub fn check_cases<F: Fn(Vec<usize>) -> Vec<usize>>(
    name: &str,
    cases: &Vec<CheckCase>,
    cap: usize,
    run: &F,
) -> (r: Result<(), String>)
    requires
        forall|v: Vec<usize>| #[trigger] run.requires((v,)),
    ensures
        r is Ok ==> forall|j: int|
            0 <= j < cases@.len() && (#[trigger] cases@[j]).input@.len() <= cap ==> run_sorts(
                *run,
                cases@[j].input@,
            ),
        r is Err ==> exists|j: int|
            0 <= j < cases@.len() && (#[trigger] cases@[j]).input@.len() <= cap && run_missorts(
                *run,
                cases@[j].input@,
            ) && r->Err_0@ == failure_message(name@, cases@[j].label@, cases@[j].input@.len()),
{
    let mut i: usize = 0;
    while i < cases.len()
        invariant
            i <= cases@.len(),
            forall|v: Vec<usize>| #[trigger] run.requires((v,)),
            forall|j: int|
                0 <= j < i && (#[trigger] cases@[j]).input@.len() <= cap ==> run_sorts(
                    *run,
                    cases@[j].input@,
                ),
        decreases cases@.len() - i,
    {
        if cases[i].input.len() <= cap {
            if !sorts_correctly(run, &cases[i].input) {
                let m = failure(name, &cases[i].label, cases[i].input.len());
                assert(cases@[i as int].input@.len() <= cap);
                return Err(m);
            }
        }
        i = i + 1;
    }
    Ok(())
}

/// `n` copies of `v`.
pub open spec fn repeated(n: nat, v: usize) -> Seq<usize> {
    Seq::new(n, |i: int| v)
}

/// The quick pass over a registered sort: a few small labelled inputs.
pub open spec fn quick_cases_s() -> Seq<(Seq<char>, Seq<usize>)> {
    seq![
        ("empty"@, seq![]),
        ("single"@, seq![1usize]),
        ("reversed pair"@, seq![2usize, 1]),
        ("sorted pair"@, seq![1usize, 2]),
        ("reversed 32"@, iota_rev(32)),
        ("sorted 32"@, iota(32)),
        ("all-same 32"@, repeated(32, 5)),
        ("alternating 33"@, alternating(33)),
        ("reversed 100"@, iota_rev(100)),
    ]
}

/// The inputs of the quick pass, in order.
pub fn quick_cases() -> (r: Vec<CheckCase>)
    ensures
        cases_view(r@) == quick_cases_s(),
{
    let mut r: Vec<CheckCase> = Vec::new();
    push_case(&mut r, owned("empty"), Vec::new());
    let mut v = Vec::new();
    v.push(1);
    assert(v@ =~= seq![1usize]);
    push_case(&mut r, owned("single"), v);
    let mut v = Vec::new();
    v.push(2);
    v.push(1);
    assert(v@ =~= seq![2usize, 1]);
    push_case(&mut r, owned("reversed pair"), v);
    let mut v = Vec::new();
    v.push(1);
    v.push(2);
    assert(v@ =~= seq![1usize, 2]);
    push_case(&mut r, owned("sorted pair"), v);
    push_case(&mut r, owned("reversed 32"), get_reversed_arr(32));
    push_case(&mut r, owned("sorted 32"), get_arr(32));
    let mut same: Vec<usize> = Vec::new();
    let mut k: usize = 0;
    while k < 32
        invariant
            k <= 32,
            same@ == repeated(k as nat, 5),
        decreases 32 - k,
    {
        same.push(5);
        k = k + 1;
        assert(same@ =~= repeated(k as nat, 5));
    }
    push_case(&mut r, owned("all-same 32"), same);
    let mut alt: Vec<usize> = Vec::new();
    let mut k: usize = 0;
    while k < 33
        invariant
            k <= 33,
            alt@.len() == k,
            forall|t: int| 0 <= t < k ==> #[trigger] alt@[t] == alternating(33)[t],
        decreases 33 - k,
    {
        if k % 2 == 0 {
            alt.push(k);
        } else {
            alt.push(33 - k);
        }
        k = k + 1;
    }
    assert(alt@ =~= alternating(33));
    push_case(&mut r, owned("alternating 33"), alt);
    push_case(&mut r, owned("reversed 100"), get_reversed_arr(100));
    assert(cases_view(r@) =~= quick_cases_s());
    r
}

/// For each case, whether `run` handed back its input sorted.
pub fn sorts_each<F: Fn(Vec<usize>) -> Vec<usize>>(cases: &Vec<CheckCase>, run: &F) -> (r: Vec<bool>)
    requires
        forall|v: Vec<usize>| #[trigger] run.requires((v,)),
    ensures
        r@.len() == cases@.len(),
        forall|j: int| 0 <= j < cases@.len() ==> (#[trigger] r@[j] ==> run_sorts(*run, cases@[j].input@)),
        forall|j: int| 0 <= j < cases@.len() ==> (!#[trigger] r@[j] ==> run_missorts(*run, cases@[j].input@)),
{
    let mut out: Vec<bool> = Vec::new();
    let mut i: usize = 0;
    while i < cases.len()
        invariant
            i <= cases@.len(),
            out@.len() == i,
            forall|v: Vec<usize>| #[trigger] run.requires((v,)),
            forall|j: int| 0 <= j < i ==> (#[trigger] out@[j] ==> run_sorts(*run, cases@[j].input@)),
            forall|j: int| 0 <= j < i ==> (!#[trigger] out@[j] ==> run_missorts(*run, cases@[j].input@)),
        decreases cases@.len() - i,
    {
        let ok = sorts_correctly(run, &cases[i].input);
        out.push(ok);
        i = i + 1;
    }
    out
}

/// The battery positions of the inputs drawn at random: the nearly sorted
/// one, the few-value ones and the random ones. Only these are capped.
pub open spec fn random_index(j: int) -> bool {
    j == 177 || 179 <= j < 189
}

/// The battery case at `j`, of length `n`, runs under `cap`: structured
/// inputs always do, random ones only up to the cap.
pub open spec fn runs_under(cap: Option<usize>, j: int, n: nat) -> bool {
    !random_index(j) || n <= limit(cap)
}

/// The comprehensive correctness check of one sort: the whole battery, in
/// order; the inputs drawn at random are skipped when longer than the sort's
/// declared cap (if any), the structured ones always run.
pub fn check_sort<F: Fn(Vec<usize>) -> Vec<usize>>(name: &str, cap: Option<usize>, run: &F) -> (r: Result<
    (),
    String,
>)
    requires
        forall|v: Vec<usize>| #[trigger] run.requires((v,)),
    ensures
        r is Ok ==> exists|b: Seq<(Seq<char>, Seq<usize>)>|
            #[trigger] battery_ok(b) && forall|j: int|
                0 <= j < b.len() && runs_under(cap, j, (#[trigger] b[j]).1.len()) ==> run_sorts(*run, b[j].1),
        r is Err ==> exists|b: Seq<(Seq<char>, Seq<usize>)>, j: int|
            #[trigger] battery_ok(b) && 0 <= j < b.len() && runs_under(cap, j, (#[trigger] b[j]).1.len())
                && run_missorts(*run, b[j].1) && r->Err_0@ == failure_message(name@, b[j].0, b[j].1.len()),
{
    let battery = correctness_battery();
    let ghost b = cases_view(battery@);
    let c = match cap {
        Some(c) => c,
        None => usize::MAX,
    };
    let mut i: usize = 0;
    while i < battery.len()
        invariant
            i <= battery@.len(),
            b == cases_view(battery@),
            battery_ok(b),
            c == limit(cap),
            forall|v: Vec<usize>| #[trigger] run.requires((v,)),
            forall|j: int|
                0 <= j < i && runs_under(cap, j, (#[trigger] b[j]).1.len()) ==> run_sorts(*run, b[j].1),
        decreases battery@.len() - i,
    {
        let random = i == 177 || (179 <= i && i < 189);
        assert(b[i as int] == case_view(battery@[i as int]));
        if !random || battery[i].input.len() <= c {
            if !sorts_correctly(run, &battery[i].input) {
                let m = failure(name, &battery[i].label, battery[i].input.len());
                assert(runs_under(cap, i as int, b[i as int].1.len()));
                return Err(m);
            }
        }
        i = i + 1;
    }
    Ok(())
}

/// The largest input a cap lets through.
pub open spec fn limit(cap: Option<usize>) -> nat {
    match cap {
        Some(c) => c as nat,
        None => usize::MAX as nat,
    }
}


// ───────────────────────────── stability ─────────────────────────────

/// Keys and original positions travel together in one `usize`: the key in
/// the high 32 bits, the position in the low 32.
pub open spec fn encode(key: usize, index: usize) -> usize {
    (((key as u64) << 32u64) | (index as u64)) as usize
}

pub open spec fn key_of(x: usize) -> u64 {
    (x as u64) >> 32u64
}

pub open spec fn index_of(x: usize) -> u64 {
    (x as u64) & 0xffff_ffffu64
}

/// `values` tagged with their positions.
pub open spec fn encoded(values: Seq<usize>) -> Seq<usize> {
    Seq::new(values.len(), |i: int| encode(values[i], i as usize))
}

/// Positions `i-1` and `i` are in key order, and equal keys keep their
/// original order.
pub open spec fn stable_at(a: Seq<usize>, i: int) -> bool {
    &&& key_of(a[i - 1]) <= key_of(a[i])
    &&& key_of(a[i - 1]) == key_of(a[i]) ==> index_of(a[i - 1]) < index_of(a[i])
}

pub open spec fn stable_upto(a: Seq<usize>, n: int) -> bool {
    forall|i: int| 1 <= i < n ==> #[trigger] stable_at(a, i)
}

/// The message for the violation at position `i`.
pub open spec fn stability_message(name: Seq<char>, label: Seq<char>, a: Seq<usize>, i: int) -> Seq<char> {
    if key_of(a[i - 1]) > key_of(a[i]) {
        name + ": stability '"@ + label + "' — not sorted at position "@ + decimal(i as nat)
    } else {
        name + ": stability '"@ + label + "' — order violated at position "@ + decimal(i as nat)
            + " (value="@ + decimal(key_of(a[i]) as nat) + ", indices "@ + decimal(
            index_of(a[i - 1]) as nat,
        ) + " then "@ + decimal(index_of(a[i]) as nat) + ")"@
    }
}

/// Checks that `arr` is in key order with equal keys in their original order;
/// the first position where it is not gives the error.
pub fn check_stable_output(name: &str, label: &str, arr: &Vec<usize>) -> (r: Result<(), String>)
    ensures
        r is Ok <==> stable_upto(arr@, arr@.len() as int),
        r is Err ==> exists|i: int|
            1 <= i < arr@.len() && stable_upto(arr@, i) && !stable_at(arr@, i) && r->Err_0@
                == stability_message(name@, label@, arr@, i),
{
    let mut i: usize = 1;
    while i < arr.len()
        invariant
            1 <= i,
            stable_upto(arr@, i as int),
        decreases arr@.len() - i,
    {
        let kp = (arr[i - 1] as u64) >> 32u64;
        let kc = (arr[i] as u64) >> 32u64;
        let ip = (arr[i - 1] as u64) & 0xffff_ffffu64;
        let ic = (arr[i] as u64) & 0xffff_ffffu64;
        assert(kp == key_of(arr@[i - 1]) && kc == key_of(arr@[i as int]));
        assert(ip == index_of(arr@[i - 1]) && ic == index_of(arr@[i as int]));
        if kp > kc {
            assert(!stable_at(arr@, i as int));
            let mut m = owned(name);
            push_str(&mut m, ": stability '");
            push_str(&mut m, label);
            push_str(&mut m, "' — not sorted at position ");
            push_decimal(&mut m, i as u128);
            return Err(m);
        }
        if kp == kc && !(ip < ic) {
            assert(!stable_at(arr@, i as int));
            let mut m = owned(name);
            push_str(&mut m, ": stability '");
            push_str(&mut m, label);
            push_str(&mut m, "' — order violated at position ");
            push_decimal(&mut m, i as u128);
            push_str(&mut m, " (value=");
            push_decimal(&mut m, kc as u128);
            push_str(&mut m, ", indices ");
            push_decimal(&mut m, ip as u128);
            push_str(&mut m, " then ");
            push_decimal(&mut m, ic as u128);
            push_str(&mut m, ")");
            return Err(m);
        }
        assert(stable_at(arr@, i as int));
        i = i + 1;
    }
    Ok(())
}

/// `values` tagged with their positions, for values and positions below 2^32.
fn encode_all(values: &Vec<usize>) -> (r: Vec<usize>)
    requires
        usize::BITS == 64,
        values@.len() <= 0x1_0000_0000,
        forall|i: int| 0 <= i < values@.len() ==> values@[i] < 0x1_0000_0000,
    ensures
        r@ == encoded(values@),
{
    let mut r: Vec<usize> = Vec::new();
    let mut i: usize = 0;
    while i < values.len()
        invariant
            usize::BITS == 64,
            i <= values@.len() <= 0x1_0000_0000,
            forall|k: int| 0 <= k < values@.len() ==> values@[k] < 0x1_0000_0000,
            r@ == encoded(values@).take(i as int),
        decreases values@.len() - i,
    {
        let v = values[i];
        r.push((((v as u64) << 32u64) | (i as u64)) as usize);
        i = i + 1;
        assert(r@ =~= encoded(values@).take(i as int));
    }
    assert(encoded(values@).take(i as int) =~= encoded(values@));
    r
}

fn modulo_series(n: usize, m: usize) -> (r: Vec<usize>)
    requires
        m > 0,
    ensures
        r@ == Seq::new(n as nat, |i: int| (i % m as int) as usize),
{
    let mut r: Vec<usize> = Vec::new();
    let mut i: usize = 0;
    while i < n
        invariant
            i <= n,
            m > 0,
            r@ == Seq::new(n as nat, |k: int| (k % m as int) as usize).take(i as int),
        decreases n - i,
    {
        r.push(i % m);
        i = i + 1;
        assert(r@ =~= Seq::new(n as nat, |k: int| (k % m as int) as usize).take(i as int));
    }
    assert(Seq::new(n as nat, |k: int| (k % m as int) as usize).take(n as int) =~= Seq::new(
        n as nat,
        |k: int| (k % m as int) as usize,
    ));
    r
}

/// The key lists the stability check sorts: cycling through 3 and 2 values,
/// and all equal.
pub open spec fn stability_values() -> Seq<(Seq<char>, Seq<usize>)> {
    seq![
        ("3 values, n=200"@, Seq::new(200, |i: int| (i % 3) as usize)),
        ("2 values, n=100"@, Seq::new(100, |i: int| (i % 2) as usize)),
        ("all equal, n=50"@, same(50, 7)),
    ]
}

/// A run of `run` on `values` tagged with their positions handed back a
/// stable ordering.
pub open spec fn run_stable<F: Fn(Vec<usize>) -> Vec<usize>>(run: F, values: Seq<usize>) -> bool {
    exists|v: Vec<usize>, o: Vec<usize>|
        v@ == encoded(values) && #[trigger] run.ensures((v,), o) && stable_upto(o@, o@.len() as int)
}

/// A run of `run` on tagged `values` went wrong at some position, and `m` is
/// its message.
pub open spec fn run_unstable<F: Fn(Vec<usize>) -> Vec<usize>>(
    run: F,
    name: Seq<char>,
    label: Seq<char>,
    values: Seq<usize>,
    m: Seq<char>,
) -> bool {
    exists|v: Vec<usize>, o: Vec<usize>, i: int|
        #![trigger run.ensures((v,), o), stable_at(o@, i)]
        v@ == encoded(values) && run.ensures((v,), o) && 1 <= i < o@.len() && stable_upto(o@, i)
            && !stable_at(o@, i) && m == stability_message(name, label, o@, i)
}

fn stable_case<F: Fn(Vec<usize>) -> Vec<usize>>(
    name: &str,
    label: &str,
    values: &Vec<usize>,
    run: &F,
) -> (r: Result<(), String>)
    requires
        forall|v: Vec<usize>| #[trigger] run.requires((v,)),
        usize::BITS == 64,
        values@.len() <= 0x1_0000_0000,
        forall|i: int| 0 <= i < values@.len() ==> values@[i] < 0x1_0000_0000,
    ensures
        r is Ok ==> run_stable(*run, values@),
        r is Err ==> run_unstable(*run, name@, label@, values@, r->Err_0@),
{
    let arr = encode_all(values);
    let ghost a = arr;
    let out = run(arr);
    let r = check_stable_output(name, label, &out);
    proof {
        assert(run.ensures((a,), out));
        if r is Err {
            let i = choose|i: int|
                1 <= i < out@.len() && stable_upto(out@, i) && !stable_at(out@, i) && r->Err_0@
                    == stability_message(name@, label@, out@, i);
            assert(run_unstable(*run, name@, label@, values@, r->Err_0@));
        }
    }
    r
}

/// Verifies that a sort that claims stability keeps equal keys in their
/// original order, on three fixed key lists and one of 500 random keys below
/// 10; a sort that makes no such claim passes at once.
pub fn check_sort_stable<F: Fn(Vec<usize>) -> Vec<usize>>(name: &str, stable: bool, run: &F) -> (r: Result<
    (),
    String,
>)
    requires
        forall|v: Vec<usize>| #[trigger] run.requires((v,)),
    ensures
        !stable ==> r is Ok,
        r is Ok && stable ==> forall|k: int|
            0 <= k < 3 ==> run_stable(*run, (#[trigger] stability_values()[k]).1),
        r is Ok && stable ==> exists|vs: Seq<usize>| drawn_from(vs, 500, 0, 10) && #[trigger] run_stable(*run, vs),
        r is Err ==> stable && (usize::BITS < 64 || (exists|k: int|
            0 <= k < 3 && run_unstable(
                *run,
                name@,
                (#[trigger] stability_values()[k]).0,
                stability_values()[k].1,
                r->Err_0@,
            )) || (exists|vs: Seq<usize>|
            drawn_from(vs, 500, 0, 10) && #[trigger] run_unstable(
                *run,
                name@,
                "10 values, n=500"@,
                vs,
                r->Err_0@,
            ))),
{
    if !stable {
        return Ok(());
    }
    if usize::BITS < 64 {
        let mut m = owned(name);
        push_str(&mut m, ": stability check needs 64-bit keys");
        return Err(m);
    }
    let v0 = modulo_series(200, 3);
    let v1 = modulo_series(100, 2);
    let v2 = fill(50, 7);
    let v3 = get_rand_arr_in_range(500, 0, 10);
    assert(v0@ =~= stability_values()[0].1);
    assert(v1@ =~= stability_values()[1].1);
    assert(v2@ =~= stability_values()[2].1);
    match stable_case(name, "3 values, n=200", &v0, run) {
        Ok(()) => {},
        Err(m) => {
            assert(run_unstable(*run, name@, stability_values()[0].0, stability_values()[0].1, m@));
            return Err(m);
        },
    }
    match stable_case(name, "2 values, n=100", &v1, run) {
        Ok(()) => {},
        Err(m) => {
            assert(run_unstable(*run, name@, stability_values()[1].0, stability_values()[1].1, m@));
            return Err(m);
        },
    }
    match stable_case(name, "all equal, n=50", &v2, run) {
        Ok(()) => {},
        Err(m) => {
            assert(run_unstable(*run, name@, stability_values()[2].0, stability_values()[2].1, m@));
            return Err(m);
        },
    }
    match stable_case(name, "10 values, n=500", &v3, run) {
        Ok(()) => {},
        Err(m) => {
            return Err(m);
        },
    }
    assert(run_stable(*run, stability_values()[0].1));
    assert(run_stable(*run, stability_values()[1].1));
    assert(run_stable(*run, stability_values()[2].1));
    assert(drawn_from(v3@, 500, 0, 10) && run_stable(*run, v3@));
    Ok(())
}

} // verus!
