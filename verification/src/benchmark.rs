//! Benchmark inputs and bookkeeping: the array distribution patterns and data
//! type categories a benchmark sweeps over, the seesaw generator, the element
//! types with cheap and size-dependent comparisons, the metrics read off a
//! sort's event log, and the result records a benchmark run collects.
use vstd::prelude::*;
use core::time::Duration;
use crate::text::{decimal, owned, push_char, push_decimal, push_str, chars_of, matches_at,
    starts_with_at};

verus! {

// ───────────────────────────── distribution patterns ─────────────────────────────

/// The shape of a benchmark input array.
#[derive(Debug, Clone, PartialEq, Eq, Hash, Structural)]
pub enum DistributionPattern {
    /// Completely random.
    Random,
    /// Already ascending.
    Ascending,
    /// Descending.
    Descending,
    /// `0, n-1, 1, n-2, …`.
    Seesaw,
    /// Partially sorted; the ratio sorted, in percent.
    PartiallySorted(u8),
    /// Many duplicates; the number of distinct values.
    DuplicateHeavy(usize),
    /// Nearly sorted; the ratio perturbed, in percent.
    NearlySorted(u8),
}

pub open spec fn pattern_name(p: DistributionPattern) -> Seq<char> {
    match p {
        DistributionPattern::Random => "Random"@,
        DistributionPattern::Ascending => "Ascending"@,
        DistributionPattern::Descending => "Descending"@,
        DistributionPattern::Seesaw => "Seesaw"@,
        DistributionPattern::PartiallySorted(_) => "Partially Sorted"@,
        DistributionPattern::DuplicateHeavy(_) => "Duplicate Heavy"@,
        DistributionPattern::NearlySorted(_) => "Nearly Sorted"@,
    }
}

impl DistributionPattern {
    /// The human-readable name of the pattern.
    pub fn name(&self) -> (r: &'static str)
        ensures
            r@ == pattern_name(*self),
    {
        match self {
            DistributionPattern::Random => "Random",
            DistributionPattern::Ascending => "Ascending",
            DistributionPattern::Descending => "Descending",
            DistributionPattern::Seesaw => "Seesaw",
            DistributionPattern::PartiallySorted(_) => "Partially Sorted",
            DistributionPattern::DuplicateHeavy(_) => "Duplicate Heavy",
            DistributionPattern::NearlySorted(_) => "Nearly Sorted",
        }
    }

    /// The patterns a standard benchmark sweeps over.
    pub fn standard_patterns() -> (r: Vec<DistributionPattern>)
        ensures
            r@ == seq![
                DistributionPattern::Random,
                DistributionPattern::Ascending,
                DistributionPattern::Descending,
                DistributionPattern::Seesaw,
                DistributionPattern::PartiallySorted(80),
                DistributionPattern::DuplicateHeavy(10),
                DistributionPattern::NearlySorted(10),
            ],
    {
        let mut v: Vec<DistributionPattern> = Vec::new();
        v.push(DistributionPattern::Random);
        v.push(DistributionPattern::Ascending);
        v.push(DistributionPattern::Descending);
        v.push(DistributionPattern::Seesaw);
        v.push(DistributionPattern::PartiallySorted(80));
        v.push(DistributionPattern::DuplicateHeavy(10));
        v.push(DistributionPattern::NearlySorted(10));
        assert(v@ =~= seq![
            DistributionPattern::Random,
            DistributionPattern::Ascending,
            DistributionPattern::Descending,
            DistributionPattern::Seesaw,
            DistributionPattern::PartiallySorted(80),
            DistributionPattern::DuplicateHeavy(10),
            DistributionPattern::NearlySorted(10),
        ]);
        v
    }
}

/// The seesaw arrangement of `0..n`: even positions climb from the bottom,
/// odd positions descend from the top.
pub open spec fn seesaw_at(n: nat, i: int) -> usize {
    if i % 2 == 0 {
        (i / 2) as usize
    } else {
        (n - 1 - i / 2) as usize
    }
}

/// `[0, n-1, 1, n-2, 2, n-3, …]` of length `length`, a rearrangement of
/// `0..length`.
pub fn get_seesaw_arr(length: usize) -> (r: Vec<usize>)
    requires
        length >= 1,
    ensures
        r@ == Seq::new(length as nat, |i: int| seesaw_at(length as nat, i)),
{
    let mut arr: Vec<usize> = Vec::new();
    let mut left: usize = 0;
    let mut right: usize = length - 1;
    let mut use_left = true;
    let mut k: usize = 0;
    while k < length
        invariant
            k <= length,
            use_left == (k % 2 == 0),
            left == (k + 1) / 2,
            right + k / 2 == length - 1,
            arr@ == Seq::new(length as nat, |i: int| seesaw_at(length as nat, i)).take(k as int),
        decreases length - k,
    {
        if use_left {
            arr.push(left);
            left = left + 1;
        } else {
            arr.push(right);
            right = right - 1;
        }
        use_left = !use_left;
        k = k + 1;
        assert(arr@ =~= Seq::new(length as nat, |i: int| seesaw_at(length as nat, i)).take(k as int));
    }
    assert(Seq::new(length as nat, |i: int| seesaw_at(length as nat, i)).take(length as int) =~= Seq::new(
        length as nat,
        |i: int| seesaw_at(length as nat, i),
    ));
    arr
}

// ───────────────────────────── element types ─────────────────────────────

/// An element with the cheapest comparison: a byte.
#[derive(Debug, Clone, Copy, PartialEq, Eq, PartialOrd, Ord)]
pub struct FastInt(pub u8);

/// An element whose comparison cost grows with its length: a string.
#[derive(Debug, Clone, PartialEq, Eq, PartialOrd, Ord)]
pub struct VariableCost(pub String);

/// `rand::thread_rng().gen::<u8>()`: a byte left to chance.
#[verifier::external_body]
fn random_byte() -> (r: u8) {
    rand::Rng::gen::<u8>(&mut rand::thread_rng())
}

/// `rand::thread_rng().gen_range(lo..=hi)`: a value of the closed range,
/// which one being left to the thread-local generator.
#[verifier::external_body]
fn random_in_closed(lo: usize, hi: usize) -> (r: usize)
    requires
        lo <= hi,
    ensures
        lo <= r <= hi,
{
    rand::Rng::gen_range(&mut rand::thread_rng(), lo..=hi)
}

/// Swapping two positions keeps every entry, with its multiplicity.
proof fn lemma_swap_keeps_multiset<T>(s: Seq<T>, i: int, j: int)
    requires
        0 <= i < s.len(),
        0 <= j < s.len(),
    ensures
        s.update(i, s[j]).update(j, s[i]).to_multiset() == s.to_multiset(),
{
    broadcast use vstd::seq_lib::group_to_multiset_ensures, vstd::multiset::group_multiset_axioms;
    let t = s.update(i, s[j]);
    vstd::seq_lib::to_multiset_update(s, i, s[j]);
    vstd::seq_lib::to_multiset_update(t, j, s[i]);
    assert(s.update(i, s[j]).update(j, s[i]).to_multiset() =~= s.to_multiset());
}

/// `s` with the entries at `i` and `j` exchanged.
pub open spec fn swapped_at(s: Seq<usize>, i: int, j: int) -> Seq<usize> {
    s.update(i, s[j]).update(j, s[i])
}

/// `s` after each transposition of `ps`, in order.
pub open spec fn apply_swaps(s: Seq<usize>, ps: Seq<(int, int)>) -> Seq<usize>
    decreases ps.len(),
{
    if ps.len() == 0 {
        s
    } else {
        swapped_at(apply_swaps(s, ps.drop_last()), ps.last().0, ps.last().1)
    }
}

/// Every position of `ps` lies below `n`.
pub open spec fn swaps_below(ps: Seq<(int, int)>, n: nat) -> bool {
    forall|k: int| 0 <= k < ps.len() ==> 0 <= (#[trigger] ps[k]).0 < n && 0 <= ps[k].1 < n
}

/// `count` transpositions at positions drawn at random: the entries are
/// rearranged, none added or lost. This is the perturbation step of the
/// partially-sorted and nearly-sorted patterns.
pub fn swap_random_pairs(arr: Vec<usize>, count: usize) -> (r: Vec<usize>)
    requires
        count == 0 || arr@.len() > 0,
    ensures
        r@.len() == arr@.len(),
        r@.to_multiset() == arr@.to_multiset(),
        exists|ps: Seq<(int, int)>|
            ps.len() == count && swaps_below(ps, arr@.len()) && r@ == #[trigger] apply_swaps(arr@, ps),
{
    let mut a = arr;
    let n = a.len();
    let ghost mut ps: Seq<(int, int)> = seq![];
    let mut k: usize = 0;
    while k < count
        invariant
            k <= count,
            n == arr@.len(),
            count == 0 || n > 0,
            a@.len() == n,
            a@.to_multiset() == arr@.to_multiset(),
            ps.len() == k,
            swaps_below(ps, n as nat),
            a@ == apply_swaps(arr@, ps),
        decreases count - k,
    {
        let i = crate::bench_registry::random_in(0, n);
        let j = crate::bench_registry::random_in(0, n);
        proof {
            lemma_swap_keeps_multiset(a@, i as int, j as int);
        }
        let ghost before = a@;
        let x = a[i];
        let y = a[j];
        a.set(i, y);
        a.set(j, x);
        proof {
            let ps2 = ps.push((i as int, j as int));
            assert(ps2.drop_last() =~= ps);
            assert(a@ =~= swapped_at(before, i as int, j as int));
            assert forall|t: int| 0 <= t < ps2.len() implies 0 <= (#[trigger] ps2[t]).0 < n && 0 <= ps2[t].1 < n by {
                if t < ps.len() {
                    assert(ps2[t] == ps[t]);
                }
            }
            ps = ps2;
        }
        k = k + 1;
    }
    a
}

/// `length` values drawn at random from `0..unique_values`, so that many
/// repeat.
pub fn get_duplicate_heavy_arr(length: usize, unique_values: usize) -> (r: Vec<usize>)
    requires
        length == 0 || unique_values > 0,
    ensures
        r@.len() == length,
        forall|i: int| 0 <= i < length ==> #[trigger] r@[i] < unique_values,
{
    let mut arr: Vec<usize> = Vec::new();
    let mut k: usize = 0;
    while k < length
        invariant
            k <= length,
            length == 0 || unique_values > 0,
            arr@.len() == k,
            forall|i: int| 0 <= i < k ==> #[trigger] arr@[i] < unique_values,
        decreases length - k,
    {
        arr.push(crate::bench_registry::random_in(0, unique_values));
        k = k + 1;
    }
    arr
}

/// The sum of the bytes.
pub open spec fn byte_sum(s: Seq<u8>) -> int
    decreases s.len(),
{
    if s.len() == 0 {
        0
    } else {
        byte_sum(s.drop_last()) + s.last()
    }
}

/// The byte block of the `i`-th slow-comparison element, `(i + j) % 256` at
/// position `j` of 64, and its checksum, the sum of the bytes.
pub fn slow_compare_payload(i: usize) -> (r: (Vec<u8>, u64))
    ensures
        r.0@.len() == 64,
        forall|j: int| 0 <= j < 64 ==> #[trigger] r.0@[j] == (i + j) % 256,
        r.1 == byte_sum(r.0@),
{
    let mut data: Vec<u8> = Vec::new();
    let mut sum: u64 = 0;
    let b: usize = i % 256;
    let mut j: usize = 0;
    while j < 64
        invariant
            j <= 64,
            b == i % 256,
            data@.len() == j,
            forall|k: int| 0 <= k < j ==> #[trigger] data@[k] == (i + k) % 256,
            sum == byte_sum(data@),
            sum <= 255 * j,
        decreases 64 - j,
    {
        let v: u8 = ((b + j) % 256) as u8;
        assert((b + j) % 256 == (i + j) % 256) by (nonlinear_arith)
            requires
                b == i % 256,
                0 <= j;
        let ghost before = data@;
        data.push(v);
        assert(data@.drop_last() =~= before);
        sum = sum + v as u64;
        j = j + 1;
    }
    (data, sum)
}

/// `length` random bytes.
pub fn generate_fast_int_array(length: usize) -> (r: Vec<FastInt>)
    ensures
        r@.len() == length,
{
    let mut v: Vec<FastInt> = Vec::new();
    let mut i: usize = 0;
    while i < length
        invariant
            i <= length,
            v@.len() == i,
        decreases length - i,
    {
        v.push(FastInt(random_byte()));
        i = i + 1;
    }
    v
}

/// `'0'` repeated `k` times.
pub open spec fn zeros(k: nat) -> Seq<char> {
    Seq::new(k, |i: int| '0')
}

/// The decimal digits of `n` left-padded with zeros to at least `width`
/// characters (what `{:0width$}` writes).
pub open spec fn zero_padded(n: nat, width: nat) -> Seq<char> {
    if decimal(n).len() < width {
        zeros((width - decimal(n).len()) as nat) + decimal(n)
    } else {
        decimal(n)
    }
}

/// `n` in decimal, zero-padded to `width` characters.
pub fn zero_pad(n: usize, width: usize) -> (r: String)
    ensures
        r@ == zero_padded(n as nat, width as nat),
{
    let mut digits = String::new();
    push_decimal(&mut digits, n as u128);
    let d = chars_of(digits.as_str());
    let mut out = String::new();
    if d.len() < width {
        let mut k: usize = 0;
        while k < width - d.len()
            invariant
                d@.len() < width,
                k <= width - d@.len(),
                out@ == zeros(k as nat),
            decreases width - d@.len() - k,
        {
            push_char(&mut out, '0');
            k = k + 1;
            assert(out@ =~= zeros(k as nat));
        }
    }
    push_str(&mut out, digits.as_str());
    out
}

/// `s` is `i` zero-padded to some width between 1 and 20.
pub open spec fn padded_index(s: Seq<char>, i: nat) -> bool {
    exists|w: nat| 1 <= w <= 20 && s == #[trigger] zero_padded(i, w)
}

/// `length` strings, the `i`-th being `i` zero-padded to a random width
/// between 1 and 20.
pub fn generate_variable_cost_array(length: usize) -> (r: Vec<VariableCost>)
    ensures
        r@.len() == length,
        forall|i: int| 0 <= i < length ==> padded_index((#[trigger] r@[i]).0@, i as nat),
{
    let mut v: Vec<VariableCost> = Vec::new();
    let mut i: usize = 0;
    while i < length
        invariant
            i <= length,
            v@.len() == i,
            forall|k: int| 0 <= k < i ==> padded_index((#[trigger] v@[k]).0@, k as nat),
        decreases length - i,
    {
        let w = random_in_closed(1, 20);
        let s = zero_pad(i, w);
        v.push(VariableCost(s));
        assert(v@[i as int].0@ == zero_padded(i as nat, w as nat));
        i = i + 1;
    }
    v
}

// ───────────────────────────── data type categories ─────────────────────────────

/// The element-type axis of a benchmark.
#[derive(Debug, Clone, PartialEq, Eq, Hash, Structural)]
pub enum DataTypeCategory {
    /// Fast comparison, small data.
    FastSmall,
    /// Fast comparison, large data.
    FastLarge,
    /// Slow comparison, small data.
    SlowSmall,
    /// Slow comparison, large data.
    SlowLarge,
    /// Comparison cost that varies with the value.
    VariableCost,
}

pub open spec fn category_name(c: DataTypeCategory) -> Seq<char> {
    match c {
        DataTypeCategory::FastSmall => "Fast Small (u8)"@,
        DataTypeCategory::FastLarge => "Fast Large (u64)"@,
        DataTypeCategory::SlowSmall => "Slow Small (Complex u8)"@,
        DataTypeCategory::SlowLarge => "Slow Large (Complex u64)"@,
        DataTypeCategory::VariableCost => "Variable Cost (String)"@,
    }
}

impl DataTypeCategory {
    /// The human-readable name of the category.
    pub fn name(&self) -> (r: &'static str)
        ensures
            r@ == category_name(*self),
    {
        match self {
            DataTypeCategory::FastSmall => "Fast Small (u8)",
            DataTypeCategory::FastLarge => "Fast Large (u64)",
            DataTypeCategory::SlowSmall => "Slow Small (Complex u8)",
            DataTypeCategory::SlowLarge => "Slow Large (Complex u64)",
            DataTypeCategory::VariableCost => "Variable Cost (String)",
        }
    }

    /// Every category, in sweep order.
    pub fn standard_categories() -> (r: Vec<DataTypeCategory>)
        ensures
            r@ == seq![
                DataTypeCategory::FastSmall,
                DataTypeCategory::FastLarge,
                DataTypeCategory::SlowSmall,
                DataTypeCategory::SlowLarge,
                DataTypeCategory::VariableCost,
            ],
    {
        let mut v: Vec<DataTypeCategory> = Vec::new();
        v.push(DataTypeCategory::FastSmall);
        v.push(DataTypeCategory::FastLarge);
        v.push(DataTypeCategory::SlowSmall);
        v.push(DataTypeCategory::SlowLarge);
        v.push(DataTypeCategory::VariableCost);
        assert(v@ =~= seq![
            DataTypeCategory::FastSmall,
            DataTypeCategory::FastLarge,
            DataTypeCategory::SlowSmall,
            DataTypeCategory::SlowLarge,
            DataTypeCategory::VariableCost,
        ]);
        v
    }
}


// ───────────────────────────── metrics ─────────────────────────────

/// One logged sort event, as far as the metrics read it: its kind, and for
/// an auxiliary-array allocation the array's length.
#[derive(Debug, Clone, Copy, PartialEq, Eq, Structural)]
pub enum SortLog {
    Mark,
    CmpInArr,
    CmpData,
    CmpDataU,
    CmpAcrossArrs,
    Swap,
    WriteInArr,
    WriteData,
    WriteDataU,
    CreateAuxArr { length: usize },
    CreateAuxArrT { length: usize },
    FreeAuxArr,
}

pub open spec fn is_comparison(l: SortLog) -> bool {
    l is CmpInArr || l is CmpData || l is CmpDataU || l is CmpAcrossArrs
}

/// The length of the auxiliary array an event allocates (zero for others).
pub open spec fn aux_len(l: SortLog) -> nat {
    match l {
        SortLog::CreateAuxArr { length } => length as nat,
        SortLog::CreateAuxArrT { length } => length as nat,
        _ => 0,
    }
}

pub open spec fn is_alloc(l: SortLog) -> bool {
    l is CreateAuxArr || l is CreateAuxArrT
}

pub open spec fn count_comparisons(s: Seq<SortLog>) -> nat
    decreases s.len(),
{
    if s.len() == 0 { 0 } else { count_comparisons(s.drop_last()) + if is_comparison(s.last()) { 1nat } else { 0nat } }
}

pub open spec fn count_swaps(s: Seq<SortLog>) -> nat
    decreases s.len(),
{
    if s.len() == 0 { 0 } else { count_swaps(s.drop_last()) + if s.last() is Swap { 1nat } else { 0nat } }
}

pub open spec fn count_allocs(s: Seq<SortLog>) -> nat
    decreases s.len(),
{
    if s.len() == 0 { 0 } else { count_allocs(s.drop_last()) + if is_alloc(s.last()) { 1nat } else { 0nat } }
}

pub open spec fn count_frees(s: Seq<SortLog>) -> nat
    decreases s.len(),
{
    if s.len() == 0 { 0 } else { count_frees(s.drop_last()) + if s.last() is FreeAuxArr { 1nat } else { 0nat } }
}

/// The total length of the auxiliary arrays the events allocate.
pub open spec fn aux_units(s: Seq<SortLog>) -> nat
    decreases s.len(),
{
    if s.len() == 0 { 0 } else { aux_units(s.drop_last()) + aux_len(s.last()) }
}

/// The bytes the events allocate, each element counted as one `usize`.
pub open spec fn aux_bytes(s: Seq<SortLog>) -> nat {
    aux_units(s) * (size_of::<usize>() as nat)
}

proof fn lemma_aux_units_prefix(s: Seq<SortLog>, i: int)
    requires
        0 <= i <= s.len(),
    ensures
        aux_units(s.take(i)) <= aux_units(s),
    decreases s.len() - i,
{
    if i < s.len() {
        lemma_aux_units_prefix(s, i + 1);
        assert(s.take(i + 1).drop_last() =~= s.take(i));
    } else {
        assert(s.take(i) =~= s);
    }
}

/// What a sorting run cost.
#[derive(Debug, Clone)]
pub struct BenchmarkMetrics {
    /// Total execution time.
    pub duration: Duration,
    /// Comparisons.
    pub comparisons: usize,
    /// Swaps.
    pub swaps: usize,
    /// Total auxiliary memory allocated, in bytes.
    pub auxiliary_memory_bytes: usize,
    /// Auxiliary array allocations.
    pub auxiliary_allocations: usize,
    /// Auxiliary array deallocations.
    pub auxiliary_deallocations: usize,
    /// Peak auxiliary memory, in bytes.
    pub peak_memory_bytes: usize,
}

/// `Duration`'s `Clone`: `Duration` is `Copy`, and its clone is the value
/// itself.
pub assume_specification[ <core::time::Duration as core::clone::Clone>::clone ](d: &Duration) -> (r: Duration)
    ensures
        r == *d,
;

/// `Duration::ZERO`.
#[verifier::external_body]
fn zero_duration() -> (r: Duration) {
    Duration::ZERO
}

impl Default for BenchmarkMetrics {
    fn default() -> (r: Self)
        ensures
            r.comparisons == 0 && r.swaps == 0 && r.auxiliary_memory_bytes == 0,
            r.auxiliary_allocations == 0 && r.auxiliary_deallocations == 0 && r.peak_memory_bytes == 0,
    {
        BenchmarkMetrics {
            duration: zero_duration(),
            comparisons: 0,
            swaps: 0,
            auxiliary_memory_bytes: 0,
            auxiliary_allocations: 0,
            auxiliary_deallocations: 0,
            peak_memory_bytes: 0,
        }
    }
}

impl BenchmarkMetrics {
    /// The metrics of a run that took `duration` and logged `logs`: the
    /// comparisons, swaps, allocations and frees counted, the auxiliary bytes
    /// summed (one `usize` per element). Frees are not sized in the log, so
    /// the peak is the running total of what was allocated.
    pub fn from_logs(logs: &[SortLog], duration: Duration) -> (r: Self)
        requires
            aux_bytes(logs@) <= usize::MAX,
        ensures
            r.duration == duration,
            r.comparisons == count_comparisons(logs@),
            r.swaps == count_swaps(logs@),
            r.auxiliary_memory_bytes == aux_bytes(logs@),
            r.auxiliary_allocations == count_allocs(logs@),
            r.auxiliary_deallocations == count_frees(logs@),
            r.peak_memory_bytes == aux_bytes(logs@),
    {
        let sz = core::mem::size_of::<usize>();
        let mut metrics = BenchmarkMetrics {
            duration,
            comparisons: 0,
            swaps: 0,
            auxiliary_memory_bytes: 0,
            auxiliary_allocations: 0,
            auxiliary_deallocations: 0,
            peak_memory_bytes: 0,
        };
        let mut current_memory: usize = 0;
        let mut peak_memory: usize = 0;
        let mut i: usize = 0;
        assert(logs@.take(0) =~= Seq::<SortLog>::empty());
        assert(aux_units(logs@.take(0)) == 0);
        while i < logs.len()
            invariant
                i <= logs@.len(),
                sz == size_of::<usize>(),
                aux_bytes(logs@) <= usize::MAX,
                metrics.duration == duration,
                metrics.comparisons == count_comparisons(logs@.take(i as int)) <= i,
                metrics.swaps == count_swaps(logs@.take(i as int)) <= i,
                metrics.auxiliary_allocations == count_allocs(logs@.take(i as int)) <= i,
                metrics.auxiliary_deallocations == count_frees(logs@.take(i as int)) <= i,
                metrics.auxiliary_memory_bytes == aux_bytes(logs@.take(i as int)),
                current_memory == aux_bytes(logs@.take(i as int)),
                peak_memory == current_memory,
            decreases logs@.len() - i,
        {
            let ghost pre = logs@.take(i as int);
            assert(logs@.take(i + 1).drop_last() =~= pre);
            proof {
                lemma_aux_units_prefix(logs@, i + 1);
                let a = aux_units(pre);
                let b = aux_units(logs@.take(i + 1));
                let t = aux_units(logs@);
                let z = size_of::<usize>() as nat;
                assert(b * z <= t * z) by (nonlinear_arith)
                    requires
                        b <= t,
                ;
                assert(b * z == a * z + (b - a) * z) by (nonlinear_arith);
            }
            match logs[i] {
                SortLog::CmpInArr | SortLog::CmpData | SortLog::CmpDataU | SortLog::CmpAcrossArrs => {
                    metrics.comparisons = metrics.comparisons + 1;
                },
                SortLog::Swap => {
                    metrics.swaps = metrics.swaps + 1;
                },
                SortLog::CreateAuxArr { length } | SortLog::CreateAuxArrT { length } => {
                    let memory_used = length * sz;
                    metrics.auxiliary_memory_bytes = metrics.auxiliary_memory_bytes + memory_used;
                    metrics.auxiliary_allocations = metrics.auxiliary_allocations + 1;
                    current_memory = current_memory + memory_used;
                    if current_memory > peak_memory {
                        peak_memory = current_memory;
                    }
                },
                SortLog::FreeAuxArr => {
                    metrics.auxiliary_deallocations = metrics.auxiliary_deallocations + 1;
                },
                SortLog::Mark | SortLog::WriteInArr | SortLog::WriteData | SortLog::WriteDataU => {},
            }
            i = i + 1;
        }
        assert(logs@.take(i as int) =~= logs@);
        metrics.peak_memory_bytes = peak_memory;
        metrics
    }
}


// ───────────────────────────── results ─────────────────────────────

/// The result of one benchmark run.
#[derive(Debug, Clone)]
pub struct BenchmarkResult {
    /// The sort's name.
    pub sort_name: String,
    /// The array size used.
    pub array_size: usize,
    /// Whether the sort completed successfully.
    pub success: bool,
    /// What the run cost.
    pub metrics: BenchmarkMetrics,
    /// Why the run failed, if it did.
    pub error: Option<String>,
}

impl BenchmarkResult {
    /// A successful run with its metrics.
    pub fn success(sort_name: String, array_size: usize, metrics: BenchmarkMetrics) -> (r: Self)
        ensures
            r.sort_name == sort_name,
            r.array_size == array_size,
            r.success,
            r.metrics == metrics,
            r.error is None,
    {
        BenchmarkResult { sort_name, array_size, success: true, metrics, error: None }
    }

    /// A failed run: zero metrics and the error.
    pub fn failure(sort_name: String, array_size: usize, error: String) -> (r: Self)
        ensures
            r.sort_name == sort_name,
            r.array_size == array_size,
            !r.success,
            r.metrics.comparisons == 0 && r.metrics.swaps == 0 && r.metrics.auxiliary_memory_bytes == 0,
            r.metrics.auxiliary_allocations == 0 && r.metrics.auxiliary_deallocations == 0
                && r.metrics.peak_memory_bytes == 0,
            r.error == Some(error),
    {
        BenchmarkResult { sort_name, array_size, success: false, metrics: BenchmarkMetrics::default(), error: Some(error) }
    }
}

/// The results of growing a sort's input until it runs out of time.
#[derive(Debug, Clone)]
pub struct AdaptiveBenchmarkResults {
    /// The sort's name.
    pub sort_name: String,
    /// One result per size tried, in order.
    pub results: Vec<BenchmarkResult>,
    /// The largest size that finished within the limit.
    pub max_successful_size: Option<usize>,
    /// The size that first exceeded the limit.
    pub first_failure_size: Option<usize>,
}

pub open spec fn count_successes(rs: Seq<BenchmarkResult>) -> nat
    decreases rs.len(),
{
    if rs.len() == 0 { 0 } else { count_successes(rs.drop_last()) + if rs.last().success { 1nat } else { 0nat } }
}

pub open spec fn or_zero(o: Option<usize>) -> nat {
    match o {
        Some(v) => v as nat,
        None => 0,
    }
}

impl AdaptiveBenchmarkResults {
    /// `Sort: <name>, Max Size: <n>, First Failure: <n>, Successful Runs: <k>/<total>`,
    /// a missing size reading as 0.
    pub fn summary(&self) -> (r: String)
        ensures
            r@ == "Sort: "@ + self.sort_name@ + ", Max Size: "@ + decimal(or_zero(self.max_successful_size))
                + ", First Failure: "@ + decimal(or_zero(self.first_failure_size)) + ", Successful Runs: "@
                + decimal(count_successes(self.results@)) + "/"@ + decimal(self.results@.len()),
    {
        let mut ok: usize = 0;
        let mut i: usize = 0;
        while i < self.results.len()
            invariant
                i <= self.results@.len(),
                ok == count_successes(self.results@.take(i as int)) <= i,
            decreases self.results@.len() - i,
        {
            assert(self.results@.take(i + 1).drop_last() =~= self.results@.take(i as int));
            if self.results[i].success {
                ok = ok + 1;
            }
            i = i + 1;
        }
        assert(self.results@.take(i as int) =~= self.results@);
        let max_size = match self.max_successful_size {
            Some(v) => v,
            None => 0,
        };
        let failure_size = match self.first_failure_size {
            Some(v) => v,
            None => 0,
        };
        let mut out = owned("Sort: ");
        push_str(&mut out, self.sort_name.as_str());
        push_str(&mut out, ", Max Size: ");
        push_decimal(&mut out, max_size as u128);
        push_str(&mut out, ", First Failure: ");
        push_decimal(&mut out, failure_size as u128);
        push_str(&mut out, ", Successful Runs: ");
        push_decimal(&mut out, ok as u128);
        push_str(&mut out, "/");
        push_decimal(&mut out, self.results.len() as u128);
        out
    }
}

/// An adaptive benchmark between two measurements: the size to try next,
/// what has been recorded so far, and whether the run is over. Sizes grow
/// until a run fails or the largest size has been measured.
pub struct AdaptiveRun {
    pub sort_name: String,
    pub current_size: usize,
    pub max_size: usize,
    pub results: Vec<BenchmarkResult>,
    pub max_successful_size: Option<usize>,
    pub first_failure_size: Option<usize>,
    pub finished: bool,
}

impl AdaptiveRun {
    /// A run that starts at `start_size`; it is over at once where that is
    /// beyond `max_size`.
    pub fn start(sort_name: String, start_size: usize, max_size: usize) -> (r: Self)
        ensures
            r.sort_name == sort_name,
            r.current_size == start_size,
            r.max_size == max_size,
            r.results@.len() == 0,
            r.max_successful_size is None,
            r.first_failure_size is None,
            r.finished == (start_size > max_size),
    {
        AdaptiveRun {
            sort_name,
            current_size: start_size,
            max_size,
            results: Vec::new(),
            max_successful_size: None,
            first_failure_size: None,
            finished: start_size > max_size,
        }
    }

    /// The size to measure next, while the run goes on.
    pub fn next_size(&self) -> (r: Option<usize>)
        ensures
            r == (if self.finished { None } else { Some(self.current_size) }),
    {
        if self.finished {
            None
        } else {
            Some(self.current_size)
        }
    }

    /// Record the measurement at the current size. `grown` is the current
    /// size scaled by the growth factor; the next size is that, capped at the
    /// largest size. A failed run, or an error, ends the run; so does a
    /// success at the largest size.
    pub fn record(&mut self, outcome: Result<BenchmarkResult, String>, grown: usize)
        requires
            !old(self).finished,
        ensures
            final(self).sort_name == old(self).sort_name,
            final(self).max_size == old(self).max_size,
            final(self).results@.len() == old(self).results@.len() + 1,
            final(self).results@.take(old(self).results@.len() as int) == old(self).results@,
            match outcome {
                Ok(res) => {
                    &&& final(self).results@.last() == res
                    &&& if res.success {
                        &&& final(self).max_successful_size == Some(old(self).current_size)
                        &&& final(self).first_failure_size == old(self).first_failure_size
                        &&& if old(self).current_size >= old(self).max_size {
                            final(self).finished && final(self).current_size == old(self).current_size
                        } else {
                            &&& !final(self).finished
                            &&& final(self).current_size == (if grown < old(self).max_size {
                                grown
                            } else {
                                old(self).max_size
                            })
                        }
                    } else {
                        &&& final(self).max_successful_size == old(self).max_successful_size
                        &&& final(self).first_failure_size == Some(old(self).current_size)
                        &&& final(self).finished
                        &&& final(self).current_size == old(self).current_size
                    }
                },
                Err(e) => {
                    &&& final(self).results@.last().sort_name@ == old(self).sort_name@
                    &&& final(self).results@.last().array_size == old(self).current_size
                    &&& !final(self).results@.last().success
                    &&& final(self).results@.last().error == Some(e)
                    &&& final(self).max_successful_size == old(self).max_successful_size
                    &&& final(self).first_failure_size == Some(old(self).current_size)
                    &&& final(self).finished
                    &&& final(self).current_size == old(self).current_size
                },
            },
    {
        let cur = self.current_size;
        match outcome {
            Ok(res) => {
                if res.success {
                    self.max_successful_size = Some(cur);
                    self.results.push(res);
                    if cur >= self.max_size {
                        self.finished = true;
                    } else {
                        self.current_size = if grown < self.max_size {
                            grown
                        } else {
                            self.max_size
                        };
                    }
                } else {
                    self.first_failure_size = Some(cur);
                    self.results.push(res);
                    self.finished = true;
                }
            },
            Err(e) => {
                let name = crate::text::copy_string(&self.sort_name);
                let failed = BenchmarkResult::failure(name, cur, e);
                self.first_failure_size = Some(cur);
                self.results.push(failed);
                self.finished = true;
            },
        }
        assert(self.results@.take(old(self).results@.len() as int) =~= old(self).results@);
    }

    /// The results of the run.
    pub fn finish(self) -> (r: AdaptiveBenchmarkResults)
        ensures
            r.sort_name == self.sort_name,
            r.results == self.results,
            r.max_successful_size == self.max_successful_size,
            r.first_failure_size == self.first_failure_size,
    {
        AdaptiveBenchmarkResults {
            sort_name: self.sort_name,
            results: self.results,
            max_successful_size: self.max_successful_size,
            first_failure_size: self.first_failure_size,
        }
    }
}

/// The results recorded under each distribution pattern, one entry per
/// pattern.
#[derive(Debug, Clone)]
pub struct DistributionBenchmarkResults {
    pub pattern_results: Vec<(DistributionPattern, Vec<BenchmarkResult>)>,
}

/// No key occurs twice.
pub open spec fn keys_distinct<K, V>(m: Seq<(K, V)>) -> bool {
    forall|i: int, j: int| 0 <= i < j < m.len() ==> (#[trigger] m[i]).0 != (#[trigger] m[j]).0
}

/// The value recorded under `k`.
pub open spec fn lookup<K, V>(m: Seq<(K, V)>, k: K) -> Option<V> {
    if exists|i: int| 0 <= i < m.len() && (#[trigger] m[i]).0 == k {
        Some(m[choose|i: int| 0 <= i < m.len() && (#[trigger] m[i]).0 == k].1)
    } else {
        None
    }
}

proof fn lemma_lookup_at<K, V>(m: Seq<(K, V)>, i: int)
    requires
        keys_distinct(m),
        0 <= i < m.len(),
    ensures
        lookup(m, m[i].0) == Some(m[i].1),
{
    let j = choose|j: int| 0 <= j < m.len() && (#[trigger] m[j]).0 == m[i].0;
    assert(j == i);
}

impl DistributionBenchmarkResults {
    pub fn new() -> (r: Self)
        ensures
            r.pattern_results@.len() == 0,
    {
        DistributionBenchmarkResults { pattern_results: Vec::new() }
    }

    /// Records `results` under `pattern`, replacing what was recorded under
    /// it before; every other pattern keeps its results.
    pub fn add_pattern_results(&mut self, pattern: DistributionPattern, results: Vec<BenchmarkResult>)
        requires
            keys_distinct(old(self).pattern_results@),
        ensures
            keys_distinct(final(self).pattern_results@),
            lookup(final(self).pattern_results@, pattern) == Some(results),
            forall|k: DistributionPattern| k != pattern ==> lookup(final(self).pattern_results@, k)
                == lookup(old(self).pattern_results@, k),
    {
        let ghost m0 = self.pattern_results@;
        let mut i: usize = 0;
        while i < self.pattern_results.len()
            invariant
                self.pattern_results@ == m0,
                m0 == old(self).pattern_results@,
                keys_distinct(m0),
                i <= m0.len(),
                forall|j: int| 0 <= j < i ==> (#[trigger] m0[j]).0 != pattern,
            decreases m0.len() - i,
        {
            if self.pattern_results[i].0 == pattern {
                self.pattern_results.set(i, (pattern, results));
                proof {
                    let m1 = self.pattern_results@;
                    assert forall|a: int, b: int| 0 <= a < b < m1.len() implies (#[trigger] m1[a]).0 != (
                    #[trigger] m1[b]).0 by {
                        assert(m1[a].0 == m0[a].0 && m1[b].0 == m0[b].0);
                    }
                    lemma_lookup_at(m1, i as int);
                    assert forall|k: DistributionPattern| k != pattern implies lookup(m1, k) == lookup(m0, k) by {
                        if exists|q: int| 0 <= q < m0.len() && (#[trigger] m0[q]).0 == k {
                            let q = choose|q: int| 0 <= q < m0.len() && (#[trigger] m0[q]).0 == k;
                            lemma_lookup_at(m0, q);
                            assert(m1[q] == m0[q]);
                            lemma_lookup_at(m1, q);
                        } else {
                            assert(!exists|q: int| 0 <= q < m1.len() && (#[trigger] m1[q]).0 == k) by {
                                if exists|q: int| 0 <= q < m1.len() && (#[trigger] m1[q]).0 == k {
                                    let q = choose|q: int| 0 <= q < m1.len() && (#[trigger] m1[q]).0 == k;
                                    assert(m0[q].0 == k);
                                }
                            }
                        }
                    }
                }
                return;
            }
            i = i + 1;
        }
        self.pattern_results.push((pattern, results));
        proof {
            let m1 = self.pattern_results@;
            assert(m1.len() == m0.len() + 1);
            assert forall|a: int, b: int| 0 <= a < b < m1.len() implies (#[trigger] m1[a]).0 != (
            #[trigger] m1[b]).0 by {
                if b == m0.len() {
                    assert(m1[a] == m0[a]);
                } else {
                    assert(m1[a] == m0[a] && m1[b] == m0[b]);
                }
            }
            lemma_lookup_at(m1, m0.len() as int);
            assert forall|k: DistributionPattern| k != pattern implies lookup(m1, k) == lookup(m0, k) by {
                if exists|q: int| 0 <= q < m0.len() && (#[trigger] m0[q]).0 == k {
                    let q = choose|q: int| 0 <= q < m0.len() && (#[trigger] m0[q]).0 == k;
                    lemma_lookup_at(m0, q);
                    assert(m1[q] == m0[q]);
                    lemma_lookup_at(m1, q);
                } else {
                    assert(!exists|q: int| 0 <= q < m1.len() && (#[trigger] m1[q]).0 == k) by {
                        if exists|q: int| 0 <= q < m1.len() && (#[trigger] m1[q]).0 == k {
                            let q = choose|q: int| 0 <= q < m1.len() && (#[trigger] m1[q]).0 == k;
                            if q < m0.len() {
                                assert(m0[q] == m1[q]);
                            }
                        }
                    }
                }
            }
        }
    }
}

/// The results recorded under each data type category, one entry per
/// category.
#[derive(Debug, Clone)]
pub struct DataTypeBenchmarkResults {
    pub category_results: Vec<(DataTypeCategory, Vec<BenchmarkResult>)>,
}

impl DataTypeBenchmarkResults {
    pub fn new() -> (r: Self)
        ensures
            r.category_results@.len() == 0,
    {
        DataTypeBenchmarkResults { category_results: Vec::new() }
    }

    /// Records `results` under `category`, replacing what was recorded under
    /// it before; every other category keeps its results.
    pub fn add_category_results(&mut self, category: DataTypeCategory, results: Vec<BenchmarkResult>)
        requires
            keys_distinct(old(self).category_results@),
        ensures
            keys_distinct(final(self).category_results@),
            lookup(final(self).category_results@, category) == Some(results),
            forall|k: DataTypeCategory| k != category ==> lookup(final(self).category_results@, k)
                == lookup(old(self).category_results@, k),
    {
        let ghost m0 = self.category_results@;
        let mut i: usize = 0;
        while i < self.category_results.len()
            invariant
                self.category_results@ == m0,
                m0 == old(self).category_results@,
                keys_distinct(m0),
                i <= m0.len(),
                forall|j: int| 0 <= j < i ==> (#[trigger] m0[j]).0 != category,
            decreases m0.len() - i,
        {
            if self.category_results[i].0 == category {
                self.category_results.set(i, (category, results));
                proof {
                    let m1 = self.category_results@;
                    assert forall|a: int, b: int| 0 <= a < b < m1.len() implies (#[trigger] m1[a]).0 != (
                    #[trigger] m1[b]).0 by {
                        assert(m1[a].0 == m0[a].0 && m1[b].0 == m0[b].0);
                    }
                    lemma_lookup_at(m1, i as int);
                    assert forall|k: DataTypeCategory| k != category implies lookup(m1, k) == lookup(m0, k) by {
                        if exists|q: int| 0 <= q < m0.len() && (#[trigger] m0[q]).0 == k {
                            let q = choose|q: int| 0 <= q < m0.len() && (#[trigger] m0[q]).0 == k;
                            lemma_lookup_at(m0, q);
                            assert(m1[q] == m0[q]);
                            lemma_lookup_at(m1, q);
                        } else {
                            assert(!exists|q: int| 0 <= q < m1.len() && (#[trigger] m1[q]).0 == k) by {
                                if exists|q: int| 0 <= q < m1.len() && (#[trigger] m1[q]).0 == k {
                                    let q = choose|q: int| 0 <= q < m1.len() && (#[trigger] m1[q]).0 == k;
                                    assert(m0[q].0 == k);
                                }
                            }
                        }
                    }
                }
                return;
            }
            i = i + 1;
        }
        self.category_results.push((category, results));
        proof {
            let m1 = self.category_results@;
            assert(m1.len() == m0.len() + 1);
            assert forall|a: int, b: int| 0 <= a < b < m1.len() implies (#[trigger] m1[a]).0 != (
            #[trigger] m1[b]).0 by {
                if b == m0.len() {
                    assert(m1[a] == m0[a]);
                } else {
                    assert(m1[a] == m0[a] && m1[b] == m0[b]);
                }
            }
            lemma_lookup_at(m1, m0.len() as int);
            assert forall|k: DataTypeCategory| k != category implies lookup(m1, k) == lookup(m0, k) by {
                if exists|q: int| 0 <= q < m0.len() && (#[trigger] m0[q]).0 == k {
                    let q = choose|q: int| 0 <= q < m0.len() && (#[trigger] m0[q]).0 == k;
                    lemma_lookup_at(m0, q);
                    assert(m1[q] == m0[q]);
                    lemma_lookup_at(m1, q);
                } else {
                    assert(!exists|q: int| 0 <= q < m1.len() && (#[trigger] m1[q]).0 == k) by {
                        if exists|q: int| 0 <= q < m1.len() && (#[trigger] m1[q]).0 == k {
                            let q = choose|q: int| 0 <= q < m1.len() && (#[trigger] m1[q]).0 == k;
                            if q < m0.len() {
                                assert(m0[q] == m1[q]);
                            }
                        }
                    }
                }
            }
        }
    }
}


/// Everything a full benchmark suite collected.
#[derive(Debug, Clone)]
pub struct BenchmarkSuiteResults {
    pub adaptive_results: Vec<AdaptiveBenchmarkResults>,
    pub distribution_results: DistributionBenchmarkResults,
    pub datatype_results: DataTypeBenchmarkResults,
}

impl BenchmarkSuiteResults {
    pub fn new() -> (r: Self)
        ensures
            r.adaptive_results@.len() == 0,
            r.distribution_results.pattern_results@.len() == 0,
            r.datatype_results.category_results@.len() == 0,
    {
        BenchmarkSuiteResults {
            adaptive_results: Vec::new(),
            distribution_results: DistributionBenchmarkResults::new(),
            datatype_results: DataTypeBenchmarkResults::new(),
        }
    }
}

/// `p` occurs somewhere in `s`.
pub open spec fn contains_seq(s: Seq<char>, p: Seq<char>) -> bool {
    exists|i: int| #[trigger] starts_with_at(s, i, p)
}

fn contains_str(s: &[char], p: &str) -> (r: bool)
    ensures
        r == contains_seq(s@, p@),
{
    let pc = chars_of(p);
    let mut i: usize = 0;
    while i < s.len()
        invariant
            i <= s@.len(),
            pc@ == p@,
            forall|j: int| 0 <= j < i ==> !#[trigger] starts_with_at(s@, j, p@),
        decreases s@.len() - i,
    {
        if matches_at(s, i, pc.as_slice()) {
            return true;
        }
        i = i + 1;
    }
    if matches_at(s, i, pc.as_slice()) {
        return true;
    }
    assert forall|j: int| !#[trigger] starts_with_at(s@, j, p@) by {
        if 0 <= j && j + p@.len() <= s@.len() {
            assert(j <= i);
        }
    }
    false
}

/// The menu path of the stand-in sort the benchmark runs for a sort name:
/// the first family whose keyword the name contains, bubble sort otherwise.
pub open spec fn sort_choice_for(name: Seq<char>) -> (Seq<char>, Seq<char>) {
    if contains_seq(name, "bubble"@) {
        ("bubble_sorts"@, "bubble_sort"@)
    } else if contains_seq(name, "merge"@) {
        ("merge_sorts"@, "classic_merge_sort"@)
    } else if contains_seq(name, "quick"@) {
        ("quick_sorts"@, "quick_sort_left_right_pointers_static_pivot"@)
    } else if contains_seq(name, "heap"@) {
        ("heap_sort"@, "heap_sort_classic"@)
    } else if contains_seq(name, "shell"@) {
        ("shell_sorts"@, "shell_classic"@)
    } else if contains_seq(name, "insertion"@) {
        ("insertion_sorts"@, "insertion_sort"@)
    } else if contains_seq(name, "slow"@) {
        ("fun_sorts"@, "slow_sort"@)
    } else if contains_seq(name, "stooge"@) {
        ("fun_sorts"@, "stooge_sort"@)
    } else {
        ("bubble_sorts"@, "bubble_sort"@)
    }
}

fn pair(a: &str, b: &str) -> (r: Vec<String>)
    ensures
        r@.len() == 2 && r@[0]@ == a@ && r@[1]@ == b@,
{
    let mut v: Vec<String> = Vec::new();
    v.push(owned(a));
    v.push(owned(b));
    v
}

/// The two-level menu path a benchmark runs for `sort_name`.
pub fn convert_sort_name_to_choice(sort_name: &str) -> (r: Vec<String>)
    ensures
        r@.len() == 2,
        (r@[0]@, r@[1]@) == sort_choice_for(sort_name@),
{
    let s = chars_of(sort_name);
    let s = s.as_slice();
    if contains_str(s, "bubble") {
        pair("bubble_sorts", "bubble_sort")
    } else if contains_str(s, "merge") {
        pair("merge_sorts", "classic_merge_sort")
    } else if contains_str(s, "quick") {
        pair("quick_sorts", "quick_sort_left_right_pointers_static_pivot")
    } else if contains_str(s, "heap") {
        pair("heap_sort", "heap_sort_classic")
    } else if contains_str(s, "shell") {
        pair("shell_sorts", "shell_classic")
    } else if contains_str(s, "insertion") {
        pair("insertion_sorts", "insertion_sort")
    } else if contains_str(s, "slow") {
        pair("fun_sorts", "slow_sort")
    } else if contains_str(s, "stooge") {
        pair("fun_sorts", "stooge_sort")
    } else {
        pair("bubble_sorts", "bubble_sort")
    }
}

} // verus!
