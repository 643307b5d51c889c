//! Marker types with the shapes of the real sort families, so that generated
//! code is checked against realistic signatures: a quick sort keeps its pivot
//! selector beside its partition and ties their arities together, insertion
//! small sorts carry a const threshold, merge sorts two bool consts.
use vstd::prelude::*;
use core::marker::PhantomData;

verus! {

/// Arity tag: one pivot.
pub struct One;

/// Arity tag: two pivots.
pub struct Two;

pub trait PartitionScheme {
    type Arity;
}

pub trait PivotInput {
    type Arity;
}

pub trait SmallSort {
    fn threshold() -> usize;
}

pub trait InsertionStrategy {
}

pub trait GapSequence {
}

pub struct LeftLeftPartition;

impl PartitionScheme for LeftLeftPartition {
    type Arity = One;
}

pub struct FirstElement;

impl PivotInput for FirstElement {
    type Arity = One;
}

pub struct MiddleElement;

impl PivotInput for MiddleElement {
    type Arity = One;
}

pub struct DualPivotPartition;

impl PartitionScheme for DualPivotPartition {
    type Arity = Two;
}

pub struct NintherDualPivot;

impl PivotInput for NintherDualPivot {
    type Arity = Two;
}

/// A dual selector composed from two single selectors.
pub struct CombinedSelector<V1, V2>(pub PhantomData<(V1, V2)>);

impl<V1: PivotInput<Arity = One>, V2: PivotInput<Arity = One>> PivotInput for CombinedSelector<
    V1,
    V2,
> {
    type Arity = Two;
}

/// Quick sort: the pivot selector is a sibling of the partition scheme and
/// must have the same arity.
pub struct QuickSort<P, V, SS>(pub PhantomData<(P, V, SS)>);

impl<P: PartitionScheme, V: PivotInput<Arity = P::Arity>, SS: SmallSort> QuickSort<P, V, SS> {
    pub fn sort(arr: &mut [usize])
        ensures
            sorted_usize(final(arr)@),
            final(arr)@.to_multiset() == old(arr)@.to_multiset(),
    {
        let _ = SS::threshold();
        sort_unstable(arr);
    }
}

pub struct NoSmallSort;

impl SmallSort for NoSmallSort {
    fn threshold() -> (r: usize)
        ensures
            r == 0,
    {
        0
    }
}

pub struct LinearInsertion;

impl InsertionStrategy for LinearInsertion {
}

pub struct BinaryInsertion;

impl InsertionStrategy for BinaryInsertion {
}

/// Insertion small sort: a strategy type and a const threshold.
pub struct InsertionSmallSort<S, const N: usize>(pub PhantomData<S>);

impl<S: InsertionStrategy, const N: usize> SmallSort for InsertionSmallSort<S, N> {
    fn threshold() -> (r: usize)
        ensures
            r == N,
    {
        N
    }
}

pub open spec fn sorted_usize(s: Seq<usize>) -> bool {
    forall|i: int, j: int| 0 <= i <= j < s.len() ==> s[i] <= s[j]
}

/// `<[usize]>::sort_unstable`: std sorts the slice in ascending order,
/// rearranging its elements.
#[verifier::external_body]
pub(crate) fn sort_unstable(arr: &mut [usize])
    ensures
        sorted_usize(final(arr)@),
        final(arr)@.to_multiset() == old(arr)@.to_multiset(),
{
    arr.sort_unstable();
}

/// Top-down merge sort: a small-sort type and two bool consts.
pub struct TopDownMergeSort<S, const PING_PONG: bool, const EARLY_EXIT: bool>(pub PhantomData<S>);

impl<S: SmallSort, const PING_PONG: bool, const EARLY_EXIT: bool> TopDownMergeSort<
    S,
    PING_PONG,
    EARLY_EXIT,
> {
    pub fn sort(arr: &mut [usize])
        ensures
            sorted_usize(final(arr)@),
            final(arr)@.to_multiset() == old(arr)@.to_multiset(),
    {
        sort_unstable(arr);
    }
}

pub struct Classic;

impl GapSequence for Classic {
}

pub struct Knuth;

impl GapSequence for Knuth {
}

pub struct Ciura;

impl GapSequence for Ciura {
}

/// Shell sort over a gap sequence.
pub struct ShellSort<G>(pub PhantomData<G>);

impl<G: GapSequence> ShellSort<G> {
    pub fn sort(arr: &mut [usize])
        ensures
            sorted_usize(final(arr)@),
            final(arr)@.to_multiset() == old(arr)@.to_multiset(),
    {
        sort_unstable(arr);
    }
}

} // verus!
