//! The `Partition` driver: a partition takes a pivot input, partitions the
//! array around it and emits the scan; its battery checks the partition
//! invariant.
use vstd::prelude::*;
use crate::text::push_str;
use crate::drivers::{DriverCode, DriverCtx};

verus! {

/// The shared adapter from the type's role trait to a plain function.
pub open spec fn part_dyn_s(abi: Seq<char>) -> Seq<char> {
    "fn part_dyn(arr: &mut [usize], pivot_index: usize, logger: &mut dyn "@ + abi + "::SortLogger<usize>) -> usize {\n            <Ty as "@ + abi + "::Partitioner>::partition(arr, pivot_index, logger)\n        }"@
}

/// The visualisation-path body.
pub open spec fn run_default_s(abi: Seq<char>) -> Seq<char> {
    part_dyn_s(abi) + "\n        "@ + abi + "::run_partition_with_input(input_name, config, part_dyn, logger);"@
}

/// The correctness-path body.
pub open spec fn run_correct_s(abi: Seq<char>) -> Seq<char> {
    part_dyn_s(abi) + "\n        "@ + abi + "::assert_partitions(part_dyn);"@
}

pub fn driver(ctx: &DriverCtx) -> (r: Result<DriverCode, String>)
    ensures
        r is Ok,
        r->Ok_0.run_default_body@ == run_default_s(ctx.abi@),
        r->Ok_0.run_correct_body@ == run_correct_s(ctx.abi@),
{
    let mut d = String::new();
    push_str(&mut d, "fn part_dyn(arr: &mut [usize], pivot_index: usize, logger: &mut dyn ");
    push_str(&mut d, ctx.abi);
    push_str(&mut d, "::SortLogger<usize>) -> usize {\n            <Ty as ");
    push_str(&mut d, ctx.abi);
    push_str(&mut d, "::Partitioner>::partition(arr, pivot_index, logger)\n        }");
    let mut out = String::new();
    push_str(&mut out, d.as_str());
    push_str(&mut out, "\n        ");
    push_str(&mut out, ctx.abi);
    push_str(&mut out, "::run_partition_with_input(input_name, config, part_dyn, logger);");
    let run_default_body = out;
    let mut out = String::new();
    push_str(&mut out, d.as_str());
    push_str(&mut out, "\n        ");
    push_str(&mut out, ctx.abi);
    push_str(&mut out, "::assert_partitions(part_dyn);");
    let run_correct_body = out;
    Ok(DriverCode { run_default_body, run_correct_body })
}

} // verus!
