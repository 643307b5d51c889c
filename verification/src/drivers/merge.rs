//! The `Merge` driver: a merge takes one array and a split point whose two
//! halves are each sorted, and combines them in place; its battery checks the
//! merged output.
use vstd::prelude::*;
use crate::text::push_str;
use crate::drivers::{DriverCode, DriverCtx};

verus! {

/// The shared adapter from the type's role trait to a plain function.
pub open spec fn merge_dyn_s(abi: Seq<char>) -> Seq<char> {
    "fn merge_dyn(arr: &mut [usize], mid: usize, logger: &mut dyn "@ + abi + "::SortLogger<usize>) {\n            <Ty as "@ + abi + "::Merger>::merge(arr, mid, logger);\n        }"@
}

/// The visualisation-path body.
pub open spec fn run_default_s(abi: Seq<char>) -> Seq<char> {
    merge_dyn_s(abi) + "\n        "@ + abi + "::run_merge_with_input(input_name, config, merge_dyn, logger);"@
}

/// The correctness-path body.
pub open spec fn run_correct_s(abi: Seq<char>) -> Seq<char> {
    merge_dyn_s(abi) + "\n        "@ + abi + "::assert_merges(merge_dyn);"@
}

pub fn driver(ctx: &DriverCtx) -> (r: Result<DriverCode, String>)
    ensures
        r is Ok,
        r->Ok_0.run_default_body@ == run_default_s(ctx.abi@),
        r->Ok_0.run_correct_body@ == run_correct_s(ctx.abi@),
{
    let mut d = String::new();
    push_str(&mut d, "fn merge_dyn(arr: &mut [usize], mid: usize, logger: &mut dyn ");
    push_str(&mut d, ctx.abi);
    push_str(&mut d, "::SortLogger<usize>) {\n            <Ty as ");
    push_str(&mut d, ctx.abi);
    push_str(&mut d, "::Merger>::merge(arr, mid, logger);\n        }");
    let mut out = String::new();
    push_str(&mut out, d.as_str());
    push_str(&mut out, "\n        ");
    push_str(&mut out, ctx.abi);
    push_str(&mut out, "::run_merge_with_input(input_name, config, merge_dyn, logger);");
    let run_default_body = out;
    let mut out = String::new();
    push_str(&mut out, d.as_str());
    push_str(&mut out, "\n        ");
    push_str(&mut out, ctx.abi);
    push_str(&mut out, "::assert_merges(merge_dyn);");
    let run_correct_body = out;
    Ok(DriverCode { run_default_body, run_correct_body })
}

} // verus!
