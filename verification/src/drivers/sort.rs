//! The `Sort` driver: a sort runs on one array; its battery is the shared
//! sort battery.
use vstd::prelude::*;
use crate::text::push_str;
use crate::drivers::{DriverCode, DriverCtx};

verus! {

/// The shared adapter from the type's role trait to a plain function.
pub open spec fn sort_dyn_s(abi: Seq<char>) -> Seq<char> {
    "fn sort_dyn(arr: &mut [usize], logger: &mut dyn "@ + abi + "::SortLogger<usize>) {\n            <Ty as "@ + abi + "::SortAlgo<usize, dyn "@ + abi + "::SortLogger<usize>>>::sort(arr, logger);\n        }"@
}

/// The visualisation-path body.
pub open spec fn run_default_s(abi: Seq<char>) -> Seq<char> {
    sort_dyn_s(abi) + "\n        "@ + abi + "::run_sort_with_input(input_name, config, sort_dyn, logger);"@
}

/// The correctness-path body.
pub open spec fn run_correct_s(abi: Seq<char>) -> Seq<char> {
    sort_dyn_s(abi) + "\n        "@ + abi + "::assert_sorts(sort_dyn);"@
}

pub fn driver(ctx: &DriverCtx) -> (r: DriverCode)
    ensures
        r.run_default_body@ == run_default_s(ctx.abi@),
        r.run_correct_body@ == run_correct_s(ctx.abi@),
{
    let mut d = String::new();
    push_str(&mut d, "fn sort_dyn(arr: &mut [usize], logger: &mut dyn ");
    push_str(&mut d, ctx.abi);
    push_str(&mut d, "::SortLogger<usize>) {\n            <Ty as ");
    push_str(&mut d, ctx.abi);
    push_str(&mut d, "::SortAlgo<usize, dyn ");
    push_str(&mut d, ctx.abi);
    push_str(&mut d, "::SortLogger<usize>>>::sort(arr, logger);\n        }");
    let mut out = String::new();
    push_str(&mut out, d.as_str());
    push_str(&mut out, "\n        ");
    push_str(&mut out, ctx.abi);
    push_str(&mut out, "::run_sort_with_input(input_name, config, sort_dyn, logger);");
    let run_default_body = out;
    let mut out = String::new();
    push_str(&mut out, d.as_str());
    push_str(&mut out, "\n        ");
    push_str(&mut out, ctx.abi);
    push_str(&mut out, "::assert_sorts(sort_dyn);");
    let run_correct_body = out;
    DriverCode { run_default_body, run_correct_body }
}

} // verus!
