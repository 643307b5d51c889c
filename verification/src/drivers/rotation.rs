//! The `Rotation` driver: a rotation takes an array and a split point and
//! rotates the two blocks left by it; its battery checks the cyclic shift.
use vstd::prelude::*;
use crate::text::push_str;
use crate::drivers::{DriverCode, DriverCtx};

verus! {

/// The shared adapter from the type's role trait to a plain function.
pub open spec fn rotate_dyn_s(abi: Seq<char>) -> Seq<char> {
    "fn rotate_dyn(arr: &mut [usize], mid: usize, logger: &mut dyn "@ + abi + "::SortLogger<usize>) {\n            <Ty as "@ + abi + "::Rotator>::rotate(arr, mid, logger)\n        }"@
}

/// The visualisation-path body.
pub open spec fn run_default_s(abi: Seq<char>) -> Seq<char> {
    rotate_dyn_s(abi) + "\n        "@ + abi + "::run_rotation_with_input(input_name, config, rotate_dyn, logger);"@
}

/// The correctness-path body.
pub open spec fn run_correct_s(abi: Seq<char>) -> Seq<char> {
    rotate_dyn_s(abi) + "\n        "@ + abi + "::assert_rotations(rotate_dyn);"@
}

pub fn driver(ctx: &DriverCtx) -> (r: Result<DriverCode, String>)
    ensures
        r is Ok,
        r->Ok_0.run_default_body@ == run_default_s(ctx.abi@),
        r->Ok_0.run_correct_body@ == run_correct_s(ctx.abi@),
{
    let mut d = String::new();
    push_str(&mut d, "fn rotate_dyn(arr: &mut [usize], mid: usize, logger: &mut dyn ");
    push_str(&mut d, ctx.abi);
    push_str(&mut d, "::SortLogger<usize>) {\n            <Ty as ");
    push_str(&mut d, ctx.abi);
    push_str(&mut d, "::Rotator>::rotate(arr, mid, logger)\n        }");
    let mut out = String::new();
    push_str(&mut out, d.as_str());
    push_str(&mut out, "\n        ");
    push_str(&mut out, ctx.abi);
    push_str(&mut out, "::run_rotation_with_input(input_name, config, rotate_dyn, logger);");
    let run_default_body = out;
    let mut out = String::new();
    push_str(&mut out, d.as_str());
    push_str(&mut out, "\n        ");
    push_str(&mut out, ctx.abi);
    push_str(&mut out, "::assert_rotations(rotate_dyn);");
    let run_correct_body = out;
    Ok(DriverCode { run_default_body, run_correct_body })
}

} // verus!
