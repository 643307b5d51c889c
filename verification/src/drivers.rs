//! Per-category emit drivers: each category renders a different visualisation
//! body and correctness battery (a sort runs on an array, a partition takes a
//! pivot, a merge two runs, a rotation a split point).
use vstd::prelude::*;
use crate::text::{lowercase, owned, push_str, str_eq};

pub mod merge;
pub mod partition;
pub mod rotation;
pub mod sort;

verus! {

/// What a driver needs: the ABI crate path the emitted code names. The
/// algorithm type is always the local alias `Ty`.
pub struct DriverCtx<'a> {
    pub abi: &'a str,
}

/// The category-specific function bodies the entry template splices in.
#[derive(Debug)]
pub struct DriverCode {
    pub run_default_body: String,
    pub run_correct_body: String,
}

/// The two bodies a category renders, or `None` for a category without a
/// driver.
pub open spec fn driver_s(category: Seq<char>, abi: Seq<char>) -> Option<(Seq<char>, Seq<char>)> {
    if category == "Sort"@ {
        Some((sort::run_default_s(abi), sort::run_correct_s(abi)))
    } else if category == "Partition"@ {
        Some((partition::run_default_s(abi), partition::run_correct_s(abi)))
    } else if category == "Merge"@ {
        Some((merge::run_default_s(abi), merge::run_correct_s(abi)))
    } else if category == "Rotation"@ {
        Some((rotation::run_default_s(abi), rotation::run_correct_s(abi)))
    } else {
        None
    }
}

/// The driver for a category.
pub fn driver(category: &str, ctx: &DriverCtx) -> (r: Result<DriverCode, String>)
    ensures
        match driver_s(category@, ctx.abi@) {
            Some(b) => r is Ok && (r->Ok_0.run_default_body@, r->Ok_0.run_correct_body@) == b,
            None => r is Err,
        },
        driver_s(category@, ctx.abi@) is None ==> (r matches Err(e) && e@ == "no emit driver for category `"@
            + category@ + "` — add `spec_core/src/emit_drivers/"@ + crate::text::lowercase_s(category@)
            + ".rs` and an arm in `driver()`"@),
{
    if str_eq(category, "Sort") {
        Ok(sort::driver(ctx))
    } else if str_eq(category, "Partition") {
        partition::driver(ctx)
    } else if str_eq(category, "Merge") {
        merge::driver(ctx)
    } else if str_eq(category, "Rotation") {
        rotation::driver(ctx)
    } else {
        let mut m = owned("no emit driver for category `");
        push_str(&mut m, category);
        push_str(&mut m, "` — add `spec_core/src/emit_drivers/");
        push_str(&mut m, lowercase(category).as_str());
        push_str(&mut m, ".rs` and an arm in `driver()`");
        Err(m)
    }
}

} // verus!
