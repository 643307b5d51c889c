//! The prototype array-domain emit backend: the registration body for a
//! resolved algorithm type, against a single ABI crate path. Complexity is
//! inherited from `Ty`; category, adaptivity and input bound come from the
//! catalog; the category-specific bodies come from the drivers.
use vstd::prelude::*;
use crate::text::{debug_quoted, debug_str, owned, push_str, str_eq};
use crate::drivers::{driver, driver_s, DriverCtx};
use crate::emit::{bool_text, max_input_text};

verus! {

/// Per-entry facts the backend needs; the resolved type is in scope as `Ty`.
pub struct EntryCtx<'a> {
    /// The resolved label: the entry's stable name.
    pub label: &'a str,
    /// The catalog `category` of the root component, opaque to the compiler.
    pub category: Option<&'a str>,
    /// The catalog `adaptive` flag.
    pub adaptive: bool,
    /// The catalog `max_input` bound, if any.
    pub max_input: Option<usize>,
}

/// How a domain turns a resolved type into a registry entry.
pub trait EmitBackend {
    fn entry_body(&self, ctx: &EntryCtx) -> Result<String, String>;
}

/// The array-visualisation backend, with the ABI crate path it targets.
#[derive(Debug)]
pub struct ArrayBackend {
    pub abi: String,
}

impl Default for ArrayBackend {
    fn default() -> (r: Self)
        ensures
            r.abi@ == "avb_abi"@,
    {
        ArrayBackend { abi: owned("avb_abi") }
    }
}

/// The picker root a category registers under.
pub open spec fn menu_root_s(category: Seq<char>) -> Seq<char> {
    if category == "Sort"@ {
        "sorts"@
    } else if category == "Partition"@ {
        "partitions"@
    } else if category == "Merge"@ {
        "merges"@
    } else {
        "rotations"@
    }
}

/// The picker root of one of the four driven categories.
pub fn menu_root(category: &str) -> (r: &'static str)
    requires
        driver_s(category@, seq![]) is Some,
    ensures
        r@ == menu_root_s(category@),
{
    if str_eq(category, "Sort") {
        "sorts"
    } else if str_eq(category, "Partition") {
        "partitions"
    } else if str_eq(category, "Merge") {
        "merges"
    } else {
        "rotations"
    }
}

pub open spec fn category_of(c: EntryCtx) -> Seq<char> {
    match c.category {
        Some(s) => s@,
        None => "Sort"@,
    }
}

/// The registration body around a category's two driver bodies.
pub open spec fn entry_s(abi: Seq<char>, c: EntryCtx, cat: Seq<char>, code: (Seq<char>, Seq<char>)) -> Seq<char> {
    "    fn run_default(input_name: &str, config: &"@ + abi + "::RunConfig, logger: &mut dyn "@ + abi + "::SortLogger<usize>) {\n        "@ + code.0 + "\n    }\n    fn run_correct() {\n        "@ + code.1 + "\n    }\n    #[linkme::distributed_slice("@ + abi + "::ALGORITHMS)]\n    #[allow(non_upper_case_globals)]\n    static ENTRY: "@ + abi + "::AlgorithmEntry = "@ + abi + "::AlgorithmEntry {\n        name: "@ + debug_str(c.label@) + ",\n        category: "@ + abi + "::Category::"@ + cat + ",\n        worst: <Ty as "@ + abi + "::HasTimeBounds>::WORST,\n        best: <Ty as "@ + abi + "::HasTimeBounds>::BEST,\n        average: <Ty as "@ + abi + "::HasTimeBounds>::AVERAGE,\n        space: <Ty as "@ + abi + "::HasSpace>::SPACE,\n        stable: <Ty as "@ + abi + "::HasStability>::STABLE,\n        adaptive: "@ + crate::emit::bool_s(c.adaptive) + ",\n        max_input_size: "@ + crate::emit::max_input_s(c.max_input) + ",\n        run_with_input: run_default,\n        run_correctness: run_correct,\n    };\n    #[ctor::ctor]\n    #[allow(non_snake_case)]\n    fn register() { "@ + abi + "::register_sort_variant("@ + debug_str(c.label@) + ", &["@ + debug_str(menu_root_s(cat)) + "], &[]); }\n"@
}

impl EmitBackend for ArrayBackend {
    /// A component with no declared category is a `Sort`; a category without
    /// a driver is an error.
    fn entry_body(&self, ctx: &EntryCtx) -> (r: Result<String, String>)
        ensures
            match driver_s(category_of(*ctx), self.abi@) {
                Some(code) => r is Ok && r->Ok_0@ == entry_s(self.abi@, *ctx, category_of(*ctx), code),
                None => r is Err,
            },
    {
        let category: &str = match ctx.category {
            Some(c) => c,
            None => "Sort",
        };
        let code = match driver(category, &DriverCtx { abi: self.abi.as_str() }) {
            Ok(c) => c,
            Err(e) => {
                return Err(e);
            },
        };
        let mut out = String::new();
        push_str(&mut out, "    fn run_default(input_name: &str, config: &");
        push_str(&mut out, self.abi.as_str());
        push_str(&mut out, "::RunConfig, logger: &mut dyn ");
        push_str(&mut out, self.abi.as_str());
        push_str(&mut out, "::SortLogger<usize>) {\n        ");
        push_str(&mut out, code.run_default_body.as_str());
        push_str(&mut out, "\n    }\n    fn run_correct() {\n        ");
        push_str(&mut out, code.run_correct_body.as_str());
        push_str(&mut out, "\n    }\n    #[linkme::distributed_slice(");
        push_str(&mut out, self.abi.as_str());
        push_str(&mut out, "::ALGORITHMS)]\n    #[allow(non_upper_case_globals)]\n    static ENTRY: ");
        push_str(&mut out, self.abi.as_str());
        push_str(&mut out, "::AlgorithmEntry = ");
        push_str(&mut out, self.abi.as_str());
        push_str(&mut out, "::AlgorithmEntry {\n        name: ");
        push_str(&mut out, debug_quoted(ctx.label).as_str());
        push_str(&mut out, ",\n        category: ");
        push_str(&mut out, self.abi.as_str());
        push_str(&mut out, "::Category::");
        push_str(&mut out, category);
        push_str(&mut out, ",\n        worst: <Ty as ");
        push_str(&mut out, self.abi.as_str());
        push_str(&mut out, "::HasTimeBounds>::WORST,\n        best: <Ty as ");
        push_str(&mut out, self.abi.as_str());
        push_str(&mut out, "::HasTimeBounds>::BEST,\n        average: <Ty as ");
        push_str(&mut out, self.abi.as_str());
        push_str(&mut out, "::HasTimeBounds>::AVERAGE,\n        space: <Ty as ");
        push_str(&mut out, self.abi.as_str());
        push_str(&mut out, "::HasSpace>::SPACE,\n        stable: <Ty as ");
        push_str(&mut out, self.abi.as_str());
        push_str(&mut out, "::HasStability>::STABLE,\n        adaptive: ");
        push_str(&mut out, bool_text(ctx.adaptive).as_str());
        push_str(&mut out, ",\n        max_input_size: ");
        push_str(&mut out, max_input_text(ctx.max_input).as_str());
        push_str(&mut out, ",\n        run_with_input: run_default,\n        run_correctness: run_correct,\n    };\n    #[ctor::ctor]\n    #[allow(non_snake_case)]\n    fn register() { ");
        push_str(&mut out, self.abi.as_str());
        push_str(&mut out, "::register_sort_variant(");
        push_str(&mut out, debug_quoted(ctx.label).as_str());
        push_str(&mut out, ", &[");
        push_str(&mut out, debug_quoted(menu_root(category)).as_str());
        push_str(&mut out, "], &[]); }\n");
        Ok(out)
    }
}

} // verus!
