//! The array-domain emit backend against the live runtime ABI: for each
//! solved sort (or quick-select), the registration block spliced inside the
//! compiler's `mod __entry_N { … pub type Ty = …; <HERE> }`. The emitted code
//! dispatches through the type's inherent `sort`, registers an
//! `AlgorithmEntry` with complexity inherited from `Ty`, and places the entry
//! in the picker under its catalog menu path with its faceted axes.
use vstd::prelude::*;
use crate::text::{copy_string, debug_quoted, debug_str, decimal, owned, push_decimal, push_str,
    str_eq, string_views};
use crate::resolve::{axes_view, axis_view, AxisNode, GAxis};

verus! {

/// Per-entry facts a backend needs to render a registration; the resolved
/// type is in scope at the emission site as the alias `Ty`.
pub struct EntryCtx<'a> {
    /// The resolved label: the entry's stable, human-readable name.
    pub label: &'a str,
    /// The catalog `category` of the root component, opaque to the compiler.
    pub category: Option<&'a str>,
    /// The catalog `adaptive` flag.
    pub adaptive: bool,
    /// The catalog `nondeterministic` flag.
    pub nondeterministic: bool,
    /// The catalog `max_input` bound, if any.
    pub max_input: Option<usize>,
    /// Structural faceted axes, pre-order.
    pub axes: &'a [AxisNode],
    /// The catalog `menu` sub-path beneath the category root.
    pub menu: &'a [String],
    /// The label with each axis rewritten to a `{Role}` hole.
    pub label_template: &'a str,
}

/// How a domain turns a resolved type into a registry entry: the Rust source
/// of the entry module's interior, indented one level and newline-terminated.
pub trait EmitBackend {
    fn entry_body(&self, ctx: &EntryCtx) -> Result<String, String>;
}

/// The crate paths the emitted code targets.
#[derive(Debug)]
pub struct AbiPaths {
    pub core: String,
    pub traits: String,
    pub nav: String,
    pub logger: String,
    pub suites: String,
}

impl Default for AbiPaths {
    fn default() -> (r: Self)
        ensures
            r.core@ == "array_vis_bench_core::bench_registry"@,
            r.traits@ == "array_vis_bench_traits"@,
            r.nav@ == "sort_registry_core"@,
            r.logger@ == "sort_logger"@,
            r.suites@ == "array_vis_bench_core::suites"@,
    {
        AbiPaths {
            core: owned("array_vis_bench_core::bench_registry"),
            traits: owned("array_vis_bench_traits"),
            nav: owned("sort_registry_core"),
            logger: owned("sort_logger"),
            suites: owned("array_vis_bench_core::suites"),
        }
    }
}

/// The live-ABI emit backend.
#[derive(Debug)]
pub struct ArrayBackend {
    pub paths: AbiPaths,
}

impl Default for ArrayBackend {
    fn default() -> (r: Self)
        ensures
            r.paths.core@ == "array_vis_bench_core::bench_registry"@,
            r.paths.traits@ == "array_vis_bench_traits"@,
            r.paths.nav@ == "sort_registry_core"@,
            r.paths.logger@ == "sort_logger"@,
            r.paths.suites@ == "array_vis_bench_core::suites"@,
    {
        ArrayBackend { paths: AbiPaths::default() }
    }
}

// ───────────────────────────── the emitted text ─────────────────────────────

pub open spec fn bool_s(b: bool) -> Seq<char> {
    if b {
        "true"@
    } else {
        "false"@
    }
}

pub open spec fn max_input_s(m: Option<usize>) -> Seq<char> {
    match m {
        Some(n) => "Some("@ + decimal(n as nat) + ")"@,
        None => "None"@,
    }
}

/// The correctness-battery cap a bounded entry registers.
pub open spec fn cap_static_s(core: Seq<char>, m: Option<usize>) -> Seq<char> {
    match m {
        Some(n) => "    #[linkme::distributed_slice("@ + core
            + "::SORT_TEST_CAPS)]\n    #[allow(non_upper_case_globals)]\n    static TEST_CAP: (&'static str, usize) = (NAME, "@
            + decimal(n as nat) + ");\n"@,
        None => seq![],
    }
}

/// The determinism-exemption a nondeterministic entry registers.
pub open spec fn nondet_static_s(core: Seq<char>, nd: bool) -> Seq<char> {
    if nd {
        "    #[linkme::distributed_slice("@ + core
            + "::NONDETERMINISTIC_ALGOS)]\n    #[allow(non_upper_case_globals)]\n    static NONDET: &'static str = NAME;\n"@
    } else {
        seq![]
    }
}

/// The picker path literal: the category root, then each menu segment quoted.
pub open spec fn menu_lit_s(root: Seq<char>, menu: Seq<Seq<char>>) -> Seq<char>
    decreases menu.len(),
{
    if menu.len() == 0 {
        root
    } else {
        menu_lit_s(root, menu.drop_last()) + ", "@ + debug_str(menu.last())
    }
}

/// The axes literal: `(role, value, path), ` per axis, each quoted.
pub open spec fn axes_lit_s(axes: Seq<GAxis>) -> Seq<char>
    decreases axes.len(),
{
    if axes.len() == 0 {
        seq![]
    } else {
        axes_lit_s(axes.drop_last()) + "("@ + debug_str(axes.last().role) + ", "@ + debug_str(
            axes.last().value,
        ) + ", "@ + debug_str(axes.last().path) + "), "@
    }
}

/// The `Category::Sort` registration body.
pub open spec fn sort_body_s(p: AbiPaths, c: EntryCtx) -> Seq<char> {
    "    const NAME: &str = "@ + debug_str(c.label@) + ";\n    fn sort_noop(arr: &mut [usize], logger: &mut "@ + p.logger@ + "::NoOpLogger) {\n        <Ty>::sort(arr, logger);\n    }\n    fn sort_dyn(arr: &mut [usize], logger: &mut dyn "@ + p.logger@ + "::SortLogger<usize>) {\n        <Ty>::sort(arr, logger);\n    }\n    fn run_default(input_name: &str, config: &"@ + p.core@ + "::RunConfig, logger: &mut dyn "@ + p.logger@ + "::SortLogger<usize>) {\n        "@ + p.core@ + "::run_sort_with_input(input_name, config, sort_dyn, logger);\n    }\n    fn run_correct() {\n        "@ + p.core@ + "::correctness::sort_battery(sort_noop, NAME);\n        "@ + p.core@ + "::correctness::sort_stability_battery(sort_noop, NAME, <Ty as "@ + p.traits@ + "::composable::HasStability>::STABLE);\n    }\n"@ + cap_static_s(p.core@, c.max_input) + nondet_static_s(p.core@, c.nondeterministic) + "    #[linkme::distributed_slice("@ + p.core@ + "::ALGORITHMS)]\n    #[allow(non_upper_case_globals)]\n    static ENTRY: "@ + p.core@ + "::AlgorithmEntry = "@ + p.core@ + "::AlgorithmEntry {\n        name: NAME,\n        category: "@ + p.core@ + "::Category::Sort,\n        worst: <Ty as "@ + p.traits@ + "::composable::HasTimeBounds>::WORST,\n        best: <Ty as "@ + p.traits@ + "::composable::HasTimeBounds>::BEST,\n        average: <Ty as "@ + p.traits@ + "::composable::HasTimeBounds>::AVERAGE,\n        space: <Ty as "@ + p.traits@ + "::composable::HasSpace>::SPACE,\n        stable: <Ty as "@ + p.traits@ + "::composable::HasStability>::STABLE,\n        adaptive: "@ + bool_s(c.adaptive) + ",\n        max_input_size: "@ + max_input_s(c.max_input) + ",\n        run_with_input: run_default,\n        run_correctness: run_correct,\n    };\n    #[ctor::ctor]\n    #[allow(non_snake_case)]\n    fn register() { "@ + p.nav@ + "::register_sort_variant_structured(NAME, &["@ + menu_lit_s("\"sorts\""@, string_views(c.menu@)) + "], &["@ + axes_lit_s(axes_view(c.axes@)) + "], "@ + debug_str(c.label_template@) + "); }\n"@
}

/// The `Category::QuickSelect` registration body.
pub open spec fn quick_select_body_s(p: AbiPaths, c: EntryCtx) -> Seq<char> {
    "    const NAME: &str = "@ + debug_str(c.label@) + ";\n    fn select_dyn(arr: &mut [usize], target: usize, logger: &mut dyn "@ + p.logger@ + "::SortLogger<usize>) {\n        if arr.is_empty() { return; }\n        let t = target.min(arr.len() - 1);\n        <Ty as "@ + p.traits@ + "::QuickSelect>::select(arr, logger, t);\n    }\n    fn run_default(input_name: &str, config: &"@ + p.core@ + "::RunConfig, logger: &mut dyn "@ + p.logger@ + "::SortLogger<usize>) {\n        "@ + p.core@ + "::run_quick_select_with_input(input_name, config, select_dyn, logger);\n    }\n    fn run_correct() {\n        <"@ + p.suites@ + "::SelectSuite<Ty> as "@ + p.suites@ + "::CorrectnessSuite>::verify(NAME);\n    }\n"@ + cap_static_s(p.core@, c.max_input) + "    #[linkme::distributed_slice("@ + p.core@ + "::ALGORITHMS)]\n    #[allow(non_upper_case_globals)]\n    static ENTRY: "@ + p.core@ + "::AlgorithmEntry = "@ + p.core@ + "::AlgorithmEntry {\n        name: NAME,\n        category: "@ + p.core@ + "::Category::QuickSelect,\n        worst: <Ty as "@ + p.traits@ + "::composable::HasTimeBounds>::WORST,\n        best: <Ty as "@ + p.traits@ + "::composable::HasTimeBounds>::BEST,\n        average: <Ty as "@ + p.traits@ + "::composable::HasTimeBounds>::AVERAGE,\n        space: <Ty as "@ + p.traits@ + "::composable::HasSpace>::SPACE,\n        stable: <Ty as "@ + p.traits@ + "::composable::HasStability>::STABLE,\n        adaptive: "@ + bool_s(c.adaptive) + ",\n        max_input_size: "@ + max_input_s(c.max_input) + ",\n        run_with_input: run_default,\n        run_correctness: run_correct,\n    };\n    #[ctor::ctor]\n    #[allow(non_snake_case)]\n    fn register() { "@ + p.nav@ + "::register_sort_variant_structured(NAME, &["@ + menu_lit_s("\"quick selects\""@, string_views(c.menu@)) + "], &["@ + axes_lit_s(axes_view(c.axes@)) + "], "@ + debug_str(c.label_template@) + "); }\n"@
}

/// The category a context names, `Sort` when it names none.
pub open spec fn category_s(c: EntryCtx) -> Seq<char> {
    match c.category {
        Some(s) => s@,
        None => "Sort"@,
    }
}

pub fn bool_text(b: bool) -> (r: String)
    ensures
        r@ == bool_s(b),
{
    if b {
        owned("true")
    } else {
        owned("false")
    }
}

pub fn max_input_text(m: Option<usize>) -> (r: String)
    ensures
        r@ == max_input_s(m),
{
    match m {
        Some(n) => {
            let mut out = owned("Some(");
            push_decimal(&mut out, n as u128);
            push_str(&mut out, ")");
            out
        },
        None => owned("None"),
    }
}

fn cap_static(core: &String, m: Option<usize>) -> (r: String)
    ensures
        r@ == cap_static_s(core@, m),
{
    match m {
        Some(n) => {
            let mut out = owned("    #[linkme::distributed_slice(");
            push_str(&mut out, core.as_str());
            push_str(
                &mut out,
                "::SORT_TEST_CAPS)]\n    #[allow(non_upper_case_globals)]\n    static TEST_CAP: (&'static str, usize) = (NAME, ",
            );
            push_decimal(&mut out, n as u128);
            push_str(&mut out, ");\n");
            out
        },
        None => String::new(),
    }
}

fn nondet_static(core: &String, nd: bool) -> (r: String)
    ensures
        r@ == nondet_static_s(core@, nd),
{
    if nd {
        let mut out = owned("    #[linkme::distributed_slice(");
        push_str(&mut out, core.as_str());
        push_str(
            &mut out,
            "::NONDETERMINISTIC_ALGOS)]\n    #[allow(non_upper_case_globals)]\n    static NONDET: &'static str = NAME;\n",
        );
        out
    } else {
        String::new()
    }
}

fn menu_lit(root: &str, menu: &[String]) -> (r: String)
    ensures
        r@ == menu_lit_s(root@, string_views(menu@)),
{
    let mut out = owned(root);
    let mut i: usize = 0;
    assert(string_views(menu@).take(0) =~= seq![]);
    while i < menu.len()
        invariant
            i <= menu@.len(),
            out@ == menu_lit_s(root@, string_views(menu@).take(i as int)),
        decreases menu@.len() - i,
    {
        let ghost sv = string_views(menu@);
        assert(sv.take(i + 1).drop_last() =~= sv.take(i as int));
        assert(sv.take(i + 1).last() == menu@[i as int]@);
        push_str(&mut out, ", ");
        push_str(&mut out, debug_quoted(menu[i].as_str()).as_str());
        i = i + 1;
    }
    assert(string_views(menu@).take(i as int) =~= string_views(menu@));
    out
}

fn axes_lit(axes: &[AxisNode]) -> (r: String)
    ensures
        r@ == axes_lit_s(axes_view(axes@)),
{
    let mut out = String::new();
    let mut i: usize = 0;
    assert(axes_view(axes@).take(0) =~= seq![]);
    while i < axes.len()
        invariant
            i <= axes@.len(),
            out@ == axes_lit_s(axes_view(axes@).take(i as int)),
        decreases axes@.len() - i,
    {
        let ghost av = axes_view(axes@);
        assert(av.take(i + 1).drop_last() =~= av.take(i as int));
        assert(av.take(i + 1).last() == axis_view(axes@[i as int]));
        push_str(&mut out, "(");
        push_str(&mut out, debug_quoted(axes[i].role.as_str()).as_str());
        push_str(&mut out, ", ");
        push_str(&mut out, debug_quoted(axes[i].value.as_str()).as_str());
        push_str(&mut out, ", ");
        push_str(&mut out, debug_quoted(axes[i].path.as_str()).as_str());
        push_str(&mut out, "), ");
        i = i + 1;
    }
    assert(axes_view(axes@).take(i as int) =~= axes_view(axes@));
    out
}

impl EmitBackend for ArrayBackend {
    /// A component with no declared category is a `Sort`; `Sort` and
    /// `QuickSelect` have bodies, any other category is an error.
    fn entry_body(&self, ctx: &EntryCtx) -> (r: Result<String, String>)
        ensures
            category_s(*ctx) == "Sort"@ ==> r is Ok && r->Ok_0@ == sort_body_s(self.paths, *ctx),
            category_s(*ctx) == "QuickSelect"@ ==> r is Ok && r->Ok_0@ == quick_select_body_s(self.paths, *ctx),
            category_s(*ctx) != "Sort"@ && category_s(*ctx) != "QuickSelect"@ ==> r is Err,
            category_s(*ctx) != "Sort"@ && category_s(*ctx) != "QuickSelect"@ ==> (r matches Err(e) && e@
                == "spec_emit: no driver for category `"@ + category_s(*ctx)
                + "` yet — wired kinds are `Sort` and `QuickSelect`; Partition/Merge/Rotation/SmallSort (whose live contracts differ) come next, each as a `CorrectnessSuite` impl"@),
    {
        proof {
            reveal_strlit("Sort");
            reveal_strlit("QuickSelect");
            assert("Sort"@.len() != "QuickSelect"@.len());
        }
        let cat: &str = match ctx.category {
            Some(c) => c,
            None => "Sort",
        };
        if str_eq(cat, "Sort") {
            Ok(self.sort_entry_body(ctx))
        } else if str_eq(cat, "QuickSelect") {
            Ok(self.quick_select_entry_body(ctx))
        } else {
            let mut m = owned("spec_emit: no driver for category `");
            push_str(&mut m, cat);
            push_str(
                &mut m,
                "` yet — wired kinds are `Sort` and `QuickSelect`; Partition/Merge/Rotation/SmallSort (whose live contracts differ) come next, each as a `CorrectnessSuite` impl",
            );
            Err(m)
        }
    }
}

impl ArrayBackend {
    /// The `Category::Sort` registration body: two adapters over the inherent
    /// `sort`, the visualisation and correctness entry points, the
    /// `AlgorithmEntry` with inherited complexity, and the picker placement.
    pub fn sort_entry_body(&self, ctx: &EntryCtx) -> (r: String)
        ensures
            r@ == sort_body_s(self.paths, *ctx),
    {
        let mut out = String::new();
        push_str(&mut out, "    const NAME: &str = ");
        push_str(&mut out, debug_quoted(ctx.label).as_str());
        push_str(&mut out, ";\n    fn sort_noop(arr: &mut [usize], logger: &mut ");
        push_str(&mut out, self.paths.logger.as_str());
        push_str(&mut out, "::NoOpLogger) {\n        <Ty>::sort(arr, logger);\n    }\n    fn sort_dyn(arr: &mut [usize], logger: &mut dyn ");
        push_str(&mut out, self.paths.logger.as_str());
        push_str(&mut out, "::SortLogger<usize>) {\n        <Ty>::sort(arr, logger);\n    }\n    fn run_default(input_name: &str, config: &");
        push_str(&mut out, self.paths.core.as_str());
        push_str(&mut out, "::RunConfig, logger: &mut dyn ");
        push_str(&mut out, self.paths.logger.as_str());
        push_str(&mut out, "::SortLogger<usize>) {\n        ");
        push_str(&mut out, self.paths.core.as_str());
        push_str(&mut out, "::run_sort_with_input(input_name, config, sort_dyn, logger);\n    }\n    fn run_correct() {\n        ");
        push_str(&mut out, self.paths.core.as_str());
        push_str(&mut out, "::correctness::sort_battery(sort_noop, NAME);\n        ");
        push_str(&mut out, self.paths.core.as_str());
        push_str(&mut out, "::correctness::sort_stability_battery(sort_noop, NAME, <Ty as ");
        push_str(&mut out, self.paths.traits.as_str());
        push_str(&mut out, "::composable::HasStability>::STABLE);\n    }\n");
        push_str(&mut out, cap_static(&self.paths.core, ctx.max_input).as_str());
        push_str(&mut out, nondet_static(&self.paths.core, ctx.nondeterministic).as_str());
        push_str(&mut out, "    #[linkme::distributed_slice(");
        push_str(&mut out, self.paths.core.as_str());
        push_str(&mut out, "::ALGORITHMS)]\n    #[allow(non_upper_case_globals)]\n    static ENTRY: ");
        push_str(&mut out, self.paths.core.as_str());
        push_str(&mut out, "::AlgorithmEntry = ");
        push_str(&mut out, self.paths.core.as_str());
        push_str(&mut out, "::AlgorithmEntry {\n        name: NAME,\n        category: ");
        push_str(&mut out, self.paths.core.as_str());
        push_str(&mut out, "::Category::Sort,\n        worst: <Ty as ");
        push_str(&mut out, self.paths.traits.as_str());
        push_str(&mut out, "::composable::HasTimeBounds>::WORST,\n        best: <Ty as ");
        push_str(&mut out, self.paths.traits.as_str());
        push_str(&mut out, "::composable::HasTimeBounds>::BEST,\n        average: <Ty as ");
        push_str(&mut out, self.paths.traits.as_str());
        push_str(&mut out, "::composable::HasTimeBounds>::AVERAGE,\n        space: <Ty as ");
        push_str(&mut out, self.paths.traits.as_str());
        push_str(&mut out, "::composable::HasSpace>::SPACE,\n        stable: <Ty as ");
        push_str(&mut out, self.paths.traits.as_str());
        push_str(&mut out, "::composable::HasStability>::STABLE,\n        adaptive: ");
        push_str(&mut out, bool_text(ctx.adaptive).as_str());
        push_str(&mut out, ",\n        max_input_size: ");
        push_str(&mut out, max_input_text(ctx.max_input).as_str());
        push_str(&mut out, ",\n        run_with_input: run_default,\n        run_correctness: run_correct,\n    };\n    #[ctor::ctor]\n    #[allow(non_snake_case)]\n    fn register() { ");
        push_str(&mut out, self.paths.nav.as_str());
        push_str(&mut out, "::register_sort_variant_structured(NAME, &[");
        push_str(&mut out, menu_lit("\"sorts\"", ctx.menu).as_str());
        push_str(&mut out, "], &[");
        push_str(&mut out, axes_lit(ctx.axes).as_str());
        push_str(&mut out, "], ");
        push_str(&mut out, debug_quoted(ctx.label_template).as_str());
        push_str(&mut out, "); }\n");
        out
    }

    /// The `Category::QuickSelect` registration body, through the
    /// `QuickSelect` role trait and the per-kind correctness suite.
    pub fn quick_select_entry_body(&self, ctx: &EntryCtx) -> (r: String)
        ensures
            r@ == quick_select_body_s(self.paths, *ctx),
    {
        let mut out = String::new();
        push_str(&mut out, "    const NAME: &str = ");
        push_str(&mut out, debug_quoted(ctx.label).as_str());
        push_str(&mut out, ";\n    fn select_dyn(arr: &mut [usize], target: usize, logger: &mut dyn ");
        push_str(&mut out, self.paths.logger.as_str());
        push_str(&mut out, "::SortLogger<usize>) {\n        if arr.is_empty() { return; }\n        let t = target.min(arr.len() - 1);\n        <Ty as ");
        push_str(&mut out, self.paths.traits.as_str());
        push_str(&mut out, "::QuickSelect>::select(arr, logger, t);\n    }\n    fn run_default(input_name: &str, config: &");
        push_str(&mut out, self.paths.core.as_str());
        push_str(&mut out, "::RunConfig, logger: &mut dyn ");
        push_str(&mut out, self.paths.logger.as_str());
        push_str(&mut out, "::SortLogger<usize>) {\n        ");
        push_str(&mut out, self.paths.core.as_str());
        push_str(&mut out, "::run_quick_select_with_input(input_name, config, select_dyn, logger);\n    }\n    fn run_correct() {\n        <");
        push_str(&mut out, self.paths.suites.as_str());
        push_str(&mut out, "::SelectSuite<Ty> as ");
        push_str(&mut out, self.paths.suites.as_str());
        push_str(&mut out, "::CorrectnessSuite>::verify(NAME);\n    }\n");
        push_str(&mut out, cap_static(&self.paths.core, ctx.max_input).as_str());
        push_str(&mut out, "    #[linkme::distributed_slice(");
        push_str(&mut out, self.paths.core.as_str());
        push_str(&mut out, "::ALGORITHMS)]\n    #[allow(non_upper_case_globals)]\n    static ENTRY: ");
        push_str(&mut out, self.paths.core.as_str());
        push_str(&mut out, "::AlgorithmEntry = ");
        push_str(&mut out, self.paths.core.as_str());
        push_str(&mut out, "::AlgorithmEntry {\n        name: NAME,\n        category: ");
        push_str(&mut out, self.paths.core.as_str());
        push_str(&mut out, "::Category::QuickSelect,\n        worst: <Ty as ");
        push_str(&mut out, self.paths.traits.as_str());
        push_str(&mut out, "::composable::HasTimeBounds>::WORST,\n        best: <Ty as ");
        push_str(&mut out, self.paths.traits.as_str());
        push_str(&mut out, "::composable::HasTimeBounds>::BEST,\n        average: <Ty as ");
        push_str(&mut out, self.paths.traits.as_str());
        push_str(&mut out, "::composable::HasTimeBounds>::AVERAGE,\n        space: <Ty as ");
        push_str(&mut out, self.paths.traits.as_str());
        push_str(&mut out, "::composable::HasSpace>::SPACE,\n        stable: <Ty as ");
        push_str(&mut out, self.paths.traits.as_str());
        push_str(&mut out, "::composable::HasStability>::STABLE,\n        adaptive: ");
        push_str(&mut out, bool_text(ctx.adaptive).as_str());
        push_str(&mut out, ",\n        max_input_size: ");
        push_str(&mut out, max_input_text(ctx.max_input).as_str());
        push_str(&mut out, ",\n        run_with_input: run_default,\n        run_correctness: run_correct,\n    };\n    #[ctor::ctor]\n    #[allow(non_snake_case)]\n    fn register() { ");
        push_str(&mut out, self.paths.nav.as_str());
        push_str(&mut out, "::register_sort_variant_structured(NAME, &[");
        push_str(&mut out, menu_lit("\"quick selects\"", ctx.menu).as_str());
        push_str(&mut out, "], &[");
        push_str(&mut out, axes_lit(ctx.axes).as_str());
        push_str(&mut out, "], ");
        push_str(&mut out, debug_quoted(ctx.label_template).as_str());
        push_str(&mut out, "); }\n");
        out
    }
}

} // verus!
