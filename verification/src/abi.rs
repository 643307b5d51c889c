//! The runtime surface generated code targets: the event logger sorts are
//! written against, the complexity annotations entries inherit, the
//! per-category algorithm contracts, the run configuration, and the inputs the
//! visualisation path builds from it.
use vstd::prelude::*;
use crate::text::{decimal, owned, push_decimal, push_str, string_views, lemma_string_views_push};

verus! {

/// One event a sort reports: an array created, a write, a comparison of two
/// positions, a swap of two positions.
pub ghost enum LogEvent<T> {
    CreateArray(nat),
    Write(nat, T),
    Compare(nat, nat),
    Swap(nat, nat),
}

/// The event stream a sort drives: array creation, writes, comparisons and
/// swaps. A logger either keeps every event it is given, in order, or none.
pub trait SortLogger<T> {
    /// The events this logger holds, oldest first (none, unless the logger
    /// says otherwise).
    open spec fn kept(&self) -> Seq<LogEvent<T>> {
        seq![]
    }

    /// Whether this logger holds the events it is given (not, unless the
    /// logger says otherwise).
    open spec fn keeps(&self) -> bool {
        false
    }

    fn create_array(&mut self, len: usize)
        ensures
            logged(old(self).keeps(), old(self).kept(), final(self).keeps(), final(self).kept(), seq![LogEvent::CreateArray(len as nat)]),
    ;

    fn write(&mut self, index: usize, value: T)
        ensures
            logged(old(self).keeps(), old(self).kept(), final(self).keeps(), final(self).kept(), seq![LogEvent::Write(index as nat, value)]),
    ;

    fn compare(&mut self, i: usize, ii: usize)
        ensures
            logged(old(self).keeps(), old(self).kept(), final(self).keeps(), final(self).kept(), seq![LogEvent::Compare(i as nat, ii as nat)]),
    ;

    fn swap(&mut self, i: usize, ii: usize)
        ensures
            logged(old(self).keeps(), old(self).kept(), final(self).keeps(), final(self).kept(), seq![LogEvent::Swap(i as nat, ii as nat)]),
    ;
}

/// A logger went from (`keeps0`, `kept0`) to (`keeps1`, `kept1`) on being
/// given `es`: it still keeps or drops as before, and a keeping logger now
/// also holds `es`.
pub open spec fn logged<T>(
    keeps0: bool,
    kept0: Seq<LogEvent<T>>,
    keeps1: bool,
    kept1: Seq<LogEvent<T>>,
    es: Seq<LogEvent<T>>,
) -> bool {
    &&& keeps1 == keeps0
    &&& kept1 == if keeps0 { kept0 + es } else { kept0 }
}

/// Being given `a` and then `b` is being given `a + b`.
pub proof fn lemma_logged_then<T>(
    k0: bool,
    e0: Seq<LogEvent<T>>,
    k1: bool,
    e1: Seq<LogEvent<T>>,
    k2: bool,
    e2: Seq<LogEvent<T>>,
    a: Seq<LogEvent<T>>,
    b: Seq<LogEvent<T>>,
)
    requires
        logged(k0, e0, k1, e1, a),
        logged(k1, e1, k2, e2, b),
    ensures
        logged(k0, e0, k2, e2, a + b),
{
    if k0 {
        assert(e0 + a + b =~= e0 + (a + b));
    }
}

/// The performance-path logger: every event is dropped.
pub struct NoOpLogger;

impl<T> SortLogger<T> for NoOpLogger {
    fn create_array(&mut self, _len: usize) {
    }

    fn write(&mut self, _index: usize, _value: T) {
    }

    fn compare(&mut self, _i: usize, _ii: usize) {
    }

    fn swap(&mut self, _i: usize, _ii: usize) {
    }
}

/// The visualiser-side logger: records the event stream as text.
pub struct CaptureLogger {
    pub events: Vec<String>,
    pub log: Ghost<Seq<LogEvent<usize>>>,
}

impl Default for CaptureLogger {
    fn default() -> (r: CaptureLogger)
        ensures
            r.events@.len() == 0,
            r.log@ == Seq::<LogEvent<usize>>::empty(),
    {
        CaptureLogger { events: Vec::new(), log: Ghost(Seq::empty()) }
    }
}

impl SortLogger<usize> for CaptureLogger {
    open spec fn kept(&self) -> Seq<LogEvent<usize>> {
        self.log@
    }

    open spec fn keeps(&self) -> bool {
        true
    }

    fn create_array(&mut self, len: usize)
        ensures
            string_views(final(self).events@) == string_views(old(self).events@).push(
                "create "@ + decimal(len as nat),
            ),
    {
        let mut e = owned("create ");
        push_decimal(&mut e, len as u128);
        proof {
            lemma_string_views_push(self.events@, e);
        }
        self.events.push(e);
        proof {
            self.log@ = self.log@.push(LogEvent::CreateArray(len as nat));
            assert(self.log@ =~= old(self).log@ + seq![LogEvent::CreateArray(len as nat)]);
        }
    }

    fn write(&mut self, index: usize, value: usize)
        ensures
            string_views(final(self).events@) == string_views(old(self).events@).push(
                "write "@ + decimal(index as nat) + " "@ + decimal(value as nat),
            ),
    {
        let mut e = owned("write ");
        push_decimal(&mut e, index as u128);
        push_str(&mut e, " ");
        push_decimal(&mut e, value as u128);
        proof {
            lemma_string_views_push(self.events@, e);
        }
        self.events.push(e);
        proof {
            self.log@ = self.log@.push(LogEvent::Write(index as nat, value));
            assert(self.log@ =~= old(self).log@ + seq![LogEvent::Write(index as nat, value)]);
        }
    }

    fn compare(&mut self, i: usize, ii: usize)
        ensures
            string_views(final(self).events@) == string_views(old(self).events@).push(
                "cmp "@ + decimal(i as nat) + " "@ + decimal(ii as nat),
            ),
    {
        let mut e = owned("cmp ");
        push_decimal(&mut e, i as u128);
        push_str(&mut e, " ");
        push_decimal(&mut e, ii as u128);
        proof {
            lemma_string_views_push(self.events@, e);
        }
        self.events.push(e);
        proof {
            self.log@ = self.log@.push(LogEvent::Compare(i as nat, ii as nat));
            assert(self.log@ =~= old(self).log@ + seq![LogEvent::Compare(i as nat, ii as nat)]);
        }
    }

    fn swap(&mut self, i: usize, ii: usize)
        ensures
            string_views(final(self).events@) == string_views(old(self).events@).push(
                "swap "@ + decimal(i as nat) + " "@ + decimal(ii as nat),
            ),
    {
        let mut e = owned("swap ");
        push_decimal(&mut e, i as u128);
        push_str(&mut e, " ");
        push_decimal(&mut e, ii as u128);
        proof {
            lemma_string_views_push(self.events@, e);
        }
        self.events.push(e);
        proof {
            self.log@ = self.log@.push(LogEvent::Swap(i as nat, ii as nat));
            assert(self.log@ =~= old(self).log@ + seq![LogEvent::Swap(i as nat, ii as nat)]);
        }
    }
}

/// `parts` joined with `/` between each two.
pub open spec fn join_slash(parts: Seq<Seq<char>>) -> Seq<char>
    decreases parts.len(),
{
    if parts.len() == 0 {
        seq![]
    } else if parts.len() == 1 {
        parts[0]
    } else {
        join_slash(parts.drop_last()) + "/"@ + parts.last()
    }
}

/// The picker-menu entry of `name` under `path`: the path's parts joined by
/// `/`, then `/` and the name.
pub fn menu_entry(name: &str, path: &[&str]) -> (r: String)
    ensures
        r@ == join_slash(path@.map_values(|p: &str| p@)) + "/"@ + name@,
{
    let ghost parts = path@.map_values(|p: &str| p@);
    let mut m = owned("");
    proof {
        reveal_strlit("");
    }
    let mut i: usize = 0;
    assert(parts.take(0) =~= seq![]);
    while i < path.len()
        invariant
            i <= path@.len(),
            parts == path@.map_values(|p: &str| p@),
            m@ == join_slash(parts.take(i as int)),
        decreases path@.len() - i,
    {
        let ghost before = parts.take(i as int);
        assert(parts.take(i + 1).drop_last() =~= before);
        if i > 0 {
            push_str(&mut m, "/");
        }
        push_str(&mut m, path[i]);
        proof {
            if i == 0 {
                assert(m@ =~= parts.take(1)[0]);
            }
        }
        i = i + 1;
    }
    assert(parts.take(i as int) =~= parts);
    push_str(&mut m, "/");
    push_str(&mut m, name);
    m
}

/// An asymptotic bound, as its big-O text.
#[derive(Clone, Copy, Debug, PartialEq, Eq)]
pub struct Complexity(pub &'static str);

impl Complexity {
    /// The bound nothing is known of.
    pub fn unknown() -> (r: Complexity)
        ensures
            r.0@ == "O(?)"@,
    {
        Complexity("O(?)")
    }

    pub fn from_str(s: &'static str) -> (r: Complexity)
        ensures
            r.0 == s,
    {
        Complexity(s)
    }
}

/// Time bounds a type declares (unknown unless overridden).
pub trait HasTimeBounds {
    fn worst() -> (r: Complexity)
        default_ensures
            r.0@ == "O(?)"@,
    {
        Complexity::unknown()
    }

    fn best() -> (r: Complexity)
        default_ensures
            call_ensures(Self::worst, (), r),
    {
        Self::worst()
    }

    fn average() -> (r: Complexity)
        default_ensures
            call_ensures(Self::worst, (), r),
    {
        Self::worst()
    }
}

/// The auxiliary space a type declares (unknown unless overridden).
pub trait HasSpace {
    fn space() -> (r: Complexity)
        default_ensures
            r.0@ == "O(?)"@,
    {
        Complexity::unknown()
    }
}

/// Whether a type sorts stably (not unless declared).
pub trait HasStability {
    fn stable() -> (r: bool)
        default_ensures
            !r,
    {
        false
    }
}

/// The composition contract every sort leaf is written against.
pub trait SortAlgo<T, U: ?Sized + SortLogger<T>> {
    fn sort(arr: &mut [T], logger: &mut U);
}

/// The kinds of registered algorithm.
#[derive(Clone, Copy, Debug, PartialEq, Eq, Structural)]
pub enum Category {
    Sort,
    Rotation,
    Partition,
    Merge,
    SmallSort,
    QuickSelect,
}

/// What a visualisation run is asked for: an input size and a seed.
#[derive(Clone, Copy, Debug, PartialEq, Eq, Structural)]
pub struct RunConfig {
    pub size: usize,
    pub seed: u64,
}

/// The `Partition` contract: partition around the value at `pivot_index`,
/// returning the pivot's final index.
pub trait Partitioner {
    fn partition(arr: &mut [usize], pivot_index: usize, logger: &mut dyn SortLogger<usize>) -> usize;
}

/// The `Merge` contract: `arr[..mid]` and `arr[mid..]` are each sorted; merge
/// them in place.
pub trait Merger {
    fn merge(arr: &mut [usize], mid: usize, logger: &mut dyn SortLogger<usize>);
}

/// The `Rotation` contract: rotate `arr` left by `mid`.
pub trait Rotator {
    fn rotate(arr: &mut [usize], mid: usize, logger: &mut dyn SortLogger<usize>);
}

/// The `i`-th element of the input a run builds: a multiplicative hash of
/// the position mixed with the seed, reduced below the size (at least one).
pub open spec fn input_elem(config: RunConfig, i: usize) -> usize {
    let n: usize = if config.size >= 1 { config.size } else { 1 };
    ((vstd::wrapping::usize_specs::wrapping_mul(i, 2_654_435_761usize) ^ (config.seed as usize))
        % n) as usize
}

/// The input every run builds from its configuration.
pub fn run_input(config: &RunConfig) -> (r: Vec<usize>)
    ensures
        r@.len() == config.size,
        forall|i: int| 0 <= i < config.size ==> r@[i] == input_elem(*config, i as usize),
{
    let n: usize = if config.size >= 1 {
        config.size
    } else {
        1
    };
    let mut arr: Vec<usize> = Vec::new();
    let mut i: usize = 0;
    while i < config.size
        invariant
            i <= config.size,
            n == if config.size >= 1 { config.size } else { 1 },
            arr@.len() == i,
            forall|k: int| 0 <= k < i ==> arr@[k] == input_elem(*config, k as usize),
        decreases config.size - i,
    {
        #[verifier::truncate]
        let s = config.seed as usize;
        let v = (i.wrapping_mul(2_654_435_761) ^ s) % n;
        arr.push(v);
        i = i + 1;
    }
    arr
}

} // verus!
