use vstd::prelude::*;
use vstd::string::*;

use crate::error::io_error_text;
use crate::text;
use crate::text::same_text;

verus! {

/// Alignment that raw allocators are asked for.
pub const ALIGNMENT: usize = 64;

/// Blocks in one embedding batch.
pub const EMBEDDING_BATCH_SIZE: usize = 8;

/// Bytes of one embedding: 1536 numbers of four bytes.
pub const EMBEDDING_BYTES: usize = 6_144;

/// Bytes of one large request.
pub const LARGE_REQUEST_BYTES: usize = 20_971_520;

/// Bytes of one handed-off block.
pub const HANDOFF_BYTES: usize = 256;

/// Request sizes of the same-thread workloads.
pub const SAME_THREAD_SIZES: [usize; 5] = [32, 64, 65, 4_096, 70_000];

/// Request sizes of one round of the mixed workload.
pub const MIXED_SIZES: [usize; 8] = [32, 64, 65, 128, 512, 4_096, 16_384, 70_000];

pub const EMBEDDING_ITERATIONS: usize = 200_000;

pub const MIXED_ITERATIONS: usize = 120_000;

pub const LARGE_PATH_ITERATIONS: usize = 1_200;

pub const LONG_LIVED_HANDOFF_ITERATIONS: usize = 80_000;

pub const LONG_LIVED_HANDOFF_4X_PAIRS: usize = 4;

pub const CONCURRENT_LARGE_4X_THREADS: usize = 4;

pub const CONCURRENT_LARGE_ITERATIONS: usize = 1_200;

/// Runs before the measured ones.
pub const WARMUP_SAMPLES: usize = 3;

/// Measured runs.
pub const MEASURE_SAMPLES: usize = 9;

pub const DEFAULT_FLAMEGRAPH_REPETITIONS: usize = 400;

pub const DEFAULT_FLAMEGRAPH_ALLOCATOR: AllocatorKind = AllocatorKind::Orthotope;

pub const DEFAULT_FLAMEGRAPH_WORKLOAD: &'static str = "mixed_size_churn";

/// The allocators that can be measured.
#[derive(Clone, Copy, Debug, PartialEq, Eq, Structural)]
pub enum AllocatorKind {
    Orthotope,
    System,
    MiMalloc,
    Jemalloc,
}

impl AllocatorKind {
    /// All allocators, in the order in which they are measured.
    pub const ALL: [Self; 4] = [
        AllocatorKind::Orthotope,
        AllocatorKind::System,
        AllocatorKind::MiMalloc,
        AllocatorKind::Jemalloc,
    ];

    /// The allocator's name.
    pub open spec fn label(self) -> &'static str {
        match self {
            AllocatorKind::Orthotope => "Orthotope",
            AllocatorKind::System => "System",
            AllocatorKind::MiMalloc => "mimalloc",
            AllocatorKind::Jemalloc => "jemalloc",
        }
    }

    /// Returns the allocator's name.
    #[must_use]
    pub fn name(self) -> (name: &'static str)
        ensures
            name == self.label(),
    {
        match self {
            AllocatorKind::Orthotope => "Orthotope",
            AllocatorKind::System => "System",
            AllocatorKind::MiMalloc => "mimalloc",
            AllocatorKind::Jemalloc => "jemalloc",
        }
    }

    /// The allocator that `value` names, in either spelling.
    pub open spec fn named(value: Seq<char>) -> Option<Self> {
        if value == "Orthotope"@ || value == "orthotope"@ {
            Some(AllocatorKind::Orthotope)
        } else if value == "System"@ || value == "system"@ {
            Some(AllocatorKind::System)
        } else if value == "mimalloc"@ || value == "MiMalloc"@ {
            Some(AllocatorKind::MiMalloc)
        } else if value == "jemalloc"@ || value == "Jemalloc"@ {
            Some(AllocatorKind::Jemalloc)
        } else {
            None
        }
    }

    /// Parses an allocator's name.
    #[must_use]
    pub fn parse(value: &str) -> (kind: Option<Self>)
        ensures
            kind == Self::named(value@),
    {
        if same_text(value, "Orthotope") || same_text(value, "orthotope") {
            Some(AllocatorKind::Orthotope)
        } else if same_text(value, "System") || same_text(value, "system") {
            Some(AllocatorKind::System)
        } else if same_text(value, "mimalloc") || same_text(value, "MiMalloc") {
            Some(AllocatorKind::MiMalloc)
        } else if same_text(value, "jemalloc") || same_text(value, "Jemalloc") {
            Some(AllocatorKind::Jemalloc)
        } else {
            None
        }
    }

    /// Law: every allocator is parsed back from its own name.
    pub proof fn names_parse_back(self)
        ensures
            Self::named(self.label()@) == Some(self),
    {
        reveal_strlit("Orthotope");
        reveal_strlit("orthotope");
        reveal_strlit("System");
        reveal_strlit("system");
        reveal_strlit("mimalloc");
        reveal_strlit("MiMalloc");
        reveal_strlit("jemalloc");
        reveal_strlit("Jemalloc");
        assert("Orthotope"@[0] == 'O' && "orthotope"@[0] == 'o');
        assert("System"@[0] == 'S' && "system"@[0] == 's');
        assert("mimalloc"@[0] == 'm' && "MiMalloc"@[0] == 'M');
        assert("jemalloc"@[0] == 'j' && "Jemalloc"@[0] == 'J');
    }
}

/// The unit of a result.
#[derive(Clone, Copy, Debug, PartialEq, Eq, Structural)]
pub enum TimeUnit {
    Nanoseconds,
    Microseconds,
}

impl TimeUnit {
    /// The unit's sign.
    pub open spec fn sign(self) -> &'static str {
        match self {
            TimeUnit::Nanoseconds => "ns",
            TimeUnit::Microseconds => "us",
        }
    }

    /// Returns the unit's sign.
    #[must_use]
    pub fn suffix(self) -> (suffix: &'static str)
        ensures
            suffix == self.sign(),
    {
        match self {
            TimeUnit::Nanoseconds => "ns",
            TimeUnit::Microseconds => "us",
        }
    }
}

/// What a workload does.
#[derive(Clone, Copy, Debug, PartialEq, Eq, Structural)]
pub enum WorkloadKind {
    SameThreadSmallChurn(usize),
    EmbeddingBatch,
    MixedSizeChurn,
    LargePath,
    ConcurrentLarge4x,
    LongLivedHandoff,
    LongLivedHandoff4x,
}

/// A workload with its name, the number of operations it counts as, and its unit.
#[derive(Clone, Copy, Debug)]
pub struct Workload {
    pub name: &'static str,
    pub operations: usize,
    pub unit: TimeUnit,
    pub kind: WorkloadKind,
}

/// Failures of a benchmark run.
#[derive(Debug)]
pub enum BenchError {
    Alloc(String),
    Thread(String),
    Io(std::io::Error),
    Config(String),
}

impl BenchError {
    /// Describes the failure in words.
    #[must_use]
    pub fn message(&self) -> (message: String)
        ensures
            match self {
                BenchError::Alloc(text) => message@ == text@,
                BenchError::Thread(text) => message@ == text@,
                BenchError::Config(text) => message@ == text@,
                BenchError::Io(_) => true,
            },
    {
        match self {
            BenchError::Alloc(text) => text.clone(),
            BenchError::Thread(text) => text.clone(),
            BenchError::Config(text) => text.clone(),
            BenchError::Io(error) => io_error_text(error),
        }
    }
}

impl From<std::io::Error> for BenchError {
    fn from(value: std::io::Error) -> (error: Self) {
        BenchError::Io(value)
    }
}

impl vstd::std_specs::convert::FromSpecImpl<std::io::Error> for BenchError {
    open spec fn obeys_from_spec() -> bool {
        true
    }

    open spec fn from_spec(value: std::io::Error) -> Self {
        BenchError::Io(value)
    }
}

/// The rounds of a same-thread workload: fewer for larger requests.
pub open spec fn same_thread_rounds(size: usize) -> usize {
    if size <= 64 {
        6_000_000
    } else if size <= 4_096 {
        3_000_000
    } else {
        600_000
    }
}

/// Returns the rounds of a same-thread workload.
#[must_use]
pub fn same_thread_iterations(size: usize) -> (iterations: usize)
    ensures
        iterations == same_thread_rounds(size),
{
    if size <= 64 {
        6_000_000
    } else if size <= 4_096 {
        3_000_000
    } else {
        600_000
    }
}

/// A same-thread workload.
pub open spec fn same_thread_workload(name: &'static str, size: usize) -> Workload {
    Workload {
        name,
        operations: same_thread_rounds(size),
        unit: TimeUnit::Nanoseconds,
        kind: WorkloadKind::SameThreadSmallChurn(size),
    }
}

/// All workloads, in the order in which they are measured.
pub open spec fn table() -> Seq<Workload> {
    seq![
        same_thread_workload("same_thread_small_churn/32", 32),
        same_thread_workload("same_thread_small_churn/64", 64),
        same_thread_workload("same_thread_small_churn/65", 65),
        same_thread_workload("same_thread_small_churn/4096", 4_096),
        same_thread_workload("same_thread_small_churn/70000", 70_000),
        Workload {
            name: "embedding_batch",
            operations: EMBEDDING_ITERATIONS,
            unit: TimeUnit::Nanoseconds,
            kind: WorkloadKind::EmbeddingBatch,
        },
        Workload {
            name: "mixed_size_churn",
            operations: MIXED_ITERATIONS,
            unit: TimeUnit::Nanoseconds,
            kind: WorkloadKind::MixedSizeChurn,
        },
        Workload {
            name: "large_path",
            operations: LARGE_PATH_ITERATIONS,
            unit: TimeUnit::Microseconds,
            kind: WorkloadKind::LargePath,
        },
        Workload {
            name: "concurrent_large_4x",
            operations: CONCURRENT_LARGE_ITERATIONS,
            unit: TimeUnit::Microseconds,
            kind: WorkloadKind::ConcurrentLarge4x,
        },
        Workload {
            name: "long_lived_handoff",
            operations: LONG_LIVED_HANDOFF_ITERATIONS,
            unit: TimeUnit::Microseconds,
            kind: WorkloadKind::LongLivedHandoff,
        },
        Workload {
            name: "long_lived_handoff_4x",
            operations: LONG_LIVED_HANDOFF_ITERATIONS,
            unit: TimeUnit::Microseconds,
            kind: WorkloadKind::LongLivedHandoff4x,
        },
    ]
}

fn push_same_thread(workloads: &mut Vec<Workload>, name: &'static str, size: usize)
    ensures
        final(workloads)@ == old(workloads)@.push(same_thread_workload(name, size)),
{
    workloads.push(
        Workload {
            name,
            operations: same_thread_iterations(size),
            unit: TimeUnit::Nanoseconds,
            kind: WorkloadKind::SameThreadSmallChurn(size),
        },
    );
}

/// Builds the table of workloads.
#[must_use]
pub fn workload_table() -> (workloads: Vec<Workload>)
    ensures
        workloads@ == table(),
{
    let mut workloads: Vec<Workload> = Vec::new();
    push_same_thread(&mut workloads, "same_thread_small_churn/32", 32);
    push_same_thread(&mut workloads, "same_thread_small_churn/64", 64);
    push_same_thread(&mut workloads, "same_thread_small_churn/65", 65);
    push_same_thread(&mut workloads, "same_thread_small_churn/4096", 4_096);
    push_same_thread(&mut workloads, "same_thread_small_churn/70000", 70_000);
    workloads.push(
        Workload {
            name: "embedding_batch",
            operations: EMBEDDING_ITERATIONS,
            unit: TimeUnit::Nanoseconds,
            kind: WorkloadKind::EmbeddingBatch,
        },
    );
    workloads.push(
        Workload {
            name: "mixed_size_churn",
            operations: MIXED_ITERATIONS,
            unit: TimeUnit::Nanoseconds,
            kind: WorkloadKind::MixedSizeChurn,
        },
    );
    workloads.push(
        Workload {
            name: "large_path",
            operations: LARGE_PATH_ITERATIONS,
            unit: TimeUnit::Microseconds,
            kind: WorkloadKind::LargePath,
        },
    );
    workloads.push(
        Workload {
            name: "concurrent_large_4x",
            operations: CONCURRENT_LARGE_ITERATIONS,
            unit: TimeUnit::Microseconds,
            kind: WorkloadKind::ConcurrentLarge4x,
        },
    );
    workloads.push(
        Workload {
            name: "long_lived_handoff",
            operations: LONG_LIVED_HANDOFF_ITERATIONS,
            unit: TimeUnit::Microseconds,
            kind: WorkloadKind::LongLivedHandoff,
        },
    );
    workloads.push(
        Workload {
            name: "long_lived_handoff_4x",
            operations: LONG_LIVED_HANDOFF_ITERATIONS,
            unit: TimeUnit::Microseconds,
            kind: WorkloadKind::LongLivedHandoff4x,
        },
    );
    assert(workloads@ =~= table());
    workloads
}

/// Returns all workloads.
#[must_use]
pub fn workloads() -> (workloads: Vec<Workload>)
    ensures
        workloads@ == table(),
{
    workload_table()
}

/// Returns the names of all workloads.
#[must_use]
pub fn workload_names() -> (names: Vec<&'static str>)
    ensures
        names@.len() == table().len(),
        forall|index: int|
            0 <= index < table().len() ==> #[trigger] names@[index] == table()[index].name,
{
    let workloads: Vec<Workload> = workload_table();
    let mut names: Vec<&'static str> = Vec::new();
    let mut index: usize = 0;
    while index < workloads.len()
        invariant
            index <= workloads@.len(),
            names@.len() == index,
            forall|at: int| 0 <= at < index ==> #[trigger] names@[at] == workloads@[at].name,
        decreases workloads@.len() - index,
    {
        names.push(workloads[index].name);
        index = index + 1;
    }
    names
}

/// The first of `workloads` with this name.
pub open spec fn lookup(workloads: Seq<Workload>, name: Seq<char>) -> Option<Workload>
    decreases workloads.len(),
{
    if workloads.len() == 0 {
        None
    } else if workloads[0].name@ == name {
        Some(workloads[0])
    } else {
        lookup(workloads.skip(1), name)
    }
}

/// Finds the first workload with this name.
#[must_use]
pub fn workload_by_name(name: &str) -> (found: Option<Workload>)
    ensures
        found == lookup(table(), name@),
{
    let workloads: Vec<Workload> = workload_table();
    let mut index: usize = 0;
    assert(table().skip(0) =~= table());
    while index < workloads.len()
        invariant
            workloads@ == table(),
            index <= workloads@.len(),
            lookup(table(), name@) == lookup(table().skip(index as int), name@),
        decreases workloads@.len() - index,
    {
        if same_text(workloads[index].name, name) {
            return Some(workloads[index]);
        }
        assert(table().skip(index as int).skip(1) =~= table().skip(index + 1));
        index = index + 1;
    }
    None
}

/// Law: what is found under a name has that name, and nothing is found just when no workload
/// has it.
pub proof fn found_workloads_have_the_name(workloads: Seq<Workload>, name: Seq<char>)
    ensures
        lookup(workloads, name) matches Some(workload) ==> workload.name@ == name
            && workloads.contains(workload),
        lookup(workloads, name) is None ==> forall|index: int|
            0 <= index < workloads.len() ==> (#[trigger] workloads[index]).name@ != name,
    decreases workloads.len(),
{
    if workloads.len() > 0 && workloads[0].name@ != name {
        let rest = workloads.skip(1);
        found_workloads_have_the_name(rest, name);
        if let Some(workload) = lookup(rest, name) {
            let at = choose|at: int| 0 <= at < rest.len() && rest[at] == workload;
            assert(workloads[at + 1] == workload);
        } else {
            assert forall|index: int| 0 <= index < workloads.len() implies (
            #[trigger] workloads[index]).name@ != name by {
                if index > 0 {
                    assert(rest[index - 1] == workloads[index]);
                }
            }
        }
    } else if workloads.len() > 0 {
        assert(workloads[0].name@ == name);
    }
}

/// Law: how many operations each kind of workload counts, and in which unit it is reported:
/// small blocks on one thread in nanoseconds, large blocks and several threads in microseconds.
pub proof fn workloads_count_their_operations(index: int)
    requires
        0 <= index < table().len(),
    ensures
        match table()[index].kind {
            WorkloadKind::SameThreadSmallChurn(size) => table()[index].operations == (if size
                <= 64 {
                6_000_000int
            } else if size <= 4_096 {
                3_000_000
            } else {
                600_000
            }),
            WorkloadKind::EmbeddingBatch => table()[index].operations == 200_000,
            WorkloadKind::MixedSizeChurn => table()[index].operations == 120_000,
            WorkloadKind::LargePath => table()[index].operations == 1_200,
            WorkloadKind::ConcurrentLarge4x => table()[index].operations == 1_200,
            WorkloadKind::LongLivedHandoff => table()[index].operations == 80_000,
            WorkloadKind::LongLivedHandoff4x => table()[index].operations == 80_000,
        },
        table()[index].unit == match table()[index].kind {
            WorkloadKind::SameThreadSmallChurn(_) => TimeUnit::Nanoseconds,
            WorkloadKind::EmbeddingBatch => TimeUnit::Nanoseconds,
            WorkloadKind::MixedSizeChurn => TimeUnit::Nanoseconds,
            _ => TimeUnit::Microseconds,
        },
{
}

/// Law: no two workloads have the same name.
pub proof fn workload_names_differ(one: int, other: int)
    requires
        0 <= one < table().len(),
        0 <= other < table().len(),
        one != other,
    ensures
        table()[one].name@ != table()[other].name@,
{
    reveal_strlit("same_thread_small_churn/32");
    reveal_strlit("same_thread_small_churn/64");
    reveal_strlit("same_thread_small_churn/65");
    reveal_strlit("same_thread_small_churn/4096");
    reveal_strlit("same_thread_small_churn/70000");
    reveal_strlit("embedding_batch");
    reveal_strlit("mixed_size_churn");
    reveal_strlit("large_path");
    reveal_strlit("concurrent_large_4x");
    reveal_strlit("long_lived_handoff");
    reveal_strlit("long_lived_handoff_4x");
    assert("same_thread_small_churn/32"@[24] == '3');
    assert("same_thread_small_churn/64"@[24] == '6');
    assert("same_thread_small_churn/65"@[24] == '6');
    assert("same_thread_small_churn/64"@[25] == '4');
    assert("same_thread_small_churn/65"@[25] == '5');
    let names = Seq::new(11, |at: int| table()[at].name@);
    assert(names[0].len() == 26 && names[1].len() == 26 && names[2].len() == 26);
    assert(names[3].len() == 28 && names[4].len() == 29 && names[5].len() == 15);
    assert(names[6].len() == 16 && names[7].len() == 10 && names[8].len() == 19);
    assert(names[9].len() == 18 && names[10].len() == 21);
    assert(names[0][24] == '3' && names[1][24] == '6' && names[2][24] == '6');
    assert(names[1][25] == '4' && names[2][25] == '5');
    assert(table()[one].name@ == names[one] && table()[other].name@ == names[other]);
    assert(one == 0 || one == 1 || one == 2 || one == 3 || one == 4 || one == 5 || one == 6 || one
        == 7 || one == 8 || one == 9 || one == 10);
    assert(other == 0 || other == 1 || other == 2 || other == 3 || other == 4 || other == 5 || other
        == 6 || other == 7 || other == 8 || other == 9 || other == 10);
}

/// Law: the workload that is named by a size, in decimal digits, is the one that allocates
/// blocks of this size on one thread, for every size that is measured so.
pub proof fn same_thread_workloads_are_named_by_their_size(at: int, index: int)
    requires
        0 <= at < SAME_THREAD_SIZES@.len(),
        0 <= index < table().len(),
    ensures
        table()[index].name@ == "same_thread_small_churn/"@ + text::decimal(
            SAME_THREAD_SIZES@[at] as nat,
        ) <==> table()[index].kind == WorkloadKind::SameThreadSmallChurn(SAME_THREAD_SIZES@[at]),
{
    reveal_with_fuel(text::decimal, 6);
    reveal_strlit("same_thread_small_churn/");
    reveal_strlit("same_thread_small_churn/32");
    reveal_strlit("same_thread_small_churn/64");
    reveal_strlit("same_thread_small_churn/65");
    reveal_strlit("same_thread_small_churn/4096");
    reveal_strlit("same_thread_small_churn/70000");
    reveal_strlit("embedding_batch");
    reveal_strlit("mixed_size_churn");
    reveal_strlit("large_path");
    reveal_strlit("concurrent_large_4x");
    reveal_strlit("long_lived_handoff");
    reveal_strlit("long_lived_handoff_4x");
    let size = SAME_THREAD_SIZES@[at];
    let name = "same_thread_small_churn/"@ + text::decimal(size as nat);
    assert(size == 32 || size == 64 || size == 65 || size == 4_096 || size == 70_000);
    assert(text::decimal(32) =~= seq!['3', '2']);
    assert(text::decimal(64) =~= seq!['6', '4']);
    assert(text::decimal(65) =~= seq!['6', '5']);
    assert(text::decimal(4_096) =~= seq!['4', '0', '9', '6']);
    assert(text::decimal(70_000) =~= seq!['7', '0', '0', '0', '0']);
    assert(size == 32 ==> name =~= "same_thread_small_churn/32"@);
    assert(size == 64 ==> name =~= "same_thread_small_churn/64"@);
    assert(size == 65 ==> name =~= "same_thread_small_churn/65"@);
    assert(size == 4_096 ==> name =~= "same_thread_small_churn/4096"@);
    assert(size == 70_000 ==> name =~= "same_thread_small_churn/70000"@);
    assert("same_thread_small_churn/32"@[24] == '3');
    assert("same_thread_small_churn/64"@[24] == '6');
    assert("same_thread_small_churn/65"@[24] == '6');
    assert("same_thread_small_churn/64"@[25] == '4');
    assert("same_thread_small_churn/65"@[25] == '5');
}

/// The filter lets `name` pass: there is none, or it is the same text.
pub open spec fn passes(filter: Option<&str>, name: Seq<char>) -> bool {
    filter matches Some(text) ==> text@ == name
}

fn passes_filter(filter: Option<&str>, name: &str) -> (passed: bool)
    ensures
        passed == passes(filter, name@),
{
    match filter {
        Some(text) => same_text(text, name),
        None => true,
    }
}

/// The first `count` allocators that pass the filter, each with `workload`.
pub open spec fn allocator_runs(workload: Workload, filter: Option<&str>, count: nat) -> Seq<
    (Workload, AllocatorKind),
>
    decreases count,
{
    if count == 0 {
        Seq::empty()
    } else {
        let earlier = allocator_runs(workload, filter, (count - 1) as nat);
        let kind = AllocatorKind::ALL[count - 1];
        if passes(filter, kind.label()@) {
            earlier.push((workload, kind))
        } else {
            earlier
        }
    }
}

/// The measurements of the first `count` workloads that pass the filter, with every allocator
/// that passes its own, workload by workload.
pub open spec fn all_runs(
    workload_filter: Option<&str>,
    allocator_filter: Option<&str>,
    count: nat,
) -> Seq<(Workload, AllocatorKind)>
    decreases count,
{
    if count == 0 {
        Seq::empty()
    } else {
        let earlier = all_runs(workload_filter, allocator_filter, (count - 1) as nat);
        let workload = table()[count - 1];
        if passes(workload_filter, workload.name@) {
            earlier + allocator_runs(workload, allocator_filter, 4)
        } else {
            earlier
        }
    }
}

/// Law: the measurements that two filters select are those of all workloads and allocators
/// whose names pass, and no others.
pub proof fn filters_select_by_name(
    workload_filter: Option<&str>,
    allocator_filter: Option<&str>,
    count: nat,
    run: (Workload, AllocatorKind),
)
    requires
        count <= table().len(),
    ensures
        all_runs(workload_filter, allocator_filter, count).contains(run) <==> (exists|index: int|
            0 <= index < count && #[trigger] table()[index] == run.0) && passes(
            workload_filter,
            run.0.name@,
        ) && passes(allocator_filter, run.1.label()@),
    decreases count,
{
    let all = all_runs(workload_filter, allocator_filter, count);
    if count == 0 {
        assert(all =~= Seq::empty());
    } else {
        let earlier = all_runs(workload_filter, allocator_filter, (count - 1) as nat);
        let workload = table()[count - 1];
        filters_select_by_name(workload_filter, allocator_filter, (count - 1) as nat, run);
        allocators_pass_by_name(workload, allocator_filter, 4, run);
        let kind = run.1;
        let place = match kind {
            AllocatorKind::Orthotope => 0int,
            AllocatorKind::System => 1,
            AllocatorKind::MiMalloc => 2,
            AllocatorKind::Jemalloc => 3,
        };
        assert(AllocatorKind::ALL[place] == kind);
        if passes(workload_filter, workload.name@) {
            let more = allocator_runs(workload, allocator_filter, 4);
            assert(all == earlier + more);
            if earlier.contains(run) {
                let at = choose|at: int| 0 <= at < earlier.len() && earlier[at] == run;
                assert(all[at] == run);
            }
            if more.contains(run) {
                let at = choose|at: int| 0 <= at < more.len() && more[at] == run;
                assert(all[earlier.len() + at] == run);
            }
            if all.contains(run) {
                let at = choose|at: int| 0 <= at < all.len() && all[at] == run;
                if at < earlier.len() {
                    assert(earlier[at] == run);
                } else {
                    assert(more[at - earlier.len()] == run);
                }
            }
        }
        if exists|index: int| 0 <= index < count && #[trigger] table()[index] == run.0 {
            let index = choose|index: int| 0 <= index < count && #[trigger] table()[index] == run.0;
            if index < count - 1 {
                assert(table()[index] == run.0);
            }
        }
    }
}

/// A workload runs with the first `count` allocators whose names pass.
proof fn allocators_pass_by_name(
    workload: Workload,
    filter: Option<&str>,
    count: nat,
    run: (Workload, AllocatorKind),
)
    requires
        count <= 4,
    ensures
        allocator_runs(workload, filter, count).contains(run) <==> run.0 == workload && (exists|
            place: int,
        | 0 <= place < count && #[trigger] AllocatorKind::ALL[place] == run.1) && passes(
            filter,
            run.1.label()@,
        ),
    decreases count,
{
    let all = allocator_runs(workload, filter, count);
    if count == 0 {
        assert(all =~= Seq::empty());
    } else {
        let earlier = allocator_runs(workload, filter, (count - 1) as nat);
        allocators_pass_by_name(workload, filter, (count - 1) as nat, run);
        let kind = AllocatorKind::ALL[count - 1];
        if passes(filter, kind.label()@) {
            assert(all == earlier.push((workload, kind)));
            assert(all[all.len() - 1] == (workload, kind));
            if earlier.contains(run) {
                let at = choose|at: int| 0 <= at < earlier.len() && earlier[at] == run;
                assert(all[at] == run);
            }
            if all.contains(run) {
                let at = choose|at: int| 0 <= at < all.len() && all[at] == run;
                if at < earlier.len() {
                    assert(earlier[at] == run);
                }
            }
        }
    }
}

/// Returns the measurements that the two filters select, in order.
#[must_use]
pub fn selected_runs(workload_filter: Option<&str>, allocator_filter: Option<&str>) -> (runs: Vec<
    (Workload, AllocatorKind),
>)
    ensures
        runs@ == all_runs(workload_filter, allocator_filter, table().len()),
{
    let workloads: Vec<Workload> = workload_table();
    let mut runs: Vec<(Workload, AllocatorKind)> = Vec::new();
    let mut index: usize = 0;
    while index < workloads.len()
        invariant
            workloads@ == table(),
            index <= workloads@.len(),
            runs@ == all_runs(workload_filter, allocator_filter, index as nat),
        decreases workloads@.len() - index,
    {
        let workload: Workload = workloads[index];
        if passes_filter(workload_filter, workload.name) {
            let ghost earlier = runs@;
            let mut place: usize = 0;
            assert(runs@ =~= earlier + allocator_runs(workload, allocator_filter, 0));
            while place < 4
                invariant
                    place <= 4,
                    runs@ == earlier + allocator_runs(workload, allocator_filter, place as nat),
                decreases 4 - place,
            {
                let kind: AllocatorKind = AllocatorKind::ALL[place];
                if passes_filter(allocator_filter, kind.name()) {
                    runs.push((workload, kind));
                }
                place = place + 1;
                assert(runs@ =~= earlier + allocator_runs(
                    workload,
                    allocator_filter,
                    place as nat,
                ));
            }
        }
        index = index + 1;
    }
    runs
}

/// What one run of a workload does.
#[derive(Debug)]
pub enum RunPlan {
    /// On one thread, `iterations` times: allocate blocks of all `sizes`, and free them again,
    /// the last one first.
    Churn { iterations: usize, sizes: Vec<usize> },
    /// On each of `threads` threads, `iterations` times: allocate a large block and free it.
    ConcurrentLarge { threads: usize, iterations: usize },
    /// In each of `pairs` pairs of threads, `iterations` times: one thread allocates a block
    /// and hands it to the other, which frees it.
    Handoff { pairs: usize, iterations: usize },
}

impl RunPlan {
    /// The plan is that of a workload of this kind.
    pub open spec fn is_for(self, kind: WorkloadKind) -> bool {
        match kind {
            WorkloadKind::SameThreadSmallChurn(size) => self matches RunPlan::Churn {
                iterations,
                sizes,
            } && iterations == same_thread_rounds(size) && sizes@ == seq![size],
            WorkloadKind::EmbeddingBatch => self matches RunPlan::Churn { iterations, sizes }
                && iterations == EMBEDDING_ITERATIONS && sizes@ == Seq::new(
                EMBEDDING_BATCH_SIZE as nat,
                |at: int| EMBEDDING_BYTES,
            ),
            WorkloadKind::MixedSizeChurn => self matches RunPlan::Churn { iterations, sizes }
                && iterations == MIXED_ITERATIONS && sizes@ == MIXED_SIZES@,
            WorkloadKind::LargePath => self matches RunPlan::Churn { iterations, sizes }
                && iterations == LARGE_PATH_ITERATIONS && sizes@ == seq![LARGE_REQUEST_BYTES],
            WorkloadKind::ConcurrentLarge4x => self matches RunPlan::ConcurrentLarge {
                threads,
                iterations,
            } && threads == CONCURRENT_LARGE_4X_THREADS && iterations
                == CONCURRENT_LARGE_ITERATIONS / CONCURRENT_LARGE_4X_THREADS,
            WorkloadKind::LongLivedHandoff => self matches RunPlan::Handoff { pairs, iterations }
                && pairs == 1 && iterations == LONG_LIVED_HANDOFF_ITERATIONS,
            WorkloadKind::LongLivedHandoff4x => self matches RunPlan::Handoff { pairs, iterations }
                && pairs == LONG_LIVED_HANDOFF_4X_PAIRS && iterations
                == LONG_LIVED_HANDOFF_ITERATIONS / LONG_LIVED_HANDOFF_4X_PAIRS,
        }
    }

    /// How often the plan's round runs, on all threads together.
    pub open spec fn rounds(self) -> int {
        match self {
            RunPlan::Churn { iterations, sizes } => iterations as int,
            RunPlan::ConcurrentLarge { threads, iterations } => threads * iterations,
            RunPlan::Handoff { pairs, iterations } => pairs * iterations,
        }
    }

    /// The threads that the plan starts.
    pub open spec fn workers(self) -> int {
        match self {
            RunPlan::Churn { iterations, sizes } => 0,
            RunPlan::ConcurrentLarge { threads, iterations } => threads as int,
            RunPlan::Handoff { pairs, iterations } => pairs * 2,
        }
    }

    /// Returns what a run of a workload of this kind does.
    #[must_use]
    pub fn for_kind(kind: WorkloadKind) -> (plan: Self)
        ensures
            plan.is_for(kind),
    {
        match kind {
            WorkloadKind::SameThreadSmallChurn(size) => {
                let sizes: Vec<usize> = vec![size];
                assert(sizes@ =~= seq![size]);
                RunPlan::Churn { iterations: same_thread_iterations(size), sizes }
            },
            WorkloadKind::EmbeddingBatch => RunPlan::Churn {
                iterations: EMBEDDING_ITERATIONS,
                sizes: embedding_sizes(),
            },
            WorkloadKind::MixedSizeChurn => RunPlan::Churn {
                iterations: MIXED_ITERATIONS,
                sizes: mixed_sizes(),
            },
            WorkloadKind::LargePath => {
                let sizes: Vec<usize> = vec![LARGE_REQUEST_BYTES];
                assert(sizes@ =~= seq![LARGE_REQUEST_BYTES]);
                RunPlan::Churn { iterations: LARGE_PATH_ITERATIONS, sizes }
            },
            WorkloadKind::ConcurrentLarge4x => RunPlan::ConcurrentLarge {
                threads: CONCURRENT_LARGE_4X_THREADS,
                iterations: CONCURRENT_LARGE_ITERATIONS / CONCURRENT_LARGE_4X_THREADS,
            },
            WorkloadKind::LongLivedHandoff => RunPlan::Handoff {
                pairs: 1,
                iterations: LONG_LIVED_HANDOFF_ITERATIONS,
            },
            WorkloadKind::LongLivedHandoff4x => RunPlan::Handoff {
                pairs: LONG_LIVED_HANDOFF_4X_PAIRS,
                iterations: LONG_LIVED_HANDOFF_ITERATIONS / LONG_LIVED_HANDOFF_4X_PAIRS,
            },
        }
    }

    /// Returns the threads that the plan starts.
    #[must_use]
    pub fn worker_count(&self) -> (workers: usize)
        requires
            self.workers() <= usize::MAX,
        ensures
            workers == self.workers(),
    {
        match self {
            RunPlan::Churn { iterations: _, sizes: _ } => 0,
            RunPlan::ConcurrentLarge { threads, iterations: _ } => *threads,
            RunPlan::Handoff { pairs, iterations: _ } => *pairs * 2,
        }
    }

    /// Returns how many threads meet before the clock starts: the workers and the one that
    /// reads the clock.
    #[must_use]
    pub fn barrier_parties(&self) -> (parties: usize)
        requires
            self.workers() < usize::MAX,
        ensures
            parties == self.workers() + 1,
    {
        self.worker_count() + 1
    }

    /// Law: a same-thread workload allocates blocks of the very size that it names, whatever
    /// size that is, one in a round.
    pub proof fn same_thread_plans_use_their_size(self, size: usize)
        requires
            self.is_for(WorkloadKind::SameThreadSmallChurn(size)),
        ensures
            self matches RunPlan::Churn { iterations, sizes } && sizes@.len() == 1 && sizes@[0]
                == size,
    {
    }

    /// Law: the plan of a workload that is named by a size, in decimal digits, allocates blocks
    /// of that size.
    pub proof fn named_sizes_are_measured(self, at: int, index: int)
        requires
            0 <= at < SAME_THREAD_SIZES@.len(),
            0 <= index < table().len(),
            table()[index].name@ == "same_thread_small_churn/"@ + text::decimal(
                SAME_THREAD_SIZES@[at] as nat,
            ),
            self.is_for(table()[index].kind),
        ensures
            self matches RunPlan::Churn { iterations, sizes } && iterations
                == table()[index].operations && sizes@ == seq![SAME_THREAD_SIZES@[at]],
    {
        same_thread_workloads_are_named_by_their_size(at, index);
    }

    /// Law: larger blocks are measured in no more rounds than smaller ones.
    pub proof fn larger_blocks_run_fewer_rounds(self, other: Self, size: usize, larger: usize)
        requires
            self.is_for(WorkloadKind::SameThreadSmallChurn(size)),
            other.is_for(WorkloadKind::SameThreadSmallChurn(larger)),
            size <= larger,
        ensures
            0 < other.rounds() <= self.rounds(),
    {
    }

    /// Law: a round of embeddings is eight blocks of 1536 numbers of four bytes; a mixed round
    /// allocates each of the mixed sizes once, in their order; and a large round allocates one
    /// block that is too large for every size class.
    pub proof fn rounds_allocate_their_blocks(self, kind: WorkloadKind)
        requires
            self.is_for(kind),
        ensures
            kind is EmbeddingBatch ==> (self matches RunPlan::Churn { iterations, sizes }
                && sizes@.len() == 8 && forall|at: int| 0 <= at < 8 ==> #[trigger] sizes@[at] == 1536
                * 4),
            kind is MixedSizeChurn ==> (self matches RunPlan::Churn { iterations, sizes } && sizes@
                == seq![32usize, 64, 65, 128, 512, 4_096, 16_384, 70_000]),
            kind is LargePath ==> (self matches RunPlan::Churn { iterations, sizes } && sizes@.len()
                == 1 && sizes@[0] == 20 * 1024 * 1024),
    {
        if let RunPlan::Churn { iterations: _, sizes } = self {
            if kind is MixedSizeChurn {
                assert(sizes@ =~= seq![32usize, 64, 65, 128, 512, 4_096, 16_384, 70_000]);
            }
        }
    }

    /// Law: the workloads on four times as many threads do as much work as the others: four
    /// pairs of threads hand over as many blocks as one pair, and four threads allocate as many
    /// large blocks as one thread.
    pub proof fn parallel_plans_share_the_work(self, parallel: Self, kind: WorkloadKind)
        requires
            kind is LongLivedHandoff && self.is_for(kind) && parallel.is_for(
                WorkloadKind::LongLivedHandoff4x,
            ) || kind is LargePath && self.is_for(kind) && parallel.is_for(
                WorkloadKind::ConcurrentLarge4x,
            ),
        ensures
            parallel.rounds() == self.rounds(),
            kind is LongLivedHandoff ==> self.workers() == 2 && parallel.workers() == 8,
            kind is LargePath ==> self.workers() == 0 && parallel.workers() == 4,
    {
        match parallel {
            RunPlan::Churn { iterations: _, sizes: _ } => {},
            RunPlan::ConcurrentLarge { threads, iterations } => {
                assert(threads * iterations == 1_200) by (nonlinear_arith)
                    requires
                        threads == 4,
                        iterations == 300,
                ;
            },
            RunPlan::Handoff { pairs, iterations } => {
                assert(pairs * iterations == 80_000) by (nonlinear_arith)
                    requires
                        pairs == 4,
                        iterations == 20_000,
                ;
            },
        }
        if let RunPlan::Handoff { pairs, iterations } = self {
            assert(pairs * iterations == 80_000) by (nonlinear_arith)
                requires
                    pairs == 1,
                    iterations == 80_000,
            ;
        }
    }

    /// Law: a workload counts as many operations as its plan runs rounds.
    pub proof fn operations_count_rounds(self, index: int)
        requires
            0 <= index < table().len(),
            self.is_for(table()[index].kind),
        ensures
            self.rounds() == table()[index].operations,
    {
        match self {
            RunPlan::Churn { iterations: _, sizes: _ } => {},
            RunPlan::ConcurrentLarge { threads, iterations } => {
                assert(threads * iterations == 1_200) by (nonlinear_arith)
                    requires
                        threads == 4,
                        iterations == 300,
                ;
            },
            RunPlan::Handoff { pairs, iterations } => {
                assert(pairs * iterations == 80_000) by (nonlinear_arith)
                    requires
                        pairs == 1 && iterations == 80_000 || pairs == 4 && iterations == 20_000,
                ;
            },
        }
    }
}

fn embedding_sizes() -> (sizes: Vec<usize>)
    ensures
        sizes@ == Seq::new(EMBEDDING_BATCH_SIZE as nat, |at: int| EMBEDDING_BYTES),
{
    let mut sizes: Vec<usize> = Vec::new();
    let mut count: usize = 0;
    while count < EMBEDDING_BATCH_SIZE
        invariant
            count <= EMBEDDING_BATCH_SIZE,
            sizes@ == Seq::new(count as nat, |at: int| EMBEDDING_BYTES),
        decreases EMBEDDING_BATCH_SIZE - count,
    {
        sizes.push(EMBEDDING_BYTES);
        count = count + 1;
        assert(sizes@ =~= Seq::new(count as nat, |at: int| EMBEDDING_BYTES));
    }
    sizes
}

fn mixed_sizes() -> (sizes: Vec<usize>)
    ensures
        sizes@ == MIXED_SIZES@,
{
    let mut sizes: Vec<usize> = Vec::new();
    let mut index: usize = 0;
    while index < MIXED_SIZES.len()
        invariant
            index <= MIXED_SIZES@.len(),
            sizes@ == MIXED_SIZES@.take(index as int),
        decreases MIXED_SIZES@.len() - index,
    {
        sizes.push(MIXED_SIZES[index]);
        index = index + 1;
        assert(sizes@ =~= MIXED_SIZES@.take(index as int));
    }
    assert(sizes@ =~= MIXED_SIZES@);
    sizes
}

/// No entry is below an earlier one.
pub open spec fn ascending(values: Seq<u128>) -> bool {
    forall|low: int, high: int| 0 <= low <= high < values.len() ==> values[low] <= values[high]
}

/// `middle` is the middle one of `values` in ascending order, the upper one of two.
pub open spec fn is_median(values: Seq<u128>, middle: u128) -> bool {
    exists|sorted: Seq<u128>| #[trigger]
        ascending(sorted) && sorted.to_multiset() == values.to_multiset() && values.len() > 0
            && middle == sorted[values.len() as int / 2]
}

/// Law: a median is one of the values, at most half of them are below it, and fewer than half
/// or just half of the others are above it.
pub proof fn median_splits_the_values(values: Seq<u128>, middle: u128)
    requires
        is_median(values, middle),
    ensures
        values.contains(middle),
        values.to_multiset().filter(|value: u128| value < middle).len() <= values.len() / 2,
        values.to_multiset().filter(|value: u128| value > middle).len() <= (values.len() - 1) / 2,
{
    broadcast use vstd::seq_lib::group_to_multiset_ensures;
    broadcast use vstd::multiset::group_multiset_axioms;

    let sorted = choose|sorted: Seq<u128>| #[trigger]
        ascending(sorted) && sorted.to_multiset() == values.to_multiset() && values.len() > 0
            && middle == sorted[values.len() as int / 2];
    let half = values.len() as int / 2;
    assert(sorted.to_multiset().len() == sorted.len());
    assert(values.to_multiset().len() == values.len());
    assert(sorted.len() == values.len());
    assert(values.to_multiset().count(middle) > 0) by {
        assert(sorted.contains(middle));
    }
    let below = values.to_multiset().filter(|value: u128| value < middle);
    let (low, rest) = (sorted.take(half), sorted.skip(half));
    split_multiset(sorted, half);
    assert(below.subset_of(low.to_multiset())) by {
        assert forall|value: u128| below.count(value) <= low.to_multiset().count(value) by {
            if below.count(value) > 0 && rest.to_multiset().count(value) > 0 {
                assert(rest.contains(value));
                let at = choose|at: int| 0 <= at < rest.len() && rest[at] == value;
                assert(sorted[half] <= sorted[half + at]);
            }
        }
    }
    assert(low.to_multiset().sub(below).len() == low.len() - below.len());
    let above = values.to_multiset().filter(|value: u128| value > middle);
    let (under, high) = (sorted.take(half + 1), sorted.skip(half + 1));
    split_multiset(sorted, half + 1);
    assert(above.subset_of(high.to_multiset())) by {
        assert forall|value: u128| above.count(value) <= high.to_multiset().count(value) by {
            if above.count(value) > 0 && under.to_multiset().count(value) > 0 {
                assert(under.contains(value));
                let at = choose|at: int| 0 <= at < under.len() && under[at] == value;
                assert(sorted[at] <= sorted[half]);
            }
        }
    }
    assert(high.to_multiset().sub(above).len() == high.len() - above.len());
}

/// The parts of a sequence make up its multiset.
proof fn split_multiset(values: Seq<u128>, at: int)
    requires
        0 <= at <= values.len(),
    ensures
        values.to_multiset() == values.take(at).to_multiset().add(values.skip(at).to_multiset()),
{
    vstd::seq_lib::lemma_multiset_commutative(values.take(at), values.skip(at));
    assert(values.take(at) + values.skip(at) =~= values);
}

/// Inserting into a sequence adds to its multiset.
proof fn insert_counts(values: Seq<u128>, index: int, value: u128)
    requires
        0 <= index <= values.len(),
    ensures
        values.insert(index, value).to_multiset() == values.to_multiset().insert(value),
{
    broadcast use vstd::seq_lib::group_to_multiset_ensures;
    broadcast use vstd::multiset::group_multiset_axioms;

    let more = values.insert(index, value);
    assert(more.remove(index) =~= values);
    assert(more[index] == value);
    assert(more.contains(value));
    assert(more.to_multiset().remove(value) == values.to_multiset());
    assert(more.to_multiset() =~= values.to_multiset().insert(value));
}

/// Returns the entries in ascending order.
fn sorted_samples(samples: &Vec<u128>) -> (sorted: Vec<u128>)
    ensures
        ascending(sorted@),
        sorted@.to_multiset() == samples@.to_multiset(),
        sorted@.len() == samples@.len(),
{
    let mut sorted: Vec<u128> = Vec::new();
    let mut taken: usize = 0;
    assert(samples@.take(0) =~= sorted@);
    while taken < samples.len()
        invariant
            taken <= samples@.len(),
            sorted@.len() == taken,
            ascending(sorted@),
            sorted@.to_multiset() == samples@.take(taken as int).to_multiset(),
        decreases samples@.len() - taken,
    {
        let sample: u128 = samples[taken];
        let mut place: usize = 0;
        while place < sorted.len() && sorted[place] <= sample
            invariant
                place <= sorted@.len(),
                forall|before: int| 0 <= before < place ==> #[trigger] sorted@[before] <= sample,
            decreases sorted@.len() - place,
        {
            place = place + 1;
        }
        proof {
            broadcast use vstd::seq_lib::group_to_multiset_ensures;

            insert_counts(sorted@, place as int, sample);
            assert(samples@.take(taken + 1) =~= samples@.take(taken as int).push(sample));
            let more = sorted@.insert(place as int, sample);
            assert forall|low: int, high: int| 0 <= low <= high < more.len() implies more[low]
                <= more[high] by {
                let a = if low < place {
                    low
                } else {
                    low - 1
                };
                let b = if high < place {
                    high
                } else {
                    high - 1
                };
                if low != place && high != place {
                    assert(more[low] == sorted@[a] && more[high] == sorted@[b]);
                    assert(sorted@[a] <= sorted@[b]);
                } else if low == place && high > place {
                    assert(more[high] == sorted@[b]);
                    assert(sorted@[place as int] <= sorted@[b]);
                } else if low < place {
                    assert(more[low] == sorted@[low]);
                }
            }
        }
        sorted.insert(place, sample);
        taken = taken + 1;
    }
    assert(samples@.take(taken as int) =~= samples@);
    sorted
}

/// The runs of a measurement so far.
#[derive(Debug)]
pub struct Measurement {
    /// Runs that do not count.
    pub warmups: usize,
    /// Durations of the runs that count, in nanoseconds.
    pub samples: Vec<u128>,
}

/// What a measurement needs next.
#[derive(Clone, Copy, Debug, PartialEq, Eq, Structural)]
pub enum MeasureStep {
    /// Run the workload once and record its duration.
    Run(WorkloadKind, AllocatorKind),
    /// The measurement is complete with this duration, in nanoseconds.
    Finished(u128),
}

impl Measurement {
    /// Nothing was run.
    #[must_use]
    pub fn new() -> (measurement: Self)
        ensures
            measurement.warmups == 0,
            measurement.samples@.len() == 0,
    {
        Measurement { warmups: 0, samples: Vec::new() }
    }

    /// Records the duration of a run; the first ones only warm up.
    pub fn record(&mut self, nanoseconds: u128)
        ensures
            old(self).warmups < WARMUP_SAMPLES ==> final(self).warmups == old(self).warmups + 1
                && final(self).samples@ == old(self).samples@,
            old(self).warmups >= WARMUP_SAMPLES ==> final(self).warmups == old(self).warmups
                && final(self).samples@ == old(self).samples@.push(nanoseconds),
    {
        if self.warmups < WARMUP_SAMPLES {
            self.warmups = self.warmups + 1;
        } else {
            self.samples.push(nanoseconds);
        }
    }
}

/// Decides what the measurement of `workload` with `allocator` needs next: first the warm-up
/// runs, next the measured runs, and at the end their median.
#[must_use]
pub fn measure(workload: Workload, allocator: AllocatorKind, measurement: &Measurement) -> (step:
    MeasureStep)
    ensures
        if measurement.warmups < WARMUP_SAMPLES || measurement.samples@.len() < MEASURE_SAMPLES {
            step == MeasureStep::Run(workload.kind, allocator)
        } else {
            step matches MeasureStep::Finished(median) && is_median(measurement.samples@, median)
        },
{
    if measurement.warmups < WARMUP_SAMPLES || measurement.samples.len() < MEASURE_SAMPLES {
        return MeasureStep::Run(workload.kind, allocator);
    }
    let sorted: Vec<u128> = sorted_samples(&measurement.samples);
    MeasureStep::Finished(sorted[sorted.len() / 2])
}

/// What repeating a workload needs next.
#[derive(Clone, Copy, Debug, PartialEq, Eq, Structural)]
pub enum RepeatStep {
    /// Run the workload once more.
    Run(WorkloadKind, AllocatorKind),
    /// All repetitions are done.
    Finished,
}

/// Decides whether `workload` runs once more after `completed` of `repetitions` runs.
#[must_use]
pub fn run_repeated_workload(
    workload: Workload,
    allocator: AllocatorKind,
    repetitions: usize,
    completed: usize,
) -> (step: RepeatStep)
    ensures
        step == if completed < repetitions {
            RepeatStep::Run(workload.kind, allocator)
        } else {
            RepeatStep::Finished
        },
{
    if completed < repetitions {
        RepeatStep::Run(workload.kind, allocator)
    } else {
        RepeatStep::Finished
    }
}

} // verus!
