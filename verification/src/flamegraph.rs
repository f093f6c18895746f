use vstd::prelude::*;
use vstd::string::*;

use crate::bench;
use crate::bench::{
    workload_by_name, workload_names, AllocatorKind, BenchError, Workload,
    DEFAULT_FLAMEGRAPH_ALLOCATOR, DEFAULT_FLAMEGRAPH_REPETITIONS, DEFAULT_FLAMEGRAPH_WORKLOAD,
};
use crate::text;
use crate::text::append_decimal;

verus! {

/// The variable that names the workload.
pub const WORKLOAD_ENV: &'static str = "ORTHOTOPE_FLAMEGRAPH_WORKLOAD";

/// The variable that names the allocator.
pub const ALLOCATOR_ENV: &'static str = "ORTHOTOPE_FLAMEGRAPH_ALLOCATOR";

/// The variable that gives the number of repetitions.
pub const REPETITIONS_ENV: &'static str = "ORTHOTOPE_FLAMEGRAPH_REPETITIONS";

/// What reading an environment variable gave.
#[derive(Debug)]
pub enum EnvValue {
    /// The variable is not set.
    Unset,
    /// The variable cannot be read, for the reason given.
    Unreadable(String),
    /// The variable's value.
    Value(String),
}

/// What `str::trim` leaves of a text.
pub uninterp spec fn trimmed(text: Seq<char>) -> Seq<char>;

/// Removes white space at both ends with `str::trim`.
///
/// The result is named by `trimmed`; which characters count as white space is left to the
/// standard library. It is never longer than the text.
#[verifier::external_body]
fn trim(text: &str) -> (rest: &str)
    ensures
        rest@ == trimmed(text@),
        rest@.len() <= text@.len(),
{
    text.trim()
}

/// The number that decimal digits write; `None` when a character is no digit or there is none.
pub open spec fn digits_value(digits: Seq<char>) -> Option<nat>
    decreases digits.len(),
{
    if digits.len() == 0 || !('0' <= digits.last() <= '9') {
        None
    } else {
        let last = (digits.last() as nat - '0' as nat) as nat;
        if digits.len() == 1 {
            Some(last)
        } else {
            match digits_value(digits.drop_last()) {
                Some(value) => Some(10 * value + last),
                None => None,
            }
        }
    }
}

/// The number of at most `limit` that a text writes: digits, behind a plus sign or not.
pub open spec fn written_number(text: Seq<char>, limit: usize) -> Option<usize> {
    let digits = if text.len() > 0 && text[0] == '+' {
        text.skip(1)
    } else {
        text
    };
    match digits_value(digits) {
        Some(value) if value <= limit => Some(value as usize),
        _ => None,
    }
}

/// Law: a number is read back from its decimal digits, as long as it is not above the limit.
pub proof fn decimal_digits_are_read_back(value: nat, limit: usize)
    ensures
        digits_value(text::decimal(value)) == Some(value),
        written_number(text::decimal(value), limit) == if value <= limit {
            Some(value as usize)
        } else {
            None
        },
{
    digits_read_back(value);
    first_is_a_digit(value);
}

proof fn digits_read_back(value: nat)
    ensures
        digits_value(text::decimal(value)) == Some(value),
        text::decimal(value).len() > 0,
    decreases value,
{
    let digits = text::decimal(value);
    if value >= 10 {
        digits_read_back(value / 10);
        assert(digits.drop_last() =~= text::decimal(value / 10));
    }
    let last = value % 10;
    assert(digits.last() == text::digit(last));
    assert(text::digit(last) as nat == '0' as nat + last);
}

proof fn first_is_a_digit(value: nat)
    ensures
        text::decimal(value).len() > 0,
        text::decimal(value)[0] != '+',
    decreases value,
{
    if value >= 10 {
        first_is_a_digit(value / 10);
    } else {
        assert(text::digit(value) as nat == '0' as nat + value);
    }
}

/// The words in which the error of `str::parse` says why a text writes no number of at most
/// `limit`.
pub uninterp spec fn refusal_words(text: Seq<char>, limit: usize) -> Seq<char>;

/// Parses a number with `str::parse::<usize>`, the error rendered with its own `Display`.
///
/// Digits, behind a plus sign or not, that write no more than the largest `usize` are a number,
/// and nothing else is. The words of the error are named by `refusal_words`.
#[verifier::external_body]
fn parse_number(text: &str) -> (result: Result<usize, String>)
    ensures
        match result {
            Ok(number) => written_number(text@, usize::MAX) == Some(number),
            Err(cause) => written_number(text@, usize::MAX) is None && cause@ == refusal_words(
                text@,
                usize::MAX,
            ),
        },
{
    text.parse::<usize>().map_err(|error| error.to_string())
}

/// The number that a text writes, or the words that say why it writes none.
pub open spec fn parsed_number(text: Seq<char>, limit: usize) -> Result<usize, Seq<char>> {
    match written_number(text, limit) {
        Some(number) => Ok(number),
        None => Err(refusal_words(text, limit)),
    }
}

/// What a text setting comes to: its value, or the words of the error.
pub open spec fn text_setting(name: Seq<char>, value: Seq<char>, blank: bool) -> Result<
    Seq<char>,
    Seq<char>,
> {
    if blank {
        Err(name + " must not be empty when set"@)
    } else {
        Ok(value)
    }
}

/// `result` is `expected`, with the error as a configuration error.
pub open spec fn text_agrees(
    result: Result<String, BenchError>,
    expected: Result<Seq<char>, Seq<char>>,
) -> bool {
    match result {
        Ok(value) => expected == Ok::<Seq<char>, Seq<char>>(value@),
        Err(BenchError::Config(message)) => expected == Err::<Seq<char>, Seq<char>>(message@),
        Err(_) => false,
    }
}

/// Accepts the value of a text setting, unless it is blank.
///
/// # Errors
///
/// Returns [`BenchError::Config`] for a blank value.
pub fn accept_text(name: &str, value: &str, blank: bool) -> (result: Result<String, BenchError>)
    ensures
        text_agrees(result, text_setting(name@, value@, blank)),
{
    if blank {
        let mut message: String = String::from_str(name);
        message.append(" must not be empty when set");
        return Err(BenchError::Config(message));
    }
    Ok(String::from_str(value))
}

/// The words for a variable that cannot be read.
pub open spec fn unreadable(name: Seq<char>, cause: Seq<char>) -> Seq<char> {
    "failed to read "@ + name + ": "@ + cause
}

fn unreadable_message(name: &str, cause: &String) -> (message: String)
    ensures
        message@ == unreadable(name@, cause@),
{
    let mut message: String = String::from_str("failed to read ");
    message.append(name);
    message.append(": ");
    message.append(cause.as_str());
    message
}

/// What a text variable comes to.
pub open spec fn env_text(name: Seq<char>, default: Seq<char>, value: EnvValue) -> Result<
    Seq<char>,
    Seq<char>,
> {
    match value {
        EnvValue::Unset => Ok(default),
        EnvValue::Unreadable(cause) => Err(unreadable(name, cause@)),
        EnvValue::Value(value) => text_setting(name, value@, trimmed(value@).len() == 0),
    }
}

/// Reads a text setting from the value of the variable `name`.
///
/// # Errors
///
/// Returns [`BenchError::Config`] when the variable is blank or cannot be read.
pub fn read_env_or_default(name: &str, default: &str, value: &EnvValue) -> (result: Result<
    String,
    BenchError,
>)
    ensures
        text_agrees(result, env_text(name@, default@, *value)),
{
    match value {
        EnvValue::Unset => Ok(String::from_str(default)),
        EnvValue::Unreadable(cause) => Err(BenchError::Config(unreadable_message(name, cause))),
        EnvValue::Value(text) => {
            let blank: bool = trim(text.as_str()).is_empty();
            accept_text(name, text.as_str(), blank)
        },
    }
}

/// What a count setting comes to: its value, or the words of the error.
pub open spec fn count_setting(name: Seq<char>, parsed: Result<usize, Seq<char>>) -> Result<
    usize,
    Seq<char>,
> {
    match parsed {
        Err(cause) => Err(name + " must be a positive integer: "@ + cause),
        Ok(count) => if count == 0 {
            Err(name + " must be a positive integer greater than zero"@)
        } else {
            Ok(count)
        },
    }
}

/// `result` is `expected`, with the error as a configuration error.
pub open spec fn count_agrees(
    result: Result<usize, BenchError>,
    expected: Result<usize, Seq<char>>,
) -> bool {
    match result {
        Ok(count) => expected == Ok::<usize, Seq<char>>(count),
        Err(BenchError::Config(message)) => expected == Err::<usize, Seq<char>>(message@),
        Err(_) => false,
    }
}

/// Accepts the parsed value of a count setting, unless it is zero.
///
/// # Errors
///
/// Returns [`BenchError::Config`] when there is no number, or it is zero.
pub fn accept_count(name: &str, parsed: Result<usize, String>) -> (result: Result<
    usize,
    BenchError,
>)
    ensures
        count_agrees(
            result,
            count_setting(
                name@,
                match parsed {
                    Ok(count) => Ok::<usize, Seq<char>>(count),
                    Err(cause) => Err::<usize, Seq<char>>(cause@),
                },
            ),
        ),
{
    match parsed {
        Err(cause) => {
            let mut message: String = String::from_str(name);
            message.append(" must be a positive integer: ");
            message.append(cause.as_str());
            Err(BenchError::Config(message))
        },
        Ok(count) => {
            if count == 0 {
                let mut message: String = String::from_str(name);
                message.append(" must be a positive integer greater than zero");
                return Err(BenchError::Config(message));
            }
            Ok(count)
        },
    }
}

/// What a count variable comes to.
pub open spec fn env_count(name: Seq<char>, default: usize, value: EnvValue) -> Result<
    usize,
    Seq<char>,
> {
    match value {
        EnvValue::Unset => Ok(default),
        EnvValue::Unreadable(cause) => Err(unreadable(name, cause@)),
        EnvValue::Value(value) => count_setting(name, parsed_number(value@, usize::MAX)),
    }
}

/// Reads a count setting from the value of the variable `name`.
///
/// # Errors
///
/// Returns [`BenchError::Config`] when the variable holds no positive number or cannot be read.
pub fn read_usize_env_or_default(name: &str, default: usize, value: &EnvValue) -> (result: Result<
    usize,
    BenchError,
>)
    ensures
        count_agrees(result, env_count(name@, default, *value)),
{
    match value {
        EnvValue::Unset => Ok(default),
        EnvValue::Unreadable(cause) => Err(BenchError::Config(unreadable_message(name, cause))),
        EnvValue::Value(text) => accept_count(name, parse_number(text.as_str())),
    }
}

/// The run that the settings select.
#[derive(Clone, Copy, Debug)]
pub struct FlamegraphRun {
    pub workload: Workload,
    pub allocator: AllocatorKind,
    pub repetitions: usize,
    /// Operations of all repetitions together.
    pub samples: usize,
}

/// The names from `first` on, separated by commas.
pub open spec fn joined(workloads: Seq<Workload>) -> Seq<char>
    decreases workloads.len(),
{
    if workloads.len() == 0 {
        Seq::empty()
    } else if workloads.len() == 1 {
        workloads[0].name@
    } else {
        joined(workloads.drop_last()) + ", "@ + workloads.last().name@
    }
}

fn joined_workload_names() -> (names: String)
    ensures
        names@ == joined(bench::table()),
{
    let list: Vec<&'static str> = workload_names();
    let mut names: String = String::new();
    let mut index: usize = 0;
    proof {
        assert(names@ =~= joined(bench::table().take(0)));
    }
    while index < list.len()
        invariant
            index <= list@.len(),
            list@.len() == bench::table().len(),
            forall|at: int|
                0 <= at < list@.len() ==> #[trigger] list@[at] == bench::table()[at].name,
            names@ == joined(bench::table().take(index as int)),
        decreases list@.len() - index,
    {
        let ghost part = bench::table().take(index + 1);
        assert(part.drop_last() =~= bench::table().take(index as int));
        assert(part.last().name == list@[index as int]);
        if index > 0 {
            names.append(", ");
        }
        names.append(list[index]);
        proof {
            assert(names@ =~= joined(part));
        }
        index = index + 1;
    }
    assert(bench::table().take(index as int) =~= bench::table());
    names
}

/// The run that the settings select, or the words of the error.
pub open spec fn selected(
    workload_name: Seq<char>,
    allocator_name: Seq<char>,
    repetitions: usize,
) -> Result<FlamegraphRun, Seq<char>> {
    match bench::lookup(bench::table(), workload_name) {
        None => Err(
            "unknown "@ + WORKLOAD_ENV@ + " value `"@ + workload_name + "`; valid workloads: "@
                + joined(bench::table()),
        ),
        Some(workload) => match AllocatorKind::named(allocator_name) {
            None => Err(
                "unknown "@ + ALLOCATOR_ENV@ + " value `"@ + allocator_name
                    + "`; valid allocators: Orthotope, System, mimalloc, jemalloc"@,
            ),
            Some(allocator) => if workload.operations * repetitions > usize::MAX {
                Err(REPETITIONS_ENV@ + " is too large for workload `"@ + workload.name@ + "`"@)
            } else {
                Ok(
                    FlamegraphRun {
                        workload,
                        allocator,
                        repetitions,
                        samples: (workload.operations * repetitions) as usize,
                    },
                )
            },
        },
    }
}

/// Law: a run is selected just when its workload and its allocator are known and its samples
/// can be counted, and it is the run of these: each repetition counts all operations.
pub proof fn runs_are_what_was_asked_for(
    workload_name: Seq<char>,
    allocator_name: Seq<char>,
    repetitions: usize,
    run: FlamegraphRun,
)
    requires
        selected(workload_name, allocator_name, repetitions) == Ok::<FlamegraphRun, Seq<char>>(run),
    ensures
        run.workload.name@ == workload_name,
        bench::table().contains(run.workload),
        AllocatorKind::named(allocator_name) == Some(run.allocator),
        run.repetitions == repetitions,
        run.samples == run.workload.operations * repetitions,
{
    bench::found_workloads_have_the_name(bench::table(), workload_name);
}

/// Law: every workload runs with every allocator, as often as its samples can be counted.
pub proof fn known_names_are_accepted(index: int, allocator: AllocatorKind, repetitions: usize)
    requires
        0 <= index < bench::table().len(),
        bench::table()[index].operations * repetitions <= usize::MAX,
    ensures
        selected(bench::table()[index].name@, allocator.label()@, repetitions) matches Ok(run)
            && run.workload == bench::table()[index] && run.allocator == allocator,
{
    let name = bench::table()[index].name@;
    allocator.names_parse_back();
    bench::found_workloads_have_the_name(bench::table(), name);
    if let Some(workload) = bench::lookup(bench::table(), name) {
        let at = choose|at: int| 0 <= at < bench::table().len() && bench::table()[at] == workload;
        if at != index {
            bench::workload_names_differ(at, index);
        }
    }
}

/// Law: a count is accepted just when its text writes a number from one up, and is that number;
/// a text is accepted just when it is not blank, and unchanged. What is not set is its default.
pub proof fn settings_are_taken_as_written(
    name: Seq<char>,
    text_default: Seq<char>,
    count_default: usize,
    value: String,
    count: usize,
)
    ensures
        env_count(name, count_default, EnvValue::Value(value)) == Ok::<usize, Seq<char>>(count)
            <==> 0 < count && written_number(value@, usize::MAX) == Some(count),
        env_text(name, text_default, EnvValue::Value(value)) is Ok <==> trimmed(value@).len() > 0,
        env_text(name, text_default, EnvValue::Value(value)) matches Ok(accepted) ==> accepted
            == value@,
        env_count(name, count_default, EnvValue::Unset) == Ok::<usize, Seq<char>>(count_default),
        env_text(name, text_default, EnvValue::Unset) == Ok::<Seq<char>, Seq<char>>(text_default),
{
}

/// `result` is `expected`, with the error as a configuration error.
pub open spec fn run_agrees(
    result: Result<FlamegraphRun, BenchError>,
    expected: Result<FlamegraphRun, Seq<char>>,
) -> bool {
    match result {
        Ok(run) => expected == Ok::<FlamegraphRun, Seq<char>>(run),
        Err(BenchError::Config(message)) => expected == Err::<FlamegraphRun, Seq<char>>(message@),
        Err(_) => false,
    }
}

/// Selects the run that the settings name.
///
/// # Errors
///
/// Returns [`BenchError::Config`] for an unknown workload, an unknown allocator, and more
/// operations than can be counted.
pub fn select_run(workload_name: &str, allocator_name: &str, repetitions: usize) -> (result: Result<
    FlamegraphRun,
    BenchError,
>)
    ensures
        run_agrees(result, selected(workload_name@, allocator_name@, repetitions)),
{
    let workload: Workload = match workload_by_name(workload_name) {
        Some(workload) => workload,
        None => {
            let mut message: String = String::from_str("unknown ");
            message.append(WORKLOAD_ENV);
            message.append(" value `");
            message.append(workload_name);
            message.append("`; valid workloads: ");
            let names: String = joined_workload_names();
            message.append(names.as_str());
            return Err(BenchError::Config(message));
        },
    };
    let allocator: AllocatorKind = match AllocatorKind::parse(allocator_name) {
        Some(allocator) => allocator,
        None => {
            let mut message: String = String::from_str("unknown ");
            message.append(ALLOCATOR_ENV);
            message.append(" value `");
            message.append(allocator_name);
            message.append("`; valid allocators: Orthotope, System, mimalloc, jemalloc");
            return Err(BenchError::Config(message));
        },
    };
    match workload.operations.checked_mul(repetitions) {
        Some(samples) => Ok(FlamegraphRun { workload, allocator, repetitions, samples }),
        None => {
            let mut message: String = String::from_str(REPETITIONS_ENV);
            message.append(" is too large for workload `");
            message.append(workload.name);
            message.append("`");
            Err(BenchError::Config(message))
        },
    }
}

/// The run that the environment selects, or the words of the first error.
pub open spec fn configured(
    workload: EnvValue,
    allocator: EnvValue,
    repetitions: EnvValue,
) -> Result<FlamegraphRun, Seq<char>> {
    match env_text(WORKLOAD_ENV@, DEFAULT_FLAMEGRAPH_WORKLOAD@, workload) {
        Err(message) => Err(message),
        Ok(workload_name) => match env_text(
            ALLOCATOR_ENV@,
            DEFAULT_FLAMEGRAPH_ALLOCATOR.label()@,
            allocator,
        ) {
            Err(message) => Err(message),
            Ok(allocator_name) => match env_count(
                REPETITIONS_ENV@,
                DEFAULT_FLAMEGRAPH_REPETITIONS,
                repetitions,
            ) {
                Err(message) => Err(message),
                Ok(count) => selected(workload_name, allocator_name, count),
            },
        },
    }
}

/// Selects the run from what reading the three variables gave.
///
/// # Errors
///
/// Returns [`BenchError::Config`] for the first setting that is not in order.
pub fn configure_run(workload: &EnvValue, allocator: &EnvValue, repetitions: &EnvValue) -> (result:
    Result<FlamegraphRun, BenchError>)
    ensures
        run_agrees(result, configured(*workload, *allocator, *repetitions)),
{
    let workload_name: String = match read_env_or_default(
        WORKLOAD_ENV,
        DEFAULT_FLAMEGRAPH_WORKLOAD,
        workload,
    ) {
        Ok(name) => name,
        Err(error) => {
            return Err(error);
        },
    };
    let allocator_name: String = match read_env_or_default(
        ALLOCATOR_ENV,
        DEFAULT_FLAMEGRAPH_ALLOCATOR.name(),
        allocator,
    ) {
        Ok(name) => name,
        Err(error) => {
            return Err(error);
        },
    };
    let count: usize = match read_usize_env_or_default(
        REPETITIONS_ENV,
        DEFAULT_FLAMEGRAPH_REPETITIONS,
        repetitions,
    ) {
        Ok(count) => count,
        Err(error) => {
            return Err(error);
        },
    };
    select_run(workload_name.as_str(), allocator_name.as_str(), count)
}

/// Returns the help text, line by line.
#[must_use]
pub fn help_lines() -> (lines: Vec<String>)
    ensures
        lines@.len() == 9,
        lines@[0]@ == "Run one allocator workload repeatedly for cargo flamegraph."@,
        lines@[1]@ == Seq::<char>::empty(),
        lines@[2]@ == "Environment variables:"@,
        lines@[3]@ == "  "@ + WORKLOAD_ENV@ + " (default: "@ + DEFAULT_FLAMEGRAPH_WORKLOAD@ + ")"@,
        lines@[4]@ == "  "@ + ALLOCATOR_ENV@ + " (default: "@ + DEFAULT_FLAMEGRAPH_ALLOCATOR.label()@
            + ")"@,
        lines@[5]@ == "  "@ + REPETITIONS_ENV@ + " (default: "@ + text::decimal(
            DEFAULT_FLAMEGRAPH_REPETITIONS as nat,
        ) + ")"@,
        lines@[6]@ == Seq::<char>::empty(),
        lines@[7]@ == "Valid workloads: "@ + joined(bench::table()),
        lines@[8]@ == "Valid allocators: Orthotope, System, mimalloc, jemalloc"@,
{
    let mut lines: Vec<String> = Vec::new();
    lines.push(String::from_str("Run one allocator workload repeatedly for cargo flamegraph."));
    lines.push(String::new());
    lines.push(String::from_str("Environment variables:"));
    let mut line: String = String::from_str("  ");
    line.append(WORKLOAD_ENV);
    line.append(" (default: ");
    line.append(DEFAULT_FLAMEGRAPH_WORKLOAD);
    line.append(")");
    lines.push(line);
    let mut line: String = String::from_str("  ");
    line.append(ALLOCATOR_ENV);
    line.append(" (default: ");
    line.append(DEFAULT_FLAMEGRAPH_ALLOCATOR.name());
    line.append(")");
    lines.push(line);
    let mut line: String = String::from_str("  ");
    line.append(REPETITIONS_ENV);
    line.append(" (default: ");
    append_decimal(&mut line, DEFAULT_FLAMEGRAPH_REPETITIONS);
    line.append(")");
    lines.push(line);
    lines.push(String::new());
    let mut line: String = String::from_str("Valid workloads: ");
    let names: String = joined_workload_names();
    line.append(names.as_str());
    lines.push(line);
    lines.push(String::from_str("Valid allocators: Orthotope, System, mimalloc, jemalloc"));
    lines
}

} // verus!
