use orthotope::backend::{
    allocate_or_report, churn, free_or_report, Churn, ChurnStep, OrthotopeBackend,
};
use orthotope::bench::{
    measure, run_repeated_workload, same_thread_iterations, selected_runs, workload_by_name,
    workload_names, workloads, AllocatorKind, BenchError, MeasureStep, Measurement, RepeatStep,
    RunPlan, TimeUnit, WorkloadKind, MIXED_SIZES, SAME_THREAD_SIZES,
};
use orthotope::flamegraph::{
    accept_count, accept_text, configure_run, help_lines, read_env_or_default,
    read_usize_env_or_default, select_run, EnvValue, ALLOCATOR_ENV, REPETITIONS_ENV, WORKLOAD_ENV,
};
use orthotope::{AllocError, Allocator, AllocatorConfig, FreeError, InitError, ThreadCache};

const PAGE_SIZE: usize = 4_096;

fn value(text: &str) -> EnvValue {
    EnvValue::Value(text.to_string())
}

#[test]
fn repetitions_env_rejects_zero() {
    let error = match read_usize_env_or_default(REPETITIONS_ENV, 400, &value("0")) {
        Ok(value) => panic!("expected zero repetitions to fail, got {value}"),
        Err(error) => error,
    };
    assert_eq!(
        error.message(),
        format!("{REPETITIONS_ENV} must be a positive integer greater than zero")
    );
}

#[test]
fn workload_env_rejects_empty_string() {
    let error = match read_env_or_default(WORKLOAD_ENV, "mixed_size_churn", &value("")) {
        Ok(value) => panic!("expected empty workload env to fail, got {value}"),
        Err(error) => error,
    };
    assert_eq!(
        error.message(),
        format!("{WORKLOAD_ENV} must not be empty when set")
    );
}

#[test]
fn allocator_parser_rejects_unknown_value() {
    assert!(AllocatorKind::parse("bogus").is_none());
}

#[test]
fn allocator_env_uses_default_when_unset() {
    let value = match read_env_or_default(ALLOCATOR_ENV, "Orthotope", &EnvValue::Unset) {
        Ok(value) => value,
        Err(error) => panic!("expected default allocator value, got error: {error:?}"),
    };
    assert_eq!(value, "Orthotope");
}

#[test]
fn blank_values_are_recognized_by_their_white_space() {
    assert!(read_env_or_default(WORKLOAD_ENV, "x", &value(" \t\n\u{3000}")).is_err());
    match read_env_or_default(WORKLOAD_ENV, "x", &value(" y ")) {
        Ok(text) => assert_eq!(text, " y "),
        Err(error) => panic!("expected the value to be accepted: {error:?}"),
    }
    assert!(accept_text(WORKLOAD_ENV, "y", true).is_err());
    match accept_text(WORKLOAD_ENV, "y", false) {
        Ok(text) => assert_eq!(text, "y"),
        Err(error) => panic!("expected the value to be accepted: {error:?}"),
    }
}

#[test]
fn counts_are_parsed_as_decimal_numbers() {
    match read_usize_env_or_default(REPETITIONS_ENV, 400, &value("12")) {
        Ok(count) => assert_eq!(count, 12),
        Err(error) => panic!("expected the count to be accepted: {error:?}"),
    }
    match read_usize_env_or_default(REPETITIONS_ENV, 400, &EnvValue::Unset) {
        Ok(count) => assert_eq!(count, 400),
        Err(error) => panic!("expected the default count: {error:?}"),
    }
    match read_usize_env_or_default(REPETITIONS_ENV, 400, &value("twelve")) {
        Ok(count) => panic!("expected no count, got {count}"),
        Err(error) => assert_eq!(
            error.message(),
            format!("{REPETITIONS_ENV} must be a positive integer: invalid digit found in string")
        ),
    }
    match read_usize_env_or_default(REPETITIONS_ENV, 400, &value("+007")) {
        Ok(count) => assert_eq!(count, 7),
        Err(error) => panic!("expected the count to be accepted: {error:?}"),
    }
    for refused in ["", "+", "-1", "1 ", "1_000", "99999999999999999999"] {
        assert!(read_usize_env_or_default(REPETITIONS_ENV, 400, &value(refused)).is_err());
    }
    match accept_count(REPETITIONS_ENV, Err("cause".to_string())) {
        Ok(count) => panic!("expected no count, got {count}"),
        Err(error) => assert_eq!(
            error.message(),
            format!("{REPETITIONS_ENV} must be a positive integer: cause")
        ),
    }
}

#[test]
fn unreadable_variables_are_reported() {
    let cause = EnvValue::Unreadable("not unicode".to_string());
    for error in [
        read_env_or_default(WORKLOAD_ENV, "x", &cause).err(),
        read_usize_env_or_default(WORKLOAD_ENV, 1, &cause).err(),
    ] {
        match error {
            Some(error) => assert_eq!(
                error.message(),
                format!("failed to read {WORKLOAD_ENV}: not unicode")
            ),
            None => panic!("expected an error"),
        }
    }
}

#[test]
fn settings_select_a_run() {
    let run = configure_run(&EnvValue::Unset, &EnvValue::Unset, &EnvValue::Unset)
        .unwrap_or_else(|error| panic!("expected the defaults to be accepted: {error:?}"));
    assert_eq!(run.workload.name, "mixed_size_churn");
    assert_eq!(run.allocator, AllocatorKind::Orthotope);
    assert_eq!(run.repetitions, 400);
    assert_eq!(run.samples, 400 * 120_000);

    let run = configure_run(&value("large_path"), &value("jemalloc"), &value("2"))
        .unwrap_or_else(|error| panic!("expected the settings to be accepted: {error:?}"));
    assert_eq!(run.workload.name, "large_path");
    assert_eq!(run.allocator, AllocatorKind::Jemalloc);
    assert_eq!((run.repetitions, run.samples), (2, 2_400));
}

#[test]
fn unknown_settings_are_named_in_the_error() {
    let message = |result: Result<_, BenchError>| match result {
        Ok(_) => panic!("expected the setting to be refused"),
        Err(error) => error.message(),
    };
    assert_eq!(
        message(select_run("bogus", "System", 1)),
        format!(
            "unknown {WORKLOAD_ENV} value `bogus`; valid workloads: {}",
            workload_names().join(", ")
        )
    );
    assert_eq!(
        message(select_run("large_path", "bogus", 1)),
        format!(
            "unknown {ALLOCATOR_ENV} value `bogus`; valid allocators: Orthotope, System, \
             mimalloc, jemalloc"
        )
    );
    assert_eq!(
        message(select_run("large_path", "System", usize::MAX)),
        format!("{REPETITIONS_ENV} is too large for workload `large_path`")
    );
}

#[test]
fn help_names_settings_and_choices() {
    let lines = help_lines();
    assert_eq!(lines.len(), 9);
    assert_eq!(
        lines[0],
        "Run one allocator workload repeatedly for cargo flamegraph."
    );
    assert_eq!(lines[3], format!("  {WORKLOAD_ENV} (default: mixed_size_churn)"));
    assert_eq!(lines[4], format!("  {ALLOCATOR_ENV} (default: Orthotope)"));
    assert_eq!(lines[5], format!("  {REPETITIONS_ENV} (default: 400)"));
    assert_eq!(
        lines[7],
        format!("Valid workloads: {}", workload_names().join(", "))
    );
}

#[test]
fn every_allocator_is_parsed_from_its_name() {
    for kind in AllocatorKind::ALL {
        assert_eq!(AllocatorKind::parse(kind.name()), Some(kind));
    }
    assert_eq!(AllocatorKind::parse("orthotope"), Some(AllocatorKind::Orthotope));
    assert_eq!(AllocatorKind::parse("system"), Some(AllocatorKind::System));
    assert_eq!(AllocatorKind::parse("MiMalloc"), Some(AllocatorKind::MiMalloc));
    assert_eq!(AllocatorKind::parse("Jemalloc"), Some(AllocatorKind::Jemalloc));
    assert_eq!(AllocatorKind::parse("SYSTEM"), None);
    assert_eq!(AllocatorKind::parse(""), None);
    assert_eq!(TimeUnit::Nanoseconds.suffix(), "ns");
    assert_eq!(TimeUnit::Microseconds.suffix(), "us");
}

#[test]
fn table_lists_every_workload_once() {
    let table = workloads();
    assert_eq!(table.len(), SAME_THREAD_SIZES.len() + 6);
    for (workload, size) in table.iter().zip(SAME_THREAD_SIZES) {
        assert_eq!(workload.name, format!("same_thread_small_churn/{size}"));
        assert_eq!(workload.kind, WorkloadKind::SameThreadSmallChurn(size));
        assert_eq!(workload.operations, same_thread_iterations(size));
    }
    let names = workload_names();
    assert_eq!(names.len(), table.len());
    for (index, workload) in table.iter().enumerate() {
        assert_eq!(names[index], workload.name);
        assert!(!names[index + 1..].contains(&workload.name));
        let found = workload_by_name(workload.name)
            .unwrap_or_else(|| panic!("expected {} to be found", workload.name));
        assert_eq!(found.kind, workload.kind);
    }
    assert!(workload_by_name("bogus").is_none());
    assert_eq!(same_thread_iterations(64), 6_000_000);
    assert_eq!(same_thread_iterations(65), 3_000_000);
    assert_eq!(same_thread_iterations(4_097), 600_000);
}

#[test]
fn plans_run_as_many_rounds_as_operations_are_counted() {
    for workload in workloads() {
        let plan = RunPlan::for_kind(workload.kind);
        let rounds = match &plan {
            RunPlan::Churn { iterations, .. } => *iterations,
            RunPlan::ConcurrentLarge {
                threads,
                iterations,
            } => threads * iterations,
            RunPlan::Handoff { pairs, iterations } => pairs * iterations,
        };
        assert_eq!(rounds, workload.operations, "{}", workload.name);
    }
    let handoff = RunPlan::for_kind(WorkloadKind::LongLivedHandoff4x);
    assert_eq!((handoff.worker_count(), handoff.barrier_parties()), (8, 9));
    let large = RunPlan::for_kind(WorkloadKind::ConcurrentLarge4x);
    assert_eq!((large.worker_count(), large.barrier_parties()), (4, 5));
    match RunPlan::for_kind(WorkloadKind::MixedSizeChurn) {
        RunPlan::Churn { sizes, .. } => assert_eq!(sizes, MIXED_SIZES.to_vec()),
        plan => panic!("expected a churn plan, got {plan:?}"),
    }
    match RunPlan::for_kind(WorkloadKind::EmbeddingBatch) {
        RunPlan::Churn { sizes, .. } => assert_eq!(sizes, vec![6_144; 8]),
        plan => panic!("expected a churn plan, got {plan:?}"),
    }
}

#[test]
fn filters_select_the_measurements() {
    assert_eq!(selected_runs(None, None).len(), 11 * 4);
    let runs = selected_runs(Some("large_path"), None);
    let kinds: Vec<AllocatorKind> = runs.iter().map(|run| run.1).collect();
    assert_eq!(kinds, AllocatorKind::ALL.to_vec());
    let runs = selected_runs(None, Some("mimalloc"));
    assert_eq!(runs.len(), 11);
    assert!(runs.iter().all(|run| run.1 == AllocatorKind::MiMalloc));
    assert!(selected_runs(Some("bogus"), None).is_empty());
}

#[test]
fn measurement_warms_up_and_reports_the_median() {
    let workload = workloads()[0];
    let mut measurement = Measurement::new();
    let mut runs = 0;
    let durations = [9, 9, 9, 50, 10, 40, 20, 30, 90, 80, 60, 70];
    let median = loop {
        match measure(workload, AllocatorKind::System, &measurement) {
            MeasureStep::Run(kind, allocator) => {
                assert_eq!(kind, workload.kind);
                assert_eq!(allocator, AllocatorKind::System);
                measurement.record(durations[runs]);
                runs += 1;
            }
            MeasureStep::Finished(median) => break median,
        }
    };
    assert_eq!(runs, 12);
    assert_eq!(median, 50);
}

#[test]
fn repetitions_are_counted() {
    let workload = workloads()[3];
    let mut completed = 0;
    while run_repeated_workload(workload, AllocatorKind::System, 5, completed)
        == RepeatStep::Run(workload.kind, AllocatorKind::System)
    {
        completed += 1;
    }
    assert_eq!(completed, 5);
    assert_eq!(
        run_repeated_workload(workload, AllocatorKind::System, 0, 0),
        RepeatStep::Finished
    );
}

#[test]
fn backend_over_a_failed_allocator_words_its_error() {
    let config = AllocatorConfig::default();
    match OrthotopeBackend::of_allocator(
        Err(InitError::InvalidConfig("alignment must be a power of two")),
        config,
        1,
    ) {
        Ok(_) => panic!("expected the error of the allocator"),
        Err(error) => assert_eq!(
            error.message(),
            "orthotope init failed: invalid allocator configuration: alignment must be a power of two"
        ),
    }
}

#[test]
fn backend_over_an_allocator_serves_its_requests() {
    let config = AllocatorConfig {
        arena_size: 1 << 16,
        ..AllocatorConfig::default()
    };
    let mut backend = OrthotopeBackend::of_allocator(Allocator::new(config, 1, PAGE_SIZE), config, 1)
        .unwrap_or_else(|error| panic!("expected the backend to initialize: {error:?}"));
    assert!(backend.allocate(32).is_ok());
    match backend.allocate(1 << 20) {
        Ok(_) => panic!("expected the arena to be too small"),
        Err(error) => assert!(error.message().contains("orthotope allocation failed: allocator out of memory")),
    }
    assert!(backend.take_sweep_request(orthotope::SizeClass::B64).is_none());
    assert!(!backend.complete_sweep(orthotope::SizeClass::B64, 64, true));
}

#[test]
fn churn_leaves_nothing_live() {
    let mut backend = OrthotopeBackend::new(1, 1, PAGE_SIZE)
        .unwrap_or_else(|error| panic!("expected the backend to initialize: {error:?}"));
    assert!(churn(&mut backend, 50, MIXED_SIZES.to_vec()).is_ok());
    assert!(churn(&mut backend, 3, vec![20_971_520]).is_ok());
    assert!(churn(&mut backend, 5, vec![]).is_ok());
    let user = backend
        .allocate(32)
        .unwrap_or_else(|error| panic!("expected allocation to succeed: {error:?}"));
    assert!(churn(&mut backend, 1, MIXED_SIZES.to_vec()).is_ok());
    assert!(backend.deallocate(user, 32).is_ok());
}

#[test]
fn rounds_free_what_they_allocated_last_block_first() {
    let mut churn = Churn::new(2, vec![10, 20]);
    let mut steps = Vec::new();
    let mut next_user = 100;
    loop {
        let step = churn.next_step();
        steps.push(step);
        match step {
            ChurnStep::Allocate(_) => {
                churn.allocated(next_user);
                next_user += 1;
            }
            ChurnStep::Free(_, _) => churn.freed(),
            ChurnStep::Finished => break,
        }
    }
    assert_eq!(
        steps,
        vec![
            ChurnStep::Allocate(10),
            ChurnStep::Allocate(20),
            ChurnStep::Free(101, 20),
            ChurnStep::Free(100, 10),
            ChurnStep::Allocate(10),
            ChurnStep::Allocate(20),
            ChurnStep::Free(103, 20),
            ChurnStep::Free(102, 10),
            ChurnStep::Finished,
        ]
    );
    assert_eq!(Churn::new(0, vec![10]).next_step(), ChurnStep::Finished);
    assert_eq!(Churn::new(7, vec![]).next_step(), ChurnStep::Finished);
}

#[test]
fn failing_rounds_report_the_allocation() {
    let mut backend = OrthotopeBackend::new(1, 1, PAGE_SIZE)
        .unwrap_or_else(|error| panic!("expected the backend to initialize: {error:?}"));
    match churn(&mut backend, 2, vec![32, 0]) {
        Err(error) => assert_eq!(
            error.message(),
            "orthotope allocation failed: allocation size must be greater than zero"
        ),
        Ok(()) => panic!("expected the round to fail"),
    }
    match backend.allocate(1 << 31) {
        Err(error) => {
            assert!(error
                .message()
                .starts_with("orthotope allocation failed: allocator out of memory: requested 2147483648 bytes, remaining "));
        }
        Ok(_) => panic!("expected the request to fail"),
    }
}

#[test]
fn handed_off_blocks_are_freed_by_the_other_cache() {
    let config = AllocatorConfig {
        arena_size: 1 << 20,
        alignment: 64,
        refill_target_bytes: 1 << 10,
        local_cache_target_bytes: 1 << 11,
    };
    let mut allocator = Allocator::new(config, 1, PAGE_SIZE)
        .unwrap_or_else(|error| panic!("expected allocator to initialize: {error:?}"));
    let mut producer = ThreadCache::new(config, 1);
    let mut consumer = ThreadCache::new(config, 2);

    for _ in 0..5_000 {
        let user = allocate_or_report(&mut allocator, &mut producer, 256, "allocation: ")
            .unwrap_or_else(|error| panic!("expected the producer to allocate: {error:?}"));
        assert!(free_or_report(&mut allocator, &mut consumer, user, None, 256, "free: ").is_ok());
    }
    let user = allocate_or_report(&mut allocator, &mut producer, 256, "allocation: ")
        .unwrap_or_else(|error| panic!("expected the producer to allocate: {error:?}"));
    match free_or_report(&mut allocator, &mut consumer, user, None, 255, "free: ") {
        Err(error) => assert_eq!(
            error.message(),
            "free: provided size 255 does not match recorded allocation size 256"
        ),
        Ok(()) => panic!("expected the free to be refused"),
    }
}

#[test]
fn errors_are_worded() {
    assert_eq!(
        AllocError::OutOfMemory {
            requested: 0,
            remaining: 10_203,
        }
        .message(),
        "allocator out of memory: requested 0 bytes, remaining 10203 bytes"
    );
    assert_eq!(
        AllocError::GlobalInitFailed.message(),
        "global allocator initialization failed"
    );
    assert_eq!(
        FreeError::SizeMismatch {
            provided: 7,
            recorded: usize::MAX,
        }
        .message(),
        format!(
            "provided size 7 does not match recorded allocation size {}",
            usize::MAX
        )
    );
    assert_eq!(
        FreeError::GlobalInitFailed.message(),
        "global allocator initialization failed"
    );
    assert_eq!(
        FreeError::ForeignPointer.message(),
        "pointer does not belong to this allocator"
    );
    assert_eq!(
        FreeError::DoubleFree.message(),
        "small allocation was already freed"
    );
    assert_eq!(
        FreeError::AlreadyFreedOrUnknownLarge.message(),
        "large allocation was already freed or is unknown"
    );
    assert_eq!(FreeError::CorruptHeader.message(), "allocation header is corrupt");
    assert_eq!(
        InitError::InvalidConfig("text").message(),
        "invalid allocator configuration: text"
    );
    let cause = std::io::Error::other("cause");
    assert_eq!(
        InitError::MapFailed(cause).message(),
        "failed to create arena mapping: cause"
    );
    assert_eq!(
        BenchError::from(std::io::Error::other("cause")).message(),
        "cause"
    );
}
