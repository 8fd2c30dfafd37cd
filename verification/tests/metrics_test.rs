use procpulse::metrics::{MetricAccumulator, SizeGauge, SystemAccumulator};
use procpulse::monitor::{cycle_delta, ProcessReading, TrackedInstance};
use procpulse::win32::{ProcessMemory, ProcessTimes};

const MB: u64 = 1024 * 1024;

/// The average of a size over some samples, in MB.
fn average_mb(gauge: &SizeGauge, count: u32) -> f64 {
    if count == 0 {
        0.0
    } else {
        gauge.sum_bytes as f64 / (1024.0 * 1024.0) / count as f64
    }
}

fn peak_mb(gauge: &SizeGauge) -> f64 {
    gauge.peak_bytes as f64 / (1024.0 * 1024.0)
}

fn instance() -> TrackedInstance {
    TrackedInstance {
        pid: 1,
        executable: "a.exe".to_string(),
        args: String::new(),
        prev_proc_time: 0,
        prev_sample_instant: None,
        prev_cycle_count: None,
        cycle_warned: false,
        accumulator: MetricAccumulator::new(),
    }
}

fn reading(proc_time: u64, cycles: Option<u64>) -> ProcessReading {
    ProcessReading {
        times: Some(ProcessTimes { kernel_time: 0, user_time: proc_time }),
        memory: Some(ProcessMemory {
            working_set_bytes: 100 * MB,
            private_bytes: 50 * MB,
            private_active_bytes: 30 * MB,
        }),
        cycles,
    }
}

const SECOND: u128 = 1_000_000_000;

#[test]
fn test_metric_accumulator_math() {
    let mut acc = MetricAccumulator::new();
    assert_eq!(average_mb(&acc.ram_ws, acc.sample_count), 0.0);
    assert_eq!(average_mb(&acc.ram_priv, acc.sample_count), 0.0);
    assert_eq!(average_mb(&acc.ram_priv_active, acc.sample_count), 0.0);
    assert_eq!(acc.cpu_cycles_total, 0);
    assert_eq!(acc.cpu_time_100ns_total, 0);
    assert_eq!(acc.cpu_time_ms(), 0);

    acc.record_sample(15_000_000, Some(500_000), 100 * MB, 50 * MB, 30 * MB);
    acc.record_sample(25_000_000, Some(750_000), 200 * MB, 70 * MB, 40 * MB);

    assert_eq!(acc.sample_count, 2);
    assert_eq!(acc.cpu_cycles_total, 1_250_000);
    assert_eq!(acc.cpu_time_100ns_total, 40_000_000);
    assert_eq!(acc.cpu_time_ms(), 4_000);
    assert_eq!(acc.app_cpu_time_ms(), 4_000);
    assert_eq!(peak_mb(&acc.ram_ws), 200.0);
    assert_eq!(peak_mb(&acc.ram_priv), 70.0);
    assert_eq!(peak_mb(&acc.ram_priv_active), 40.0);

    assert_eq!(average_mb(&acc.ram_ws, acc.sample_count), 150.0);
    assert_eq!(average_mb(&acc.ram_priv, acc.sample_count), 60.0);
    assert_eq!(average_mb(&acc.ram_priv_active, acc.sample_count), 35.0);

    acc.reset();
    assert_eq!(acc.sample_count, 0);
    assert_eq!(acc.cpu_cycles_total, 0);
    assert_eq!(acc.cpu_time_100ns_total, 0);
    assert_eq!(acc.cpu_time_ms(), 0);
    assert_eq!(average_mb(&acc.ram_ws, acc.sample_count), 0.0);
    assert_eq!(acc, MetricAccumulator::default());
}

#[test]
fn test_system_accumulator_math() {
    let mut sys_acc = SystemAccumulator::new();
    sys_acc.record_sample(8000 * MB);
    sys_acc.record_sample(8200 * MB);

    assert_eq!(sys_acc.sample_count, 2);
    assert_eq!(peak_mb(&sys_acc.ram_used), 8200.0);
    assert_eq!(average_mb(&sys_acc.ram_used, sys_acc.sample_count), 8100.0);

    sys_acc.reset();
    assert_eq!(sys_acc, SystemAccumulator::default());
}

#[test]
fn accumulators_hold_sums_and_peaks() {
    let samples: [(u64, Option<u64>, u64); 4] =
        [(5, Some(7), 30), (u64::MAX, None, 90), (2, Some(1), 0), (1, None, 60)];
    let mut acc = MetricAccumulator::new();
    let mut machine = SystemAccumulator::new();
    for (time, cycles, size) in samples {
        acc.record_sample(time, cycles, size, size + 1, size + 2);
        machine.record_sample(size);
    }
    assert_eq!(acc.sample_count, 4);
    assert_eq!(acc.cpu_time_100ns_total, u64::MAX);
    assert_eq!(acc.cpu_cycles_total, 8);
    assert_eq!((acc.ram_ws.sum_bytes, acc.ram_ws.peak_bytes), (180, 90));
    assert_eq!((acc.ram_priv.sum_bytes, acc.ram_priv.peak_bytes), (184, 91));
    assert_eq!((acc.ram_priv_active.sum_bytes, acc.ram_priv_active.peak_bytes), (188, 92));
    assert_eq!(machine.sample_count, 4);
    assert_eq!((machine.ram_used.sum_bytes, machine.ram_used.peak_bytes), (180, 90));
}

#[test]
fn test_first_sample_produces_no_cpu_emission() {
    let mut t = instance();

    // First sample
    let first = t.sample(5 * SECOND, reading(10_000_000, None));
    assert!(first.cpu.is_none());
    assert_eq!(t.accumulator.sample_count, 0);

    // Second sample after 2 seconds
    let second = t.sample(7 * SECOND, reading(30_000_000, None)).cpu.unwrap();
    assert_eq!(second.proc_delta_100ns, 20_000_000);
    assert_eq!(second.elapsed_nanos, 2 * SECOND);
    let pct = second.proc_delta_100ns as f64 / 10_000_000.0
        / (second.elapsed_nanos as f64 / 1e9 * 8.0)
        * 100.0;
    assert!((pct - 12.5).abs() < 1e-6);

    assert_eq!(t.accumulator.sample_count, 1);
    assert_eq!(t.accumulator.cpu_time_100ns_total, 20_000_000);
    assert_eq!(t.accumulator.cpu_time_ms(), 2_000);
}

#[test]
fn test_cycle_first_sample_establishes_baseline_and_contributes_zero() {
    let mut accumulator = MetricAccumulator::new();

    let current_cycles = 120_000_000_000u64;
    let (prev_cycles, delta) = cycle_delta(None, Some(current_cycles));

    assert_eq!(delta, None);
    assert_eq!(prev_cycles, Some(current_cycles));
    accumulator.record_sample(0, delta, 100 * MB, 50 * MB, 30 * MB);
    assert_eq!(accumulator.cpu_cycles_total, 0);
}

#[test]
fn test_cycle_subsequent_samples_accumulate_delta() {
    let mut accumulator = MetricAccumulator::new();

    let current_cycles = 121_250_000_000u64;
    let (prev_cycles, delta) = cycle_delta(Some(120_000_000_000), Some(current_cycles));

    assert_eq!(delta, Some(1_250_000_000));
    assert_eq!(prev_cycles, Some(current_cycles));
    accumulator.record_sample(0, delta, 100 * MB, 50 * MB, 30 * MB);
    assert_eq!(accumulator.cpu_cycles_total, 1_250_000_000);
}

#[test]
fn test_cycle_multiple_deltas_summed_correctly() {
    let mut accumulator = MetricAccumulator::new();
    accumulator.record_sample(0, Some(500_000_000), 100 * MB, 50 * MB, 30 * MB);
    accumulator.record_sample(0, Some(750_000_000), 100 * MB, 50 * MB, 30 * MB);
    accumulator.record_sample(0, Some(250_000_000), 100 * MB, 50 * MB, 30 * MB);

    assert_eq!(accumulator.cpu_cycles_total, 1_500_000_000);
}

#[test]
fn test_cycle_aggregation_reset_clears_total() {
    let mut accumulator = MetricAccumulator::new();
    accumulator.record_sample(0, Some(1_000_000_000), 100 * MB, 50 * MB, 30 * MB);
    assert_eq!(accumulator.cpu_cycles_total, 1_000_000_000);

    accumulator.reset();
    assert_eq!(accumulator.cpu_cycles_total, 0);
    assert_eq!(accumulator.sample_count, 0);
}

#[test]
fn test_cycle_query_failure_does_not_corrupt_baseline() {
    let mut accumulator = MetricAccumulator::new();

    // Failed query: the baseline is not advanced
    let (prev_cycles, delta) = cycle_delta(Some(100_000_000), None);

    assert_eq!(delta, None);
    assert_eq!(prev_cycles, Some(100_000_000)); // Baseline intact!
    accumulator.record_sample(0, delta, 100 * MB, 50 * MB, 30 * MB);
    assert_eq!(accumulator.cpu_cycles_total, 0);

    // Next query succeeds at 150_000_000
    let (prev_cycles, delta_2) = cycle_delta(prev_cycles, Some(150_000_000));

    assert_eq!(delta_2, Some(50_000_000));
    assert_eq!(prev_cycles, Some(150_000_000));
    accumulator.record_sample(0, delta_2, 100 * MB, 50 * MB, 30 * MB);
    assert_eq!(accumulator.cpu_cycles_total, 50_000_000);
}

#[test]
fn test_cycle_failure_does_not_prevent_cpu_ram_recording() {
    let mut accumulator = MetricAccumulator::new();
    // Cycle is None, but CPU time and RAM are present
    accumulator.record_sample(10_000_000, None, 512 * MB, 256 * MB, 180 * MB);

    assert_eq!(accumulator.sample_count, 1);
    assert_eq!(accumulator.cpu_cycles_total, 0);
    assert_eq!(accumulator.cpu_time_100ns_total, 10_000_000);
    assert_eq!(accumulator.cpu_time_ms(), 1_000);
    assert_eq!(average_mb(&accumulator.ram_ws, 1), 512.0);
    assert_eq!(average_mb(&accumulator.ram_priv, 1), 256.0);
    assert_eq!(average_mb(&accumulator.ram_priv_active, 1), 180.0);
}

#[test]
fn test_cycle_new_process_starts_with_fresh_baseline() {
    // PID 1000 runs, exits
    let mut pid_1000_baseline: Option<u64> = Some(50_000_000_000);
    let _ = pid_1000_baseline.take();

    // PID 2000 starts with fresh baseline
    let pid_2000_sample_1 = 10_000_000u64;
    let (pid_2000_baseline, delta_1) = cycle_delta(pid_1000_baseline, Some(pid_2000_sample_1));

    assert_eq!(delta_1, None); // Fresh baseline, no delta against old PID
    assert_eq!(pid_2000_baseline, Some(10_000_000));
}

#[test]
fn test_cycle_large_u64_preserves_precision() {
    let mut accumulator = MetricAccumulator::new();
    let large_delta: u64 = 18_446_744_073_000;
    accumulator.record_sample(0, Some(large_delta), 100 * MB, 50 * MB, 30 * MB);

    assert_eq!(accumulator.cpu_cycles_total, 18_446_744_073_000);
}

#[test]
fn test_cpu_time_multiple_deltas_summed_correctly() {
    let mut accumulator = MetricAccumulator::new();
    // Three samples: 15ms, 25ms, 10ms in 100ns units
    accumulator.record_sample(150_000, None, 100 * MB, 50 * MB, 30 * MB);
    accumulator.record_sample(250_000, None, 100 * MB, 50 * MB, 30 * MB);
    accumulator.record_sample(100_000, None, 100 * MB, 50 * MB, 30 * MB);

    assert_eq!(accumulator.sample_count, 3);
    assert_eq!(accumulator.cpu_time_100ns_total, 500_000);
    assert_eq!(accumulator.cpu_time_ms(), 50);
    assert_eq!(accumulator.app_cpu_time_ms(), 50);
}

#[test]
fn test_cpu_time_aggregation_reset_clears_total() {
    let mut accumulator = MetricAccumulator::new();
    accumulator.record_sample(10_000_000, None, 100 * MB, 50 * MB, 30 * MB);
    assert_eq!(accumulator.cpu_time_100ns_total, 10_000_000);
    assert_eq!(accumulator.cpu_time_ms(), 1_000);

    accumulator.reset();
    assert_eq!(accumulator.cpu_time_100ns_total, 0);
    assert_eq!(accumulator.cpu_time_ms(), 0);
    assert_eq!(accumulator.sample_count, 0);
}

#[test]
fn test_cpu_time_first_sample_establishes_baseline_and_contributes_zero() {
    let mut t = instance();
    let initial_proc_time = 50_000_000_000u64; // e.g. 5000s existing CPU time

    // Sample 1 (baseline)
    t.sample(0, reading(initial_proc_time, None));

    // Baseline established: 0 samples and 0 CPU time in accumulator
    assert_eq!(t.accumulator.sample_count, 0);
    assert_eq!(t.accumulator.cpu_time_100ns_total, 0);
    assert_eq!(t.accumulator.cpu_time_ms(), 0);

    // Sample 2 (1 second later, process used 50ms = 500_000 ticks)
    t.sample(SECOND, reading(initial_proc_time + 500_000, None));

    assert_eq!(t.accumulator.sample_count, 1);
    assert_eq!(t.accumulator.cpu_time_100ns_total, 500_000);
    assert_eq!(t.accumulator.cpu_time_ms(), 50);
}

#[test]
fn test_cpu_time_failed_sample_does_not_advance_or_corrupt_baseline() {
    let mut t = instance();
    t.prev_proc_time = 100_000_000;
    t.prev_sample_instant = Some(0);

    // Failed query of the CPU times
    let mut failed = reading(110_000_000, None);
    failed.times = None;
    t.sample(SECOND, failed);

    // Baselines untouched, no accumulation
    assert_eq!(t.prev_proc_time, 100_000_000);
    assert_eq!(t.accumulator.sample_count, 0);
    assert_eq!(t.accumulator.cpu_time_100ns_total, 0);

    // Next sample succeeds: process time is now 120_000_000
    t.sample(2 * SECOND, reading(120_000_000, None));

    // Correct delta computed spanning across the failed tick
    assert_eq!(t.accumulator.sample_count, 1);
    assert_eq!(t.accumulator.cpu_time_100ns_total, 20_000_000);
    assert_eq!(t.accumulator.cpu_time_ms(), 2_000);
    assert_eq!(t.prev_proc_time, 120_000_000);
}

#[test]
fn test_cpu_time_100ns_to_ms_conversion_truncation_avoidance() {
    let mut accumulator = MetricAccumulator::new();

    // 10 samples of 5_000 100ns units (0.5 ms each)
    for _ in 0..10 {
        accumulator.record_sample(5_000, None, 100 * MB, 50 * MB, 30 * MB);
    }

    assert_eq!(accumulator.sample_count, 10);
    assert_eq!(accumulator.cpu_time_100ns_total, 50_000);
    assert_eq!(accumulator.cpu_time_ms(), 5);
    assert_eq!(accumulator.app_cpu_time_ms(), 5);
}

#[test]
fn totals_stop_at_the_largest_number() {
    let mut accumulator = MetricAccumulator::new();
    accumulator.record_sample(u64::MAX, Some(u64::MAX), u64::MAX, 0, 1);
    accumulator.record_sample(1, Some(1), u64::MAX, 2, 0);
    assert_eq!(accumulator.cpu_time_100ns_total, u64::MAX);
    assert_eq!(accumulator.cpu_cycles_total, u64::MAX);
    assert_eq!(accumulator.ram_ws.sum_bytes, 2 * u64::MAX as u128);
    assert_eq!(accumulator.ram_priv.peak_bytes, 2);
    assert_eq!(accumulator.ram_priv_active, SizeGauge { sum_bytes: 1, peak_bytes: 1 });
}

#[test]
fn sample_without_memory_changes_nothing() {
    let mut t = instance();
    t.sample(1, reading(10, Some(5)));
    let mut failed = reading(20, None);
    failed.memory = None;
    let outcome = t.sample(2, failed);
    assert!(outcome.cpu.is_none());
    assert!(!outcome.warn_cycles);
    assert_eq!(t.prev_proc_time, 10);
    assert_eq!(t.prev_sample_instant, Some(1));
    assert_eq!(t.prev_cycle_count, Some(5));
    assert!(!t.cycle_warned);
}

#[test]
fn cycle_warning_comes_once() {
    let mut t = instance();
    assert!(t.sample(1, reading(10, None)).warn_cycles);
    assert!(!t.sample(2, reading(20, None)).warn_cycles);
    assert!(!t.sample(3, reading(30, Some(7))).warn_cycles);
    assert!(!t.sample(4, reading(40, None)).warn_cycles);
    assert_eq!(t.prev_cycle_count, Some(7));
    assert_eq!(t.accumulator.sample_count, 3);
}

#[test]
fn window_totals_are_the_differences_of_the_counters() {
    let mut t = instance();
    t.sample(0, reading(1_000, Some(70)));
    t.sample(1, reading(1_500, None));
    t.sample(2, reading(1_600, Some(95)));
    let mut failed = reading(1_650, Some(96));
    failed.memory = None;
    t.sample(3, failed);
    t.sample(4, reading(1_700, Some(100)));
    assert_eq!(t.accumulator.sample_count, 3);
    assert_eq!(t.accumulator.cpu_time_100ns_total, 700);
    assert_eq!(t.accumulator.cpu_cycles_total, 30);
}

#[test]
fn counters_that_run_backwards_count_as_no_use() {
    let mut t = instance();
    t.sample(10, reading(1_000, Some(70)));
    let outcome = t.sample(9, reading(900, Some(60)));
    let cpu = outcome.cpu.unwrap();
    assert_eq!(cpu.proc_delta_100ns, 0);
    assert_eq!(cpu.elapsed_nanos, 0);
    assert_eq!(t.accumulator.cpu_cycles_total, 0);
    assert_eq!(t.prev_proc_time, 900);
}
