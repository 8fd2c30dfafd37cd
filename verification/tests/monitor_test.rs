use procpulse::config::Config;
use procpulse::monitor::{may_fit, system_load};
use procpulse::monitor::{Discovery, ExitReport, MeasuredTexts, OpenWarning, ProcessDetails};
use procpulse::monitor::{ProcessMonitor, ProcessReading, SystemLoad};
use procpulse::path::PathStyle;
use procpulse::schedule::{is_shutdown_event, sleep_ms, sleep_step};
use procpulse::session::{is_open_trace, session_name, trace_properties};
use procpulse::session::{Answer, PrivilegePhase, SessionPhase};
use procpulse::win32::{ProcessMemory, ProcessTimes, SystemMemory, SystemTimes};

const SECOND: u128 = 1_000_000_000;

fn monitor(targets: &[&str]) -> ProcessMonitor {
    let mut config = Config::default();
    config.target_patterns = targets.iter().map(|s| s.to_string()).collect();
    ProcessMonitor::new(config, 0)
}

fn reading(proc_time: u64) -> ProcessReading {
    ProcessReading {
        times: Some(ProcessTimes { kernel_time: proc_time, user_time: 0 }),
        memory: Some(ProcessMemory {
            working_set_bytes: 100,
            private_bytes: 50,
            private_active_bytes: 30,
        }),
        cycles: Some(proc_time * 10),
    }
}

fn system(at: u64) -> Option<SystemTimes> {
    Some(SystemTimes { idle_time: at, kernel_time: 2 * at, user_time: at })
}

#[test]
fn discovery_is_due_at_once_and_then_by_the_interval() {
    let mut m = monitor(&["a.exe"]);
    assert!(m.discovery_due(0));
    m.discovered(10 * SECOND);
    assert!(!m.discovery_due(10 * SECOND));
    assert!(!m.discovery_due(16 * SECOND - 1));
    assert!(m.discovery_due(16 * SECOND));
    assert!(!m.discovery_due(5 * SECOND));
}

#[test]
fn flush_is_due_by_the_interval() {
    let mut m = monitor(&["a.exe"]);
    assert!(!m.flush_due(60 * SECOND - 1));
    assert!(m.flush_due(60 * SECOND));
    m.flushed(61 * SECOND);
    assert!(!m.flush_due(120 * SECOND));
    assert!(m.flush_due(121 * SECOND));
}

#[test]
fn quick_match_goes_by_the_last_component() {
    let m = monitor(&["worker-*.exe", "apps/svc.exe"]);
    assert!(m.quick_match("WORKER-1.exe"));
    assert!(m.quick_match("svc.exe"));
    assert!(!m.quick_match("other.exe"));
    assert!(!m.quick_match("apps"));
    assert!(!monitor(&[]).quick_match("a.exe"));
    assert!(monitor(&[".."]).quick_match(".."));
}

#[test]
fn quick_match_goes_by_the_style_of_paths() {
    let style = PathStyle::of(std::path::is_separator('\\'));
    let system = monitor(&[r"C:\Apps\svc.exe"]);
    assert_eq!(system.quick_match("svc.exe"), style == PathStyle::Windows);
    assert_eq!(system.is_candidate(1, "svc.exe"), style == PathStyle::Windows);
    let m = monitor(&[r"C:\Apps\svc*.exe", "bin/"]);
    assert!(m.quick_match_in(PathStyle::Windows, "svc1.exe"));
    assert!(!m.quick_match_in(PathStyle::Slash, "svc1.exe"));
    assert!(m.quick_match_in(PathStyle::Slash, r"c:\apps\svc.exe"));
    assert!(m.quick_match_in(PathStyle::Slash, "bin"));
    assert!(m.quick_match_in(PathStyle::Windows, "BIN"));
}

#[test]
fn patterns_and_their_last_components() {
    assert!(may_fit("dir/a?.exe", Some("a?.exe"), "ab.exe"));
    assert!(!may_fit("dir/a?.exe", Some("a?.exe"), "dir/ab.exe"));
    assert!(may_fit("dir/a?.exe", None, "dir/ab.exe"));
}

#[test]
fn tracked_processes_are_no_candidates() {
    let mut m = monitor(&["a.exe"]);
    assert!(m.is_candidate(7, "a.exe"));
    m.track(7, "a.exe".to_string(), None);
    assert!(!m.is_candidate(7, "a.exe"));
    assert!(m.is_candidate(8, "a.exe"));
    assert!(!m.is_candidate(8, "b.exe"));
    assert!(m.tracks(7));
    assert!(!m.tracks(8));
}

#[test]
fn path_patterns_go_by_the_full_path() {
    let m = monitor(&[r"C:\Apps\*.exe", "b.exe"]);
    assert!(m.matches_any_target("svc.exe", Some(r"c:\apps\svc.exe")));
    assert!(!m.matches_any_target("svc.exe", Some(r"C:\Other\svc.exe")));
    assert!(!m.matches_any_target("svc.exe", None));
    assert!(m.matches_any_target("b.exe", None));
    assert!(!m.matches_any_target(r"C:\Apps\x.exe", None));
}

#[test]
fn the_full_path_is_wanted_where_it_decides() {
    assert!(monitor(&["x/y", "a.exe"]).full_path_wanted("a.exe"));
    assert!(!monitor(&["a.exe", "x/y"]).full_path_wanted("a.exe"));
    assert!(monitor(&["a.exe", r"x\y"]).full_path_wanted("b.exe"));
    assert!(!monitor(&["a.exe", "c.exe"]).full_path_wanted("b.exe"));
    let m = monitor(&["a.exe", "x/y"]);
    assert_eq!(m.matches_any_target("a.exe", None), m.matches_any_target("a.exe", Some("x/y")));
}

#[test]
fn new_processes_have_no_baselines() {
    let mut m = monitor(&["a.exe"]);
    m.track(7, "a.exe".to_string(), Some("\"a.exe\" --server alpha"));
    m.track(8, "a.exe".to_string(), None);
    assert_eq!(m.instances()[0].args, "--server alpha");
    assert_eq!(m.instances()[1].args, "[arguments_unavailable]");
    assert_eq!(m.instances()[1].pid, 8);
    assert_eq!(m.instances()[1].executable, "a.exe");
    assert_eq!(m.instances()[1].prev_sample_instant, None);
    assert_eq!(m.instances()[1].prev_cycle_count, None);
    assert_eq!(m.instances()[1].accumulator.sample_count, 0);
}

#[test]
fn open_warnings_come_once_for_each_process() {
    let mut m = monitor(&["a.exe"]);
    assert_eq!(m.open_failed(7, 5), Some(OpenWarning::AccessDenied));
    assert_eq!(m.open_failed(7, 5), None);
    assert_eq!(m.open_failed(8, 87), Some(OpenWarning::Failed(87)));
    assert_eq!(m.open_failed(8, 5), None);
    // A process that could be opened later is warned about anew.
    m.track(7, "a.exe".to_string(), None);
    assert_eq!(m.open_failed(7, 1), Some(OpenWarning::Failed(1)));
}

#[test]
fn found_processes_are_tracked_ignored_or_warned_about() {
    let mut m = monitor(&["a.exe", r"C:\Apps\b.exe"]);
    let unknown = ProcessDetails { full_path: None, command_line: None };
    let known = ProcessDetails { full_path: Some(r"c:\apps\b.exe"), command_line: Some("b.exe -q") };
    assert_eq!(m.discover_process(1, "a.exe".to_string(), Ok(unknown)), Discovery::Added);
    assert_eq!(m.discover_process(1, "a.exe".to_string(), Ok(unknown)), Discovery::Ignored);
    assert_eq!(m.discover_process(2, "b.exe".to_string(), Ok(unknown)), Discovery::Ignored);
    assert_eq!(m.discover_process(2, "b.exe".to_string(), Ok(known)), Discovery::Added);
    assert_eq!(m.discover_process(3, "c.exe".to_string(), Ok(known)), Discovery::Added);
    assert_eq!(m.instances().len(), 3);
    assert_eq!(m.instances()[0].args, "[arguments_unavailable]");
    assert_eq!(m.instances()[1].args, "-q");
    assert_eq!(
        m.discover_process(4, "a.exe".to_string(), Err(5)),
        Discovery::Warned(OpenWarning::AccessDenied)
    );
    assert_eq!(m.discover_process(4, "a.exe".to_string(), Err(6)), Discovery::Silent);
    assert_eq!(m.discover_process(1, "a.exe".to_string(), Err(5)), Discovery::Ignored);
    assert_eq!(m.open_failed(1, 5), Some(OpenWarning::AccessDenied));
    assert_eq!(m.instances().len(), 3);
}

#[test]
fn sampling_needs_the_times_of_the_machine() {
    let mut m = monitor(&["a.exe"]);
    m.track(7, "a.exe".to_string(), None);
    assert!(m.sample_metrics(None, None, 1, &[reading(5)]).is_none());
    assert_eq!(m.instances()[0].prev_sample_instant, None);
    assert_eq!(m.prev_system_times(), None);
}

#[test]
fn samples_that_cannot_be_counted() {
    let mut m = monitor(&["a.exe"]);
    m.track(7, "a.exe".to_string(), None);
    assert!(m.ready_to_sample(system(1), &[reading(1)]));
    assert!(!m.ready_to_sample(system(1), &[]));
    m.sample_metrics(system(0), None, 1, &[reading(1)]).unwrap();
    let far = Some(SystemTimes { idle_time: 0, kernel_time: u64::MAX, user_time: 1 });
    assert!(!m.ready_to_sample(far, &[reading(1)]));
    assert!(m.ready_to_sample(None, &[reading(1)]));
    assert!(m.ready_to_sample(system(1), &[reading(1)]));
}

#[test]
fn machine_is_sampled_from_the_second_time_on() {
    let mut m = monitor(&["a.exe"]);
    let memory = Some(SystemMemory { total_phys_bytes: 100, avail_phys_bytes: 30 });
    let first = m.sample_metrics(system(10), memory, 1, &[]).unwrap();
    assert_eq!(first.load, None);
    assert_eq!(m.system_accumulator().sample_count, 0);
    let second = m.sample_metrics(system(30), memory, 2, &[]).unwrap();
    assert_eq!(second.load, Some(SystemLoad { active: 40, total: 60 }));
    assert_eq!(m.system_accumulator().sample_count, 1);
    assert_eq!(m.system_accumulator().ram_used.sum_bytes, 70);
    // No time has passed.
    let third = m.sample_metrics(system(30), memory, 3, &[]).unwrap();
    assert_eq!(third.load, None);
    assert_eq!(m.system_accumulator().sample_count, 1);
    // The memory is unknown.
    m.sample_metrics(system(40), None, 4, &[]).unwrap();
    assert_eq!(m.system_accumulator().sample_count, 2);
    assert_eq!(m.system_accumulator().ram_used.sum_bytes, 70);
}

#[test]
fn idle_time_never_makes_the_load_negative() {
    let prev = SystemTimes { idle_time: 0, kernel_time: 5, user_time: 5 };
    let cur = SystemTimes { idle_time: 100, kernel_time: 15, user_time: 4 };
    assert_eq!(system_load(&prev, &cur), SystemLoad { active: 0, total: 10 });
}

#[test]
fn windows_are_reported_and_begun_anew() {
    let mut m = monitor(&["a.exe"]);
    m.track(7, "a.exe".to_string(), Some("a.exe -x"));
    m.track(8, "b.exe".to_string(), None);
    let failed = ProcessReading { times: None, memory: None, cycles: None };
    m.sample_metrics(system(1), None, SECOND, &[reading(100), failed]);
    let outcome = m.sample_metrics(system(2), None, 2 * SECOND, &[reading(30_100), reading(9)]).unwrap();
    assert_eq!(outcome.processes.len(), 2);
    assert_eq!(outcome.processes[0].cpu.unwrap().proc_delta_100ns, 30_000);
    assert_eq!(outcome.processes[0].cpu.unwrap().elapsed_nanos, SECOND);
    assert_eq!(outcome.processes[1].cpu, None);

    let report = m.flush_aggregates();
    assert_eq!(report.windows.len(), 1);
    assert_eq!(report.system.sample_count, 1);
    let window = &report.windows[0];
    assert_eq!(window.pid, 7);
    assert_eq!(window.executable, "a.exe");
    assert_eq!(window.args, "-x");
    assert_eq!(window.accumulator.cpu_time_ms(), 3);
    assert_eq!(window.accumulator.cpu_cycles_total, 300_000);

    assert_eq!(m.system_accumulator().sample_count, 0);
    assert_eq!(m.instances()[0].accumulator.sample_count, 0);
    assert_eq!(m.instances()[0].prev_proc_time, 30_100);
    assert!(m.flush_aggregates().windows.is_empty());
    assert!(m.shutdown_flush().windows.is_empty());
}

#[test]
fn exited_processes_are_reported_and_dropped() {
    let mut m = monitor(&["a.exe"]);
    for pid in [7, 8, 9] {
        m.track(pid, "a.exe".to_string(), None);
    }
    let failed = ProcessReading { times: None, memory: None, cycles: None };
    m.sample_metrics(system(1), None, 1, &[reading(1), reading(1), reading(1)]);
    m.sample_metrics(system(2), None, 2, &[reading(2), failed, reading(3)]);

    let reports = m.check_process_exits(&[8, 7, 100]);
    assert_eq!(reports.len(), 2);
    assert!(matches!(reports[0], ExitReport::NoSamples(8)));
    match &reports[1] {
        ExitReport::Partial(window) => {
            assert_eq!(window.pid, 7);
            assert_eq!(window.accumulator.sample_count, 1);
        }
        ExitReport::NoSamples(_) => panic!("process 7 has a sample"),
    }
    assert_eq!(m.instances().len(), 1);
    assert_eq!(m.instances()[0].pid, 9);
    assert!(m.check_process_exits(&[]).is_empty());
}

#[test]
fn windows_become_records() {
    let mut m = monitor(&["a.exe"]);
    m.track(7, "a,b.exe".to_string(), Some("a.exe -x"));
    m.sample_metrics(system(1), None, 1, &[reading(0)]);
    m.sample_metrics(system(2), None, 2, &[reading(25_000)]);
    let report = m.shutdown_flush();
    let measured = MeasuredTexts {
        app_cpu_avg: "1.000",
        app_cpu_peak: "2.000",
        app_ram_ws_avg_mb: "3.0",
        app_ram_ws_peak_mb: "4.0",
        app_priv_ram_avg_mb: "5.0",
        app_priv_ram_peak_mb: "6.0",
        app_priv_active_avg_mb: "7.0",
        app_priv_active_peak_mb: "8.0",
        system_cpu_avg: "9.00",
        system_cpu_peak: "10.00",
        system_ram_avg_mb: "11.0",
        system_ram_peak_mb: "12.0",
    };
    let record = report.windows[0].record("2026-09-13T12:00:00Z", measured, (13, 14));
    assert_eq!(
        record.format_row(),
        "2026-09-13T12:00:00Z,\"a,b.exe\",-x,7,1.000,2.000,250000,2,3.0,4.0,5.0,6.0,7.0,8.0,13,14,9.00,10.00,11.0,12.0,1\n"
    );
}

#[test]
fn sleep_goes_in_steps() {
    let total = sleep_ms(2) + 50;
    let mut elapsed = 0;
    let mut steps = 0;
    while let Some(step) = sleep_step(total, elapsed) {
        assert!(step <= 100);
        elapsed += step;
        steps += 1;
    }
    assert_eq!(elapsed, 2050);
    assert_eq!(steps, 21);
    assert_eq!(sleep_step(2050, 2000), Some(50));
    assert_eq!(sleep_step(0, 0), None);
}

#[test]
fn shutdown_events() {
    let ends: Vec<u32> = (0..10).filter(|&e| is_shutdown_event(e)).collect();
    assert_eq!(ends, vec![0, 1, 2, 5, 6]);
}

fn answer(status: u32, handle: u64, last_error: u32) -> Answer {
    Answer { status, handle, last_error }
}

#[test]
fn session_starts_step_by_step() {
    let mut phase = SessionPhase::StopLeftover;
    phase.advance(answer(9, 9, 9));
    assert_eq!(phase, SessionPhase::StartTrace);
    phase.advance(answer(0, 0, 0));
    assert_eq!(phase, SessionPhase::EnableProvider);
    phase.advance(answer(0, 0, 0));
    assert_eq!(phase, SessionPhase::OpenTrace);
    phase.advance(answer(0, 42, 0));
    assert_eq!(phase, SessionPhase::SpawnReader(42));
    phase.advance(answer(0, 0, 0));
    assert_eq!(phase, SessionPhase::Running(42));
    phase.advance(answer(1, 1, 1));
    assert_eq!(phase, SessionPhase::Running(42));
}

#[test]
fn session_that_fails_is_stopped() {
    let mut phase = SessionPhase::StartTrace;
    phase.advance(answer(183, 0, 0));
    assert_eq!(phase, SessionPhase::Failed(183));

    let mut phase = SessionPhase::EnableProvider;
    phase.advance(answer(5, 0, 0));
    assert_eq!(phase, SessionPhase::StopFailed(5));
    phase.advance(answer(0, 0, 0));
    assert_eq!(phase, SessionPhase::Failed(5));

    for (handle, last_error, error) in [(0, 6, 6), (u64::MAX, 7, 7), (0, 0, 1)] {
        let mut phase = SessionPhase::OpenTrace;
        phase.advance(answer(0, handle, last_error));
        assert_eq!(phase, SessionPhase::StopFailed(error));
    }
}

#[test]
fn traces_and_sessions() {
    assert!(is_open_trace(1));
    assert!(!is_open_trace(0));
    assert!(!is_open_trace(u64::MAX));
    assert_eq!(session_name(4711), "procpulse_net_4711");
    assert_ne!(session_name(1), session_name(11));
    let properties = trace_properties(120, 18);
    assert_eq!(properties.total_size, 412);
    assert_eq!(properties.logger_name_offset, 120);
    assert_eq!((properties.client_context, properties.buffer_kb), (1, 64));
    assert_eq!((properties.minimum_buffers, properties.maximum_buffers), (4, 16));
}

#[test]
fn privilege_request_closes_the_token_it_opened() {
    let run = |answers: &[bool]| {
        let mut phase = PrivilegePhase::OpenToken;
        let mut closed = false;
        for &ok in answers {
            closed = closed || matches!(phase, PrivilegePhase::CloseToken(_));
            phase.advance(ok);
        }
        (phase, closed)
    };
    assert_eq!(run(&[false]), (PrivilegePhase::Finished(false), false));
    assert_eq!(run(&[true, false, true]), (PrivilegePhase::Finished(false), true));
    assert_eq!(run(&[true, true, false, true]), (PrivilegePhase::Finished(false), true));
    assert_eq!(run(&[true, true, true, false]), (PrivilegePhase::Finished(true), true));
}
