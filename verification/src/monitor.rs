//! The monitor: which processes are tracked, what is sampled of them, and when a
//! window is closed.
use std::collections::HashSet;
use vstd::prelude::*;

use crate::config::Config;
use crate::metrics;
pub use crate::metrics::{MetricAccumulator, SystemAccumulator};
use crate::output;
use crate::output::CsvRecord;
use crate::path;
use crate::path::{final_name, system_style, PathStyle};
use crate::text;
use crate::text::to_chars;
use crate::wildcard;
use crate::wildcard::wildcard_match;
use crate::win32;
use crate::win32::{
    extract_arguments, ProcessMemory, ProcessTimes, SystemMemory, SystemTimes,
};

verus! {

/// What the system answered when it was asked about a process; `None` stands for a
/// query that failed.
#[derive(Debug, Clone, Copy, PartialEq, Eq, Structural)]
pub struct ProcessReading {
    pub times: Option<ProcessTimes>,
    pub memory: Option<ProcessMemory>,
    pub cycles: Option<u64>,
}

/// The CPU time that a process used since the sample before, and the wall time
/// that went by.
#[derive(Debug, Clone, Copy, PartialEq, Eq, Structural)]
pub struct CpuUse {
    pub proc_delta_100ns: u64,
    pub elapsed_nanos: u128,
}

/// What came of a sample: the CPU use, if there is a sample to compare with, and
/// whether to warn that cycles cannot be had.
#[derive(Debug, Clone, Copy, PartialEq, Eq, Structural)]
pub struct SampleOutcome {
    pub cpu: Option<CpuUse>,
    pub warn_cycles: bool,
}

/// The cycle count to compare with next time, and the cycles since the last time.
/// The first answer only sets the baseline; a query that fails leaves it as it is.
pub open spec fn cycle_step(baseline: Option<u64>, query: Option<u64>) -> (
    Option<u64>,
    Option<u64>,
) {
    match query {
        None => (baseline, None),
        Some(current) => (
            Some(current),
            match baseline {
                None => None,
                Some(previous) => Some(win32::saturating_difference(current, previous) as u64),
            },
        ),
    }
}

/// Compares a cycle count with the baseline, and moves the baseline on.
pub fn cycle_delta(baseline: Option<u64>, query: Option<u64>) -> (r: (Option<u64>, Option<u64>))
    ensures
        r == cycle_step(baseline, query),
{
    match query {
        None => (baseline, None),
        Some(current) => (
            Some(current),
            match baseline {
                None => None,
                Some(previous) => Some(current.saturating_sub(previous)),
            },
        ),
    }
}

/// The nanoseconds from `earlier` to `later` on a monotonic clock, or zero.
pub open spec fn nanos_between(earlier: u128, later: u128) -> int {
    if later >= earlier {
        later - earlier
    } else {
        0
    }
}

/// A process that is tracked.
#[derive(Debug, Clone)]
pub struct TrackedInstance {
    pub pid: u32,
    pub executable: String,
    pub args: String,
    pub prev_proc_time: u64,
    pub prev_sample_instant: Option<u128>,
    pub prev_cycle_count: Option<u64>,
    pub cycle_warned: bool,
    pub accumulator: MetricAccumulator,
}

/// A tracked process after a sample at the time `now`, and what came of it. A
/// sample needs the CPU times and the memory; without them nothing changes. The
/// first sample only sets the baselines.
pub open spec fn sampled(t: TrackedInstance, now: u128, reading: ProcessReading) -> (
    TrackedInstance,
    SampleOutcome,
) {
    if reading.times is None || reading.memory is None {
        (t, SampleOutcome { cpu: None, warn_cycles: false })
    } else {
        let total = win32::wrapping_sum(
            reading.times->0.kernel_time,
            reading.times->0.user_time,
        ) as u64;
        let memory = reading.memory->0;
        let (baseline, cycles) = cycle_step(t.prev_cycle_count, reading.cycles);
        let delta = win32::saturating_difference(total, t.prev_proc_time) as u64;
        (
            TrackedInstance {
                prev_proc_time: total,
                prev_sample_instant: Some(now),
                prev_cycle_count: baseline,
                cycle_warned: t.cycle_warned || reading.cycles is None,
                accumulator: if t.prev_sample_instant is Some {
                    t.accumulator.with(
                        delta,
                        cycles,
                        memory.working_set_bytes,
                        memory.private_bytes,
                        memory.private_active_bytes,
                    )
                } else {
                    t.accumulator
                },
                ..t
            },
            SampleOutcome {
                cpu: match t.prev_sample_instant {
                    Some(previous) => Some(
                        CpuUse {
                            proc_delta_100ns: delta,
                            elapsed_nanos: nanos_between(previous, now) as u128,
                        },
                    ),
                    None => None,
                },
                warn_cycles: reading.cycles is None && !t.cycle_warned,
            },
        )
    }
}

impl TrackedInstance {
    /// Takes a sample at the time `now` of a monotonic clock in nanoseconds.
    pub fn sample(&mut self, now: u128, reading: ProcessReading) -> (outcome: SampleOutcome)
        requires
            old(self).accumulator.wf(),
            old(self).accumulator.sample_count < u32::MAX,
        ensures
            (*final(self), outcome) == sampled(*old(self), now, reading),
            final(self).accumulator.wf(),
    {
        let times: ProcessTimes = match reading.times {
            Some(t) => t,
            None => {
                return SampleOutcome { cpu: None, warn_cycles: false };
            },
        };
        let memory: ProcessMemory = match reading.memory {
            Some(m) => m,
            None => {
                return SampleOutcome { cpu: None, warn_cycles: false };
            },
        };
        let (baseline, cycles) = cycle_delta(self.prev_cycle_count, reading.cycles);
        self.prev_cycle_count = baseline;
        let warn_cycles: bool = reading.cycles.is_none() && !self.cycle_warned;
        if warn_cycles {
            self.cycle_warned = true;
        }
        let total: u64 = times.total();
        let mut cpu: Option<CpuUse> = None;
        if let Some(previous) = self.prev_sample_instant {
            let delta: u64 = total.saturating_sub(self.prev_proc_time);
            let elapsed: u128 = if now >= previous {
                now - previous
            } else {
                0
            };
            self.accumulator.record_sample(
                delta,
                cycles,
                memory.working_set_bytes,
                memory.private_bytes,
                memory.private_active_bytes,
            );
            cpu = Some(CpuUse { proc_delta_100ns: delta, elapsed_nanos: elapsed });
        }
        self.prev_proc_time = total;
        self.prev_sample_instant = Some(now);
        SampleOutcome { cpu, warn_cycles }
    }
}

/// What was measured of a process in a window, when the window is closed.
#[derive(Debug, Clone)]
pub struct WindowReport {
    pub pid: u32,
    pub executable: String,
    pub args: String,
    pub accumulator: MetricAccumulator,
}

/// The report on the current window of a tracked process.
pub open spec fn window_of(t: TrackedInstance) -> WindowReport {
    WindowReport {
        pid: t.pid,
        executable: t.executable,
        args: t.args,
        accumulator: t.accumulator,
    }
}

/// What is left of a process that has exited: its samples, if there were any.
#[derive(Debug, Clone)]
pub enum ExitReport {
    Partial(WindowReport),
    NoSamples(u32),
}

/// The report on a tracked process that has exited.
pub open spec fn exit_of(t: TrackedInstance) -> ExitReport {
    if t.accumulator.sample_count > 0 {
        ExitReport::Partial(window_of(t))
    } else {
        ExitReport::NoSamples(t.pid)
    }
}

/// The CPU time of the machine between two readings: how much of it was used, and
/// the total.
#[derive(Debug, Clone, Copy, PartialEq, Eq, Structural)]
pub struct SystemLoad {
    pub active: u64,
    pub total: u64,
}

/// The CPU time of the machine between two readings. Kernel time contains the idle
/// time.
pub open spec fn total_between(prev: SystemTimes, cur: SystemTimes) -> int {
    win32::saturating_difference(cur.kernel_time, prev.kernel_time)
        + win32::saturating_difference(cur.user_time, prev.user_time)
}

/// The load of the machine between two readings.
pub open spec fn load_between(prev: SystemTimes, cur: SystemTimes) -> SystemLoad {
    let total = total_between(prev, cur) as u64;
    let idle = win32::saturating_difference(cur.idle_time, prev.idle_time) as u64;
    SystemLoad { active: win32::saturating_difference(total, idle) as u64, total }
}

/// Compares two readings of the machine's CPU times.
pub fn system_load(prev: &SystemTimes, cur: &SystemTimes) -> (load: SystemLoad)
    requires
        total_between(*prev, *cur) <= u64::MAX,
    ensures
        load == load_between(*prev, *cur),
        load.active <= load.total,
{
    let total: u64 = cur.kernel_time.saturating_sub(prev.kernel_time)
        + cur.user_time.saturating_sub(prev.user_time);
    let idle: u64 = cur.idle_time.saturating_sub(prev.idle_time);
    SystemLoad { active: total.saturating_sub(idle), total }
}

/// What came of a sampling of the machine and the tracked processes, in the order
/// in which these are tracked.
#[derive(Debug, Clone)]
pub struct SamplingOutcome {
    pub load: Option<SystemLoad>,
    pub processes: Vec<SampleOutcome>,
}

/// What is measured at the end of a window.
#[derive(Debug, Clone)]
pub struct FlushReport {
    pub windows: Vec<WindowReport>,
    pub system: SystemAccumulator,
}

/// A reason why a matching process cannot be tracked.
#[derive(Debug, Clone, Copy, PartialEq, Eq, Structural)]
pub enum OpenWarning {
    AccessDenied,
    Failed(u32),
}

/// The error code of the system for a lack of rights.
pub const ERROR_ACCESS_DENIED: u32 = 5;

/// The state of the monitor.
#[derive(Debug)]
pub struct ProcessMonitor {
    config: Config,
    instances: Vec<TrackedInstance>,
    warned_pids: HashSet<u32>,
    prev_system_times: Option<SystemTimes>,
    system_accumulator: SystemAccumulator,
    last_discovery: Option<u128>,
    last_flush: u128,
}

/// What the monitor knows: the settings, the tracked processes, the processes that
/// were warned about, and the times and sums that the next sample goes on from.
#[verifier::ext_equal]
pub struct MonitorModel {
    pub config: Config,
    pub instances: Seq<TrackedInstance>,
    pub warned_pids: Set<u32>,
    pub prev_system_times: Option<SystemTimes>,
    pub system_accumulator: SystemAccumulator,
    pub last_discovery: Option<u128>,
    pub last_flush: u128,
}

impl View for ProcessMonitor {
    type V = MonitorModel;

    closed spec fn view(&self) -> MonitorModel {
        MonitorModel {
            config: self.config,
            instances: self.instances@,
            warned_pids: self.warned_pids@,
            prev_system_times: self.prev_system_times,
            system_accumulator: self.system_accumulator,
            last_discovery: self.last_discovery,
            last_flush: self.last_flush,
        }
    }
}

/// The position of the tracked process with the number `pid` from `from` on, or the
/// number of processes.
pub open spec fn position_of(instances: Seq<TrackedInstance>, pid: u32, from: int) -> int
    decreases instances.len() - from,
{
    if from >= instances.len() {
        instances.len() as int
    } else if instances[from].pid == pid {
        from
    } else {
        position_of(instances, pid, from + 1)
    }
}

/// Whether a process with the number `pid` is tracked.
pub open spec fn is_tracked(instances: Seq<TrackedInstance>, pid: u32) -> bool {
    exists|i: int| 0 <= i < instances.len() && (#[trigger] instances[i]).pid == pid
}

/// Whether no process is tracked twice and all accumulators are sound.
pub open spec fn tracked_wf(instances: Seq<TrackedInstance>) -> bool {
    &&& forall|i: int, j: int|
        0 <= i < j < instances.len() ==> (#[trigger] instances[i]).pid != (#[trigger] instances[j]).pid
    &&& forall|i: int| 0 <= i < instances.len() ==> (#[trigger] instances[i]).accumulator.wf()
}

/// What `position_of` finds: the nearest process with the number, if there is one.
proof fn lemma_position_of(instances: Seq<TrackedInstance>, pid: u32, from: int)
    requires
        0 <= from <= instances.len(),
    ensures
        from <= position_of(instances, pid, from) <= instances.len(),
        forall|i: int|
            from <= i < position_of(instances, pid, from) ==> (#[trigger] instances[i]).pid != pid,
        position_of(instances, pid, from) < instances.len() ==> instances[position_of(
            instances,
            pid,
            from,
        )].pid == pid,
    decreases instances.len() - from,
{
    if from < instances.len() && instances[from].pid != pid {
        lemma_position_of(instances, pid, from + 1);
    }
}

/// What is tracked after the processes `exited` are gone, and the reports on them.
/// Numbers that are not tracked have no report.
pub open spec fn without_exited(instances: Seq<TrackedInstance>, exited: Seq<u32>) -> (
    Seq<TrackedInstance>,
    Seq<ExitReport>,
)
    decreases exited.len(),
{
    if exited.len() == 0 {
        (instances, Seq::empty())
    } else {
        let (left, reports) = without_exited(instances, exited.drop_last());
        let k = position_of(left, exited.last(), 0);
        if k < left.len() {
            (left.remove(k), reports.push(exit_of(left[k])))
        } else {
            (left, reports)
        }
    }
}

/// The reports on the windows of the processes that have samples, in order.
pub open spec fn windows_of(instances: Seq<TrackedInstance>) -> Seq<WindowReport>
    decreases instances.len(),
{
    if instances.len() == 0 {
        Seq::empty()
    } else {
        let before = windows_of(instances.drop_last());
        if instances.last().accumulator.sample_count > 0 {
            before.push(window_of(instances.last()))
        } else {
            before
        }
    }
}

/// The tracked processes with a new window.
pub open spec fn with_new_windows(instances: Seq<TrackedInstance>) -> Seq<TrackedInstance> {
    instances.map_values(
        |t: TrackedInstance| TrackedInstance { accumulator: MetricAccumulator::zero(), ..t },
    )
}

/// Whether `secs` seconds or more lie between two times on the clock.
pub open spec fn is_due(last: u128, now: u128, secs: u64) -> bool {
    nanos_between(last, now) >= secs * 1_000_000_000
}

/// Tests whether `secs` seconds or more have gone by since `last`.
fn interval_elapsed(last: u128, now: u128, secs: u64) -> (r: bool)
    ensures
        r == is_due(last, now, secs),
{
    let elapsed: u128 = if now >= last {
        now - last
    } else {
        0
    };
    elapsed >= secs as u128 * 1_000_000_000
}

impl ProcessMonitor {
    /// Whether the state is sound: no process is tracked twice, and the
    /// accumulators can be the result of their samples.
    pub open spec fn wf(self) -> bool {
        &&& tracked_wf(self@.instances)
        &&& self@.system_accumulator.wf()
    }

    /// A monitor that tracks nothing yet. Its first window begins at `now`.
    pub fn new(config: Config, now: u128) -> (m: Self)
        ensures
            m@.config == config,
            m@.instances.len() == 0,
            m@.warned_pids == Set::<u32>::empty(),
            m@.prev_system_times is None,
            m@.system_accumulator == SystemAccumulator::zero(),
            m@.last_discovery is None,
            m@.last_flush == now,
            m.wf(),
    {
        ProcessMonitor {
            config,
            instances: Vec::new(),
            warned_pids: HashSet::new(),
            prev_system_times: None,
            system_accumulator: SystemAccumulator::new(),
            last_discovery: None,
            last_flush: now,
        }
    }

    /// The tracked processes, in the order in which they were found.
    pub fn instances(&self) -> (r: &[TrackedInstance])
        ensures
            r@ == self@.instances,
    {
        self.instances.as_slice()
    }

    /// The times of the machine at the last sample.
    pub fn prev_system_times(&self) -> (r: Option<SystemTimes>)
        ensures
            r == self@.prev_system_times,
    {
        self.prev_system_times
    }

    /// What the samples of the machine in this window add up to.
    pub fn system_accumulator(&self) -> (r: &SystemAccumulator)
        ensures
            *r == self@.system_accumulator,
    {
        &self.system_accumulator
    }

    /// Whether processes have to be discovered now: at first, and then whenever the
    /// discovery interval has gone by.
    pub fn discovery_due(&self, now: u128) -> (r: bool)
        ensures
            r == match self@.last_discovery {
                None => true,
                Some(last) => is_due(last, now, self@.config.discovery_interval_secs),
            },
    {
        match self.last_discovery {
            None => true,
            Some(last) => interval_elapsed(last, now, self.config.discovery_interval_secs),
        }
    }

    /// Reports that processes were discovered.
    pub fn discovered(&mut self, at: u128)
        ensures
            final(self)@ == (MonitorModel { last_discovery: Some(at), ..old(self)@ }),
    {
        self.last_discovery = Some(at);
    }

    /// Whether the window has to be closed now: the aggregation interval has gone
    /// by since the last time.
    pub fn flush_due(&self, now: u128) -> (r: bool)
        ensures
            r == is_due(self@.last_flush, now, self@.config.aggregation_interval_secs),
    {
        interval_elapsed(self.last_flush, now, self.config.aggregation_interval_secs)
    }

    /// Reports that the window was closed.
    pub fn flushed(&mut self, at: u128)
        ensures
            final(self)@ == (MonitorModel { last_flush: at, ..old(self)@ }),
    {
        self.last_flush = at;
    }

    /// The position of the tracked process with the number `pid`, or the number of
    /// processes.
    fn find_tracked(&self, pid: u32) -> (k: usize)
        ensures
            k == position_of(self@.instances, pid, 0),
            k <= self@.instances.len(),
    {
        let mut i: usize = 0;
        while i < self.instances.len() && self.instances[i].pid != pid
            invariant
                i <= self.instances@.len(),
                position_of(self.instances@, pid, 0) == position_of(self.instances@, pid, i as int),
            decreases self.instances@.len() - i,
        {
            i = i + 1;
        }
        i
    }

    /// Tests whether a process is tracked.
    pub fn tracks(&self, pid: u32) -> (r: bool)
        ensures
            r == is_tracked(self@.instances, pid),
    {
        proof {
            lemma_position_of(self.instances@, pid, 0);
        }
        self.find_tracked(pid) < self.instances.len()
    }
}

/// Whether a target pattern is one for full paths: it holds a separator.
pub open spec fn is_path_pattern(pattern: Seq<char>) -> bool {
    exists|k: int| 0 <= k < pattern.len() && path::is_separator(#[trigger] pattern[k])
}

/// Tests whether a target pattern is one for full paths.
fn has_separator(pattern: &str) -> (r: bool)
    ensures
        r == is_path_pattern(pattern@),
{
    let chars: Vec<char> = to_chars(pattern);
    let mut i: usize = 0;
    while i < chars.len()
        invariant
            chars@ == pattern@,
            i <= chars@.len(),
            forall|k: int| 0 <= k < i ==> !path::is_separator(#[trigger] chars@[k]),
        decreases chars@.len() - i,
    {
        if chars[i] == '\\' || chars[i] == '/' {
            assert(path::is_separator(chars@[i as int]));
            return true;
        }
        i = i + 1;
    }
    false
}

/// Whether a process fits a target pattern: a pattern for paths is compared with
/// the full path, which may be unknown, and any other with the name.
pub open spec fn fits_target(
    pattern: Seq<char>,
    exe_name: Seq<char>,
    full_path: Option<Seq<char>>,
) -> bool {
    if is_path_pattern(pattern) {
        full_path is Some && wildcard::matches(pattern, full_path->0)
    } else {
        wildcard::matches(pattern, exe_name)
    }
}

/// Whether a process fits one of the target patterns.
pub open spec fn fits_any_target(
    patterns: Seq<Seq<char>>,
    exe_name: Seq<char>,
    full_path: Option<Seq<char>>,
) -> bool {
    exists|i: int|
        0 <= i < patterns.len() && fits_target(#[trigger] patterns[i], exe_name, full_path)
}

/// Whether the full path of a process takes part in the decision: a pattern for
/// paths comes before any other pattern that fits the name.
pub open spec fn path_decides(patterns: Seq<Seq<char>>, exe_name: Seq<char>) -> bool {
    exists|i: int|
        0 <= i < patterns.len() && is_path_pattern(#[trigger] patterns[i]) && !fits_any_target(
            patterns.take(i),
            exe_name,
            None,
        )
}

/// What a target pattern is compared with a name by, before the full path is known:
/// the name at its end, or all of it where it ends in no name.
pub open spec fn stem_in(style: PathStyle, pattern: Seq<char>) -> Seq<char> {
    match path::name_in(style, pattern) {
        Some(name) => name,
        None => pattern,
    }
}

/// The quick test of a name against target patterns: whether some stem fits.
pub open spec fn fits_quickly(
    style: PathStyle,
    patterns: Seq<Seq<char>>,
    exe_name: Seq<char>,
) -> bool {
    exists|i: int|
        0 <= i < patterns.len() && wildcard::matches(
            stem_in(style, #[trigger] patterns[i]),
            exe_name,
        )
}

/// Where all target patterns are portable the quick test has the same outcome on
/// every system.
pub proof fn law_portable_patterns_are_read_alike(patterns: Seq<Seq<char>>, exe_name: Seq<char>)
    requires
        forall|i: int| 0 <= i < patterns.len() ==> path::is_portable(#[trigger] patterns[i]),
    ensures
        fits_quickly(PathStyle::Windows, patterns, exe_name) == fits_quickly(
            PathStyle::Slash,
            patterns,
            exe_name,
        ),
{
    assert forall|i: int| 0 <= i < patterns.len() implies stem_in(
        PathStyle::Slash,
        #[trigger] patterns[i],
    ) == stem_in(PathStyle::Windows, patterns[i]) by {
        path::law_portable_path_is_read_alike(patterns[i]);
    }
}

/// Whether a name may fit a target pattern, judged by the pattern's final component
/// `file_name`, or by the whole pattern where it has none.
pub fn may_fit(pattern: &str, file_name: Option<&str>, exe_name: &str) -> (r: bool)
    ensures
        r == wildcard::matches(
            match file_name {
                Some(name) => name@,
                None => pattern@,
            },
            exe_name@,
        ),
{
    match file_name {
        Some(name) => wildcard_match(name, exe_name),
        None => wildcard_match(pattern, exe_name),
    }
}

/// The arguments that are shown for a process: those of its command line, or a note
/// where that cannot be had.
pub open spec fn shown_arguments(command_line: Option<Seq<char>>) -> Seq<char> {
    match command_line {
        Some(command) => win32::arguments_of(command),
        None => "[arguments_unavailable]"@,
    }
}

/// Whether `t` is a process that has just been found: without baselines and
/// samples.
pub open spec fn is_new_instance(
    t: TrackedInstance,
    pid: u32,
    executable: String,
    args: Seq<char>,
) -> bool {
    &&& t.pid == pid
    &&& t.executable == executable
    &&& t.args@ == args
    &&& t.prev_proc_time == 0
    &&& t.prev_sample_instant is None
    &&& t.prev_cycle_count is None
    &&& !t.cycle_warned
    &&& t.accumulator == MetricAccumulator::zero()
}

impl ProcessMonitor {
    /// Quick test by name alone, on a system whose paths have the given style: does
    /// the name fit a target pattern, or the name at its end?
    pub fn quick_match_in(&self, style: PathStyle, exe_name: &str) -> (r: bool)
        ensures
            r == fits_quickly(style, self@.config@.target_patterns, exe_name@),
    {
        let ghost patterns = self.config@.target_patterns;
        let mut i: usize = 0;
        while i < self.config.target_patterns.len()
            invariant
                patterns == text::texts(self.config.target_patterns@),
                i <= self.config.target_patterns@.len(),
                forall|j: int|
                    0 <= j < i ==> !wildcard::matches(
                        stem_in(style, #[trigger] patterns[j]),
                        exe_name@,
                    ),
            decreases self.config.target_patterns@.len() - i,
        {
            let pattern: &str = self.config.target_patterns[i].as_str();
            assert(patterns[i as int] == pattern@);
            let name: Option<String> = final_name(style, pattern);
            let fits: bool = may_fit(
                pattern,
                match &name {
                    Some(n) => Some(n.as_str()),
                    None => None,
                },
                exe_name,
            );
            if fits {
                assert(wildcard::matches(stem_in(style, patterns[i as int]), exe_name@));
                return true;
            }
            i = i + 1;
        }
        false
    }

    /// Quick test by name alone: does the name fit a target pattern, or the name at
    /// its end?
    pub fn quick_match(&self, exe_name: &str) -> (r: bool)
        ensures
            exists|style: PathStyle| #[trigger]
                path::is_system_style(style) && r == fits_quickly(
                    style,
                    self@.config@.target_patterns,
                    exe_name@,
                ),
    {
        self.quick_match_in(system_style(), exe_name)
    }

    /// Whether a process of a snapshot may be one to track: it is not tracked yet,
    /// and its name may fit a target.
    pub fn is_candidate(&self, pid: u32, exe_name: &str) -> (r: bool)
        ensures
            is_tracked(self@.instances, pid) ==> !r,
            is_tracked(self@.instances, pid) || exists|style: PathStyle| #[trigger]
                path::is_system_style(style) && r == fits_quickly(
                    style,
                    self@.config@.target_patterns,
                    exe_name@,
                ),
    {
        !self.tracks(pid) && self.quick_match(exe_name)
    }

    /// Whether the full path has to be asked for before `matches_any_target` can
    /// decide about a process with this name.
    pub fn full_path_wanted(&self, exe_name: &str) -> (r: bool)
        ensures
            r == path_decides(self@.config@.target_patterns, exe_name@),
    {
        let ghost patterns = self.config@.target_patterns;
        let mut i: usize = 0;
        while i < self.config.target_patterns.len()
            invariant
                patterns == text::texts(self.config.target_patterns@),
                i <= self.config.target_patterns@.len(),
                forall|j: int|
                    0 <= j < i ==> !is_path_pattern(#[trigger] patterns[j]) && !wildcard::matches(
                        patterns[j],
                        exe_name@,
                    ),
            decreases self.config.target_patterns@.len() - i,
        {
            let pattern: &str = self.config.target_patterns[i].as_str();
            assert(patterns[i as int] == pattern@);
            if has_separator(pattern) {
                assert forall|j: int| 0 <= j < i implies !fits_target(
                    #[trigger] patterns.take(i as int)[j],
                    exe_name@,
                    None,
                ) by {
                    assert(patterns.take(i as int)[j] == patterns[j]);
                }
                assert(!fits_any_target(patterns.take(i as int), exe_name@, None));
                return true;
            }
            if wildcard_match(pattern, exe_name) {
                assert forall|k: int|
                    0 <= k < patterns.len() && is_path_pattern(#[trigger] patterns[k]) implies
                    fits_any_target(patterns.take(k), exe_name@, None) by {
                    assert(k > i);
                    assert(patterns.take(k)[i as int] == patterns[i as int]);
                    assert(fits_target(patterns.take(k)[i as int], exe_name@, None));
                }
                return false;
            }
            i = i + 1;
        }
        false
    }

    /// Decides whether a process is one to track, by its name and its full path, if
    /// that is known.
    pub fn matches_any_target(&self, exe_name: &str, full_path: Option<&str>) -> (r: bool)
        ensures
            r == fits_any_target(
                self@.config@.target_patterns,
                exe_name@,
                text_in(full_path),
            ),
    {
        let ghost patterns = self.config@.target_patterns;
        let ghost known = text_in(full_path);
        let mut i: usize = 0;
        while i < self.config.target_patterns.len()
            invariant
                patterns == text::texts(self.config.target_patterns@),
                known == text_in(full_path),
                i <= self.config.target_patterns@.len(),
                forall|j: int| 0 <= j < i ==> !fits_target(#[trigger] patterns[j], exe_name@, known),
            decreases self.config.target_patterns@.len() - i,
        {
            let pattern: &str = self.config.target_patterns[i].as_str();
            assert(patterns[i as int] == pattern@);
            let fits: bool = if has_separator(pattern) {
                match full_path {
                    Some(path) => wildcard_match(pattern, path),
                    None => false,
                }
            } else {
                wildcard_match(pattern, exe_name)
            };
            if fits {
                assert(fits_target(patterns[i as int], exe_name@, known));
                return true;
            }
            i = i + 1;
        }
        false
    }

    /// Begins to track a process. Warnings about it are forgotten.
    pub fn track(&mut self, pid: u32, exe_name: String, command_line: Option<&str>)
        requires
            old(self).wf(),
            !is_tracked(old(self)@.instances, pid),
        ensures
            final(self)@.instances.len() == old(self)@.instances.len() + 1,
            final(self)@.instances.drop_last() == old(self)@.instances,
            is_new_instance(
                final(self)@.instances.last(),
                pid,
                exe_name,
                shown_arguments(text_in(command_line)),
            ),
            final(self)@.warned_pids == old(self)@.warned_pids.remove(pid),
            final(self)@ == (MonitorModel {
                instances: final(self)@.instances,
                warned_pids: final(self)@.warned_pids,
                ..old(self)@
            }),
            final(self).wf(),
    {
        broadcast use vstd::std_specs::hash::group_hash_axioms;

        let args: String = match command_line {
            Some(command) => extract_arguments(command),
            None => "[arguments_unavailable]".to_owned(),
        };
        let ghost before = self.instances@;
        self.instances.push(
            TrackedInstance {
                pid,
                executable: exe_name,
                args,
                prev_proc_time: 0,
                prev_sample_instant: None,
                prev_cycle_count: None,
                cycle_warned: false,
                accumulator: MetricAccumulator::new(),
            },
        );
        self.warned_pids.remove(&pid);
        assert(self.instances@.drop_last() == before);
    }

    /// Reports that a matching process could not be opened. Gives the warning that
    /// is due: there is one for each process only.
    pub fn open_failed(&mut self, pid: u32, error: u32) -> (r: Option<OpenWarning>)
        ensures
            r == (if old(self)@.warned_pids.contains(pid) {
                None
            } else {
                Some(warning_of(error))
            }),
            final(self)@.warned_pids == old(self)@.warned_pids.insert(pid),
            final(self)@ == (MonitorModel {
                warned_pids: final(self)@.warned_pids,
                ..old(self)@
            }),
    {
        broadcast use vstd::std_specs::hash::group_hash_axioms;

        if !self.warned_pids.insert(pid) {
            None
        } else if error == ERROR_ACCESS_DENIED {
            Some(OpenWarning::AccessDenied)
        } else {
            Some(OpenWarning::Failed(error))
        }
    }
}

/// What the system told about a process that could be opened.
#[derive(Debug, Clone, Copy)]
pub struct ProcessDetails<'a> {
    pub full_path: Option<&'a str>,
    pub command_line: Option<&'a str>,
}

/// What came of a process that was found.
#[derive(Debug, Clone, Copy, PartialEq, Eq, Structural)]
pub enum Discovery {
    /// It is tracked from now on.
    Added,
    /// It fits no target, or is tracked already.
    Ignored,
    /// It could not be opened, which there is a warning about.
    Warned(OpenWarning),
    /// It could not be opened, which there was a warning about before.
    Silent,
}

/// The warning about a process that could not be opened.
pub open spec fn warning_of(error: u32) -> OpenWarning {
    if error == ERROR_ACCESS_DENIED {
        OpenWarning::AccessDenied
    } else {
        OpenWarning::Failed(error)
    }
}

/// The text in an option, as a mathematical value.
pub open spec fn text_in(s: Option<&str>) -> Option<Seq<char>> {
    match s {
        Some(t) => Some(t@),
        None => None,
    }
}

impl ProcessMonitor {
    /// Decides about a process that was found in a snapshot, with what the system
    /// told about it or the error code of the attempt to open it. A process that is
    /// not tracked and fits a target by its name and its full path is tracked; an
    /// attempt that failed is warned about once. This is for processes that
    /// `is_candidate` accepts: the quick test by name is not made again.
    pub fn discover_process(
        &mut self,
        pid: u32,
        exe_name: String,
        opened: Result<ProcessDetails, u32>,
    ) -> (r: Discovery)
        requires
            old(self).wf(),
        ensures
            final(self).wf(),
            final(self)@ == (MonitorModel {
                instances: final(self)@.instances,
                warned_pids: final(self)@.warned_pids,
                ..old(self)@
            }),
            is_tracked(old(self)@.instances, pid) ==> r == Discovery::Ignored && final(self)@
                == old(self)@,
            !is_tracked(old(self)@.instances, pid) ==> match opened {
                Ok(details) => if fits_any_target(
                    old(self)@.config@.target_patterns,
                    exe_name@,
                    text_in(details.full_path),
                ) {
                    &&& r == Discovery::Added
                    &&& final(self)@.instances.len() == old(self)@.instances.len() + 1
                    &&& final(self)@.instances.drop_last() == old(self)@.instances
                    &&& is_new_instance(
                        final(self)@.instances.last(),
                        pid,
                        exe_name,
                        shown_arguments(text_in(details.command_line)),
                    )
                    &&& final(self)@.warned_pids == old(self)@.warned_pids.remove(pid)
                } else {
                    &&& r == Discovery::Ignored
                    &&& final(self)@ == old(self)@
                },
                Err(error) => {
                    &&& r == (if old(self)@.warned_pids.contains(pid) {
                        Discovery::Silent
                    } else {
                        Discovery::Warned(warning_of(error))
                    })
                    &&& final(self)@.instances == old(self)@.instances
                    &&& final(self)@.warned_pids == old(self)@.warned_pids.insert(pid)
                },
            },
    {
        if self.tracks(pid) {
            return Discovery::Ignored;
        }
        match opened {
            Ok(details) => if self.matches_any_target(exe_name.as_str(), details.full_path) {
                self.track(pid, exe_name, details.command_line);
                Discovery::Added
            } else {
                Discovery::Ignored
            },
            Err(error) => match self.open_failed(pid, error) {
                Some(warning) => Discovery::Warned(warning),
                None => Discovery::Silent,
            },
        }
    }
}

/// The use of the machine's memory that a reading shows, or zero.
pub open spec fn used_bytes(memory: Option<SystemMemory>) -> u64 {
    match memory {
        Some(m) => win32::saturating_difference(m.total_phys_bytes, m.avail_phys_bytes) as u64,
        None => 0,
    }
}

/// The load of the machine since the reading before, where there is one and time
/// has passed.
pub open spec fn load_since(prev: Option<SystemTimes>, cur: SystemTimes) -> Option<SystemLoad> {
    match prev {
        Some(p) if load_between(p, cur).total > 0 => Some(load_between(p, cur)),
        _ => None,
    }
}

/// The texts of the measured columns: CPU in percent and memory in MB.
#[derive(Debug, Clone, Copy)]
pub struct MeasuredTexts<'a> {
    pub app_cpu_avg: &'a str,
    pub app_cpu_peak: &'a str,
    pub app_ram_ws_avg_mb: &'a str,
    pub app_ram_ws_peak_mb: &'a str,
    pub app_priv_ram_avg_mb: &'a str,
    pub app_priv_ram_peak_mb: &'a str,
    pub app_priv_active_avg_mb: &'a str,
    pub app_priv_active_peak_mb: &'a str,
    pub system_cpu_avg: &'a str,
    pub system_cpu_peak: &'a str,
    pub system_ram_avg_mb: &'a str,
    pub system_ram_peak_mb: &'a str,
}

impl WindowReport {
    /// The record of the window. `net` holds the bytes received and sent.
    pub fn record<'a>(
        &'a self,
        timestamp: &'a str,
        measured: MeasuredTexts<'a>,
        net: (u64, u64),
    ) -> (r: CsvRecord<'a>)
        ensures
            r == (CsvRecord {
                timestamp,
                executable: r.executable,
                args: r.args,
                pid: self.pid,
                app_cpu_avg: measured.app_cpu_avg,
                app_cpu_peak: measured.app_cpu_peak,
                app_cpu_cycles: self.accumulator.cpu_cycles_total,
                app_cpu_time_ms: self.accumulator.cpu_time_100ns_total / 10_000,
                app_ram_ws_avg_mb: measured.app_ram_ws_avg_mb,
                app_ram_ws_peak_mb: measured.app_ram_ws_peak_mb,
                app_priv_ram_avg_mb: measured.app_priv_ram_avg_mb,
                app_priv_ram_peak_mb: measured.app_priv_ram_peak_mb,
                app_priv_active_avg_mb: measured.app_priv_active_avg_mb,
                app_priv_active_peak_mb: measured.app_priv_active_peak_mb,
                app_net_rx_bytes: net.0,
                app_net_tx_bytes: net.1,
                system_cpu_avg: measured.system_cpu_avg,
                system_cpu_peak: measured.system_cpu_peak,
                system_ram_avg_mb: measured.system_ram_avg_mb,
                system_ram_peak_mb: measured.system_ram_peak_mb,
                sample_count: self.accumulator.sample_count,
            }),
            r.executable@ == self.executable@,
            r.args@ == self.args@,
    {
        CsvRecord {
            timestamp,
            executable: self.executable.as_str(),
            args: self.args.as_str(),
            pid: self.pid,
            app_cpu_avg: measured.app_cpu_avg,
            app_cpu_peak: measured.app_cpu_peak,
            app_cpu_cycles: self.accumulator.cpu_cycles_total,
            app_cpu_time_ms: self.accumulator.cpu_time_ms(),
            app_ram_ws_avg_mb: measured.app_ram_ws_avg_mb,
            app_ram_ws_peak_mb: measured.app_ram_ws_peak_mb,
            app_priv_ram_avg_mb: measured.app_priv_ram_avg_mb,
            app_priv_ram_peak_mb: measured.app_priv_ram_peak_mb,
            app_priv_active_avg_mb: measured.app_priv_active_avg_mb,
            app_priv_active_peak_mb: measured.app_priv_active_peak_mb,
            app_net_rx_bytes: net.0,
            app_net_tx_bytes: net.1,
            system_cpu_avg: measured.system_cpu_avg,
            system_cpu_peak: measured.system_cpu_peak,
            system_ram_avg_mb: measured.system_ram_avg_mb,
            system_ram_peak_mb: measured.system_ram_peak_mb,
            sample_count: self.accumulator.sample_count,
        }
    }
}

impl ProcessMonitor {
    /// Drops the processes that have exited, and gives the reports on them.
    pub fn check_process_exits(&mut self, exited: &[u32]) -> (reports: Vec<ExitReport>)
        requires
            old(self).wf(),
        ensures
            (final(self)@.instances, reports@) == without_exited(old(self)@.instances, exited@),
            final(self)@ == (MonitorModel { instances: final(self)@.instances, ..old(self)@ }),
            final(self).wf(),
    {
        let ghost before = *self;
        let mut reports: Vec<ExitReport> = Vec::new();
        let mut i: usize = 0;
        assert(exited@.take(0) == Seq::<u32>::empty());
        while i < exited.len()
            invariant
                i <= exited@.len(),
                (self.instances@, reports@) == without_exited(
                    before.instances@,
                    exited@.take(i as int),
                ),
                *self == (ProcessMonitor { instances: self.instances, ..before }),
                self.wf(),
            decreases exited@.len() - i,
        {
            assert(exited@.take(i + 1).drop_last() == exited@.take(i as int));
            let k: usize = self.find_tracked(exited[i]);
            if k < self.instances.len() {
                let t: TrackedInstance = self.instances.remove(k);
                if t.accumulator.sample_count > 0 {
                    reports.push(
                        ExitReport::Partial(
                            WindowReport {
                                pid: t.pid,
                                executable: t.executable,
                                args: t.args,
                                accumulator: t.accumulator,
                            },
                        ),
                    );
                } else {
                    reports.push(ExitReport::NoSamples(t.pid));
                }
            }
            i = i + 1;
        }
        assert(exited@.take(i as int) == exited@);
        reports
    }

    /// Whether a sample can be counted: there is a reading for each tracked process,
    /// no counter of samples is at its end, and the CPU time of the machine since
    /// the reading before is a number that a `u64` holds.
    pub open spec fn can_sample(self, times: Option<SystemTimes>, readings: nat) -> bool {
        &&& readings == self@.instances.len()
        &&& self@.system_accumulator.sample_count < u32::MAX
        &&& forall|i: int|
            0 <= i < self@.instances.len() ==> (
            #[trigger] self@.instances[i]).accumulator.sample_count < u32::MAX
        &&& self@.prev_system_times is Some && times is Some ==> total_between(
            self@.prev_system_times->0,
            times->0,
        ) <= u64::MAX
    }

    /// Tests whether a sample can be counted.
    pub fn ready_to_sample(&self, times: Option<SystemTimes>, readings: &[ProcessReading]) -> (r:
        bool)
        ensures
            r == self.can_sample(times, readings@.len()),
    {
        if readings.len() != self.instances.len() || self.system_accumulator.sample_count
            == u32::MAX {
            return false;
        }
        if let (Some(prev), Some(cur)) = (self.prev_system_times, times) {
            let kernel: u64 = cur.kernel_time.saturating_sub(prev.kernel_time);
            let user: u64 = cur.user_time.saturating_sub(prev.user_time);
            if kernel.checked_add(user).is_none() {
                return false;
            }
        }
        let mut i: usize = 0;
        while i < self.instances.len()
            invariant
                i <= self.instances@.len(),
                forall|j: int|
                    0 <= j < i ==> (#[trigger] self.instances@[j]).accumulator.sample_count
                        < u32::MAX,
            decreases self.instances@.len() - i,
        {
            if self.instances[i].accumulator.sample_count == u32::MAX {
                return false;
            }
            i = i + 1;
        }
        true
    }

    /// Samples the machine and the tracked processes at the time `now`, of which
    /// `readings` holds one reading each. Without the machine's CPU times there is
    /// no sample at all.
    pub fn sample_metrics(
        &mut self,
        times: Option<SystemTimes>,
        memory: Option<SystemMemory>,
        now: u128,
        readings: &[ProcessReading],
    ) -> (outcome: Option<SamplingOutcome>)
        requires
            old(self).wf(),
            old(self).can_sample(times, readings@.len()),
        ensures
            outcome is Some <==> times is Some,
            times is None ==> final(self)@ == old(self)@,
            times matches Some(cur) ==> {
                &&& outcome->0.load == load_since(old(self)@.prev_system_times, cur)
                &&& final(self)@.prev_system_times == Some(cur)
                &&& final(self)@.system_accumulator == (if outcome->0.load is Some {
                    old(self)@.system_accumulator.with(used_bytes(memory))
                } else {
                    old(self)@.system_accumulator
                })
                &&& final(self)@.instances.len() == old(self)@.instances.len()
                &&& outcome->0.processes@.len() == old(self)@.instances.len()
                &&& forall|i: int|
                    #![trigger final(self)@.instances[i]]
                    #![trigger outcome->0.processes@[i]]
                    0 <= i < old(self)@.instances.len() ==> (
                        final(self)@.instances[i],
                        outcome->0.processes@[i],
                    ) == sampled(old(self)@.instances[i], now, readings@[i])
            },
            final(self)@ == (MonitorModel {
                instances: final(self)@.instances,
                prev_system_times: final(self)@.prev_system_times,
                system_accumulator: final(self)@.system_accumulator,
                ..old(self)@
            }),
            final(self).wf(),
    {
        let cur: SystemTimes = match times {
            Some(t) => t,
            None => {
                return None;
            },
        };
        let ghost before = *self;
        let load: Option<SystemLoad> = match self.prev_system_times {
            Some(prev) => {
                let between: SystemLoad = system_load(&prev, &cur);
                if between.total > 0 {
                    Some(between)
                } else {
                    None
                }
            },
            None => None,
        };
        self.prev_system_times = Some(cur);
        let used: u64 = match memory {
            Some(m) => m.used_phys_bytes(),
            None => 0,
        };
        if load.is_some() {
            self.system_accumulator.record_sample(used);
        }
        let ghost system_after = self.system_accumulator;
        let mut processes: Vec<SampleOutcome> = Vec::new();
        let mut i: usize = 0;
        while i < self.instances.len()
            invariant
                i <= self.instances@.len() == before.instances@.len() == readings@.len(),
                processes@.len() == i,
                self.wf(),
                forall|j: int|
                    0 <= j < before.instances@.len() ==> (#[trigger] before.instances@[j]).accumulator.sample_count
                        < u32::MAX,
                forall|j: int|
                    #![trigger self.instances@[j]]
                    #![trigger processes@[j]]
                    0 <= j < i ==> (self.instances@[j], processes@[j]) == sampled(
                        before.instances@[j],
                        now,
                        readings@[j],
                    ),
                forall|j: int|
                    i <= j < before.instances@.len() ==> (#[trigger] self.instances@[j])
                        == before.instances@[j],
                *self == (ProcessMonitor {
                    instances: self.instances,
                    prev_system_times: Some(cur),
                    system_accumulator: system_after,
                    ..before
                }),
            decreases self.instances@.len() - i,
        {
            assert(self.instances@[i as int] == before.instances@[i as int]);
            let outcome: SampleOutcome = self.instances[i].sample(now, readings[i]);
            processes.push(outcome);
            i = i + 1;
        }
        Some(SamplingOutcome { load, processes })
    }

    /// Closes the window: gives the reports on the processes with samples and on
    /// the machine, and begins a new window for all of them.
    pub fn flush_aggregates(&mut self) -> (report: FlushReport)
        requires
            old(self).wf(),
        ensures
            report.windows@ == windows_of(old(self)@.instances),
            report.system == old(self)@.system_accumulator,
            final(self)@.instances == with_new_windows(old(self)@.instances),
            final(self)@.system_accumulator == SystemAccumulator::zero(),
            final(self)@ == (MonitorModel {
                instances: final(self)@.instances,
                system_accumulator: final(self)@.system_accumulator,
                ..old(self)@
            }),
            final(self).wf(),
    {
        let ghost before = *self;
        let system: SystemAccumulator = self.system_accumulator;
        let mut windows: Vec<WindowReport> = Vec::new();
        let mut i: usize = 0;
        assert(before.instances@.take(0) == Seq::<TrackedInstance>::empty());
        while i < self.instances.len()
            invariant
                i <= self.instances@.len() == before.instances@.len(),
                windows@ == windows_of(before.instances@.take(i as int)),
                before.wf(),
                forall|j: int|
                    0 <= j < i ==> (#[trigger] self.instances@[j]) == (TrackedInstance {
                        accumulator: MetricAccumulator::zero(),
                        ..before.instances@[j]
                    }),
                forall|j: int|
                    i <= j < before.instances@.len() ==> (#[trigger] self.instances@[j])
                        == before.instances@[j],
                *self == (ProcessMonitor { instances: self.instances, ..before }),
            decreases self.instances@.len() - i,
        {
            assert(before.instances@.take(i + 1).drop_last() == before.instances@.take(i as int));
            assert(self.instances@[i as int] == before.instances@[i as int]);
            if self.instances[i].accumulator.sample_count > 0 {
                windows.push(
                    WindowReport {
                        pid: self.instances[i].pid,
                        executable: self.instances[i].executable.clone(),
                        args: self.instances[i].args.clone(),
                        accumulator: self.instances[i].accumulator,
                    },
                );
                self.instances[i].accumulator.reset();
            }
            i = i + 1;
        }
        assert(before.instances@.take(i as int) == before.instances@);
        self.system_accumulator.reset();
        FlushReport { windows, system }
    }

    /// Closes the last window when the monitor shuts down.
    pub fn shutdown_flush(&mut self) -> (report: FlushReport)
        requires
            old(self).wf(),
        ensures
            report.windows@ == windows_of(old(self)@.instances),
            report.system == old(self)@.system_accumulator,
            final(self)@.instances == with_new_windows(old(self)@.instances),
            final(self)@.system_accumulator == SystemAccumulator::zero(),
            final(self)@ == (MonitorModel {
                instances: final(self)@.instances,
                system_accumulator: final(self)@.system_accumulator,
                ..old(self)@
            }),
            final(self).wf(),
    {
        self.flush_aggregates()
    }
}

/// Where no pattern for paths comes before a pattern that fits the name, the full
/// path makes no difference, and it need not be asked for.
pub proof fn law_path_is_asked_where_it_decides(
    patterns: Seq<Seq<char>>,
    exe_name: Seq<char>,
    path: Option<Seq<char>>,
    other: Option<Seq<char>>,
)
    requires
        !path_decides(patterns, exe_name),
    ensures
        fits_any_target(patterns, exe_name, path) == fits_any_target(patterns, exe_name, other),
{
    lemma_path_without_effect(patterns, exe_name, path, other);
    lemma_path_without_effect(patterns, exe_name, other, path);
}

/// One direction of `law_path_is_asked_where_it_decides`.
proof fn lemma_path_without_effect(
    patterns: Seq<Seq<char>>,
    exe_name: Seq<char>,
    path: Option<Seq<char>>,
    other: Option<Seq<char>>,
)
    requires
        !path_decides(patterns, exe_name),
    ensures
        fits_any_target(patterns, exe_name, path) ==> fits_any_target(patterns, exe_name, other),
{
    if fits_any_target(patterns, exe_name, path) {
        let i = choose|i: int|
            0 <= i < patterns.len() && fits_target(#[trigger] patterns[i], exe_name, path);
        if is_path_pattern(patterns[i]) {
            let before = patterns.take(i);
            assert(fits_any_target(before, exe_name, None));
            let j = choose|j: int|
                0 <= j < before.len() && fits_target(#[trigger] before[j], exe_name, None);
            assert(patterns[j] == before[j]);
            assert(fits_target(patterns[j], exe_name, other));
        } else {
            assert(fits_target(patterns[i], exe_name, other));
        }
    }
}

/// What remains tracked are just the processes that have not exited. There is a
/// report on each of the others, and on nothing else.
pub proof fn law_exited_processes_are_dropped(instances: Seq<TrackedInstance>, exited: Seq<u32>)
    requires
        tracked_wf(instances),
    ensures
        tracked_wf(without_exited(instances, exited).0),
        forall|t: TrackedInstance|
            #![trigger without_exited(instances, exited).0.contains(t)]
            without_exited(instances, exited).0.contains(t) <==> instances.contains(t)
                && !exited.contains(t.pid),
        forall|t: TrackedInstance|
            #[trigger] instances.contains(t) && exited.contains(t.pid) ==> without_exited(
                instances,
                exited,
            ).1.contains(exit_of(t)),
        forall|r: ExitReport| #[trigger]
            without_exited(instances, exited).1.contains(r) ==> exists|t: TrackedInstance|
                #[trigger] instances.contains(t) && exited.contains(t.pid) && r == exit_of(t),
        without_exited(instances, exited).0.len() + without_exited(instances, exited).1.len()
            == instances.len(),
    decreases exited.len(),
{
    if exited.len() > 0 {
        let earlier = exited.drop_last();
        let pid = exited.last();
        law_exited_processes_are_dropped(instances, earlier);
        let (left, reports) = without_exited(instances, earlier);
        let (left2, reports2) = without_exited(instances, exited);
        let k = position_of(left, pid, 0);
        lemma_position_of(left, pid, 0);
        assert forall|p: u32| exited.contains(p) <==> earlier.contains(p) || p == pid by {
            if exited.contains(p) {
                let i = choose|i: int| 0 <= i < exited.len() && exited[i] == p;
                if i < earlier.len() {
                    assert(earlier[i] == p);
                }
            }
            if earlier.contains(p) {
                let i = choose|i: int| 0 <= i < earlier.len() && earlier[i] == p;
                assert(exited[i] == p);
            }
            assert(exited[exited.len() - 1] == pid);
        }
        assert forall|t: TrackedInstance| #[trigger] left2.contains(t) <==> left.contains(t)
            && t.pid != pid by {
            if left2.contains(t) {
                let i = choose|i: int| 0 <= i < left2.len() && left2[i] == t;
                if k < left.len() {
                    let j = if i < k {
                        i
                    } else {
                        i + 1
                    };
                    assert(left[j] == t);
                    assert(left[k].pid == pid);
                } else {
                    assert(left[i] == t);
                }
            }
            if left.contains(t) && t.pid != pid {
                let i = choose|i: int| 0 <= i < left.len() && left[i] == t;
                if k < left.len() {
                    assert(i != k);
                    let j = if i < k {
                        i
                    } else {
                        i - 1
                    };
                    assert(left2[j] == t);
                } else {
                    assert(left2[i] == t);
                }
            }
        }
        assert forall|t: TrackedInstance| #[trigger]
            instances.contains(t) && exited.contains(t.pid) implies reports2.contains(
            exit_of(t),
        ) by {
            if earlier.contains(t.pid) {
                let i = choose|i: int| 0 <= i < reports.len() && reports[i] == exit_of(t);
                assert(reports2[i] == exit_of(t));
            } else {
                assert(left.contains(t));
                let i = choose|i: int| 0 <= i < left.len() && left[i] == t;
                assert(i == k);
                assert(reports2[reports.len() as int] == exit_of(t));
            }
        }
        assert forall|r: ExitReport| #[trigger] reports2.contains(r) implies exists|
            t: TrackedInstance,
        | #[trigger] instances.contains(t) && exited.contains(t.pid) && r == exit_of(t) by {
            let i = choose|i: int| 0 <= i < reports2.len() && reports2[i] == r;
            if i < reports.len() {
                assert(reports[i] == r);
                assert(reports.contains(r));
                let t = choose|t: TrackedInstance| #[trigger]
                    instances.contains(t) && earlier.contains(t.pid) && r == exit_of(t);
                assert(exited.contains(t.pid));
            } else {
                let t = left[k];
                assert(left.contains(t));
                assert(instances.contains(t) && exited.contains(t.pid) && r == exit_of(t));
            }
        }
    }
}

/// A window has a report just where the process has samples.
pub proof fn law_windows_with_samples_are_reported(instances: Seq<TrackedInstance>)
    ensures
        forall|t: TrackedInstance| #[trigger]
            instances.contains(t) && t.accumulator.sample_count > 0 ==> windows_of(
                instances,
            ).contains(window_of(t)),
        forall|w: WindowReport| #[trigger]
            windows_of(instances).contains(w) ==> w.accumulator.sample_count > 0 && exists|
                t: TrackedInstance,
            | #[trigger] instances.contains(t) && window_of(t) == w,
    decreases instances.len(),
{
    if instances.len() > 0 {
        let before = instances.drop_last();
        law_windows_with_samples_are_reported(before);
        assert forall|t: TrackedInstance| #[trigger]
            instances.contains(t) && t.accumulator.sample_count > 0 implies windows_of(
            instances,
        ).contains(window_of(t)) by {
            let i = choose|i: int| 0 <= i < instances.len() && instances[i] == t;
            if i < before.len() {
                assert(before[i] == t);
                assert(before.contains(t));
                let k = choose|k: int|
                    0 <= k < windows_of(before).len() && windows_of(before)[k] == window_of(t);
                assert(windows_of(instances)[k] == window_of(t));
            } else {
                assert(windows_of(instances).last() == window_of(t));
            }
        }
        assert forall|w: WindowReport| #[trigger] windows_of(instances).contains(w) implies
            w.accumulator.sample_count > 0 && exists|t: TrackedInstance| #[trigger]
            instances.contains(t) && window_of(t) == w by {
            let k = choose|k: int|
                0 <= k < windows_of(instances).len() && windows_of(instances)[k] == w;
            if k < windows_of(before).len() {
                assert(windows_of(before).contains(w));
                let t = choose|t: TrackedInstance| #[trigger]
                    before.contains(t) && window_of(t) == w;
                let i = choose|i: int| 0 <= i < before.len() && before[i] == t;
                assert(instances[i] == t);
                assert(instances.contains(t));
            } else {
                assert(instances[instances.len() - 1] == instances.last());
                assert(instances.contains(instances.last()));
            }
        }
    }
}

/// A window that has just begun has nothing to report, and a new window changes
/// neither which processes are tracked nor what their next samples are compared
/// with.
pub proof fn law_new_windows_are_empty(instances: Seq<TrackedInstance>)
    ensures
        windows_of(with_new_windows(instances)) == Seq::<WindowReport>::empty(),
        with_new_windows(instances).len() == instances.len(),
        forall|i: int|
            #![trigger with_new_windows(instances)[i]]
            0 <= i < instances.len() ==> {
                let t = with_new_windows(instances)[i];
                &&& t.pid == instances[i].pid
                &&& t.prev_proc_time == instances[i].prev_proc_time
                &&& t.prev_sample_instant == instances[i].prev_sample_instant
                &&& t.prev_cycle_count == instances[i].prev_cycle_count
            },
    decreases instances.len(),
{
    if instances.len() > 0 {
        law_new_windows_are_empty(instances.drop_last());
        assert(with_new_windows(instances).drop_last() == with_new_windows(
            instances.drop_last(),
        ));
    }
}

/// Whether a reading makes a sample: CPU times and memory are known.
pub open spec fn is_complete(reading: ProcessReading) -> bool {
    reading.times is Some && reading.memory is Some
}

/// The CPU time that a complete reading shows.
pub open spec fn time_in(reading: ProcessReading) -> u64 {
    win32::wrapping_sum(reading.times->0.kernel_time, reading.times->0.user_time) as u64
}

/// A tracked process after samples at some times.
pub open spec fn sampled_run(t: TrackedInstance, samples: Seq<(u128, ProcessReading)>) -> TrackedInstance
    decreases samples.len(),
{
    if samples.len() == 0 {
        t
    } else {
        sampled(sampled_run(t, samples.drop_last()), samples.last().0, samples.last().1).0
    }
}

/// The number of complete readings.
pub open spec fn complete_count(samples: Seq<(u128, ProcessReading)>) -> nat
    decreases samples.len(),
{
    if samples.len() == 0 {
        0
    } else {
        complete_count(samples.drop_last()) + if is_complete(samples.last().1) {
            1nat
        } else {
            0nat
        }
    }
}

/// Whether the counters of the system never run backwards from one sample to the
/// next.
pub open spec fn rising(t: TrackedInstance, samples: Seq<(u128, ProcessReading)>) -> bool
    decreases samples.len(),
{
    samples.len() == 0 || {
        let before = sampled_run(t, samples.drop_last());
        let reading = samples.last().1;
        &&& rising(t, samples.drop_last())
        &&& is_complete(reading) ==> {
            &&& time_in(reading) >= before.prev_proc_time
            &&& reading.cycles is Some && before.prev_cycle_count is Some ==> reading.cycles->0
                >= before.prev_cycle_count->0
        }
    }
}

/// The first sample of a process contributes nothing to the window: it only gives
/// the next one something to be compared with.
pub proof fn law_first_sample_is_a_baseline(t: TrackedInstance, now: u128, reading: ProcessReading)
    requires
        t.prev_sample_instant is None,
        is_complete(reading),
    ensures
        sampled(t, now, reading).0.accumulator == t.accumulator,
        sampled(t, now, reading).1.cpu is None,
        sampled(t, now, reading).0.prev_sample_instant == Some(now),
        sampled(t, now, reading).0.prev_proc_time == time_in(reading),
{
}

/// A sample for which CPU times or memory cannot be had changes nothing.
pub proof fn law_failed_sample_changes_nothing(
    t: TrackedInstance,
    now: u128,
    reading: ProcessReading,
)
    requires
        !is_complete(reading),
    ensures
        sampled(t, now, reading).0 == t,
        sampled(t, now, reading).1 == (SampleOutcome { cpu: None, warn_cycles: false }),
{
}

/// Every complete reading counts as one sample, whether or not its cycles are
/// known, except for the first of a process.
pub proof fn law_every_complete_reading_counts(
    t: TrackedInstance,
    samples: Seq<(u128, ProcessReading)>,
)
    requires
        t.accumulator.sample_count + samples.len() <= u32::MAX,
    ensures
        sampled_run(t, samples).accumulator.sample_count == t.accumulator.sample_count
            + complete_count(samples) - (if t.prev_sample_instant is None && complete_count(samples)
            > 0 {
            1int
        } else {
            0int
        }),
        sampled_run(t, samples).prev_sample_instant is Some <==> t.prev_sample_instant is Some
            || complete_count(samples) > 0,
        complete_count(samples) <= samples.len(),
    decreases samples.len(),
{
    if samples.len() > 0 {
        law_every_complete_reading_counts(t, samples.drop_last());
    }
}

/// The samples that a run of readings adds to the window of a process: one for each
/// complete reading, except for the first of a process.
pub open spec fn counted(t: TrackedInstance, samples: Seq<(u128, ProcessReading)>) -> Seq<
    metrics::ProcessSample,
>
    decreases samples.len(),
{
    if samples.len() == 0 {
        Seq::empty()
    } else {
        let before = sampled_run(t, samples.drop_last());
        let reading = samples.last().1;
        if is_complete(reading) && before.prev_sample_instant is Some {
            let memory = reading.memory->0;
            counted(t, samples.drop_last()).push(
                metrics::ProcessSample {
                    cpu_time_100ns: win32::saturating_difference(
                        time_in(reading),
                        before.prev_proc_time,
                    ) as u64,
                    cycles_delta: cycle_step(before.prev_cycle_count, reading.cycles).1,
                    ws_bytes: memory.working_set_bytes,
                    priv_bytes: memory.private_bytes,
                    priv_active_bytes: memory.private_active_bytes,
                },
            )
        } else {
            counted(t, samples.drop_last())
        }
    }
}

/// What a run of readings leaves in the window of a process is what its counted
/// samples leave there. From a new window on these are sums and peaks, by
/// `metrics::law_accumulator_holds_sums_and_peaks`.
pub proof fn law_window_holds_the_counted_samples(
    t: TrackedInstance,
    samples: Seq<(u128, ProcessReading)>,
)
    ensures
        sampled_run(t, samples).accumulator == metrics::recorded(
            t.accumulator,
            counted(t, samples),
        ),
        counted(t, samples).len() <= samples.len(),
    decreases samples.len(),
{
    if samples.len() > 0 {
        law_window_holds_the_counted_samples(t, samples.drop_last());
        let before = counted(t, samples.drop_last());
        let after = counted(t, samples);
        if after.len() > before.len() {
            assert(after.drop_last() == before);
        }
    }
}

/// The CPU time and the cycles of a window are the differences between the last
/// counters and those before the window, up to the largest number that a `u64`
/// holds. No query that failed in between makes anything go missing.
pub proof fn law_window_totals_are_differences(
    t: TrackedInstance,
    samples: Seq<(u128, ProcessReading)>,
)
    requires
        t.prev_sample_instant is Some,
        rising(t, samples),
    ensures
        sampled_run(t, samples).prev_sample_instant is Some,
        sampled_run(t, samples).prev_proc_time >= t.prev_proc_time,
        sampled_run(t, samples).accumulator.cpu_time_100ns_total == output::saturating_sum(
            t.accumulator.cpu_time_100ns_total,
            (sampled_run(t, samples).prev_proc_time - t.prev_proc_time) as u64,
        ),
        t.prev_cycle_count is Some ==> {
            &&& sampled_run(t, samples).prev_cycle_count is Some
            &&& sampled_run(t, samples).prev_cycle_count->0 >= t.prev_cycle_count->0
            &&& sampled_run(t, samples).accumulator.cpu_cycles_total == output::saturating_sum(
                t.accumulator.cpu_cycles_total,
                (sampled_run(t, samples).prev_cycle_count->0 - t.prev_cycle_count->0) as u64,
            )
        },
    decreases samples.len(),
{
    if samples.len() > 0 {
        law_window_totals_are_differences(t, samples.drop_last());
    }
}

/// A failed query of the cycles costs nothing: the next one that succeeds is
/// compared with the last count that is known.
pub proof fn law_cycles_survive_a_failed_query(baseline: u64, current: u64)
    ensures
        cycle_step(cycle_step(Some(baseline), None).0, Some(current)) == cycle_step(
            Some(baseline),
            Some(current),
        ),
        cycle_step(Some(baseline), None).1 is None,
        current >= baseline ==> cycle_step(Some(baseline), Some(current)) == (
            Some(current),
            Some((current - baseline) as u64),
        ),
{
}

/// A complete reading of a process that was sampled before measures its CPU use: the
/// wall time is what has gone by on the clock since the sample before, and the CPU
/// time is what the process has used since then, or nothing where the counters run
/// backwards. There is no CPU use without a sample to compare with.
pub proof fn law_sample_measures_cpu_use(
    t: &mut TrackedInstance,
    now: u128,
    reading: ProcessReading,
    outcome: SampleOutcome,
)
    requires
        call_ensures(TrackedInstance::sample, (t, now, reading), outcome),
        reading.times is Some,
        reading.memory is Some,
        reading.times->0.kernel_time + reading.times->0.user_time <= u64::MAX,
    ensures
        outcome.cpu is Some <==> old(t).prev_sample_instant is Some,
        old(t).prev_sample_instant matches Some(previous) ==> {
            let used = reading.times->0.kernel_time + reading.times->0.user_time;
            let cpu = outcome.cpu->0;
            &&& previous <= now ==> cpu.elapsed_nanos == now - previous
            &&& previous > now ==> cpu.elapsed_nanos == 0
            &&& used >= old(t).prev_proc_time ==> cpu.proc_delta_100ns == used - old(
                t,
            ).prev_proc_time
            &&& used < old(t).prev_proc_time ==> cpu.proc_delta_100ns == 0
        },
{
}

/// A complete reading is what the next one is compared with, and leaves alone who the
/// process is. A count of cycles that cannot be had leaves the last known one.
pub proof fn law_sample_moves_the_baselines(
    t: &mut TrackedInstance,
    now: u128,
    reading: ProcessReading,
    outcome: SampleOutcome,
)
    requires
        call_ensures(TrackedInstance::sample, (t, now, reading), outcome),
        reading.times is Some,
        reading.memory is Some,
        reading.times->0.kernel_time + reading.times->0.user_time <= u64::MAX,
    ensures
        final(t).prev_sample_instant == Some(now),
        final(t).prev_proc_time == reading.times->0.kernel_time + reading.times->0.user_time,
        reading.cycles is Some ==> final(t).prev_cycle_count == reading.cycles,
        reading.cycles is None ==> final(t).prev_cycle_count == old(t).prev_cycle_count,
        final(t).pid == old(t).pid,
        final(t).executable == old(t).executable,
        final(t).args == old(t).args,
{
}

/// The warning that cycles cannot be had comes with the first complete reading without
/// them, and never again for the same process.
pub proof fn law_cycles_are_warned_about_once(
    t: &mut TrackedInstance,
    now: u128,
    reading: ProcessReading,
    outcome: SampleOutcome,
)
    requires
        call_ensures(TrackedInstance::sample, (t, now, reading), outcome),
    ensures
        outcome.warn_cycles ==> reading.cycles is None && !old(t).cycle_warned,
        reading.times is Some && reading.memory is Some && reading.cycles is None && !old(
            t,
        ).cycle_warned ==> outcome.warn_cycles,
        outcome.warn_cycles || old(t).cycle_warned <==> final(t).cycle_warned,
{
}

/// A complete reading of a process that was sampled before adds one sample to its
/// window: each size is added to its own sum and raises its own peak where it is
/// larger, the CPU time since the sample before is added, and so are the cycles if both
/// counts of them are known. Totals stop at the largest number that a `u64` holds.
pub proof fn law_sample_counts_the_reading(
    t: &mut TrackedInstance,
    now: u128,
    reading: ProcessReading,
    outcome: SampleOutcome,
)
    requires
        call_ensures(TrackedInstance::sample, (t, now, reading), outcome),
        old(t).accumulator.wf(),
        old(t).accumulator.sample_count < u32::MAX,
        old(t).prev_sample_instant is Some,
        reading.times is Some,
        reading.memory is Some,
        reading.times->0.kernel_time + reading.times->0.user_time <= u64::MAX,
    ensures
        ({
            let (before, after) = (old(t).accumulator, final(t).accumulator);
            let memory = reading.memory->0;
            let used = reading.times->0.kernel_time + reading.times->0.user_time;
            let time = before.cpu_time_100ns_total + (if used >= old(t).prev_proc_time {
                used - old(t).prev_proc_time
            } else {
                0
            });
            &&& after.sample_count == before.sample_count + 1
            &&& after.ram_ws.sum_bytes == before.ram_ws.sum_bytes + memory.working_set_bytes
            &&& after.ram_priv.sum_bytes == before.ram_priv.sum_bytes + memory.private_bytes
            &&& after.ram_priv_active.sum_bytes == before.ram_priv_active.sum_bytes
                + memory.private_active_bytes
            &&& after.ram_ws.peak_bytes == (if memory.working_set_bytes
                > before.ram_ws.peak_bytes {
                memory.working_set_bytes
            } else {
                before.ram_ws.peak_bytes
            })
            &&& after.ram_priv.peak_bytes == (if memory.private_bytes
                > before.ram_priv.peak_bytes {
                memory.private_bytes
            } else {
                before.ram_priv.peak_bytes
            })
            &&& after.ram_priv_active.peak_bytes == (if memory.private_active_bytes
                > before.ram_priv_active.peak_bytes {
                memory.private_active_bytes
            } else {
                before.ram_priv_active.peak_bytes
            })
            &&& time <= u64::MAX ==> after.cpu_time_100ns_total == time
            &&& time > u64::MAX ==> after.cpu_time_100ns_total == u64::MAX
        }),
        ({
            let (before, after) = (old(t).accumulator, final(t).accumulator);
            let known = old(t).prev_cycle_count is Some && reading.cycles is Some;
            let cycles = if known && reading.cycles->0 >= old(t).prev_cycle_count->0 {
                before.cpu_cycles_total + (reading.cycles->0 - old(t).prev_cycle_count->0)
            } else {
                before.cpu_cycles_total as int
            };
            &&& cycles <= u64::MAX ==> after.cpu_cycles_total == cycles
            &&& cycles > u64::MAX ==> after.cpu_cycles_total == u64::MAX
        }),
{
    let before = old(t).accumulator;
    metrics::lemma_sums_have_room(before.ram_ws, before.sample_count);
    metrics::lemma_sums_have_room(before.ram_priv, before.sample_count);
    metrics::lemma_sums_have_room(before.ram_priv_active, before.sample_count);
}

/// The first complete reading of a process counts for nothing, and an incomplete one
/// changes nothing at all.
pub proof fn law_sample_without_comparison(
    t: &mut TrackedInstance,
    now: u128,
    reading: ProcessReading,
    outcome: SampleOutcome,
)
    requires
        call_ensures(TrackedInstance::sample, (t, now, reading), outcome),
    ensures
        old(t).prev_sample_instant is None ==> final(t).accumulator == old(t).accumulator
            && outcome.cpu is None,
        reading.times is None || reading.memory is None ==> *final(t) == *old(t)
            && outcome.cpu is None && !outcome.warn_cycles,
{
}

/// The CPU use that two samples in a row measure covers the time between them without
/// a gap: all of the wall time, and all of the CPU time.
pub proof fn law_samples_in_a_row_leave_no_gap(
    first: &mut TrackedInstance,
    second: &mut TrackedInstance,
    times: (u128, u128),
    readings: (ProcessReading, ProcessReading),
    outcomes: (SampleOutcome, SampleOutcome),
)
    requires
        call_ensures(TrackedInstance::sample, (first, times.0, readings.0), outcomes.0),
        call_ensures(TrackedInstance::sample, (second, times.1, readings.1), outcomes.1),
        *old(second) == *final(first),
        readings.0.times is Some && readings.0.memory is Some,
        readings.1.times is Some && readings.1.memory is Some,
        readings.0.times->0.kernel_time + readings.0.times->0.user_time <= u64::MAX,
        readings.1.times->0.kernel_time + readings.1.times->0.user_time <= u64::MAX,
        old(first).prev_sample_instant is Some,
        old(first).prev_sample_instant->0 <= times.0 <= times.1,
        old(first).prev_proc_time <= readings.0.times->0.kernel_time
            + readings.0.times->0.user_time <= readings.1.times->0.kernel_time
            + readings.1.times->0.user_time,
    ensures
        outcomes.0.cpu is Some && outcomes.1.cpu is Some,
        outcomes.0.cpu->0.elapsed_nanos + outcomes.1.cpu->0.elapsed_nanos == times.1 - old(
            first,
        ).prev_sample_instant->0,
        outcomes.0.cpu->0.proc_delta_100ns + outcomes.1.cpu->0.proc_delta_100ns
            == readings.1.times->0.kernel_time + readings.1.times->0.user_time - old(
            first,
        ).prev_proc_time,
{
}

/// The load of the machine between two readings of its times that do not run
/// backwards: the total is the growth of kernel and user time together, and what of it
/// was not idle was used. Idle time beyond the total leaves nothing used.
pub proof fn law_load_is_what_was_not_idle(prev: SystemTimes, cur: SystemTimes, load: SystemLoad)
    requires
        call_ensures(system_load, (&prev, &cur), load),
        prev.kernel_time <= cur.kernel_time,
        prev.user_time <= cur.user_time,
        prev.idle_time <= cur.idle_time,
        (cur.kernel_time - prev.kernel_time) + (cur.user_time - prev.user_time) <= u64::MAX,
    ensures
        load.total == (cur.kernel_time - prev.kernel_time) + (cur.user_time - prev.user_time),
        cur.idle_time - prev.idle_time <= load.total ==> load.active + (cur.idle_time
            - prev.idle_time) == load.total,
        cur.idle_time - prev.idle_time >= load.total ==> load.active == 0,
{
}

/// A counter of the machine that runs backwards counts as one that stands still.
pub proof fn law_load_ignores_counters_that_run_backwards(
    prev: SystemTimes,
    cur: SystemTimes,
    load: SystemLoad,
)
    requires
        call_ensures(system_load, (&prev, &cur), load),
        cur.kernel_time + cur.user_time <= u64::MAX,
    ensures
        cur.kernel_time <= prev.kernel_time && cur.user_time >= prev.user_time ==> load.total
            == cur.user_time - prev.user_time,
        cur.user_time <= prev.user_time && cur.kernel_time >= prev.kernel_time ==> load.total
            == cur.kernel_time - prev.kernel_time,
        cur.idle_time <= prev.idle_time ==> load.active == load.total,
{
}

/// Sampling compares the machine's times with those of the sample before. Where time
/// has passed, there is a load, and the memory in use counts as a sample of the window:
/// what is not available of all there is. At first there is only a baseline.
pub proof fn law_sampling_measures_the_machine(
    m: &mut ProcessMonitor,
    cur: SystemTimes,
    memory: Option<SystemMemory>,
    now: u128,
    readings: &[ProcessReading],
    outcome: Option<SamplingOutcome>,
)
    requires
        call_ensures(
            ProcessMonitor::sample_metrics,
            (m, Some(cur), memory, now, readings),
            outcome,
        ),
        old(m).wf(),
        old(m)@.system_accumulator.sample_count < u32::MAX,
        old(m)@.prev_system_times matches Some(prev) ==> {
            &&& prev.kernel_time <= cur.kernel_time
            &&& prev.user_time <= cur.user_time
            &&& prev.idle_time <= cur.idle_time
            &&& (cur.kernel_time - prev.kernel_time) + (cur.user_time - prev.user_time) <= u64::MAX
            &&& cur.idle_time - prev.idle_time <= cur.kernel_time - prev.kernel_time
        },
        memory matches Some(s) ==> s.avail_phys_bytes <= s.total_phys_bytes,
    ensures
        outcome is Some,
        final(m)@.prev_system_times == Some(cur),
        ({
            let (before, after) = (old(m)@.system_accumulator, final(m)@.system_accumulator);
            let used = match memory {
                Some(s) => s.total_phys_bytes - s.avail_phys_bytes,
                None => 0,
            };
            match old(m)@.prev_system_times {
                Some(prev) => {
                    let total = (cur.kernel_time - prev.kernel_time) + (cur.user_time
                        - prev.user_time);
                    if total > 0 {
                        &&& outcome->0.load matches Some(load) && load.total == total
                            && load.active + (cur.idle_time - prev.idle_time) == total
                        &&& after.sample_count == before.sample_count + 1
                        &&& after.ram_used.sum_bytes == before.ram_used.sum_bytes + used
                        &&& after.ram_used.peak_bytes == (if used > before.ram_used.peak_bytes {
                            used
                        } else {
                            before.ram_used.peak_bytes as int
                        })
                    } else {
                        outcome->0.load is None && after == before
                    }
                },
                None => outcome->0.load is None && after == before,
            }
        }),
{
    metrics::lemma_sums_have_room(
        old(m)@.system_accumulator.ram_used,
        old(m)@.system_accumulator.sample_count,
    );
}

/// Sampling measures each tracked process by its own reading, in the order in which
/// they are tracked: the clock and the CPU time are compared with those of its own
/// last sample.
pub proof fn law_sampling_measures_each_process(
    m: &mut ProcessMonitor,
    times: SystemTimes,
    memory: Option<SystemMemory>,
    now: u128,
    readings: &[ProcessReading],
    outcome: Option<SamplingOutcome>,
    i: int,
)
    requires
        call_ensures(
            ProcessMonitor::sample_metrics,
            (m, Some(times), memory, now, readings),
            outcome,
        ),
        0 <= i < old(m)@.instances.len(),
        readings@[i].times is Some && readings@[i].memory is Some,
        readings@[i].times->0.kernel_time + readings@[i].times->0.user_time <= u64::MAX,
        old(m)@.instances[i].prev_sample_instant is Some,
        old(m)@.instances[i].prev_sample_instant->0 <= now,
        old(m)@.instances[i].prev_proc_time <= readings@[i].times->0.kernel_time
            + readings@[i].times->0.user_time,
    ensures
        outcome is Some,
        outcome->0.processes@.len() == old(m)@.instances.len() == final(m)@.instances.len(),
        final(m)@.instances[i].pid == old(m)@.instances[i].pid,
        outcome->0.processes@[i].cpu == Some(
            CpuUse {
                proc_delta_100ns: (readings@[i].times->0.kernel_time
                    + readings@[i].times->0.user_time - old(m)@.instances[i].prev_proc_time) as u64,
                elapsed_nanos: (now - old(m)@.instances[i].prev_sample_instant->0) as u128,
            },
        ),
        final(m)@.instances[i].prev_sample_instant == Some(now),
        final(m)@.instances[i].prev_proc_time == readings@[i].times->0.kernel_time
            + readings@[i].times->0.user_time,
{
    assert(final(m)@.instances[i].pid == old(m)@.instances[i].pid);
}

/// Without the machine's times there is no sample, and nothing changes.
pub proof fn law_no_sampling_without_times(
    m: &mut ProcessMonitor,
    memory: Option<SystemMemory>,
    now: u128,
    readings: &[ProcessReading],
    outcome: Option<SamplingOutcome>,
)
    requires
        call_ensures(ProcessMonitor::sample_metrics, (m, None, memory, now, readings), outcome),
    ensures
        outcome is None,
        final(m)@ == old(m)@,
{
}

/// The windows that are reported are those with samples, in the order of the
/// processes.
proof fn lemma_windows_of(instances: Seq<TrackedInstance>)
    ensures
        windows_of(instances) == instances.filter(
            |t: TrackedInstance| t.accumulator.sample_count > 0,
        ).map_values(
            |t: TrackedInstance|
                WindowReport {
                    pid: t.pid,
                    executable: t.executable,
                    args: t.args,
                    accumulator: t.accumulator,
                },
        ),
    decreases instances.len(),
{
    reveal(Seq::filter);
    let sampled = |t: TrackedInstance| t.accumulator.sample_count > 0;
    let report = |t: TrackedInstance|
        WindowReport {
            pid: t.pid,
            executable: t.executable,
            args: t.args,
            accumulator: t.accumulator,
        };
    if instances.len() > 0 {
        let before = instances.drop_last();
        lemma_windows_of(before);
        let kept = before.filter(sampled);
        if sampled(instances.last()) {
            assert(kept.push(instances.last()).map_values(report) == kept.map_values(report).push(
                report(instances.last()),
            ));
        }
        assert(windows_of(instances) == instances.filter(sampled).map_values(report));
    } else {
        assert(windows_of(instances) == instances.filter(sampled).map_values(report));
    }
}

/// Closing a window reports each process that has samples, in order, under its own
/// number, name and arguments, with all that its samples have added up to, each size
/// in its own place. The machine is reported likewise.
pub proof fn law_flush_reports_what_was_gathered(m: &mut ProcessMonitor, report: FlushReport)
    requires
        call_ensures(ProcessMonitor::flush_aggregates, (m,), report) || call_ensures(
            ProcessMonitor::shutdown_flush,
            (m,),
            report,
        ),
    ensures
        report.windows@ == old(m)@.instances.filter(
            |t: TrackedInstance| t.accumulator.sample_count > 0,
        ).map_values(
            |t: TrackedInstance|
                WindowReport {
                    pid: t.pid,
                    executable: t.executable,
                    args: t.args,
                    accumulator: t.accumulator,
                },
        ),
        report.system == old(m)@.system_accumulator,
{
    lemma_windows_of(old(m)@.instances);
}

/// After a window is closed, all counters begin at zero again, for each process and
/// for the machine. Who is tracked, what the next samples are compared with, and the
/// rest of the state stay as they are.
pub proof fn law_flush_begins_anew(m: &mut ProcessMonitor, report: FlushReport)
    requires
        call_ensures(ProcessMonitor::flush_aggregates, (m,), report) || call_ensures(
            ProcessMonitor::shutdown_flush,
            (m,),
            report,
        ),
    ensures
        final(m)@.instances.len() == old(m)@.instances.len(),
        forall|i: int|
            0 <= i < old(m)@.instances.len() ==> {
                let (before, after) = (old(m)@.instances[i], #[trigger] final(m)@.instances[i]);
                &&& after.pid == before.pid
                &&& after.executable == before.executable
                &&& after.args == before.args
                &&& after.prev_proc_time == before.prev_proc_time
                &&& after.prev_sample_instant == before.prev_sample_instant
                &&& after.prev_cycle_count == before.prev_cycle_count
                &&& after.cycle_warned == before.cycle_warned
                &&& after.accumulator.sample_count == 0
                &&& after.accumulator.cpu_cycles_total == 0
                &&& after.accumulator.cpu_time_100ns_total == 0
                &&& after.accumulator.ram_ws.sum_bytes == 0
                &&& after.accumulator.ram_ws.peak_bytes == 0
                &&& after.accumulator.ram_priv.sum_bytes == 0
                &&& after.accumulator.ram_priv.peak_bytes == 0
                &&& after.accumulator.ram_priv_active.sum_bytes == 0
                &&& after.accumulator.ram_priv_active.peak_bytes == 0
            },
        final(m)@.system_accumulator.sample_count == 0,
        final(m)@.system_accumulator.ram_used.sum_bytes == 0,
        final(m)@.system_accumulator.ram_used.peak_bytes == 0,
        final(m)@.config == old(m)@.config,
        final(m)@.warned_pids == old(m)@.warned_pids,
        final(m)@.prev_system_times == old(m)@.prev_system_times,
        final(m)@.last_discovery == old(m)@.last_discovery,
        final(m)@.last_flush == old(m)@.last_flush,
{
}

/// A process that has exited is reported once, with all that its samples have added up
/// to, each size in its own place, or by its number alone where it has none. Those that
/// have not exited stay tracked as they are, and nobody else is reported.
pub proof fn law_exits_report_what_was_gathered(
    m: &mut ProcessMonitor,
    exited: &[u32],
    reports: Vec<ExitReport>,
)
    requires
        call_ensures(ProcessMonitor::check_process_exits, (m, exited), reports),
        old(m).wf(),
    ensures
        forall|t: TrackedInstance|
            #![trigger old(m)@.instances.contains(t)]
            old(m)@.instances.contains(t) && exited@.contains(t.pid) ==> {
                &&& !final(m)@.instances.contains(t)
                &&& t.accumulator.sample_count > 0 ==> reports@.contains(
                    ExitReport::Partial(
                        WindowReport {
                            pid: t.pid,
                            executable: t.executable,
                            args: t.args,
                            accumulator: t.accumulator,
                        },
                    ),
                )
                &&& t.accumulator.sample_count == 0 ==> reports@.contains(
                    ExitReport::NoSamples(t.pid),
                )
            },
        forall|t: TrackedInstance|
            #![trigger final(m)@.instances.contains(t)]
            final(m)@.instances.contains(t) <==> old(m)@.instances.contains(t)
                && !exited@.contains(t.pid),
        forall|r: ExitReport| #[trigger]
            reports@.contains(r) ==> exists|t: TrackedInstance|
                {
                    &&& #[trigger] old(m)@.instances.contains(t)
                    &&& exited@.contains(t.pid)
                    &&& r == (if t.accumulator.sample_count > 0 {
                        ExitReport::Partial(
                            WindowReport {
                                pid: t.pid,
                                executable: t.executable,
                                args: t.args,
                                accumulator: t.accumulator,
                            },
                        )
                    } else {
                        ExitReport::NoSamples(t.pid)
                    })
                },
        final(m)@.instances.len() + reports@.len() == old(m)@.instances.len(),
{
    law_exited_processes_are_dropped(old(m)@.instances, exited@);
    assert forall|t: TrackedInstance|
        #![trigger old(m)@.instances.contains(t)]
        old(m)@.instances.contains(t) && exited@.contains(t.pid) implies reports@.contains(
        exit_of(t),
    ) by {}
    assert forall|r: ExitReport| #[trigger] reports@.contains(r) implies exists|t: TrackedInstance|
        {
            &&& #[trigger] old(m)@.instances.contains(t)
            &&& exited@.contains(t.pid)
            &&& r == (if t.accumulator.sample_count > 0 {
                ExitReport::Partial(
                    WindowReport {
                        pid: t.pid,
                        executable: t.executable,
                        args: t.args,
                        accumulator: t.accumulator,
                    },
                )
            } else {
                ExitReport::NoSamples(t.pid)
            })
        } by {
        let t = choose|t: TrackedInstance| #[trigger]
            old(m)@.instances.contains(t) && exited@.contains(t.pid) && r == exit_of(t);
        assert(old(m)@.instances.contains(t));
    }
}

/// The memory that a run of readings shows, one entry for each that counts: all
/// complete ones, but not the first of a process.
pub open spec fn memory_read(t: TrackedInstance, samples: Seq<(u128, ProcessReading)>) -> Seq<
    ProcessMemory,
> {
    let complete = samples.filter(
        |s: (u128, ProcessReading)| s.1.times is Some && s.1.memory is Some,
    ).map_values(|s: (u128, ProcessReading)| s.1.memory->0);
    if t.prev_sample_instant is None && complete.len() > 0 {
        complete.skip(1)
    } else {
        complete
    }
}

/// The sizes of the samples that a run of readings counts are those that the readings
/// show.
proof fn lemma_counted_sizes(t: TrackedInstance, samples: Seq<(u128, ProcessReading)>)
    ensures
        ({
            let memory = memory_read(t, samples);
            let samples_counted = counted(t, samples);
            &&& samples_counted.len() == memory.len()
            &&& forall|i: int|
                0 <= i < memory.len() ==> {
                    &&& (#[trigger] samples_counted[i]).ws_bytes == memory[i].working_set_bytes
                    &&& samples_counted[i].priv_bytes == memory[i].private_bytes
                    &&& samples_counted[i].priv_active_bytes == memory[i].private_active_bytes
                }
        }),
        sampled_run(t, samples).prev_sample_instant is Some <==> t.prev_sample_instant is Some
            || samples.filter(
            |s: (u128, ProcessReading)| s.1.times is Some && s.1.memory is Some,
        ).len() > 0,
    decreases samples.len(),
{
    reveal(Seq::filter);
    let complete = |s: (u128, ProcessReading)| s.1.times is Some && s.1.memory is Some;
    let memory_of = |s: (u128, ProcessReading)| s.1.memory->0;
    if samples.len() > 0 {
        let before = samples.drop_last();
        lemma_counted_sizes(t, before);
        let kept = before.filter(complete);
        if complete(samples.last()) {
            assert(samples.filter(complete) == kept.push(samples.last()));
            assert(kept.push(samples.last()).map_values(memory_of) == kept.map_values(
                memory_of,
            ).push(memory_of(samples.last())));
        } else {
            assert(samples.filter(complete) == kept);
        }
    }
}

/// When a window is closed, the report on a process carries the sums and the peaks of
/// its working set, its private memory and its active private memory, each of them over
/// the complete readings since the window began, and their number. The first reading of
/// a process does not count.
pub proof fn law_report_holds_what_was_read(
    m: &mut ProcessMonitor,
    report: FlushReport,
    t: TrackedInstance,
    samples: Seq<(u128, ProcessReading)>,
)
    requires
        call_ensures(ProcessMonitor::flush_aggregates, (m,), report),
        t.accumulator == (MetricAccumulator {
            sample_count: 0,
            cpu_cycles_total: 0,
            cpu_time_100ns_total: 0,
            ram_ws: metrics::SizeGauge { sum_bytes: 0, peak_bytes: 0 },
            ram_priv: metrics::SizeGauge { sum_bytes: 0, peak_bytes: 0 },
            ram_priv_active: metrics::SizeGauge { sum_bytes: 0, peak_bytes: 0 },
        }),
        samples.len() <= u32::MAX,
        old(m)@.instances.contains(sampled_run(t, samples)),
        memory_read(t, samples).len() > 0,
    ensures
        exists|w: WindowReport|
            {
                let memory = memory_read(t, samples);
                let ws = memory.map_values(|x: ProcessMemory| x.working_set_bytes);
                let private = memory.map_values(|x: ProcessMemory| x.private_bytes);
                let active = memory.map_values(|x: ProcessMemory| x.private_active_bytes);
                &&& #[trigger] report.windows@.contains(w)
                &&& w.pid == t.pid
                &&& w.executable == t.executable
                &&& w.args == t.args
                &&& w.accumulator.sample_count == memory.len()
                &&& w.accumulator.ram_ws.sum_bytes == metrics::sum_of(ws)
                &&& w.accumulator.ram_ws.peak_bytes == metrics::peak_of(ws)
                &&& w.accumulator.ram_priv.sum_bytes == metrics::sum_of(private)
                &&& w.accumulator.ram_priv.peak_bytes == metrics::peak_of(private)
                &&& w.accumulator.ram_priv_active.sum_bytes == metrics::sum_of(active)
                &&& w.accumulator.ram_priv_active.peak_bytes == metrics::peak_of(active)
            },
{
    let u = sampled_run(t, samples);
    let recorded = counted(t, samples);
    let memory = memory_read(t, samples);
    law_window_holds_the_counted_samples(t, samples);
    lemma_counted_sizes(t, samples);
    lemma_run_keeps_identity(t, samples);
    metrics::law_accumulator_holds_sums_and_peaks(recorded);
    assert(recorded.map_values(|s: metrics::ProcessSample| s.ws_bytes) =~= memory.map_values(
        |x: ProcessMemory| x.working_set_bytes,
    ));
    assert(recorded.map_values(|s: metrics::ProcessSample| s.priv_bytes) =~= memory.map_values(
        |x: ProcessMemory| x.private_bytes,
    ));
    assert(recorded.map_values(|s: metrics::ProcessSample| s.priv_active_bytes)
        =~= memory.map_values(|x: ProcessMemory| x.private_active_bytes));
    law_windows_with_samples_are_reported(old(m)@.instances);
    assert(report.windows@.contains(window_of(u)));
}

/// Readings do not change who a process is.
proof fn lemma_run_keeps_identity(t: TrackedInstance, samples: Seq<(u128, ProcessReading)>)
    ensures
        sampled_run(t, samples).pid == t.pid,
        sampled_run(t, samples).executable == t.executable,
        sampled_run(t, samples).args == t.args,
    decreases samples.len(),
{
    if samples.len() > 0 {
        lemma_run_keeps_identity(t, samples.drop_last());
    }
}

/// A window is closed when as many seconds as are configured have gone by since the
/// last time, and not before.
pub proof fn law_flush_is_due_after_its_interval(m: ProcessMonitor, now: u128, due: bool)
    requires
        call_ensures(ProcessMonitor::flush_due, (&m, now), due),
    ensures
        m@.last_flush <= now ==> (due <==> now - m@.last_flush
            >= m@.config.aggregation_interval_secs * 1_000_000_000),
        m@.last_flush > now ==> (due <==> m@.config.aggregation_interval_secs == 0),
{
}

/// Processes are discovered at once, and then whenever as many seconds as are
/// configured have gone by since the last time.
pub proof fn law_discovery_is_due_after_its_interval(m: ProcessMonitor, now: u128, due: bool)
    requires
        call_ensures(ProcessMonitor::discovery_due, (&m, now), due),
    ensures
        m@.last_discovery is None ==> due,
        m@.last_discovery matches Some(last) ==> last <= now ==> (due <==> now - last
            >= m@.config.discovery_interval_secs * 1_000_000_000),
        m@.last_discovery matches Some(last) ==> last > now ==> (due
            <==> m@.config.discovery_interval_secs == 0),
{
}

/// After a window was closed, the next one is not due until its interval has gone by,
/// and the same holds of discovery. Neither puts off the other.
pub proof fn law_intervals_begin_anew(
    flushed: &mut ProcessMonitor,
    discovered: &mut ProcessMonitor,
    at: u128,
    now: u128,
    due: (bool, bool, bool),
)
    requires
        call_ensures(ProcessMonitor::flushed, (flushed, at), ()),
        call_ensures(ProcessMonitor::discovered, (discovered, at), ()),
        call_ensures(ProcessMonitor::flush_due, (&*final(flushed), now), due.0),
        call_ensures(ProcessMonitor::discovery_due, (&*final(discovered), now), due.1),
        call_ensures(ProcessMonitor::discovery_due, (&*final(flushed), now), due.2),
        at <= now,
    ensures
        due.0 <==> now - at >= old(flushed)@.config.aggregation_interval_secs * 1_000_000_000,
        due.1 <==> now - at >= old(discovered)@.config.discovery_interval_secs * 1_000_000_000,
        old(flushed)@.last_discovery is None ==> due.2,
        final(flushed)@ == (MonitorModel { last_flush: at, ..old(flushed)@ }),
        final(discovered)@ == (MonitorModel { last_discovery: Some(at), ..old(discovered)@ }),
{
}

/// A monitor with one target tracks by it: a pattern with a slash or a backslash is held
/// against the full path, where that is known, and any other one against the name.
pub proof fn law_target_is_held_against_name_or_path(
    m: ProcessMonitor,
    pattern: &str,
    exe_name: &str,
    full_path: Option<&str>,
    known: &str,
    fits: (bool, bool),
    r: (bool, bool),
)
    requires
        call_ensures(ProcessMonitor::matches_any_target, (&m, exe_name, full_path), r.0),
        call_ensures(ProcessMonitor::full_path_wanted, (&m, exe_name), r.1),
        m@.config@.target_patterns == seq![pattern@],
        full_path matches Some(p) ==> p@ == known@,
        call_ensures(wildcard_match, (pattern, exe_name), fits.0),
        call_ensures(wildcard_match, (pattern, known), fits.1),
    ensures
        pattern@.contains('/') || pattern@.contains('\\') ==> r.0 == (full_path is Some && fits.1)
            && r.1,
        !pattern@.contains('/') && !pattern@.contains('\\') ==> r.0 == fits.0 && !r.1,
{
    let patterns = m@.config@.target_patterns;
    assert(patterns[0] == pattern@);
    lemma_path_pattern(pattern@);
    assert(patterns.take(0) == Seq::<Seq<char>>::empty());
}

/// A pattern for paths is one with a slash or a backslash.
proof fn lemma_path_pattern(pattern: Seq<char>)
    ensures
        is_path_pattern(pattern) == (pattern.contains('/') || pattern.contains('\\')),
{
    if is_path_pattern(pattern) {
        let k = choose|k: int| 0 <= k < pattern.len() && path::is_separator(#[trigger] pattern[k]);
        assert(pattern[k] == '/' || pattern[k] == '\\');
    }
    if pattern.contains('/') {
        let k = choose|k: int| 0 <= k < pattern.len() && pattern[k] == '/';
        assert(path::is_separator(pattern[k]));
    }
    if pattern.contains('\\') {
        let k = choose|k: int| 0 <= k < pattern.len() && pattern[k] == '\\';
        assert(path::is_separator(pattern[k]));
    }
}

/// Targets are alternatives: more of them fit where some fit, in the test with the path
/// and in the quick one. Without targets nothing fits.
pub proof fn law_targets_are_alternatives(
    m: ProcessMonitor,
    parts: (ProcessMonitor, ProcessMonitor),
    style: PathStyle,
    exe_name: &str,
    full_path: Option<&str>,
    r: (bool, bool, bool),
    quick: (bool, bool, bool),
)
    requires
        call_ensures(ProcessMonitor::matches_any_target, (&m, exe_name, full_path), r.0),
        call_ensures(ProcessMonitor::matches_any_target, (&parts.0, exe_name, full_path), r.1),
        call_ensures(ProcessMonitor::matches_any_target, (&parts.1, exe_name, full_path), r.2),
        call_ensures(ProcessMonitor::quick_match_in, (&m, style, exe_name), quick.0),
        call_ensures(ProcessMonitor::quick_match_in, (&parts.0, style, exe_name), quick.1),
        call_ensures(ProcessMonitor::quick_match_in, (&parts.1, style, exe_name), quick.2),
        m@.config@.target_patterns == parts.0@.config@.target_patterns
            + parts.1@.config@.target_patterns,
    ensures
        r.0 == (r.1 || r.2),
        quick.0 == (quick.1 || quick.2),
        m@.config@.target_patterns.len() == 0 ==> !r.0 && !quick.0,
{
    let all = m@.config@.target_patterns;
    let (a, b) = (parts.0@.config@.target_patterns, parts.1@.config@.target_patterns);
    let known = text_in(full_path);
    if r.1 {
        let i = choose|i: int| 0 <= i < a.len() && fits_target(#[trigger] a[i], exe_name@, known);
        assert(all[i] == a[i]);
    }
    if r.2 {
        let i = choose|i: int| 0 <= i < b.len() && fits_target(#[trigger] b[i], exe_name@, known);
        assert(all[a.len() + i] == b[i]);
    }
    if r.0 {
        let i = choose|i: int|
            0 <= i < all.len() && fits_target(#[trigger] all[i], exe_name@, known);
        if i < a.len() {
            assert(all[i] == a[i]);
        } else {
            assert(all[i] == b[i - a.len()]);
        }
    }
    if quick.1 {
        let i = choose|i: int|
            0 <= i < a.len() && wildcard::matches(stem_in(style, #[trigger] a[i]), exe_name@);
        assert(all[i] == a[i]);
    }
    if quick.2 {
        let i = choose|i: int|
            0 <= i < b.len() && wildcard::matches(stem_in(style, #[trigger] b[i]), exe_name@);
        assert(all[a.len() + i] == b[i]);
    }
    if quick.0 {
        let i = choose|i: int|
            0 <= i < all.len() && wildcard::matches(stem_in(style, #[trigger] all[i]), exe_name@);
        if i < a.len() {
            assert(all[i] == a[i]);
        } else {
            assert(all[i] == b[i - a.len()]);
        }
    }
}

/// The full path is asked for at the first target with a slash or a backslash, unless a
/// target before it fits the name.
pub proof fn law_path_is_asked_for_in_order(
    m: ProcessMonitor,
    rest: ProcessMonitor,
    first: &str,
    exe_name: &str,
    fits: bool,
    r: (bool, bool),
)
    requires
        call_ensures(ProcessMonitor::full_path_wanted, (&m, exe_name), r.0),
        call_ensures(ProcessMonitor::full_path_wanted, (&rest, exe_name), r.1),
        call_ensures(wildcard_match, (first, exe_name), fits),
        m@.config@.target_patterns == seq![first@] + rest@.config@.target_patterns,
    ensures
        rest@.config@.target_patterns.len() == 0 ==> !r.1,
        r.0 == (first@.contains('/') || first@.contains('\\') || (!fits && r.1)),
{
    let all = m@.config@.target_patterns;
    let b = rest@.config@.target_patterns;
    lemma_path_pattern(first@);
    assert(all[0] == first@);
    assert(all.take(0) == Seq::<Seq<char>>::empty());
    if is_path_pattern(first@) {
        assert(is_path_pattern(all[0]) && !fits_any_target(all.take(0), exe_name@, None));
    } else {
        if r.1 && !fits {
            let i = choose|i: int|
                0 <= i < b.len() && is_path_pattern(#[trigger] b[i]) && !fits_any_target(
                    b.take(i),
                    exe_name@,
                    None,
                );
            assert(all[i + 1] == b[i]);
            let before = all.take(i + 1);
            assert forall|j: int| 0 <= j < before.len() implies !fits_target(
                #[trigger] before[j],
                exe_name@,
                None,
            ) by {
                if j > 0 {
                    assert(before[j] == b.take(i)[j - 1]);
                }
            }
        }
        if r.0 {
            let i = choose|i: int|
                0 <= i < all.len() && is_path_pattern(#[trigger] all[i]) && !fits_any_target(
                    all.take(i),
                    exe_name@,
                    None,
                );
            assert(i > 0);
            assert(all.take(i)[0] == first@);
            assert(!fits_target(all.take(i)[0], exe_name@, None));
            assert(b[i - 1] == all[i]);
            let before = b.take(i - 1);
            assert forall|j: int| 0 <= j < before.len() implies !fits_target(
                #[trigger] before[j],
                exe_name@,
                None,
            ) by {
                assert(before[j] == all.take(i)[j + 1]);
            }
        }
    }
}

/// The quick test with one target holds the name of a process against the name at the end
/// of the target, or against all of it where it ends in no name.
pub proof fn law_quick_test_is_by_name(
    m: ProcessMonitor,
    style: PathStyle,
    pattern: &str,
    end: Option<String>,
    stem: &str,
    exe_name: &str,
    fits: bool,
    r: bool,
)
    requires
        call_ensures(ProcessMonitor::quick_match_in, (&m, style, exe_name), r),
        call_ensures(final_name, (style, pattern), end),
        call_ensures(wildcard_match, (stem, exe_name), fits),
        m@.config@.target_patterns == seq![pattern@],
        stem@ == match end {
            Some(name) => name@,
            None => pattern@,
        },
    ensures
        r == fits,
{
    assert(m@.config@.target_patterns[0] == pattern@);
}

/// Without a file name a target is held against a name as a whole.
pub proof fn law_stem_stands_for_the_target(
    pattern: &str,
    file_name: &str,
    exe_name: &str,
    fits: (bool, bool),
    r: (bool, bool),
)
    requires
        call_ensures(may_fit, (pattern, Some(file_name), exe_name), r.0),
        call_ensures(may_fit, (pattern, None, exe_name), r.1),
        call_ensures(wildcard_match, (file_name, exe_name), fits.0),
        call_ensures(wildcard_match, (pattern, exe_name), fits.1),
    ensures
        r == fits,
{
}

/// A process is tracked where one of the tracked ones has its number. Such a process is
/// no candidate, and any other one is by the quick test of the system.
pub proof fn law_candidates_are_not_tracked(
    m: ProcessMonitor,
    pid: u32,
    exe_name: &str,
    r: (bool, bool, bool),
    styles: (bool, bool),
)
    requires
        call_ensures(ProcessMonitor::tracks, (&m, pid), r.0),
        call_ensures(ProcessMonitor::is_candidate, (&m, pid, exe_name), r.1),
        call_ensures(ProcessMonitor::quick_match, (&m, exe_name), r.2),
        call_ensures(ProcessMonitor::quick_match_in, (&m, PathStyle::Windows, exe_name), styles.0),
        call_ensures(ProcessMonitor::quick_match_in, (&m, PathStyle::Slash, exe_name), styles.1),
    ensures
        r.0 == exists|i: int|
            0 <= i < m@.instances.len() && (#[trigger] m@.instances[i]).pid == pid,
        r.0 ==> !r.1,
        !r.0 ==> r.1 == styles.0 || r.1 == styles.1,
        r.2 == styles.0 || r.2 == styles.1,
{
}

/// The first answer to a query for cycles sets the baseline. A later one counts from the
/// baseline, and never less than nothing. A query that fails leaves the baseline.
pub proof fn law_cycles_count_from_the_baseline(
    baseline: Option<u64>,
    query: Option<u64>,
    r: (Option<u64>, Option<u64>),
)
    requires
        call_ensures(cycle_delta, (baseline, query), r),
    ensures
        query is None ==> r == (baseline, None::<u64>),
        query is Some ==> r.0 == query,
        query is Some && baseline is None ==> r.1 is None,
        query is Some && baseline is Some ==> {
            &&& r.1 is Some
            &&& query->0 >= baseline->0 ==> r.1->0 + baseline->0 == query->0
            &&& query->0 < baseline->0 ==> r.1->0 == 0
        },
{
}

/// A process that is tracked from now on comes last, with its name, with the arguments in
/// its command line or a note that they cannot be had, and without anything measured.
/// Warnings about it may come again; nothing else changes.
pub proof fn law_tracking_begins_with_nothing(
    m: &mut ProcessMonitor,
    pid: u32,
    exe_name: String,
    command_line: Option<&str>,
    command: &str,
    args: String,
)
    requires
        call_ensures(ProcessMonitor::track, (m, pid, exe_name, command_line), ()),
        command_line matches Some(c) ==> c@ == command@,
        call_ensures(extract_arguments, (command,), args),
    ensures
        final(m)@.instances.len() == old(m)@.instances.len() + 1,
        forall|i: int|
            0 <= i < old(m)@.instances.len() ==> #[trigger] final(m)@.instances[i] == old(
                m,
            )@.instances[i],
        ({
            let t = final(m)@.instances[old(m)@.instances.len() as int];
            &&& t.pid == pid
            &&& t.executable@ == exe_name@
            &&& command_line is Some ==> t.args@ == args@
            &&& command_line is None ==> t.args@ == "[arguments_unavailable]"@
            &&& t.prev_proc_time == 0
            &&& t.prev_sample_instant is None
            &&& t.prev_cycle_count is None
            &&& !t.cycle_warned
            &&& t.accumulator.sample_count == 0
            &&& t.accumulator.cpu_cycles_total == 0
            &&& t.accumulator.cpu_time_100ns_total == 0
            &&& t.accumulator.ram_ws.sum_bytes == 0 && t.accumulator.ram_ws.peak_bytes == 0
            &&& t.accumulator.ram_priv.sum_bytes == 0 && t.accumulator.ram_priv.peak_bytes == 0
            &&& t.accumulator.ram_priv_active.sum_bytes == 0
            &&& t.accumulator.ram_priv_active.peak_bytes == 0
        }),
        !final(m)@.warned_pids.contains(pid),
        forall|p: u32|
            p != pid ==> #[trigger] final(m)@.warned_pids.contains(p) == old(
                m,
            )@.warned_pids.contains(p),
        final(m)@.config == old(m)@.config,
        final(m)@.prev_system_times == old(m)@.prev_system_times,
        final(m)@.system_accumulator == old(m)@.system_accumulator,
        final(m)@.last_discovery == old(m)@.last_discovery,
        final(m)@.last_flush == old(m)@.last_flush,
{
    let (before, after) = (old(m)@.instances, final(m)@.instances);
    assert forall|i: int| 0 <= i < before.len() implies #[trigger] after[i] == before[i] by {
        assert(after.drop_last()[i] == after[i]);
    }
}

/// The first failure to open a process is warned about, as a lack of rights where the
/// error is 5 and with the error otherwise. Any later one is not.
pub proof fn law_failures_are_warned_about_once(
    m: &mut ProcessMonitor,
    later: &mut ProcessMonitor,
    pid: u32,
    errors: (u32, u32),
    r: (Option<OpenWarning>, Option<OpenWarning>),
)
    requires
        call_ensures(ProcessMonitor::open_failed, (m, pid, errors.0), r.0),
        call_ensures(ProcessMonitor::open_failed, (later, pid, errors.1), r.1),
        *old(later) == *final(m),
    ensures
        r.0 is Some <==> !old(m)@.warned_pids.contains(pid),
        r.0 is Some && errors.0 == 5 ==> r.0->0 == OpenWarning::AccessDenied,
        r.0 is Some && errors.0 != 5 ==> r.0->0 == OpenWarning::Failed(errors.0),
        r.1 is None,
        forall|p: u32|
            p != pid ==> #[trigger] final(m)@.warned_pids.contains(p) == old(
                m,
            )@.warned_pids.contains(p),
        final(m)@.instances == old(m)@.instances,
        final(m)@.config == old(m)@.config,
        final(m)@.prev_system_times == old(m)@.prev_system_times,
        final(m)@.system_accumulator == old(m)@.system_accumulator,
        final(m)@.last_discovery == old(m)@.last_discovery,
        final(m)@.last_flush == old(m)@.last_flush,
{
}

/// What comes of a process that was found: one that is tracked already, or that fits no
/// target, is left alone; one that fits is tracked as by `track`; and one that could not
/// be opened is warned about as by `open_failed`.
pub proof fn law_found_processes_are_sorted_out(
    m: &mut ProcessMonitor,
    tracking: &mut ProcessMonitor,
    failing: &mut ProcessMonitor,
    pid: u32,
    exe_name: String,
    name: &str,
    details: ProcessDetails,
    error: u32,
    opened: Result<ProcessDetails, u32>,
    answers: (bool, bool, Option<OpenWarning>),
    r: Discovery,
)
    requires
        call_ensures(ProcessMonitor::discover_process, (m, pid, exe_name, opened), r),
        name@ == exe_name@,
        call_ensures(ProcessMonitor::tracks, (&*old(m), pid), answers.0),
        call_ensures(
            ProcessMonitor::matches_any_target,
            (&*old(m), name, details.full_path),
            answers.1,
        ),
        call_ensures(ProcessMonitor::track, (tracking, pid, exe_name, details.command_line), ()),
        call_ensures(ProcessMonitor::open_failed, (failing, pid, error), answers.2),
        *old(tracking) == *old(m),
        *old(failing) == *old(m),
        opened == Ok::<ProcessDetails, u32>(details) || opened == Err::<ProcessDetails, u32>(error),
    ensures
        answers.0 ==> r == Discovery::Ignored && final(m)@ == old(m)@,
        !answers.0 && opened is Ok && !answers.1 ==> r == Discovery::Ignored && final(m)@ == old(
            m,
        )@,
        !answers.0 && opened is Ok && answers.1 ==> {
            let (t, u) = (final(m)@.instances.last(), final(tracking)@.instances.last());
            &&& r == Discovery::Added
            &&& final(m)@.instances.len() == final(tracking)@.instances.len()
            &&& final(m)@.instances.drop_last() == old(m)@.instances
            &&& t.pid == u.pid && t.executable == u.executable && t.args@ == u.args@
            &&& t.prev_proc_time == u.prev_proc_time && t.prev_sample_instant
                == u.prev_sample_instant && t.prev_cycle_count == u.prev_cycle_count
                && t.cycle_warned == u.cycle_warned && t.accumulator == u.accumulator
            &&& final(m)@.warned_pids == final(tracking)@.warned_pids
        },
        !answers.0 && opened is Err ==> final(m)@ == final(failing)@ && r == (match answers.2 {
            Some(warning) => Discovery::Warned(warning),
            None => Discovery::Silent,
        }),
        final(m)@.config == old(m)@.config,
        final(m)@.prev_system_times == old(m)@.prev_system_times,
        final(m)@.system_accumulator == old(m)@.system_accumulator,
        final(m)@.last_discovery == old(m)@.last_discovery,
        final(m)@.last_flush == old(m)@.last_flush,
{
}

/// A new monitor keeps its settings, tracks nothing, has warned about nothing and
/// measured nothing, and its first window begins at the time that it is made.
pub proof fn law_monitor_begins_with_nothing(config: Config, now: u128, m: ProcessMonitor)
    requires
        call_ensures(ProcessMonitor::new, (config, now), m),
    ensures
        m@.config == config,
        m@.instances.len() == 0,
        forall|p: u32| !#[trigger] m@.warned_pids.contains(p),
        m@.prev_system_times is None,
        m@.system_accumulator.sample_count == 0,
        m@.last_discovery is None,
        m@.last_flush == now,
{
}

/// A record has the columns of its window, the measured texts and the traffic, each in
/// its place. The CPU time is in milliseconds, of which each has ten thousand units.
pub proof fn law_record_has_each_column(
    w: WindowReport,
    timestamp: &str,
    measured: MeasuredTexts,
    net: (u64, u64),
    r: CsvRecord,
)
    requires
        call_ensures(WindowReport::record, (&w, timestamp, measured, net), r),
    ensures
        r.timestamp == timestamp,
        r.executable@ == w.executable@,
        r.args@ == w.args@,
        r.pid == w.pid,
        r.app_cpu_avg == measured.app_cpu_avg,
        r.app_cpu_peak == measured.app_cpu_peak,
        r.app_cpu_cycles == w.accumulator.cpu_cycles_total,
        10_000 * r.app_cpu_time_ms <= w.accumulator.cpu_time_100ns_total < 10_000 * (
        r.app_cpu_time_ms + 1),
        r.app_ram_ws_avg_mb == measured.app_ram_ws_avg_mb,
        r.app_ram_ws_peak_mb == measured.app_ram_ws_peak_mb,
        r.app_priv_ram_avg_mb == measured.app_priv_ram_avg_mb,
        r.app_priv_ram_peak_mb == measured.app_priv_ram_peak_mb,
        r.app_priv_active_avg_mb == measured.app_priv_active_avg_mb,
        r.app_priv_active_peak_mb == measured.app_priv_active_peak_mb,
        r.app_net_rx_bytes == net.0,
        r.app_net_tx_bytes == net.1,
        r.system_cpu_avg == measured.system_cpu_avg,
        r.system_cpu_peak == measured.system_cpu_peak,
        r.system_ram_avg_mb == measured.system_ram_avg_mb,
        r.system_ram_peak_mb == measured.system_ram_peak_mb,
        r.sample_count == w.accumulator.sample_count,
{
}

/// A sample can be counted where each tracked process has one reading, no counter of
/// samples is full, and the CPU time of the machine fits in 64 bits.
pub proof fn law_samples_can_be_counted(
    m: ProcessMonitor,
    times: Option<SystemTimes>,
    readings: &[ProcessReading],
    r: bool,
)
    requires
        call_ensures(ProcessMonitor::ready_to_sample, (&m, times, readings), r),
    ensures
        ({
            let room = match (m@.prev_system_times, times) {
                (Some(p), Some(c)) => (if c.kernel_time >= p.kernel_time {
                    c.kernel_time - p.kernel_time
                } else {
                    0
                }) + (if c.user_time >= p.user_time {
                    c.user_time - p.user_time
                } else {
                    0
                }) <= 0xffff_ffff_ffff_ffff,
                _ => true,
            };
            r == (readings@.len() == m@.instances.len() && m@.system_accumulator.sample_count
                < 0xffff_ffff && room && forall|i: int|
                0 <= i < m@.instances.len() ==> (#[trigger] m@.instances[i]).accumulator.sample_count
                    < 0xffff_ffff)
        }),
{
}

/// What the monitor shows of itself is what it knows.
pub proof fn law_monitor_shows_what_it_knows(
    m: ProcessMonitor,
    instances: &[TrackedInstance],
    times: Option<SystemTimes>,
    system: &SystemAccumulator,
)
    requires
        call_ensures(ProcessMonitor::instances, (&m,), instances),
        call_ensures(ProcessMonitor::prev_system_times, (&m,), times),
        call_ensures(ProcessMonitor::system_accumulator, (&m,), system),
    ensures
        instances@ == m@.instances,
        times == m@.prev_system_times,
        *system == m@.system_accumulator,
{
}

/// The CPU time of a process is the total of its times, also where that has wrapped
/// around. What of it is new since the sample before is what the sample measures and what
/// is added to the window.
pub proof fn law_sample_goes_by_the_total(
    t: &mut TrackedInstance,
    now: u128,
    reading: ProcessReading,
    times: ProcessTimes,
    total: u64,
    outcome: SampleOutcome,
)
    requires
        call_ensures(TrackedInstance::sample, (t, now, reading), outcome),
        call_ensures(ProcessTimes::total, (&times,), total),
        reading.times == Some(times),
        reading.memory is Some,
    ensures
        final(t).prev_proc_time == total,
        final(t).prev_sample_instant == Some(now),
        old(t).prev_sample_instant matches Some(previous) ==> {
            let cpu = outcome.cpu->0;
            let sum = old(t).accumulator.cpu_time_100ns_total + cpu.proc_delta_100ns;
            &&& outcome.cpu is Some
            &&& total >= old(t).prev_proc_time ==> old(t).prev_proc_time + cpu.proc_delta_100ns
                == total
            &&& total < old(t).prev_proc_time ==> cpu.proc_delta_100ns == 0
            &&& previous <= now ==> previous + cpu.elapsed_nanos == now
            &&& previous > now ==> cpu.elapsed_nanos == 0
            &&& sum <= u64::MAX ==> final(t).accumulator.cpu_time_100ns_total == sum
            &&& sum > u64::MAX ==> final(t).accumulator.cpu_time_100ns_total == u64::MAX
        },
{
}

/// The load of the machine by the growth of its three counters, each of which counts as
/// nothing where it runs backwards: what was used and what was idle, as far as it goes,
/// make up the total.
pub proof fn law_load_counts_what_has_grown(prev: SystemTimes, cur: SystemTimes, load: SystemLoad)
    requires
        call_ensures(system_load, (&prev, &cur), load),
        (if cur.kernel_time > prev.kernel_time {
            cur.kernel_time - prev.kernel_time
        } else {
            0
        }) + (if cur.user_time > prev.user_time {
            cur.user_time - prev.user_time
        } else {
            0
        }) <= u64::MAX,
    ensures
        ({
            let kernel = if cur.kernel_time > prev.kernel_time {
                cur.kernel_time - prev.kernel_time
            } else {
                0
            };
            let user = if cur.user_time > prev.user_time {
                cur.user_time - prev.user_time
            } else {
                0
            };
            let idle = if cur.idle_time > prev.idle_time {
                cur.idle_time - prev.idle_time
            } else {
                0
            };
            &&& load.total == kernel + user
            &&& idle <= load.total ==> load.active + idle == load.total
            &&& idle > load.total ==> load.active == 0
        }),
{
}

/// A sampling has the load between the reading before and its own, where there is one and
/// time has passed, and then counts the memory in use as one more sample of the machine.
pub proof fn law_sampling_goes_by_the_load(
    m: &mut ProcessMonitor,
    prev: SystemTimes,
    cur: SystemTimes,
    memory: Option<SystemMemory>,
    reading: SystemMemory,
    now: u128,
    readings: &[ProcessReading],
    outcome: Option<SamplingOutcome>,
    load: SystemLoad,
    used: u64,
    a: &mut SystemAccumulator,
)
    requires
        call_ensures(
            ProcessMonitor::sample_metrics,
            (m, Some(cur), memory, now, readings),
            outcome,
        ),
        call_ensures(system_load, (&prev, &cur), load),
        call_ensures(SystemMemory::used_phys_bytes, (&reading,), used),
        memory matches Some(s) ==> s == reading,
        call_ensures(
            SystemAccumulator::record_sample,
            (a, if memory is Some {
                used
            } else {
                0
            }),
            (),
        ),
        *old(a) == old(m)@.system_accumulator,
        old(m)@.prev_system_times matches Some(p) ==> p == prev,
    ensures
        outcome is Some,
        ({
            let measured = old(m)@.prev_system_times is Some && load.total > 0;
            &&& measured ==> outcome->0.load == Some(load) && final(m)@.system_accumulator
                == *final(a)
            &&& !measured ==> outcome->0.load is None && final(m)@.system_accumulator == old(
                m,
            )@.system_accumulator
        }),
        final(m)@.prev_system_times == Some(cur),
        final(m)@.config == old(m)@.config,
        final(m)@.warned_pids == old(m)@.warned_pids,
        final(m)@.last_discovery == old(m)@.last_discovery,
        final(m)@.last_flush == old(m)@.last_flush,
{
}

/// A sampling takes a sample of each tracked process, each with its own reading, and the
/// outcomes stand in the same order.
pub proof fn law_sampling_samples_each_process(
    m: &mut ProcessMonitor,
    times: SystemTimes,
    memory: Option<SystemMemory>,
    now: u128,
    readings: &[ProcessReading],
    outcome: Option<SamplingOutcome>,
    i: int,
    t: &mut TrackedInstance,
    o: SampleOutcome,
)
    requires
        call_ensures(
            ProcessMonitor::sample_metrics,
            (m, Some(times), memory, now, readings),
            outcome,
        ),
        0 <= i < old(m)@.instances.len(),
        call_ensures(TrackedInstance::sample, (t, now, readings@[i]), o),
        *old(t) == old(m)@.instances[i],
    ensures
        outcome is Some,
        outcome->0.processes@.len() == old(m)@.instances.len() == final(m)@.instances.len(),
        final(m)@.instances[i] == *final(t),
        outcome->0.processes@[i] == o,
{
    assert((final(m)@.instances[i], outcome->0.processes@[i]) == sampled(
        old(m)@.instances[i],
        now,
        readings@[i],
    ));
}

/// What is left and reported after two lists of exits is what is left and reported after
/// one and then the other.
proof fn lemma_exits_concat(instances: Seq<TrackedInstance>, a: Seq<u32>, b: Seq<u32>)
    ensures
        ({
            let (left, reports) = without_exited(instances, a);
            let (rest, more) = without_exited(left, b);
            without_exited(instances, a + b) == (rest, reports + more)
        }),
    decreases b.len(),
{
    let (left, reports) = without_exited(instances, a);
    if b.len() > 0 {
        lemma_exits_concat(instances, a, b.drop_last());
        assert((a + b).drop_last() == a + b.drop_last());
        assert((a + b).last() == b.last());
        let (mid, more) = without_exited(left, b.drop_last());
        let k = position_of(mid, b.last(), 0);
        if k < mid.len() {
            assert((reports + more).push(exit_of(mid[k])) == reports + more.push(exit_of(mid[k])));
        }
    } else {
        assert(a + b == a);
        assert(reports + Seq::<ExitReport>::empty() == reports);
    }
}

/// Exits are handled one after the other, in the order in which they are told. The rest of
/// the state stays as it is.
pub proof fn law_exits_are_handled_in_order(
    m: &mut ProcessMonitor,
    first: &mut ProcessMonitor,
    second: &mut ProcessMonitor,
    exited: &[u32],
    parts: (&[u32], &[u32]),
    r: (Vec<ExitReport>, Vec<ExitReport>, Vec<ExitReport>),
)
    requires
        call_ensures(ProcessMonitor::check_process_exits, (m, exited), r.0),
        call_ensures(ProcessMonitor::check_process_exits, (first, parts.0), r.1),
        call_ensures(ProcessMonitor::check_process_exits, (second, parts.1), r.2),
        *old(first) == *old(m),
        *old(second) == *final(first),
        exited@ == parts.0@ + parts.1@,
    ensures
        final(m)@.instances == final(second)@.instances,
        r.0@ == r.1@ + r.2@,
        final(m)@.config == old(m)@.config,
        final(m)@.warned_pids == old(m)@.warned_pids,
        final(m)@.prev_system_times == old(m)@.prev_system_times,
        final(m)@.system_accumulator == old(m)@.system_accumulator,
        final(m)@.last_discovery == old(m)@.last_discovery,
        final(m)@.last_flush == old(m)@.last_flush,
{
    lemma_exits_concat(old(m)@.instances, parts.0@, parts.1@);
}

/// One exit takes out the process with that number, and leaves the others in their order.
/// A number that is not tracked changes nothing and has no report.
pub proof fn law_one_exit_takes_out_one_process(
    m: &mut ProcessMonitor,
    exited: &[u32],
    k: int,
    r: Vec<ExitReport>,
)
    requires
        call_ensures(ProcessMonitor::check_process_exits, (m, exited), r),
        exited@.len() == 1,
        ({
            let all = old(m)@.instances;
            ||| {
                &&& 0 <= k < all.len() && all[k].pid == exited@[0]
                &&& forall|i: int|
                    0 <= i < all.len() && i != k ==> (#[trigger] all[i]).pid != exited@[0]
            }
            ||| {
                &&& k == all.len()
                &&& forall|i: int| 0 <= i < all.len() ==> (#[trigger] all[i]).pid != exited@[0]
            }
        }),
    ensures
        ({
            let all = old(m)@.instances;
            if k < all.len() {
                let t = all[k];
                &&& final(m)@.instances == all.take(k) + all.skip(k + 1)
                &&& r@.len() == 1
                &&& t.accumulator.sample_count == 0 ==> r@[0] == ExitReport::NoSamples(t.pid)
                &&& t.accumulator.sample_count > 0 ==> r@[0] == ExitReport::Partial(
                    WindowReport {
                        pid: t.pid,
                        executable: t.executable,
                        args: t.args,
                        accumulator: t.accumulator,
                    },
                )
            } else {
                final(m)@.instances == all && r@.len() == 0
            }
        }),
{
    let all = old(m)@.instances;
    reveal_with_fuel(without_exited, 2);
    assert(exited@.drop_last() == Seq::<u32>::empty());
    lemma_position_of(all, exited@[0], 0);
    let p = position_of(all, exited@[0], 0);
    if k < all.len() {
        if p > k {
            assert(all[k].pid != exited@[0]);
        }
        assert(p == k);
        assert(all.remove(k) =~= all.take(k) + all.skip(k + 1));
    }
}

} // verus!
