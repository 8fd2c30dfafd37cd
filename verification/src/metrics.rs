//! Accumulation of the samples of a window.
use vstd::prelude::*;

use crate::output;

verus! {

/// The sum and the peak of a size in bytes over the samples of a window. The sum
/// divided by the number of samples is the average.
#[derive(Debug, Clone, Copy, PartialEq, Eq, Structural)]
pub struct SizeGauge {
    pub sum_bytes: u128,
    pub peak_bytes: u64,
}

impl SizeGauge {
    /// A gauge without samples.
    pub open spec fn zero() -> SizeGauge {
        SizeGauge { sum_bytes: 0, peak_bytes: 0 }
    }

    /// Whether the gauge can be the result of `count` samples: on average they do
    /// not exceed the peak.
    pub open spec fn fits(self, count: u32) -> bool {
        self.sum_bytes <= count * self.peak_bytes
    }

    /// The gauge after one more sample.
    pub open spec fn with(self, bytes: u64) -> SizeGauge {
        SizeGauge {
            sum_bytes: (self.sum_bytes + bytes) as u128,
            peak_bytes: if bytes > self.peak_bytes {
                bytes
            } else {
                self.peak_bytes
            },
        }
    }

    /// A gauge without samples.
    pub fn new() -> (g: SizeGauge)
        ensures
            g == SizeGauge::zero(),
            g.fits(0),
    {
        SizeGauge { sum_bytes: 0, peak_bytes: 0 }
    }

    /// Adds a sample to the `count` samples that the gauge has.
    fn add_sample(&mut self, count: u32, bytes: u64)
        requires
            old(self).fits(count),
            count < u32::MAX,
        ensures
            *final(self) == old(self).with(bytes),
            final(self).sum_bytes == old(self).sum_bytes + bytes,
            final(self).fits((count + 1) as u32),
    {
        let ghost old_peak = self.peak_bytes as int;
        let ghost old_sum = self.sum_bytes as int;
        let ghost n = count as int;
        assert(n * old_peak <= u32::MAX * u64::MAX) by (nonlinear_arith)
            requires
                0 <= n <= u32::MAX,
                0 <= old_peak <= u64::MAX,
        ;
        self.sum_bytes = self.sum_bytes + bytes as u128;
        if bytes > self.peak_bytes {
            self.peak_bytes = bytes;
        }
        let ghost peak = self.peak_bytes as int;
        assert(old_sum + bytes <= (n + 1) * peak) by (nonlinear_arith)
            requires
                old_sum <= n * old_peak,
                0 <= n,
                0 <= old_peak <= peak,
                bytes <= peak,
        ;
    }
}

/// What was measured of a process in a window, apart from percentages.
#[derive(Debug, Clone, Copy, PartialEq, Eq, Structural)]
pub struct MetricAccumulator {
    pub sample_count: u32,
    pub cpu_cycles_total: u64,
    pub cpu_time_100ns_total: u64,
    pub ram_ws: SizeGauge,
    pub ram_priv: SizeGauge,
    pub ram_priv_active: SizeGauge,
}

/// The cycles or the time so far and what a sample adds, up to the largest number
/// that a `u64` holds.
pub open spec fn total_with(total: u64, delta: u64) -> u64 {
    output::saturating_sum(total, delta)
}

impl MetricAccumulator {
    /// An accumulator without samples.
    pub open spec fn zero() -> MetricAccumulator {
        MetricAccumulator {
            sample_count: 0,
            cpu_cycles_total: 0,
            cpu_time_100ns_total: 0,
            ram_ws: SizeGauge::zero(),
            ram_priv: SizeGauge::zero(),
            ram_priv_active: SizeGauge::zero(),
        }
    }

    /// Whether the accumulator can be the result of its number of samples.
    pub open spec fn wf(self) -> bool {
        &&& self.ram_ws.fits(self.sample_count)
        &&& self.ram_priv.fits(self.sample_count)
        &&& self.ram_priv_active.fits(self.sample_count)
        &&& self.sample_count == 0 ==> self == MetricAccumulator::zero()
    }

    /// The accumulator after one more sample. Where the cycles are not known they
    /// are left out, and the sample counts all the same.
    pub open spec fn with(
        self,
        cpu_time_100ns: u64,
        cycles_delta: Option<u64>,
        ws_bytes: u64,
        priv_bytes: u64,
        priv_active_bytes: u64,
    ) -> MetricAccumulator {
        MetricAccumulator {
            sample_count: (self.sample_count + 1) as u32,
            cpu_cycles_total: match cycles_delta {
                Some(cycles) => total_with(self.cpu_cycles_total, cycles),
                None => self.cpu_cycles_total,
            },
            cpu_time_100ns_total: total_with(self.cpu_time_100ns_total, cpu_time_100ns),
            ram_ws: self.ram_ws.with(ws_bytes),
            ram_priv: self.ram_priv.with(priv_bytes),
            ram_priv_active: self.ram_priv_active.with(priv_active_bytes),
        }
    }

    /// An accumulator without samples.
    pub fn new() -> (a: Self)
        ensures
            a == MetricAccumulator::zero(),
            a.wf(),
    {
        MetricAccumulator {
            sample_count: 0,
            cpu_cycles_total: 0,
            cpu_time_100ns_total: 0,
            ram_ws: SizeGauge::new(),
            ram_priv: SizeGauge::new(),
            ram_priv_active: SizeGauge::new(),
        }
    }

    /// Adds a sample.
    pub fn record_sample(
        &mut self,
        cpu_time_100ns: u64,
        cycles_delta: Option<u64>,
        ws_bytes: u64,
        priv_bytes: u64,
        priv_active_bytes: u64,
    )
        requires
            old(self).wf(),
            old(self).sample_count < u32::MAX,
        ensures
            *final(self) == old(self).with(
                cpu_time_100ns,
                cycles_delta,
                ws_bytes,
                priv_bytes,
                priv_active_bytes,
            ),
            final(self).ram_ws.sum_bytes == old(self).ram_ws.sum_bytes + ws_bytes,
            final(self).ram_priv.sum_bytes == old(self).ram_priv.sum_bytes + priv_bytes,
            final(self).ram_priv_active.sum_bytes == old(self).ram_priv_active.sum_bytes
                + priv_active_bytes,
            final(self).wf(),
    {
        let count: u32 = self.sample_count;
        self.sample_count = count + 1;
        self.cpu_time_100ns_total = self.cpu_time_100ns_total.saturating_add(cpu_time_100ns);
        if let Some(cycles) = cycles_delta {
            self.cpu_cycles_total = self.cpu_cycles_total.saturating_add(cycles);
        }
        self.ram_ws.add_sample(count, ws_bytes);
        self.ram_priv.add_sample(count, priv_bytes);
        self.ram_priv_active.add_sample(count, priv_active_bytes);
    }

    /// Forgets all samples.
    pub fn reset(&mut self)
        ensures
            *final(self) == MetricAccumulator::zero(),
            final(self).wf(),
    {
        *self = MetricAccumulator::new();
    }

    /// Converts accumulated 100ns units to milliseconds.
    /// Accumulating raw 100ns units and converting only at flush avoids per-sample truncation loss.
    pub fn cpu_time_ms(&self) -> (ms: u64)
        ensures
            ms == self.cpu_time_100ns_total / 10_000,
    {
        self.cpu_time_100ns_total / 10_000
    }

    /// The same as `cpu_time_ms`.
    pub fn app_cpu_time_ms(&self) -> (ms: u64)
        ensures
            ms == self.cpu_time_100ns_total / 10_000,
    {
        self.cpu_time_ms()
    }
}

impl Default for MetricAccumulator {
    fn default() -> (a: Self)
        ensures
            a == MetricAccumulator::zero(),
            a.wf(),
    {
        MetricAccumulator::new()
    }
}

/// What was measured of the machine in a window, apart from percentages.
#[derive(Debug, Clone, Copy, PartialEq, Eq, Structural)]
pub struct SystemAccumulator {
    pub sample_count: u32,
    pub ram_used: SizeGauge,
}

impl SystemAccumulator {
    /// An accumulator without samples.
    pub open spec fn zero() -> SystemAccumulator {
        SystemAccumulator { sample_count: 0, ram_used: SizeGauge::zero() }
    }

    /// Whether the accumulator can be the result of its number of samples.
    pub open spec fn wf(self) -> bool {
        &&& self.ram_used.fits(self.sample_count)
        &&& self.sample_count == 0 ==> self == SystemAccumulator::zero()
    }

    /// The accumulator after one more sample.
    pub open spec fn with(self, ram_used_bytes: u64) -> SystemAccumulator {
        SystemAccumulator {
            sample_count: (self.sample_count + 1) as u32,
            ram_used: self.ram_used.with(ram_used_bytes),
        }
    }

    /// An accumulator without samples.
    pub fn new() -> (a: Self)
        ensures
            a == SystemAccumulator::zero(),
            a.wf(),
    {
        SystemAccumulator { sample_count: 0, ram_used: SizeGauge::new() }
    }

    /// Adds a sample.
    pub fn record_sample(&mut self, ram_used_bytes: u64)
        requires
            old(self).wf(),
            old(self).sample_count < u32::MAX,
        ensures
            *final(self) == old(self).with(ram_used_bytes),
            final(self).ram_used.sum_bytes == old(self).ram_used.sum_bytes + ram_used_bytes,
            final(self).wf(),
    {
        let count: u32 = self.sample_count;
        self.sample_count = count + 1;
        self.ram_used.add_sample(count, ram_used_bytes);
    }

    /// Forgets all samples.
    pub fn reset(&mut self)
        ensures
            *final(self) == SystemAccumulator::zero(),
            final(self).wf(),
    {
        *self = SystemAccumulator::new();
    }
}

impl Default for SystemAccumulator {
    fn default() -> (a: Self)
        ensures
            a == SystemAccumulator::zero(),
            a.wf(),
    {
        SystemAccumulator::new()
    }
}

/// The sum of some numbers.
pub open spec fn sum_of(deltas: Seq<u64>) -> nat
    decreases deltas.len(),
{
    if deltas.len() == 0 {
        0
    } else {
        sum_of(deltas.drop_last()) + deltas.last() as nat
    }
}

/// The sum of some durations in units of 100 nanoseconds, each converted to whole
/// milliseconds.
pub open spec fn sum_of_ms(deltas: Seq<u64>) -> nat
    decreases deltas.len(),
{
    if deltas.len() == 0 {
        0
    } else {
        sum_of_ms(deltas.drop_last()) + (deltas.last() / 10_000) as nat
    }
}

/// Converting the sum to milliseconds never gives less than adding up the
/// converted parts, and is short of the true duration by less than one
/// millisecond.
pub proof fn law_converting_once_loses_less(deltas: Seq<u64>)
    ensures
        sum_of_ms(deltas) <= sum_of(deltas) / 10_000,
        sum_of(deltas) - 10_000 * (sum_of(deltas) / 10_000) < 10_000,
    decreases deltas.len(),
{
    if deltas.len() > 0 {
        law_converting_once_loses_less(deltas.drop_last());
        let a = sum_of(deltas.drop_last()) as int;
        let b = deltas.last() as int;
        assert(a / 10_000 + b / 10_000 <= (a + b) / 10_000);
    }
}

/// The largest of some numbers, or zero.
pub open spec fn peak_of(numbers: Seq<u64>) -> u64
    decreases numbers.len(),
{
    if numbers.len() == 0 {
        0
    } else if numbers.last() > peak_of(numbers.drop_last()) {
        numbers.last()
    } else {
        peak_of(numbers.drop_last())
    }
}

/// A number, or the largest that a `u64` holds where that is less.
pub open spec fn capped(n: nat) -> u64 {
    if n <= u64::MAX {
        n as u64
    } else {
        u64::MAX
    }
}

/// A gauge after some samples.
pub open spec fn gauge_after(gauge: SizeGauge, sizes: Seq<u64>) -> SizeGauge
    decreases sizes.len(),
{
    if sizes.len() == 0 {
        gauge
    } else {
        gauge_after(gauge, sizes.drop_last()).with(sizes.last())
    }
}

/// The values of one sample of a process.
pub struct ProcessSample {
    pub cpu_time_100ns: u64,
    pub cycles_delta: Option<u64>,
    pub ws_bytes: u64,
    pub priv_bytes: u64,
    pub priv_active_bytes: u64,
}

/// The cycles of a sample, or zero where they are not known.
pub open spec fn known_cycles(sample: ProcessSample) -> u64 {
    match sample.cycles_delta {
        Some(cycles) => cycles,
        None => 0,
    }
}

/// An accumulator after some samples were recorded one after the other.
pub open spec fn recorded(
    accumulator: MetricAccumulator,
    samples: Seq<ProcessSample>,
) -> MetricAccumulator
    decreases samples.len(),
{
    if samples.len() == 0 {
        accumulator
    } else {
        let s = samples.last();
        recorded(accumulator, samples.drop_last()).with(
            s.cpu_time_100ns,
            s.cycles_delta,
            s.ws_bytes,
            s.priv_bytes,
            s.priv_active_bytes,
        )
    }
}

/// The accumulator of the machine after some samples were recorded one after the
/// other.
pub open spec fn system_recorded(
    accumulator: SystemAccumulator,
    sizes: Seq<u64>,
) -> SystemAccumulator
    decreases sizes.len(),
{
    if sizes.len() == 0 {
        accumulator
    } else {
        system_recorded(accumulator, sizes.drop_last()).with(sizes.last())
    }
}

/// A sum of numbers that a `u64` holds.
proof fn lemma_sum_of(numbers: Seq<u64>)
    ensures
        sum_of(numbers) <= numbers.len() * u64::MAX,
    decreases numbers.len(),
{
    if numbers.len() > 0 {
        lemma_sum_of(numbers.drop_last());
        let n = numbers.len() as int;
        assert((n - 1) * u64::MAX + u64::MAX == n * u64::MAX) by (nonlinear_arith);
    }
}

/// The peak is none of the numbers only where there are none but zeros, and no number
/// exceeds it.
pub proof fn law_peak_is_the_largest(numbers: Seq<u64>)
    ensures
        forall|i: int| 0 <= i < numbers.len() ==> #[trigger] numbers[i] <= peak_of(numbers),
        peak_of(numbers) == 0 || numbers.contains(peak_of(numbers)),
    decreases numbers.len(),
{
    if numbers.len() > 0 {
        let before = numbers.drop_last();
        law_peak_is_the_largest(before);
        assert forall|i: int| 0 <= i < numbers.len() implies #[trigger] numbers[i] <= peak_of(
            numbers,
        ) by {
            if i < before.len() {
                assert(before[i] == numbers[i]);
            }
        }
        if peak_of(numbers) == numbers.last() {
            assert(numbers[numbers.len() - 1] == peak_of(numbers));
        } else if peak_of(before) != 0 {
            let k = choose|k: int| 0 <= k < before.len() && before[k] == peak_of(before);
            assert(numbers[k] == peak_of(numbers));
        }
    }
}

/// A gauge holds the sum and the peak of its samples.
pub proof fn law_gauge_holds_sum_and_peak(sizes: Seq<u64>)
    requires
        sizes.len() <= u32::MAX,
    ensures
        gauge_after(SizeGauge::zero(), sizes).sum_bytes == sum_of(sizes),
        gauge_after(SizeGauge::zero(), sizes).peak_bytes == peak_of(sizes),
    decreases sizes.len(),
{
    if sizes.len() > 0 {
        law_gauge_holds_sum_and_peak(sizes.drop_last());
        lemma_sum_of(sizes);
        let n = sizes.len() as int;
        assert(n * u64::MAX <= u32::MAX * u64::MAX) by (nonlinear_arith)
            requires
                0 <= n <= u32::MAX,
        ;
    }
}

/// After some samples, each part of an accumulator is what its own values of the
/// samples make of it.
proof fn lemma_recorded(samples: Seq<ProcessSample>)
    requires
        samples.len() <= u32::MAX,
    ensures
        ({
            let a = recorded(MetricAccumulator::zero(), samples);
            let zero = SizeGauge::zero();
            &&& a.sample_count == samples.len()
            &&& a.cpu_time_100ns_total == capped(
                sum_of(samples.map_values(|s: ProcessSample| s.cpu_time_100ns)),
            )
            &&& a.cpu_cycles_total == capped(
                sum_of(samples.map_values(|s: ProcessSample| known_cycles(s))),
            )
            &&& a.ram_ws == gauge_after(zero, samples.map_values(|s: ProcessSample| s.ws_bytes))
            &&& a.ram_priv == gauge_after(
                zero,
                samples.map_values(|s: ProcessSample| s.priv_bytes),
            )
            &&& a.ram_priv_active == gauge_after(
                zero,
                samples.map_values(|s: ProcessSample| s.priv_active_bytes),
            )
        }),
    decreases samples.len(),
{
    if samples.len() > 0 {
        let before = samples.drop_last();
        lemma_recorded(before);
        let time = |s: ProcessSample| s.cpu_time_100ns;
        let cycles = |s: ProcessSample| known_cycles(s);
        let ws = |s: ProcessSample| s.ws_bytes;
        let private = |s: ProcessSample| s.priv_bytes;
        let active = |s: ProcessSample| s.priv_active_bytes;
        assert(samples.map_values(time).drop_last() == before.map_values(time));
        assert(samples.map_values(cycles).drop_last() == before.map_values(cycles));
        assert(samples.map_values(ws).drop_last() == before.map_values(ws));
        assert(samples.map_values(private).drop_last() == before.map_values(private));
        assert(samples.map_values(active).drop_last() == before.map_values(active));
    }
}

/// A new accumulator that has recorded some samples holds their number, the sums of
/// their CPU times and of the cycles that are known, up to the largest number that a
/// `u64` holds, and the sum and the peak of each size. A sample whose cycles are not
/// known counts all the same.
pub proof fn law_accumulator_holds_sums_and_peaks(samples: Seq<ProcessSample>)
    requires
        samples.len() <= u32::MAX,
    ensures
        ({
            let a = recorded(MetricAccumulator::zero(), samples);
            let ws = samples.map_values(|s: ProcessSample| s.ws_bytes);
            let private = samples.map_values(|s: ProcessSample| s.priv_bytes);
            let active = samples.map_values(|s: ProcessSample| s.priv_active_bytes);
            &&& a.sample_count == samples.len()
            &&& a.cpu_time_100ns_total == capped(
                sum_of(samples.map_values(|s: ProcessSample| s.cpu_time_100ns)),
            )
            &&& a.cpu_cycles_total == capped(
                sum_of(samples.map_values(|s: ProcessSample| known_cycles(s))),
            )
            &&& a.ram_ws.sum_bytes == sum_of(ws)
            &&& a.ram_ws.peak_bytes == peak_of(ws)
            &&& a.ram_priv.sum_bytes == sum_of(private)
            &&& a.ram_priv.peak_bytes == peak_of(private)
            &&& a.ram_priv_active.sum_bytes == sum_of(active)
            &&& a.ram_priv_active.peak_bytes == peak_of(active)
        }),
{
    lemma_recorded(samples);
    law_gauge_holds_sum_and_peak(samples.map_values(|s: ProcessSample| s.ws_bytes));
    law_gauge_holds_sum_and_peak(samples.map_values(|s: ProcessSample| s.priv_bytes));
    law_gauge_holds_sum_and_peak(samples.map_values(|s: ProcessSample| s.priv_active_bytes));
}

/// A new accumulator of the machine that has recorded some samples holds their number,
/// and the sum and the peak of the memory in use.
pub proof fn law_system_accumulator_holds_sum_and_peak(sizes: Seq<u64>)
    requires
        sizes.len() <= u32::MAX,
    ensures
        ({
            let a = system_recorded(SystemAccumulator::zero(), sizes);
            &&& a.sample_count == sizes.len()
            &&& a.ram_used.sum_bytes == sum_of(sizes)
            &&& a.ram_used.peak_bytes == peak_of(sizes)
        }),
    decreases sizes.len(),
{
    law_gauge_holds_sum_and_peak(sizes);
    if sizes.len() > 0 {
        law_system_accumulator_holds_sum_and_peak(sizes.drop_last());
        law_gauge_holds_sum_and_peak(sizes.drop_last());
    }
}

/// There is room in a sum for one more size.
pub(crate) proof fn lemma_sums_have_room(gauge: SizeGauge, count: u32)
    requires
        gauge.fits(count),
    ensures
        gauge.sum_bytes + u64::MAX <= u128::MAX,
{
    let n = count as int;
    let peak = gauge.peak_bytes as int;
    assert(n * peak <= u32::MAX * u64::MAX) by (nonlinear_arith)
        requires
            0 <= n <= u32::MAX,
            0 <= peak <= u64::MAX,
    ;
}

/// A sample adds one to the count of an accumulator, adds each of its sizes to that
/// size's own sum, and raises the peak of that size where it is larger. CPU time and
/// cycles are added up to the largest number that a `u64` holds; cycles that are not
/// known add nothing.
pub proof fn law_sample_goes_where_it_belongs(
    a: &mut MetricAccumulator,
    time: u64,
    cycles: Option<u64>,
    ws: u64,
    private: u64,
    active: u64,
)
    requires
        call_ensures(
            MetricAccumulator::record_sample,
            (a, time, cycles, ws, private, active),
            (),
        ),
        old(a).sample_count < u32::MAX,
    ensures
        final(a).sample_count == old(a).sample_count + 1,
        final(a).ram_ws.sum_bytes == old(a).ram_ws.sum_bytes + ws,
        final(a).ram_priv.sum_bytes == old(a).ram_priv.sum_bytes + private,
        final(a).ram_priv_active.sum_bytes == old(a).ram_priv_active.sum_bytes + active,
        final(a).ram_ws.peak_bytes >= ws && final(a).ram_ws.peak_bytes >= old(a).ram_ws.peak_bytes,
        final(a).ram_ws.peak_bytes == ws || final(a).ram_ws.peak_bytes == old(
            a,
        ).ram_ws.peak_bytes,
        final(a).ram_priv.peak_bytes >= private && final(a).ram_priv.peak_bytes >= old(
            a,
        ).ram_priv.peak_bytes,
        final(a).ram_priv.peak_bytes == private || final(a).ram_priv.peak_bytes == old(
            a,
        ).ram_priv.peak_bytes,
        final(a).ram_priv_active.peak_bytes >= active && final(a).ram_priv_active.peak_bytes
            >= old(a).ram_priv_active.peak_bytes,
        final(a).ram_priv_active.peak_bytes == active || final(a).ram_priv_active.peak_bytes
            == old(a).ram_priv_active.peak_bytes,
        old(a).cpu_time_100ns_total + time <= u64::MAX ==> final(a).cpu_time_100ns_total == old(
            a,
        ).cpu_time_100ns_total + time,
        old(a).cpu_time_100ns_total + time > u64::MAX ==> final(a).cpu_time_100ns_total
            == u64::MAX,
        cycles is None ==> final(a).cpu_cycles_total == old(a).cpu_cycles_total,
        cycles matches Some(c) ==> {
            &&& old(a).cpu_cycles_total + c <= u64::MAX ==> final(a).cpu_cycles_total == old(
                a,
            ).cpu_cycles_total + c
            &&& old(a).cpu_cycles_total + c > u64::MAX ==> final(a).cpu_cycles_total == u64::MAX
        },
{
}

/// The same of a sample of the machine.
pub proof fn law_machine_sample_goes_where_it_belongs(a: &mut SystemAccumulator, used: u64)
    requires
        call_ensures(SystemAccumulator::record_sample, (a, used), ()),
        old(a).sample_count < u32::MAX,
    ensures
        final(a).sample_count == old(a).sample_count + 1,
        final(a).ram_used.sum_bytes == old(a).ram_used.sum_bytes + used,
        final(a).ram_used.peak_bytes >= used,
        final(a).ram_used.peak_bytes >= old(a).ram_used.peak_bytes,
        final(a).ram_used.peak_bytes == used || final(a).ram_used.peak_bytes == old(
            a,
        ).ram_used.peak_bytes,
{
}

/// An accumulator that is new, or was reset, has counted nothing.
pub proof fn law_new_accumulators_are_empty(
    a: MetricAccumulator,
    b: &mut MetricAccumulator,
    s: SystemAccumulator,
    u: &mut SystemAccumulator,
)
    requires
        call_ensures(MetricAccumulator::new, (), a),
        call_ensures(MetricAccumulator::reset, (b,), ()),
        call_ensures(SystemAccumulator::new, (), s),
        call_ensures(SystemAccumulator::reset, (u,), ()),
    ensures
        a == *final(b),
        a.sample_count == 0 && a.cpu_cycles_total == 0 && a.cpu_time_100ns_total == 0,
        a.ram_ws.sum_bytes == 0 && a.ram_ws.peak_bytes == 0,
        a.ram_priv.sum_bytes == 0 && a.ram_priv.peak_bytes == 0,
        a.ram_priv_active.sum_bytes == 0 && a.ram_priv_active.peak_bytes == 0,
        s == *final(u),
        s.sample_count == 0 && s.ram_used.sum_bytes == 0 && s.ram_used.peak_bytes == 0,
{
}

/// A millisecond is ten thousand units of 100 nanoseconds: the CPU time is the largest
/// whole number of milliseconds that the accumulated time holds.
pub proof fn law_cpu_time_in_milliseconds(a: MetricAccumulator, ms: u64)
    requires
        call_ensures(MetricAccumulator::cpu_time_ms, (&a,), ms) || call_ensures(
            MetricAccumulator::app_cpu_time_ms,
            (&a,),
            ms,
        ),
    ensures
        ms * 10_000 <= a.cpu_time_100ns_total < ms * 10_000 + 10_000,
{
}

/// A sum begins at zero, and one more number makes it larger by just that. A peak begins
/// at zero, and one more number raises it where it is larger.
pub proof fn law_sums_add_each_number(numbers: Seq<u64>, n: u64)
    ensures
        sum_of(Seq::<u64>::empty()) == 0,
        sum_of(numbers.push(n)) == sum_of(numbers) + n,
        peak_of(Seq::<u64>::empty()) == 0,
        peak_of(numbers.push(n)) >= n && peak_of(numbers.push(n)) >= peak_of(numbers),
        peak_of(numbers.push(n)) == n || peak_of(numbers.push(n)) == peak_of(numbers),
{
    assert(numbers.push(n).drop_last() == numbers);
}

/// Accumulators and gauges begin without samples, however they are made.
pub proof fn law_default_accumulators_are_empty(
    a: MetricAccumulator,
    s: SystemAccumulator,
    g: SizeGauge,
)
    requires
        call_ensures(MetricAccumulator::default, (), a),
        call_ensures(SystemAccumulator::default, (), s),
        call_ensures(SizeGauge::new, (), g),
    ensures
        g.sum_bytes == 0 && g.peak_bytes == 0,
        a.sample_count == 0 && a.cpu_cycles_total == 0 && a.cpu_time_100ns_total == 0,
        a.ram_ws == g && a.ram_priv == g && a.ram_priv_active == g,
        s.sample_count == 0 && s.ram_used == g,
{
}

} // verus!
