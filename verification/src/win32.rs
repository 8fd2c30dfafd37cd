//! What the operating system reports, decoded: counters, times and command lines.
use vstd::prelude::*;

pub use crate::net::{
    is_ipv6_loopback, is_loopback, KernelNetIpv4Prefix, KernelNetIpv6Prefix, NetCounterSlot,
    SharedNetState, MAX_TRACKED_SLOTS,
};
pub use crate::utf16::str_to_utf16_null;

use crate::text;
use crate::text::{find, from_chars, push_padded, to_chars, trim, CharClass};

verus! {

/// A point in time or a duration in units of 100 nanoseconds, as two halves.
#[derive(Debug, Clone, Copy, PartialEq, Eq, Structural)]
pub struct FileTime {
    pub low: u32,
    pub high: u32,
}

/// Puts the two halves of a `FileTime` together.
pub fn filetime_to_u64(ft: FileTime) -> (r: u64)
    ensures
        r == ft.high * 0x1_0000_0000 + ft.low,
{
    let high: u64 = ft.high as u64;
    let low: u64 = ft.low as u64;
    assert((high << 32) | low == high * 0x1_0000_0000 + low) by (bit_vector)
        requires
            high <= 0xffff_ffff,
            low <= 0xffff_ffff,
    ;
    (high << 32) | low
}

/// Whether the number of a handle stands for an open object: neither zero nor the
/// number of an invalid handle.
pub fn is_valid_handle(raw: isize) -> (r: bool)
    ensures
        r == (raw != 0 && raw != -1),
{
    raw != 0 && raw != -1
}

/// `a + b` modulo two to the power of 64.
pub open spec fn wrapping_sum(a: u64, b: u64) -> int {
    if a + b <= u64::MAX {
        a + b
    } else {
        a + b - 0x1_0000_0000_0000_0000
    }
}

/// `a - b`, or zero if that is less.
pub open spec fn saturating_difference(a: u64, b: u64) -> int {
    if a >= b {
        a - b
    } else {
        0
    }
}

/// The CPU time of a process, in units of 100 nanoseconds.
#[derive(Debug, Clone, Copy, PartialEq, Eq, Structural)]
pub struct ProcessTimes {
    pub kernel_time: u64,
    pub user_time: u64,
}

impl ProcessTimes {
    /// The times of a process as the system hands them out.
    pub fn from_filetimes(kernel: FileTime, user: FileTime) -> (r: ProcessTimes)
        ensures
            r.kernel_time == kernel.high * 0x1_0000_0000 + kernel.low,
            r.user_time == user.high * 0x1_0000_0000 + user.low,
    {
        ProcessTimes { kernel_time: filetime_to_u64(kernel), user_time: filetime_to_u64(user) }
    }

    /// The time in the kernel and outside of it together.
    pub fn total(&self) -> (r: u64)
        ensures
            r == wrapping_sum(self.kernel_time, self.user_time),
    {
        self.kernel_time.wrapping_add(self.user_time)
    }
}

/// The memory of a process, in bytes.
#[derive(Debug, Clone, Copy, PartialEq, Eq, Structural)]
pub struct ProcessMemory {
    pub working_set_bytes: u64,
    pub private_bytes: u64,
    pub private_active_bytes: u64,
}

impl ProcessMemory {
    /// The memory according to the counters with a private working set. Where the
    /// system reports none, the private bytes stand in for it.
    pub fn with_private_working_set(
        working_set_size: usize,
        private_usage: usize,
        private_working_set_size: usize,
    ) -> (r: ProcessMemory)
        ensures
            r.working_set_bytes == working_set_size,
            r.private_bytes == private_usage,
            r.private_active_bytes == (if private_working_set_size > 0 {
                private_working_set_size
            } else {
                private_usage
            }),
    {
        ProcessMemory {
            working_set_bytes: working_set_size as u64,
            private_bytes: private_usage as u64,
            private_active_bytes: if private_working_set_size > 0 {
                private_working_set_size as u64
            } else {
                private_usage as u64
            },
        }
    }

    /// The memory according to the counters of systems that know no private
    /// working set.
    pub fn without_private_working_set(working_set_size: usize, private_usage: usize) -> (r:
        ProcessMemory)
        ensures
            r.working_set_bytes == working_set_size,
            r.private_bytes == private_usage,
            r.private_active_bytes == private_usage,
    {
        ProcessMemory {
            working_set_bytes: working_set_size as u64,
            private_bytes: private_usage as u64,
            private_active_bytes: private_usage as u64,
        }
    }

    /// The memory that one of two queries tells: the counters with a private working
    /// set, or else those without one, which older systems know. `None` stands for a
    /// query that failed.
    pub fn from_answers(
        ex2: Option<(usize, usize, usize)>,
        ex: Option<(usize, usize)>,
    ) -> (r: Option<ProcessMemory>)
        ensures
            r is None <==> ex2 is None && ex is None,
            ex2 matches Some((working_set, private, active)) ==> r == Some(
                ProcessMemory {
                    working_set_bytes: working_set as u64,
                    private_bytes: private as u64,
                    private_active_bytes: if active > 0 {
                        active as u64
                    } else {
                        private as u64
                    },
                },
            ),
            ex2 is None ==> (ex matches Some((working_set, private)) ==> r == Some(
                ProcessMemory {
                    working_set_bytes: working_set as u64,
                    private_bytes: private as u64,
                    private_active_bytes: private as u64,
                },
            )),
    {
        match ex2 {
            Some((working_set, private, active)) => Some(
                ProcessMemory::with_private_working_set(working_set, private, active),
            ),
            None => match ex {
                Some((working_set, private)) => Some(
                    ProcessMemory::without_private_working_set(working_set, private),
                ),
                None => None,
            },
        }
    }
}

/// The CPU times of the whole machine, in units of 100 nanoseconds.
#[derive(Debug, Clone, Copy, PartialEq, Eq, Structural)]
pub struct SystemTimes {
    pub idle_time: u64,
    pub kernel_time: u64,
    pub user_time: u64,
}

impl SystemTimes {
    /// The times of the machine as the system hands them out.
    pub fn from_filetimes(idle: FileTime, kernel: FileTime, user: FileTime) -> (r: SystemTimes)
        ensures
            r.idle_time == idle.high * 0x1_0000_0000 + idle.low,
            r.kernel_time == kernel.high * 0x1_0000_0000 + kernel.low,
            r.user_time == user.high * 0x1_0000_0000 + user.low,
    {
        SystemTimes {
            idle_time: filetime_to_u64(idle),
            kernel_time: filetime_to_u64(kernel),
            user_time: filetime_to_u64(user),
        }
    }

    /// Total scheduler time across all processors. The kernel time already
    /// contains the idle time.
    pub fn total(&self) -> (r: u64)
        ensures
            r == wrapping_sum(self.kernel_time, self.user_time),
    {
        self.kernel_time.wrapping_add(self.user_time)
    }
}

/// The physical memory of the machine, in bytes.
#[derive(Debug, Clone, Copy, PartialEq, Eq, Structural)]
pub struct SystemMemory {
    pub total_phys_bytes: u64,
    pub avail_phys_bytes: u64,
}

impl SystemMemory {
    /// The memory in use.
    pub fn used_phys_bytes(&self) -> (r: u64)
        ensures
            r == saturating_difference(self.total_phys_bytes, self.avail_phys_bytes),
    {
        self.total_phys_bytes.saturating_sub(self.avail_phys_bytes)
    }
}

/// A process in a snapshot of all processes.
#[derive(Debug)]
pub struct ProcessSnapshotEntry {
    pub pid: u32,
    pub exe_name: String,
}

/// A UTC timestamp in ISO 8601 form.
pub open spec fn utc_text(
    year: nat,
    month: nat,
    day: nat,
    hour: nat,
    minute: nat,
    second: nat,
) -> Seq<char> {
    text::zero_padded(year, 4) + seq!['-'] + text::zero_padded(month, 2) + seq!['-']
        + text::zero_padded(day, 2) + seq!['T'] + text::zero_padded(hour, 2) + seq![':']
        + text::zero_padded(minute, 2) + seq![':'] + text::zero_padded(second, 2) + seq!['Z']
}

/// Formats a UTC time, e.g. `2026-09-13T14:50:00Z`.
pub fn utc_timestamp(year: u16, month: u16, day: u16, hour: u16, minute: u16, second: u16) -> (s:
    String)
    ensures
        s@ == utc_text(
            year as nat,
            month as nat,
            day as nat,
            hour as nat,
            minute as nat,
            second as nat,
        ),
{
    let mut s: String = String::new();
    push_padded(&mut s, year as u64, 4);
    s.push('-');
    push_padded(&mut s, month as u64, 2);
    s.push('-');
    push_padded(&mut s, day as u64, 2);
    s.push('T');
    push_padded(&mut s, hour as u64, 2);
    s.push(':');
    push_padded(&mut s, minute as u64, 2);
    s.push(':');
    push_padded(&mut s, second as u64, 2);
    s.push('Z');
    assert(s@ == utc_text(
        year as nat,
        month as nat,
        day as nat,
        hour as nat,
        minute as nat,
        second as nat,
    ));
    s
}

/// Numbers of up to `width` digits fill exactly `width` places, all of them with
/// digits.
proof fn lemma_padded_width(n: nat, width: nat)
    requires
        width == 2 && n < 100 || width == 4 && n < 10000,
    ensures
        text::zero_padded(n, width).len() == width,
        text::all_digits(text::zero_padded(n, width)),
{
    text::lemma_decimal(n);
    reveal_with_fuel(text::decimal, 4);
    assert(text::decimal(n).len() <= width);
    assert forall|i: int| 0 <= i < width implies text::is_digit(
        #[trigger] text::zero_padded(n, width)[i],
    ) by {
        let pad = width - text::decimal(n).len();
        if i >= pad {
            assert(text::is_digit(text::decimal(n)[i - pad]));
        }
    }
}

/// A timestamp of a calendar date has twenty characters, the letter `T` between
/// date and time and a `Z` at the end, and nothing in it that CSV gives a meaning.
pub proof fn law_timestamp_shape(
    year: nat,
    month: nat,
    day: nat,
    hour: nat,
    minute: nat,
    second: nat,
)
    requires
        year < 10000,
        month < 100,
        day < 100,
        hour < 100,
        minute < 100,
        second < 100,
    ensures
        utc_text(year, month, day, hour, minute, second).len() == 20,
        utc_text(year, month, day, hour, minute, second)[10] == 'T',
        utc_text(year, month, day, hour, minute, second)[19] == 'Z',
        crate::output::is_plain(utc_text(year, month, day, hour, minute, second)),
{
    lemma_padded_width(year, 4);
    lemma_padded_width(month, 2);
    lemma_padded_width(day, 2);
    lemma_padded_width(hour, 2);
    lemma_padded_width(minute, 2);
    lemma_padded_width(second, 2);
    let s = utc_text(year, month, day, hour, minute, second);
    assert forall|i: int| 0 <= i < s.len() implies !crate::output::is_special(#[trigger] s[i]) by {
        if i < 4 {
            assert(text::is_digit(text::zero_padded(year, 4)[i]));
        } else if 5 <= i < 7 {
            assert(text::is_digit(text::zero_padded(month, 2)[i - 5]));
        } else if 8 <= i < 10 {
            assert(text::is_digit(text::zero_padded(day, 2)[i - 8]));
        } else if 11 <= i < 13 {
            assert(text::is_digit(text::zero_padded(hour, 2)[i - 11]));
        } else if 14 <= i < 16 {
            assert(text::is_digit(text::zero_padded(minute, 2)[i - 14]));
        } else if 17 <= i < 19 {
            assert(text::is_digit(text::zero_padded(second, 2)[i - 17]));
        }
    }
}

/// The arguments in a full command line: what follows the token of the executable,
/// which ends at white space or, where it is quoted, at its closing quote. There
/// are none where that quote is missing.
pub open spec fn arguments_of(command: Seq<char>) -> Seq<char> {
    let line = text::trimmed(command, CharClass::Whitespace);
    let end = if line.len() > 0 && line[0] == '"' {
        text::find_from(line, CharClass::One('"'), 1) + 1
    } else {
        text::find_from(line, CharClass::Whitespace, 0)
    };
    if end < line.len() {
        text::trimmed(line.skip(end), CharClass::Whitespace)
    } else {
        Seq::empty()
    }
}

/// Parses and extracts normalized arguments from a full Windows command-line string.
/// Preserves argument ordering and values while separating out the executable image token.
pub fn extract_arguments(full_cmd: &str) -> (s: String)
    ensures
        s@ == arguments_of(full_cmd@),
{
    let chars: Vec<char> = to_chars(full_cmd);
    let line: &[char] = trim(&chars, CharClass::Whitespace);
    let n: usize = line.len();
    if n == 0 {
        return String::new();
    }
    let mut end: usize = n;
    if line[0] == '"' {
        let close: usize = find(line, CharClass::One('"'), 1);
        if close < n {
            end = close + 1;
        }
    } else {
        end = find(line, CharClass::Whitespace, 0);
    }
    if end >= n {
        return String::new();
    }
    let after: &[char] = vstd::slice::slice_subrange(line, end, n);
    assert(after@ == line@.skip(end as int));
    from_chars(trim(after, CharClass::Whitespace))
}

/// The command line that starts a quoted executable has for its arguments what
/// stands after the closing quote, without the white space around it.
pub proof fn law_arguments_after_quoted_executable(exe: Seq<char>, rest: Seq<char>)
    requires
        forall|i: int| 0 <= i < exe.len() ==> #[trigger] exe[i] != '"',
    ensures
        arguments_of(seq!['"'] + exe + seq!['"'] + rest) == text::trimmed(
            rest,
            CharClass::Whitespace,
        ),
{
    let ws = CharClass::Whitespace;
    let token = seq!['"'] + exe + seq!['"'];
    let command = token + rest;
    let line = text::trimmed(command, ws);
    let tail = text::trim_end(rest, ws);
    text::lemma_trim_end_concat(token, rest, ws);
    assert(command[0] == '"');
    assert(text::trim_start(command, ws) == command);
    assert(token.last() == '"');
    assert(line == token + tail);
    text::lemma_find_from(line, CharClass::One('"'), 1);
    let close = text::find_from(line, CharClass::One('"'), 1);
    assert(line[token.len() - 1] == '"');
    assert forall|i: int| 1 <= i < token.len() - 1 implies #[trigger] line[i] != '"' by {
        assert(exe[i - 1] == line[i]);
    }
    assert(close == token.len() - 1);
    assert(line.skip(token.len() as int) == tail);
    text::lemma_trimmed_trim_end(rest, ws);
    if tail.len() == 0 {
        assert(tail == Seq::<char>::empty());
    }
}

/// The command line that starts an executable without quotes has for its arguments
/// what stands after the white space that ends its name, without the white space
/// around it.
pub proof fn law_arguments_after_plain_executable(exe: Seq<char>, rest: Seq<char>)
    requires
        exe.len() > 0,
        exe[0] != '"',
        forall|i: int| 0 <= i < exe.len() ==> !text::is_whitespace(#[trigger] exe[i]),
        rest.len() > 0 ==> text::is_whitespace(rest[0]),
    ensures
        arguments_of(exe + rest) == text::trimmed(rest, CharClass::Whitespace),
{
    let ws = CharClass::Whitespace;
    let command = exe + rest;
    let line = text::trimmed(command, ws);
    let tail = text::trim_end(rest, ws);
    text::lemma_trim_end_concat(exe, rest, ws);
    assert(command[0] == exe[0]);
    assert(text::trim_start(command, ws) == command);
    assert(!text::is_whitespace(exe[exe.len() - 1]));
    assert(line == exe + tail);
    text::lemma_find_from(line, ws, 0);
    let end = text::find_from(line, ws, 0);
    assert forall|i: int| 0 <= i < exe.len() implies !text::is_whitespace(#[trigger] line[i]) by {
        assert(line[i] == exe[i]);
    }
    text::lemma_trim_end_prefix(rest, ws);
    if tail.len() > 0 {
        assert(tail[0] == rest[0]);
        assert(line[exe.len() as int] == tail[0]);
    }
    assert(end == exe.len());
    assert(line.skip(exe.len() as int) == tail);
    text::lemma_trimmed_trim_end(rest, ws);
    if tail.len() == 0 {
        assert(tail == Seq::<char>::empty());
    }
}

/// A time in two halves counts the upper half 2^32 times.
pub proof fn law_halves_make_one_number(ft: FileTime, r: u64)
    requires
        call_ensures(filetime_to_u64, (ft,), r),
    ensures
        r == ft.high * 4_294_967_296 + ft.low,
        ft.high == 0 ==> r == ft.low,
{
}

/// Only zero and minus one stand for no object.
pub proof fn law_two_handles_are_invalid(raw: isize, r: bool)
    requires
        call_ensures(is_valid_handle, (raw,), r),
    ensures
        r <==> raw != 0 && raw != -1,
{
}

/// The times of a process are those that the system hands out, each in its place, and
/// the total counts both.
pub proof fn law_process_times_are_read(
    kernel: FileTime,
    user: FileTime,
    numbers: (u64, u64),
    times: ProcessTimes,
    total: u64,
)
    requires
        call_ensures(filetime_to_u64, (kernel,), numbers.0),
        call_ensures(filetime_to_u64, (user,), numbers.1),
        call_ensures(ProcessTimes::from_filetimes, (kernel, user), times),
        call_ensures(ProcessTimes::total, (&times,), total),
    ensures
        times.kernel_time == numbers.0,
        times.user_time == numbers.1,
        numbers.0 + numbers.1 <= u64::MAX ==> total == numbers.0 + numbers.1,
        numbers.0 + numbers.1 > u64::MAX ==> total == numbers.0 + numbers.1 - u64::MAX - 1,
{
}

/// The times of the machine are those that the system hands out, each in its place, and
/// the total counts the kernel time and the user time but not the idle time, which the
/// kernel time contains.
pub proof fn law_machine_times_are_read(
    idle: FileTime,
    kernel: FileTime,
    user: FileTime,
    numbers: (u64, u64, u64),
    times: SystemTimes,
    total: u64,
)
    requires
        call_ensures(filetime_to_u64, (idle,), numbers.0),
        call_ensures(filetime_to_u64, (kernel,), numbers.1),
        call_ensures(filetime_to_u64, (user,), numbers.2),
        call_ensures(SystemTimes::from_filetimes, (idle, kernel, user), times),
        call_ensures(SystemTimes::total, (&times,), total),
    ensures
        times.idle_time == numbers.0,
        times.kernel_time == numbers.1,
        times.user_time == numbers.2,
        numbers.1 + numbers.2 <= u64::MAX ==> total == numbers.1 + numbers.2,
        numbers.1 + numbers.2 > u64::MAX ==> total == numbers.1 + numbers.2 - u64::MAX - 1,
{
}

/// The memory of a process is what its counters say, each in its place. Where there is
/// no private working set, or where it is zero, the private bytes stand in for it.
pub proof fn law_memory_is_read(
    sizes: (usize, usize, usize),
    with: ProcessMemory,
    without: ProcessMemory,
    answers: (Option<(usize, usize, usize)>, Option<(usize, usize)>),
    read: Option<ProcessMemory>,
)
    requires
        call_ensures(
            ProcessMemory::with_private_working_set,
            (sizes.0, sizes.1, sizes.2),
            with,
        ),
        call_ensures(ProcessMemory::without_private_working_set, (sizes.0, sizes.1), without),
        call_ensures(ProcessMemory::from_answers, (answers.0, answers.1), read),
    ensures
        with.working_set_bytes == sizes.0,
        with.private_bytes == sizes.1,
        sizes.2 > 0 ==> with.private_active_bytes == sizes.2,
        sizes.2 == 0 ==> with.private_active_bytes == sizes.1,
        without.working_set_bytes == sizes.0,
        without.private_bytes == sizes.1,
        without.private_active_bytes == sizes.1,
        answers.0 == Some(sizes) ==> read == Some(with),
        answers.0 is None && answers.1 == Some((sizes.0, sizes.1)) ==> read == Some(without),
        answers.0 is None && answers.1 is None ==> read is None,
{
}

/// The memory in use and the memory that is left make up the whole.
pub proof fn law_used_memory_is_the_rest(m: SystemMemory, used: u64)
    requires
        call_ensures(SystemMemory::used_phys_bytes, (&m,), used),
    ensures
        m.avail_phys_bytes <= m.total_phys_bytes ==> used + m.avail_phys_bytes
            == m.total_phys_bytes,
        m.avail_phys_bytes > m.total_phys_bytes ==> used == 0,
{
}

/// The digits of numbers that are padded to two and four places.
proof fn lemma_padded_digits(n: nat)
    ensures
        n < 100 ==> {
            let s = text::zero_padded(n, 2);
            s.len() == 2 && s[0] as int == 48 + n / 10 && s[1] as int == 48 + n % 10
        },
        n < 10000 ==> {
            let s = text::zero_padded(n, 4);
            s.len() == 4 && s[0] as int == 48 + n / 1000 && s[1] as int == 48 + n / 100 % 10
                && s[2] as int == 48 + n / 10 % 10 && s[3] as int == 48 + n % 10
        },
{
    reveal_with_fuel(text::decimal, 4);
    if n < 10 {
        assert(text::decimal(n).len() == 1);
    } else if n < 100 {
        assert(text::decimal(n).len() == 2);
    } else if n < 1000 {
        assert(text::decimal(n).len() == 3);
    } else if n < 10000 {
        assert(text::decimal(n).len() == 4);
    }
}

/// A timestamp holds year, month, day, hour, minute and second in this order, each digit
/// at its place, with hyphens in the date, a `T` after it, colons in the time and a `Z`
/// at the end.
pub proof fn law_timestamp_tells_the_time(
    year: u16,
    month: u16,
    day: u16,
    hour: u16,
    minute: u16,
    second: u16,
    s: String,
)
    requires
        call_ensures(utc_timestamp, (year, month, day, hour, minute, second), s),
        year < 10000,
        month < 100,
        day < 100,
        hour < 100,
        minute < 100,
        second < 100,
    ensures
        s@.len() == 20,
        s@[0] as int == 48 + year / 1000 && s@[1] as int == 48 + year / 100 % 10,
        s@[2] as int == 48 + year / 10 % 10 && s@[3] as int == 48 + year % 10,
        s@[4] == '-',
        s@[5] as int == 48 + month / 10 && s@[6] as int == 48 + month % 10,
        s@[7] == '-',
        s@[8] as int == 48 + day / 10 && s@[9] as int == 48 + day % 10,
        s@[10] == 'T',
        s@[11] as int == 48 + hour / 10 && s@[12] as int == 48 + hour % 10,
        s@[13] == ':',
        s@[14] as int == 48 + minute / 10 && s@[15] as int == 48 + minute % 10,
        s@[16] == ':',
        s@[17] as int == 48 + second / 10 && s@[18] as int == 48 + second % 10,
        s@[19] == 'Z',
{
    lemma_padded_digits(year as nat);
    lemma_padded_digits(month as nat);
    lemma_padded_digits(day as nat);
    lemma_padded_digits(hour as nat);
    lemma_padded_digits(minute as nat);
    lemma_padded_digits(second as nat);
    let y = text::zero_padded(year as nat, 4);
    let mo = text::zero_padded(month as nat, 2);
    let d = text::zero_padded(day as nat, 2);
    let h = text::zero_padded(hour as nat, 2);
    let mi = text::zero_padded(minute as nat, 2);
    let se = text::zero_padded(second as nat, 2);
    assert(s@ == y + seq!['-'] + mo + seq!['-'] + d + seq!['T'] + h + seq![':'] + mi + seq![':']
        + se + seq!['Z']);
    assert(s@[0] == y[0] && s@[1] == y[1] && s@[2] == y[2] && s@[3] == y[3]);
    assert(s@[5] == mo[0] && s@[6] == mo[1] && s@[8] == d[0] && s@[9] == d[1]);
    assert(s@[11] == h[0] && s@[12] == h[1] && s@[14] == mi[0] && s@[15] == mi[1]);
    assert(s@[17] == se[0] && s@[18] == se[1]);
}

/// The arguments of a command line are what follows the executable, without the white
/// space around it. The executable is either one word or stands between quotation marks.
pub proof fn law_arguments_follow_the_executable(
    command: &str,
    pads: (Seq<char>, Seq<char>, Seq<char>),
    exe: Seq<char>,
    args: Seq<char>,
    s: String,
)
    requires
        call_ensures(extract_arguments, (command,), s),
        forall|i: int| 0 <= i < pads.0.len() ==> text::is_whitespace(#[trigger] pads.0[i]),
        forall|i: int| 0 <= i < pads.1.len() ==> text::is_whitespace(#[trigger] pads.1[i]),
        forall|i: int| 0 <= i < pads.2.len() ==> text::is_whitespace(#[trigger] pads.2[i]),
        args.len() > 0 ==> !text::is_whitespace(args[0]) && !text::is_whitespace(args.last()),
        ({
            ||| {
                &&& forall|i: int| 0 <= i < exe.len() ==> #[trigger] exe[i] != '"'
                &&& command@ == pads.0 + (seq!['"'] + exe + seq!['"']) + (pads.1 + args + pads.2)
            }
            ||| {
                &&& exe.len() > 0 && exe[0] != '"'
                &&& forall|i: int| 0 <= i < exe.len() ==> !text::is_whitespace(#[trigger] exe[i])
                &&& pads.1.len() > 0 || args.len() == 0
                &&& command@ == pads.0 + exe + (pads.1 + args + pads.2)
            }
        }),
    ensures
        s@ == args,
{
    let ws = CharClass::Whitespace;
    let rest = pads.1 + args + pads.2;
    text::lemma_trimmed_between(pads.1, args, pads.2, ws);
    let quoted = seq!['"'] + exe + seq!['"'];
    if command@ == pads.0 + quoted + rest && forall|i: int|
        0 <= i < exe.len() ==> #[trigger] exe[i] != '"' {
        assert(command@ == pads.0 + (quoted + rest));
        lemma_arguments_after_padding(pads.0, quoted + rest);
        law_arguments_after_quoted_executable(exe, rest);
    } else {
        assert(command@ == pads.0 + (exe + rest));
        if rest.len() > 0 {
            if pads.1.len() > 0 {
                assert(rest[0] == pads.1[0]);
            } else {
                assert(rest[0] == pads.2[0]);
            }
        }
        lemma_arguments_after_padding(pads.0, exe + rest);
        law_arguments_after_plain_executable(exe, rest);
    }
}

/// White space before the executable does not matter.
proof fn lemma_arguments_after_padding(a: Seq<char>, command: Seq<char>)
    requires
        forall|i: int| 0 <= i < a.len() ==> text::is_whitespace(#[trigger] a[i]),
        command.len() > 0,
        !text::is_whitespace(command[0]),
    ensures
        arguments_of(a + command) == arguments_of(command),
{
    let ws = CharClass::Whitespace;
    let (i, j) = text::lemma_trimmed_place(command, ws);
    let line = text::trimmed(command, ws);
    if i > 0 {
        assert(ws.has(command[0]));
    }
    if j == 0 {
        assert(ws.has(command[0]));
    }
    let tail = command.skip(j);
    assert(line == command.subrange(0, j));
    assert(command == line + tail);
    assert forall|k: int| 0 <= k < tail.len() implies ws.has(#[trigger] tail[k]) by {
        assert(tail[k] == command[j + k]);
    }
    assert(a + command == a + line + tail);
    text::lemma_trimmed_between(a, line, tail, ws);
}

/// A quotation mark that is never closed leaves no arguments, and so does white space
/// alone.
pub proof fn law_no_arguments_without_an_end(
    command: &str,
    a: Seq<char>,
    exe: Seq<char>,
    s: String,
)
    requires
        call_ensures(extract_arguments, (command,), s),
        forall|i: int| 0 <= i < a.len() ==> text::is_whitespace(#[trigger] a[i]),
        forall|i: int| 0 <= i < exe.len() ==> #[trigger] exe[i] != '"',
        command@ == a || command@ == a + seq!['"'] + exe,
    ensures
        s@.len() == 0,
{
    let ws = CharClass::Whitespace;
    let one = CharClass::One('"');
    let empty = Seq::<char>::empty();
    if command@ == a {
        assert(a == a + empty + empty);
        text::lemma_trimmed_between(a, empty, empty, ws);
        text::lemma_find_from(empty, ws, 0);
    } else {
        let rest = seq!['"'] + exe;
        assert(command@ == a + rest);
        assert(rest[0] == '"');
        lemma_arguments_after_padding(a, rest);
        let line = text::trimmed(rest, ws);
        let (i, j) = text::lemma_trimmed_place(rest, ws);
        if i > 0 {
            assert(ws.has(rest[0]));
        }
        if j == 0 {
            assert(ws.has(rest[0]));
        }
        assert(line[0] == '"');
        text::lemma_find_from(line, one, 1);
        let close = text::find_from(line, one, 1);
        if close < line.len() {
            assert(line[close] == '"');
            assert(line[close] == exe[close - 1]);
        }
    }
}

/// A timestamp is made of its six numbers, the year padded to four digits and the others
/// to two, with the signs of ISO 8601 between and behind them.
pub proof fn law_timestamp_is_made_of_padded_numbers(
    time: (u16, u16, u16, u16, u16, u16),
    s: String,
    year: &mut String,
    month: &mut String,
    day: &mut String,
    hour: &mut String,
    minute: &mut String,
    second: &mut String,
)
    requires
        call_ensures(utc_timestamp, (time.0, time.1, time.2, time.3, time.4, time.5), s),
        call_ensures(push_padded, (year, time.0 as u64, 4), ()),
        call_ensures(push_padded, (month, time.1 as u64, 2), ()),
        call_ensures(push_padded, (day, time.2 as u64, 2), ()),
        call_ensures(push_padded, (hour, time.3 as u64, 2), ()),
        call_ensures(push_padded, (minute, time.4 as u64, 2), ()),
        call_ensures(push_padded, (second, time.5 as u64, 2), ()),
        old(year)@.len() == 0 && old(month)@.len() == 0 && old(day)@.len() == 0,
        old(hour)@.len() == 0 && old(minute)@.len() == 0 && old(second)@.len() == 0,
    ensures
        s@ == final(year)@ + seq!['-'] + final(month)@ + seq!['-'] + final(day)@ + seq!['T']
            + final(hour)@ + seq![':'] + final(minute)@ + seq![':'] + final(second)@ + seq!['Z'],
{
    let e = Seq::<char>::empty();
    assert(old(year)@ =~= e && old(month)@ =~= e && old(day)@ =~= e);
    assert(old(hour)@ =~= e && old(minute)@ =~= e && old(second)@ =~= e);
    let y = text::zero_padded(time.0 as nat, 4);
    let mo = text::zero_padded(time.1 as nat, 2);
    let d = text::zero_padded(time.2 as nat, 2);
    let h = text::zero_padded(time.3 as nat, 2);
    let mi = text::zero_padded(time.4 as nat, 2);
    let se = text::zero_padded(time.5 as nat, 2);
    assert(e + y =~= y && e + mo =~= mo && e + d =~= d && e + h =~= h && e + mi =~= mi && e + se
        =~= se);
}

} // verus!
